//! Alias removal keeps the instance of a DAG linear: every row of the optimized
//! instance is linear in every column, so the solver's answers on it are the
//! values of every solution, and the outputs it finds are the DAG's outputs.
use super::agreement::{lemma_columns_apart, lemma_well_formed_assignable, lemma_width_fits};
use super::alias_rows::lemma_rows_at;
use super::agreement::{matches_row, matrix_of, row_is};
use super::alias_solutions::int_view;
use super::aliases::{
    alias_pair, alias_removal_outcome, at_row, compact_entry, compacted, describes_alias_removal, follow, is_alias_pattern, is_kept_row,
    is_live, kept_rows, kept_rows_upto, merge_resolved, merged_row, nonzero_entry, position_of, resolved,
    substituted_upto, substitution, substitution_upto,
};
use super::layout::{
    const_column, fourth_column, is_public_node, lemma_private_before_monotone, node_column, node_count_fits,
    num_private_vars, square_column,
};
use super::r1cs::lemma_row_owner;
use super::alias_solutions::carried_assignment;
use super::r1cs::assignment;
use super::solver::{
    instance_width, is_reference, row_entries, row_linear_at, row_only_at, rows_linear, solver_outcome, z_values,
    WitnessError,
};
use super::witness::{inputs_fit, is_witness};
use super::spartan::{describes_instance, lemma_row_start_step, matrix_view, row_start, unit, SpartanInstance};
use crate::field::{field_order, FieldElement};
use vstd::arithmetic::div_mod::lemma_small_mod;
use crate::dag::graph::{op_operands, DAG};
use crate::dag::node::{op_constraint_count, OpType};
use vstd::prelude::*;

verus! {

/// The node that a chain of aliases (and scalings by 1) starting at node `i` reads
/// in the end: following sources while the node is such a copy.
pub open spec fn alias_root(dag: DAG, i: int) -> int
    decreases dag.nodes.len() - i,
{
    if 0 <= i < dag.nodes.len() {
        match dag.nodes[i].op {
            OpType::Alias(s) => if i < s < dag.nodes.len() {
                alias_root(dag, s as int)
            } else {
                i
            },
            OpType::Scale(s, k) => if k == 1 && i < s < dag.nodes.len() {
                alias_root(dag, s as int)
            } else {
                i
            },
            _ => i,
        }
    } else {
        i
    }
}

/// A chain of copies only moves to later nodes.
pub proof fn lemma_alias_root_bounds(dag: DAG, i: int)
    requires
        0 <= i < dag.nodes.len(),
    ensures
        i <= alias_root(dag, i) < dag.nodes.len(),
    decreases dag.nodes.len() - i,
{
    match dag.nodes[i].op {
        OpType::Alias(s) => if i < s < dag.nodes.len() {
            lemma_alias_root_bounds(dag, s as int);
        },
        OpType::Scale(s, k) => if k == 1 && i < s < dag.nodes.len() {
            lemma_alias_root_bounds(dag, s as int);
        },
        _ => {},
    }
}

/// Columns `k` and `v` are the columns of two nodes with the same root.
pub open spec fn same_tree(dag: DAG, k: usize, v: usize) -> bool {
    exists|a: int, b: int|
        0 <= a < dag.nodes.len() && 0 <= b < dag.nodes.len() && #[trigger] node_column(dag, a) == k
            && #[trigger] node_column(dag, b) == v && alias_root(dag, a) == alias_root(dag, b)
}

/// The substitution pair of a row of a DAG instance joins two columns of one tree.
pub proof fn lemma_dag_pair_tree(dag: DAG, inst: SpartanInstance, r: int)
    requires
        dag.is_well_formed(),
        node_count_fits(dag.nodes.len() as nat),
        describes_instance(inst, dag),
        0 <= r < inst.num_cons,
    ensures
        alias_pair(inst, r) matches Some(p) ==> same_tree(dag, p.0, p.1),
{
    let n = dag.nodes.len() as int;
    super::spartan::lemma_rows_from_total(dag);
    let i = lemma_row_owner(dag, 0, r);
    lemma_row_start_step(dag, i);
    let r0 = row_start(dag, i) as int;
    let t = r - r0;
    if alias_pair(inst, r) is Some {
        let p = alias_pair(inst, r)->Some_0;
        lemma_rows_at(dag, inst, i, t);
        lemma_well_formed_assignable(dag);
        lemma_width_fits(dag);
        lemma_columns_apart(dag);
        let ea = row_entries(inst.A@, r);
        let eb = row_entries(inst.B@, r);
        let ec = row_entries(inst.C@, r);
        let one = const_column(dag);
        let out = node_column(dag, i);
        assert(is_alias_pattern(ea, eb, ec, inst.num_vars));
        match dag.nodes[i].op {
            OpType::Alias(src) => {
                assert(op_operands(dag.nodes[i].op)[0] == src);
                let cs = node_column(dag, src as int);
                super::agreement::lemma_filter_one(super::spartan::unit(r0, out), r);
                super::agreement::lemma_filter_one(super::spartan::unit(r0, cs), r);
                assert(super::agreement::node_row(dag, i, t, 0)[0] == super::spartan::unit(r, out));
                assert(super::agreement::node_row(dag, i, t, 2)[0] == super::spartan::unit(r, cs));
                assert(ea[0].0 == out && ec[0].0 == cs);
                assert(alias_root(dag, i) == alias_root(dag, src as int));
                if p.0 == out {
                    assert(node_column(dag, i) == p.0 && node_column(dag, src as int) == p.1);
                } else {
                    assert(node_column(dag, src as int) == p.0 && node_column(dag, i) == p.1);
                }
            },
            OpType::Scale(src, k) => {
                assert(op_operands(dag.nodes[i].op)[0] == src);
                let cs = node_column(dag, src as int);
                if k == 0 {
                    super::agreement::lemma_filter_none(Seq::<(int, int, nat)>::empty(), r);
                    assert(ea.len() == 0);
                } else {
                    super::agreement::lemma_filter_one((r0, cs as int, k as nat), r);
                    super::agreement::lemma_filter_one(super::spartan::unit(r0, out), r);
                    assert(super::agreement::node_row(dag, i, t, 0)[0] == (r, cs as int, k as nat));
                    assert(super::agreement::node_row(dag, i, t, 2)[0] == super::spartan::unit(r, out));
                    assert(ea[0].0 == cs && ea[0].1.value() == k && ec[0].0 == out);
                    assert(k == 1);
                    assert(alias_root(dag, i) == alias_root(dag, src as int));
                    if p.0 == cs {
                        assert(node_column(dag, src as int) == p.0 && node_column(dag, i) == p.1);
                    } else {
                        assert(node_column(dag, i) == p.0 && node_column(dag, src as int) == p.1);
                    }
                }
            },
            _ => {
                super::alias_rows::lemma_node_pair(dag, inst, i, t);
            },
        }
    }
}

/// Every pair of the substitution built from the rows before `rows` joins two
/// columns of one tree.
pub proof fn lemma_dag_substitution_tree(dag: DAG, inst: SpartanInstance, rows: int)
    requires
        dag.is_well_formed(),
        node_count_fits(dag.nodes.len() as nat),
        describes_instance(inst, dag),
        0 <= rows <= inst.num_cons,
    ensures
        forall|k: usize|
            #[trigger] substitution_upto(inst, rows).contains_key(k) ==> same_tree(
                dag,
                k,
                substitution_upto(inst, rows)[k],
            ),
    decreases rows,
{
    if rows > 0 {
        lemma_dag_substitution_tree(dag, inst, rows - 1);
        lemma_dag_pair_tree(dag, inst, rows - 1);
        let prev = substitution_upto(inst, rows - 1);
        let cur = substitution_upto(inst, rows);
        assert forall|k: usize| #[trigger] cur.contains_key(k) implies same_tree(dag, k, cur[k]) by {
            match alias_pair(inst, rows - 1) {
                Some(p) => {
                    if prev.contains_key(p.0) {
                        assert(cur == prev);
                        assert(same_tree(dag, k, prev[k]));
                    } else {
                        assert(cur == prev.insert(p.0, p.1));
                        if k != p.0 {
                            assert(prev.contains_key(k));
                            assert(same_tree(dag, k, prev[k]));
                        }
                    }
                },
                None => {
                    assert(cur == prev);
                    assert(same_tree(dag, k, prev[k]));
                },
            }
        }
    }
}

/// Two nodes with one column are one node.
pub proof fn lemma_node_column_injective(dag: DAG, a: int, b: int)
    requires
        dag.is_well_formed(),
        0 <= a < dag.nodes.len(),
        0 <= b < dag.nodes.len(),
        node_column(dag, a) == node_column(dag, b),
    ensures
        a == b,
{
    lemma_columns_apart(dag);
    if a < b {
        assert(node_column(dag, a) != node_column(dag, b));
    } else if b < a {
        assert(node_column(dag, b) != node_column(dag, a));
    }
}

/// Following the substitution from the column of node `a` stays on the columns of
/// nodes with the root of `a`.
pub proof fn lemma_follow_tree(dag: DAG, inst: SpartanInstance, a: int, t: nat) -> (b: int)
    requires
        dag.is_well_formed(),
        node_count_fits(dag.nodes.len() as nat),
        describes_instance(inst, dag),
        0 <= a < dag.nodes.len(),
    ensures
        0 <= b < dag.nodes.len(),
        node_column(dag, b) == follow(substitution(inst), node_column(dag, a) as usize, t),
        alias_root(dag, b) == alias_root(dag, a),
    decreases t,
{
    let n = dag.nodes.len() as int;
    lemma_well_formed_assignable(dag);
    lemma_width_fits(dag);
    super::r1cs::lemma_columns_in_bounds(dag);
    if t == 0 {
        a
    } else {
        let b0 = lemma_follow_tree(dag, inst, a, (t - 1) as nat);
        let m = substitution(inst);
        let p = follow(m, node_column(dag, a) as usize, (t - 1) as nat);
        if m.contains_key(p) {
            lemma_dag_substitution_tree(dag, inst, inst.num_cons as int);
            assert(same_tree(dag, p, m[p]));
            let (x, y) = choose|x: int, y: int|
                0 <= x < n && 0 <= y < n && #[trigger] node_column(dag, x) == p
                    && #[trigger] node_column(dag, y) == m[p] && alias_root(dag, x) == alias_root(dag, y);
            lemma_node_column_injective(dag, x, b0);
            y
        } else {
            b0
        }
    }
}

/// The end of the substitution chain from the column of node `a` is the column of
/// a node with the root of `a`.
pub proof fn lemma_resolved_tree(dag: DAG, inst: SpartanInstance, a: int) -> (b: int)
    requires
        dag.is_well_formed(),
        node_count_fits(dag.nodes.len() as nat),
        describes_instance(inst, dag),
        0 <= a < dag.nodes.len(),
    ensures
        0 <= b < dag.nodes.len(),
        node_column(dag, b) == resolved(inst, node_column(dag, a) as usize),
        alias_root(dag, b) == alias_root(dag, a),
{
    lemma_follow_tree(dag, inst, a, substitution(inst).dom().len())
}

/// A column that is no node's column is left in place by the substitution.
pub proof fn lemma_resolved_other(dag: DAG, inst: SpartanInstance, c: usize)
    requires
        dag.is_well_formed(),
        node_count_fits(dag.nodes.len() as nat),
        describes_instance(inst, dag),
        forall|d: int| 0 <= d < dag.nodes.len() ==> #[trigger] node_column(dag, d) != c,
    ensures
        resolved(inst, c) == c,
{
    let m = substitution(inst);
    lemma_dag_substitution_tree(dag, inst, inst.num_cons as int);
    if m.contains_key(c) {
        assert(same_tree(dag, c, m[c]));
    }
    assert(follow(m, c, 0) == c);
    super::aliases::lemma_follow_fixed(m, c, 0, m.dom().len());
}

/// The entries of row `q` of the optimized matrix that come from kept row `r` of `m`.
pub open spec fn out_piece(inst: SpartanInstance, m: Seq<(usize, usize, [u8; 32])>, r: int, q: int) -> Seq<
    (int, int, nat),
> {
    int_view(merged_row(inst, m, r).map_values(at_row(q as usize)).map_values(compact_entry(inst)))
}

/// Filtering entries that all lie in row `r` keeps them all.
pub proof fn lemma_filter_all(s: Seq<(int, int, nat)>, r: int)
    requires
        forall|k: int| 0 <= k < s.len() ==> (#[trigger] s[k]).0 == r,
    ensures
        s.filter(row_is(r)) == s,
    decreases s.len(),
{
    if s.len() > 0 {
        let prev = s.drop_last();
        assert forall|k: int| 0 <= k < prev.len() implies (#[trigger] prev[k]).0 == r by {
            assert(prev[k] == s[k]);
        }
        lemma_filter_all(prev, r);
        assert(s =~= prev.push(s.last()));
        prev.lemma_filter_push(s.last(), row_is(r));
    } else {
        assert(s.filter(row_is(r)) =~= s) by {
            reveal_with_fuel(Seq::filter, 1);
        }
    }
}

/// Row `q` of the substituted, compacted entries of the kept rows before `n` is the
/// piece of the `q`-th kept row.
pub proof fn lemma_substituted_filter(inst: SpartanInstance, m: Seq<(usize, usize, [u8; 32])>, n: int, q: int)
    requires
        0 <= n <= usize::MAX,
    ensures
        int_view(substituted_upto(inst, m, n).map_values(compact_entry(inst))).filter(row_is(q)) == if 0 <= q
            < kept_rows_upto(inst, n).len() {
            out_piece(inst, m, kept_rows_upto(inst, n)[q], q)
        } else {
            Seq::<(int, int, nat)>::empty()
        },
    decreases n,
{
    if n > 0 {
        lemma_substituted_filter(inst, m, n - 1, q);
        super::aliases::lemma_kept_rows_len(inst, n - 1);
        let prev = substituted_upto(inst, m, n - 1);
        let kp = kept_rows_upto(inst, n - 1);
        if is_kept_row(inst, n - 1) {
            let row = kp.len() as usize;
            let piece = merged_row(inst, m, n - 1).map_values(at_row(row));
            assert(substituted_upto(inst, m, n) == prev + piece);
            let a = int_view(prev.map_values(compact_entry(inst)));
            let b = int_view(piece.map_values(compact_entry(inst)));
            assert(int_view((prev + piece).map_values(compact_entry(inst))) =~= a + b);
            Seq::filter_distributes_over_add(a, b, row_is(q));
            assert(kept_rows_upto(inst, n) == kp.push(n - 1));
            if q == kp.len() {
                assert forall|k: int| 0 <= k < b.len() implies (#[trigger] b[k]).0 == q by {}
                lemma_filter_all(b, q);
                assert(b == out_piece(inst, m, n - 1, q));
                assert(a.filter(row_is(q)) + b =~= b);
            } else {
                assert forall|k: int| 0 <= k < b.len() implies (#[trigger] b[k]).0 != q by {}
                super::agreement::lemma_filter_none(b, q);
                assert(a.filter(row_is(q)) + b.filter(row_is(q)) =~= a.filter(row_is(q)));
                if 0 <= q < kp.len() {
                    assert(kept_rows_upto(inst, n)[q] == kp[q]);
                }
            }
        }
    } else {
        assert(int_view(substituted_upto(inst, m, n).map_values(compact_entry(inst))) =~= Seq::<
            (int, int, nat),
        >::empty());
        super::agreement::lemma_filter_none(Seq::<(int, int, nat)>::empty(), q);
    }
}

/// Row `q` of a matrix of the optimized instance is the piece of the `q`-th kept row.
pub proof fn lemma_out_row_filter(inst: SpartanInstance, out: SpartanInstance, w: int, q: int)
    requires
        describes_alias_removal(out, inst),
        0 <= w < 3,
    ensures
        matrix_view(matrix_of(out, w)).filter(row_is(q)) == if 0 <= q < out.num_cons {
            out_piece(inst, matrix_of(inst, w), kept_rows(inst)[q], q)
        } else {
            Seq::<(int, int, nat)>::empty()
        },
{
    super::alias_solutions::lemma_matrix_view_valued(matrix_of(out, w));
    lemma_substituted_filter(inst, matrix_of(inst, w), inst.num_cons as int, q);
}

/// Compaction keeps apart the columns it keeps.
pub proof fn lemma_compacted_apart(inst: SpartanInstance, x: usize, y: usize)
    requires
        x != y,
        x < inst.num_vars ==> is_live(inst, x),
        y < inst.num_vars ==> is_live(inst, y),
    ensures
        compacted(inst, x) != compacted(inst, y),
{
    let nv = inst.num_vars as int;
    super::aliases::lemma_live_before_bounded(inst, 0, nv);
    if x < nv {
        super::alias_solutions::lemma_live_column(inst, x);
    }
    if y < nv {
        super::alias_solutions::lemma_live_column(inst, y);
    }
    if x < nv && y < nv {
        if x < y {
            super::aliases::lemma_live_before_bounded(inst, x + 1, y as int);
        } else {
            super::aliases::lemma_live_before_bounded(inst, y + 1, x as int);
        }
    }
}

/// The piece of a row whose entries in `m` are a single column `c` of coefficient 1.
pub proof fn lemma_single_piece(inst: SpartanInstance, m: Seq<(usize, usize, [u8; 32])>, r: int, q: int, c: usize)
    requires
        row_entries(m, r).len() == 1,
        row_entries(m, r)[0].0 == c,
        row_entries(m, r)[0].1.value() == 1,
        0 <= q <= usize::MAX,
    ensures
        merged_row(inst, m, r) == seq![(resolved(inst, c), 1nat)],
        out_piece(inst, m, r, q) == seq![unit(q, compacted(inst, resolved(inst, c)) as nat)],
{
    let es = row_entries(m, r);
    let col = resolved(inst, c);
    assert(es.drop_last() =~= Seq::<(usize, FieldElement)>::empty());
    assert(merge_resolved(inst, es.drop_last()) =~= Seq::<(usize, nat)>::empty());
    assert(position_of(Seq::<(usize, nat)>::empty(), col) is None);
    lemma_small_mod(1, field_order());
    let merged = merge_resolved(inst, es);
    assert(merged =~= seq![(col, 1nat)]);
    assert(merged =~= Seq::<(usize, nat)>::empty().push((col, 1nat)));
    Seq::<(usize, nat)>::empty().lemma_filter_push((col, 1nat), nonzero_entry());
    assert(Seq::<(usize, nat)>::empty().filter(nonzero_entry()) =~= Seq::<(usize, nat)>::empty()) by {
        reveal_with_fuel(Seq::filter, 1);
    }
    assert(merged_row(inst, m, r) =~= seq![(col, 1nat)]);
    assert(out_piece(inst, m, r, q) =~= seq![unit(q, compacted(inst, col) as nat)]);
}

/// Every column of a piece is the compacted end of the substitution chain of one of
/// the row's entries.
pub proof fn lemma_piece_columns(inst: SpartanInstance, m: Seq<(usize, usize, [u8; 32])>, r: int, q: int, k: int)
    requires
        0 <= k < out_piece(inst, m, r, q).len(),
    ensures
        exists|j: int|
            0 <= j < row_entries(m, r).len() && out_piece(inst, m, r, q)[k].1 == compacted(
                inst,
                merged_row(inst, m, r)[k].0,
            ) && merged_row(inst, m, r)[k].0 == resolved(inst, #[trigger] row_entries(m, r)[j].0),
{
    let entries = row_entries(m, r);
    let merged = merge_resolved(inst, entries);
    let mr = merged_row(inst, m, r);
    super::alias_solutions::lemma_merge_columns(inst, entries);
    assert(merged.filter(nonzero_entry()).contains(mr[k]));
    merged.lemma_filter_contains_rev(nonzero_entry(), mr[k]);
    let i = choose|i: int| 0 <= i < merged.len() && merged[i] == mr[k];
    let j = choose|j: int| 0 <= j < entries.len() && #[trigger] merged[i].0 == resolved(inst, #[trigger] entries[j].0);
    assert(0 <= j < entries.len() && out_piece(inst, m, r, q)[k].1 == compacted(inst, mr[k].0) && mr[k].0 == resolved(
        inst,
        entries[j].0,
    ));
}

/// The square and fourth-power columns of a `Pow5` node are no node's column.
pub proof fn lemma_power_columns_apart(dag: DAG, i: int)
    requires
        dag.is_well_formed(),
        node_count_fits(dag.nodes.len() as nat),
        0 <= i < dag.nodes.len(),
        dag.nodes[i].op is Pow5,
    ensures
        forall|d: int| 0 <= d < dag.nodes.len() ==> #[trigger] node_column(dag, d) != square_column(dag, i),
        forall|d: int| 0 <= d < dag.nodes.len() ==> #[trigger] node_column(dag, d) != fourth_column(dag, i),
        square_column(dag, i) < fourth_column(dag, i) < num_private_vars(dag),
{
    let n = dag.nodes.len() as int;
    lemma_columns_apart(dag);
    assert forall|d: int| 0 <= d < n implies #[trigger] node_column(dag, d) != square_column(dag, i)
        && node_column(dag, d) != fourth_column(dag, i) by {
        if d < i {
            lemma_private_before_monotone(dag, d + 1, i);
            lemma_private_before_monotone(dag, i + 1, n);
            lemma_private_before_monotone(dag, d + 1, n);
        } else if d > i {
            assert(square_column(dag, i) != node_column(dag, d));
        }
    }
}

/// The columns of the piece of kept row `r` of matrix `w` avoid a public column
/// `c` that is no node's column, when each of the row's entries sits at a node's
/// column.
pub proof fn lemma_piece_avoids(dag: DAG, inst: SpartanInstance, w: int, r: int, q: int, ids: Seq<int>, c: usize)
    requires
        dag.is_well_formed(),
        node_count_fits(dag.nodes.len() as nat),
        describes_instance(inst, dag),
        0 <= w < 3,
        0 <= r < inst.num_cons,
        is_kept_row(inst, r),
        ids.len() == row_entries(matrix_of(inst, w), r).len(),
        forall|j: int|
            0 <= j < ids.len() ==> 0 <= #[trigger] ids[j] < dag.nodes.len() && node_column(dag, ids[j])
                == row_entries(matrix_of(inst, w), r)[j].0,
        c >= inst.num_vars,
        forall|d: int| 0 <= d < dag.nodes.len() ==> #[trigger] node_column(dag, d) != c,
    ensures
        forall|k: int|
            0 <= k < out_piece(inst, matrix_of(inst, w), r, q).len() ==> (#[trigger] out_piece(
                inst,
                matrix_of(inst, w),
                r,
                q,
            )[k]).1 != compacted(inst, c),
{
    let m = matrix_of(inst, w);
    let es = row_entries(m, r);
    let piece = out_piece(inst, m, r, q);
    lemma_well_formed_assignable(dag);
    lemma_width_fits(dag);
    super::r1cs::lemma_columns_in_bounds(dag);
    assert forall|k: int| 0 <= k < piece.len() implies (#[trigger] piece[k]).1 != compacted(inst, c) by {
        lemma_piece_columns(inst, m, r, q, k);
        let j = choose|j: int|
            0 <= j < es.len() && piece[k].1 == compacted(inst, merged_row(inst, m, r)[k].0) && merged_row(
                inst,
                m,
                r,
            )[k].0 == resolved(inst, #[trigger] es[j].0);
        let b = lemma_resolved_tree(dag, inst, ids[j]);
        let x = merged_row(inst, m, r)[k].0;
        assert(x == node_column(dag, b));
        lemma_piece_live(inst, w, r, k);
        lemma_compacted_apart(inst, x, c);
    }
}

/// A private column of a kept row's merged entries is live.
pub proof fn lemma_piece_live(inst: SpartanInstance, w: int, r: int, k: int)
    requires
        0 <= w < 3,
        0 <= r < inst.num_cons,
        is_kept_row(inst, r),
        0 <= k < merged_row(inst, matrix_of(inst, w), r).len(),
    ensures
        merged_row(inst, matrix_of(inst, w), r)[k].0 < inst.num_vars ==> is_live(
            inst,
            merged_row(inst, matrix_of(inst, w), r)[k].0,
        ),
{
    super::alias_solutions::lemma_merged_referenced(inst, matrix_of(inst, w), inst.num_cons as int, r, k);
}

/// A row of node entries that is the single column `c` with coefficient 1 gives the
/// solver's entries of that row the same shape.
pub proof fn lemma_single_entries(es: Seq<(usize, FieldElement)>, vs: Seq<(int, int, nat)>, r: int, c: nat)
    requires
        matches_row(es, vs),
        vs == seq![unit(r, c)],
    ensures
        es.len() == 1,
        es[0].0 == c,
        es[0].1.value() == 1,
{
    assert(vs[0] == unit(r, c));
}

/// The pieces of a product row `x * y = z` (one entry of coefficient 1 in each
/// matrix) are linear when `z`'s column differs from the product's common column.
pub proof fn lemma_product_piece_linear(
    dag: DAG,
    inst: SpartanInstance,
    r: int,
    q: int,
    j: int,
    ca: nat,
    cb: nat,
    cc: nat,
)
    requires
        dag.is_well_formed(),
        node_count_fits(dag.nodes.len() as nat),
        describes_instance(inst, dag),
        0 <= r < inst.num_cons,
        is_kept_row(inst, r),
        0 <= q <= usize::MAX,
        matches_row(row_entries(inst.A@, r), seq![unit(r, ca)]),
        matches_row(row_entries(inst.B@, r), seq![unit(r, cb)]),
        matches_row(row_entries(inst.C@, r), seq![unit(r, cc)]),
        resolved(inst, ca as usize) == resolved(inst, cb as usize) ==> resolved(inst, cc as usize) != resolved(
            inst,
            ca as usize,
        ),
    ensures
        row_linear_at(
            out_piece(inst, inst.A@, r, q),
            out_piece(inst, inst.B@, r, q),
            out_piece(inst, inst.C@, r, q),
            q,
            j,
        ),
{
    lemma_single_entries(row_entries(inst.A@, r), seq![unit(r, ca)], r, ca);
    lemma_single_entries(row_entries(inst.B@, r), seq![unit(r, cb)], r, cb);
    lemma_single_entries(row_entries(inst.C@, r), seq![unit(r, cc)], r, cc);
    let xa = resolved(inst, ca as usize);
    let xb = resolved(inst, cb as usize);
    let xc = resolved(inst, cc as usize);
    lemma_single_piece(inst, inst.A@, r, q, ca as usize);
    lemma_single_piece(inst, inst.B@, r, q, cb as usize);
    lemma_single_piece(inst, inst.C@, r, q, cc as usize);
    lemma_piece_live(inst, 0, r, 0);
    lemma_piece_live(inst, 1, r, 0);
    lemma_piece_live(inst, 2, r, 0);
    if compacted(inst, xa) == compacted(inst, xb) {
        if xa != xb {
            lemma_compacted_apart(inst, xa, xb);
        }
        lemma_compacted_apart(inst, xc, xa);
    }
    super::agreement::lemma_single_rows_linear(
        q,
        compacted(inst, xa) as nat,
        compacted(inst, xb) as nat,
        compacted(inst, xc) as nat,
        j,
    );
}

/// The pieces of a row whose B side is the constant column alone, and whose A side
/// reads node columns, are linear.
pub proof fn lemma_const_piece_linear(dag: DAG, inst: SpartanInstance, r: int, q: int, j: int, ids: Seq<int>)
    requires
        dag.is_well_formed(),
        node_count_fits(dag.nodes.len() as nat),
        describes_instance(inst, dag),
        0 <= r < inst.num_cons,
        is_kept_row(inst, r),
        0 <= q <= usize::MAX,
        matches_row(row_entries(inst.B@, r), seq![unit(r, const_column(dag))]),
        ids.len() == row_entries(inst.A@, r).len(),
        forall|k: int|
            0 <= k < ids.len() ==> 0 <= #[trigger] ids[k] < dag.nodes.len() && node_column(dag, ids[k])
                == row_entries(inst.A@, r)[k].0,
    ensures
        row_linear_at(
            out_piece(inst, inst.A@, r, q),
            out_piece(inst, inst.B@, r, q),
            out_piece(inst, inst.C@, r, q),
            q,
            j,
        ),
{
    let one = const_column(dag);
    lemma_columns_apart(dag);
    lemma_well_formed_assignable(dag);
    lemma_width_fits(dag);
    super::r1cs::lemma_columns_in_bounds(dag);
    lemma_single_entries(row_entries(inst.B@, r), seq![unit(r, one)], r, one);
    lemma_resolved_other(dag, inst, one as usize);
    lemma_single_piece(inst, inst.B@, r, q, one as usize);
    lemma_piece_avoids(dag, inst, 0, r, q, ids, one as usize);
    let pa = out_piece(inst, inst.A@, r, q);
    assert forall|k: int| 0 <= k < pa.len() implies (#[trigger] pa[k]).1 != compacted(inst, one as usize) as nat by {
        assert(pa[k] == out_piece(inst, matrix_of(inst, 0), r, q)[k]);
    }
    super::agreement::lemma_const_b_row_linear(
        pa,
        q,
        compacted(inst, one as usize) as nat,
        out_piece(inst, inst.C@, r, q),
        j,
    );
}

/// The pieces of a kept row of an alias node are linear in every column.
proof fn lemma_alias_piece_linear(dag: DAG, inst: SpartanInstance, i: int, t: int, q: int, j: int)
    requires
        dag.is_well_formed(),
        node_count_fits(dag.nodes.len() as nat),
        describes_instance(inst, dag),
        0 <= i < dag.nodes.len(),
        0 <= t < op_constraint_count(dag.nodes[i].op),
        is_kept_row(inst, row_start(dag, i) + t),
        0 <= q <= usize::MAX,
        dag.nodes[i].op is Alias,
    ensures
        row_linear_at(
            out_piece(inst, inst.A@, row_start(dag, i) + t, q),
            out_piece(inst, inst.B@, row_start(dag, i) + t, q),
            out_piece(inst, inst.C@, row_start(dag, i) + t, q),
            q,
            j,
        ),
{
    let n = dag.nodes.len() as int;
    lemma_row_start_step(dag, i);
    super::spartan::lemma_rows_from_antitone(dag, 0, i);
    super::spartan::lemma_rows_from_total(dag);
    let r0 = row_start(dag, i) as int;
    let r = r0 + t;
    lemma_rows_at(dag, inst, i, t);
    lemma_well_formed_assignable(dag);
    lemma_width_fits(dag);
    lemma_columns_apart(dag);
    super::r1cs::lemma_columns_in_bounds(dag);
    let one = const_column(dag);
    let out = node_column(dag, i);
    let ops = op_operands(dag.nodes[i].op);
    let ea = row_entries(inst.A@, r);
    let src = dag.nodes[i].op->Alias_0;
    assert(ops[0] == src);
    let cs = node_column(dag, src as int);
    super::agreement::lemma_filter_one(unit(r0, out), r);
    super::agreement::lemma_filter_one(unit(r0, one), r);
    let ids = seq![i];
    assert(matches_row(ea, seq![unit(r, out)]));
    assert(ea[0].0 == out) by {
        assert(seq![unit(r, out)][0] == unit(r, out));
    }
    lemma_const_piece_linear(dag, inst, r, q, j, ids);
}

/// The pieces of a kept row of an addition node are linear in every column.
#[verifier::spinoff_prover]
proof fn lemma_add_piece_linear(dag: DAG, inst: SpartanInstance, i: int, t: int, q: int, j: int)
    requires
        dag.is_well_formed(),
        node_count_fits(dag.nodes.len() as nat),
        describes_instance(inst, dag),
        0 <= i < dag.nodes.len(),
        0 <= t < op_constraint_count(dag.nodes[i].op),
        is_kept_row(inst, row_start(dag, i) + t),
        0 <= q <= usize::MAX,
        dag.nodes[i].op is Add,
    ensures
        row_linear_at(
            out_piece(inst, inst.A@, row_start(dag, i) + t, q),
            out_piece(inst, inst.B@, row_start(dag, i) + t, q),
            out_piece(inst, inst.C@, row_start(dag, i) + t, q),
            q,
            j,
        ),
{
    let n = dag.nodes.len() as int;
    lemma_row_start_step(dag, i);
    super::spartan::lemma_rows_from_antitone(dag, 0, i);
    super::spartan::lemma_rows_from_total(dag);
    let r0 = row_start(dag, i) as int;
    let r = r0 + t;
    lemma_rows_at(dag, inst, i, t);
    lemma_well_formed_assignable(dag);
    lemma_width_fits(dag);
    super::r1cs::lemma_columns_in_bounds(dag);
    let one = const_column(dag);
    let out = node_column(dag, i);
    let ops = op_operands(dag.nodes[i].op);
    let ea = row_entries(inst.A@, r);
    let a = dag.nodes[i].op->Add_0;
    let b = dag.nodes[i].op->Add_1;
    assert(ops[0] == a && ops[1] == b);
    let ca = node_column(dag, a as int);
    let cb = node_column(dag, b as int);
    super::agreement::lemma_filter_one(unit(r0, ca), r);
    super::agreement::lemma_filter_two(unit(r0, ca), unit(r0, cb), r);
    super::agreement::lemma_filter_one(unit(r0, one), r);
    let va = seq![unit(r, ca), unit(r, cb)];
    assert(super::agreement::node_row(dag, i, t, 0) =~= va);
    assert(ea[0].0 == ca && ea[1].0 == cb) by {
        assert(va[0] == unit(r, ca));
        assert(va[1] == unit(r, cb));
    }
    let ids = seq![a as int, b as int];
    assert(ea.len() == 2);
    assert forall|k: int| 0 <= k < ids.len() implies 0 <= #[trigger] ids[k] < dag.nodes.len() && node_column(
        dag,
        ids[k],
    ) == ea[k].0 by {
        if k == 0 {
            assert(ids[k] == a);
        } else {
            assert(ids[k] == b);
        }
    }
    lemma_const_piece_linear(dag, inst, r, q, j, ids);
}

/// The pieces of a kept row of a scaling node are linear in every column.
proof fn lemma_scale_piece_linear(dag: DAG, inst: SpartanInstance, i: int, t: int, q: int, j: int)
    requires
        dag.is_well_formed(),
        node_count_fits(dag.nodes.len() as nat),
        describes_instance(inst, dag),
        0 <= i < dag.nodes.len(),
        0 <= t < op_constraint_count(dag.nodes[i].op),
        is_kept_row(inst, row_start(dag, i) + t),
        0 <= q <= usize::MAX,
        dag.nodes[i].op is Scale,
    ensures
        row_linear_at(
            out_piece(inst, inst.A@, row_start(dag, i) + t, q),
            out_piece(inst, inst.B@, row_start(dag, i) + t, q),
            out_piece(inst, inst.C@, row_start(dag, i) + t, q),
            q,
            j,
        ),
{
    let n = dag.nodes.len() as int;
    lemma_row_start_step(dag, i);
    super::spartan::lemma_rows_from_antitone(dag, 0, i);
    super::spartan::lemma_rows_from_total(dag);
    let r0 = row_start(dag, i) as int;
    let r = r0 + t;
    lemma_rows_at(dag, inst, i, t);
    lemma_well_formed_assignable(dag);
    lemma_width_fits(dag);
    lemma_columns_apart(dag);
    super::r1cs::lemma_columns_in_bounds(dag);
    let one = const_column(dag);
    let out = node_column(dag, i);
    let ops = op_operands(dag.nodes[i].op);
    let ea = row_entries(inst.A@, r);
    let src = dag.nodes[i].op->Scale_0;
    let k = dag.nodes[i].op->Scale_1;
    assert(ops[0] == src);
    let cs = node_column(dag, src as int);
    super::agreement::lemma_filter_one(unit(r0, one), r);
    if k == 0 {
        super::agreement::lemma_filter_none(Seq::<(int, int, nat)>::empty(), r);
        lemma_const_piece_linear(dag, inst, r, q, j, Seq::<int>::empty());
    } else {
        super::agreement::lemma_filter_one((r0, cs as int, k as nat), r);
        let va = seq![(r, cs as int, k as nat)];
        assert(ea[0].0 == cs) by {
            assert(va[0] == (r, cs as int, k as nat));
        }
        lemma_const_piece_linear(dag, inst, r, q, j, seq![src as int]);
    }
}

/// The pieces of a kept row of a multiplication node are linear in every column.
#[verifier::spinoff_prover]
proof fn lemma_mul_piece_linear(dag: DAG, inst: SpartanInstance, i: int, t: int, q: int, j: int)
    requires
        dag.is_well_formed(),
        node_count_fits(dag.nodes.len() as nat),
        describes_instance(inst, dag),
        0 <= i < dag.nodes.len(),
        0 <= t < op_constraint_count(dag.nodes[i].op),
        is_kept_row(inst, row_start(dag, i) + t),
        0 <= q <= usize::MAX,
        dag.nodes[i].op is Mul,
    ensures
        row_linear_at(
            out_piece(inst, inst.A@, row_start(dag, i) + t, q),
            out_piece(inst, inst.B@, row_start(dag, i) + t, q),
            out_piece(inst, inst.C@, row_start(dag, i) + t, q),
            q,
            j,
        ),
{
    let n = dag.nodes.len() as int;
    lemma_row_start_step(dag, i);
    super::spartan::lemma_rows_from_antitone(dag, 0, i);
    super::spartan::lemma_rows_from_total(dag);
    let r0 = row_start(dag, i) as int;
    let r = r0 + t;
    lemma_rows_at(dag, inst, i, t);
    lemma_well_formed_assignable(dag);
    lemma_width_fits(dag);
    super::r1cs::lemma_columns_in_bounds(dag);
    let one = const_column(dag);
    let out = node_column(dag, i);
    let ops = op_operands(dag.nodes[i].op);
    let ea = row_entries(inst.A@, r);
    let a = dag.nodes[i].op->Mul_0;
    let b = dag.nodes[i].op->Mul_1;
    assert(ops[0] == a && ops[1] == b);
    let ca = node_column(dag, a as int);
    let cb = node_column(dag, b as int);
    super::agreement::lemma_filter_one(unit(r0, ca), r);
    super::agreement::lemma_filter_one(unit(r0, cb), r);
    super::agreement::lemma_filter_one(unit(r0, out), r);
    assert(t == 0);
    assert(super::agreement::node_row(dag, i, t, 0) =~= seq![unit(r, ca)]);
    assert(super::agreement::node_row(dag, i, t, 1) =~= seq![unit(r, cb)]);
    assert(super::agreement::node_row(dag, i, t, 2) =~= seq![unit(r, out)]);
    assert(resolved(inst, out as usize) != resolved(inst, ca as usize)) by {
        let ba = lemma_resolved_tree(dag, inst, a as int);
        let bi = lemma_resolved_tree(dag, inst, i);
        lemma_alias_root_bounds(dag, a as int);
        assert(alias_root(dag, i) == i);
        assert(i < a);
        if node_column(dag, ba) == node_column(dag, bi) {
            lemma_node_column_injective(dag, ba, bi);
        }
    }
    lemma_product_piece_linear(dag, inst, r, q, j, ca, cb, out);
}

/// The pieces of a kept row of a fifth power node are linear in every column.
proof fn lemma_pow5_piece_linear(dag: DAG, inst: SpartanInstance, i: int, t: int, q: int, j: int)
    requires
        dag.is_well_formed(),
        node_count_fits(dag.nodes.len() as nat),
        describes_instance(inst, dag),
        0 <= i < dag.nodes.len(),
        0 <= t < op_constraint_count(dag.nodes[i].op),
        is_kept_row(inst, row_start(dag, i) + t),
        0 <= q <= usize::MAX,
        dag.nodes[i].op is Pow5,
    ensures
        row_linear_at(
            out_piece(inst, inst.A@, row_start(dag, i) + t, q),
            out_piece(inst, inst.B@, row_start(dag, i) + t, q),
            out_piece(inst, inst.C@, row_start(dag, i) + t, q),
            q,
            j,
        ),
{
    let n = dag.nodes.len() as int;
    lemma_row_start_step(dag, i);
    super::spartan::lemma_rows_from_antitone(dag, 0, i);
    super::spartan::lemma_rows_from_total(dag);
    let r0 = row_start(dag, i) as int;
    let r = r0 + t;
    lemma_rows_at(dag, inst, i, t);
    lemma_well_formed_assignable(dag);
    lemma_width_fits(dag);
    lemma_columns_apart(dag);
    super::r1cs::lemma_columns_in_bounds(dag);
    let one = const_column(dag);
    let out = node_column(dag, i);
    let ops = op_operands(dag.nodes[i].op);
    let ea = row_entries(inst.A@, r);
    let src = dag.nodes[i].op->Pow5_0;
    assert(ops[0] == src);
    let cs = node_column(dag, src as int);
    let sq = square_column(dag, i);
    let qd = fourth_column(dag, i);
    lemma_power_columns_apart(dag, i);
    lemma_resolved_other(dag, inst, sq as usize);
    lemma_resolved_other(dag, inst, qd as usize);
    let bs = lemma_resolved_tree(dag, inst, src as int);
    super::agreement::lemma_filter_one(unit(r0, cs), r);
    super::agreement::lemma_filter_two(unit(r0, cs), unit(r0 + 1, sq), r);
    super::agreement::lemma_filter_three(unit(r0, cs), unit(r0 + 1, sq), unit(r0 + 2, qd), r);
    super::agreement::lemma_filter_three(unit(r0, cs), unit(r0 + 1, sq), unit(r0 + 2, cs), r);
    super::agreement::lemma_filter_one(unit(r0, sq), r);
    super::agreement::lemma_filter_two(unit(r0, sq), unit(r0 + 1, qd), r);
    super::agreement::lemma_filter_three(unit(r0, sq), unit(r0 + 1, qd), unit(r0 + 2, out), r);
    let (ca, cb, cc) = if t == 0 {
        (cs, cs, sq)
    } else if t == 1 {
        (sq, sq, qd)
    } else {
        (qd, cs, out)
    };
    assert(super::agreement::node_row(dag, i, t, 0) =~= seq![unit(r, ca)]);
    assert(super::agreement::node_row(dag, i, t, 1) =~= seq![unit(r, cb)]);
    assert(super::agreement::node_row(dag, i, t, 2) =~= seq![unit(r, cc)]);
    lemma_product_piece_linear(dag, inst, r, q, j, ca, cb, cc);
}

/// The pieces of kept row `r`, the row of node `i` at offset `t`, are linear in
/// every column.
pub proof fn lemma_node_piece_linear(dag: DAG, inst: SpartanInstance, i: int, t: int, q: int, j: int)
    requires
        dag.is_well_formed(),
        node_count_fits(dag.nodes.len() as nat),
        describes_instance(inst, dag),
        0 <= i < dag.nodes.len(),
        0 <= t < op_constraint_count(dag.nodes[i].op),
        is_kept_row(inst, row_start(dag, i) + t),
        0 <= q <= usize::MAX,
    ensures
        row_linear_at(
            out_piece(inst, inst.A@, row_start(dag, i) + t, q),
            out_piece(inst, inst.B@, row_start(dag, i) + t, q),
            out_piece(inst, inst.C@, row_start(dag, i) + t, q),
            q,
            j,
        ),
{
    match dag.nodes[i].op {
        OpType::Alias(_) => lemma_alias_piece_linear(dag, inst, i, t, q, j),
        OpType::Add(_, _) => lemma_add_piece_linear(dag, inst, i, t, q, j),
        OpType::Scale(_, _) => lemma_scale_piece_linear(dag, inst, i, t, q, j),
        OpType::Mul(_, _) => lemma_mul_piece_linear(dag, inst, i, t, q, j),
        OpType::Pow5(_) => lemma_pow5_piece_linear(dag, inst, i, t, q, j),
        _ => {},
    }
}

/// Row `q` of the optimized instance of a DAG instance is linear in column `j`.
pub proof fn lemma_out_row_linear(dag: DAG, inst: SpartanInstance, out: SpartanInstance, q: int, j: int)
    requires
        dag.is_well_formed(),
        node_count_fits(dag.nodes.len() as nat),
        describes_instance(inst, dag),
        describes_alias_removal(out, inst),
        0 <= q < out.num_cons,
    ensures
        row_linear_at(matrix_view(out.A@), matrix_view(out.B@), matrix_view(out.C@), q, j),
{
    let n = dag.nodes.len() as int;
    let nc = inst.num_cons as int;
    super::alias_solutions::lemma_kept_rows_entries(inst, nc);
    let r = kept_rows(inst)[q];
    super::spartan::lemma_rows_from_total(dag);
    let i = lemma_row_owner(dag, 0, r);
    lemma_row_start_step(dag, i);
    let t = r - row_start(dag, i);
    lemma_node_piece_linear(dag, inst, i, t, q, j);
    lemma_out_row_filter(inst, out, 0, q);
    lemma_out_row_filter(inst, out, 1, q);
    lemma_out_row_filter(inst, out, 2, q);
    let mva = matrix_view(out.A@);
    let mvb = matrix_view(out.B@);
    let mvc = matrix_view(out.C@);
    let pa = out_piece(inst, inst.A@, r, q);
    let pb = out_piece(inst, inst.B@, r, q);
    assert(mva.filter(row_is(q)) == pa);
    assert(mvb.filter(row_is(q)) == pb);
    assert(mvc.filter(row_is(q)) == out_piece(inst, inst.C@, r, q));
    super::agreement::lemma_col_coeff_filter(mva, q, j);
    super::agreement::lemma_col_coeff_filter(mvb, q, j);
    super::agreement::lemma_col_coeff_filter(mvc, q, j);
    if row_only_at(pa, q, j) && row_only_at(pb, q, j) {
        super::agreement::lemma_row_only_filter(mva, q, j);
        super::agreement::lemma_row_only_filter(mvb, q, j);
    }
}

/// Alias removal keeps the instance of a DAG linear: every row of the instance it
/// makes is linear in every column.
pub proof fn lemma_alias_removal_keeps_rows_linear(dag: DAG, inst: SpartanInstance, out: SpartanInstance)
    requires
        dag.is_well_formed(),
        node_count_fits(dag.nodes.len() as nat),
        describes_instance(inst, dag),
        alias_removal_outcome(out, inst),
    ensures
        rows_linear(out),
{
    super::aliases::lemma_kept_rows_len(inst, inst.num_cons as int);
    if kept_rows(inst).len() == inst.num_cons {
        super::agreement::lemma_dag_rows_linear(dag, inst);
        assert(out.A@ == inst.A@ && out.B@ == inst.B@ && out.C@ == inst.C@);
    } else {
        assert forall|q: int, j: int| 0 <= q < out.num_cons implies #[trigger] row_linear_at(
            matrix_view(out.A@),
            matrix_view(out.B@),
            matrix_view(out.C@),
            q,
            j,
        ) by {
            lemma_out_row_linear(dag, inst, out, q, j);
        }
    }
}

/// Whenever the solver finds a full solution of the instance that alias removal
/// makes of a DAG's instance, that solution is the DAG's witness: its public I/O,
/// the outputs among it, is the witness's public I/O, and its private variables are
/// the witness's private variables at the columns that alias removal keeps.
pub proof fn lemma_optimized_solver_matches_witness(
    dag: DAG,
    inputs: Seq<FieldElement>,
    inst: SpartanInstance,
    out: SpartanInstance,
    vars: Seq<FieldElement>,
    public_io: Seq<FieldElement>,
    res: Result<(Vec<FieldElement>, Vec<FieldElement>), WitnessError>,
)
    requires
        dag.is_well_formed(),
        dag.outputs_are_computed(),
        node_count_fits(dag.nodes.len() as nat),
        inputs_fit(dag, inputs),
        describes_instance(inst, dag),
        is_witness(dag, inputs, vars, public_io),
        alias_removal_outcome(out, inst),
        solver_outcome(out, dag.num_outputs as nat, inputs, res),
        res is Ok,
    ensures
        res->Ok_0.1@ == public_io,
        z_values(res->Ok_0.0@) == carried_assignment(inst, assignment(vars, public_io)).subrange(
            0,
            out.num_vars as int,
        ),
{
    let n_out = dag.num_outputs as nat;
    let zr = assignment(vars, public_io);
    let w = res->Ok_0;
    super::agreement::lemma_witness_is_reference(dag, inputs, inst, vars, public_io);
    super::agreement::lemma_dag_instance_fits(dag, inst);
    super::alias_rows::lemma_dag_alias_chains_end(dag, inst);
    super::alias_solutions::lemma_alias_removal_keeps_solutions(inst, out, n_out, inputs, zr);
    lemma_alias_removal_keeps_rows_linear(dag, inst, out);
    let zc = carried_assignment(inst, zr);
    assert(is_reference(out, n_out, inputs, zc));
    assert(z_values(w.0@) == zc.subrange(0, out.num_vars as int));
    assert(z_values(w.1@) == zc.subrange(out.num_vars + 1, instance_width(out) as int));
    let nv = inst.num_vars as int;
    assert(z_values(w.1@) == zr.subrange(nv + 1, instance_width(inst) as int));
    assert(z_values(w.1@).len() == w.1@.len());
    assert(instance_width(inst) == nv + 1 + inst.num_inputs);
    assert(w.1@.len() == public_io.len());
    assert forall|k: int| 0 <= k < public_io.len() implies #[trigger] w.1@[k] == public_io[k] by {
        assert(z_values(w.1@)[k] == zr[nv + 1 + k]);
        crate::field::lemma_value_determines_element(w.1@[k], public_io[k]);
    }
    assert(w.1@ =~= public_io);
}

} // verus!
