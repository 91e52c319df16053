//! The solver converges on the instance that alias removal makes of a DAG's
//! instance, and finds there the DAG's outputs.
use super::aliases::{
    accepted_pair, alias_chains_end, alias_pair, alias_removal_outcome, compacted, describes_alias_removal, follow, is_kept_row, is_live, kept_rows,
    kept_rows_upto, live_before, merge_resolved, merged_row, nonzero_entry, references_column, substituted, resolved, substituted_upto, substitution, substitution_upto, at_row,
};
use super::agreement::{
    lemma_columns_apart, lemma_forward_row, lemma_row_entries_match, lemma_well_formed_assignable, lemma_width_fits,
    matrix_of, node_row, row_is, row_target,
};
use super::alias_linear::{
    alias_root, lemma_alias_root_bounds, lemma_node_column_injective, lemma_resolved_tree, lemma_single_entries,
    lemma_compacted_apart, lemma_out_row_filter, lemma_power_columns_apart, lemma_resolved_other, lemma_piece_columns, lemma_piece_live, lemma_single_piece, out_piece,
};
use super::alias_rows::lemma_rows_at;
use super::layout::{circuit_input_ids, const_column, fourth_column, node_column, node_count_fits, square_column};
use super::solver::{
    inputs_placed, instance_width, row_determines, row_entries, solver_outcome, stalled, unknown_column, z_values,
    WitnessError,
};
use super::witness::{inputs_fit, is_witness};
use crate::field::FieldElement;
use super::r1cs::pick;
use super::spartan::{describes_instance, lemma_row_start_step, node_entries, row_start, unit, SpartanInstance};
use crate::dag::graph::DAG;
use crate::dag::node::{op_constraint_count, OpType};
use vstd::prelude::*;

verus! {

/// The pair that row `r` adds stays in the substitution built from the rows before
/// any `n > r`: a later alias row on the same column adds nothing.
pub proof fn lemma_pair_kept_upto(inst: SpartanInstance, r: int, n: int)
    requires
        0 <= r < n,
        accepted_pair(inst, r) is Some,
    ensures
        substitution_upto(inst, n).contains_key(accepted_pair(inst, r)->Some_0.0),
        substitution_upto(inst, n)[accepted_pair(inst, r)->Some_0.0] == accepted_pair(inst, r)->Some_0.1,
    decreases n,
{
    if n > r + 1 {
        lemma_pair_kept_upto(inst, r, n - 1);
    }
}

/// The substitution sends the private side of every row it adds a pair for to the
/// row's other side.
pub proof fn lemma_pair_in_substitution(inst: SpartanInstance, r: int)
    requires
        0 <= r < inst.num_cons,
        accepted_pair(inst, r) is Some,
    ensures
        substitution(inst).contains_key(accepted_pair(inst, r)->Some_0.0),
        substitution(inst)[accepted_pair(inst, r)->Some_0.0] == accepted_pair(inst, r)->Some_0.1,
{
    lemma_pair_kept_upto(inst, r, inst.num_cons as int);
}

/// Following `n + 1` steps from a key is following `n` steps from its image.
pub proof fn lemma_follow_shift(m: Map<usize, usize>, k: usize, n: nat)
    requires
        m.contains_key(k),
    ensures
        follow(m, k, n + 1) == follow(m, m[k], n),
    decreases n,
{
    if n > 0 {
        lemma_follow_shift(m, k, (n - 1) as nat);
        assert(follow(m, k, n) == follow(m, m[k], (n - 1) as nat));
    } else {
        assert(follow(m, k, 0) == k);
        assert(follow(m, m[k], 0) == m[k]);
    }
    assert(follow(m, k, n + 1) == {
        let p = follow(m, k, n);
        if m.contains_key(p) {
            m[p]
        } else {
            p
        }
    });
}

/// A key and its image end their substitution chains at the same column.
pub proof fn lemma_resolved_step(inst: SpartanInstance, k: usize)
    requires
        alias_chains_end(inst),
        substitution(inst).dom().finite(),
        substitution(inst).contains_key(k),
    ensures
        resolved(inst, k) == resolved(inst, substitution(inst)[k]),
{
    let m = substitution(inst);
    let len = m.dom().len();
    if len == 0 {
        m.dom().lemma_len0_is_empty();
        assert(m.dom().contains(k));
    }
    lemma_follow_shift(m, k, (len - 1) as nat);
    assert(!m.contains_key(resolved(inst, k)));
    super::aliases::lemma_follow_fixed(m, m[k], (len - 1) as nat, len);
}

/// The source of a copy node (an alias or a scaling).
pub open spec fn copy_source(op: OpType) -> int {
    match op {
        OpType::Alias(s) => s as int,
        OpType::Scale(s, _) => s as int,
        _ => 0,
    }
}

/// The alias pair of a copy node's row joins the node's column and its source's.
pub proof fn lemma_removed_row_pair(dag: DAG, inst: SpartanInstance, i: int)
    requires
        dag.is_well_formed(),
        node_count_fits(dag.nodes.len() as nat),
        describes_instance(inst, dag),
        0 <= i < dag.nodes.len(),
        dag.nodes[i].op is Alias || dag.nodes[i].op is Scale,
        alias_pair(inst, row_start(dag, i) as int) is Some,
    ensures
        row_start(dag, i) < inst.num_cons,
        ({
            let p = alias_pair(inst, row_start(dag, i) as int)->Some_0;
            let ci = node_column(dag, i);
            let cs = node_column(dag, copy_source(dag.nodes[i].op));
            (p.0 == ci && p.1 == cs) || (p.0 == cs && p.1 == ci)
        }),
{
    let n = dag.nodes.len() as int;
    lemma_row_start_step(dag, i);
    super::spartan::lemma_rows_from_antitone(dag, 0, i);
    super::spartan::lemma_rows_from_total(dag);
    let r = row_start(dag, i) as int;
    super::alias_rows::lemma_node_pair(dag, inst, i, 0);
    let p = alias_pair(inst, r)->Some_0;
    lemma_rows_at(dag, inst, i, 0);
    lemma_well_formed_assignable(dag);
    lemma_width_fits(dag);
    lemma_columns_apart(dag);
    let ea = row_entries(inst.A@, r);
    let ec = row_entries(inst.C@, r);
    let out = node_column(dag, i);
    match dag.nodes[i].op {
        OpType::Alias(src) => {
            let cs = node_column(dag, src as int);
            super::agreement::lemma_filter_one(unit(r, out), r);
            super::agreement::lemma_filter_one(unit(r, cs), r);
            assert(node_row(dag, i, 0, 0)[0] == unit(r, out));
            assert(node_row(dag, i, 0, 2)[0] == unit(r, cs));
            assert(ea[0].0 == out && ec[0].0 == cs);
        },
        OpType::Scale(src, k) => {
            let cs = node_column(dag, src as int);
            super::agreement::lemma_filter_one((r, cs as int, k as nat), r);
            super::agreement::lemma_filter_one(unit(r, out), r);
            assert(node_row(dag, i, 0, 0)[0] == (r, cs as int, k as nat));
            assert(node_row(dag, i, 0, 2)[0] == unit(r, out));
            assert(ea[0].0 == cs && ec[0].0 == out);
        },
        _ => {},
    }
}

/// The column of a copy node whose row alias removal drops ends its chain where its
/// source's column does.
pub proof fn lemma_removed_resolved(dag: DAG, inst: SpartanInstance, i: int)
    requires
        dag.is_well_formed(),
        node_count_fits(dag.nodes.len() as nat),
        describes_instance(inst, dag),
        0 <= i < dag.nodes.len(),
        dag.nodes[i].op is Alias || dag.nodes[i].op is Scale,
        !is_kept_row(inst, row_start(dag, i) as int),
    ensures
        resolved(inst, node_column(dag, i) as usize) == resolved(
            inst,
            node_column(dag, copy_source(dag.nodes[i].op)) as usize,
        ),
{
    lemma_removed_row_pair(dag, inst, i);
    let r = row_start(dag, i) as int;
    let p = alias_pair(inst, r)->Some_0;
    assert(accepted_pair(inst, r) == Some(p));
    lemma_pair_in_substitution(inst, r);
    super::alias_rows::lemma_dag_substitution_upto(dag, inst, inst.num_cons as int);
    super::alias_rows::lemma_dag_alias_chains_end(dag, inst);
    lemma_resolved_step(inst, p.0);
}

/// The column of the optimized instance that stands for column `c` of the instance:
/// the compacted end of its substitution chain.
pub open spec fn out_column(inst: SpartanInstance, c: usize) -> usize {
    compacted(inst, resolved(inst, c))
}

/// A kept row has a position among the kept rows.
pub proof fn lemma_kept_position(inst: SpartanInstance, n: int, r: int) -> (q: int)
    requires
        0 <= r < n,
        is_kept_row(inst, r),
    ensures
        0 <= q < kept_rows_upto(inst, n).len(),
        kept_rows_upto(inst, n)[q] == r,
    decreases n,
{
    if r == n - 1 {
        kept_rows_upto(inst, n - 1).len() as int
    } else {
        let q = lemma_kept_position(inst, n - 1, r);
        if is_kept_row(inst, n - 1) {
            assert(kept_rows_upto(inst, n) == kept_rows_upto(inst, n - 1).push(n - 1));
        }
        q
    }
}

/// Compaction keeps a live or public column inside the optimized z-vector.
pub proof fn lemma_compacted_in_range(inst: SpartanInstance, out: SpartanInstance, c: usize)
    requires
        describes_alias_removal(out, inst),
        c < instance_width(inst),
        c < inst.num_vars ==> is_live(inst, c),
    ensures
        compacted(inst, c) < instance_width(out),
{
    super::aliases::lemma_live_before_bounded(inst, 0, inst.num_vars as int);
    if c < inst.num_vars {
        super::alias_solutions::lemma_live_column(inst, c);
    }
}

/// The entries of side `w` of the kept row `r`, whose chains all end apart from
/// `x` at solved columns, give row `q` of the optimized instance entries in row `q`,
/// apart from `compacted(x)`, and solved.
pub proof fn lemma_side_ready(
    inst: SpartanInstance,
    out: SpartanInstance,
    w: int,
    r: int,
    q: int,
    s: Seq<bool>,
    x: usize,
)
    requires
        describes_alias_removal(out, inst),
        0 <= w < 3,
        0 <= r < inst.num_cons,
        is_kept_row(inst, r),
        0 <= q <= usize::MAX,
        x < inst.num_vars ==> is_live(inst, x),
        s.len() == instance_width(out),
        forall|jj: int|
            0 <= jj < row_entries(matrix_of(inst, w), r).len() ==> {
                let c = (#[trigger] row_entries(matrix_of(inst, w), r)[jj]).0;
                &&& resolved(inst, c) != x
                &&& resolved(inst, c) < instance_width(inst)
                &&& s[out_column(inst, c) as int]
            },
    ensures
        forall|k: int|
            0 <= k < out_piece(inst, matrix_of(inst, w), r, q).len() ==> {
                let e = #[trigger] out_piece(inst, matrix_of(inst, w), r, q)[k];
                &&& e.0 == q
                &&& e.1 != compacted(inst, x)
                &&& 0 <= e.1 < s.len()
                &&& s[e.1]
            },
{
    let m = matrix_of(inst, w);
    let es = row_entries(m, r);
    let piece = out_piece(inst, m, r, q);
    assert forall|k: int| 0 <= k < piece.len() implies {
        let e = #[trigger] piece[k];
        &&& e.0 == q
        &&& e.1 != compacted(inst, x)
        &&& 0 <= e.1 < s.len()
        &&& s[e.1]
    } by {
        lemma_piece_columns(inst, m, r, q, k);
        let jj = choose|jj: int|
            0 <= jj < es.len() && piece[k].1 == compacted(inst, merged_row(inst, m, r)[k].0) && merged_row(
                inst,
                m,
                r,
            )[k].0 == resolved(inst, #[trigger] es[jj].0);
        let y = merged_row(inst, m, r)[k].0;
        lemma_piece_live(inst, w, r, k);
        lemma_compacted_apart(inst, y, x);
        lemma_compacted_in_range(inst, out, y);
    }
}

/// Forward determination on the optimized instance: kept row `r`, at position `q`,
/// whose C side is the single column `tc` with coefficient 1, and whose A and B
/// entries end their chains apart from `tc`'s at solved columns, determines the out
/// column of `tc` when that is unsolved.
pub proof fn lemma_out_forward(
    inst: SpartanInstance,
    out: SpartanInstance,
    r: int,
    q: int,
    s: Seq<bool>,
    z: Seq<int>,
    tc: usize,
)
    requires
        describes_alias_removal(out, inst),
        0 <= r < inst.num_cons,
        is_kept_row(inst, r),
        0 <= q < out.num_cons,
        kept_rows(inst)[q] == r,
        s.len() == instance_width(out),
        row_entries(inst.C@, r).len() == 1,
        row_entries(inst.C@, r)[0].0 == tc,
        row_entries(inst.C@, r)[0].1.value() == 1,
        resolved(inst, tc) < instance_width(inst),
        forall|jj: int|
            0 <= jj < row_entries(inst.A@, r).len() ==> {
                let c = (#[trigger] row_entries(inst.A@, r)[jj]).0;
                &&& resolved(inst, c) != resolved(inst, tc)
                &&& resolved(inst, c) < instance_width(inst)
                &&& s[out_column(inst, c) as int]
            },
        forall|jj: int|
            0 <= jj < row_entries(inst.B@, r).len() ==> {
                let c = (#[trigger] row_entries(inst.B@, r)[jj]).0;
                &&& resolved(inst, c) != resolved(inst, tc)
                &&& resolved(inst, c) < instance_width(inst)
                &&& s[out_column(inst, c) as int]
            },
        !s[out_column(inst, tc) as int],
    ensures
        row_determines(out, q, s, z, out_column(inst, tc)),
{
    let x = resolved(inst, tc);
    let j = out_column(inst, tc);
    lemma_single_piece(inst, inst.C@, r, q, tc);
    lemma_piece_live(inst, 2, r, 0);
    lemma_compacted_in_range(inst, out, x);
    assert(matrix_of(inst, 0) == inst.A@);
    assert(matrix_of(inst, 1) == inst.B@);
    lemma_side_ready(inst, out, 0, r, q, s, x);
    lemma_side_ready(inst, out, 1, r, q, s, x);
    lemma_out_row_filter(inst, out, 0, q);
    lemma_out_row_filter(inst, out, 1, q);
    lemma_out_row_filter(inst, out, 2, q);
    lemma_row_entries_match(out.A@, q);
    lemma_row_entries_match(out.B@, q);
    lemma_row_entries_match(out.C@, q);
    let pa = out_piece(inst, inst.A@, r, q);
    let pb = out_piece(inst, inst.B@, r, q);
    assert forall|k: int| 0 <= k < pa.len() implies (#[trigger] pa[k]).0 == q && pa[k].1 != j && 0 <= pa[k].1
        < s.len() && s[pa[k].1] by {
        assert(pa[k] == out_piece(inst, matrix_of(inst, 0), r, q)[k]);
    }
    assert forall|k: int| 0 <= k < pb.len() implies (#[trigger] pb[k]).0 == q && pb[k].1 != j && 0 <= pb[k].1
        < s.len() && s[pb[k].1] by {
        assert(pb[k] == out_piece(inst, matrix_of(inst, 1), r, q)[k]);
    }
    lemma_forward_row(out, q, s, z, pa, pb, j);
}

/// Every key of the substitution is a private column.
pub proof fn lemma_keys_private(inst: SpartanInstance, n: int)
    ensures
        forall|k: usize| #[trigger] substitution_upto(inst, n).contains_key(k) ==> k < inst.num_vars,
    decreases n,
{
    if n > 0 {
        lemma_keys_private(inst, n - 1);
        let prev = substitution_upto(inst, n - 1);
        assert forall|k: usize| #[trigger] substitution_upto(inst, n).contains_key(k) implies k < inst.num_vars by {
            match alias_pair(inst, n - 1) {
                Some(p) => {
                    assert(p.0 < inst.num_vars);
                    if k != p.0 {
                        assert(prev.contains_key(k));
                    }
                },
                None => {
                    assert(prev.contains_key(k));
                },
            }
        }
    }
}

/// A public column, or the constant, ends its own chain.
pub proof fn lemma_resolved_public(inst: SpartanInstance, c: usize)
    requires
        c >= inst.num_vars,
    ensures
        resolved(inst, c) == c,
{
    let m = substitution(inst);
    lemma_keys_private(inst, inst.num_cons as int);
    assert(!m.contains_key(c));
    assert(follow(m, c, 0) == c);
    super::aliases::lemma_follow_fixed(m, c, 0, m.dom().len());
}

/// The position among the optimized rows of a kept row of node `i`.
pub proof fn lemma_out_row_of(dag: DAG, inst: SpartanInstance, out: SpartanInstance, i: int, t: int) -> (q: int)
    requires
        describes_instance(inst, dag),
        describes_alias_removal(out, inst),
        0 <= i < dag.nodes.len(),
        0 <= t < op_constraint_count(dag.nodes[i].op),
        is_kept_row(inst, row_start(dag, i) + t),
    ensures
        row_start(dag, i) + t < inst.num_cons,
        0 <= q < out.num_cons,
        kept_rows(inst)[q] == row_start(dag, i) + t,
{
    lemma_row_start_step(dag, i);
    super::spartan::lemma_rows_from_antitone(dag, 0, i);
    super::spartan::lemma_rows_from_total(dag);
    lemma_kept_position(inst, inst.num_cons as int, row_start(dag, i) + t)
}

/// An alias row `out * 1 = src` kept by alias removal, whose two columns end their
/// chains apart and away from the constant, determines the out column of `out` once
/// `src`'s is solved.
pub proof fn lemma_out_alias(
    inst: SpartanInstance,
    out: SpartanInstance,
    r: int,
    q: int,
    s: Seq<bool>,
    z: Seq<int>,
    co: usize,
    cs: usize,
)
    requires
        describes_alias_removal(out, inst),
        0 <= r < inst.num_cons,
        is_kept_row(inst, r),
        0 <= q < out.num_cons,
        kept_rows(inst)[q] == r,
        s.len() == instance_width(out),
        z.len() == s.len(),
        resolved(inst, co) < instance_width(inst),
        resolved(inst, cs) < instance_width(inst),
        resolved(inst, co) != inst.num_vars,
        resolved(inst, co) != resolved(inst, cs),
        row_entries(inst.A@, r).len() == 1,
        row_entries(inst.A@, r)[0].0 == co,
        row_entries(inst.A@, r)[0].1.value() == 1,
        row_entries(inst.B@, r).len() == 1,
        row_entries(inst.B@, r)[0].0 == inst.num_vars,
        row_entries(inst.B@, r)[0].1.value() == 1,
        row_entries(inst.C@, r).len() == 1,
        row_entries(inst.C@, r)[0].0 == cs,
        row_entries(inst.C@, r)[0].1.value() == 1,
        s[out.num_vars as int],
        z[out.num_vars as int] == 1,
        s[out_column(inst, cs) as int],
        !s[out_column(inst, co) as int],
    ensures
        row_determines(out, q, s, z, out_column(inst, co)),
{
    let one = inst.num_vars;
    let x = resolved(inst, co);
    let y = resolved(inst, cs);
    lemma_resolved_public(inst, one);
    lemma_single_piece(inst, inst.A@, r, q, co);
    lemma_single_piece(inst, inst.B@, r, q, one);
    lemma_single_piece(inst, inst.C@, r, q, cs);
    lemma_piece_live(inst, 0, r, 0);
    lemma_piece_live(inst, 2, r, 0);
    lemma_compacted_apart(inst, x, one);
    lemma_compacted_apart(inst, x, y);
    lemma_compacted_in_range(inst, out, x);
    lemma_compacted_in_range(inst, out, y);
    lemma_out_row_filter(inst, out, 0, q);
    lemma_out_row_filter(inst, out, 1, q);
    lemma_out_row_filter(inst, out, 2, q);
    lemma_row_entries_match(out.A@, q);
    lemma_row_entries_match(out.B@, q);
    lemma_row_entries_match(out.C@, q);
    assert(compacted(inst, one) == out.num_vars);
    super::agreement::lemma_alias_row(out, q, s, z, compacted(inst, x), compacted(inst, one), compacted(inst, y));
}

/// A solver state on the optimized instance of a DAG's instance in which no row
/// determines any column.
pub open spec fn fixed_point_on_optimized(
    dag: DAG,
    inst: SpartanInstance,
    out: SpartanInstance,
    inputs: Seq<FieldElement>,
    zs: Seq<FieldElement>,
    s: Seq<bool>,
) -> bool {
    &&& dag.is_well_formed()
    &&& dag.outputs_are_computed()
    &&& node_count_fits(dag.nodes.len() as nat)
    &&& describes_instance(inst, dag)
    &&& describes_alias_removal(out, inst)
    &&& inputs.len() == circuit_input_ids(dag).len()
    &&& zs.len() == instance_width(out)
    &&& s.len() == zs.len()
    &&& s[out.num_vars as int]
    &&& zs[out.num_vars as int].value() == 1
    &&& inputs_placed(zs, s, out.num_vars + 1 + dag.num_outputs, inputs)
    &&& forall|q: int, j: usize| 0 <= q < out.num_cons ==> !#[trigger] row_determines(out, q, s, z_values(zs), j)
}

/// The optimized columns that stand for node `o`'s columns are solved.
pub open spec fn end_solved(dag: DAG, inst: SpartanInstance, s: Seq<bool>, o: int) -> bool {
    &&& s[out_column(inst, node_column(dag, o) as usize) as int]
    &&& dag.nodes[o].op is Pow5 ==> s[out_column(inst, square_column(dag, o) as usize) as int] && s[out_column(
        inst,
        fourth_column(dag, o) as usize,
    ) as int]
}

/// The chain of an operand of a node that copies nothing ends apart from the node's.
pub proof fn lemma_operand_apart(dag: DAG, inst: SpartanInstance, i: int, a: int)
    requires
        dag.is_well_formed(),
        node_count_fits(dag.nodes.len() as nat),
        describes_instance(inst, dag),
        0 <= i < a < dag.nodes.len(),
        alias_root(dag, i) == i,
    ensures
        resolved(inst, node_column(dag, a) as usize) != resolved(inst, node_column(dag, i) as usize),
        resolved(inst, node_column(dag, a) as usize) < instance_width(inst),
        resolved(inst, node_column(dag, i) as usize) < instance_width(inst),
{
    lemma_well_formed_assignable(dag);
    lemma_width_fits(dag);
    super::r1cs::lemma_columns_in_bounds(dag);
    let ba = lemma_resolved_tree(dag, inst, a);
    let bi = lemma_resolved_tree(dag, inst, i);
    lemma_alias_root_bounds(dag, a);
    if node_column(dag, ba) == node_column(dag, bi) {
        lemma_node_column_injective(dag, ba, bi);
    }
}

/// In a fixed point, a multiplication node's column is solved once its operands' are.
proof fn lemma_mul_end_solved(
    dag: DAG,
    inst: SpartanInstance,
    out: SpartanInstance,
    inputs: Seq<FieldElement>,
    zs: Seq<FieldElement>,
    s: Seq<bool>,
    i: int,
)
    requires
        fixed_point_on_optimized(dag, inst, out, inputs, zs, s),
        0 <= i < dag.nodes.len(),
        dag.nodes[i].op is Mul,
        forall|o: int| i < o < dag.nodes.len() ==> #[trigger] end_solved(dag, inst, s, o),
    ensures
        end_solved(dag, inst, s, i),
{
    let z = z_values(zs);
    let r = row_start(dag, i) as int;
    lemma_row_start_step(dag, i);
    lemma_rows_at(dag, inst, i, 0);
    super::alias_rows::lemma_node_pair(dag, inst, i, 0);
    let q = lemma_out_row_of(dag, inst, out, i, 0);
    let ops = crate::dag::graph::op_operands(dag.nodes[i].op);
    let a = dag.nodes[i].op->Mul_0;
    let b = dag.nodes[i].op->Mul_1;
    assert(ops[0] == a && ops[1] == b);
    let ca = node_column(dag, a as int);
    let cb = node_column(dag, b as int);
    let co = node_column(dag, i);
    super::agreement::lemma_filter_one(unit(r, ca), r);
    super::agreement::lemma_filter_one(unit(r, cb), r);
    super::agreement::lemma_filter_one(unit(r, co), r);
    lemma_single_entries(row_entries(inst.A@, r), seq![unit(r, ca)], r, ca);
    lemma_single_entries(row_entries(inst.B@, r), seq![unit(r, cb)], r, cb);
    lemma_single_entries(row_entries(inst.C@, r), seq![unit(r, co)], r, co);
    assert(alias_root(dag, i) == i);
    lemma_operand_apart(dag, inst, i, a as int);
    lemma_operand_apart(dag, inst, i, b as int);
    assert(end_solved(dag, inst, s, a as int));
    assert(end_solved(dag, inst, s, b as int));
    if !s[out_column(inst, co as usize) as int] {
        lemma_out_forward(inst, out, r, q, s, z, co as usize);
        assert(!row_determines(out, q, s, z, out_column(inst, co as usize)));
    }
}

/// In a fixed point, an addition node's column is solved once its operands' are.
#[verifier::spinoff_prover]
#[verifier::rlimit(40)]
proof fn lemma_add_end_solved(
    dag: DAG,
    inst: SpartanInstance,
    out: SpartanInstance,
    inputs: Seq<FieldElement>,
    zs: Seq<FieldElement>,
    s: Seq<bool>,
    i: int,
)
    requires
        fixed_point_on_optimized(dag, inst, out, inputs, zs, s),
        0 <= i < dag.nodes.len(),
        dag.nodes[i].op is Add,
        forall|o: int| i < o < dag.nodes.len() ==> #[trigger] end_solved(dag, inst, s, o),
    ensures
        end_solved(dag, inst, s, i),
{
    let z = z_values(zs);
    let r = row_start(dag, i) as int;
    lemma_row_start_step(dag, i);
    lemma_rows_at(dag, inst, i, 0);
    super::alias_rows::lemma_node_pair(dag, inst, i, 0);
    let q = lemma_out_row_of(dag, inst, out, i, 0);
    lemma_columns_apart(dag);
    let ops = crate::dag::graph::op_operands(dag.nodes[i].op);
    let a = dag.nodes[i].op->Add_0;
    let b = dag.nodes[i].op->Add_1;
    assert(ops[0] == a && ops[1] == b);
    let ca = node_column(dag, a as int);
    let cb = node_column(dag, b as int);
    let co = node_column(dag, i);
    let one = const_column(dag);
    super::agreement::lemma_filter_one(unit(r, ca), r);
    super::agreement::lemma_filter_two(unit(r, ca), unit(r, cb), r);
    super::agreement::lemma_filter_one(unit(r, one), r);
    super::agreement::lemma_filter_one(unit(r, co), r);
    let va = seq![unit(r, ca), unit(r, cb)];
    assert(node_row(dag, i, 0, 0) =~= va);
    let ea = row_entries(inst.A@, r);
    assert(ea.len() == 2 && ea[0].0 == ca && ea[1].0 == cb) by {
        assert(va[0] == unit(r, ca));
        assert(va[1] == unit(r, cb));
    }
    lemma_single_entries(row_entries(inst.B@, r), seq![unit(r, one)], r, one);
    lemma_single_entries(row_entries(inst.C@, r), seq![unit(r, co)], r, co);
    assert(alias_root(dag, i) == i);
    lemma_operand_apart(dag, inst, i, a as int);
    lemma_operand_apart(dag, inst, i, b as int);
    lemma_resolved_public(inst, one as usize);
    let bi = lemma_resolved_tree(dag, inst, i);
    assert(end_solved(dag, inst, s, a as int));
    assert(end_solved(dag, inst, s, b as int));
    assert(out_column(inst, one as usize) == out.num_vars);
    if !s[out_column(inst, co as usize) as int] {
        lemma_out_forward(inst, out, r, q, s, z, co as usize);
        assert(!row_determines(out, q, s, z, out_column(inst, co as usize)));
    }
}

/// In a fixed point, a copy node whose row alias removal drops has its column
/// solved once its source's is.
proof fn lemma_removed_end_solved(
    dag: DAG,
    inst: SpartanInstance,
    out: SpartanInstance,
    inputs: Seq<FieldElement>,
    zs: Seq<FieldElement>,
    s: Seq<bool>,
    i: int,
)
    requires
        fixed_point_on_optimized(dag, inst, out, inputs, zs, s),
        0 <= i < dag.nodes.len(),
        dag.nodes[i].op is Alias || dag.nodes[i].op is Scale,
        !is_kept_row(inst, row_start(dag, i) as int),
        forall|o: int| i < o < dag.nodes.len() ==> #[trigger] end_solved(dag, inst, s, o),
    ensures
        end_solved(dag, inst, s, i),
{
    lemma_removed_resolved(dag, inst, i);
    let src = copy_source(dag.nodes[i].op);
    assert(crate::dag::graph::op_operands(dag.nodes[i].op)[0] == src);
    assert(end_solved(dag, inst, s, src));
}

/// In a fixed point, a circuit input's column is solved.
proof fn lemma_input_end_solved(
    dag: DAG,
    inst: SpartanInstance,
    out: SpartanInstance,
    inputs: Seq<FieldElement>,
    zs: Seq<FieldElement>,
    s: Seq<bool>,
    i: int,
)
    requires
        fixed_point_on_optimized(dag, inst, out, inputs, zs, s),
        0 <= i < dag.nodes.len(),
        dag.nodes[i].op is Input,
    ensures
        end_solved(dag, inst, s, i),
{
    assert(i >= dag.num_outputs);
    super::witness::lemma_rank_of_circuit_input(dag, i);
    let k = super::layout::circuit_inputs_upto(dag, i).len() as int;
    let c = node_column(dag, i);
    lemma_well_formed_assignable(dag);
    lemma_width_fits(dag);
    super::r1cs::lemma_columns_in_bounds(dag);
    let nv = inst.num_vars as int;
    assert(c == nv + 1 + dag.num_outputs + k);
    lemma_resolved_public(inst, c as usize);
    super::aliases::lemma_live_before_bounded(inst, 0, nv);
    super::solver::lemma_input_placed_at(zs, s, out.num_vars + 1 + dag.num_outputs, inputs, k);
    assert(out_column(inst, c as usize) == out.num_vars + 1 + dag.num_outputs + k);
}

/// In a fixed point, a scaling node whose row alias removal keeps has its column
/// solved once its source's is.
proof fn lemma_scale_end_solved(
    dag: DAG,
    inst: SpartanInstance,
    out: SpartanInstance,
    inputs: Seq<FieldElement>,
    zs: Seq<FieldElement>,
    s: Seq<bool>,
    i: int,
)
    requires
        fixed_point_on_optimized(dag, inst, out, inputs, zs, s),
        0 <= i < dag.nodes.len(),
        dag.nodes[i].op is Scale,
        is_kept_row(inst, row_start(dag, i) as int),
        forall|o: int| i < o < dag.nodes.len() ==> #[trigger] end_solved(dag, inst, s, o),
    ensures
        end_solved(dag, inst, s, i),
{
    let z = z_values(zs);
    let r = row_start(dag, i) as int;
    lemma_row_start_step(dag, i);
    lemma_rows_at(dag, inst, i, 0);
    super::alias_rows::lemma_node_pair(dag, inst, i, 0);
    let q = lemma_out_row_of(dag, inst, out, i, 0);
    lemma_well_formed_assignable(dag);
    lemma_width_fits(dag);
    super::r1cs::lemma_columns_in_bounds(dag);
    lemma_columns_apart(dag);
    let src = dag.nodes[i].op->Scale_0;
    let k = dag.nodes[i].op->Scale_1;
    assert(crate::dag::graph::op_operands(dag.nodes[i].op)[0] == src);
    let cs = node_column(dag, src as int);
    let co = node_column(dag, i);
    let one = const_column(dag);
    super::agreement::lemma_filter_one(unit(r, one), r);
    super::agreement::lemma_filter_one(unit(r, co), r);
    lemma_single_entries(row_entries(inst.B@, r), seq![unit(r, one)], r, one);
    lemma_single_entries(row_entries(inst.C@, r), seq![unit(r, co)], r, co);
    let ea = row_entries(inst.A@, r);
    if k == 0 {
        super::agreement::lemma_filter_none(Seq::<(int, int, nat)>::empty(), r);
        assert(ea.len() == 0);
    } else {
        super::agreement::lemma_filter_one((r, cs as int, k as nat), r);
        assert(node_row(dag, i, 0, 0) == seq![(r, cs as int, k as nat)]);
        assert(ea.len() == 1 && ea[0].0 == cs) by {
            assert(seq![(r, cs as int, k as nat)][0] == (r, cs as int, k as nat));
        }
    }
    lemma_resolved_public(inst, one as usize);
    let bi = lemma_resolved_tree(dag, inst, i);
    let bs = lemma_resolved_tree(dag, inst, src as int);
    assert(end_solved(dag, inst, s, src as int));
    assert(out_column(inst, one as usize) == out.num_vars);
    if k != 1 {
        assert(alias_root(dag, i) == i);
        lemma_operand_apart(dag, inst, i, src as int);
    }
    if k == 1 && resolved(inst, cs as usize) == resolved(inst, co as usize) {
        assert(out_column(inst, co as usize) == out_column(inst, cs as usize));
    } else if !s[out_column(inst, co as usize) as int] {
        lemma_out_forward(inst, out, r, q, s, z, co as usize);
        assert(!row_determines(out, q, s, z, out_column(inst, co as usize)));
    }
}

/// In a fixed point, an alias node whose row alias removal keeps has its column
/// solved once its source's is.
proof fn lemma_alias_end_solved(
    dag: DAG,
    inst: SpartanInstance,
    out: SpartanInstance,
    inputs: Seq<FieldElement>,
    zs: Seq<FieldElement>,
    s: Seq<bool>,
    i: int,
)
    requires
        fixed_point_on_optimized(dag, inst, out, inputs, zs, s),
        0 <= i < dag.nodes.len(),
        dag.nodes[i].op is Alias,
        is_kept_row(inst, row_start(dag, i) as int),
        forall|o: int| i < o < dag.nodes.len() ==> #[trigger] end_solved(dag, inst, s, o),
    ensures
        end_solved(dag, inst, s, i),
{
    let z = z_values(zs);
    let r = row_start(dag, i) as int;
    lemma_row_start_step(dag, i);
    lemma_rows_at(dag, inst, i, 0);
    super::alias_rows::lemma_node_pair(dag, inst, i, 0);
    let q = lemma_out_row_of(dag, inst, out, i, 0);
    lemma_well_formed_assignable(dag);
    lemma_width_fits(dag);
    super::r1cs::lemma_columns_in_bounds(dag);
    lemma_columns_apart(dag);
    let src = dag.nodes[i].op->Alias_0;
    assert(crate::dag::graph::op_operands(dag.nodes[i].op)[0] == src);
    let cs = node_column(dag, src as int);
    let co = node_column(dag, i);
    let one = const_column(dag);
    super::agreement::lemma_filter_one(unit(r, co), r);
    super::agreement::lemma_filter_one(unit(r, one), r);
    super::agreement::lemma_filter_one(unit(r, cs), r);
    lemma_single_entries(row_entries(inst.A@, r), seq![unit(r, co)], r, co);
    lemma_single_entries(row_entries(inst.B@, r), seq![unit(r, one)], r, one);
    lemma_single_entries(row_entries(inst.C@, r), seq![unit(r, cs)], r, cs);
    assert(end_solved(dag, inst, s, src as int));
    let bi = lemma_resolved_tree(dag, inst, i);
    let bs = lemma_resolved_tree(dag, inst, src as int);
    if resolved(inst, co as usize) == resolved(inst, cs as usize) {
        assert(out_column(inst, co as usize) == out_column(inst, cs as usize));
    } else if !s[out_column(inst, co as usize) as int] {
        lemma_out_alias(inst, out, r, q, s, z, co as usize, cs as usize);
        assert(!row_determines(out, q, s, z, out_column(inst, co as usize)));
    }
}

/// In a fixed point, row `t` of a `Pow5` node has its target solved once the
/// node's source and its earlier intermediate columns are.
proof fn lemma_pow5_row_solved(
    dag: DAG,
    inst: SpartanInstance,
    out: SpartanInstance,
    inputs: Seq<FieldElement>,
    zs: Seq<FieldElement>,
    s: Seq<bool>,
    i: int,
    t: int,
)
    requires
        fixed_point_on_optimized(dag, inst, out, inputs, zs, s),
        0 <= i < dag.nodes.len(),
        dag.nodes[i].op is Pow5,
        0 <= t < 3,
        forall|o: int| i < o < dag.nodes.len() ==> #[trigger] end_solved(dag, inst, s, o),
        t >= 1 ==> s[out_column(inst, square_column(dag, i) as usize) as int],
        t == 2 ==> s[out_column(inst, fourth_column(dag, i) as usize) as int],
    ensures
        s[out_column(inst, row_target(dag, i, t) as usize) as int],
{
    let z = z_values(zs);
    let r0 = row_start(dag, i) as int;
    let r = r0 + t;
    lemma_row_start_step(dag, i);
    lemma_rows_at(dag, inst, i, t);
    super::alias_rows::lemma_node_pair(dag, inst, i, t);
    let q = lemma_out_row_of(dag, inst, out, i, t);
    lemma_well_formed_assignable(dag);
    lemma_width_fits(dag);
    super::r1cs::lemma_columns_in_bounds(dag);
    let src = dag.nodes[i].op->Pow5_0;
    assert(crate::dag::graph::op_operands(dag.nodes[i].op)[0] == src);
    let cs = node_column(dag, src as int);
    let co = node_column(dag, i);
    let sq = square_column(dag, i);
    let qd = fourth_column(dag, i);
    lemma_power_columns_apart(dag, i);
    lemma_resolved_other(dag, inst, sq as usize);
    lemma_resolved_other(dag, inst, qd as usize);
    let bs = lemma_resolved_tree(dag, inst, src as int);
    assert(alias_root(dag, i) == i);
    lemma_operand_apart(dag, inst, i, src as int);
    assert(end_solved(dag, inst, s, src as int));
    super::agreement::lemma_filter_one(unit(r0, cs), r);
    super::agreement::lemma_filter_two(unit(r0, cs), unit(r0 + 1, sq), r);
    super::agreement::lemma_filter_three(unit(r0, cs), unit(r0 + 1, sq), unit(r0 + 2, qd), r);
    super::agreement::lemma_filter_three(unit(r0, cs), unit(r0 + 1, sq), unit(r0 + 2, cs), r);
    super::agreement::lemma_filter_one(unit(r0, sq), r);
    super::agreement::lemma_filter_two(unit(r0, sq), unit(r0 + 1, qd), r);
    super::agreement::lemma_filter_three(unit(r0, sq), unit(r0 + 1, qd), unit(r0 + 2, co), r);
    let (ca, cb, cc) = if t == 0 {
        (cs, cs, sq)
    } else if t == 1 {
        (sq, sq, qd)
    } else {
        (qd, cs, co)
    };
    assert(node_row(dag, i, t, 0) =~= seq![unit(r, ca)]);
    assert(node_row(dag, i, t, 1) =~= seq![unit(r, cb)]);
    assert(node_row(dag, i, t, 2) =~= seq![unit(r, cc)]);
    lemma_single_entries(row_entries(inst.A@, r), seq![unit(r, ca)], r, ca);
    lemma_single_entries(row_entries(inst.B@, r), seq![unit(r, cb)], r, cb);
    lemma_single_entries(row_entries(inst.C@, r), seq![unit(r, cc)], r, cc);
    assert(row_target(dag, i, t) == cc);
    if !s[out_column(inst, cc as usize) as int] {
        lemma_out_forward(inst, out, r, q, s, z, cc as usize);
        assert(!row_determines(out, q, s, z, out_column(inst, cc as usize)));
    }
}

/// In a fixed point, a `Pow5` node's columns are solved once its source's is.
proof fn lemma_pow5_end_solved(
    dag: DAG,
    inst: SpartanInstance,
    out: SpartanInstance,
    inputs: Seq<FieldElement>,
    zs: Seq<FieldElement>,
    s: Seq<bool>,
    i: int,
)
    requires
        fixed_point_on_optimized(dag, inst, out, inputs, zs, s),
        0 <= i < dag.nodes.len(),
        dag.nodes[i].op is Pow5,
        forall|o: int| i < o < dag.nodes.len() ==> #[trigger] end_solved(dag, inst, s, o),
    ensures
        end_solved(dag, inst, s, i),
{
    lemma_pow5_row_solved(dag, inst, out, inputs, zs, s, i, 0);
    lemma_pow5_row_solved(dag, inst, out, inputs, zs, s, i, 1);
    lemma_pow5_row_solved(dag, inst, out, inputs, zs, s, i, 2);
}

/// In a fixed point on the optimized instance, every node from `i` on has the
/// optimized columns that stand for its columns solved: by descending induction, a
/// node's operands come after it.
pub proof fn lemma_optimized_fixed_point_solves_from(
    dag: DAG,
    inst: SpartanInstance,
    out: SpartanInstance,
    inputs: Seq<FieldElement>,
    zs: Seq<FieldElement>,
    s: Seq<bool>,
    i: int,
)
    requires
        fixed_point_on_optimized(dag, inst, out, inputs, zs, s),
        0 <= i <= dag.nodes.len(),
    ensures
        forall|o: int| i <= o < dag.nodes.len() ==> #[trigger] end_solved(dag, inst, s, o),
    decreases dag.nodes.len() - i,
{
    if i < dag.nodes.len() {
        lemma_optimized_fixed_point_solves_from(dag, inst, out, inputs, zs, s, i + 1);
        if dag.nodes[i].op is Input {
            lemma_input_end_solved(dag, inst, out, inputs, zs, s, i);
        } else if (dag.nodes[i].op is Alias || dag.nodes[i].op is Scale) && !is_kept_row(
            inst,
            row_start(dag, i) as int,
        ) {
            lemma_removed_end_solved(dag, inst, out, inputs, zs, s, i);
        } else {
            match dag.nodes[i].op {
                OpType::Alias(_) => lemma_alias_end_solved(dag, inst, out, inputs, zs, s, i),
                OpType::Scale(_, _) => lemma_scale_end_solved(dag, inst, out, inputs, zs, s, i),
                OpType::Add(_, _) => lemma_add_end_solved(dag, inst, out, inputs, zs, s, i),
                OpType::Mul(_, _) => lemma_mul_end_solved(dag, inst, out, inputs, zs, s, i),
                OpType::Pow5(_) => lemma_pow5_end_solved(dag, inst, out, inputs, zs, s, i),
                _ => {},
            }
        }
    }
}

/// A column that the substituted entries reference is a merged column of a kept row.
pub proof fn lemma_referenced_merged(
    inst: SpartanInstance,
    m: Seq<(usize, usize, [u8; 32])>,
    n: int,
    d: usize,
) -> (rk: (int, int))
    requires
        0 <= n,
        references_column(substituted_upto(inst, m, n), d),
    ensures
        0 <= rk.0 < n,
        is_kept_row(inst, rk.0),
        0 <= rk.1 < merged_row(inst, m, rk.0).len(),
        merged_row(inst, m, rk.0)[rk.1].0 == d,
    decreases n,
{
    let sub = substituted_upto(inst, m, n);
    let k = choose|k: int| 0 <= k < sub.len() && (#[trigger] sub[k]).1 == d;
    let prev = substituted_upto(inst, m, n - 1);
    if is_kept_row(inst, n - 1) {
        let row = kept_rows_upto(inst, n - 1).len() as usize;
        let piece = merged_row(inst, m, n - 1).map_values(at_row(row));
        assert(sub == prev + piece);
        if k < prev.len() {
            assert(sub[k] == prev[k]);
            lemma_referenced_merged(inst, m, n - 1, d)
        } else {
            assert(sub[k] == piece[k - prev.len()]);
            (n - 1, k - prev.len())
        }
    } else {
        lemma_referenced_merged(inst, m, n - 1, d)
    }
}

/// The columns of a node's entries: the node's own column, its operands', the
/// constant, and a `Pow5` node's intermediate columns.
pub proof fn lemma_node_entry_columns(dag: DAG, i: int, r0: int, w: int, e: (int, int, nat))
    requires
        0 <= i < dag.nodes.len(),
        pick(node_entries(dag, i, r0), w).contains(e),
    ensures
        ({
            let ops = crate::dag::graph::op_operands(dag.nodes[i].op);
            ||| e.1 == const_column(dag)
            ||| e.1 == node_column(dag, i)
            ||| ops.len() > 0 && e.1 == node_column(dag, ops[0] as int)
            ||| ops.len() > 1 && e.1 == node_column(dag, ops[1] as int)
            ||| dag.nodes[i].op is Pow5 && (e.1 == square_column(dag, i) || e.1 == fourth_column(dag, i))
        }),
{
    let es = pick(node_entries(dag, i, r0), w);
    let k = choose|k: int| 0 <= k < es.len() && es[k] == e;
    let ops = crate::dag::graph::op_operands(dag.nodes[i].op);
    match dag.nodes[i].op {
        OpType::Add(a, b) => {
            assert(ops[0] == a && ops[1] == b);
        },
        OpType::Mul(a, b) => {
            assert(ops[0] == a && ops[1] == b);
        },
        OpType::Alias(a) => {
            assert(ops[0] == a);
        },
        OpType::Scale(a, _) => {
            assert(ops[0] == a);
        },
        OpType::Pow5(a) => {
            assert(ops[0] == a);
        },
        _ => {},
    }
}

/// In a fixed point on the optimized instance where every node's optimized columns
/// are solved, every live private column is solved.
pub proof fn lemma_live_solved(
    dag: DAG,
    inst: SpartanInstance,
    out: SpartanInstance,
    inputs: Seq<FieldElement>,
    zs: Seq<FieldElement>,
    s: Seq<bool>,
    d: usize,
)
    requires
        fixed_point_on_optimized(dag, inst, out, inputs, zs, s),
        forall|o: int| 0 <= o < dag.nodes.len() ==> #[trigger] end_solved(dag, inst, s, o),
        d < inst.num_vars,
        is_live(inst, d),
    ensures
        s[compacted(inst, d) as int],
{
    let nc = inst.num_cons as int;
    let w: int = if references_column(substituted(inst, inst.A@), d) {
        0
    } else if references_column(substituted(inst, inst.B@), d) {
        1
    } else {
        2
    };
    let m = matrix_of(inst, w);
    let (r, k) = lemma_referenced_merged(inst, m, nc, d);
    let es = row_entries(m, r);
    let merged = merge_resolved(inst, es);
    let mr = merged_row(inst, m, r);
    assert(merged.filter(nonzero_entry()).contains(mr[k]));
    merged.lemma_filter_contains_rev(nonzero_entry(), mr[k]);
    let i2 = choose|i2: int| 0 <= i2 < merged.len() && merged[i2] == mr[k];
    super::alias_solutions::lemma_merge_columns(inst, es);
    let j = choose|j: int| 0 <= j < es.len() && #[trigger] merged[i2].0 == resolved(inst, #[trigger] es[j].0);
    super::spartan::lemma_rows_from_total(dag);
    let i = super::r1cs::lemma_row_owner(dag, 0, r);
    lemma_row_start_step(dag, i);
    let t = r - row_start(dag, i);
    lemma_rows_at(dag, inst, i, t);
    super::agreement::lemma_dag_row_entries(dag, inst, i, t, w);
    let nr = node_row(dag, i, t, w);
    assert(es[j].0 as int == nr[j].1);
    let r0 = row_start(dag, i) as int;
    assert(nr.contains(nr[j]));
    pick(node_entries(dag, i, r0), w).lemma_filter_contains_rev(row_is(r), nr[j]);
    lemma_node_entry_columns(dag, i, r0, w, nr[j]);
    lemma_well_formed_assignable(dag);
    lemma_width_fits(dag);
    super::r1cs::lemma_columns_in_bounds(dag);
    let c = es[j].0;
    let ops = crate::dag::graph::op_operands(dag.nodes[i].op);
    if c == const_column(dag) {
        lemma_resolved_public(inst, c);
    } else if c == node_column(dag, i) {
        assert(end_solved(dag, inst, s, i));
    } else if ops.len() > 0 && c == node_column(dag, ops[0] as int) {
        assert(end_solved(dag, inst, s, ops[0] as int));
    } else if ops.len() > 1 && c == node_column(dag, ops[1] as int) {
        assert(end_solved(dag, inst, s, ops[1] as int));
    } else {
        lemma_power_columns_apart(dag, i);
        lemma_resolved_other(dag, inst, c);
        assert(end_solved(dag, inst, s, i));
    }
}

/// The solver never stalls on the optimized instance of a DAG's instance: in any
/// state where no row determines a column, every private variable and every output
/// is already solved.
pub proof fn lemma_optimized_never_stalls(
    dag: DAG,
    inst: SpartanInstance,
    out: SpartanInstance,
    inputs: Seq<FieldElement>,
    zs: Seq<FieldElement>,
    s: Seq<bool>,
)
    requires
        dag.is_well_formed(),
        dag.outputs_are_computed(),
        node_count_fits(dag.nodes.len() as nat),
        describes_instance(inst, dag),
        describes_alias_removal(out, inst),
        inputs.len() == circuit_input_ids(dag).len(),
    ensures
        !stalled(out, dag.num_outputs as nat, inputs, zs, s),
{
    if stalled(out, dag.num_outputs as nat, inputs, zs, s) {
        assert(fixed_point_on_optimized(dag, inst, out, inputs, zs, s));
        lemma_optimized_fixed_point_solves_from(dag, inst, out, inputs, zs, s, 0);
        let nv2 = out.num_vars as int;
        let nv = inst.num_vars as int;
        let c = choose|c: int| unknown_column(out, dag.num_outputs as nat, c) && !#[trigger] s[c];
        if c < nv2 {
            super::alias_solutions::lemma_live_numbers_covered(inst, nv, c);
            let d = choose|d: usize| d < nv && is_live(inst, d) && live_before(inst, d as int) == c;
            lemma_live_solved(dag, inst, out, inputs, zs, s, d);
            assert(compacted(inst, d) == c);
        } else {
            let o = c - nv2 - 1;
            lemma_well_formed_assignable(dag);
            lemma_width_fits(dag);
            super::r1cs::lemma_columns_in_bounds(dag);
            assert(node_column(dag, o) == nv + 1 + o);
            lemma_resolved_public(inst, node_column(dag, o) as usize);
            assert(end_solved(dag, inst, s, o));
            let x = node_column(dag, o) as usize;
            assert(x as int == nv + 1 + o);
            super::aliases::lemma_live_before_bounded(inst, 0, nv);
            assert(out.num_vars == live_before(inst, nv));
            assert(compacted(inst, x) == c);
            assert(out_column(inst, x) == c);
        }
    }
}

/// The solver converges on the instance that alias removal makes of a DAG's
/// instance, for every choice of circuit inputs: it neither refuses the inputs nor
/// stalls.
pub proof fn lemma_optimized_solver_converges(
    dag: DAG,
    inst: SpartanInstance,
    out: SpartanInstance,
    inputs: Seq<FieldElement>,
    res: Result<(Vec<FieldElement>, Vec<FieldElement>), WitnessError>,
)
    requires
        dag.is_well_formed(),
        dag.outputs_are_computed(),
        node_count_fits(dag.nodes.len() as nat),
        describes_instance(inst, dag),
        alias_removal_outcome(out, inst),
        inputs.len() == circuit_input_ids(dag).len(),
        solver_outcome(out, dag.num_outputs as nat, inputs, res),
    ensures
        res is Ok,
{
    let n_out = dag.num_outputs as nat;
    super::aliases::lemma_kept_rows_len(inst, inst.num_cons as int);
    if res is Err {
        if let Err(WitnessError::SolverStuck { .. }) = res {
            let (zs, s) = choose|zs: Seq<FieldElement>, s: Seq<bool>| stalled(out, n_out, inputs, zs, s);
            if kept_rows(inst).len() == inst.num_cons {
                assert(out.A@ == inst.A@ && out.B@ == inst.B@ && out.C@ == inst.C@);
                let z = z_values(zs);
                assert forall|r: int, j: usize| 0 <= r < inst.num_cons implies !#[trigger] row_determines(
                    inst,
                    r,
                    s,
                    z,
                    j,
                ) by {
                    assert(!row_determines(out, r, s, z, j));
                }
                let c = choose|c: int| unknown_column(out, n_out, c) && !#[trigger] s[c];
                assert(unknown_column(inst, n_out, c));
                assert(stalled(inst, n_out, inputs, zs, s));
                super::agreement::lemma_dag_never_stalls(dag, inst, inputs, zs, s);
            } else {
                lemma_optimized_never_stalls(dag, inst, out, inputs, zs, s);
            }
        }
    }
}

/// The solver on the instance that alias removal makes of a DAG's instance finds,
/// for every choice of circuit inputs, a full solution whose public I/O is the DAG's
/// witness's: the optimized circuit computes the same outputs.
pub proof fn lemma_optimized_solver_reproduces_outputs(
    dag: DAG,
    inputs: Seq<FieldElement>,
    inst: SpartanInstance,
    out: SpartanInstance,
    vars: Seq<FieldElement>,
    public_io: Seq<FieldElement>,
    res: Result<(Vec<FieldElement>, Vec<FieldElement>), WitnessError>,
)
    requires
        dag.is_well_formed(),
        dag.outputs_are_computed(),
        node_count_fits(dag.nodes.len() as nat),
        inputs_fit(dag, inputs),
        describes_instance(inst, dag),
        is_witness(dag, inputs, vars, public_io),
        alias_removal_outcome(out, inst),
        solver_outcome(out, dag.num_outputs as nat, inputs, res),
    ensures
        res is Ok,
        res->Ok_0.1@ == public_io,
{
    lemma_optimized_solver_converges(dag, inst, out, inputs, res);
    super::alias_linear::lemma_optimized_solver_matches_witness(dag, inputs, inst, out, vars, public_io, res);
}

/// The solver's full solution on the instance that alias removal makes of a DAG's
/// instance satisfies every row of that instance, and its public I/O is the DAG's
/// witness's.
pub proof fn lemma_optimized_solution_satisfies(
    dag: DAG,
    inputs: Seq<FieldElement>,
    inst: SpartanInstance,
    out: SpartanInstance,
    vars: Seq<FieldElement>,
    public_io: Seq<FieldElement>,
    res: Result<(Vec<FieldElement>, Vec<FieldElement>), WitnessError>,
)
    requires
        dag.is_well_formed(),
        dag.outputs_are_computed(),
        node_count_fits(dag.nodes.len() as nat),
        inputs_fit(dag, inputs),
        describes_instance(inst, dag),
        is_witness(dag, inputs, vars, public_io),
        alias_removal_outcome(out, inst),
        solver_outcome(out, dag.num_outputs as nat, inputs, res),
    ensures
        res is Ok,
        res->Ok_0.1@ == public_io,
        super::r1cs::is_satisfied(out, res->Ok_0.0@, res->Ok_0.1@),
{
    lemma_optimized_solver_reproduces_outputs(dag, inputs, inst, out, vars, public_io, res);
    let n_out = dag.num_outputs as nat;
    let zr = super::r1cs::assignment(vars, public_io);
    super::agreement::lemma_witness_is_reference(dag, inputs, inst, vars, public_io);
    super::agreement::lemma_dag_instance_fits(dag, inst);
    super::alias_rows::lemma_dag_alias_chains_end(dag, inst);
    super::alias_solutions::lemma_alias_removal_keeps_solutions(inst, out, n_out, inputs, zr);
    super::alias_linear::lemma_alias_removal_keeps_rows_linear(dag, inst, out);
    let zc = super::alias_solutions::carried_assignment(inst, zr);
    assert(super::solver::is_reference(out, n_out, inputs, zc));
    let w = res->Ok_0;
    let nv = out.num_vars as int;
    assert(z_values(w.0@) == zc.subrange(0, nv));
    assert(z_values(w.1@) == zc.subrange(nv + 1, instance_width(out) as int));
    assert(super::r1cs::assignment(w.0@, w.1@) =~= zc);
}

} // verus!
