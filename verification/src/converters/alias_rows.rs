//! Alias rows of the instance built from a DAG: the substitution that alias removal
//! builds from them has no cycle, and the rows it removes are counted by the DAG.
use super::agreement::{
    lemma_columns_apart, lemma_dag_row_entries, lemma_filter_none, lemma_filter_one,
    lemma_well_formed_assignable, lemma_width_fits, matches_row, node_row,
};
use super::aliases::{
    alias_chains_end, alias_pair, follow, is_alias_pattern, lemma_follow_fixed, resolved, substitution,
    substitution_upto,
};
use super::layout::{
    const_column, is_public_node, lemma_private_before_monotone, node_column, node_count_fits, num_private_vars,
    private_before,
};
use super::r1cs::lemma_row_owner;
use super::solver::row_entries;
use super::spartan::{describes_instance, lemma_row_start_step, row_start, rows_from, unit, SpartanInstance};
use crate::dag::graph::{op_operands, DAG};
use crate::dag::node::{op_constraint_count, OpType};
use vstd::prelude::*;
use vstd::set_lib::lemma_len_subset;

verus! {

/// Following the map from a key in its domain moves to a key of lower rank.
pub open spec fn rank_decreases(m: Map<usize, usize>, rank: spec_fn(usize) -> nat) -> bool {
    forall|k: usize| #[trigger] m.contains_key(k) && m.contains_key(m[k]) ==> rank(m[k]) < rank(k)
}

/// Along a chain that stays in the domain, the rank strictly decreases.
pub proof fn lemma_follow_ranks(m: Map<usize, usize>, rank: spec_fn(usize) -> nat, c: usize, t1: nat, t2: nat)
    requires
        rank_decreases(m, rank),
        t1 < t2,
        m.contains_key(follow(m, c, t2)),
    ensures
        m.contains_key(follow(m, c, t1)),
        rank(follow(m, c, t2)) < rank(follow(m, c, t1)),
    decreases t2 - t1,
{
    let prev = follow(m, c, (t2 - 1) as nat);
    if !m.contains_key(prev) {
        assert(follow(m, c, t2) == prev);
    }
    assert(follow(m, c, t2) == m[prev]);
    if t1 < t2 - 1 {
        lemma_follow_ranks(m, rank, c, t1, (t2 - 1) as nat);
    }
}

/// A finite substitution whose every step lowers a rank has no cycle: following it
/// as many steps as it has keys leaves its domain.
pub proof fn lemma_chain_ends(m: Map<usize, usize>, rank: spec_fn(usize) -> nat, c: usize)
    requires
        m.dom().finite(),
        rank_decreases(m, rank),
    ensures
        !m.contains_key(follow(m, c, m.dom().len())),
{
    let n = m.dom().len();
    if m.contains_key(follow(m, c, n)) {
        let q = Seq::new(n + 1, |t: int| follow(m, c, t as nat));
        assert forall|t: int| 0 <= t < q.len() implies m.contains_key(#[trigger] q[t]) by {
            if !m.contains_key(follow(m, c, t as nat)) {
                lemma_follow_fixed(m, c, t as nat, n);
            }
        }
        assert(q.no_duplicates()) by {
            assert forall|a: int, b: int| 0 <= a < q.len() && 0 <= b < q.len() && a != b implies q[a] != q[b] by {
                assert(q[a] == follow(m, c, a as nat));
                assert(q[b] == follow(m, c, b as nat));
                assert(m.contains_key(q[a]));
                assert(m.contains_key(q[b]));
                if a < b {
                    lemma_follow_ranks(m, rank, c, a as nat, b as nat);
                } else {
                    lemma_follow_ranks(m, rank, c, b as nat, a as nat);
                }
            }
        }
        q.unique_seq_to_set();
        assert(q.to_set().subset_of(m.dom())) by {
            assert forall|x: usize| q.to_set().contains(x) implies m.dom().contains(x) by {
                let t = choose|t: int| 0 <= t < q.len() && q[t] == x;
                assert(m.contains_key(q[t]));
            }
        }
        lemma_len_subset(q.to_set(), m.dom());
    }
}

/// The rank of a column in the substitution of a DAG instance: a private node column
/// of an `Alias` node ranks above every other column and lower as the node's id
/// grows; the private column of another node ranks by its id; other columns rank 0.
pub open spec fn alias_rank(dag: DAG, c: usize) -> nat {
    if exists|i: int| 0 <= i < dag.nodes.len() && !is_public_node(dag, i) && private_before(dag, i) == c {
        let i = choose|i: int| 0 <= i < dag.nodes.len() && !is_public_node(dag, i) && private_before(dag, i) == c;
        if dag.nodes[i].op is Alias {
            (2 * dag.nodes.len() - i) as nat
        } else {
            i as nat
        }
    } else {
        0
    }
}

/// The rank of the private column of node `i`.
pub proof fn lemma_alias_rank_of(dag: DAG, i: int)
    requires
        dag.is_well_formed(),
        node_count_fits(dag.nodes.len() as nat),
        0 <= i < dag.nodes.len(),
        !is_public_node(dag, i),
    ensures
        alias_rank(dag, private_before(dag, i) as usize) == if dag.nodes[i].op is Alias {
            (2 * dag.nodes.len() - i) as nat
        } else {
            i as nat
        },
{
    let n = dag.nodes.len() as int;
    lemma_private_before_monotone(dag, i + 1, n);
    super::layout::lemma_private_before_bounded(dag, i);
    let c = private_before(dag, i) as usize;
    assert(private_before(dag, i) as usize == private_before(dag, i));
    assert(exists|q: int| 0 <= q < n && !is_public_node(dag, q) && private_before(dag, q) == c);
    let q = choose|q: int| 0 <= q < n && !is_public_node(dag, q) && private_before(dag, q) == c;
    if q < i {
        lemma_private_before_monotone(dag, q + 1, i);
    } else if q > i {
        lemma_private_before_monotone(dag, i + 1, q);
    }
}

/// Substitution pairs of a DAG instance move from a private column to a public one
/// or to one of lower rank.
pub open spec fn pair_descends(dag: DAG, num_vars: nat, k: usize, v: usize) -> bool {
    &&& k < num_vars
    &&& v >= num_vars || alias_rank(dag, v) < alias_rank(dag, k)
}

/// The rows of node `i` seen by the solver at offset `t`.
pub proof fn lemma_rows_at(dag: DAG, inst: SpartanInstance, i: int, t: int)
    requires
        dag.is_well_formed(),
        node_count_fits(dag.nodes.len() as nat),
        describes_instance(inst, dag),
        0 <= i < dag.nodes.len(),
        0 <= t < op_constraint_count(dag.nodes[i].op),
    ensures
        matches_row(row_entries(inst.A@, row_start(dag, i) + t), node_row(dag, i, t, 0)),
        matches_row(row_entries(inst.B@, row_start(dag, i) + t), node_row(dag, i, t, 1)),
        matches_row(row_entries(inst.C@, row_start(dag, i) + t), node_row(dag, i, t, 2)),
{
    lemma_dag_row_entries(dag, inst, i, t, 0);
    lemma_dag_row_entries(dag, inst, i, t, 1);
    lemma_dag_row_entries(dag, inst, i, t, 2);
}


/// What the row of node `i` gives alias removal: a pair exactly when the node's row is
/// removed, and a descending one.
pub open spec fn node_pair_ok(dag: DAG, inst: SpartanInstance, i: int, t: int) -> bool {
    &&& (alias_pair(inst, row_start(dag, i) + t) is Some) == node_row_removed(dag, i)
    &&& alias_pair(inst, row_start(dag, i) + t) matches Some(p) ==> pair_descends(
        dag,
        inst.num_vars as nat,
        p.0,
        p.1,
    )
}

/// The row of an alias node.
proof fn lemma_alias_node_pair(dag: DAG, inst: SpartanInstance, i: int, t: int)
    requires
        dag.is_well_formed(),
        node_count_fits(dag.nodes.len() as nat),
        describes_instance(inst, dag),
        0 <= i < dag.nodes.len(),
        0 <= t < op_constraint_count(dag.nodes[i].op),
        dag.nodes[i].op is Alias,
    ensures
        node_pair_ok(dag, inst, i, t),
{
    let n = dag.nodes.len() as int;
    lemma_row_start_step(dag, i);
    let r0 = row_start(dag, i) as int;
    let r = r0 + t;
    lemma_rows_at(dag, inst, i, t);
    lemma_well_formed_assignable(dag);
    lemma_width_fits(dag);
    lemma_columns_apart(dag);
    super::r1cs::lemma_columns_in_bounds(dag);
    lemma_private_before_monotone(dag, i + 1, n);
    let ea = row_entries(inst.A@, r);
    let eb = row_entries(inst.B@, r);
    let ec = row_entries(inst.C@, r);
    let nv = inst.num_vars as int;
    let one = const_column(dag);
    let out = node_column(dag, i);
    let src = dag.nodes[i].op->Alias_0;
    assert(op_operands(dag.nodes[i].op)[0] == src);
    let cs = node_column(dag, src as int);
    lemma_filter_one(unit(r0, out), r);
    lemma_filter_one(unit(r0, one), r);
    lemma_filter_one(unit(r0, cs), r);
    assert(node_row(dag, i, t, 0)[0] == unit(r, out));
    assert(node_row(dag, i, t, 1)[0] == unit(r, one));
    assert(node_row(dag, i, t, 2)[0] == unit(r, cs));
    assert(is_alias_pattern(ea, eb, ec, inst.num_vars));
    if out < nv {
        assert(!is_public_node(dag, i));
        lemma_alias_rank_of(dag, i);
        if cs < nv {
            assert(!is_public_node(dag, src as int));
            lemma_alias_rank_of(dag, src as int);
        }
    }
}

/// The row of a scaling node.
proof fn lemma_scale_node_pair(dag: DAG, inst: SpartanInstance, i: int, t: int)
    requires
        dag.is_well_formed(),
        node_count_fits(dag.nodes.len() as nat),
        describes_instance(inst, dag),
        0 <= i < dag.nodes.len(),
        0 <= t < op_constraint_count(dag.nodes[i].op),
        dag.nodes[i].op is Scale,
    ensures
        node_pair_ok(dag, inst, i, t),
{
    let n = dag.nodes.len() as int;
    lemma_row_start_step(dag, i);
    let r0 = row_start(dag, i) as int;
    let r = r0 + t;
    lemma_rows_at(dag, inst, i, t);
    lemma_well_formed_assignable(dag);
    lemma_width_fits(dag);
    lemma_columns_apart(dag);
    super::r1cs::lemma_columns_in_bounds(dag);
    lemma_private_before_monotone(dag, i + 1, n);
    let ea = row_entries(inst.A@, r);
    let eb = row_entries(inst.B@, r);
    let ec = row_entries(inst.C@, r);
    let nv = inst.num_vars as int;
    let one = const_column(dag);
    let out = node_column(dag, i);
    let src = dag.nodes[i].op->Scale_0;
    let k = dag.nodes[i].op->Scale_1;
    assert(op_operands(dag.nodes[i].op)[0] == src);
    let cs = node_column(dag, src as int);
    if k == 0 {
        lemma_filter_none(Seq::<(int, int, nat)>::empty(), r);
        assert(ea.len() == 0);
    } else {
        lemma_filter_one((r0, cs as int, k as nat), r);
        lemma_filter_one(unit(r0, one), r);
        lemma_filter_one(unit(r0, out), r);
        assert(node_row(dag, i, t, 0)[0] == (r, cs as int, k as nat));
        assert(node_row(dag, i, t, 1)[0] == unit(r, one));
        assert(node_row(dag, i, t, 2)[0] == unit(r, out));
        assert(ea[0].0 == cs && ea[0].1.value() == k && ec[0].0 == out);
        if k == 1 {
            assert(is_alias_pattern(ea, eb, ec, inst.num_vars));
            if cs < nv {
                assert(!is_public_node(dag, src as int));
                lemma_alias_rank_of(dag, src as int);
                if out < nv {
                    assert(!is_public_node(dag, i));
                    lemma_alias_rank_of(dag, i);
                }
            }
        }
    }
}

/// The row of node `i` at offset `t` gives alias removal what `node_pair_ok` says.
pub proof fn lemma_node_pair(dag: DAG, inst: SpartanInstance, i: int, t: int)
    requires
        dag.is_well_formed(),
        node_count_fits(dag.nodes.len() as nat),
        describes_instance(inst, dag),
        0 <= i < dag.nodes.len(),
        0 <= t < op_constraint_count(dag.nodes[i].op),
    ensures
        node_pair_ok(dag, inst, i, t),
{
    match dag.nodes[i].op {
        OpType::Alias(_) => lemma_alias_node_pair(dag, inst, i, t),
        OpType::Scale(_, _) => lemma_scale_node_pair(dag, inst, i, t),
        _ => lemma_alias_pair_none_otherwise(dag, inst, i, t),
    }
}

/// The substitution pair of a row of a DAG instance, when there is one, descends.
pub proof fn lemma_dag_alias_pair(dag: DAG, inst: SpartanInstance, r: int)
    requires
        dag.is_well_formed(),
        node_count_fits(dag.nodes.len() as nat),
        describes_instance(inst, dag),
        0 <= r < inst.num_cons,
    ensures
        alias_pair(inst, r) matches Some(p) ==> pair_descends(dag, inst.num_vars as nat, p.0, p.1),
{
    let n = dag.nodes.len() as int;
    super::spartan::lemma_rows_from_total(dag);
    let i = lemma_row_owner(dag, 0, r);
    lemma_row_start_step(dag, i);
    lemma_node_pair(dag, inst, i, r - row_start(dag, i));
}

/// Every substitution built from the rows of a DAG instance is finite and descends.
pub proof fn lemma_dag_substitution_upto(dag: DAG, inst: SpartanInstance, rows: int)
    requires
        dag.is_well_formed(),
        node_count_fits(dag.nodes.len() as nat),
        describes_instance(inst, dag),
        0 <= rows <= inst.num_cons,
    ensures
        substitution_upto(inst, rows).dom().finite(),
        forall|k: usize|
            #[trigger] substitution_upto(inst, rows).contains_key(k) ==> pair_descends(
                dag,
                inst.num_vars as nat,
                k,
                substitution_upto(inst, rows)[k],
            ),
    decreases rows,
{
    if rows > 0 {
        lemma_dag_substitution_upto(dag, inst, rows - 1);
        lemma_dag_alias_pair(dag, inst, rows - 1);
    }
}

/// Substitution chains of a DAG instance end: alias removal applies to every
/// instance built from a DAG.
pub proof fn lemma_dag_alias_chains_end(dag: DAG, inst: SpartanInstance)
    requires
        dag.is_well_formed(),
        node_count_fits(dag.nodes.len() as nat),
        describes_instance(inst, dag),
    ensures
        alias_chains_end(inst),
{
    let m = substitution(inst);
    lemma_dag_substitution_upto(dag, inst, inst.num_cons as int);
    let rank = |c: usize| alias_rank(dag, c);
    assert(rank_decreases(m, rank)) by {
        assert forall|k: usize| #[trigger] m.contains_key(k) && m.contains_key(m[k]) implies rank(m[k]) < rank(k) by {
            assert(pair_descends(dag, inst.num_vars as nat, k, m[k]));
            assert(pair_descends(dag, inst.num_vars as nat, m[k], m[m[k]]));
        }
    }
    assert forall|c: usize| !substitution(inst).contains_key(#[trigger] resolved(inst, c)) by {
        lemma_chain_ends(m, rank, c);
    }
}

/// Alias removal drops the row of node `i`: an alias, or a scaling by 1, with a
/// private column on one side.
pub open spec fn node_row_removed(dag: DAG, i: int) -> bool {
    let nv = num_private_vars(dag);
    let out = node_column(dag, i);
    match dag.nodes[i].op {
        OpType::Alias(src) => out < nv || node_column(dag, src as int) < nv,
        OpType::Scale(src, k) => k == 1 && (out < nv || node_column(dag, src as int) < nv),
        _ => false,
    }
}

/// Number of nodes before `n` whose row alias removal drops.
pub open spec fn removed_before(dag: DAG, n: int) -> nat
    decreases n,
{
    if n <= 0 {
        0
    } else {
        removed_before(dag, n - 1) + if node_row_removed(dag, n - 1) {
            1nat
        } else {
            0nat
        }
    }
}

/// Rows of additions, multiplications and fifth powers are never alias rows.
proof fn lemma_alias_pair_none_otherwise(dag: DAG, inst: SpartanInstance, i: int, t: int)
    requires
        dag.is_well_formed(),
        node_count_fits(dag.nodes.len() as nat),
        describes_instance(inst, dag),
        0 <= i < dag.nodes.len(),
        0 <= t < op_constraint_count(dag.nodes[i].op),
        dag.nodes[i].op is Add || dag.nodes[i].op is Mul || dag.nodes[i].op is Pow5,
    ensures
        alias_pair(inst, row_start(dag, i) + t) is None,
{
    lemma_row_start_step(dag, i);
    let r0 = row_start(dag, i) as int;
    let r = r0 + t;
    lemma_rows_at(dag, inst, i, t);
    lemma_well_formed_assignable(dag);
    lemma_width_fits(dag);
    lemma_columns_apart(dag);
    super::r1cs::lemma_columns_in_bounds(dag);
    let ea = row_entries(inst.A@, r);
    let eb = row_entries(inst.B@, r);
    let ops = op_operands(dag.nodes[i].op);
    match dag.nodes[i].op {
        OpType::Add(a, b) => {
            let ca = node_column(dag, a as int);
            let cb = node_column(dag, b as int);
            lemma_filter_one(unit(r0, ca), r);
            super::agreement::lemma_filter_two(unit(r0, ca), unit(r0, cb), r);
            assert(ea.len() == 2);
        },
        OpType::Mul(a, b) => {
            assert(ops[1] == b);
            let cb = node_column(dag, b as int);
            lemma_filter_one(unit(r0, cb), r);
            assert(node_row(dag, i, t, 1)[0] == unit(r, cb));
            assert(eb[0].0 == cb);
        },
        OpType::Pow5(src) => {
            assert(ops[0] == src);
            let cs = node_column(dag, src as int);
            let sq = super::layout::square_column(dag, i);
            super::agreement::lemma_filter_three(unit(r0, cs), unit(r0 + 1, sq), unit(r0 + 2, cs), r);
            super::agreement::lemma_filter_two(unit(r0, cs), unit(r0 + 1, sq), r);
            lemma_filter_one(unit(r0, cs), r);
            let cb = if t == 1 {
                sq
            } else {
                cs
            };
            assert(node_row(dag, i, t, 1) =~= seq![unit(r, cb)]);
            assert(node_row(dag, i, t, 1)[0] == unit(r, cb));
            assert(eb[0].0 == cb);
        },
        _ => {},
    }
}

/// Number of nodes from `i` on whose row alias removal drops.
pub open spec fn removed_from(dag: DAG, i: int) -> nat
    decreases dag.nodes.len() - i,
{
    if 0 <= i < dag.nodes.len() {
        removed_from(dag, i + 1) + if node_row_removed(dag, i) {
            1nat
        } else {
            0nat
        }
    } else {
        0
    }
}

/// The dropped rows before node `k` and from node `k` on are all the dropped rows.
proof fn lemma_removed_split(dag: DAG, k: int)
    requires
        0 <= k <= dag.nodes.len(),
    ensures
        removed_before(dag, k) + removed_from(dag, k) == removed_before(dag, dag.nodes.len() as int),
    decreases dag.nodes.len() - k,
{
    if k < dag.nodes.len() {
        lemma_removed_split(dag, k + 1);
    }
}

/// Counting the kept rows node by node, from the last node down to node `i`: each
/// node's rows are kept, except the single row of a node whose row alias removal
/// drops (no column being the private side of two alias rows).
pub proof fn lemma_kept_rows_by_node(dag: DAG, inst: SpartanInstance, i: int)
    requires
        dag.is_well_formed(),
        node_count_fits(dag.nodes.len() as nat),
        describes_instance(inst, dag),
        super::aliases::alias_keys_distinct(inst),
        0 <= i <= dag.nodes.len(),
    ensures
        super::aliases::kept_rows_upto(inst, rows_from(dag, i) as int).len() + removed_from(dag, i)
            == rows_from(dag, i),
    decreases dag.nodes.len() - i,
{
    if i < dag.nodes.len() {
        let q = i;
        lemma_kept_rows_by_node(dag, inst, i + 1);
        lemma_row_start_step(dag, q);
        let r0 = row_start(dag, q) as int;
        let cost = op_constraint_count(dag.nodes[q].op);
        super::spartan::lemma_rows_from_antitone(dag, 0, q);
        super::spartan::lemma_rows_from_total(dag);
        if cost >= 1 {
            lemma_node_pair(dag, inst, q, 0);
            super::aliases::lemma_distinct_accepted(inst, r0);
        }
        if cost >= 2 {
            lemma_node_pair(dag, inst, q, 1);
            super::aliases::lemma_distinct_accepted(inst, r0 + 1);
        }
        if cost >= 3 {
            lemma_node_pair(dag, inst, q, 2);
            super::aliases::lemma_distinct_accepted(inst, r0 + 2);
        }
        if node_row_removed(dag, q) {
            assert(cost == 1);
        }
        assert(super::aliases::kept_rows_upto(inst, r0 + 1).len() == super::aliases::kept_rows_upto(inst, r0).len()
            + if super::aliases::is_kept_row(inst, r0) { 1int } else { 0int });
        assert(super::aliases::kept_rows_upto(inst, r0 + 2).len() == super::aliases::kept_rows_upto(inst, r0 + 1).len()
            + if super::aliases::is_kept_row(inst, r0 + 1) { 1int } else { 0int });
        assert(super::aliases::kept_rows_upto(inst, r0 + 3).len() == super::aliases::kept_rows_upto(inst, r0 + 2).len()
            + if super::aliases::is_kept_row(inst, r0 + 2) { 1int } else { 0int });
    }
}

/// Alias removal on the instance built from a DAG, when no column is the private side
/// of two alias rows, removes exactly one row per alias (or scaling by 1) that
/// touches a private column.
pub proof fn lemma_dag_removed_rows(dag: DAG, inst: SpartanInstance)
    requires
        dag.is_well_formed(),
        node_count_fits(dag.nodes.len() as nat),
        describes_instance(inst, dag),
        super::aliases::alias_keys_distinct(inst),
    ensures
        super::aliases::kept_rows(inst).len() + removed_before(dag, dag.nodes.len() as int) == inst.num_cons,
{
    super::spartan::lemma_rows_from_total(dag);
    lemma_kept_rows_by_node(dag, inst, 0);
    lemma_removed_split(dag, 0);
}

/// Every alias of the DAG touches a private column, and no scaling by 1 does: the
/// aliases are exactly the rows that alias removal drops.
pub open spec fn aliases_removable(dag: DAG) -> bool {
    forall|i: int|
        0 <= i < dag.nodes.len() ==> (#[trigger] node_row_removed(dag, i) <==> dag.nodes[i].op is Alias)
}

/// Under `aliases_removable`, the dropped rows are the alias nodes.
proof fn lemma_removed_counts_aliases(dag: DAG, n: int)
    requires
        aliases_removable(dag),
        0 <= n <= dag.nodes.len(),
    ensures
        removed_before(dag, n) == crate::analysis::dag_analysis::count_ops(
            dag.nodes@.take(n),
            crate::analysis::dag_analysis::is_alias_op(),
        ),
    decreases n,
{
    if n > 0 {
        lemma_removed_counts_aliases(dag, n - 1);
        assert(dag.nodes@.take(n).drop_last() =~= dag.nodes@.take(n - 1));
        assert(node_row_removed(dag, n - 1) <==> dag.nodes[n - 1].op is Alias);
    }
}

/// Alias removal on the instance built from a DAG whose aliases each touch a private
/// column (with no scaling by 1 touching one), and where no column is the private
/// side of two alias rows, removes exactly as many rows as the DAG analysis counts
/// removable aliases.
pub proof fn lemma_alias_removal_count(dag: DAG, inst: SpartanInstance, out: SpartanInstance)
    requires
        dag.is_well_formed(),
        node_count_fits(dag.nodes.len() as nat),
        describes_instance(inst, dag),
        aliases_removable(dag),
        super::aliases::alias_keys_distinct(inst),
        super::aliases::alias_removal_outcome(out, inst),
    ensures
        out.num_cons + crate::analysis::dag_analysis::analysis_of(dag.nodes@).1 == inst.num_cons,
{
    let n = dag.nodes.len() as int;
    lemma_dag_removed_rows(dag, inst);
    lemma_removed_counts_aliases(dag, n);
    assert(dag.nodes@.take(n) =~= dag.nodes@);
    super::aliases::lemma_kept_rows_len(inst, inst.num_cons as int);
}

} // verus!
