//! Rows of the instance built from a DAG come in evaluation order: taken in
//! sequence, with the constant and the circuit inputs known, each row holds at most
//! one column that no earlier row holds.
use super::agreement::{lemma_row_of_node, lemma_well_formed_assignable, lemma_width_fits, matrix_of, node_row, row_is, row_target};
use super::layout::{const_column, fourth_column, node_column, node_count_fits, square_column};
use super::r1cs::pick;
use super::solver::instance_width;
use super::spartan::{
    describes_instance, lemma_row_start_step, lemma_rows_from_antitone, matrix_view, node_entries, row_end,
    row_start, spartan_matrices, unit, SpartanInstance,
};
use crate::dag::graph::DAG;
use crate::dag::node::{op_constraint_count, OpType};
use vstd::prelude::*;

verus! {

/// Some entry of `m` sits in row `r` at column `c`.
pub open spec fn row_references(m: Seq<(int, int, nat)>, r: int, c: int) -> bool {
    exists|k: int| 0 <= k < m.len() && (#[trigger] m[k]).0 == r && m[k].1 == c
}

/// Column `c` occurs in row `r` of A, B or C.
pub open spec fn row_has_column(inst: SpartanInstance, r: int, c: int) -> bool {
    ||| row_references(matrix_view(inst.A@), r, c)
    ||| row_references(matrix_view(inst.B@), r, c)
    ||| row_references(matrix_view(inst.C@), r, c)
}

/// Column `c` is known when row `r` is reached, the rows taken in sequence: it is
/// the constant, a circuit input, or a column of an earlier row.
pub open spec fn known_before(inst: SpartanInstance, num_outputs: nat, r: int, c: int) -> bool {
    ||| c == inst.num_vars
    ||| inst.num_vars + 1 + num_outputs <= c < instance_width(inst)
    ||| exists|r2: int| 0 <= r2 < r && #[trigger] row_has_column(inst, r2, c)
}

/// The rows are in evaluation order: taken in sequence, each row holds at most one
/// column that is not known when the row is reached.
pub open spec fn rows_in_evaluation_order(inst: SpartanInstance, num_outputs: nat) -> bool {
    forall|r: int, c1: int, c2: int|
        0 <= r < inst.num_cons && #[trigger] row_has_column(inst, r, c1) && #[trigger] row_has_column(
            inst,
            r,
            c2,
        ) && !known_before(inst, num_outputs, r, c1) && !known_before(inst, num_outputs, r, c2) ==> c1
            == c2
}

/// A column of row `r`, the row of node `i` at offset `t`, in matrix `w` is a column
/// of the node's own entries of that row.
pub proof fn lemma_row_column_of_node(dag: DAG, inst: SpartanInstance, i: int, t: int, w: int, c: int)
    requires
        describes_instance(inst, dag),
        0 <= i < dag.nodes.len(),
        0 <= t < op_constraint_count(dag.nodes[i].op),
        0 <= w < 3,
        row_references(matrix_view(matrix_of(inst, w)), row_start(dag, i) + t, c),
    ensures
        row_references(node_row(dag, i, t, w), row_start(dag, i) + t, c),
{
    let r = row_start(dag, i) + t;
    let mv = matrix_view(matrix_of(inst, w));
    lemma_row_start_step(dag, i);
    lemma_row_of_node(dag, 0, i, r, w);
    assert(mv == pick(spartan_matrices(dag, 0), w));
    let k = choose|k: int| 0 <= k < mv.len() && (#[trigger] mv[k]).0 == r && mv[k].1 == c;
    mv.lemma_filter_contains(row_is(r), k);
    let nr = node_row(dag, i, t, w);
    assert(nr.contains(mv[k]));
    let k2 = choose|k2: int| 0 <= k2 < nr.len() && nr[k2] == mv[k];
    assert(0 <= k2 < nr.len() && (#[trigger] nr[k2]).0 == r && nr[k2].1 == c);
}

/// An entry of the node's own entries of a row sits in that row of the matrix.
pub proof fn lemma_node_entry_in_row(dag: DAG, inst: SpartanInstance, i: int, t: int, w: int, e: (int, int, nat))
    requires
        describes_instance(inst, dag),
        0 <= i < dag.nodes.len(),
        0 <= t < op_constraint_count(dag.nodes[i].op),
        0 <= w < 3,
        node_row(dag, i, t, w).contains(e),
        e.0 == row_start(dag, i) + t,
    ensures
        row_has_column(inst, row_start(dag, i) + t, e.1),
{
    let r = row_start(dag, i) + t;
    let mv = matrix_view(matrix_of(inst, w));
    lemma_row_start_step(dag, i);
    lemma_row_of_node(dag, 0, i, r, w);
    assert(mv == pick(spartan_matrices(dag, 0), w));
    mv.lemma_filter_contains_rev(row_is(r), e);
    let k = choose|k: int| 0 <= k < mv.len() && mv[k] == e;
    assert(0 <= k < mv.len() && (#[trigger] mv[k]).0 == r && mv[k].1 == e.1);
    assert(row_references(mv, r, e.1));
    if w == 0 {
        assert(row_references(matrix_view(inst.A@), r, e.1));
    } else if w == 1 {
        assert(row_references(matrix_view(inst.B@), r, e.1));
    } else {
        assert(row_references(matrix_view(inst.C@), r, e.1));
    }
}

/// A row of node `s` holds the node's own column (`s` is not an input).
pub proof fn lemma_own_column_row(dag: DAG, inst: SpartanInstance, s: int) -> (r2: int)
    requires
        dag.is_well_formed(),
        describes_instance(inst, dag),
        0 <= s < dag.nodes.len(),
        !(dag.nodes[s].op is Input),
    ensures
        row_start(dag, s) <= r2 < row_end(dag, s),
        row_has_column(inst, r2, node_column(dag, s) as int),
{
    lemma_row_start_step(dag, s);
    let r0 = row_start(dag, s) as int;
    let (w, k, t): (int, int, int) = if dag.nodes[s].op is Alias {
        (0, 0, 0)
    } else if dag.nodes[s].op is Pow5 {
        (2, 2, 2)
    } else {
        (2, 0, 0)
    };
    let e = pick(node_entries(dag, s, r0), w);
    assert(e[k] == unit(r0 + t, node_column(dag, s)));
    e.lemma_filter_contains(row_is(r0 + t), k);
    lemma_node_entry_in_row(dag, inst, s, t, w, e[k]);
    r0 + t
}

/// The column of an operand `s` of node `i` is known when any row of node `i` is
/// reached: `s` is a circuit input, or its rows come before.
pub proof fn lemma_operand_known(dag: DAG, inst: SpartanInstance, i: int, s: int, r: int)
    requires
        dag.is_well_formed(),
        dag.outputs_are_computed(),
        node_count_fits(dag.nodes.len() as nat),
        describes_instance(inst, dag),
        0 <= i < s < dag.nodes.len(),
        row_start(dag, i) <= r,
    ensures
        known_before(inst, dag.num_outputs as nat, r, node_column(dag, s) as int),
{
    lemma_well_formed_assignable(dag);
    lemma_width_fits(dag);
    super::r1cs::lemma_columns_in_bounds(dag);
    if dag.nodes[s].op is Input {
        assert(s >= dag.num_outputs);
        assert(node_column(dag, s) < instance_width(inst));
    } else {
        let r2 = lemma_own_column_row(dag, inst, s);
        lemma_rows_from_antitone(dag, i + 1, s);
        assert(0 <= r2 < r && row_has_column(inst, r2, node_column(dag, s) as int));
    }
}

/// A column of row `r`, the row of node `i` at offset `t`, is the column of one of
/// the node's entries in that row.
pub proof fn lemma_row_column_entry(dag: DAG, inst: SpartanInstance, i: int, t: int, c: int) -> (we: (int, (
    int,
    int,
    nat,
)))
    requires
        describes_instance(inst, dag),
        0 <= i < dag.nodes.len(),
        0 <= t < op_constraint_count(dag.nodes[i].op),
        row_has_column(inst, row_start(dag, i) + t, c),
    ensures
        0 <= we.0 < 3,
        pick(node_entries(dag, i, row_start(dag, i) as int), we.0).contains(we.1),
        we.1.0 == row_start(dag, i) + t,
        we.1.1 == c,
{
    let r = row_start(dag, i) + t;
    let w: int = if row_references(matrix_view(inst.A@), r, c) {
        0
    } else if row_references(matrix_view(inst.B@), r, c) {
        1
    } else {
        2
    };
    lemma_row_column_of_node(dag, inst, i, t, w, c);
    let nr = node_row(dag, i, t, w);
    let k = choose|k: int| 0 <= k < nr.len() && (#[trigger] nr[k]).0 == r && nr[k].1 == c;
    let es = pick(node_entries(dag, i, row_start(dag, i) as int), w);
    assert(nr.contains(nr[k]));
    es.lemma_filter_contains_rev(row_is(r), nr[k]);
    (w, nr[k])
}

/// Every column of a row of an alias, addition, multiplication or scaling node
/// other than the node's own column is known when the row is reached.
proof fn lemma_single_row_columns(dag: DAG, inst: SpartanInstance, i: int, c: int)
    requires
        dag.is_well_formed(),
        dag.outputs_are_computed(),
        node_count_fits(dag.nodes.len() as nat),
        describes_instance(inst, dag),
        0 <= i < dag.nodes.len(),
        dag.nodes[i].op is Alias || dag.nodes[i].op is Add || dag.nodes[i].op is Mul || dag.nodes[i].op is Scale,
        row_has_column(inst, row_start(dag, i) as int, c),
    ensures
        c == row_target(dag, i, 0) || known_before(inst, dag.num_outputs as nat, row_start(dag, i) as int, c),
{
    let r0 = row_start(dag, i) as int;
    let (w, e) = lemma_row_column_entry(dag, inst, i, 0, c);
    let es = pick(node_entries(dag, i, r0), w);
    let k = choose|k: int| 0 <= k < es.len() && es[k] == e;
    let ops = crate::dag::graph::op_operands(dag.nodes[i].op);
    if c != node_column(dag, i) && c != const_column(dag) {
        assert(exists|q: int| 0 <= q < ops.len() && c == node_column(dag, ops[q] as int)) by {
            match dag.nodes[i].op {
                OpType::Add(a, b) => {
                    if k == 0 {
                        assert(c == node_column(dag, ops[0] as int));
                    } else {
                        assert(c == node_column(dag, ops[1] as int));
                    }
                },
                OpType::Mul(a, b) => {
                    if w == 0 {
                        assert(c == node_column(dag, ops[0] as int));
                    } else {
                        assert(c == node_column(dag, ops[1] as int));
                    }
                },
                _ => {
                    assert(c == node_column(dag, ops[0] as int));
                },
            }
        }
        let q = choose|q: int| 0 <= q < ops.len() && c == node_column(dag, ops[q] as int);
        lemma_operand_known(dag, inst, i, ops[q] as int, r0);
    }
}

/// Every column of a row of a `Pow5` node other than the column the row
/// determines is known when the row is reached.
proof fn lemma_power_row_columns(dag: DAG, inst: SpartanInstance, i: int, t: int, c: int)
    requires
        dag.is_well_formed(),
        dag.outputs_are_computed(),
        node_count_fits(dag.nodes.len() as nat),
        describes_instance(inst, dag),
        0 <= i < dag.nodes.len(),
        dag.nodes[i].op is Pow5,
        0 <= t < 3,
        row_has_column(inst, row_start(dag, i) + t, c),
    ensures
        c == row_target(dag, i, t) || known_before(inst, dag.num_outputs as nat, row_start(dag, i) + t, c),
{
    let r0 = row_start(dag, i) as int;
    let r = r0 + t;
    let src = dag.nodes[i].op->Pow5_0;
    assert(crate::dag::graph::op_operands(dag.nodes[i].op)[0] == src);
    let cs = node_column(dag, src as int);
    let sq = square_column(dag, i);
    let qd = fourth_column(dag, i);
    let (w, e) = lemma_row_column_entry(dag, inst, i, t, c);
    let es = pick(node_entries(dag, i, r0), w);
    let k = choose|k: int| 0 <= k < es.len() && es[k] == e;
    if c == cs {
        lemma_operand_known(dag, inst, i, src as int, r);
    } else if t == 1 && c == sq {
        let ce = pick(node_entries(dag, i, r0), 2);
        assert(ce[0] == unit(r0, sq));
        ce.lemma_filter_contains(row_is(r0), 0);
        lemma_node_entry_in_row(dag, inst, i, 0, 2, ce[0]);
        assert(0 <= r0 < r && row_has_column(inst, r0, c));
    } else if t == 2 && c == qd {
        let ce = pick(node_entries(dag, i, r0), 2);
        assert(ce[1] == unit(r0 + 1, qd));
        ce.lemma_filter_contains(row_is(r0 + 1), 1);
        lemma_node_entry_in_row(dag, inst, i, 1, 2, ce[1]);
        assert(0 <= r0 + 1 < r && row_has_column(inst, r0 + 1, c));
    }
}

/// The rows of the instance built from a DAG are in evaluation order: taken in
/// sequence, with the constant and the circuit inputs known, each row holds at most
/// one column that no earlier row holds (the column the row computes).
pub proof fn lemma_dag_rows_in_evaluation_order(dag: DAG, inst: SpartanInstance)
    requires
        dag.is_well_formed(),
        dag.outputs_are_computed(),
        node_count_fits(dag.nodes.len() as nat),
        describes_instance(inst, dag),
    ensures
        rows_in_evaluation_order(inst, dag.num_outputs as nat),
{
    assert forall|r: int, c1: int, c2: int|
        0 <= r < inst.num_cons && #[trigger] row_has_column(inst, r, c1) && #[trigger] row_has_column(
            inst,
            r,
            c2,
        ) && !known_before(inst, dag.num_outputs as nat, r, c1) && !known_before(
            inst,
            dag.num_outputs as nat,
            r,
            c2,
        ) implies c1 == c2 by {
        super::spartan::lemma_rows_from_total(dag);
        let i = super::r1cs::lemma_row_owner(dag, 0, r);
        lemma_row_start_step(dag, i);
        let t = r - row_start(dag, i);
        if dag.nodes[i].op is Pow5 {
            lemma_power_row_columns(dag, inst, i, t, c1);
            lemma_power_row_columns(dag, inst, i, t, c2);
        } else {
            lemma_single_row_columns(dag, inst, i, c1);
            lemma_single_row_columns(dag, inst, i, c2);
        }
    }
}

} // verus!
