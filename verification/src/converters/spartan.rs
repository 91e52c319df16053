//! Conversion of a DAG to Spartan R1CS matrices, and witness computation.
use super::layout::{
    assign_columns, circuit_input_ids, circuit_inputs_upto, columns_assignable, const_column,
    fourth_column, is_circuit_input, is_public_node, lemma_private_before_bounded, lemma_private_before_monotone, node_column,
    num_private_vars, num_public_io, private_before, square_column, ColumnAssignment,
};
use crate::dag::graph::{nodes_constraint_total, op_operands, DAG};
use crate::dag::node::{op_constraint_count, Node, OpType};
use crate::field::{bytes_are_canonical, bytes_value, field_order, FieldElement};
use vstd::prelude::*;

verus! {

/// Sparse R1CS matrix in coordinate format: `(row, column, value bytes)`.
pub type R1CSMatrix = Vec<(usize, usize, [u8; 32])>;

/// An R1CS matrix entry with its coefficient taken as an integer.
pub open spec fn entry_view(e: (usize, usize, [u8; 32])) -> (int, int, nat) {
    (e.0 as int, e.1 as int, bytes_value(e.2))
}

/// The entries of a matrix with their coefficients taken as integers.
pub open spec fn matrix_view(m: Seq<(usize, usize, [u8; 32])>) -> Seq<(int, int, nat)> {
    m.map_values(|e: (usize, usize, [u8; 32])| entry_view(e))
}

/// Every coefficient of the matrix is canonically encoded.
pub open spec fn matrix_canonical(m: Seq<(usize, usize, [u8; 32])>) -> bool {
    forall|k: int| 0 <= k < m.len() ==> bytes_are_canonical(#[trigger] m[k].2)
}

/// Spartan R1CS instance.
///
/// Variable layout: `z = [vars(0..num_vars), 1, inputs(0..num_inputs)]`, where the
/// public inputs are ordered as `[outputs..., circuit inputs...]`.
#[allow(non_snake_case)]
#[derive(Clone, Debug)]
pub struct SpartanInstance {
    /// Number of constraints
    pub num_cons: usize,
    /// Number of private variables
    pub num_vars: usize,
    /// Number of public inputs (outputs + circuit inputs)
    pub num_inputs: usize,
    /// Left coefficient matrix (A)
    pub A: R1CSMatrix,
    /// Right coefficient matrix (B)
    pub B: R1CSMatrix,
    /// Output coefficient matrix (C)
    pub C: R1CSMatrix,
}

/// Number of constraint rows of the nodes from `i` on. Rows are laid out in
/// evaluation order, from the last node (deepest dependencies) to node 0 (an
/// output), so these rows come first.
pub open spec fn rows_from(dag: DAG, i: int) -> nat
    decreases dag.nodes.len() - i,
{
    if 0 <= i < dag.nodes.len() {
        rows_from(dag, i + 1) + op_constraint_count(dag.nodes[i].op)
    } else {
        0
    }
}

/// First constraint row of node `i`: its rows follow those of every later node.
pub open spec fn row_start(dag: DAG, i: int) -> nat {
    rows_from(dag, i + 1)
}

/// One past the last constraint row of node `i`.
pub open spec fn row_end(dag: DAG, i: int) -> nat {
    rows_from(dag, i)
}

/// Matrix entries `(row, column, 1)`.
pub open spec fn unit(row: int, col: nat) -> (int, int, nat) {
    (row, col as int, 1nat)
}

/// Entries of A, B and C that node `i` contributes, starting at row `r`.
pub open spec fn node_entries(dag: DAG, i: int, r: int) -> (
    Seq<(int, int, nat)>,
    Seq<(int, int, nat)>,
    Seq<(int, int, nat)>,
) {
    let one = const_column(dag);
    let out = node_column(dag, i);
    match dag.nodes[i].op {
        OpType::Alias(s) => (
            seq![unit(r, out)],
            seq![unit(r, one)],
            seq![unit(r, node_column(dag, s as int))],
        ),
        OpType::Add(a, b) => (
            seq![unit(r, node_column(dag, a as int)), unit(r, node_column(dag, b as int))],
            seq![unit(r, one)],
            seq![unit(r, out)],
        ),
        OpType::Mul(a, b) => (
            seq![unit(r, node_column(dag, a as int))],
            seq![unit(r, node_column(dag, b as int))],
            seq![unit(r, out)],
        ),
        OpType::Scale(s, k) => (
            if k == 0 {
                seq![]
            } else {
                seq![(r, node_column(dag, s as int) as int, k as nat)]
            },
            seq![unit(r, one)],
            seq![unit(r, out)],
        ),
        OpType::Pow5(s) => {
            let src = node_column(dag, s as int);
            let sq = square_column(dag, i);
            let qd = fourth_column(dag, i);
            (
                seq![unit(r, src), unit(r + 1, sq), unit(r + 2, qd)],
                seq![unit(r, src), unit(r + 1, sq), unit(r + 2, src)],
                seq![unit(r, sq), unit(r + 1, qd), unit(r + 2, out)],
            )
        },
        OpType::Input | OpType::Output | OpType::Undefined => (seq![], seq![], seq![]),
    }
}

/// Entries of A, B and C contributed by the nodes from `k` on, laid out from the
/// last node down to node `k`.
pub open spec fn spartan_matrices(dag: DAG, k: int) -> (
    Seq<(int, int, nat)>,
    Seq<(int, int, nat)>,
    Seq<(int, int, nat)>,
)
    decreases dag.nodes.len() - k,
{
    if 0 <= k < dag.nodes.len() {
        let prev = spartan_matrices(dag, k + 1);
        let e = node_entries(dag, k, row_start(dag, k) as int);
        (prev.0 + e.0, prev.1 + e.1, prev.2 + e.2)
    } else {
        (seq![], seq![], seq![])
    }
}

/// The R1CS instance that the layout specifies for `dag`.
pub open spec fn describes_instance(inst: SpartanInstance, dag: DAG) -> bool {
    let m = spartan_matrices(dag, 0);
    &&& inst.num_cons == nodes_constraint_total(dag.nodes@)
    &&& inst.num_vars == num_private_vars(dag)
    &&& inst.num_inputs == num_public_io(dag)
    &&& matrix_view(inst.A@) == m.0
    &&& matrix_view(inst.B@) == m.1
    &&& matrix_view(inst.C@) == m.2
    &&& matrix_canonical(inst.A@)
    &&& matrix_canonical(inst.B@)
    &&& matrix_canonical(inst.C@)
}

pub proof fn lemma_row_start_step(dag: DAG, i: int)
    requires
        0 <= i < dag.nodes.len(),
    ensures
        row_end(dag, i) == row_start(dag, i) + op_constraint_count(dag.nodes[i].op),
{
}

/// The rows of the nodes from `i` on: at most three per node.
pub proof fn lemma_rows_from_bounded(dag: DAG, i: int)
    requires
        0 <= i <= dag.nodes.len(),
    ensures
        rows_from(dag, i) <= 3 * (dag.nodes.len() - i),
    decreases dag.nodes.len() - i,
{
    if i < dag.nodes.len() {
        lemma_rows_from_bounded(dag, i + 1);
    }
}

/// The rows of the nodes from `a` on include those from `b` on.
pub proof fn lemma_rows_from_antitone(dag: DAG, a: int, b: int)
    requires
        0 <= a <= b,
    ensures
        rows_from(dag, b) <= rows_from(dag, a),
    decreases b - a,
{
    if a < b {
        lemma_rows_from_antitone(dag, a + 1, b);
    }
}

/// All the rows are the DAG's constraint total.
pub proof fn lemma_rows_from_total(dag: DAG)
    ensures
        rows_from(dag, 0) == nodes_constraint_total(dag.nodes@),
{
    lemma_rows_from_prefix(dag, 0);
    assert(dag.nodes@.take(0) =~= Seq::<Node>::empty());
}

/// The rows from node `k` on and the constraints of the nodes before `k` make up
/// the DAG's constraint total.
proof fn lemma_rows_from_prefix(dag: DAG, k: int)
    requires
        0 <= k <= dag.nodes.len(),
    ensures
        rows_from(dag, k) + nodes_constraint_total(dag.nodes@.take(k)) == nodes_constraint_total(dag.nodes@),
    decreases dag.nodes.len() - k,
{
    if k < dag.nodes.len() {
        lemma_rows_from_prefix(dag, k + 1);
        assert(dag.nodes@.take(k + 1).drop_last() =~= dag.nodes@.take(k));
    } else {
        assert(dag.nodes@.take(k) =~= dag.nodes@);
    }
}

/// Pushes an entry to an R1CS matrix unless its coefficient is zero.
fn push_entry(matrix: &mut R1CSMatrix, row: usize, col: usize, val: FieldElement)
    requires
        val.is_canonical(),
        matrix_canonical(old(matrix)@),
    ensures
        matrix_canonical(final(matrix)@),
        matrix_view(final(matrix)@) == if val.value() == 0 {
            matrix_view(old(matrix)@)
        } else {
            matrix_view(old(matrix)@).push((row as int, col as int, val.value()))
        },
{
    if !val.is_zero() {
        matrix.push((row, col, val.to_bytes()));
        assert(matrix_view(matrix@) =~= matrix_view(old(matrix)@).push(
            (row as int, col as int, val.value()),
        ));
    }
}

/// Converts a DAG to Spartan R1CS matrices.
///
/// Each constraint has the form `<A,z> * <B,z> = <C,z>`. Rows are laid out in
/// evaluation order: the nodes are taken from the last (deepest dependencies) to
/// node 0, and node `i` owns the rows from `row_start(i)` on, one per constraint it
/// costs.
pub fn dag_to_spartan(dag: &DAG) -> (inst: SpartanInstance)
    requires
        columns_assignable(*dag),
    ensures
        describes_instance(inst, *dag),
{
    let ghost g = *dag;
    let cols = assign_columns(dag);
    let one = FieldElement::one();
    let n = dag.nodes.len();
    let mut a_mat: R1CSMatrix = Vec::new();
    let mut b_mat: R1CSMatrix = Vec::new();
    let mut c_mat: R1CSMatrix = Vec::new();
    let mut current_row: usize = 0;
    let mut i: usize = n;
    while i > 0
        invariant
            g == *dag,
            n == dag.nodes.len(),
            columns_assignable(g),
            cols.describes(g),
            one.is_canonical(),
            one.value() == 1,
            i <= n,
            current_row == rows_from(g, i as int),
            current_row <= 3 * (n - i),
            matrix_canonical(a_mat@),
            matrix_canonical(b_mat@),
            matrix_canonical(c_mat@),
            matrix_view(a_mat@) == spartan_matrices(g, i as int).0,
            matrix_view(b_mat@) == spartan_matrices(g, i as int).1,
            matrix_view(c_mat@) == spartan_matrices(g, i as int).2,
        decreases i,
    {
        i = i - 1;
        let node = dag.nodes[i];
        let ghost e = node_entries(g, i as int, current_row as int);
        let ghost a0 = matrix_view(a_mat@);
        let ghost b0 = matrix_view(b_mat@);
        let ghost c0 = matrix_view(c_mat@);
        proof {
            lemma_row_start_step(g, i as int);
            lemma_rows_from_bounded(g, i as int);
            assert(node.id == i);
        }
        match node.op {
            OpType::Input => {},
            OpType::Alias(src) => {
                proof { assert(op_operands(g.nodes[i as int].op)[0] == src); }
                let node_col = cols.node_to_col[i];
                let src_col = cols.node_to_col[src];
                push_entry(&mut a_mat, current_row, node_col, one);
                push_entry(&mut b_mat, current_row, cols.col_const_one, one);
                push_entry(&mut c_mat, current_row, src_col, one);
                current_row = current_row + 1;
            },
            OpType::Add(l, r) => {
                proof {
                    assert(op_operands(g.nodes[i as int].op)[0] == l);
                    assert(op_operands(g.nodes[i as int].op)[1] == r);
                }
                let l_col = cols.node_to_col[l];
                let r_col = cols.node_to_col[r];
                let out_col = cols.node_to_col[i];
                push_entry(&mut a_mat, current_row, l_col, one);
                push_entry(&mut a_mat, current_row, r_col, one);
                push_entry(&mut b_mat, current_row, cols.col_const_one, one);
                push_entry(&mut c_mat, current_row, out_col, one);
                current_row = current_row + 1;
            },
            OpType::Mul(l, r) => {
                proof {
                    assert(op_operands(g.nodes[i as int].op)[0] == l);
                    assert(op_operands(g.nodes[i as int].op)[1] == r);
                }
                let l_col = cols.node_to_col[l];
                let r_col = cols.node_to_col[r];
                let out_col = cols.node_to_col[i];
                push_entry(&mut a_mat, current_row, l_col, one);
                push_entry(&mut b_mat, current_row, r_col, one);
                push_entry(&mut c_mat, current_row, out_col, one);
                current_row = current_row + 1;
            },
            OpType::Scale(src, k) => {
                proof { assert(op_operands(g.nodes[i as int].op)[0] == src); }
                let src_col = cols.node_to_col[src];
                let out_col = cols.node_to_col[i];
                let coeff = FieldElement::from_u64(k);
                push_entry(&mut a_mat, current_row, src_col, coeff);
                push_entry(&mut b_mat, current_row, cols.col_const_one, one);
                push_entry(&mut c_mat, current_row, out_col, one);
                current_row = current_row + 1;
            },
            OpType::Pow5(src) => {
                proof { assert(op_operands(g.nodes[i as int].op)[0] == src); }
                proof {
                    lemma_private_before_monotone(g, i as int + 1, n as int);
                    lemma_private_before_bounded(g, n as int);
                }
                let sq_col = cols.square_col[i];
                let qd_col = sq_col + 1;
                let src_col = cols.node_to_col[src];
                let out_col = cols.node_to_col[i];
                // src * src = sq
                push_entry(&mut a_mat, current_row, src_col, one);
                push_entry(&mut b_mat, current_row, src_col, one);
                push_entry(&mut c_mat, current_row, sq_col, one);
                // sq * sq = qd
                push_entry(&mut a_mat, current_row + 1, sq_col, one);
                push_entry(&mut b_mat, current_row + 1, sq_col, one);
                push_entry(&mut c_mat, current_row + 1, qd_col, one);
                // qd * src = out
                push_entry(&mut a_mat, current_row + 2, qd_col, one);
                push_entry(&mut b_mat, current_row + 2, src_col, one);
                push_entry(&mut c_mat, current_row + 2, out_col, one);
                current_row = current_row + 3;
            },
            OpType::Output | OpType::Undefined => {},
        }
        proof {
            assert(matrix_view(a_mat@) =~= a0 + e.0);
            assert(matrix_view(b_mat@) =~= b0 + e.1);
            assert(matrix_view(c_mat@) =~= c0 + e.2);
        }
    }
    proof {
        lemma_rows_from_total(g);
    }
    SpartanInstance {
        num_cons: current_row,
        num_vars: cols.num_private_vars,
        num_inputs: cols.num_public_inputs,
        A: a_mat,
        B: b_mat,
        C: c_mat,
    }
}

} // verus!
