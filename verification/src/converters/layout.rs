//! Placement of the DAG's values in the R1CS z-vector.
//!
//! Layout: `z = [private variables | 1 | outputs... | circuit inputs...]`.
//! Private columns are handed out in node order: a node that is not public takes
//! one column, and a `Pow5` node takes two more for its square and fourth power.
use crate::dag::graph::{op_operands, DAG};
use crate::dag::node::{Node, OpType};
use vstd::prelude::*;

verus! {

/// The number of nodes a DAG may hold: a `Vec<Node>` holds at most
/// `isize::MAX` bytes and a node takes at least 16 of them.
pub open spec fn node_count_fits(len: nat) -> bool {
    len <= usize::MAX / 16
}

/// Node `i` is a public variable: one of the outputs, or an input.
pub open spec fn is_public_node(dag: DAG, i: int) -> bool {
    i < dag.num_outputs || dag.nodes[i].op is Input
}

/// Node `i` is a circuit input: an input that is not also an output.
pub open spec fn is_circuit_input(dag: DAG, i: int) -> bool {
    dag.nodes[i].op is Input && i >= dag.num_outputs
}

/// Private columns taken by node `i`.
pub open spec fn private_slots(dag: DAG, i: int) -> nat {
    (if is_public_node(dag, i) { 0nat } else { 1nat }) + (if dag.nodes[i].op is Pow5 {
        2nat
    } else {
        0nat
    })
}

/// Private columns taken by the nodes before `n`.
pub open spec fn private_before(dag: DAG, n: int) -> nat
    decreases n,
{
    if n <= 0 {
        0
    } else {
        private_before(dag, n - 1) + private_slots(dag, n - 1)
    }
}

/// Number of private variables.
pub open spec fn num_private_vars(dag: DAG) -> nat {
    private_before(dag, dag.nodes.len() as int)
}

/// Ids of the circuit inputs among the nodes before `n`, in order.
pub open spec fn circuit_inputs_upto(dag: DAG, n: int) -> Seq<usize>
    decreases n,
{
    if n <= 0 {
        seq![]
    } else if is_circuit_input(dag, n - 1) {
        circuit_inputs_upto(dag, n - 1).push((n - 1) as usize)
    } else {
        circuit_inputs_upto(dag, n - 1)
    }
}

/// Ids of the circuit inputs, in order.
pub open spec fn circuit_input_ids(dag: DAG) -> Seq<usize> {
    circuit_inputs_upto(dag, dag.nodes.len() as int)
}

/// Number of public I/O values: the outputs, then the circuit inputs.
pub open spec fn num_public_io(dag: DAG) -> nat {
    (dag.num_outputs + circuit_input_ids(dag).len()) as nat
}

/// Column of the constant 1.
pub open spec fn const_column(dag: DAG) -> nat {
    num_private_vars(dag)
}

/// Column of node `id`.
pub open spec fn node_column(dag: DAG, id: int) -> nat {
    if id < dag.num_outputs {
        (num_private_vars(dag) + 1 + id) as nat
    } else if dag.nodes[id].op is Input {
        (num_private_vars(dag) + 1 + dag.num_outputs + circuit_inputs_upto(dag, id).len()) as nat
    } else {
        private_before(dag, id)
    }
}

/// Column of the square of the source of `Pow5` node `i`.
pub open spec fn square_column(dag: DAG, i: int) -> nat {
    private_before(dag, i) + (if is_public_node(dag, i) { 0nat } else { 1nat })
}

/// Column of the fourth power of the source of `Pow5` node `i`.
pub open spec fn fourth_column(dag: DAG, i: int) -> nat {
    square_column(dag, i) + 1
}

/// Whether node `i`'s operands are all node ids.
pub open spec fn operands_in_range(dag: DAG, i: int) -> bool {
    forall|k: int| 0 <= k < op_operands(dag.nodes[i].op).len() ==> #[trigger] op_operands(dag.nodes[i].op)[k] < dag.nodes.len()
}

/// Preconditions under which the columns can be assigned: dense ids, operands
/// that are node ids, output ids that are node ids, and a size that fits memory.
pub open spec fn columns_assignable(dag: DAG) -> bool {
    &&& dag.ids_match_positions()
    &&& forall|i: int, k: int|
        0 <= i < dag.nodes.len() && 0 <= k < op_operands(dag.nodes[i].op).len() ==> (
        #[trigger] op_operands(dag.nodes[i].op)[k]) < dag.nodes.len()
    &&& dag.num_outputs <= dag.nodes.len()
    &&& node_count_fits(dag.nodes.len() as nat)
}

pub proof fn lemma_private_before_monotone(dag: DAG, a: int, b: int)
    requires
        0 <= a <= b,
    ensures
        private_before(dag, a) <= private_before(dag, b),
    decreases b - a,
{
    if a < b {
        lemma_private_before_monotone(dag, a, b - 1);
    }
}

pub proof fn lemma_private_before_bounded(dag: DAG, n: int)
    requires
        0 <= n,
    ensures
        private_before(dag, n) <= 3 * n,
    decreases n,
{
    if n > 0 {
        lemma_private_before_bounded(dag, n - 1);
    }
}

pub proof fn lemma_circuit_inputs_upto_len(dag: DAG, n: int)
    requires
        0 <= n,
    ensures
        circuit_inputs_upto(dag, n).len() <= n,
    decreases n,
{
    if n > 0 {
        lemma_circuit_inputs_upto_len(dag, n - 1);
    }
}

pub proof fn lemma_circuit_inputs_upto_monotone(dag: DAG, a: int, b: int)
    requires
        0 <= a <= b,
    ensures
        circuit_inputs_upto(dag, a).len() <= circuit_inputs_upto(dag, b).len(),
        circuit_inputs_upto(dag, b).subrange(0, circuit_inputs_upto(dag, a).len() as int)
            == circuit_inputs_upto(dag, a),
    decreases b - a,
{
    if a < b {
        lemma_circuit_inputs_upto_monotone(dag, a, b - 1);
        let s = circuit_inputs_upto(dag, b - 1);
        let la = circuit_inputs_upto(dag, a).len() as int;
        if is_circuit_input(dag, b - 1) {
            assert(s.push((b - 1) as usize).subrange(0, la) =~= s.subrange(0, la));
        }
    }
}

/// Entries of the circuit-input id list are the circuit inputs, each placed at its rank.
pub proof fn lemma_circuit_inputs_upto_entries(dag: DAG, n: int)
    requires
        0 <= n <= dag.nodes.len(),
    ensures
        forall|k: int|
            0 <= k < circuit_inputs_upto(dag, n).len() ==> {
                let id = #[trigger] circuit_inputs_upto(dag, n)[k] as int;
                &&& 0 <= id < n
                &&& is_circuit_input(dag, id)
                &&& circuit_inputs_upto(dag, id).len() == k
            },
    decreases n,
{
    if n > 0 {
        lemma_circuit_inputs_upto_entries(dag, n - 1);
        let prev = circuit_inputs_upto(dag, n - 1);
        assert forall|k: int| 0 <= k < circuit_inputs_upto(dag, n).len() implies {
            let id = #[trigger] circuit_inputs_upto(dag, n)[k] as int;
            &&& 0 <= id < n
            &&& is_circuit_input(dag, id)
            &&& circuit_inputs_upto(dag, id).len() == k
        } by {
            if k < prev.len() {
                assert(circuit_inputs_upto(dag, n)[k] == prev[k]);
            }
        }
    }
}

/// No node below the output count is a circuit input.
pub proof fn lemma_no_circuit_inputs_below_outputs(dag: DAG, n: int)
    requires
        0 <= n <= dag.num_outputs,
    ensures
        circuit_inputs_upto(dag, n) == Seq::<usize>::empty(),
    decreases n,
{
    if n > 0 {
        lemma_no_circuit_inputs_below_outputs(dag, n - 1);
    }
}

/// Column assignment of a DAG.
pub struct ColumnAssignment {
    /// node id → column in the z-vector
    pub node_to_col: Vec<usize>,
    /// node id → column of the square, for `Pow5` nodes (0 for the others)
    pub square_col: Vec<usize>,
    /// Count of private variable columns
    pub num_private_vars: usize,
    /// Count of public I/O columns
    pub num_public_inputs: usize,
    /// Column of the constant 1 (= num_private_vars)
    pub col_const_one: usize,
    /// Output node ids in order: `0, 1, ..., num_outputs - 1`
    pub output_node_order: Vec<usize>,
    /// Circuit input node ids in order
    pub input_node_order: Vec<usize>,
}

impl ColumnAssignment {
    /// This assignment is the one that the layout specifies for `dag`.
    pub open spec fn describes(&self, dag: DAG) -> bool {
        &&& self.node_to_col.len() == dag.nodes.len()
        &&& self.square_col.len() == dag.nodes.len()
        &&& forall|i: int|
            0 <= i < dag.nodes.len() ==> #[trigger] self.node_to_col[i] == node_column(dag, i)
        &&& forall|i: int|
            0 <= i < dag.nodes.len() && dag.nodes[i].op is Pow5 ==> #[trigger] self.square_col[i]
                == square_column(dag, i)
        &&& self.num_private_vars == num_private_vars(dag)
        &&& self.col_const_one == num_private_vars(dag)
        &&& self.num_public_inputs == num_public_io(dag)
        &&& self.output_node_order@ == Seq::new(dag.num_outputs as nat, |o: int| o as usize)
        &&& self.input_node_order@ == circuit_input_ids(dag)
    }
}

/// Assigns z-vector columns to all nodes of the DAG.
pub fn assign_columns(dag: &DAG) -> (cols: ColumnAssignment)
    requires
        dag.num_outputs <= dag.nodes.len(),
        node_count_fits(dag.nodes.len() as nat),
    ensures
        cols.describes(*dag),
        num_private_vars(*dag) <= 3 * dag.nodes.len(),
        circuit_input_ids(*dag).len() <= dag.nodes.len(),
{
    let n = dag.nodes.len();
    let num_outputs = dag.num_outputs;
    let ghost g = *dag;

    // Private columns, in node order.
    let mut node_to_col: Vec<usize> = Vec::new();
    let mut square_col: Vec<usize> = Vec::new();
    let mut next_private: usize = 0;
    let mut i: usize = 0;
    while i < n
        invariant
            n == dag.nodes.len(),
            num_outputs == dag.num_outputs,
            g == *dag,
            num_outputs <= n,
            node_count_fits(n as nat),
            i <= n,
            next_private == private_before(g, i as int),
            next_private <= 3 * i,
            node_to_col.len() == i,
            square_col.len() == i,
            forall|j: int|
                0 <= j < i && !is_public_node(g, j) ==> #[trigger] node_to_col[j] == private_before(
                    g,
                    j,
                ),
            forall|j: int|
                0 <= j < i && g.nodes[j].op is Pow5 ==> #[trigger] square_col[j] == square_column(
                    g,
                    j,
                ),
        decreases n - i,
    {
        let is_public = i < num_outputs || dag.nodes[i].is_input();
        if !is_public {
            node_to_col.push(next_private);
            next_private = next_private + 1;
        } else {
            node_to_col.push(0);
        }
        if let OpType::Pow5(_) = dag.nodes[i].op {
            square_col.push(next_private);
            next_private = next_private + 2;
        } else {
            square_col.push(0);
        }
        i = i + 1;
    }
    let num_private = next_private;
    proof {
        lemma_circuit_inputs_upto_len(g, n as int);
    }

    // Public columns, after the constant 1: outputs first, then circuit inputs.
    let mut output_node_order: Vec<usize> = Vec::new();
    let mut o: usize = 0;
    while o < num_outputs
        invariant
            num_outputs == dag.num_outputs,
            num_outputs <= n,
            n == dag.nodes.len(),
            node_count_fits(n as nat),
            num_private <= 3 * n,
            o <= num_outputs,
            node_to_col.len() == n,
            output_node_order@ == Seq::new(o as nat, |k: int| k as usize),
            num_private == num_private_vars(g),
            g == *dag,
            forall|j: int|
                0 <= j < n && !is_public_node(g, j) ==> #[trigger] node_to_col[j] == private_before(
                    g,
                    j,
                ),
            forall|j: int| 0 <= j < o ==> #[trigger] node_to_col[j] == node_column(g, j),
        decreases num_outputs - o,
    {
        node_to_col.set(o, num_private + 1 + o);
        output_node_order.push(o);
        assert(output_node_order@ =~= Seq::new((o + 1) as nat, |k: int| k as usize));
        o = o + 1;
    }

    let mut input_node_order: Vec<usize> = Vec::new();
    let mut j: usize = num_outputs;
    proof {
        lemma_no_circuit_inputs_below_outputs(g, num_outputs as int);
    }
    while j < n
        invariant
            num_outputs == dag.num_outputs,
            num_outputs <= j <= n,
            n == dag.nodes.len(),
            node_count_fits(n as nat),
            num_private <= 3 * n,
            node_to_col.len() == n,
            num_private == num_private_vars(g),
            g == *dag,
            input_node_order@ == circuit_inputs_upto(g, j as int),
            forall|k: int|
                0 <= k < n && !is_public_node(g, k) ==> #[trigger] node_to_col[k] == private_before(
                    g,
                    k,
                ),
            forall|k: int| 0 <= k < j ==> #[trigger] node_to_col[k] == node_column(g, k),
        decreases n - j,
    {
        proof {
            lemma_circuit_inputs_upto_len(g, j as int);
        }
        if dag.nodes[j].is_input() {
            let col = num_private + 1 + num_outputs + input_node_order.len();
            node_to_col.set(j, col);
            input_node_order.push(j);
        }
        j = j + 1;
    }
    proof {
        assert forall|k: int| 0 <= k < n implies #[trigger] node_to_col[k] == node_column(g, k) by {
        }
        lemma_circuit_inputs_upto_len(g, n as int);
    }
    let num_public_inputs = num_outputs + input_node_order.len();
    ColumnAssignment {
        node_to_col,
        square_col,
        num_private_vars: num_private,
        num_public_inputs,
        col_const_one: num_private,
        output_node_order,
        input_node_order,
    }
}

/// Whether the DAG meets `columns_assignable`: the shape that the R1CS converter and
/// the witness computation take.
pub fn columns_assignable_check(dag: &DAG) -> (ok: bool)
    ensures
        ok == columns_assignable(*dag),
{
    let n = dag.nodes.len();
    if n > usize::MAX / 16 || dag.num_outputs > n {
        return false;
    }
    let mut i: usize = 0;
    while i < n
        invariant
            n == dag.nodes.len(),
            i <= n,
            forall|j: int| #![trigger dag.nodes[j]] 0 <= j < i ==> dag.nodes[j].id == j && operands_in_range(*dag, j),
        decreases n - i,
    {
        if dag.nodes[i].id != i {
            return false;
        }
        let in_range = match dag.nodes[i].op {
            OpType::Add(l, r) | OpType::Mul(l, r) => l < n && r < n,
            OpType::Alias(s) | OpType::Scale(s, _) | OpType::Pow5(s) => s < n,
            OpType::Undefined | OpType::Input | OpType::Output => true,
        };
        if !in_range {
            assert(!operands_in_range(*dag, i as int)) by {
                let ops = op_operands(dag.nodes[i as int].op);
                assert(ops.len() > 0 && (ops[0] >= n || (ops.len() > 1 && ops[1] >= n)));
            }
            return false;
        }
        proof {
            let ops = op_operands(dag.nodes[i as int].op);
            assert forall|k: int| 0 <= k < ops.len() implies #[trigger] ops[k] < n by {
                if k == 1 {
                    assert(ops[1] < n);
                } else {
                    assert(ops[0] < n);
                }
            }
        }
        i = i + 1;
    }
    proof {
        assert forall|a: int, k: int|
            0 <= a < n && 0 <= k < op_operands(dag.nodes[a].op).len() implies (#[trigger] op_operands(
            dag.nodes[a].op,
        )[k]) < n by {
            let node = dag.nodes[a];
            assert(operands_in_range(*dag, a));
        }
    }
    true
}

} // verus!
