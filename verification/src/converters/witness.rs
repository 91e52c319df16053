//! Witness computation: evaluating the DAG on given circuit inputs and placing
//! the values in the z-vector layout.
use super::layout::{
    assign_columns, circuit_input_ids, circuit_inputs_upto, is_circuit_input, is_public_node,
    lemma_circuit_inputs_upto_entries, lemma_private_before_bounded,
    lemma_private_before_monotone, node_column, node_count_fits, num_private_vars, num_public_io,
    private_before, private_slots, square_column, ColumnAssignment,
};
use crate::dag::graph::{op_operands, DAG};
use crate::dag::node::{Node, OpType};
use crate::field::{field_order, FieldElement};
use vstd::prelude::*;

verus! {

/// `x^2 mod ℓ`.
pub open spec fn square_mod(x: nat) -> nat {
    (x * x) % field_order()
}

/// `x^4 mod ℓ`, as the square of the square.
pub open spec fn fourth_mod(x: nat) -> nat {
    (square_mod(x) * square_mod(x)) % field_order()
}

/// `x^5 mod ℓ`, as the fourth power times `x`.
pub open spec fn fifth_mod(x: nat) -> nat {
    (fourth_mod(x) * x) % field_order()
}

/// Value of node `id` when the circuit inputs take the values `inputs`
/// (the k-th circuit input takes `inputs[k]`).
pub open spec fn node_value(dag: DAG, inputs: Seq<FieldElement>, id: int) -> nat
    decreases dag.nodes.len() - id,
{
    if id < 0 || id >= dag.nodes.len() {
        0
    } else {
        let n = dag.nodes.len() as int;
        match dag.nodes[id].op {
            OpType::Input => {
                let k = circuit_inputs_upto(dag, id).len() as int;
                if is_circuit_input(dag, id) && k < inputs.len() {
                    inputs[k].value()
                } else {
                    0
                }
            },
            OpType::Add(l, r) => if id < l < n && id < r < n {
                (node_value(dag, inputs, l as int) + node_value(dag, inputs, r as int))
                    % field_order()
            } else {
                0
            },
            OpType::Mul(l, r) => if id < l < n && id < r < n {
                (node_value(dag, inputs, l as int) * node_value(dag, inputs, r as int))
                    % field_order()
            } else {
                0
            },
            OpType::Alias(s) => if id < s < n {
                node_value(dag, inputs, s as int)
            } else {
                0
            },
            OpType::Scale(s, k) => if id < s < n {
                (k as nat * node_value(dag, inputs, s as int)) % field_order()
            } else {
                0
            },
            OpType::Pow5(s) => if id < s < n {
                fifth_mod(node_value(dag, inputs, s as int))
            } else {
                0
            },
            OpType::Undefined | OpType::Output => 0,
        }
    }
}

/// The circuit input values are canonical and there is one per circuit input.
pub open spec fn inputs_fit(dag: DAG, inputs: Seq<FieldElement>) -> bool {
    &&& inputs.len() == circuit_input_ids(dag).len()
    &&& forall|k: int| 0 <= k < inputs.len() ==> (#[trigger] inputs[k]).is_canonical()
}

/// Values of a sequence of field elements.
pub open spec fn element_values(s: Seq<FieldElement>) -> Seq<nat> {
    s.map_values(|e: FieldElement| e.value())
}

/// Private values of node `i`, in column order: its own value if it is private,
/// then the square and fourth power of its source if it is a `Pow5` node.
pub open spec fn node_private_values(dag: DAG, inputs: Seq<FieldElement>, i: int) -> Seq<nat> {
    (if is_public_node(dag, i) {
        seq![]
    } else {
        seq![node_value(dag, inputs, i)]
    }) + match dag.nodes[i].op {
        OpType::Pow5(s) => {
            let x = node_value(dag, inputs, s as int);
            seq![square_mod(x), fourth_mod(x)]
        },
        _ => seq![],
    }
}

/// Private values of the nodes before `n`, in column order.
pub open spec fn private_values(dag: DAG, inputs: Seq<FieldElement>, n: int) -> Seq<nat>
    decreases n,
{
    if n <= 0 {
        seq![]
    } else {
        private_values(dag, inputs, n - 1) + node_private_values(dag, inputs, n - 1)
    }
}

/// `(vars, public_io)` is the witness of `dag` on `inputs`: each private node's value
/// sits in its column, each `Pow5` node's square and fourth power in the two columns
/// after it, and the public I/O holds the outputs' values followed by the circuit inputs.
pub open spec fn is_witness(
    dag: DAG,
    inputs: Seq<FieldElement>,
    vars: Seq<FieldElement>,
    public_io: Seq<FieldElement>,
) -> bool {
    &&& vars.len() == num_private_vars(dag)
    &&& public_io.len() == num_public_io(dag)
    &&& forall|c: int| 0 <= c < vars.len() ==> (#[trigger] vars[c]).is_canonical()
    &&& forall|c: int| 0 <= c < public_io.len() ==> (#[trigger] public_io[c]).is_canonical()
    &&& element_values(vars) == private_values(dag, inputs, dag.nodes.len() as int)
    &&& forall|o: int|
        0 <= o < dag.num_outputs ==> (#[trigger] public_io[o]).value() == node_value(
            dag,
            inputs,
            o,
        )
    &&& forall|k: int|
        0 <= k < inputs.len() ==> #[trigger] public_io[dag.num_outputs + k] == inputs[k]
}

/// Computes the full witness for a DAG given circuit input values.
///
/// Returns `(vars, public_io)`: the private variables, `num_private_vars` of them,
/// and the public I/O `[outputs..., circuit inputs...]`. `input_values` holds one
/// value per circuit input, in node order.
pub fn compute_witness(dag: &DAG, input_values: &[FieldElement]) -> (res: (
    Vec<FieldElement>,
    Vec<FieldElement>,
))
    requires
        dag.is_well_formed(),
        dag.outputs_are_computed(),
        node_count_fits(dag.nodes.len() as nat),
        inputs_fit(*dag, input_values@),
    ensures
        is_witness(*dag, input_values@, res.0@, res.1@),
{
    let ghost g = *dag;
    let ghost ins = input_values@;
    let cols = assign_columns(dag);
    let n = dag.nodes.len();
    let zero = FieldElement::zero();

    // 1. Per-node value storage, with the circuit inputs in place.
    let mut node_values: Vec<FieldElement> = Vec::new();
    let mut i: usize = 0;
    while i < n
        invariant
            i <= n,
            node_values.len() == i,
            zero.is_canonical(),
            forall|j: int| 0 <= j < i ==> (#[trigger] node_values[j]).is_canonical(),
        decreases n - i,
    {
        node_values.push(zero);
        i = i + 1;
    }
    proof {
        lemma_circuit_inputs_upto_entries(g, n as int);
    }
    let num_in = cols.input_node_order.len();
    let mut k: usize = 0;
    while k < num_in
        invariant
            g == *dag,
            ins == input_values@,
            n == dag.nodes.len(),
            cols.describes(g),
            inputs_fit(g, ins),
            num_in == circuit_input_ids(g).len(),
            k <= num_in,
            node_values.len() == n,
            forall|j: int| 0 <= j < n ==> (#[trigger] node_values[j]).is_canonical(),
            forall|m: int|
                0 <= m < circuit_input_ids(g).len() ==> {
                    let id = #[trigger] circuit_input_ids(g)[m] as int;
                    &&& 0 <= id < n
                    &&& is_circuit_input(g, id)
                    &&& circuit_inputs_upto(g, id).len() == m
                },
            forall|m: int|
                0 <= m < k ==> node_values[#[trigger] circuit_input_ids(g)[m] as int]
                    == input_values[m],
        decreases num_in - k,
    {
        let id = cols.input_node_order[k];
        node_values.set(id, input_values[k]);
        proof {
            assert forall|m: int| 0 <= m < k + 1 implies node_values[#[trigger] circuit_input_ids(
                g,
            )[m] as int] == input_values[m] by {
                if m < k {
                    let idm = circuit_input_ids(g)[m] as int;
                    if idm == id {
                        assert(circuit_inputs_upto(g, idm).len() == m);
                    }
                }
            }
        }
        k = k + 1;
    }
    // Every circuit input node now holds its value.
    proof {
        assert forall|j: int| 0 <= j < n && is_circuit_input(g, j) implies (
        #[trigger] node_values[j]).value() == node_value(g, ins, j) by {
            lemma_rank_of_circuit_input(g, j);
            let m = circuit_inputs_upto(g, j).len() as int;
            assert(circuit_input_ids(g)[m] == j);
        }
    }

    // 2. Evaluate nodes in reverse id order: operands point to higher ids.
    let mut idx: usize = n;
    while idx > 0
        invariant
            g == *dag,
            ins == input_values@,
            n == dag.nodes.len(),
            g.is_well_formed(),
            g.outputs_are_computed(),
            inputs_fit(g, ins),
            idx <= n,
            node_values.len() == n,
            forall|j: int| 0 <= j < n ==> (#[trigger] node_values[j]).is_canonical(),
            forall|j: int|
                0 <= j < n && is_circuit_input(g, j) ==> (#[trigger] node_values[j]).value()
                    == node_value(g, ins, j),
            forall|j: int|
                idx <= j < n ==> (#[trigger] node_values[j]).value() == node_value(g, ins, j),
            cols.describes(g),
            num_in == circuit_input_ids(g).len(),
            forall|m: int|
                0 <= m < circuit_input_ids(g).len() ==> {
                    let id = #[trigger] circuit_input_ids(g)[m] as int;
                    &&& 0 <= id < n
                    &&& is_circuit_input(g, id)
                    &&& circuit_inputs_upto(g, id).len() == m
                },
            forall|m: int|
                0 <= m < num_in ==> node_values[#[trigger] circuit_input_ids(g)[m] as int]
                    == input_values[m],
        decreases idx,
    {
        let cur = idx - 1;
        let node = dag.nodes[cur];
        proof {
            assert(node.id == cur);
            assert(!(node.op is Undefined) && !(node.op is Output));
        }
        match node.op {
            OpType::Add(l, r) => {
                proof {
                    assert(op_operands(g.nodes[cur as int].op)[0] == l);
                    assert(op_operands(g.nodes[cur as int].op)[1] == r);
                }
                let val = node_values[l].add(&node_values[r]);
                node_values.set(cur, val);
            },
            OpType::Mul(l, r) => {
                proof {
                    assert(op_operands(g.nodes[cur as int].op)[0] == l);
                    assert(op_operands(g.nodes[cur as int].op)[1] == r);
                }
                let val = node_values[l].mul(&node_values[r]);
                node_values.set(cur, val);
            },
            OpType::Alias(src) => {
                proof { assert(op_operands(g.nodes[cur as int].op)[0] == src); }
                let val = node_values[src];
                node_values.set(cur, val);
            },
            OpType::Scale(src, kk) => {
                proof { assert(op_operands(g.nodes[cur as int].op)[0] == src); }
                let val = FieldElement::from_u64(kk).mul(&node_values[src]);
                node_values.set(cur, val);
            },
            OpType::Pow5(src) => {
                proof { assert(op_operands(g.nodes[cur as int].op)[0] == src); }
                let x = node_values[src];
                let sq = x.mul(&x);
                let qd = sq.mul(&sq);
                let val = qd.mul(&x);
                node_values.set(cur, val);
            },
            _ => {},
        }
        proof {
            assert forall|m: int| 0 <= m < num_in implies node_values[#[trigger] circuit_input_ids(
                g,
            )[m] as int] == input_values[m] by {
                let idm = circuit_input_ids(g)[m] as int;
                assert(is_circuit_input(g, idm));
            }
        }
        idx = cur;
    }
    let ghost nv = node_values@;

    // 3. Private variables, in column order: each node's private values in node order.
    let mut vars: Vec<FieldElement> = Vec::new();
    let mut i: usize = 0;
    while i < n
        invariant
            g == *dag,
            ins == input_values@,
            n == dag.nodes.len(),
            g.is_well_formed(),
            i <= n,
            node_values@ == nv,
            node_values.len() == n,
            forall|j: int| 0 <= j < n ==> (#[trigger] node_values[j]).is_canonical(),
            forall|j: int| 0 <= j < n ==> (#[trigger] node_values[j]).value() == node_value(g, ins, j),
            forall|j: int| 0 <= j < vars.len() ==> (#[trigger] vars[j]).is_canonical(),
            element_values(vars@) == private_values(g, ins, i as int),
        decreases n - i,
    {
        let ghost before = element_values(vars@);
        if !(i < dag.num_outputs || dag.nodes[i].is_input()) {
            vars.push(node_values[i]);
        }
        if let OpType::Pow5(src) = dag.nodes[i].op {
            proof { assert(op_operands(g.nodes[i as int].op)[0] == src); }
            let x = node_values[src];
            let sq = x.mul(&x);
            let qd = sq.mul(&sq);
            vars.push(sq);
            vars.push(qd);
        }
        proof {
            assert(element_values(vars@) =~= before + node_private_values(g, ins, i as int));
        }
        i = i + 1;
    }

    // 4. Public I/O: outputs first, then circuit inputs.
    let mut public_io: Vec<FieldElement> = Vec::new();
    let num_outputs = dag.num_outputs;
    let mut o: usize = 0;
    while o < num_outputs
        invariant
            g == *dag,
            n == dag.nodes.len(),
            num_outputs == g.num_outputs,
            num_outputs <= n,
            o <= num_outputs,
            node_values@ == nv,
            node_values.len() == n,
            public_io.len() == o,
            forall|j: int| 0 <= j < n ==> (#[trigger] node_values[j]).is_canonical(),
            forall|j: int| 0 <= j < n ==> (#[trigger] node_values[j]).value() == node_value(g, ins, j),
            forall|j: int| 0 <= j < o ==> public_io[j] == node_values[j],
        decreases num_outputs - o,
    {
        public_io.push(node_values[o]);
        o = o + 1;
    }
    let mut k: usize = 0;
    while k < num_in
        invariant
            g == *dag,
            ins == input_values@,
            n == dag.nodes.len(),
            cols.describes(g),
            inputs_fit(g, ins),
            num_in == circuit_input_ids(g).len(),
            num_outputs == g.num_outputs,
            k <= num_in,
            node_values@ == nv,
            node_values.len() == n,
            public_io.len() == num_outputs + k,
            forall|m: int|
                0 <= m < circuit_input_ids(g).len() ==> {
                    let id = #[trigger] circuit_input_ids(g)[m] as int;
                    &&& 0 <= id < n
                    &&& is_circuit_input(g, id)
                    &&& circuit_inputs_upto(g, id).len() == m
                },
            forall|j: int| 0 <= j < n ==> (#[trigger] node_values[j]).is_canonical(),
            forall|m: int|
                0 <= m < num_in ==> node_values[#[trigger] circuit_input_ids(g)[m] as int]
                    == input_values[m],
            forall|j: int| 0 <= j < num_outputs ==> (#[trigger] public_io[j]).value() == node_value(g, ins, j),
            forall|j: int| 0 <= j < num_outputs ==> (#[trigger] public_io[j]).is_canonical(),
            forall|m: int| 0 <= m < k ==> #[trigger] public_io[num_outputs + m] == input_values[m],
        decreases num_in - k,
    {
        let id = cols.input_node_order[k];
        public_io.push(node_values[id]);
        k = k + 1;
    }
    proof {
        lemma_private_values_len(g, ins, n as int);
        assert(vars@.len() == element_values(vars@).len());
        assert(vars@.len() == num_private_vars(g));
        assert(public_io@.len() == num_public_io(g));
        assert(element_values(vars@) == private_values(g, ins, n as int));
        assert forall|c: int| 0 <= c < public_io@.len() implies (#[trigger] public_io@[c]).is_canonical() by {
            if c >= g.num_outputs {
                assert(public_io@[g.num_outputs + (c - g.num_outputs)] == input_values@[c - g.num_outputs]);
            }
        }
        assert forall|o: int| 0 <= o < g.num_outputs implies (#[trigger] public_io@[o]).value() == node_value(g, ins, o) by {}
        assert forall|m: int| 0 <= m < ins.len() implies #[trigger] public_io@[g.num_outputs + m] == ins[m] by {}
    }
    (vars, public_io)
}

/// There are as many private values as private columns.
pub proof fn lemma_private_values_len(dag: DAG, inputs: Seq<FieldElement>, n: int)
    requires
        0 <= n,
    ensures
        private_values(dag, inputs, n).len() == private_before(dag, n),
    decreases n,
{
    if n > 0 {
        lemma_private_values_len(dag, inputs, n - 1);
    }
}

/// A circuit input sits in the circuit-input list at its rank.
pub proof fn lemma_rank_of_circuit_input(dag: DAG, j: int)
    requires
        0 <= j < dag.nodes.len(),
        is_circuit_input(dag, j),
    ensures
        circuit_inputs_upto(dag, j).len() < circuit_input_ids(dag).len(),
        circuit_input_ids(dag)[circuit_inputs_upto(dag, j).len() as int] == j,
{
    super::layout::lemma_circuit_inputs_upto_monotone(dag, j + 1, dag.nodes.len() as int);
    let s = circuit_inputs_upto(dag, j + 1);
    assert(s == circuit_inputs_upto(dag, j).push(j as usize));
    assert(circuit_input_ids(dag).subrange(0, s.len() as int) == s);
    assert(circuit_input_ids(dag)[circuit_inputs_upto(dag, j).len() as int] == circuit_input_ids(
        dag,
    ).subrange(0, s.len() as int)[circuit_inputs_upto(dag, j).len() as int]);
}

} // verus!
