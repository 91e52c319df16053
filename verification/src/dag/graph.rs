use super::node::{op_constraint_count, Node, OpType};
use vstd::prelude::*;

verus! {

/// The ids of the nodes that an operation reads.
pub open spec fn op_operands(op: OpType) -> Seq<usize> {
    match op {
        OpType::Add(l, r) | OpType::Mul(l, r) => seq![l, r],
        OpType::Alias(s) | OpType::Scale(s, _) | OpType::Pow5(s) => seq![s],
        OpType::Undefined | OpType::Input | OpType::Output => seq![],
    }
}

/// Sum of the constraint counts of a sequence of nodes.
pub open spec fn nodes_constraint_total(nodes: Seq<Node>) -> nat
    decreases nodes.len(),
{
    if nodes.len() == 0 {
        0
    } else {
        nodes_constraint_total(nodes.drop_last()) + op_constraint_count(nodes.last().op)
    }
}

/// A generated circuit DAG.
///
/// Operands point from lower to higher node ids: outputs carry the lowest ids and
/// inputs the highest, so evaluating in reverse id order respects dependencies.
#[derive(Clone, Debug)]
pub struct DAG {
    /// The nodes in the DAG
    pub nodes: Vec<Node>,
    /// Number of input nodes
    pub num_inputs: usize,
    /// Number of output nodes (the nodes with ids `0..num_outputs`)
    pub num_outputs: usize,
}

impl DAG {
    /// Every node's id is its position in `nodes`.
    pub open spec fn ids_match_positions(&self) -> bool {
        forall|i: int| 0 <= i < self.nodes.len() ==> #[trigger] self.nodes[i].id == i
    }

    /// Every operand of node `i` is the id of a node placed after `i`.
    pub open spec fn operands_point_forward(&self) -> bool {
        forall|i: int, k: int|
            0 <= i < self.nodes.len() && 0 <= k < op_operands(self.nodes[i].op).len() ==> i
                < #[trigger] op_operands(self.nodes[i].op)[k] < self.nodes.len()
    }

    /// No node is left `Undefined` or `Output`.
    pub open spec fn is_finalized(&self) -> bool {
        forall|i: int|
            0 <= i < self.nodes.len() ==> !(#[trigger] self.nodes[i].op is Undefined)
                && !(self.nodes[i].op is Output)
    }

    /// The shape that the generator produces: dense ids, forward operands, no
    /// placeholder left, and the output ids are node ids.
    pub open spec fn is_well_formed(&self) -> bool {
        &&& self.ids_match_positions()
        &&& self.operands_point_forward()
        &&& self.is_finalized()
        &&& self.num_outputs <= self.nodes.len()
    }

    /// Every output node carries an operation (none of them was left as an input).
    pub open spec fn outputs_are_computed(&self) -> bool {
        forall|o: int| 0 <= o < self.num_outputs ==> !(#[trigger] self.nodes[o].op is Input)
    }

    /// The nodes that are inputs, in order.
    pub open spec fn input_nodes(&self) -> Seq<Node> {
        self.nodes@.filter(|n: Node| n.op is Input)
    }

    /// The nodes that are outputs, in order.
    pub open spec fn output_nodes(&self) -> Seq<Node> {
        self.nodes@.filter(|n: Node| n.op is Output)
    }

    /// Returns the total number of constraints in the DAG.
    pub fn total_constraints(&self) -> (total: usize)
        requires
            nodes_constraint_total(self.nodes@) <= usize::MAX,
        ensures
            total == nodes_constraint_total(self.nodes@),
    {
        let mut total: usize = 0;
        let mut i: usize = 0;
        while i < self.nodes.len()
            invariant
                i <= self.nodes.len(),
                total == nodes_constraint_total(self.nodes@.take(i as int)),
                nodes_constraint_total(self.nodes@) <= usize::MAX,
            decreases self.nodes.len() - i,
        {
            proof {
                assert(self.nodes@.take(i + 1).drop_last() =~= self.nodes@.take(i as int));
                lemma_constraint_total_prefix_bounded(self.nodes@, i + 1);
            }
            total = total + self.nodes[i].constraint_count();
            i = i + 1;
        }
        proof {
            assert(self.nodes@.take(i as int) =~= self.nodes@);
        }
        total
    }

    /// The total number of constraints in the DAG, or `None` when it does not fit in
    /// `usize`.
    pub fn checked_total_constraints(&self) -> (total: Option<usize>)
        ensures
            total is Some <==> nodes_constraint_total(self.nodes@) <= usize::MAX,
            total matches Some(t) ==> t == nodes_constraint_total(self.nodes@),
    {
        let mut total: usize = 0;
        let mut i: usize = 0;
        while i < self.nodes.len()
            invariant
                i <= self.nodes.len(),
                total == nodes_constraint_total(self.nodes@.take(i as int)),
            decreases self.nodes.len() - i,
        {
            proof {
                assert(self.nodes@.take(i + 1).drop_last() =~= self.nodes@.take(i as int));
                lemma_constraint_total_prefix_bounded(self.nodes@, i + 1);
            }
            match total.checked_add(self.nodes[i].constraint_count()) {
                Some(t) => {
                    total = t;
                },
                None => {
                    return None;
                },
            }
            i = i + 1;
        }
        proof {
            assert(self.nodes@.take(i as int) =~= self.nodes@);
        }
        Some(total)
    }

    /// Returns the input nodes, in order.
    pub fn inputs(&self) -> (result: Vec<Node>)
        ensures
            result@ == self.input_nodes(),
    {
        let mut result: Vec<Node> = Vec::new();
        let mut i: usize = 0;
        while i < self.nodes.len()
            invariant
                i <= self.nodes.len(),
                result@ == self.nodes@.take(i as int).filter(|n: Node| n.op is Input),
            decreases self.nodes.len() - i,
        {
            proof {
                reveal_with_fuel(Seq::filter, 1);
                assert(self.nodes@.take(i + 1).drop_last() =~= self.nodes@.take(i as int));
            }
            if self.nodes[i].is_input() {
                result.push(self.nodes[i]);
            }
            i = i + 1;
        }
        proof {
            assert(self.nodes@.take(i as int) =~= self.nodes@);
        }
        result
    }

    /// Returns the output nodes, in order.
    pub fn outputs(&self) -> (result: Vec<Node>)
        ensures
            result@ == self.output_nodes(),
    {
        let mut result: Vec<Node> = Vec::new();
        let mut i: usize = 0;
        while i < self.nodes.len()
            invariant
                i <= self.nodes.len(),
                result@ == self.nodes@.take(i as int).filter(|n: Node| n.op is Output),
            decreases self.nodes.len() - i,
        {
            proof {
                reveal_with_fuel(Seq::filter, 1);
                assert(self.nodes@.take(i + 1).drop_last() =~= self.nodes@.take(i as int));
            }
            if self.nodes[i].is_output() {
                result.push(self.nodes[i]);
            }
            i = i + 1;
        }
        proof {
            assert(self.nodes@.take(i as int) =~= self.nodes@);
        }
        result
    }
}

/// The constraint total of a prefix never exceeds that of the whole sequence.
pub proof fn lemma_constraint_total_prefix_bounded(nodes: Seq<Node>, n: int)
    requires
        0 <= n <= nodes.len(),
    ensures
        nodes_constraint_total(nodes.take(n)) <= nodes_constraint_total(nodes),
    decreases nodes.len() - n,
{
    if n < nodes.len() {
        lemma_constraint_total_prefix_bounded(nodes, n + 1);
        assert(nodes.take(n + 1).drop_last() =~= nodes.take(n));
    } else {
        assert(nodes.take(n) =~= nodes);
    }
}

/// The constraint total of a sequence is at least the constraint count of each of
/// its nodes.
pub proof fn lemma_constraint_total_at_least(nodes: Seq<Node>, i: int)
    requires
        0 <= i < nodes.len(),
    ensures
        op_constraint_count(nodes[i].op) <= nodes_constraint_total(nodes),
    decreases nodes.len(),
{
    if i < nodes.len() - 1 {
        lemma_constraint_total_at_least(nodes.drop_last(), i);
    }
}

/// A well-formed DAG with an output whose outputs are computed has a positive
/// constraint total: output 0 is an operation, and every operation costs at least
/// one constraint.
pub proof fn lemma_baseline_positive(dag: DAG)
    requires
        dag.is_well_formed(),
        dag.outputs_are_computed(),
        dag.num_outputs >= 1,
    ensures
        nodes_constraint_total(dag.nodes@) > 0,
{
    assert(!(dag.nodes[0].op is Input));
    assert(!(dag.nodes[0].op is Undefined) && !(dag.nodes[0].op is Output));
    lemma_constraint_total_at_least(dag.nodes@, 0);
}

} // verus!
