//! Semantic analysis of a DAG: how many of its constraints are removable.
use crate::converters::spartan::{describes_instance, SpartanInstance};
use crate::dag::graph::{lemma_constraint_total_prefix_bounded, nodes_constraint_total, DAG};
use crate::dag::node::{op_constraint_count, Node, OpType};
use vstd::prelude::*;

verus! {

/// Number of nodes whose operation satisfies `pred`.
pub open spec fn count_ops(nodes: Seq<Node>, pred: spec_fn(OpType) -> bool) -> nat
    decreases nodes.len(),
{
    if nodes.len() == 0 {
        0
    } else {
        count_ops(nodes.drop_last(), pred) + if pred(nodes.last().op) {
            1nat
        } else {
            0nat
        }
    }
}

/// The operation is an alias.
pub open spec fn is_alias_op() -> spec_fn(OpType) -> bool {
    |op: OpType| op is Alias
}

/// The operation is a scaling.
pub open spec fn is_scale_op() -> spec_fn(OpType) -> bool {
    |op: OpType| op is Scale
}

/// The operation is a fifth power.
pub open spec fn is_pow5_op() -> spec_fn(OpType) -> bool {
    |op: OpType| op is Pow5
}

/// Result of the semantic analysis of a DAG: the baseline constraint count and the
/// constraints that each sort of optimization can remove.
#[derive(Clone, Copy, Debug)]
pub struct AnalysisResult {
    /// Total baseline constraint count
    pub baseline_constraints: usize,
    /// Number of alias constraints (removable via substitution)
    pub alias_removable: usize,
    /// Number of linear scaling constraints (removable via folding)
    pub linear_removable: usize,
    /// Number of algebraic constraints removable from Pow5 operations
    pub algebraic_removable: usize,
}

/// The analysis of a sequence of nodes.
pub open spec fn analysis_of(nodes: Seq<Node>) -> (nat, nat, nat, nat) {
    (
        nodes_constraint_total(nodes),
        count_ops(nodes, is_alias_op()),
        count_ops(nodes, is_scale_op()),
        2 * count_ops(nodes, is_pow5_op()),
    )
}

/// The removable constraints never outnumber the baseline: each alias and each
/// scaling costs one constraint, and each `Pow5` costs three of which two are
/// counted as removable.
pub proof fn lemma_removable_within_baseline(nodes: Seq<Node>)
    ensures
        count_ops(nodes, is_alias_op()) + count_ops(nodes, is_scale_op()) + 2 * count_ops(nodes, is_pow5_op())
            <= nodes_constraint_total(nodes),
        count_ops(nodes, is_alias_op()) + count_ops(nodes, is_scale_op()) + 3 * count_ops(nodes, is_pow5_op())
            <= nodes_constraint_total(nodes),
    decreases nodes.len(),
{
    if nodes.len() > 0 {
        lemma_removable_within_baseline(nodes.drop_last());
    }
}

/// What the analysis counts, node by node: every alias is removable, every scaling
/// is removable, two of the three constraints of every `Pow5` are removable, and
/// what stays — the theoretical minimum — is one constraint per addition,
/// multiplication and `Pow5`.
pub proof fn lemma_analysis_counts(nodes: Seq<Node>)
    ensures
        analysis_of(nodes).1 == nodes.filter(|n: Node| n.op is Alias).len(),
        analysis_of(nodes).2 == nodes.filter(|n: Node| n.op is Scale).len(),
        analysis_of(nodes).3 == 2 * nodes.filter(|n: Node| n.op is Pow5).len(),
        analysis_of(nodes).0 == analysis_of(nodes).1 + analysis_of(nodes).2 + analysis_of(nodes).3
            + nodes.filter(|n: Node| n.op is Add || n.op is Mul || n.op is Pow5).len(),
    decreases nodes.len(),
{
    reveal_with_fuel(Seq::filter, 1);
    if nodes.len() > 0 {
        lemma_analysis_counts(nodes.drop_last());
    }
}

/// Analyzes a DAG to determine its optimization potential: aliases are removable by
/// substitution, scalings by folding, and two of the three constraints of each
/// `Pow5` by algebraic techniques.
pub fn analyze_dag(dag: &DAG) -> (result: AnalysisResult)
    requires
        nodes_constraint_total(dag.nodes@) <= usize::MAX,
    ensures
        result.baseline_constraints == analysis_of(dag.nodes@).0,
        result.alias_removable == analysis_of(dag.nodes@).1,
        result.linear_removable == analysis_of(dag.nodes@).2,
        result.algebraic_removable == analysis_of(dag.nodes@).3,
        result.alias_removable == dag.nodes@.filter(|n: Node| n.op is Alias).len(),
        result.linear_removable == dag.nodes@.filter(|n: Node| n.op is Scale).len(),
        result.algebraic_removable == 2 * dag.nodes@.filter(|n: Node| n.op is Pow5).len(),
        result.baseline_constraints - (result.alias_removable + result.linear_removable
            + result.algebraic_removable) == dag.nodes@.filter(
            |n: Node| n.op is Add || n.op is Mul || n.op is Pow5,
        ).len(),
{
    let mut alias_removable: usize = 0;
    let mut linear_removable: usize = 0;
    let mut algebraic_removable: usize = 0;
    let mut baseline: usize = 0;
    let mut i: usize = 0;
    while i < dag.nodes.len()
        invariant
            i <= dag.nodes.len(),
            nodes_constraint_total(dag.nodes@) <= usize::MAX,
            baseline == nodes_constraint_total(dag.nodes@.take(i as int)),
            alias_removable == count_ops(dag.nodes@.take(i as int), is_alias_op()),
            linear_removable == count_ops(dag.nodes@.take(i as int), is_scale_op()),
            algebraic_removable == 2 * count_ops(dag.nodes@.take(i as int), is_pow5_op()),
        decreases dag.nodes.len() - i,
    {
        let ghost prefix = dag.nodes@.take(i as int);
        proof {
            assert(dag.nodes@.take(i + 1).drop_last() =~= prefix);
            lemma_constraint_total_prefix_bounded(dag.nodes@, i + 1);
            lemma_removable_within_baseline(dag.nodes@.take(i + 1));
        }
        match dag.nodes[i].op {
            OpType::Alias(_) => {
                baseline = baseline + 1;
                alias_removable = alias_removable + 1;
            },
            OpType::Scale(_, _) => {
                baseline = baseline + 1;
                linear_removable = linear_removable + 1;
            },
            OpType::Pow5(_) => {
                baseline = baseline + 3;
                algebraic_removable = algebraic_removable + 2;
            },
            OpType::Add(_, _) | OpType::Mul(_, _) => {
                baseline = baseline + 1;
            },
            _ => {},
        }
        i = i + 1;
    }
    proof {
        assert(dag.nodes@.take(i as int) =~= dag.nodes@);
        lemma_analysis_counts(dag.nodes@);
    }
    AnalysisResult {
        baseline_constraints: baseline,
        alias_removable,
        linear_removable,
        algebraic_removable,
    }
}

impl AnalysisResult {
    /// Returns the total number of removable constraints.
    pub fn total_removable(&self) -> (total: usize)
        requires
            self.alias_removable + self.linear_removable + self.algebraic_removable <= usize::MAX,
        ensures
            total == self.alias_removable + self.linear_removable + self.algebraic_removable,
    {
        self.alias_removable + self.linear_removable + self.algebraic_removable
    }

    /// Returns the theoretical minimum constraint count after optimization.
    pub fn optimized_constraints(&self) -> (count: usize)
        requires
            self.alias_removable + self.linear_removable + self.algebraic_removable <= usize::MAX,
        ensures
            count == if self.baseline_constraints >= self.alias_removable + self.linear_removable
                + self.algebraic_removable {
                self.baseline_constraints - (self.alias_removable + self.linear_removable
                    + self.algebraic_removable)
            } else {
                0
            },
    {
        self.baseline_constraints.saturating_sub(self.total_removable())
    }
}

/// The analysis and the R1CS instance of a DAG count the same constraints: the
/// baseline is the instance's row count.
pub proof fn lemma_baseline_is_row_count(dag: DAG, inst: SpartanInstance)
    requires
        describes_instance(inst, dag),
    ensures
        analysis_of(dag.nodes@).0 == inst.num_cons,
{
}

} // verus!
