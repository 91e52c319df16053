//! Random DAG generation, as a step machine driven by random draws.
//!
//! The DAG grows backwards from its outputs: nodes wait in a FIFO frontier, and each
//! node taken from it receives an operation whose operands are either fresh nodes
//! (appended to the frontier) or nodes created after it. A driver owns the random
//! number generator: it asks the builder which value to draw next, draws it, and
//! hands the outcome back. Given the same outcomes the builder makes the same DAG.
use super::graph::{nodes_constraint_total, op_operands, DAG};
use super::node::{op_constraint_count, Node, OpType};
use vstd::prelude::*;

verus! {

/// Operation class that the driver selects with a uniform draw in `[0, 1)` against
/// the configured ratios (alias, then linear, then power; arithmetic above them).
#[derive(Clone, Copy, Debug, PartialEq, Eq, Structural)]
pub enum Category {
    /// An alias `out = src`
    Alias,
    /// A scaling `out = k * src`
    Linear,
    /// A fifth power, when three more constraints fit the budget
    Power,
    /// An addition or a multiplication
    Arith,
}

/// Probability of a coin flip that the driver draws.
#[derive(Clone, Copy, Debug, PartialEq, Eq, Structural)]
pub enum Bias {
    /// Probability 0 (the draw is still made)
    Never,
    /// The configured redundancy ratio
    Redundancy,
    /// Probability one half
    Even,
}

/// The operation being assembled for the node taken from the frontier.
#[derive(Clone, Copy, Debug, PartialEq, Eq, Structural)]
pub enum Pending {
    Alias,
    Scale,
    Pow5,
    Add,
    Mul,
    /// An addition whose left operand is known
    AddRight(usize),
    /// A multiplication whose left operand is known
    MulRight(usize),
}

/// What the builder waits for.
#[derive(Clone, Copy, Debug, PartialEq, Eq, Structural)]
pub enum Stage {
    /// Between operations
    Ready,
    /// The reuse coin for the next operand of node `curr`
    Operand { curr: usize, op: Pending },
    /// The index of the reused operand among the `span` nodes after `curr`
    Reuse { curr: usize, op: Pending, span: usize },
    /// The scaling factor of node `curr`, whose source is `src`
    Factor { curr: usize, src: usize },
    /// The coin that makes node `curr` a multiplication rather than an addition
    Product { curr: usize },
}

/// The next value the driver must draw.
#[derive(Clone, Copy, Debug, PartialEq, Eq, Structural)]
pub enum Draw {
    /// A category (from a uniform draw in `[0, 1)`)
    Category,
    /// A coin flip with the given bias
    Coin(Bias),
    /// A uniform index in `0..count`
    Index(usize),
    /// A uniform scaling factor in `2..1000`
    Scale,
    /// Nothing: the DAG is complete
    Done,
}

/// A value drawn by the driver.
#[derive(Clone, Copy, Debug, PartialEq, Eq, Structural)]
pub enum Outcome {
    Category(Category),
    Coin(bool),
    Index(usize),
    Scale(u64),
}

/// The state of a generation run.
pub struct GenState {
    /// The nodes so far; the frontier is `nodes[head..]`
    pub nodes: Seq<Node>,
    /// Number of nodes taken from the frontier
    pub head: nat,
    /// Constraints of the operations assigned so far
    pub count: nat,
    /// Target number of constraints
    pub budget: nat,
    /// Number of output nodes (the first nodes)
    pub num_outputs: nat,
    /// What the run waits for
    pub stage: Stage,
}

/// The bias of the reuse coin for an operand of `op`.
pub open spec fn bias_of(op: Pending) -> Bias {
    match op {
        Pending::Alias | Pending::Scale => Bias::Never,
        _ => Bias::Redundancy,
    }
}

/// Constraints that the operation of `op` will cost.
pub open spec fn pending_cost(op: Pending) -> nat {
    match op {
        Pending::Pow5 => 3,
        _ => 1,
    }
}

/// The operation a node waiting in the frontier holds: `Output` for the first
/// `num_outputs` nodes, `Undefined` for the others.
pub open spec fn placeholder(s: GenState, i: int) -> OpType {
    if i < s.num_outputs {
        OpType::Output
    } else {
        OpType::Undefined
    }
}

/// The next value to draw in state `s`.
pub open spec fn next_draw_of(s: GenState) -> Draw {
    match s.stage {
        Stage::Ready => if s.head < s.nodes.len() && s.count < s.budget {
            Draw::Category
        } else {
            Draw::Done
        },
        Stage::Operand { op, .. } => Draw::Coin(bias_of(op)),
        Stage::Reuse { span, .. } => Draw::Index(span),
        Stage::Factor { .. } => Draw::Scale,
        Stage::Product { .. } => Draw::Coin(Bias::Even),
    }
}

/// State `s` with a new stage.
pub open spec fn staged(s: GenState, stage: Stage) -> GenState {
    GenState {
        nodes: s.nodes,
        head: s.head,
        count: s.count,
        budget: s.budget,
        num_outputs: s.num_outputs,
        stage,
    }
}

/// State `s` with node `id` given operation `op`, its constraints counted, ready
/// for the next node.
pub open spec fn assigned(s: GenState, id: usize, op: OpType) -> GenState {
    GenState {
        nodes: s.nodes.update(id as int, Node { id, op }),
        head: s.head,
        count: s.count + op_constraint_count(op),
        budget: s.budget,
        num_outputs: s.num_outputs,
        stage: Stage::Ready,
    }
}

/// State `s` once operand `src` of node `curr`'s operation `op` is known.
pub open spec fn with_operand(s: GenState, curr: usize, op: Pending, src: usize) -> GenState {
    match op {
        Pending::Alias => assigned(s, curr, OpType::Alias(src)),
        Pending::Scale => staged(s, Stage::Factor { curr, src }),
        Pending::Pow5 => assigned(s, curr, OpType::Pow5(src)),
        Pending::Add => staged(s, Stage::Operand { curr, op: Pending::AddRight(src) }),
        Pending::Mul => staged(s, Stage::Operand { curr, op: Pending::MulRight(src) }),
        Pending::AddRight(l) => assigned(s, curr, OpType::Add(l, src)),
        Pending::MulRight(l) => assigned(s, curr, OpType::Mul(l, src)),
    }
}

/// The stage that a category starts for node `curr`: a fifth power only when its
/// three constraints fit the budget, else an addition or multiplication.
pub open spec fn category_stage(s: GenState, curr: usize, cat: Category) -> Stage {
    match cat {
        Category::Alias => Stage::Operand { curr, op: Pending::Alias },
        Category::Linear => Stage::Operand { curr, op: Pending::Scale },
        Category::Power => if s.count + 3 <= s.budget {
            Stage::Operand { curr, op: Pending::Pow5 }
        } else {
            Stage::Product { curr }
        },
        Category::Arith => Stage::Product { curr },
    }
}

/// The state after outcome `o` in state `s`, or `None` when `o` is not the kind of
/// value the state waits for or is out of its range.
pub open spec fn transition(s: GenState, o: Outcome) -> Option<GenState> {
    match s.stage {
        Stage::Ready => match o {
            Outcome::Category(cat) => if s.head < s.nodes.len() && s.count < s.budget {
                let curr = s.head as usize;
                Some(
                    GenState {
                        nodes: s.nodes,
                        head: s.head + 1,
                        count: s.count,
                        budget: s.budget,
                        num_outputs: s.num_outputs,
                        stage: category_stage(s, curr, cat),
                    },
                )
            } else {
                None
            },
            _ => None,
        },
        Stage::Operand { curr, op } => match o {
            Outcome::Coin(reuse) => {
                let span = s.nodes.len() - (curr + 1);
                if reuse && span > 0 {
                    Some(staged(s, Stage::Reuse { curr, op, span: span as usize }))
                } else {
                    let id = s.nodes.len() as usize;
                    let grown = GenState {
                        nodes: s.nodes.push(Node { id, op: OpType::Undefined }),
                        head: s.head,
                        count: s.count,
                        budget: s.budget,
                        num_outputs: s.num_outputs,
                        stage: s.stage,
                    };
                    Some(with_operand(grown, curr, op, id))
                }
            },
            _ => None,
        },
        Stage::Reuse { curr, op, span } => match o {
            Outcome::Index(i) => if i < span {
                Some(with_operand(s, curr, op, (curr + 1 + i) as usize))
            } else {
                None
            },
            _ => None,
        },
        Stage::Factor { curr, src } => match o {
            Outcome::Scale(k) => if 2 <= k < 1000 {
                Some(assigned(s, curr, OpType::Scale(src, k)))
            } else {
                None
            },
            _ => None,
        },
        Stage::Product { curr } => match o {
            Outcome::Coin(is_mul) => Some(
                staged(
                    s,
                    Stage::Operand {
                        curr,
                        op: if is_mul {
                            Pending::Mul
                        } else {
                            Pending::Add
                        },
                    },
                ),
            ),
            _ => None,
        },
    }
}

/// The node whose operation is being assembled, if any.
pub open spec fn pending_node(stage: Stage) -> Option<usize> {
    match stage {
        Stage::Ready => None,
        Stage::Operand { curr, .. } => Some(curr),
        Stage::Reuse { curr, .. } => Some(curr),
        Stage::Factor { curr, .. } => Some(curr),
        Stage::Product { curr } => Some(curr),
    }
}

/// Node `i` is the one whose operation is being assembled.
pub open spec fn is_pending(stage: Stage, i: int) -> bool {
    match pending_node(stage) {
        Some(curr) => curr == i,
        None => false,
    }
}

/// Operands that an operation still has to receive.
pub open spec fn operands_left(op: Pending) -> nat {
    match op {
        Pending::Add | Pending::Mul => 2,
        _ => 1,
    }
}

/// Operands that the operation being assembled still has to receive.
pub open spec fn stage_operands_left(stage: Stage) -> nat {
    match stage {
        Stage::Ready => 0,
        Stage::Operand { op, .. } => operands_left(op),
        Stage::Reuse { op, .. } => operands_left(op),
        Stage::Factor { .. } => 0,
        Stage::Product { .. } => 2,
    }
}

/// Constraints that the operation being assembled will cost.
pub open spec fn stage_cost(stage: Stage) -> nat {
    match stage {
        Stage::Ready => 0,
        Stage::Operand { op, .. } => pending_cost(op),
        Stage::Reuse { op, .. } => pending_cost(op),
        Stage::Factor { .. } => 1,
        Stage::Product { .. } => 1,
    }
}

/// An operation proper (not a placeholder and not an input), a `Scale` factor lying
/// in `2..1000`.
pub open spec fn is_operation(op: OpType) -> bool {
    &&& op is Add || op is Mul || op is Alias || op is Scale || op is Pow5
    &&& op matches OpType::Scale(_, k) ==> 2 <= k < 1000
}

/// The operations a finished run holds: inputs and operations proper.
pub open spec fn is_generated_op(op: OpType) -> bool {
    op is Input || is_operation(op)
}

/// Every operand of `op` lies strictly between `i` and `len`.
pub open spec fn operands_within(op: OpType, i: int, len: int) -> bool {
    forall|k: int| 0 <= k < op_operands(op).len() ==> i < #[trigger] op_operands(op)[k] < len
}

/// The operands already chosen by the stage lie strictly between the pending node
/// and the end of the node list, and a reuse span is the count of nodes after it.
pub open spec fn stage_operands_fit(s: GenState) -> bool {
    match s.stage {
        Stage::Operand { curr, op } => match op {
            Pending::AddRight(l) | Pending::MulRight(l) => curr < l < s.nodes.len(),
            _ => true,
        },
        Stage::Reuse { curr, op, span } => {
            &&& span == s.nodes.len() - (curr + 1)
            &&& span > 0
            &&& match op {
                Pending::AddRight(l) | Pending::MulRight(l) => curr < l < s.nodes.len(),
                _ => true,
            }
        },
        Stage::Factor { curr, src } => curr < src < s.nodes.len(),
        _ => true,
    }
}

/// The invariant of a generation run.
pub open spec fn gen_wf(s: GenState) -> bool {
    &&& s.num_outputs + 2 * s.budget + 2 <= usize::MAX
    &&& s.num_outputs <= s.nodes.len()
    &&& s.head <= s.nodes.len()
    &&& s.nodes.len() + stage_operands_left(s.stage) <= s.num_outputs + 2 * s.head
    &&& s.count == nodes_constraint_total(s.nodes)
    &&& s.count + stage_cost(s.stage) <= s.budget
    &&& forall|i: int| 0 <= i < s.nodes.len() ==> (#[trigger] s.nodes[i]).id == i
    &&& forall|i: int|
        s.head <= i < s.nodes.len() || is_pending(s.stage, i) ==> (
        #[trigger] s.nodes[i]).op == placeholder(s, i)
    &&& forall|i: int|
        0 <= i < s.head && !is_pending(s.stage, i) ==> is_operation(
            (#[trigger] s.nodes[i]).op,
        ) && operands_within(s.nodes[i].op, i, s.nodes.len() as int)
    &&& stage_operands_fit(s)
    &&& match pending_node(s.stage) {
        None => s.head <= s.count && s.count <= 3 * s.head,
        Some(curr) => curr + 1 == s.head && s.head <= s.count + 1 && s.count + 3 <= 3 * s.head,
    }
}

/// The node after generation: a placeholder becomes an input.
pub open spec fn finalized_node(n: Node) -> Node {
    if n.op is Undefined || n.op is Output {
        Node { id: n.id, op: OpType::Input }
    } else {
        n
    }
}

/// The nodes after generation.
pub open spec fn finalized(nodes: Seq<Node>) -> Seq<Node> {
    nodes.map_values(|n: Node| finalized_node(n))
}

/// Updating one node changes the constraint total by the difference of the costs.
pub proof fn lemma_total_update(nodes: Seq<Node>, i: int, n: Node)
    requires
        0 <= i < nodes.len(),
    ensures
        nodes_constraint_total(nodes.update(i, n)) + op_constraint_count(nodes[i].op)
            == nodes_constraint_total(nodes) + op_constraint_count(n.op),
    decreases nodes.len(),
{
    let u = nodes.update(i, n);
    if i == nodes.len() - 1 {
        assert(u.drop_last() =~= nodes.drop_last());
    } else {
        assert(u.drop_last() =~= nodes.drop_last().update(i, n));
        lemma_total_update(nodes.drop_last(), i, n);
    }
}

/// Appending a node adds its cost to the constraint total.
pub proof fn lemma_total_push(nodes: Seq<Node>, n: Node)
    ensures
        nodes_constraint_total(nodes.push(n)) == nodes_constraint_total(nodes) + op_constraint_count(
            n.op,
        ),
{
    assert(nodes.push(n).drop_last() =~= nodes);
}

/// Assigning the pending node's operation keeps the invariant.
/// What assigning operation `op` to the pending node `curr` needs: the invariant
/// of the run with `curr` still pending, the cost within the budget, and forward
/// operands.
pub open spec fn assign_fits(s: GenState, curr: usize, op: OpType) -> bool {
    &&& s.num_outputs + 2 * s.budget + 2 <= usize::MAX
    &&& s.num_outputs <= s.nodes.len()
    &&& s.head <= s.nodes.len()
    &&& s.nodes.len() <= s.num_outputs + 2 * s.head
    &&& s.count == nodes_constraint_total(s.nodes)
    &&& s.count + op_constraint_count(op) <= s.budget
    &&& forall|i: int| 0 <= i < s.nodes.len() ==> (#[trigger] s.nodes[i]).id == i
    &&& forall|i: int|
        s.head <= i < s.nodes.len() || i == curr ==> (#[trigger] s.nodes[i]).op == placeholder(s, i)
    &&& forall|i: int|
        0 <= i < s.head && i != curr ==> is_operation((#[trigger] s.nodes[i]).op) && operands_within(
            s.nodes[i].op,
            i,
            s.nodes.len() as int,
        )
    &&& curr + 1 == s.head
    &&& s.head <= s.count + 1
    &&& s.count + 3 <= 3 * s.head
    &&& is_operation(op)
    &&& operands_within(op, curr as int, s.nodes.len() as int)
}

proof fn lemma_assigned_wf(s: GenState, curr: usize, op: OpType)
    requires
        assign_fits(s, curr, op),
    ensures
        gen_wf(assigned(s, curr, op)),
{
    let t = assigned(s, curr, op);
    lemma_total_update(s.nodes, curr as int, Node { id: curr, op });
    assert(op_constraint_count(s.nodes[curr as int].op) == 0);
    assert(op_constraint_count(op) >= 1 && op_constraint_count(op) <= 3);
    assert forall|i: int| 0 <= i < t.nodes.len() implies (#[trigger] t.nodes[i]).id == i by {
        if i != curr {
            assert(t.nodes[i] == s.nodes[i]);
        }
    }
    assert forall|i: int|
        t.head <= i < t.nodes.len() || is_pending(t.stage, i) implies (
        #[trigger] t.nodes[i]).op == placeholder(t, i) by {
        assert(t.nodes[i] == s.nodes[i]);
    }
    assert forall|i: int|
        0 <= i < t.head && !is_pending(t.stage, i) implies is_operation(
            (#[trigger] t.nodes[i]).op,
        ) && operands_within(t.nodes[i].op, i, t.nodes.len() as int) by {
        if i != curr {
            assert(t.nodes[i] == s.nodes[i]);
        }
    }
}

/// Every accepted outcome keeps the invariant of a generation run.
pub proof fn lemma_transition_wf(s: GenState, o: Outcome)
    requires
        gen_wf(s),
        transition(s, o) is Some,
    ensures
        gen_wf(transition(s, o)->0),
{
    let t = transition(s, o)->0;
    match s.stage {
        Stage::Ready => {
            let curr = s.head as usize;
            assert forall|i: int|
                t.head <= i < t.nodes.len() || is_pending(t.stage, i) implies (
                #[trigger] t.nodes[i]).op == placeholder(t, i) by {}
            assert forall|i: int|
                0 <= i < t.head && !is_pending(t.stage, i) implies is_operation(
                    (#[trigger] t.nodes[i]).op,
                ) && operands_within(t.nodes[i].op, i, t.nodes.len() as int) by {}
        },
        Stage::Operand { curr, op } => {
            let reuse = o->Coin_0;
            let span = s.nodes.len() - (curr + 1);
            if reuse && span > 0 {
            } else {
                let id = s.nodes.len() as usize;
                let g = GenState {
                    nodes: s.nodes.push(Node { id, op: OpType::Undefined }),
                    head: s.head,
                    count: s.count,
                    budget: s.budget,
                    num_outputs: s.num_outputs,
                    stage: s.stage,
                };
                lemma_total_push(s.nodes, Node { id, op: OpType::Undefined });
                assert(id as int >= s.num_outputs);
                assert forall|i: int| 0 <= i < g.nodes.len() implies (#[trigger] g.nodes[i]).id == i by {
                    if i < s.nodes.len() {
                        assert(g.nodes[i] == s.nodes[i]);
                    }
                }
                assert forall|i: int|
                    g.head <= i < g.nodes.len() || i == curr implies (#[trigger] g.nodes[i]).op
                        == placeholder(g, i) by {
                    if i < s.nodes.len() {
                        assert(g.nodes[i] == s.nodes[i]);
                    }
                }
                assert forall|i: int|
                    0 <= i < g.head && i != curr implies is_operation((#[trigger] g.nodes[i]).op)
                        && operands_within(g.nodes[i].op, i, g.nodes.len() as int) by {
                    assert(g.nodes[i] == s.nodes[i]);
                }
                lemma_with_operand_wf(g, curr, op, id);
            }
        },
        Stage::Reuse { curr, op, span } => {
            let i = o->Index_0;
            lemma_with_operand_wf(s, curr, op, (curr + 1 + i) as usize);
        },
        Stage::Factor { curr, src } => {
            let k = o->Scale_0;
            lemma_assigned_wf(s, curr, OpType::Scale(src, k));
        },
        Stage::Product { curr } => {},
    }
}

/// Knowing an operand of the pending node keeps the invariant.
/// What receiving operand `src` for the pending node `curr`'s operation `op` needs.
pub open spec fn operand_fits(s: GenState, curr: usize, op: Pending, src: usize) -> bool {
    &&& s.num_outputs + 2 * s.budget + 2 <= usize::MAX
    &&& s.num_outputs <= s.nodes.len()
    &&& s.head <= s.nodes.len()
    &&& s.nodes.len() + operands_left(op) <= s.num_outputs + 2 * s.head + 1
    &&& s.count == nodes_constraint_total(s.nodes)
    &&& s.count + pending_cost(op) <= s.budget
    &&& forall|i: int| 0 <= i < s.nodes.len() ==> (#[trigger] s.nodes[i]).id == i
    &&& forall|i: int|
        s.head <= i < s.nodes.len() || i == curr ==> (#[trigger] s.nodes[i]).op == placeholder(s, i)
    &&& forall|i: int|
        0 <= i < s.head && i != curr ==> is_operation((#[trigger] s.nodes[i]).op) && operands_within(
            s.nodes[i].op,
            i,
            s.nodes.len() as int,
        )
    &&& curr + 1 == s.head
    &&& s.head <= s.count + 1
    &&& s.count + 3 <= 3 * s.head
    &&& curr < src < s.nodes.len()
    &&& match op {
        Pending::AddRight(l) | Pending::MulRight(l) => curr < l < s.nodes.len(),
        _ => true,
    }
}

proof fn lemma_with_operand_wf(s: GenState, curr: usize, op: Pending, src: usize)
    requires
        operand_fits(s, curr, op, src),
    ensures
        gen_wf(with_operand(s, curr, op, src)),
{
    match op {
        Pending::Alias => lemma_assigned_wf(s, curr, OpType::Alias(src)),
        Pending::Pow5 => lemma_assigned_wf(s, curr, OpType::Pow5(src)),
        Pending::AddRight(l) => lemma_assigned_wf(s, curr, OpType::Add(l, src)),
        Pending::MulRight(l) => lemma_assigned_wf(s, curr, OpType::Mul(l, src)),
        _ => {
            let t = with_operand(s, curr, op, src);
            assert(pending_node(t.stage) == Some(curr));
        },
    }
}

/// How far the assembly of the pending node's operation has come.
pub open spec fn stage_progress(stage: Stage) -> nat {
    match stage {
        Stage::Ready => 0,
        Stage::Product { .. } => 1,
        Stage::Operand { op, .. } => match op {
            Pending::AddRight(_) | Pending::MulRight(_) => 4,
            Pending::Add | Pending::Mul => 2,
            _ => 1,
        },
        Stage::Reuse { op, .. } => match op {
            Pending::AddRight(_) | Pending::MulRight(_) => 5,
            Pending::Add | Pending::Mul => 3,
            _ => 2,
        },
        Stage::Factor { .. } => 3,
    }
}

/// A bound on the outcomes a run can still accept.
pub open spec fn steps_left(s: GenState) -> int {
    7 * (s.budget - s.count) - stage_progress(s.stage)
}

/// Every accepted outcome brings the run closer to its end: a run accepts at most
/// `7 * budget` outcomes before `next_draw` says `Done`.
pub proof fn lemma_transition_progress(s: GenState, o: Outcome)
    requires
        gen_wf(s),
        transition(s, o) is Some,
    ensures
        0 <= steps_left(transition(s, o)->0) < steps_left(s),
{
    lemma_transition_wf(s, o);
    let t = transition(s, o)->0;
    match s.stage {
        Stage::Operand { curr, op } => {
            let reuse = o->Coin_0;
            let span = s.nodes.len() - (curr + 1);
            if !(reuse && span > 0) {
                let id = s.nodes.len() as usize;
                lemma_total_push(s.nodes, Node { id, op: OpType::Undefined });
            }
        },
        _ => {},
    }
}

/// The state in which a run starts: `num_outputs` output nodes in the frontier,
/// nothing spent.
pub open spec fn initial_state(num_constraints: nat, num_outputs: nat) -> GenState {
    GenState {
        nodes: Seq::new(num_outputs, |i: int| Node { id: i as usize, op: OpType::Output }),
        head: 0,
        count: 0,
        budget: num_constraints,
        num_outputs,
        stage: Stage::Ready,
    }
}

/// An alias or a scaling takes a fresh node as its operand, as the reuse coin asked
/// for has bias `Never` (probability 0) and its one outcome, no reuse, appends a new
/// node and makes it the operand; the operands of sums, products and fifth powers
/// are reused with the redundancy ratio. (Every state of a run meets `gen_wf`.)
pub proof fn lemma_operand_reuse_bias(s: GenState)
    requires
        gen_wf(s),
        s.stage is Operand,
    ensures
        next_draw_of(s) == Draw::Coin(Bias::Never) <==> (s.stage->Operand_op is Alias || s.stage->Operand_op is Scale),
        !(s.stage->Operand_op is Alias || s.stage->Operand_op is Scale) ==> next_draw_of(s) == Draw::Coin(Bias::Redundancy),
        s.stage->Operand_op is Alias ==> (transition(s, Outcome::Coin(false)) matches Some(t) && t.nodes.len()
            == s.nodes.len() + 1 && t.nodes[s.stage->Operand_curr as int].op == OpType::Alias(s.nodes.len() as usize)),
        s.stage->Operand_op is Scale ==> (transition(s, Outcome::Coin(false)) matches Some(t) && t.nodes.len()
            == s.nodes.len() + 1 && t.stage == (Stage::Factor { curr: s.stage->Operand_curr, src: s.nodes.len() as usize })),
{
}

/// How a run turns drawn values into nodes.
/// - While nodes wait in the frontier and the budget is not spent, a category starts
///   the next frontier node: an alias or a scaling waits for its operand, a fifth
///   power does when its three constraints fit the budget and else becomes an
///   arithmetic node, which waits for its coin (true: a product, false: a sum).
/// - A reused operand is one of the `span` nodes after the pending one, the `i`-th.
/// - A scaling factor is accepted in `2..1000` and becomes the node's factor.
pub proof fn lemma_generation_rules(s: GenState)
    requires
        gen_wf(s),
    ensures
        s.stage is Ready ==> forall|cat: Category|
            #![trigger transition(s, Outcome::Category(cat))]
            (transition(s, Outcome::Category(cat)) is Some <==> (s.head < s.nodes.len() && s.count < s.budget)),
        s.stage is Ready && s.head < s.nodes.len() && s.count < s.budget ==> {
            let curr = s.head as usize;
            &&& transition(s, Outcome::Category(Category::Alias))->0.stage == (Stage::Operand {
                curr,
                op: Pending::Alias,
            })
            &&& transition(s, Outcome::Category(Category::Linear))->0.stage == (Stage::Operand {
                curr,
                op: Pending::Scale,
            })
            &&& transition(s, Outcome::Category(Category::Power))->0.stage == (if s.count + 3 <= s.budget {
                Stage::Operand { curr, op: Pending::Pow5 }
            } else {
                Stage::Product { curr }
            })
            &&& transition(s, Outcome::Category(Category::Arith))->0.stage == (Stage::Product { curr })
            &&& transition(s, Outcome::Category(Category::Arith))->0.head == s.head + 1
            &&& transition(s, Outcome::Category(Category::Arith))->0.nodes == s.nodes
        },
        s.stage matches Stage::Product { curr } ==> transition(s, Outcome::Coin(true)) == Some(
            staged(s, Stage::Operand { curr, op: Pending::Mul }),
        ) && transition(s, Outcome::Coin(false)) == Some(staged(s, Stage::Operand { curr, op: Pending::Add })),
        s.stage matches Stage::Reuse { curr, op, span } ==> forall|i: usize|
            #![trigger transition(s, Outcome::Index(i))]
            (transition(s, Outcome::Index(i)) is Some <==> i < span) && (i < span ==> transition(
                s,
                Outcome::Index(i),
            ) == Some(with_operand(s, curr, op, (curr + 1 + i) as usize))),
        s.stage matches Stage::Factor { curr, src } ==> forall|k: u64|
            #![trigger transition(s, Outcome::Scale(k))]
            (transition(s, Outcome::Scale(k)) is Some <==> 2 <= k < 1000) && (2 <= k < 1000 ==> transition(
                s,
                Outcome::Scale(k),
            )->0.nodes[curr as int].op == OpType::Scale(src, k)),
{
}

/// The state that a run reaches from `s` when handed `outcomes` in turn, as `step`
/// moves it: an accepted outcome takes the transition, a refused one changes nothing.
pub open spec fn run_state(s: GenState, outcomes: Seq<Outcome>) -> GenState
    decreases outcomes.len(),
{
    if outcomes.len() == 0 {
        s
    } else {
        let prev = run_state(s, outcomes.drop_last());
        match transition(prev, outcomes.last()) {
            Some(t) => t,
            None => prev,
        }
    }
}

/// Equal draws give equal DAGs: two runs started with the same budget and output
/// count and handed the same outcomes reach the same state, so `finish` gives them
/// the same nodes, output count and input count.
pub proof fn lemma_equal_draws_equal_dags(budget: nat, num_outputs: nat, a: Seq<Outcome>, b: Seq<Outcome>)
    requires
        a == b,
    ensures
        run_state(initial_state(budget, num_outputs), a) == run_state(initial_state(budget, num_outputs), b),
        finalized(run_state(initial_state(budget, num_outputs), a).nodes) == finalized(
            run_state(initial_state(budget, num_outputs), b).nodes,
        ),
{
}

/// Nodes that all wait in the frontier cost nothing.
pub proof fn lemma_total_placeholders(nodes: Seq<Node>)
    requires
        forall|i: int| 0 <= i < nodes.len() ==> (#[trigger] nodes[i]).op is Output || nodes[i].op is Undefined,
    ensures
        nodes_constraint_total(nodes) == 0,
    decreases nodes.len(),
{
    if nodes.len() > 0 {
        assert forall|i: int| 0 <= i < nodes.drop_last().len() implies (#[trigger] nodes.drop_last()[i]).op is Output
            || nodes.drop_last()[i].op is Undefined by {
            assert(nodes.drop_last()[i] == nodes[i]);
        }
        lemma_total_placeholders(nodes.drop_last());
    }
}

/// A generation run in progress.
pub struct DagBuilder {
    nodes: Vec<Node>,
    head: usize,
    count: usize,
    budget: usize,
    num_outputs: usize,
    stage: Stage,
}

impl View for DagBuilder {
    type V = GenState;

    closed spec fn view(&self) -> GenState {
        GenState {
            nodes: self.nodes@,
            head: self.head as nat,
            count: self.count as nat,
            budget: self.budget as nat,
            num_outputs: self.num_outputs as nat,
            stage: self.stage,
        }
    }
}

/// Assigns operation `op` to the pending node `curr`.
fn assign_exec(
    nodes: Vec<Node>,
    head: usize,
    count: usize,
    budget: usize,
    num_outputs: usize,
    curr: usize,
    op: OpType,
    s: Ghost<GenState>,
) -> (b: DagBuilder)
    requires
        s@ == (GenState {
            nodes: nodes@,
            head: head as nat,
            count: count as nat,
            budget: budget as nat,
            num_outputs: num_outputs as nat,
            stage: s@.stage,
        }),
        assign_fits(s@, curr, op),
    ensures
        b@ == assigned(s@, curr, op),
{
    let mut nodes = nodes;
    let cost = Node::new(curr, op).constraint_count();
    nodes.set(curr, Node::new(curr, op));
    proof {
        lemma_assigned_wf(s@, curr, op);
    }
    let b = DagBuilder { nodes, head, count: count + cost, budget, num_outputs, stage: Stage::Ready };
    assert(b@ =~= assigned(s@, curr, op));
    b
}

/// Gives the pending node `curr`'s operation `op` its operand `src`.
fn with_operand_exec(
    nodes: Vec<Node>,
    head: usize,
    count: usize,
    budget: usize,
    num_outputs: usize,
    curr: usize,
    op: Pending,
    src: usize,
    s: Ghost<GenState>,
) -> (b: DagBuilder)
    requires
        s@ == (GenState {
            nodes: nodes@,
            head: head as nat,
            count: count as nat,
            budget: budget as nat,
            num_outputs: num_outputs as nat,
            stage: s@.stage,
        }),
        operand_fits(s@, curr, op, src),
    ensures
        b@ == with_operand(s@, curr, op, src),
{
    proof {
        lemma_with_operand_wf(s@, curr, op, src);
    }
    match op {
        Pending::Alias => assign_exec(nodes, head, count, budget, num_outputs, curr, OpType::Alias(src), s),
        Pending::Pow5 => assign_exec(nodes, head, count, budget, num_outputs, curr, OpType::Pow5(src), s),
        Pending::AddRight(l) => assign_exec(nodes, head, count, budget, num_outputs, curr, OpType::Add(l, src), s),
        Pending::MulRight(l) => assign_exec(nodes, head, count, budget, num_outputs, curr, OpType::Mul(l, src), s),
        Pending::Scale => {
            let b = DagBuilder { nodes, head, count, budget, num_outputs, stage: Stage::Factor { curr, src } };
            assert(b@ =~= with_operand(s@, curr, op, src));
            b
        },
        Pending::Add => {
            let b = DagBuilder {
                nodes,
                head,
                count,
                budget,
                num_outputs,
                stage: Stage::Operand { curr, op: Pending::AddRight(src) },
            };
            assert(b@ =~= with_operand(s@, curr, op, src));
            b
        },
        Pending::Mul => {
            let b = DagBuilder {
                nodes,
                head,
                count,
                budget,
                num_outputs,
                stage: Stage::Operand { curr, op: Pending::MulRight(src) },
            };
            assert(b@ =~= with_operand(s@, curr, op, src));
            b
        },
    }
}

/// Turns every node left waiting in the frontier (`Undefined` or `Output`) into an
/// input.
fn finalize_inputs(nodes: &mut Vec<Node>)
    ensures
        final(nodes)@ == finalized(old(nodes)@),
{
    let ghost start = nodes@;
    let mut i: usize = 0;
    while i < nodes.len()
        invariant
            i <= nodes.len(),
            nodes.len() == start.len(),
            forall|q: int| 0 <= q < i ==> #[trigger] nodes@[q] == finalized_node(start[q]),
            forall|q: int| i <= q < nodes.len() ==> #[trigger] nodes@[q] == start[q],
        decreases nodes.len() - i,
    {
        let node = nodes[i];
        if matches!(node.op, OpType::Undefined | OpType::Output) {
            nodes.set(i, Node::new(node.id, OpType::Input));
        }
        i = i + 1;
    }
    assert(nodes@ =~= finalized(start));
}

impl DagBuilder {
    #[verifier::type_invariant]
    spec fn inv(self) -> bool {
        gen_wf(self@)
    }

    /// An empty run with no budget.
    fn empty() -> (b: Self)
        ensures
            b@ == initial_state(0, 0),
    {
        let nodes: Vec<Node> = Vec::new();
        assert(nodes@ =~= initial_state(0, 0).nodes);
        proof {
            lemma_total_placeholders(nodes@);
        }
        let b = DagBuilder { nodes, head: 0, count: 0, budget: 0, num_outputs: 0, stage: Stage::Ready };
        assert(b@ =~= initial_state(0, 0));
        b
    }

    /// Starts a run with `num_outputs` output nodes and a budget of
    /// `num_constraints` constraints.
    pub fn new(num_constraints: usize, num_outputs: usize) -> (b: Self)
        requires
            num_outputs + 2 * num_constraints + 2 <= usize::MAX,
        ensures
            b@ == initial_state(num_constraints as nat, num_outputs as nat),
    {
        let mut nodes: Vec<Node> = Vec::new();
        let mut i: usize = 0;
        while i < num_outputs
            invariant
                i <= num_outputs,
                nodes@ == Seq::new(i as nat, |q: int| Node { id: q as usize, op: OpType::Output }),
            decreases num_outputs - i,
        {
            nodes.push(Node::new(i, OpType::Output));
            assert(nodes@ =~= Seq::new((i + 1) as nat, |q: int| Node { id: q as usize, op: OpType::Output }));
            i = i + 1;
        }
        proof {
            lemma_total_placeholders(nodes@);
        }
        let b = DagBuilder { nodes, head: 0, count: 0, budget: num_constraints, num_outputs, stage: Stage::Ready };
        assert(b@ =~= initial_state(num_constraints as nat, num_outputs as nat));
        b
    }

    /// The next value to draw.
    pub fn next_draw(&self) -> (d: Draw)
        ensures
            d == next_draw_of(self@),
    {
        match self.stage {
            Stage::Ready => if self.head < self.nodes.len() && self.count < self.budget {
                Draw::Category
            } else {
                Draw::Done
            },
            Stage::Operand { op, .. } => match op {
                Pending::Alias | Pending::Scale => Draw::Coin(Bias::Never),
                _ => Draw::Coin(Bias::Redundancy),
            },
            Stage::Reuse { span, .. } => Draw::Index(span),
            Stage::Factor { .. } => Draw::Scale,
            Stage::Product { .. } => Draw::Coin(Bias::Even),
        }
    }

    /// The run after outcome `outcome`, and whether the outcome was accepted.
    fn advance(self, outcome: Outcome) -> (res: (Self, bool))
        ensures
            res.1 == transition(self@, outcome) is Some,
            res.1 ==> res.0@ == transition(self@, outcome)->0,
            !res.1 ==> res.0@ == self@,
    {
        proof {
            use_type_invariant(&self);
        }
        let ghost s = self@;
        let DagBuilder { nodes, head, count, budget, num_outputs, stage } = self;
        match stage {
            Stage::Ready => {
                if let Outcome::Category(cat) = outcome {
                    if head < nodes.len() && count < budget {
                        let curr = head;
                        let next_stage = match cat {
                            Category::Alias => Stage::Operand { curr, op: Pending::Alias },
                            Category::Linear => Stage::Operand { curr, op: Pending::Scale },
                            Category::Power => if count + 3 <= budget {
                                Stage::Operand { curr, op: Pending::Pow5 }
                            } else {
                                Stage::Product { curr }
                            },
                            Category::Arith => Stage::Product { curr },
                        };
                        proof {
                            lemma_transition_wf(s, outcome);
                        }
                        let b = DagBuilder { nodes, head: head + 1, count, budget, num_outputs, stage: next_stage };
                        assert(b@ =~= transition(s, outcome)->0);
                        return (b, true);
                    }
                }
                (DagBuilder { nodes, head, count, budget, num_outputs, stage }, false)
            },
            Stage::Operand { curr, op } => {
                if let Outcome::Coin(reuse) = outcome {
                    let span = nodes.len() - (curr + 1);
                    proof {
                        lemma_transition_wf(s, outcome);
                    }
                    if reuse && span > 0 {
                        let b = DagBuilder {
                            nodes,
                            head,
                            count,
                            budget,
                            num_outputs,
                            stage: Stage::Reuse { curr, op, span },
                        };
                        assert(b@ =~= transition(s, outcome)->0);
                        (b, true)
                    } else {
                        let id = nodes.len();
                        let mut nodes = nodes;
                        nodes.push(Node::new(id, OpType::Undefined));
                        let ghost g = GenState {
                            nodes: nodes@,
                            head: head as nat,
                            count: count as nat,
                            budget: budget as nat,
                            num_outputs: num_outputs as nat,
                            stage,
                        };
                        proof {
                            lemma_total_push(s.nodes, Node { id, op: OpType::Undefined });
                            assert(g.nodes =~= s.nodes.push(Node { id, op: OpType::Undefined }));
                            assert forall|i: int| 0 <= i < g.nodes.len() implies (#[trigger] g.nodes[i]).id == i by {
                                if i < s.nodes.len() {
                                    assert(g.nodes[i] == s.nodes[i]);
                                }
                            }
                            assert forall|i: int|
                                g.head <= i < g.nodes.len() || i == curr implies (#[trigger] g.nodes[i]).op
                                    == placeholder(g, i) by {
                                if i < s.nodes.len() {
                                    assert(g.nodes[i] == s.nodes[i]);
                                }
                            }
                            assert forall|i: int|
                                0 <= i < g.head && i != curr implies is_operation((#[trigger] g.nodes[i]).op)
                                    && operands_within(g.nodes[i].op, i, g.nodes.len() as int) by {
                                assert(g.nodes[i] == s.nodes[i]);
                            }
                        }
                        let b = with_operand_exec(nodes, head, count, budget, num_outputs, curr, op, id, Ghost(g));
                        (b, true)
                    }
                } else {
                    (DagBuilder { nodes, head, count, budget, num_outputs, stage }, false)
                }
            },
            Stage::Reuse { curr, op, span } => {
                if let Outcome::Index(i) = outcome {
                    if i < span {
                        let b = with_operand_exec(nodes, head, count, budget, num_outputs, curr, op, curr + 1 + i, Ghost(s));
                        return (b, true);
                    }
                }
                (DagBuilder { nodes, head, count, budget, num_outputs, stage }, false)
            },
            Stage::Factor { curr, src } => {
                if let Outcome::Scale(k) = outcome {
                    if 2 <= k && k < 1000 {
                        let b = assign_exec(nodes, head, count, budget, num_outputs, curr, OpType::Scale(src, k), Ghost(s));
                        return (b, true);
                    }
                }
                (DagBuilder { nodes, head, count, budget, num_outputs, stage }, false)
            },
            Stage::Product { curr } => {
                if let Outcome::Coin(is_mul) = outcome {
                    let op = if is_mul {
                        Pending::Mul
                    } else {
                        Pending::Add
                    };
                    proof {
                        lemma_transition_wf(s, outcome);
                    }
                    let b = DagBuilder { nodes, head, count, budget, num_outputs, stage: Stage::Operand { curr, op } };
                    assert(b@ =~= transition(s, outcome)->0);
                    (b, true)
                } else {
                    (DagBuilder { nodes, head, count, budget, num_outputs, stage }, false)
                }
            },
        }
    }

    /// Hands the run a drawn value. Returns whether it was accepted: a value of the
    /// kind that `next_draw` asks for, in its range. A refused value changes nothing.
    pub fn step(&mut self, outcome: Outcome) -> (accepted: bool)
        ensures
            accepted == transition(old(self)@, outcome) is Some,
            accepted ==> final(self)@ == transition(old(self)@, outcome)->0,
            !accepted ==> final(self)@ == old(self)@,
    {
        let mut cur = DagBuilder::empty();
        std::mem::swap(&mut cur, self);
        let (next, accepted) = cur.advance(outcome);
        *self = next;
        accepted
    }

    /// Completes the run: every node left in the frontier becomes an input.
    pub fn finish(self) -> (dag: DAG)
        requires
            next_draw_of(self@) is Done,
        ensures
            dag.nodes@ == finalized(self@.nodes),
            dag.num_outputs == self@.num_outputs,
            dag.num_inputs == dag.input_nodes().len(),
            dag.is_well_formed(),
            forall|i: int| 0 <= i < dag.nodes.len() ==> is_generated_op(#[trigger] dag.nodes[i].op),
            nodes_constraint_total(dag.nodes@) == self@.count,
            self@.count <= self@.budget,
            3 * self@.num_outputs <= self@.budget + 2 ==> dag.outputs_are_computed(),
    {
        proof {
            use_type_invariant(&self);
        }
        let ghost s = self@;
        let DagBuilder { nodes, head, count, budget, num_outputs, stage } = self;
        let mut nodes = nodes;
        finalize_inputs(&mut nodes);
        let mut num_inputs: usize = 0;
        let mut i: usize = 0;
        while i < nodes.len()
            invariant
                i <= nodes.len(),
                num_inputs == nodes@.take(i as int).filter(|n: Node| n.op is Input).len(),
            decreases nodes.len() - i,
        {
            proof {
                reveal_with_fuel(Seq::filter, 1);
                assert(nodes@.take(i + 1).drop_last() =~= nodes@.take(i as int));
                nodes@.take(i as int).lemma_filter_len(|n: Node| n.op is Input);
            }
            if nodes[i].is_input() {
                num_inputs = num_inputs + 1;
            }
            i = i + 1;
        }
        proof {
            assert(nodes@.take(i as int) =~= nodes@);
        }
        let dag = DAG { nodes, num_inputs, num_outputs };
        proof {
            lemma_finished(s, dag);
        }
        dag
    }
}

/// What a completed run yields.
proof fn lemma_finished(s: GenState, dag: DAG)
    requires
        gen_wf(s),
        next_draw_of(s) is Done,
        dag.nodes@ == finalized(s.nodes),
        dag.num_outputs == s.num_outputs,
    ensures
        dag.is_well_formed(),
        forall|i: int| 0 <= i < dag.nodes.len() ==> is_generated_op(#[trigger] dag.nodes[i].op),
        nodes_constraint_total(dag.nodes@) == s.count,
        3 * s.num_outputs <= s.budget + 2 ==> dag.outputs_are_computed(),
{
    let f = dag.nodes@;
    assert forall|i: int| 0 <= i < f.len() implies #[trigger] f[i].id == i by {
        assert(f[i] == finalized_node(s.nodes[i]));
    }
    assert forall|i: int, k: int|
        0 <= i < f.len() && 0 <= k < op_operands(f[i].op).len() implies i < #[trigger] op_operands(
            f[i].op,
        )[k] < f.len() by {
        assert(f[i] == finalized_node(s.nodes[i]));
        if i >= s.head {
            assert(s.nodes[i].op == placeholder(s, i));
        } else {
            assert(operands_within(s.nodes[i].op, i, s.nodes.len() as int));
        }
    }
    assert forall|i: int| 0 <= i < f.len() implies !(#[trigger] f[i].op is Undefined) && !(f[i].op is Output)
        && is_generated_op(f[i].op) by {
        assert(f[i] == finalized_node(s.nodes[i]));
        if i >= s.head {
            assert(s.nodes[i].op == placeholder(s, i));
        }
    }
    lemma_finalized_total(s.nodes);
    if 3 * s.num_outputs <= s.budget + 2 {
        assert(s.head >= s.num_outputs);
        assert forall|o: int| 0 <= o < dag.num_outputs implies !(#[trigger] dag.nodes[o].op is Input) by {
            assert(f[o] == finalized_node(s.nodes[o]));
            assert(is_operation(s.nodes[o].op));
        }
    }
}

/// Finalization turns only costless placeholders into inputs, so the constraint
/// total is unchanged.
pub proof fn lemma_finalized_total(nodes: Seq<Node>)
    ensures
        nodes_constraint_total(finalized(nodes)) == nodes_constraint_total(nodes),
    decreases nodes.len(),
{
    if nodes.len() > 0 {
        assert(finalized(nodes).drop_last() =~= finalized(nodes.drop_last()));
        lemma_finalized_total(nodes.drop_last());
    }
}

} // verus!
