use vstd::prelude::*;

verus! {

/// Operation performed by a node of the circuit DAG.
///
/// Operand fields hold the ids of the nodes the operation reads.
#[derive(Clone, Copy, Debug, PartialEq, Eq, Structural)]
pub enum OpType {
    /// Placeholder during DAG construction
    Undefined,
    /// Public input variable
    Input,
    /// Public output variable (before it is given an operation)
    Output,
    /// Addition: out = left + right (1 constraint)
    Add(usize, usize),
    /// Multiplication: out = left * right (1 constraint, non-linear)
    Mul(usize, usize),
    /// Alias: out = source (1 constraint)
    Alias(usize),
    /// Scaling: out = k * source (1 constraint)
    Scale(usize, u64),
    /// Fifth power: out = source^5 (3 constraints)
    Pow5(usize),
}

/// Number of R1CS constraints that an operation costs.
pub open spec fn op_constraint_count(op: OpType) -> nat {
    match op {
        OpType::Pow5(_) => 3,
        OpType::Add(_, _) | OpType::Mul(_, _) | OpType::Alias(_) | OpType::Scale(_, _) => 1,
        OpType::Undefined | OpType::Input | OpType::Output => 0,
    }
}

/// A node in the circuit DAG.
#[derive(Clone, Copy, Debug)]
pub struct Node {
    /// Unique identifier for this node
    pub id: usize,
    /// The operation this node performs
    pub op: OpType,
}

impl Node {
    /// Creates a new node with the given id and operation.
    pub fn new(id: usize, op: OpType) -> (node: Self)
        ensures
            node.id == id,
            node.op == op,
    {
        Node { id, op }
    }

    /// Returns the number of constraints this node contributes.
    pub fn constraint_count(&self) -> (count: usize)
        ensures
            count == op_constraint_count(self.op),
    {
        match self.op {
            OpType::Pow5(_) => 3,
            OpType::Add(_, _) | OpType::Mul(_, _) | OpType::Alias(_) | OpType::Scale(_, _) => 1,
            OpType::Undefined | OpType::Input | OpType::Output => 0,
        }
    }

    /// Returns true if this node is an input.
    pub fn is_input(&self) -> (result: bool)
        ensures
            result == (self.op is Input),
    {
        matches!(self.op, OpType::Input)
    }

    /// Returns true if this node is an output.
    pub fn is_output(&self) -> (result: bool)
        ensures
            result == (self.op is Output),
    {
        matches!(self.op, OpType::Output)
    }
}

} // verus!
