//! The node of a computation graph: an operation and the handles of its
//! operands.
use vstd::prelude::*;

verus! {

/// How a node was produced.  `Leaf` marks a node that no operation produced:
/// an input or a constant.
#[derive(Clone, Copy, PartialEq, Eq, Debug, Structural)]
pub enum Operation {
    Leaf,
    Add,
    Subtract,
    Multiply,
    Tanh,
}

impl Operation {
    /// The number of operands that the operation takes.
    pub open spec fn arity(self) -> nat {
        match self {
            Operation::Leaf => 0,
            Operation::Tanh => 1,
            Operation::Add | Operation::Subtract | Operation::Multiply => 2,
        }
    }
}

/// The mathematical model of a [`Value`]: its operation and its operands, left
/// to right.
pub struct Node {
    pub operation: Operation,
    pub operands: Seq<usize>,
}

impl Node {
    /// The operand count fits the operation, and a binary node has two
    /// different operands.
    pub open spec fn well_formed(self) -> bool {
        &&& self.operands.len() == self.operation.arity()
        &&& self.operands.len() == 2 ==> self.operands[0] != self.operands[1]
    }

    /// Every operand is a handle below `bound`.
    pub open spec fn operands_below(self, bound: int) -> bool {
        forall|k: int| 0 <= k < self.operands.len() ==> (#[trigger] self.operands[k]) < bound
    }

    /// The node that no operation produced.
    pub open spec fn leaf() -> Node {
        Node { operation: Operation::Leaf, operands: Seq::empty() }
    }

    /// The node that `operation` produced from node `a`.
    pub open spec fn unary(operation: Operation, a: usize) -> Node {
        Node { operation, operands: seq![a] }
    }

    /// The node that `operation` produced from nodes `a` and `b`, in that
    /// order.
    pub open spec fn binary(operation: Operation, a: usize, b: usize) -> Node {
        Node { operation, operands: seq![a, b] }
    }
}

/// A node of the computation graph.  It records the operation that produced a
/// scalar and the handles of the nodes it was applied to; it never changes
/// once made.
#[derive(Debug)]
pub struct Value {
    operation: Operation,
    operands: Vec<usize>,
}

impl View for Value {
    type V = Node;

    closed spec fn view(&self) -> Node {
        Node { operation: self.operation, operands: self.operands@ }
    }
}

impl Value {
    /// A leaf: no operation, no operands.
    pub fn new() -> (v: Value)
        ensures
            v@ == Node::leaf(),
            v@.well_formed(),
    {
        Value { operation: Operation::Leaf, operands: Vec::new() }
    }

    /// The hyperbolic tangent of node `a`.
    pub fn tanh(a: usize) -> (v: Value)
        ensures
            v@ == Node::unary(Operation::Tanh, a),
            v@.well_formed(),
    {
        let mut operands: Vec<usize> = Vec::new();
        operands.push(a);
        assert(operands@ =~= seq![a]);
        Value { operation: Operation::Tanh, operands }
    }

    /// The sum of nodes `a` and `b`.  It is well formed where the two differ.
    pub fn add(a: usize, b: usize) -> (v: Value)
        ensures
            v@ == Node::binary(Operation::Add, a, b),
            v@.well_formed() <==> a != b,
    {
        Value { operation: Operation::Add, operands: pair(a, b) }
    }

    /// The difference of nodes `a` and `b`, in that order.  It is well formed
    /// where the two differ.
    pub fn sub(a: usize, b: usize) -> (v: Value)
        ensures
            v@ == Node::binary(Operation::Subtract, a, b),
            v@.well_formed() <==> a != b,
    {
        Value { operation: Operation::Subtract, operands: pair(a, b) }
    }

    /// The product of nodes `a` and `b`.  It is well formed where the two
    /// differ.
    pub fn mul(a: usize, b: usize) -> (v: Value)
        ensures
            v@ == Node::binary(Operation::Multiply, a, b),
            v@.well_formed() <==> a != b,
    {
        Value { operation: Operation::Multiply, operands: pair(a, b) }
    }

    /// Whether the node is well formed and names only handles below `bound`:
    /// whether a computation of `bound` nodes can take it in.
    pub fn fits(&self, bound: usize) -> (ok: bool)
        ensures
            ok == (self@.well_formed() && self@.operands_below(bound as int)),
    {
        let arity: usize = match self.operation {
            Operation::Leaf => 0,
            Operation::Tanh => 1,
            Operation::Add | Operation::Subtract | Operation::Multiply => 2,
        };
        if self.operands.len() != arity {
            return false;
        }
        if arity == 2 && self.operands[0] == self.operands[1] {
            return false;
        }
        let mut k: usize = 0;
        while k < self.operands.len()
            invariant
                k <= self.operands@.len(),
                forall|j: int| 0 <= j < k ==> self.operands@[j] < bound,
            decreases self.operands@.len() - k,
        {
            if self.operands[k] >= bound {
                return false;
            }
            k += 1;
        }
        true
    }

    /// The operation that produced the node.
    pub fn operation(&self) -> (op: Operation)
        ensures
            op == self@.operation,
    {
        self.operation
    }

    /// The handles of the operands, left to right.
    pub fn operands(&self) -> (operands: &Vec<usize>)
        ensures
            operands@ == self@.operands,
    {
        &self.operands
    }
}

/// The two handles, in order.
fn pair(a: usize, b: usize) -> (v: Vec<usize>)
    ensures
        v@ == seq![a, b],
{
    let mut v: Vec<usize> = Vec::new();
    v.push(a);
    v.push(b);
    assert(v@ =~= seq![a, b]);
    v
}

} // verus!
