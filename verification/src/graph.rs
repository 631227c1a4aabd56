//! The arena that holds the operations, and how a graph is built.

use vstd::prelude::*;
use crate::value_ops::{
    lemma_pushes_within, AddOperation, MulOperation, NoneOperation, Operation, Push, SubOperation,
    TanhOperation,
};

verus! {

/// Every operand of a node stands before the node. A graph built node by node
/// has this shape, and no node of such a graph depends on itself.
pub open spec fn acyclic(ops: Seq<Operation>) -> bool {
    forall|i: int, k: int|
        0 <= i < ops.len() && 0 <= k < ops[i].operands().len() ==> (
        #[trigger] ops[i].operands()[k]) < i
}

/// Node `to` is node `from` itself or is reached from it through operands.
pub open spec fn reaches(ops: Seq<Operation>, from: usize, to: usize) -> bool
    decreases from,
{
    from == to || (from < ops.len() && exists|k: int|
        0 <= k < ops[from as int].operands().len() && (#[trigger] ops[from as int].operands()[k])
            < from && reaches(ops, ops[from as int].operands()[k], to))
}

/// The operations of a computation, each named by its index.
///
/// Nodes are only ever appended, and an operation names nodes that exist
/// already, so the topology of what was built never changes.
pub struct Graph {
    ops: Vec<Operation>,
}

impl View for Graph {
    type V = Seq<Operation>;

    closed spec fn view(&self) -> Seq<Operation> {
        self.ops@
    }
}

impl Graph {
    /// The invariant of the arena.
    pub open spec fn wf(&self) -> bool {
        acyclic(self@)
    }

    /// The node is one of this graph.
    pub open spec fn contains(&self, id: usize) -> bool {
        id < self@.len()
    }

    pub fn new() -> (g: Graph)
        ensures
            g.wf(),
            g@ == Seq::<Operation>::empty(),
    {
        Graph { ops: Vec::new() }
    }

    pub fn len(&self) -> (n: usize)
        ensures
            n == self@.len(),
    {
        self.ops.len()
    }

    /// The operation that produced a node.
    pub fn operation(&self, id: usize) -> (op: Operation)
        requires
            self.contains(id),
        ensures
            op == self@[id as int],
    {
        self.ops[id]
    }

    /// Whether a node is a leaf. Only the value of a leaf may be set from
    /// outside: that of any other node follows from its operands.
    pub fn is_input(&self, id: usize) -> (r: bool)
        requires
            self.contains(id),
        ensures
            r == (self@[id as int] is Input),
    {
        self.ops[id].is_input()
    }

    /// Appends a node whose operands exist.
    pub(crate) fn append(&mut self, op: Operation) -> (id: usize)
        requires
            old(self).wf(),
            forall|k: int| 0 <= k < op.operands().len() ==> op.operands()[k] < old(self)@.len(),
        ensures
            final(self).wf(),
            final(self)@ == old(self)@.push(op),
            id == old(self)@.len(),
    {
        let id = self.ops.len();
        self.ops.push(op);
        id
    }

    /// Adds a leaf.
    pub fn input(&mut self) -> (id: usize)
        requires
            old(self).wf(),
        ensures
            final(self).wf(),
            final(self)@ == old(self)@.push(Operation::Input(NoneOperation {  })),
            id == old(self)@.len(),
    {
        self.append(Operation::Input(NoneOperation::new()))
    }

    /// Adds the sum of two nodes, which may be one and the same.
    pub fn add(&mut self, a: usize, b: usize) -> (id: usize)
        requires
            old(self).wf(),
            old(self).contains(a),
            old(self).contains(b),
        ensures
            final(self).wf(),
            final(self)@ == old(self)@.push(Operation::Add(AddOperation { a, b })),
            id == old(self)@.len(),
    {
        self.append(Operation::Add(AddOperation::new(a, b)))
    }

    /// Adds the difference of two nodes, the first minus the second.
    pub fn sub(&mut self, a: usize, b: usize) -> (id: usize)
        requires
            old(self).wf(),
            old(self).contains(a),
            old(self).contains(b),
        ensures
            final(self).wf(),
            final(self)@ == old(self)@.push(Operation::Subtract(SubOperation { a, b })),
            id == old(self)@.len(),
    {
        self.append(Operation::Subtract(SubOperation::new(a, b)))
    }

    /// Adds the product of two nodes, which may be one and the same.
    pub fn mul(&mut self, a: usize, b: usize) -> (id: usize)
        requires
            old(self).wf(),
            old(self).contains(a),
            old(self).contains(b),
        ensures
            final(self).wf(),
            final(self)@ == old(self)@.push(Operation::Multiply(MulOperation { a, b })),
            id == old(self)@.len(),
    {
        self.append(Operation::Multiply(MulOperation::new(a, b)))
    }

    /// Adds the hyperbolic tangent of a node.
    pub fn tanh(&mut self, a: usize) -> (id: usize)
        requires
            old(self).wf(),
            old(self).contains(a),
        ensures
            final(self).wf(),
            final(self)@ == old(self)@.push(Operation::Tanh(TanhOperation { a })),
            id == old(self)@.len(),
    {
        self.append(Operation::Tanh(TanhOperation::new(a)))
    }

    /// The direct operands of a node, in order; none for a leaf.
    pub fn dependencies(&self, id: usize) -> (r: Vec<usize>)
        requires
            self.contains(id),
        ensures
            r@ == self@[id as int].operands(),
    {
        self.ops[id].dependencies()
    }

    /// One backward step from a node: the contributions that its gradient
    /// makes to the gradients of its direct operands. Nothing further down is
    /// touched.
    pub fn back(&self, id: usize) -> (r: Vec<Push>)
        requires
            self.contains(id),
        ensures
            r@ == self@[id as int].pushes(id),
    {
        self.ops[id].back(id)
    }

    /// A backward step in a graph names nodes of the graph.
    pub proof fn lemma_back_within(&self, id: usize)
        requires
            self.wf(),
            self.contains(id),
        ensures
            forall|k: int|
                0 <= k < self@[id as int].pushes(id).len() ==> (
                #[trigger] self@[id as int].pushes(id)[k]).within(self@.len()),
    {
        assert forall|j: int| 0 <= j < self@[id as int].operands().len() implies (
        #[trigger] self@[id as int].operands()[j]) < self@.len() by {}
        lemma_pushes_within(self@[id as int], id, self@.len());
    }
}

} // verus!
