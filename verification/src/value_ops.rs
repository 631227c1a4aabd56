//! The closed set of operations a node can be produced by, and the local
//! derivative rule of each.

use vstd::prelude::*;

verus! {

/// What a gradient is multiplied by before it is accumulated into an operand.
#[derive(Clone, Copy, PartialEq, Eq, Structural, Debug)]
pub enum Factor {
    /// The gradient passes through unchanged.
    One,
    /// The current value of the given node.
    ValueOf(usize),
    /// Twice the current value of the given node: the slope of a square.
    TwiceValueOf(usize),
    /// One minus the squared hyperbolic tangent of the given node's value.
    TanhSlopeAt(usize),
}

/// One gradient contribution: the gradient of `source`, times `factor`, is
/// added to the gradient of `target`.
#[derive(Clone, Copy, PartialEq, Eq, Structural, Debug)]
pub struct Push {
    pub target: usize,
    pub source: usize,
    pub factor: Factor,
}

impl Factor {
    /// The node whose value the factor reads, if it reads one, is below
    /// `len`.
    pub open spec fn within(self, len: nat) -> bool {
        match self {
            Factor::One => true,
            Factor::ValueOf(x) => x < len,
            Factor::TwiceValueOf(x) => x < len,
            Factor::TanhSlopeAt(x) => x < len,
        }
    }
}

impl Push {
    /// Every node that the contribution names is below `len`.
    pub open spec fn within(self, len: nat) -> bool {
        self.target < len && self.source < len && self.factor.within(len)
    }
}

/// The operation of a leaf: it has no operands and hands no gradient on.
#[derive(Clone, Copy, PartialEq, Eq, Structural, Debug)]
pub struct NoneOperation {}

impl NoneOperation {
    /// The operation of a leaf.
    pub fn new() -> (r: Self)
        ensures
            r == (NoneOperation {  }),
            r.operands() == Seq::<usize>::empty(),
    {
        NoneOperation {  }
    }

    /// The operands, in order: none.
    pub open spec fn operands(self) -> Seq<usize> {
        Seq::empty()
    }

    /// The contributions of one backward step from node `from`: none.
    pub open spec fn pushes(self, from: usize) -> Seq<Push> {
        Seq::empty()
    }

    /// The operands, in order.
    pub fn node(&self) -> (r: Vec<usize>)
        ensures
            r@ == self.operands(),
    {
        Vec::new()
    }

    /// The contributions of one backward step from node `from`, in order.
    pub fn back(&self, from: usize) -> (r: Vec<Push>)
        ensures
            r@ == self.pushes(from),
    {
        Vec::new()
    }
}

/// A sum of two nodes.
#[derive(Clone, Copy, PartialEq, Eq, Structural, Debug)]
pub struct AddOperation {
    pub a: usize,
    pub b: usize,
}

impl AddOperation {
    /// The operation on the operands `a` and `b`, in this order.
    pub fn new(a: usize, b: usize) -> (r: Self)
        ensures
            r == (AddOperation { a, b }),
    {
        AddOperation { a, b }
    }

    /// The operands, in order; a node added to itself is listed twice.
    pub open spec fn operands(self) -> Seq<usize> {
        seq![self.a, self.b]
    }

    /// The gradient goes to each operand unchanged. A node added to itself
    /// receives it twice.
    pub open spec fn pushes(self, from: usize) -> Seq<Push> {
        seq![
            Push { target: self.a, source: from, factor: Factor::One },
            Push { target: self.b, source: from, factor: Factor::One },
        ]
    }

    /// The operands, in order.
    pub fn node(&self) -> (r: Vec<usize>)
        ensures
            r@ == self.operands(),
    {
        let mut r: Vec<usize> = Vec::new();
        r.push(self.a);
        r.push(self.b);
        assert(r@ =~= self.operands());
        r
    }

    /// The contributions of one backward step from node `from`, in order.
    pub fn back(&self, from: usize) -> (r: Vec<Push>)
        ensures
            r@ == self.pushes(from),
    {
        let mut r: Vec<Push> = Vec::new();
        r.push(Push { target: self.a, source: from, factor: Factor::One });
        r.push(Push { target: self.b, source: from, factor: Factor::One });
        assert(r@ =~= self.pushes(from));
        r
    }
}

/// A difference of two nodes, the first minus the second.
#[derive(Clone, Copy, PartialEq, Eq, Structural, Debug)]
pub struct SubOperation {
    pub a: usize,
    pub b: usize,
}

impl SubOperation {
    /// The operation on the operands `a` and `b`, in this order.
    pub fn new(a: usize, b: usize) -> (r: Self)
        ensures
            r == (SubOperation { a, b }),
    {
        SubOperation { a, b }
    }

    /// The operands, in order.
    pub open spec fn operands(self) -> Seq<usize> {
        seq![self.a, self.b]
    }

    /// The gradient goes to each operand unchanged, as for a sum: the
    /// subtrahend receives it with the sign it came with, not negated.
    pub open spec fn pushes(self, from: usize) -> Seq<Push> {
        seq![
            Push { target: self.a, source: from, factor: Factor::One },
            Push { target: self.b, source: from, factor: Factor::One },
        ]
    }

    /// The operands, in order.
    pub fn node(&self) -> (r: Vec<usize>)
        ensures
            r@ == self.operands(),
    {
        let mut r: Vec<usize> = Vec::new();
        r.push(self.a);
        r.push(self.b);
        assert(r@ =~= self.operands());
        r
    }

    /// The contributions of one backward step from node `from`, in order.
    pub fn back(&self, from: usize) -> (r: Vec<Push>)
        ensures
            r@ == self.pushes(from),
    {
        let mut r: Vec<Push> = Vec::new();
        r.push(Push { target: self.a, source: from, factor: Factor::One });
        r.push(Push { target: self.b, source: from, factor: Factor::One });
        assert(r@ =~= self.pushes(from));
        r
    }
}

/// A product of two nodes.
#[derive(Clone, Copy, PartialEq, Eq, Structural, Debug)]
pub struct MulOperation {
    pub a: usize,
    pub b: usize,
}

impl MulOperation {
    /// The operation on the operands `a` and `b`, in this order.
    pub fn new(a: usize, b: usize) -> (r: Self)
        ensures
            r == (MulOperation { a, b }),
    {
        MulOperation { a, b }
    }

    /// The operands, in order; a squared node is listed twice.
    pub open spec fn operands(self) -> Seq<usize> {
        seq![self.a, self.b]
    }

    /// Each operand receives the gradient times the value of the other one.
    /// Where both operands are one node, the product is a square and that node
    /// receives a single contribution, the gradient times twice its value.
    pub open spec fn pushes(self, from: usize) -> Seq<Push> {
        if self.a == self.b {
            seq![Push { target: self.a, source: from, factor: Factor::TwiceValueOf(self.a) }]
        } else {
            seq![
                Push { target: self.a, source: from, factor: Factor::ValueOf(self.b) },
                Push { target: self.b, source: from, factor: Factor::ValueOf(self.a) },
            ]
        }
    }

    /// The operands, in order.
    pub fn node(&self) -> (r: Vec<usize>)
        ensures
            r@ == self.operands(),
    {
        let mut r: Vec<usize> = Vec::new();
        r.push(self.a);
        r.push(self.b);
        assert(r@ =~= self.operands());
        r
    }

    /// The contributions of one backward step from node `from`, in order.
    pub fn back(&self, from: usize) -> (r: Vec<Push>)
        ensures
            r@ == self.pushes(from),
    {
        let mut r: Vec<Push> = Vec::new();
        if self.a == self.b {
            r.push(Push { target: self.a, source: from, factor: Factor::TwiceValueOf(self.a) });
            assert(r@ =~= self.pushes(from));
            return r;
        }
        r.push(Push { target: self.a, source: from, factor: Factor::ValueOf(self.b) });
        r.push(Push { target: self.b, source: from, factor: Factor::ValueOf(self.a) });
        assert(r@ =~= self.pushes(from));
        r
    }
}

/// The hyperbolic tangent of a node.
#[derive(Clone, Copy, PartialEq, Eq, Structural, Debug)]
pub struct TanhOperation {
    pub a: usize,
}

impl TanhOperation {
    /// The operation on the operand `a`.
    pub fn new(a: usize) -> (r: Self)
        ensures
            r == (TanhOperation { a }),
    {
        TanhOperation { a }
    }

    /// The one operand.
    pub open spec fn operands(self) -> Seq<usize> {
        seq![self.a]
    }

    /// The operand receives the gradient times the slope of the hyperbolic
    /// tangent at the operand's value.
    pub open spec fn pushes(self, from: usize) -> Seq<Push> {
        seq![Push { target: self.a, source: from, factor: Factor::TanhSlopeAt(self.a) }]
    }

    /// The operands, in order.
    pub fn node(&self) -> (r: Vec<usize>)
        ensures
            r@ == self.operands(),
    {
        let mut r: Vec<usize> = Vec::new();
        r.push(self.a);
        assert(r@ =~= self.operands());
        r
    }

    /// The contributions of one backward step from node `from`, in order.
    pub fn back(&self, from: usize) -> (r: Vec<Push>)
        ensures
            r@ == self.pushes(from),
    {
        let mut r: Vec<Push> = Vec::new();
        r.push(Push { target: self.a, source: from, factor: Factor::TanhSlopeAt(self.a) });
        assert(r@ =~= self.pushes(from));
        r
    }
}

/// The operation that produced a node.
#[derive(Clone, Copy, PartialEq, Eq, Structural, Debug)]
pub enum Operation {
    Input(NoneOperation),
    Add(AddOperation),
    Subtract(SubOperation),
    Multiply(MulOperation),
    Tanh(TanhOperation),
}

impl Operation {
    /// The direct operands, in order.
    pub open spec fn operands(self) -> Seq<usize> {
        match self {
            Operation::Input(op) => op.operands(),
            Operation::Add(op) => op.operands(),
            Operation::Subtract(op) => op.operands(),
            Operation::Multiply(op) => op.operands(),
            Operation::Tanh(op) => op.operands(),
        }
    }

    /// The contributions of one backward step from node `from`.
    pub open spec fn pushes(self, from: usize) -> Seq<Push> {
        match self {
            Operation::Input(op) => op.pushes(from),
            Operation::Add(op) => op.pushes(from),
            Operation::Subtract(op) => op.pushes(from),
            Operation::Multiply(op) => op.pushes(from),
            Operation::Tanh(op) => op.pushes(from),
        }
    }

    /// Whether this is a leaf, the only kind of node whose value is set from
    /// outside.
    pub fn is_input(&self) -> (r: bool)
        ensures
            r == (*self is Input),
    {
        match self {
            Operation::Input(_) => true,
            _ => false,
        }
    }

    /// The direct operands, in order; none for a leaf.
    pub fn dependencies(&self) -> (r: Vec<usize>)
        ensures
            r@ == self.operands(),
    {
        match self {
            Operation::Input(op) => op.node(),
            Operation::Add(op) => op.node(),
            Operation::Subtract(op) => op.node(),
            Operation::Multiply(op) => op.node(),
            Operation::Tanh(op) => op.node(),
        }
    }

    /// The contributions of one backward step from node `from`, in order.
    pub fn back(&self, from: usize) -> (r: Vec<Push>)
        ensures
            r@ == self.pushes(from),
    {
        match self {
            Operation::Input(op) => op.back(from),
            Operation::Add(op) => op.back(from),
            Operation::Subtract(op) => op.back(from),
            Operation::Multiply(op) => op.back(from),
            Operation::Tanh(op) => op.back(from),
        }
    }
}

/// One of the contributions goes to node `target`.
pub open spec fn goes_to(pushes: Seq<Push>, target: usize) -> bool {
    exists|k: int| 0 <= k < pushes.len() && (#[trigger] pushes[k]).target == target
}

/// Every contribution of a backward step is read from the node the step is
/// taken from and goes to one of the operands, and every operand receives one.
pub proof fn lemma_pushes_reach_operands(op: Operation, from: usize)
    ensures
        forall|k: int|
            0 <= k < op.pushes(from).len() ==> {
                &&& (#[trigger] op.pushes(from)[k]).source == from
                &&& op.operands().contains(op.pushes(from)[k].target)
            },
        forall|j: int|
            0 <= j < op.operands().len() ==> goes_to(op.pushes(from), #[trigger] op.operands()[j]),
{
    assert forall|k: int| 0 <= k < op.pushes(from).len() implies {
        &&& (#[trigger] op.pushes(from)[k]).source == from
        &&& op.operands().contains(op.pushes(from)[k].target)
    } by {
        let t = op.pushes(from)[k].target;
        if op.operands().len() == 1 || k == 0 {
            assert(op.operands()[0] == t);
        } else {
            assert(op.operands()[1] == t);
        }
    }
    assert forall|j: int| 0 <= j < op.operands().len() implies goes_to(
        op.pushes(from),
        #[trigger] op.operands()[j],
    ) by {
        if op.pushes(from).len() == 1 || j == 0 {
            assert(op.pushes(from)[0].target == op.operands()[j]);
        } else {
            assert(op.pushes(from)[1].target == op.operands()[j]);
        }
    }
}

/// A backward step names the node it is taken from and operands of it, and
/// nothing else.
pub proof fn lemma_pushes_within(op: Operation, from: usize, len: nat)
    requires
        from < len,
        forall|j: int| 0 <= j < op.operands().len() ==> (#[trigger] op.operands()[j]) < len,
    ensures
        forall|k: int| 0 <= k < op.pushes(from).len() ==> (#[trigger] op.pushes(from)[k]).within(len),
{
    if op.operands().len() >= 1 {
        assert(op.operands()[0] < len);
    }
    if op.operands().len() >= 2 {
        assert(op.operands()[1] < len);
    }
}

} // verus!
