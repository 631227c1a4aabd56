//! The engine: a graph with one value and one gradient for every node.
//!
//! The tape decides which formula is worked out on which scalars and where
//! the result goes.

use vstd::prelude::*;
use crate::formula::{
    computed, gives, lemma_computed_agrees, pushed, pushed_one, scaled, total, Formula,
};
use crate::forward::{lemma_push_contains, named_before, operands_first};
use crate::graph::{acyclic, reaches, Graph};
use crate::passes::{backpropagated, cleared, forwarded, up_to_date};
use crate::value_ops::{
    AddOperation, Factor, MulOperation, NoneOperation, Operation, Push, SubOperation, TanhOperation,
};

verus! {

/// A graph of operations with the current value and the gathered gradient of
/// every node, and the arithmetic that it computes them with.
pub struct Tape<S, F> {
    graph: Graph,
    values: Vec<S>,
    grads: Vec<S>,
    calc: F,
}

impl<S: Copy, F: Fn(Formula<S>) -> S> Tape<S, F> {
    /// The operations, by node.
    pub closed spec fn ops(&self) -> Seq<Operation> {
        self.graph@
    }

    /// The current values, by node.
    pub closed spec fn values(&self) -> Seq<S> {
        self.values@
    }

    /// The gathered gradients, by node.
    pub closed spec fn grads(&self) -> Seq<S> {
        self.grads@
    }

    /// The arithmetic.
    pub closed spec fn arith(&self) -> F {
        self.calc
    }

    /// The invariant of the tape.
    pub open spec fn wf(&self) -> bool {
        &&& acyclic(self.ops())
        &&& self.values().len() == self.ops().len()
        &&& self.grads().len() == self.ops().len()
        &&& total(self.arith())
    }

    /// Every value is up to date: it is one that the operation of its node
    /// has, given the values of the operands. It is so on a tape as it was
    /// built, and a new value for a leaf may end it for the nodes that depend
    /// on the leaf, until a forward pass.
    pub open spec fn current(&self) -> bool {
        forall|n: int|
            0 <= n < self.ops().len() ==> computed(
                self.arith(),
                self.ops()[n],
                self.values(),
                #[trigger] self.values()[n],
            )
    }

    /// The node is one of this tape.
    pub open spec fn contains(&self, id: usize) -> bool {
        id < self.ops().len()
    }

    /// The first tape is the second with one node more.
    pub open spec fn grown(&self, from: &Self, op: Operation) -> bool {
        &&& self.wf()
        &&& self.arith() == from.arith()
        &&& self.ops() == from.ops().push(op)
        &&& self.values() == from.values().push(self.values().last())
        &&& self.grads() == from.grads().push(self.grads().last())
        &&& gives(self.arith(), Formula::Zero, self.grads().last())
    }

    /// An empty tape that computes with `calc`.
    pub fn new(calc: F) -> (t: Self)
        requires
            total(calc),
        ensures
            t.wf(),
            t.arith() == calc,
            t.ops() == Seq::<Operation>::empty(),
    {
        Tape { graph: Graph::new(), values: Vec::new(), grads: Vec::new(), calc }
    }

    fn compute(&self, f: Formula<S>) -> (r: S)
        requires
            total(self.arith()),
        ensures
            gives(self.arith(), f, r),
    {
        assert(call_requires(self.arith(), (f,)));
        (self.calc)(f)
    }

    /// The number of nodes.
    pub fn len(&self) -> (n: usize)
        ensures
            n == self.ops().len(),
    {
        self.graph.len()
    }

    /// The graph alone.
    pub fn graph(&self) -> (g: &Graph)
        ensures
            g@ == self.ops(),
    {
        &self.graph
    }

    /// The current value of a node, as it was set or last computed.
    pub fn value(&self, id: usize) -> (v: S)
        requires
            self.wf(),
            self.contains(id),
        ensures
            v == self.values()[id as int],
    {
        self.values[id]
    }

    /// The gradient that a node has gathered.
    pub fn grad(&self, id: usize) -> (g: S)
        requires
            self.wf(),
            self.contains(id),
        ensures
            g == self.grads()[id as int],
    {
        self.grads[id]
    }

    /// Gives a leaf a new value. The values of the nodes that depend on it
    /// stay as they are until a forward pass.
    pub fn set_value(&mut self, id: usize, value: S)
        requires
            old(self).wf(),
            old(self).contains(id),
            old(self).ops()[id as int] is Input,
        ensures
            final(self).wf(),
            final(self).arith() == old(self).arith(),
            final(self).ops() == old(self).ops(),
            final(self).grads() == old(self).grads(),
            final(self).values() == old(self).values().update(id as int, value),
    {
        self.values.set(id, value);
    }

    /// Adds `delta` to the gradient of a node.
    pub fn add_grad(&mut self, id: usize, delta: S)
        requires
            old(self).wf(),
            old(self).contains(id),
        ensures
            final(self).wf(),
            final(self).arith() == old(self).arith(),
            final(self).ops() == old(self).ops(),
            final(self).values() == old(self).values(),
            final(self).grads() == old(self).grads().update(
                id as int,
                final(self).grads()[id as int],
            ),
            gives(
                old(self).arith(),
                Formula::Sum(old(self).grads()[id as int], delta),
                final(self).grads()[id as int],
            ),
    {
        let g = self.compute(Formula::Sum(self.grads[id], delta));
        self.grads.set(id, g);
    }

    /// Clears the gradient of a node.
    pub fn reset_grad(&mut self, id: usize)
        requires
            old(self).wf(),
            old(self).contains(id),
        ensures
            final(self).wf(),
            final(self).arith() == old(self).arith(),
            final(self).ops() == old(self).ops(),
            final(self).values() == old(self).values(),
            final(self).grads() == old(self).grads().update(
                id as int,
                final(self).grads()[id as int],
            ),
            gives(old(self).arith(), Formula::Zero, final(self).grads()[id as int]),
    {
        let z = self.compute(Formula::Zero);
        self.grads.set(id, z);
    }

    /// Appends a node to the three columns.
    fn append(&mut self, op: Operation, value: S) -> (id: usize)
        requires
            old(self).wf(),
            forall|k: int|
                0 <= k < op.operands().len() ==> (#[trigger] op.operands()[k]) < old(
                    self,
                ).ops().len(),
        ensures
            final(self).grown(old(self), op),
            final(self).values().last() == value,
            id == old(self).ops().len(),
            old(self).current() && computed(
                final(self).arith(),
                op,
                final(self).values(),
                value,
            ) ==> final(self).current(),
    {
        let zero = self.compute(Formula::Zero);
        let id = self.graph.append(op);
        self.values.push(value);
        self.grads.push(zero);
        proof {
            assert(self.values@ =~= old(self).values@.push(value));
            assert(self.grads@ =~= old(self).grads@.push(zero));
            if old(self).current() && computed(self.arith(), op, self.values(), value) {
                lemma_still_computed(self, old(self), op, 0);
            }
        }
        id
    }

    /// Adds a leaf with the given value. Its gradient starts at zero.
    pub fn input(&mut self, value: S) -> (id: usize)
        requires
            old(self).wf(),
        ensures
            final(self).grown(old(self), Operation::Input(NoneOperation {  })),
            final(self).values().last() == value,
            id == old(self).ops().len(),
            old(self).current() ==> final(self).current(),
    {
        self.append(Operation::Input(NoneOperation::new()), value)
    }

    /// Adds the sum of two nodes, which may be one and the same. Its value is
    /// computed from theirs, and its gradient starts at zero.
    pub fn add(&mut self, a: usize, b: usize) -> (id: usize)
        requires
            old(self).wf(),
            old(self).contains(a),
            old(self).contains(b),
        ensures
            final(self).grown(old(self), Operation::Add(AddOperation { a, b })),
            computed(
                final(self).arith(),
                final(self).ops()[id as int],
                final(self).values(),
                final(self).values()[id as int],
            ),
            id == old(self).ops().len(),
            old(self).current() ==> final(self).current(),
    {
        let v = self.compute(Formula::Sum(self.values[a], self.values[b]));
        let op = Operation::Add(AddOperation::new(a, b));
        proof {
            assert(op.operands()[0] == a && op.operands()[1] == b);
        }
        let id = self.append(op, v);
        id
    }

    /// Adds the difference of two nodes, the first minus the second. Its
    /// value is computed from theirs, and its gradient starts at zero.
    pub fn sub(&mut self, a: usize, b: usize) -> (id: usize)
        requires
            old(self).wf(),
            old(self).contains(a),
            old(self).contains(b),
        ensures
            final(self).grown(old(self), Operation::Subtract(SubOperation { a, b })),
            computed(
                final(self).arith(),
                final(self).ops()[id as int],
                final(self).values(),
                final(self).values()[id as int],
            ),
            id == old(self).ops().len(),
            old(self).current() ==> final(self).current(),
    {
        let v = self.compute(Formula::Difference(self.values[a], self.values[b]));
        let op = Operation::Subtract(SubOperation::new(a, b));
        proof {
            assert(op.operands()[0] == a && op.operands()[1] == b);
        }
        let id = self.append(op, v);
        id
    }

    /// Adds the product of two nodes, which may be one and the same. Its
    /// value is computed from theirs, and its gradient starts at zero.
    pub fn mul(&mut self, a: usize, b: usize) -> (id: usize)
        requires
            old(self).wf(),
            old(self).contains(a),
            old(self).contains(b),
        ensures
            final(self).grown(old(self), Operation::Multiply(MulOperation { a, b })),
            computed(
                final(self).arith(),
                final(self).ops()[id as int],
                final(self).values(),
                final(self).values()[id as int],
            ),
            id == old(self).ops().len(),
            old(self).current() ==> final(self).current(),
    {
        let v = self.compute(Formula::Product(self.values[a], self.values[b]));
        let op = Operation::Multiply(MulOperation::new(a, b));
        proof {
            assert(op.operands()[0] == a && op.operands()[1] == b);
        }
        let id = self.append(op, v);
        id
    }

    /// A tape whose values are all up to date has them up to date below any
    /// node.
    pub proof fn lemma_current(&self, root: usize)
        requires
            self.current(),
        ensures
            up_to_date(self.arith(), self.ops(), root, self.values()),
    {
        assert forall|n: usize| n < self.ops().len() && reaches(self.ops(), root, n) implies computed(
            self.arith(),
            self.ops()[n as int],
            self.values(),
            #[trigger] self.values()[n as int],
        ) by {}
    }

    /// Computes the value of one node anew from the values that its operands
    /// have. A leaf keeps its value.
    fn recompute(&mut self, n: usize)
        requires
            old(self).wf(),
            old(self).contains(n),
        ensures
            final(self).wf(),
            final(self).arith() == old(self).arith(),
            final(self).ops() == old(self).ops(),
            final(self).grads() == old(self).grads(),
            final(self).values() == old(self).values().update(
                n as int,
                final(self).values()[n as int],
            ),
            old(self).ops()[n as int] is Input ==> final(self).values() == old(self).values(),
            computed(
                old(self).arith(),
                old(self).ops()[n as int],
                old(self).values(),
                final(self).values()[n as int],
            ),
    {
        let op = self.graph.operation(n);
        proof {
            if op.operands().len() >= 1 {
                assert(self.ops()[n as int].operands()[0] < n);
            }
            if op.operands().len() >= 2 {
                assert(self.ops()[n as int].operands()[1] < n);
            }
        }
        match op {
            Operation::Input(_) => {
                assert(self.values@ =~= self.values@.update(n as int, self.values@[n as int]));
            },
            Operation::Add(o) => {
                let v = self.compute(Formula::Sum(self.values[o.a], self.values[o.b]));
                self.values.set(n, v);
            },
            Operation::Subtract(o) => {
                let v = self.compute(Formula::Difference(self.values[o.a], self.values[o.b]));
                self.values.set(n, v);
            },
            Operation::Multiply(o) => {
                let v = self.compute(Formula::Product(self.values[o.a], self.values[o.b]));
                self.values.set(n, v);
            },
            Operation::Tanh(o) => {
                let v = self.compute(Formula::Tanh(self.values[o.a]));
                self.values.set(n, v);
            },
        }
    }

    /// The forward pass from `root`: the value of `root` and of every node
    /// that it reaches is computed anew, operands first and every node once.
    /// Leaves keep the values that they were given, and no gradient changes.
    pub fn forward(&mut self, root: usize)
        requires
            old(self).wf(),
            old(self).contains(root),
        ensures
            final(self).wf(),
            final(self).arith() == old(self).arith(),
            final(self).ops() == old(self).ops(),
            final(self).grads() == old(self).grads(),
            forwarded(
                old(self).arith(),
                old(self).ops(),
                root,
                old(self).values(),
                final(self).values(),
            ),
    {
        let order = self.graph.forward_schedule(root);
        let ghost ops = self.ops();
        let ghost calc = self.arith();
        let mut i: usize = 0;
        proof {
            assert(forall|n: usize| !order@.take(0).contains(n));
        }
        while i < order.len()
            invariant
                i <= order@.len(),
                self.wf(),
                self.arith() == calc,
                self.ops() == ops,
                self.grads() == old(self).grads(),
                self.values().len() == old(self).values().len(),
                operands_first(ops, order@),
                forall|n: usize|
                    n < ops.len() ==> if order@.take(i as int).contains(n) && !(ops[n as int] is Input) {
                        computed(calc, ops[n as int], self.values(), #[trigger] self.values()[n as int])
                    } else {
                        self.values()[n as int] == old(self).values()[n as int]
                    },
            decreases order@.len() - i,
        {
            let n = order[i];
            let ghost was = self.values();
            proof {
                assert(order@[i as int] < ops.len());
            }
            self.recompute(n);
            proof {
                let now = self.values();
                assert(order@.take(i + 1) =~= order@.take(i as int).push(n));
                lemma_push_contains(order@.take(i as int), n);
                assert(!order@.take(i as int).contains(n)) by {
                    if order@.take(i as int).contains(n) {
                        let j = choose|j: int|
                            0 <= j < order@.take(i as int).len() && order@.take(i as int)[j] == n;
                        assert(order@[j] == order@[i as int]);
                    }
                }
                assert forall|m: usize| m < ops.len() implies if order@.take(i + 1).contains(m) && !(
                ops[m as int] is Input) {
                    computed(calc, ops[m as int], now, #[trigger] now[m as int])
                } else {
                    now[m as int] == old(self).values()[m as int]
                } by {
                    if order@.take(i + 1).contains(m) && !(ops[m as int] is Input) {
                        let at: int = if m == n {
                            i as int
                        } else {
                            choose|j: int|
                                0 <= j < order@.take(i as int).len() && order@.take(i as int)[j]
                                    == m
                        };
                        assert(order@[at] == m);
                        assert forall|k: int| 0 <= k < ops[m as int].operands().len() implies was[(
                        #[trigger] ops[m as int].operands()[k]) as int] == now[ops[m as int].operands()[k] as int] by {
                            let o = ops[order@[at] as int].operands()[k];
                            assert(named_before(order@, at, o));
                            let j = choose|j: int|
                                0 <= j < at && j < order@.len() && #[trigger] order@[j] == o;
                            assert(order@[j] != order@[i as int]);
                        }
                        if m != n {
                            assert(computed(calc, ops[m as int], was, was[m as int]));
                        }
                        lemma_computed_agrees(calc, ops[m as int], was, now, now[m as int]);
                    }
                }
            }
            i += 1;
        }
        proof {
            assert(order@.take(order@.len() as int) =~= order@);
        }
    }

    /// Works out the gradient `g` times a factor.
    fn scale(&self, g: S, factor: Factor) -> (t: S)
        requires
            self.wf(),
            factor.within(self.ops().len()),
        ensures
            scaled(self.arith(), self.values(), g, factor, t),
    {
        match factor {
            Factor::One => g,
            Factor::ValueOf(b) => self.compute(Formula::Product(g, self.values[b])),
            Factor::TwiceValueOf(a) => {
                let two = self.compute(Formula::Two);
                let twice = self.compute(Formula::Product(g, two));
                self.compute(Formula::Product(twice, self.values[a]))
            },
            Factor::TanhSlopeAt(a) => {
                let slope = self.compute(Formula::TanhSlope(self.values[a]));
                self.compute(Formula::Product(g, slope))
            },
        }
    }

    /// Makes one contribution.
    fn push(&mut self, p: Push)
        requires
            old(self).wf(),
            p.within(old(self).ops().len()),
        ensures
            final(self).wf(),
            final(self).arith() == old(self).arith(),
            final(self).ops() == old(self).ops(),
            final(self).values() == old(self).values(),
            pushed_one(old(self).arith(), old(self).values(), old(self).grads(), p, final(self).grads()),
    {
        let t = self.scale(self.grads[p.source], p.factor);
        let g = self.compute(Formula::Sum(self.grads[p.target], t));
        self.grads.set(p.target, g);
    }

    /// Makes the contributions of a plan, one after the other.
    fn push_all(&mut self, plan: &Vec<Push>)
        requires
            old(self).wf(),
            forall|k: int| 0 <= k < plan@.len() ==> (#[trigger] plan@[k]).within(old(self).ops().len()),
        ensures
            final(self).wf(),
            final(self).arith() == old(self).arith(),
            final(self).ops() == old(self).ops(),
            final(self).values() == old(self).values(),
            pushed(old(self).arith(), old(self).values(), old(self).grads(), plan@, final(self).grads()),
    {
        let mut j: usize = 0;
        proof {
            assert(plan@.take(0) =~= Seq::<Push>::empty());
        }
        while j < plan.len()
            invariant
                j <= plan@.len(),
                self.wf(),
                self.arith() == old(self).arith(),
                self.ops() == old(self).ops(),
                self.values() == old(self).values(),
                forall|k: int| 0 <= k < plan@.len() ==> (#[trigger] plan@[k]).within(self.ops().len()),
                pushed(
                    self.arith(),
                    self.values(),
                    old(self).grads(),
                    plan@.take(j as int),
                    self.grads(),
                ),
            decreases plan@.len() - j,
        {
            let ghost mid = self.grads();
            self.push(plan[j]);
            proof {
                assert(plan@.take(j + 1).drop_last() =~= plan@.take(j as int));
                assert(plan@.take(j + 1).last() == plan@[j as int]);
                assert(pushed_one(self.arith(), self.values(), mid, plan@[j as int], self.grads()));
            }
            j += 1;
        }
        proof {
            assert(plan@.take(plan@.len() as int) =~= plan@);
        }
    }

    /// One backward step from a node: its gradient, as it stands, makes its
    /// contributions to the gradients of its direct operands. Nothing further
    /// down is touched, and the gradient of the node itself stays.
    pub fn back(&mut self, id: usize)
        requires
            old(self).wf(),
            old(self).contains(id),
        ensures
            final(self).wf(),
            final(self).arith() == old(self).arith(),
            final(self).ops() == old(self).ops(),
            final(self).values() == old(self).values(),
            pushed(
                old(self).arith(),
                old(self).values(),
                old(self).grads(),
                old(self).ops()[id as int].pushes(id),
                final(self).grads(),
            ),
    {
        let step = self.graph.back(id);
        proof {
            self.graph.lemma_back_within(id);
        }
        self.push_all(&step);
    }

    /// The direct operands of a node, in order; none for a leaf.
    pub fn dependencies(&self, id: usize) -> (r: Vec<usize>)
        requires
            self.wf(),
            self.contains(id),
        ensures
            r@ == self.ops()[id as int].operands(),
    {
        self.graph.dependencies(id)
    }
}

/// In a tape that has grown, the nodes from `base` on that had a value of
/// their operation still have one.
pub(crate) proof fn lemma_still_computed<S: Copy, F: Fn(Formula<S>) -> S>(
    now: &Tape<S, F>,
    was: &Tape<S, F>,
    op: Operation,
    base: nat,
)
    requires
        now.grown(was, op),
        was.wf(),
        base <= was.ops().len(),
        computed(now.arith(), op, now.values(), now.values().last()),
        forall|i: int|
            base <= i < was.ops().len() ==> computed(
                was.arith(),
                was.ops()[i],
                was.values(),
                #[trigger] was.values()[i],
            ),
    ensures
        forall|i: int|
            base <= i < now.ops().len() ==> computed(
                now.arith(),
                now.ops()[i],
                now.values(),
                #[trigger] now.values()[i],
            ),
{
    assert forall|i: int| base <= i < now.ops().len() implies computed(
        now.arith(),
        now.ops()[i],
        now.values(),
        #[trigger] now.values()[i],
    ) by {
        if i < was.ops().len() {
            let o = was.ops()[i];
            assert(computed(was.arith(), o, was.values(), was.values()[i]));
            assert forall|k: int| 0 <= k < o.operands().len() implies was.values()[(
            #[trigger] o.operands()[k]) as int] == now.values()[o.operands()[k] as int] by {
                assert(was.ops()[i].operands()[k] < i);
            }
            lemma_computed_agrees(
                was.arith(),
                o,
                was.values(),
                now.values(),
                was.values()[i],
            );
        }
    }
}

/// Adds the hyperbolic tangent of a node. Its value is computed from that
/// of the node, and its gradient starts at zero.
pub fn tanh<S: Copy, F: Fn(Formula<S>) -> S>(tape: &mut Tape<S, F>, a: usize) -> (id: usize)
    requires
        old(tape).wf(),
        old(tape).contains(a),
    ensures
        final(tape).grown(old(tape), Operation::Tanh(TanhOperation { a })),
        computed(
            final(tape).arith(),
            final(tape).ops()[id as int],
            final(tape).values(),
            final(tape).values()[id as int],
        ),
        id == old(tape).ops().len(),
        old(tape).current() ==> final(tape).current(),
{
    let v = tape.compute(Formula::Tanh(tape.values[a]));
    let op = Operation::Tanh(TanhOperation::new(a));
    proof {
        assert(op.operands()[0] == a);
    }
    let id = tape.append(op, v);
    id
}

/// The backward pass from `root`: one is added to the gradient of `root`, the
/// backward step from `root` is taken, and then the sweep over what `root`
/// reaches takes the backward step from every node as it discovers it, once.
/// No gradient is cleared first: the pass adds to what the nodes have
/// gathered, and no value changes.
pub fn backprop<S: Copy, F: Fn(Formula<S>) -> S>(tape: &mut Tape<S, F>, root: usize)
    requires
        old(tape).wf(),
        old(tape).contains(root),
    ensures
        final(tape).wf(),
        final(tape).arith() == old(tape).arith(),
        final(tape).ops() == old(tape).ops(),
        final(tape).values() == old(tape).values(),
        backpropagated(
            old(tape).arith(),
            old(tape).ops(),
            old(tape).values(),
            root,
            old(tape).grads(),
            final(tape).grads(),
        ),
{
    let one = tape.compute(Formula::One);
    tape.add_grad(root, one);
    let ghost seed = tape.grads()[root as int];
    let steps = tape.graph.backward_plan(root);
    tape.push_all(&steps);
    proof {
        assert(gives(tape.arith(), Formula::Sum(old(tape).grads()[root as int], one), seed));
    }
}

/// The reset from `root`: the gradient of `root` and of every node that it
/// reaches is cleared. Every other gradient stays, and so does every value.
pub fn reset<S: Copy, F: Fn(Formula<S>) -> S>(tape: &mut Tape<S, F>, root: usize)
    requires
        old(tape).wf(),
        old(tape).contains(root),
    ensures
        final(tape).wf(),
        final(tape).arith() == old(tape).arith(),
        final(tape).ops() == old(tape).ops(),
        final(tape).values() == old(tape).values(),
        cleared(
            old(tape).arith(),
            old(tape).ops(),
            root,
            old(tape).grads(),
            final(tape).grads(),
        ),
{
    let order = tape.graph.discover(root);
    let ghost ops = tape.ops();
    let ghost calc = tape.arith();
    let mut i: usize = 0;
    proof {
        assert(forall|n: usize| !order@.take(0).contains(n));
    }
    while i < order.len()
        invariant
            i <= order@.len(),
            tape.wf(),
            tape.arith() == calc,
            tape.ops() == ops,
            tape.values() == old(tape).values(),
            tape.grads().len() == old(tape).grads().len(),
            forall|k: int| 0 <= k < order@.len() ==> (#[trigger] order@[k]) < ops.len(),
            forall|n: usize|
                n < ops.len() ==> if order@.take(i as int).contains(n) {
                    gives(calc, Formula::Zero, #[trigger] tape.grads()[n as int])
                } else {
                    tape.grads()[n as int] == old(tape).grads()[n as int]
                },
        decreases order@.len() - i,
    {
        let n = order[i];
        proof {
            assert(order@.take(i + 1) =~= order@.take(i as int).push(n));
            lemma_push_contains(order@.take(i as int), n);
        }
        tape.reset_grad(n);
        i += 1;
    }
    proof {
        assert(order@.take(order@.len() as int) =~= order@);
    }
}

} // verus!
