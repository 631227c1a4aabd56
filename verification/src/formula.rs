//! The arithmetic that a tape computes with, and what is known of its
//! results.
//!
//! The scalars are of any type, and the arithmetic on them is a function that
//! works formulas out. Of a result nothing is known but what the function
//! promises, so what a tape has computed is stated as a relation between
//! scalars: a result is *a* result that the function gives.

use vstd::prelude::*;
use crate::value_ops::{Factor, Operation, Push};

verus! {

/// One piece of arithmetic on scalars.
pub enum Formula<S> {
    /// The gradient that a node starts with and that a reset gives it.
    Zero,
    /// The gradient that a backward pass gives its root.
    One,
    /// The factor by which the slope of a square exceeds the squared value.
    Two,
    /// The first plus the second.
    Sum(S, S),
    /// The first minus the second.
    Difference(S, S),
    /// The first times the second.
    Product(S, S),
    /// The hyperbolic tangent.
    Tanh(S),
    /// The slope of the hyperbolic tangent: one minus its square.
    TanhSlope(S),
}

/// The function works every formula out.
pub open spec fn total<S, F: Fn(Formula<S>) -> S>(calc: F) -> bool {
    forall|f: Formula<S>| #[trigger] call_requires(calc, (f,))
}

/// `r` is a result of the formula.
pub open spec fn gives<S, F: Fn(Formula<S>) -> S>(calc: F, f: Formula<S>, r: S) -> bool {
    call_ensures(calc, (f,), r)
}

/// The function gives every formula one result only.
pub open spec fn deterministic<S, F: Fn(Formula<S>) -> S>(calc: F) -> bool {
    forall|f: Formula<S>, r1: S, r2: S|
        #[trigger] gives(calc, f, r1) && #[trigger] gives(calc, f, r2) ==> r1 == r2
}

/// `v` is a value that the operation has, given the values of its operands.
/// A leaf has the value it was given, whatever that is.
pub open spec fn computed<S, F: Fn(Formula<S>) -> S>(
    calc: F,
    op: Operation,
    values: Seq<S>,
    v: S,
) -> bool {
    match op {
        Operation::Input(_) => true,
        Operation::Add(o) => gives(calc, Formula::Sum(values[o.a as int], values[o.b as int]), v),
        Operation::Subtract(o) => gives(
            calc,
            Formula::Difference(values[o.a as int], values[o.b as int]),
            v,
        ),
        Operation::Multiply(o) => gives(
            calc,
            Formula::Product(values[o.a as int], values[o.b as int]),
            v,
        ),
        Operation::Tanh(o) => gives(calc, Formula::Tanh(values[o.a as int]), v),
    }
}

/// What an operation has as its value depends on the values of its operands
/// alone.
pub proof fn lemma_computed_agrees<S, F: Fn(Formula<S>) -> S>(
    calc: F,
    op: Operation,
    one: Seq<S>,
    other: Seq<S>,
    v: S,
)
    requires
        computed(calc, op, one, v),
        forall|k: int|
            0 <= k < op.operands().len() ==> one[(#[trigger] op.operands()[k]) as int]
                == other[op.operands()[k] as int],
    ensures
        computed(calc, op, other, v),
{
    if op.operands().len() >= 1 {
        assert(one[op.operands()[0] as int] == other[op.operands()[0] as int]);
    }
    if op.operands().len() >= 2 {
        assert(one[op.operands()[1] as int] == other[op.operands()[1] as int]);
    }
}

/// With arithmetic that gives one result only, an operation that is no leaf
/// has one value only.
pub proof fn lemma_computed_unique<S, F: Fn(Formula<S>) -> S>(
    calc: F,
    op: Operation,
    values: Seq<S>,
    v1: S,
    v2: S,
)
    requires
        deterministic(calc),
        !(op is Input),
        computed(calc, op, values, v1),
        computed(calc, op, values, v2),
    ensures
        v1 == v2,
{
}

/// `t` is the gradient `g` times the factor, the factors computed from the
/// values and the products taken from the left.
pub open spec fn scaled<S, F: Fn(Formula<S>) -> S>(
    calc: F,
    values: Seq<S>,
    g: S,
    factor: Factor,
    t: S,
) -> bool {
    match factor {
        Factor::One => t == g,
        Factor::ValueOf(b) => gives(calc, Formula::Product(g, values[b as int]), t),
        Factor::TwiceValueOf(a) => exists|two: S, twice: S|
            gives(calc, Formula::Two, two) && #[trigger] gives(
                calc,
                Formula::Product(g, two),
                twice,
            ) && gives(calc, Formula::Product(twice, values[a as int]), t),
        Factor::TanhSlopeAt(a) => exists|slope: S|
            gives(calc, Formula::TanhSlope(values[a as int]), slope) && #[trigger] gives(
                calc,
                Formula::Product(g, slope),
                t,
            ),
    }
}

/// The gradients `after` are the gradients `before` with one contribution
/// made: the gradient of the target is its old gradient plus the scaled
/// gradient of the source, and no other gradient has changed.
pub open spec fn pushed_one<S, F: Fn(Formula<S>) -> S>(
    calc: F,
    values: Seq<S>,
    before: Seq<S>,
    p: Push,
    after: Seq<S>,
) -> bool {
    &&& after == before.update(p.target as int, after[p.target as int])
    &&& exists|t: S| #[trigger]
        scaled(calc, values, before[p.source as int], p.factor, t) && gives(
            calc,
            Formula::Sum(before[p.target as int], t),
            after[p.target as int],
        )
}

/// The gradients `after` are the gradients `before` with the contributions
/// of `plan` made one after the other.
pub open spec fn pushed<S, F: Fn(Formula<S>) -> S>(
    calc: F,
    values: Seq<S>,
    before: Seq<S>,
    plan: Seq<Push>,
    after: Seq<S>,
) -> bool
    decreases plan.len(),
{
    if plan.len() == 0 {
        after == before
    } else {
        exists|mid: Seq<S>|
            pushed(calc, values, before, plan.drop_last(), mid) && #[trigger] pushed_one(
                calc,
                values,
                mid,
                plan.last(),
                after,
            )
    }
}

/// Contributions made in two runs are made in one: what the first plan makes
/// of `before`, and the second plan of that, the two plans in a row make of
/// `before`.
pub proof fn lemma_pushed_append<S, F: Fn(Formula<S>) -> S>(
    calc: F,
    values: Seq<S>,
    before: Seq<S>,
    first: Seq<Push>,
    mid: Seq<S>,
    second: Seq<Push>,
    after: Seq<S>,
)
    requires
        pushed(calc, values, before, first, mid),
        pushed(calc, values, mid, second, after),
    ensures
        pushed(calc, values, before, first + second, after),
    decreases second.len(),
{
    if second.len() == 0 {
        assert(first + second =~= first);
    } else {
        let head = second.drop_last();
        let m = choose|m: Seq<S>|
            pushed(calc, values, mid, head, m) && #[trigger] pushed_one(
                calc,
                values,
                m,
                second.last(),
                after,
            );
        lemma_pushed_append(calc, values, before, first, mid, head, m);
        assert((first + second).drop_last() =~= first + head);
        assert((first + second).last() == second.last());
    }
}

/// Contributions made in one run are made in two: what two plans in a row
/// make of `before`, the second plan makes of something that the first
/// plan makes of `before`.
pub proof fn lemma_pushed_split<S, F: Fn(Formula<S>) -> S>(
    calc: F,
    values: Seq<S>,
    before: Seq<S>,
    first: Seq<Push>,
    second: Seq<Push>,
    after: Seq<S>,
) -> (mid: Seq<S>)
    requires
        pushed(calc, values, before, first + second, after),
    ensures
        pushed(calc, values, before, first, mid),
        pushed(calc, values, mid, second, after),
    decreases second.len(),
{
    if second.len() == 0 {
        assert(first + second =~= first);
        after
    } else {
        let head = second.drop_last();
        assert((first + second).drop_last() =~= first + head);
        assert((first + second).last() == second.last());
        let m = choose|m: Seq<S>|
            pushed(calc, values, before, first + head, m) && #[trigger] pushed_one(
                calc,
                values,
                m,
                second.last(),
                after,
            );
        let mid = lemma_pushed_split(calc, values, before, first, head, m);
        assert(pushed_one(calc, values, m, second.last(), after));
        mid
    }
}

} // verus!
