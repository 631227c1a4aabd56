//! What the passes over a tape make of its values and gradients.

use vstd::prelude::*;
use crate::backward::{discovered, lemma_reaches_trans, plan};
use crate::formula::{
    computed, deterministic, gives, lemma_computed_agrees, lemma_computed_unique,
    lemma_pushed_append, lemma_pushed_split, pushed, pushed_one, scaled, Formula,
};
use crate::graph::{acyclic, reaches};
use crate::value_ops::{AddOperation, Factor, Operation, Push};

verus! {

/// The values `after` are what a forward pass from `root` makes of the values
/// `before`: every node that `root` reaches and that is no leaf has a value
/// that its operation has, given the values that its operands have then; every
/// other node has the value it had.
pub open spec fn forwarded<S, F: Fn(Formula<S>) -> S>(
    calc: F,
    ops: Seq<Operation>,
    root: usize,
    before: Seq<S>,
    after: Seq<S>,
) -> bool {
    &&& after.len() == before.len()
    &&& forall|n: usize|
        n < ops.len() ==> if reaches(ops, root, n) && !(ops[n as int] is Input) {
            computed(calc, ops[n as int], after, #[trigger] after[n as int])
        } else {
            after[n as int] == before[n as int]
        }
}

/// The values are up to date below `root`: every node that `root` reaches has
/// a value that its operation has, given the values of its operands.
pub open spec fn up_to_date<S, F: Fn(Formula<S>) -> S>(
    calc: F,
    ops: Seq<Operation>,
    root: usize,
    values: Seq<S>,
) -> bool {
    forall|n: usize|
        n < ops.len() && reaches(ops, root, n) ==> computed(
            calc,
            ops[n as int],
            values,
            #[trigger] values[n as int],
        )
}

/// The gradients `after` are what a backward pass from `root` makes of the
/// gradients `before`: one is added to the gradient of `root`, and then the
/// contributions of the plan of the pass are made.
pub open spec fn backpropagated<S, F: Fn(Formula<S>) -> S>(
    calc: F,
    ops: Seq<Operation>,
    values: Seq<S>,
    root: usize,
    before: Seq<S>,
    after: Seq<S>,
) -> bool {
    exists|one: S, seed: S|
        gives(calc, Formula::One, one) && #[trigger] gives(
            calc,
            Formula::Sum(before[root as int], one),
            seed,
        ) && pushed(
            calc,
            values,
            before.update(root as int, seed),
            plan(ops, discovered(ops, root)),
            after,
        )
}

/// The gradients `after` are what a reset from `root` makes of the gradients
/// `before`: `root` and every node that it reaches have the gradient zero,
/// and every other node has the gradient it had.
pub open spec fn cleared<S, F: Fn(Formula<S>) -> S>(
    calc: F,
    ops: Seq<Operation>,
    root: usize,
    before: Seq<S>,
    after: Seq<S>,
) -> bool {
    &&& after.len() == before.len()
    &&& forall|n: usize|
        n < ops.len() ==> if reaches(ops, root, n) {
            gives(calc, Formula::Zero, #[trigger] after[n as int])
        } else {
            after[n as int] == before[n as int]
        }
}

/// A forward pass brings the values up to date.
pub proof fn lemma_forward_up_to_date<S, F: Fn(Formula<S>) -> S>(
    calc: F,
    ops: Seq<Operation>,
    root: usize,
    before: Seq<S>,
    after: Seq<S>,
)
    requires
        forwarded(calc, ops, root, before, after),
    ensures
        up_to_date(calc, ops, root, after),
{
    assert forall|n: usize| n < ops.len() && reaches(ops, root, n) implies computed(
        calc,
        ops[n as int],
        after,
        #[trigger] after[n as int],
    ) by {}
}

/// With arithmetic that gives one result only, the leaves decide: two
/// assignments of values that are up to date below `root` and give the leaves
/// that `root` reaches the same values give every node that `root` reaches the
/// same value.
pub proof fn lemma_leaves_decide<S, F: Fn(Formula<S>) -> S>(
    calc: F,
    ops: Seq<Operation>,
    root: usize,
    one: Seq<S>,
    other: Seq<S>,
    n: usize,
)
    requires
        acyclic(ops),
        deterministic(calc),
        up_to_date(calc, ops, root, one),
        up_to_date(calc, ops, root, other),
        forall|m: usize|
            m < ops.len() && reaches(ops, root, m) && ops[m as int] is Input ==> one[m as int]
                == other[m as int],
        n < ops.len(),
        reaches(ops, root, n),
    ensures
        one[n as int] == other[n as int],
    decreases n,
{
    let op = ops[n as int];
    if !(op is Input) {
        assert forall|k: int| 0 <= k < op.operands().len() implies one[(
        #[trigger] op.operands()[k]) as int] == other[op.operands()[k] as int] by {
            let o = ops[n as int].operands()[k];
            assert(o < n);
            assert(reaches(ops, o, o));
            assert(reaches(ops, n, o));
            lemma_reaches_trans(ops, root, n, o);
            lemma_leaves_decide(calc, ops, root, one, other, o);
        }
        assert(computed(calc, op, one, one[n as int]));
        assert(computed(calc, op, other, other[n as int]));
        lemma_computed_agrees(calc, op, one, other, one[n as int]);
        lemma_computed_unique(calc, op, other, one[n as int], other[n as int]);
    }
}

/// With arithmetic that gives one result only, a forward pass over values
/// that are up to date changes nothing: as long as no leaf is given a new
/// value, passes can be repeated at will.
pub proof fn lemma_forward_idempotent<S, F: Fn(Formula<S>) -> S>(
    calc: F,
    ops: Seq<Operation>,
    root: usize,
    before: Seq<S>,
    after: Seq<S>,
)
    requires
        acyclic(ops),
        deterministic(calc),
        before.len() == ops.len(),
        ops.len() <= usize::MAX,
        up_to_date(calc, ops, root, before),
        forwarded(calc, ops, root, before, after),
    ensures
        after == before,
{
    lemma_forward_up_to_date(calc, ops, root, before, after);
    assert forall|i: int| 0 <= i < before.len() implies after[i] == before[i] by {
        let n = i as usize;
        assert(after[n as int] == after[i]);
        if reaches(ops, root, n) {
            lemma_leaves_decide(calc, ops, root, after, before, n);
        }
    }
    assert(after =~= before);
}

/// The gradients `after` are the gradients `before` with the backward step
/// taken from each node of `order` in turn.
pub open spec fn stepped<S, F: Fn(Formula<S>) -> S>(
    calc: F,
    ops: Seq<Operation>,
    values: Seq<S>,
    before: Seq<S>,
    order: Seq<usize>,
    after: Seq<S>,
) -> bool
    decreases order.len(),
{
    if order.len() == 0 {
        after == before
    } else {
        exists|mid: Seq<S>|
            stepped(calc, ops, values, before, order.drop_last(), mid) && #[trigger] pushed(
                calc,
                values,
                mid,
                ops[order.last() as int].pushes(order.last()),
                after,
            )
    }
}

/// To make the contributions of the plan of an order is to take the backward
/// step from each node of the order in turn: a backward pass does what the
/// single steps do, taken from the nodes in the order of their discovery.
pub proof fn lemma_plan_is_steps<S, F: Fn(Formula<S>) -> S>(
    calc: F,
    ops: Seq<Operation>,
    values: Seq<S>,
    before: Seq<S>,
    order: Seq<usize>,
    after: Seq<S>,
)
    ensures
        pushed(calc, values, before, plan(ops, order), after) <==> stepped(
            calc,
            ops,
            values,
            before,
            order,
            after,
        ),
    decreases order.len(),
{
    if order.len() > 0 {
        let head = order.drop_last();
        let step = ops[order.last() as int].pushes(order.last());
        assert(plan(ops, order) == plan(ops, head) + step);
        if pushed(calc, values, before, plan(ops, order), after) {
            let mid = lemma_pushed_split(calc, values, before, plan(ops, head), step, after);
            lemma_plan_is_steps(calc, ops, values, before, head, mid);
            assert(pushed(calc, values, mid, step, after));
        }
        if stepped(calc, ops, values, before, order, after) {
            let mid = choose|mid: Seq<S>|
                stepped(calc, ops, values, before, head, mid) && #[trigger] pushed(
                    calc,
                    values,
                    mid,
                    step,
                    after,
                );
            lemma_plan_is_steps(calc, ops, values, before, head, mid);
            lemma_pushed_append(calc, values, before, plan(ops, head), mid, step, after);
        }
    }
}

/// With arithmetic that gives one result only, a reset leaves every node that
/// `root` reaches with the gradient `zero`, the one that a new node starts
/// with: a backward pass after a reset starts from what it would start from on
/// a tape that was just built.
pub proof fn lemma_cleared_as_new<S, F: Fn(Formula<S>) -> S>(
    calc: F,
    ops: Seq<Operation>,
    root: usize,
    before: Seq<S>,
    after: Seq<S>,
    zero: S,
)
    requires
        deterministic(calc),
        gives(calc, Formula::Zero, zero),
        cleared(calc, ops, root, before, after),
    ensures
        forall|n: usize| n < ops.len() && reaches(ops, root, n) ==> #[trigger] after[n as int] == zero,
{
}

/// Contributions add up. Let two sums, `y1` and `y2`, have the node `x` as
/// their first operand, and let the backward step be taken from `y1` and then
/// from `y2`. Then `x` has gathered what it had, plus the gradient of `y1`,
/// plus the gradient of `y2`: the second contribution is added to the first
/// and does not replace it.
pub proof fn lemma_contributions_add_up<S, F: Fn(Formula<S>) -> S>(
    calc: F,
    values: Seq<S>,
    before: Seq<S>,
    after: Seq<S>,
    x: usize,
    c1: usize,
    c2: usize,
    y1: usize,
    y2: usize,
)
    requires
        x != c1 && x != c2 && x != y1 && x != y2 && c1 != y1 && c1 != y2 && c2 != y2,
        x < before.len() && c1 < before.len() && c2 < before.len() && y1 < before.len() && y2
            < before.len(),
        pushed(
            calc,
            values,
            before,
            (AddOperation { a: x, b: c1 }).pushes(y1) + (AddOperation { a: x, b: c2 }).pushes(y2),
            after,
        ),
    ensures
        exists|mid: S|
            gives(calc, Formula::Sum(before[x as int], before[y1 as int]), mid) && #[trigger] gives(
                calc,
                Formula::Sum(mid, before[y2 as int]),
                after[x as int],
            ),
{
    let first_x = Push { target: x, source: y1, factor: Factor::One };
    let first_c = Push { target: c1, source: y1, factor: Factor::One };
    let second_x = Push { target: x, source: y2, factor: Factor::One };
    let second_c = Push { target: c2, source: y2, factor: Factor::One };
    let all = (AddOperation { a: x, b: c1 }).pushes(y1) + (AddOperation { a: x, b: c2 }).pushes(y2);
    assert(all =~= seq![first_x, first_c, second_x, second_c]);
    assert(all.drop_last() =~= seq![first_x, first_c, second_x]);
    assert(seq![first_x, first_c, second_x].drop_last() =~= seq![first_x, first_c]);
    assert(seq![first_x, first_c].drop_last() =~= seq![first_x]);
    assert(seq![first_x].drop_last() =~= Seq::<Push>::empty());
    reveal_with_fuel(pushed, 5);
    let g3 = choose|g: Seq<S>|
        pushed(calc, values, before, seq![first_x, first_c, second_x], g) && #[trigger] pushed_one(
            calc,
            values,
            g,
            second_c,
            after,
        );
    let g2 = choose|g: Seq<S>|
        pushed(calc, values, before, seq![first_x, first_c], g) && #[trigger] pushed_one(
            calc,
            values,
            g,
            second_x,
            g3,
        );
    let g1 = choose|g: Seq<S>|
        pushed(calc, values, before, seq![first_x], g) && #[trigger] pushed_one(
            calc,
            values,
            g,
            first_c,
            g2,
        );
    assert(pushed_one(calc, values, before, first_x, g1));
    let t1 = choose|t: S| #[trigger]
        scaled(calc, values, before[y1 as int], Factor::One, t) && gives(
            calc,
            Formula::Sum(before[x as int], t),
            g1[x as int],
        );
    let t3 = choose|t: S| #[trigger]
        scaled(calc, values, g2[y2 as int], Factor::One, t) && gives(
            calc,
            Formula::Sum(g2[x as int], t),
            g3[x as int],
        );
    assert(g2[x as int] == g1[x as int]);
    assert(g2[y2 as int] == before[y2 as int]);
    assert(after[x as int] == g3[x as int]);
    assert(gives(calc, Formula::Sum(g1[x as int], before[y2 as int]), after[x as int]));
}

} // verus!
