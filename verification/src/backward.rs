//! The worklist sweep that a backward pass and a reset share, and the plans
//! that they make of it.

use vstd::prelude::*;
use std::collections::HashSet;
use crate::forward::{lemma_push_contains, lemma_reaches_below};
use crate::graph::{acyclic, reaches, Graph};
use crate::value_ops::{Operation, Push};

verus! {

/// The state of a sweep over the graph.
pub struct Sweep {
    /// The nodes discovered so far, in the order of their discovery.
    pub order: Seq<usize>,
    /// The worklist: discovered nodes whose operands are still to be looked
    /// at. The node to take next is the last one.
    pub stack: Seq<usize>,
}

/// A node is offered: if it was not discovered before, it is now, and joins
/// the worklist.
pub open spec fn offer(s: Sweep, p: usize) -> Sweep {
    if s.order.contains(p) {
        s
    } else {
        Sweep { order: s.order.push(p), stack: s.stack.push(p) }
    }
}

/// The nodes of `deps` are offered one after the other.
pub open spec fn offer_all(s: Sweep, deps: Seq<usize>) -> Sweep
    decreases deps.len(),
{
    if deps.len() == 0 {
        s
    } else {
        offer(offer_all(s, deps.drop_last()), deps.last())
    }
}

/// One round: the last node leaves the worklist and its operands are offered
/// in order. With an empty worklist nothing changes.
pub open spec fn round(ops: Seq<Operation>, s: Sweep) -> Sweep {
    if s.stack.len() == 0 || s.stack.last() >= ops.len() {
        s
    } else {
        offer_all(
            Sweep { order: s.order, stack: s.stack.drop_last() },
            ops[s.stack.last() as int].operands(),
        )
    }
}

/// The sweep from `root` after `k` rounds. It starts with `root` discovered
/// and on the worklist.
pub open spec fn sweep(ops: Seq<Operation>, root: usize, k: nat) -> Sweep
    decreases k,
{
    if k == 0 {
        Sweep { order: seq![root], stack: seq![root] }
    } else {
        round(ops, sweep(ops, root, (k - 1) as nat))
    }
}

/// The nodes that a sweep from `root` discovers, in the order of their
/// discovery. A node leaves the worklist once, so as many rounds as the graph
/// has nodes empty the worklist.
pub open spec fn discovered(ops: Seq<Operation>, root: usize) -> Seq<usize> {
    sweep(ops, root, ops.len()).order
}

/// The backward steps from the nodes of `order`, one after the other.
pub open spec fn plan(ops: Seq<Operation>, order: Seq<usize>) -> Seq<Push>
    decreases order.len(),
{
    if order.len() == 0 {
        Seq::empty()
    } else {
        plan(ops, order.drop_last()) + ops[order.last() as int].pushes(order.last())
    }
}

/// Reaching goes on: what a reached node reaches is reached.
pub proof fn lemma_reaches_trans(ops: Seq<Operation>, from: usize, mid: usize, to: usize)
    requires
        reaches(ops, from, mid),
        reaches(ops, mid, to),
    ensures
        reaches(ops, from, to),
    decreases from,
{
    if from != mid {
        let k = choose|k: int|
            0 <= k < ops[from as int].operands().len() && (
            #[trigger] ops[from as int].operands()[k]) < from && reaches(
                ops,
                ops[from as int].operands()[k],
                mid,
            );
        lemma_reaches_trans(ops, ops[from as int].operands()[k], mid, to);
    }
}

/// Distinct numbers below `n` are at most `n` many.
proof fn lemma_distinct_below(s: Seq<usize>, n: nat)
    requires
        forall|i: int| 0 <= i < s.len() ==> (#[trigger] s[i]) < n,
        forall|i: int, j: int| 0 <= i < j < s.len() ==> s[i] != s[j],
    ensures
        s.len() <= n,
    decreases n,
{
    if s.len() > 0 {
        if exists|i: int| 0 <= i < s.len() && s[i] == n - 1 {
            let i = choose|i: int| 0 <= i < s.len() && s[i] == n - 1;
            let t = s.remove(i);
            assert forall|j: int| 0 <= j < t.len() implies (#[trigger] t[j]) < n - 1 by {
                if j < i {
                    assert(t[j] == s[j]);
                } else {
                    assert(t[j] == s[j + 1]);
                }
            }
            assert forall|a: int, b: int| 0 <= a < b < t.len() implies t[a] != t[b] by {
                let a2 = if a < i { a } else { a + 1 };
                let b2 = if b < i { b } else { b + 1 };
                assert(t[a] == s[a2] && t[b] == s[b2]);
            }
            lemma_distinct_below(t, (n - 1) as nat);
        } else {
            assert(s[0] < n);
            lemma_distinct_below(s, (n - 1) as nat);
        }
    }
}

/// Every operand of node `x` is named in `order`.
pub open spec fn closed_at(ops: Seq<Operation>, order: Seq<usize>, x: usize) -> bool {
    forall|k: int|
        0 <= k < ops[x as int].operands().len() ==> order.contains(
            #[trigger] ops[x as int].operands()[k],
        )
}

/// A node that has the node at position `i` of `order` as an operand is named
/// before that position.
pub open spec fn has_consumer_before(ops: Seq<Operation>, order: Seq<usize>, i: int) -> bool {
    exists|j: int|
        0 <= j < i && j < order.len() && (#[trigger] order[j]) < ops.len() && ops[order[j] as int].operands().contains(
        order[i])
}

/// What holds of a sweep from `root` at any time: `root` was discovered
/// first; no node was discovered twice; every discovered node is reached from
/// `root` and, unless it is `root`, was discovered after a node that has it as
/// an operand; the worklist holds discovered nodes, none twice.
pub open spec fn sweep_sound(ops: Seq<Operation>, root: usize, s: Sweep) -> bool {
    &&& s.order.len() > 0
    &&& s.order[0] == root
    &&& forall|i: int| 0 <= i < s.order.len() ==> (#[trigger] s.order[i]) < ops.len()
    &&& forall|i: int, j: int| 0 <= i < j < s.order.len() ==> s.order[i] != s.order[j]
    &&& forall|i: int| 0 <= i < s.stack.len() ==> s.order.contains(#[trigger] s.stack[i])
    &&& forall|i: int, j: int| 0 <= i < j < s.stack.len() ==> s.stack[i] != s.stack[j]
    &&& forall|i: int| 0 <= i < s.order.len() ==> reaches(ops, root, #[trigger] s.order[i])
    &&& forall|i: int| 0 < i < s.order.len() ==> #[trigger] has_consumer_before(ops, s.order, i)
}

/// Every discovered node that is neither on the worklist nor `busy` has all
/// its operands discovered.
pub open spec fn settled_but(ops: Seq<Operation>, s: Sweep, busy: int) -> bool {
    forall|i: int|
        0 <= i < s.order.len() && s.order[i] != busy && !s.stack.contains(s.order[i])
            ==> closed_at(ops, s.order, #[trigger] s.order[i])
}

/// Every discovered node that is not on the worklist has all its operands
/// discovered.
pub open spec fn settled(ops: Seq<Operation>, s: Sweep) -> bool {
    settled_but(ops, s, -1)
}

/// The number of nodes that have left the worklist.
pub open spec fn taken(s: Sweep) -> int {
    s.order.len() - s.stack.len()
}

proof fn lemma_offer(ops: Seq<Operation>, root: usize, s: Sweep, n: usize, p: usize)
    requires
        acyclic(ops),
        sweep_sound(ops, root, s),
        settled_but(ops, s, n as int),
        s.order.contains(n),
        !s.stack.contains(n),
        ops[n as int].operands().contains(p),
    ensures
        sweep_sound(ops, root, offer(s, p)),
        settled_but(ops, offer(s, p), n as int),
        !offer(s, p).stack.contains(n),
        offer(s, p).order.contains(p),
        forall|x: usize| s.order.contains(x) ==> #[trigger] offer(s, p).order.contains(x),
        taken(offer(s, p)) == taken(s),
{
    let t = offer(s, p);
    if !s.order.contains(p) {
        let at = choose|i: int| 0 <= i < s.order.len() && s.order[i] == n;
        let k = choose|k: int|
            0 <= k < ops[n as int].operands().len() && ops[n as int].operands()[k] == p;
        assert(ops[n as int].operands()[k] < n);
        assert(t.order[s.order.len() as int] == p);
        assert forall|x: usize| s.order.contains(x) implies #[trigger] t.order.contains(x) by {
            let i = choose|i: int| 0 <= i < s.order.len() && s.order[i] == x;
            assert(t.order[i] == x);
        }
        assert(reaches(ops, root, p)) by {
            assert(reaches(ops, p, p));
            assert(reaches(ops, n, p));
            lemma_reaches_trans(ops, root, n, p);
        }
        assert forall|i: int| 0 < i < t.order.len() implies #[trigger] has_consumer_before(
            ops,
            t.order,
            i,
        ) by {
            if i < s.order.len() {
                assert(has_consumer_before(ops, s.order, i));
                let j = choose|j: int|
                    0 <= j < i && j < s.order.len() && (#[trigger] s.order[j]) < ops.len()
                        && ops[s.order[j] as int].operands().contains(s.order[i]);
                assert(t.order[j] == s.order[j]);
                assert(t.order[i] == s.order[i]);
            } else {
                assert(t.order[at] == n);
            }
        }
        assert forall|i: int| 0 <= i < t.stack.len() implies t.order.contains(
            #[trigger] t.stack[i],
        ) by {
            if i < s.stack.len() {
                assert(s.order.contains(s.stack[i]));
            }
        }
        assert forall|i: int, j: int| 0 <= i < j < t.stack.len() implies t.stack[i]
            != t.stack[j] by {
            if j == s.stack.len() {
                assert(s.order.contains(s.stack[i]));
            }
        }
        assert forall|i: int, j: int| 0 <= i < j < t.order.len() implies t.order[i]
            != t.order[j] by {
            if j == s.order.len() {
                assert(s.order.contains(s.order[i]));
            }
        }
        assert(!t.stack.contains(n)) by {
            if t.stack.contains(n) {
                let i = choose|i: int| 0 <= i < t.stack.len() && t.stack[i] == n;
                if i < s.stack.len() {
                    assert(s.stack[i] == n);
                }
            }
        }
        assert forall|i: int|
            0 <= i < t.order.len() && t.order[i] != n && !t.stack.contains(
                t.order[i],
            ) implies closed_at(ops, t.order, #[trigger] t.order[i]) by {
            if i < s.order.len() {
                let x = s.order[i];
                assert(t.order[i] == x);
                if s.stack.contains(x) {
                    let j = choose|j: int| 0 <= j < s.stack.len() && s.stack[j] == x;
                    assert(t.stack[j] == x);
                }
                assert(closed_at(ops, s.order, x));
            } else {
                assert(t.stack[s.stack.len() as int] == p);
            }
        }
    }
}

proof fn lemma_offer_all(ops: Seq<Operation>, root: usize, s: Sweep, n: usize, deps: Seq<usize>)
    requires
        acyclic(ops),
        sweep_sound(ops, root, s),
        settled_but(ops, s, n as int),
        s.order.contains(n),
        !s.stack.contains(n),
        forall|k: int| 0 <= k < deps.len() ==> ops[n as int].operands().contains(#[trigger] deps[k]),
    ensures
        sweep_sound(ops, root, offer_all(s, deps)),
        settled_but(ops, offer_all(s, deps), n as int),
        !offer_all(s, deps).stack.contains(n),
        forall|k: int| 0 <= k < deps.len() ==> offer_all(s, deps).order.contains(#[trigger] deps[k]),
        forall|x: usize| s.order.contains(x) ==> #[trigger] offer_all(s, deps).order.contains(x),
        taken(offer_all(s, deps)) == taken(s),
    decreases deps.len(),
{
    if deps.len() > 0 {
        let head = deps.drop_last();
        let mid = offer_all(s, head);
        assert forall|k: int| 0 <= k < head.len() implies ops[n as int].operands().contains(
            #[trigger] head[k],
        ) by {
            assert(head[k] == deps[k]);
        }
        lemma_offer_all(ops, root, s, n, head);
        assert(ops[n as int].operands().contains(deps[deps.len() - 1]));
        lemma_offer(ops, root, mid, n, deps.last());
        let t = offer(mid, deps.last());
        assert forall|k: int| 0 <= k < deps.len() implies t.order.contains(#[trigger] deps[k]) by {
            if k < head.len() {
                assert(mid.order.contains(head[k]));
            }
        }
    }
}

/// A round keeps a sweep sound and settled, drops no discovered node, and
/// takes one node from a worklist that holds any.
pub proof fn lemma_round(ops: Seq<Operation>, root: usize, s: Sweep)
    requires
        acyclic(ops),
        sweep_sound(ops, root, s),
        settled(ops, s),
    ensures
        sweep_sound(ops, root, round(ops, s)),
        settled(ops, round(ops, s)),
        forall|x: usize| s.order.contains(x) ==> #[trigger] round(ops, s).order.contains(x),
        taken(round(ops, s)) == if s.stack.len() == 0 {
            taken(s)
        } else {
            taken(s) + 1
        },
{
    if s.stack.len() > 0 {
        let n = s.stack.last();
        assert(s.order.contains(s.stack[s.stack.len() - 1]));
        let at = choose|i: int| 0 <= i < s.order.len() && s.order[i] == n;
        assert(s.order[at] < ops.len());
        let popped = Sweep { order: s.order, stack: s.stack.drop_last() };
        assert(!popped.stack.contains(n)) by {
            if popped.stack.contains(n) {
                let i = choose|i: int| 0 <= i < popped.stack.len() && popped.stack[i] == n;
                assert(s.stack[i] == n);
            }
        }
        assert(sweep_sound(ops, root, popped)) by {
            assert forall|i: int| 0 <= i < popped.stack.len() implies popped.order.contains(
                #[trigger] popped.stack[i],
            ) by {
                assert(popped.stack[i] == s.stack[i]);
            }
        }
        assert(settled_but(ops, popped, n as int)) by {
            assert forall|i: int|
                0 <= i < popped.order.len() && popped.order[i] != n && !popped.stack.contains(
                    popped.order[i],
                ) implies closed_at(ops, popped.order, #[trigger] popped.order[i]) by {
                let x = s.order[i];
                if s.stack.contains(x) {
                    let j = choose|j: int| 0 <= j < s.stack.len() && s.stack[j] == x;
                    assert(popped.stack[j] == x);
                }
            }
        }
        let deps = ops[n as int].operands();
        assert forall|k: int| 0 <= k < deps.len() implies ops[n as int].operands().contains(
            #[trigger] deps[k],
        ) by {}
        lemma_offer_all(ops, root, popped, n, deps);
        let t = offer_all(popped, deps);
        assert(closed_at(ops, t.order, n));
        assert(settled_but(ops, t, -1));
    }
}

/// After any number of rounds a sweep is sound and settled, and as long as
/// its worklist is not empty it has taken one node in every round.
pub proof fn lemma_sweep(ops: Seq<Operation>, root: usize, k: nat)
    requires
        acyclic(ops),
        root < ops.len(),
    ensures
        sweep_sound(ops, root, sweep(ops, root, k)),
        settled(ops, sweep(ops, root, k)),
        taken(sweep(ops, root, k)) <= k,
        sweep(ops, root, k).stack.len() > 0 ==> taken(sweep(ops, root, k)) == k,
    decreases k,
{
    if k == 0 {
        let s = sweep(ops, root, 0);
        assert(s.order[0] == root && s.stack[0] == root);
        assert(reaches(ops, root, root));
        assert(s.stack.contains(root));
    } else {
        let before = sweep(ops, root, (k - 1) as nat);
        lemma_sweep(ops, root, (k - 1) as nat);
        lemma_round(ops, root, before);
        if before.stack.len() > 0 {
            assert(before.order.contains(before.stack[before.stack.len() - 1]));
        }
    }
}

/// Once the worklist is empty, further rounds change nothing.
pub proof fn lemma_sweep_stable(ops: Seq<Operation>, root: usize, k: nat, later: nat)
    requires
        sweep(ops, root, k).stack.len() == 0,
        k <= later,
    ensures
        sweep(ops, root, later) == sweep(ops, root, k),
    decreases later,
{
    if k < later {
        lemma_sweep_stable(ops, root, k, (later - 1) as nat);
    }
}

/// As many rounds as the graph has nodes empty the worklist.
pub proof fn lemma_sweep_ends(ops: Seq<Operation>, root: usize)
    requires
        acyclic(ops),
        root < ops.len(),
    ensures
        sweep(ops, root, ops.len()).stack.len() == 0,
{
    let s = sweep(ops, root, ops.len());
    lemma_sweep(ops, root, ops.len());
    lemma_distinct_below(s.order, ops.len());
}

proof fn lemma_closed(ops: Seq<Operation>, order: Seq<usize>, x: usize, m: usize)
    requires
        forall|i: int| 0 <= i < order.len() ==> closed_at(ops, order, #[trigger] order[i]),
        order.contains(x),
        reaches(ops, x, m),
    ensures
        order.contains(m),
    decreases x,
{
    if x != m {
        let k = choose|k: int|
            0 <= k < ops[x as int].operands().len() && (#[trigger] ops[x as int].operands()[k])
                < x && reaches(ops, ops[x as int].operands()[k], m);
        let i = choose|i: int| 0 <= i < order.len() && order[i] == x;
        assert(closed_at(ops, order, order[i]));
        lemma_closed(ops, order, ops[x as int].operands()[k], m);
    }
}

/// What a sweep discovers: `root` first, then every other node that `root`
/// reaches and no further node, each once, and each after a node that has it
/// as an operand.
pub proof fn lemma_discovered(ops: Seq<Operation>, root: usize)
    requires
        acyclic(ops),
        root < ops.len(),
    ensures
        discovered(ops, root).len() > 0,
        discovered(ops, root)[0] == root,
        discovered(ops, root).no_duplicates(),
        forall|m: usize| #[trigger] discovered(ops, root).contains(m) <==> reaches(ops, root, m),
        forall|i: int|
            0 < i < discovered(ops, root).len() ==> #[trigger] has_consumer_before(
                ops,
                discovered(ops, root),
                i,
            ),
{
    let s = sweep(ops, root, ops.len());
    lemma_sweep(ops, root, ops.len());
    lemma_sweep_ends(ops, root);
    assert forall|i: int| 0 <= i < s.order.len() implies closed_at(
        ops,
        s.order,
        #[trigger] s.order[i],
    ) by {
        assert(!s.stack.contains(s.order[i]));
    }
    assert forall|m: usize| #[trigger] s.order.contains(m) <==> reaches(ops, root, m) by {
        if reaches(ops, root, m) {
            assert(s.order[0] == root);
            lemma_closed(ops, s.order, root, m);
        }
    }
}

/// Runs the sweep from `root`. `visited` holds the nodes discovered after
/// `root`; `root` itself is never offered, being an operand of nothing that it
/// reaches.
fn run_sweep(g: &Graph, root: usize) -> (order: Vec<usize>)
    requires
        g.wf(),
        g.contains(root),
    ensures
        order@ == discovered(g@, root),
{
    let mut visited: HashSet<usize> = HashSet::new();
    let mut order: Vec<usize> = Vec::new();
    order.push(root);
    let mut stack: Vec<usize> = Vec::new();
    stack.push(root);
    let ghost mut k: nat = 0;
    proof {
        assert(order@ =~= seq![root]);
        assert(stack@ =~= seq![root]);
        lemma_push_contains(Seq::empty(), root);
        assert(forall|x: usize| !Seq::<usize>::empty().contains(x));
    }
    while stack.len() > 0
        invariant
            g.wf(),
            g.contains(root),
            (Sweep { order: order@, stack: stack@ }) == sweep(g@, root, k),
            forall|x: usize| visited@.contains(x) <==> #[trigger] order@.contains(x) && x != root,
            k <= g@.len(),
        decreases g@.len() - k,
    {
        proof {
            lemma_sweep(g@, root, k);
            lemma_distinct_below(order@, g@.len());
            assert(order@.contains(stack@[stack@.len() - 1]));
        }
        let ghost before = Sweep { order: order@, stack: stack@ };
        let n = stack.pop().unwrap();
        let ghost popped = Sweep { order: order@, stack: stack@ };
        let deps = g.dependencies(n);
        let mut j: usize = 0;
        proof {
            let at = choose|i: int| 0 <= i < order@.len() && order@[i] == n;
            assert(reaches(g@, root, order@[at]));
            lemma_reaches_below(g@, root, n);
            assert(stack@ =~= before.stack.drop_last());
            assert(deps@.take(0) =~= Seq::<usize>::empty());
        }
        while j < deps.len()
            invariant
                g.wf(),
                n < g@.len(),
                n <= root,
                j <= deps@.len(),
                deps@ == g@[n as int].operands(),
                (Sweep { order: order@, stack: stack@ }) == offer_all(popped, deps@.take(j as int)),
                forall|x: usize|
                    visited@.contains(x) <==> #[trigger] order@.contains(x) && x != root,
            decreases deps@.len() - j,
        {
            let p = deps[j];
            proof {
                assert(g@[n as int].operands()[j as int] < n);
                assert(deps@.take(j + 1).drop_last() =~= deps@.take(j as int));
                assert(deps@.take(j + 1).last() == p);
                lemma_push_contains(order@, p);
            }
            let ghost had = visited@;
            if visited.insert(p) {
                order.push(p);
                stack.push(p);
            }
            proof {
                assert forall|x: usize|
                    visited@.contains(x) <==> #[trigger] order@.contains(x) && x != root by {
                    assert(visited@.contains(x) <==> had.contains(x) || x == p);
                }
            }
            j += 1;
        }
        proof {
            assert(deps@.take(deps@.len() as int) =~= deps@);
            k = k + 1;
        }
    }
    proof {
        lemma_sweep_stable(g@, root, k, g@.len());
    }
    order
}

impl Graph {
    /// The sweep from `root`: `root` and every node that `root` reaches, each
    /// once, in the order of discovery.
    pub fn discover(&self, root: usize) -> (r: Vec<usize>)
        requires
            self.wf(),
            self.contains(root),
        ensures
            r@ == discovered(self@, root),
            r@.len() > 0 && r@[0] == root,
            r@.no_duplicates(),
            forall|m: usize| #[trigger] r@.contains(m) <==> reaches(self@, root, m),
            forall|i: int| 0 <= i < r@.len() ==> (#[trigger] r@[i]) < self@.len(),
    {
        proof {
            lemma_discovered(self@, root);
            lemma_sweep(self@, root, self@.len());
        }
        run_sweep(self, root)
    }

    /// The backward pass from `root`, as a plan: the gradient contributions
    /// to make, in order.
    ///
    /// The pass takes the backward step from `root`, then sweeps: it takes a
    /// node from the worklist and takes the backward step from each of its
    /// operands that was not discovered before. So the step from a node is
    /// taken once, when the node is discovered, with the gradient that the
    /// node has gathered by then.
    pub fn backward_plan(&self, root: usize) -> (r: Vec<Push>)
        requires
            self.wf(),
            self.contains(root),
        ensures
            r@ == plan(self@, discovered(self@, root)),
            forall|k: int| 0 <= k < r@.len() ==> (#[trigger] r@[k]).within(self@.len()),
    {
        let g = self;
        let order = run_sweep(g, root);
        let mut out: Vec<Push> = Vec::new();
        let mut i: usize = 0;
        proof {
            lemma_discovered(g@, root);
            lemma_sweep(g@, root, g@.len());
            assert(order@.take(0) =~= Seq::<usize>::empty());
        }
        while i < order.len()
            invariant
                i <= order@.len(),
                g.wf(),
                order@ == discovered(g@, root),
                forall|a: int| 0 <= a < order@.len() ==> (#[trigger] order@[a]) < g@.len(),
                out@ == plan(g@, order@.take(i as int)),
                forall|k: int| 0 <= k < out@.len() ==> (#[trigger] out@[k]).within(g@.len()),
            decreases order@.len() - i,
        {
            let n = order[i];
            let step = g.back(n);
            let ghost head = out@;
            let mut j: usize = 0;
            proof {
                g.lemma_back_within(n);
            }
            while j < step.len()
                invariant
                    j <= step@.len(),
                    out@ == head + step@.take(j as int),
                    forall|k: int| 0 <= k < step@.len() ==> (#[trigger] step@[k]).within(g@.len()),
                    forall|k: int| 0 <= k < out@.len() ==> (#[trigger] out@[k]).within(g@.len()),
                decreases step@.len() - j,
            {
                out.push(step[j]);
                proof {
                    assert(step@.take(j + 1) =~= step@.take(j as int).push(step@[j as int]));
                    assert(head + step@.take(j + 1) =~= (head + step@.take(j as int)).push(
                        step@[j as int],
                    ));
                }
                j += 1;
            }
            proof {
                assert(step@.take(step@.len() as int) =~= step@);
                assert(order@.take(i + 1).drop_last() =~= order@.take(i as int));
                assert(order@.take(i + 1).last() == n);
            }
            i += 1;
        }
        proof {
            assert(order@.take(order@.len() as int) =~= order@);
        }
        out
    }
}

} // verus!
