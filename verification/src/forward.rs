//! The order in which a forward pass recomputes values.

use vstd::prelude::*;
use std::collections::HashSet;
use crate::graph::{acyclic, reaches, Graph};
use crate::value_ops::Operation;

verus! {

/// The schedule `done`, followed by what node `n` still needs: the operands
/// of `n` that are not scheduled yet, each after its own operands, and then
/// `n` itself. Nothing is added where `n` is scheduled already. An operation
/// has two operands at most.
pub open spec fn extend(ops: Seq<Operation>, n: usize, done: Seq<usize>) -> Seq<usize>
    decreases n,
{
    if done.contains(n) || n >= ops.len() {
        done
    } else {
        let d = ops[n as int].operands();
        let first = if d.len() >= 1 && d[0] < n {
            extend(ops, d[0], done)
        } else {
            done
        };
        let second = if d.len() >= 2 && d[1] < n {
            extend(ops, d[1], first)
        } else {
            first
        };
        second.push(n)
    }
}

/// The nodes whose value a forward pass from `root` recomputes, in the order
/// in which it does so.
pub open spec fn forward_order(ops: Seq<Operation>, root: usize) -> Seq<usize> {
    extend(ops, root, Seq::empty())
}

/// A schedule names nodes of the graph, names none twice, and names a node
/// only after all of its operands.
pub open spec fn operands_first(ops: Seq<Operation>, s: Seq<usize>) -> bool {
    &&& forall|i: int| 0 <= i < s.len() ==> (#[trigger] s[i]) < ops.len()
    &&& forall|i: int, j: int| 0 <= i < j < s.len() ==> s[i] != s[j]
    &&& forall|i: int, k: int|
        0 <= i < s.len() && 0 <= k < ops[s[i] as int].operands().len() ==> named_before(
            s,
            i,
            #[trigger] ops[s[i] as int].operands()[k],
        )
}

/// Node `x` is named in `s` before position `i`.
pub open spec fn named_before(s: Seq<usize>, i: int, x: usize) -> bool {
    exists|j: int| 0 <= j < i && j < s.len() && #[trigger] s[j] == x
}

/// `a` is the beginning of `b`.
pub open spec fn begins(a: Seq<usize>, b: Seq<usize>) -> bool {
    &&& a.len() <= b.len()
    &&& forall|i: int| 0 <= i < a.len() ==> a[i] == b[i]
}

/// A schedule that names every node after its operands holds, with a node,
/// all that the node reaches.
pub proof fn lemma_schedule_closed(ops: Seq<Operation>, s: Seq<usize>, x: usize, m: usize)
    requires
        acyclic(ops),
        operands_first(ops, s),
        s.contains(x),
        reaches(ops, x, m),
    ensures
        s.contains(m),
    decreases x,
{
    if x != m {
        let k = choose|k: int|
            0 <= k < ops[x as int].operands().len() && (#[trigger] ops[x as int].operands()[k])
                < x && reaches(ops, ops[x as int].operands()[k], m);
        let i = choose|i: int| 0 <= i < s.len() && s[i] == x;
        let o = ops[s[i] as int].operands()[k];
        assert(named_before(s, i, o));
        assert(s.contains(o));
        lemma_schedule_closed(ops, s, o, m);
    }
}

/// What `extend` adds to a schedule: it keeps the schedule as its beginning,
/// keeps it a schedule, and adds exactly the nodes that `n` reaches and that
/// were missing, `n` last.
pub proof fn lemma_extend(ops: Seq<Operation>, n: usize, done: Seq<usize>)
    requires
        acyclic(ops),
        n < ops.len(),
        operands_first(ops, done),
    ensures
        begins(done, extend(ops, n, done)),
        operands_first(ops, extend(ops, n, done)),
        extend(ops, n, done).contains(n),
        forall|m: usize| #[trigger]
            extend(ops, n, done).contains(m) <==> done.contains(m) || reaches(ops, n, m),
        !done.contains(n) ==> extend(ops, n, done).last() == n,
    decreases n,
{
    let e = extend(ops, n, done);
    if done.contains(n) {
        assert forall|m: usize| reaches(ops, n, m) implies done.contains(m) by {
            lemma_schedule_closed(ops, done, n, m);
        }
    } else {
        let d = ops[n as int].operands();
        assert(d.len() <= 2);
        assert(forall|k: int| 0 <= k < d.len() ==> (#[trigger] ops[n as int].operands()[k]) < n);
        let first = if d.len() >= 1 {
            extend(ops, d[0], done)
        } else {
            done
        };
        if d.len() >= 1 {
            assert(ops[n as int].operands()[0] < n);
            lemma_extend(ops, d[0], done);
        }
        let second = if d.len() >= 2 {
            extend(ops, d[1], first)
        } else {
            first
        };
        if d.len() >= 2 {
            assert(ops[n as int].operands()[1] < n);
            lemma_extend(ops, d[1], first);
        }
        assert(e == second.push(n));
        assert(begins(done, second));
        assert(operands_first(ops, second));
        // nothing that is scheduled reaches `n`, so `n` is new
        assert(!second.contains(n)) by {
            if second.contains(n) {
                if d.len() >= 1 && reaches(ops, d[0], n) {
                    lemma_reaches_below(ops, d[0], n);
                } else if d.len() >= 2 && reaches(ops, d[1], n) {
                    lemma_reaches_below(ops, d[1], n);
                }
            }
        }
        assert forall|k: int| 0 <= k < d.len() implies second.contains(#[trigger] d[k]) by {
            if k == 0 {
                assert(first.contains(d[0]));
            }
        }
        assert(e.contains(n)) by {
            assert(e[second.len() as int] == n);
        }
        assert(operands_first(ops, e)) by {
            assert forall|i: int, k: int|
                0 <= i < e.len() && 0 <= k < ops[e[i] as int].operands().len() implies named_before(
                e,
                i,
                #[trigger] ops[e[i] as int].operands()[k],
            ) by {
                if i < second.len() {
                    assert(e[i] == second[i]);
                    assert(named_before(second, i, ops[second[i] as int].operands()[k]));
                    let j = choose|j: int|
                        0 <= j < i && j < second.len() && #[trigger] second[j]
                            == ops[second[i] as int].operands()[k];
                    assert(e[j] == second[j]);
                } else {
                    let j = choose|j: int| 0 <= j < second.len() && second[j] == d[k];
                    assert(e[j] == d[k]);
                }
            }
            assert forall|i: int, j: int| 0 <= i < j < e.len() implies e[i] != e[j] by {
                if j == second.len() {
                    assert(second.contains(e[i]));
                }
            }
        }
        assert forall|m: usize| e.contains(m) <==> done.contains(m) || reaches(ops, n, m) by {
            if e.contains(m) {
                let i = choose|i: int| 0 <= i < e.len() && e[i] == m;
                if i < second.len() {
                    assert(second.contains(m));
                    if !done.contains(m) {
                        let k: int = if d.len() >= 1 && reaches(ops, d[0], m) {
                            0
                        } else {
                            1
                        };
                        assert(reaches(ops, ops[n as int].operands()[k], m));
                    }
                }
            }
            if done.contains(m) {
                let i = choose|i: int| 0 <= i < done.len() && done[i] == m;
                assert(e[i] == m);
            }
            if reaches(ops, n, m) && m != n {
                let k = choose|k: int|
                    0 <= k < d.len() && (#[trigger] ops[n as int].operands()[k]) < n && reaches(
                        ops,
                        ops[n as int].operands()[k],
                        m,
                    );
                assert(second.contains(m));
                let i = choose|i: int| 0 <= i < second.len() && second[i] == m;
                assert(e[i] == m);
            }
        }
    }
}

/// A node reaches itself and nodes that stand before it, no others.
pub proof fn lemma_reaches_below(ops: Seq<Operation>, from: usize, to: usize)
    requires
        reaches(ops, from, to),
    ensures
        to <= from,
    decreases from,
{
    if from != to {
        let k = choose|k: int|
            0 <= k < ops[from as int].operands().len() && (
            #[trigger] ops[from as int].operands()[k]) < from && reaches(
                ops,
                ops[from as int].operands()[k],
                to,
            );
        lemma_reaches_below(ops, ops[from as int].operands()[k], to);
    }
}

/// A sequence with one more element holds that element and what it held.
pub(crate) proof fn lemma_push_contains(s: Seq<usize>, p: usize)
    ensures
        forall|x: usize| #[trigger] s.push(p).contains(x) <==> s.contains(x) || x == p,
{
    assert forall|x: usize| #[trigger] s.push(p).contains(x) <==> s.contains(x) || x == p by {
        assert(s.push(p)[s.len() as int] == p);
        if s.contains(x) {
            let j = choose|j: int| 0 <= j < s.len() && s[j] == x;
            assert(s.push(p)[j] == x);
        }
        if s.push(p).contains(x) && x != p {
            let j = choose|j: int| 0 <= j < s.push(p).len() && s.push(p)[j] == x;
            assert(s[j] == x);
        }
    }
}

/// Schedules node `n` and what it still needs. `seen` holds the nodes that
/// `out` names.
fn visit(g: &Graph, n: usize, seen: &mut HashSet<usize>, out: &mut Vec<usize>)
    requires
        g.wf(),
        g.contains(n),
        forall|x: usize| old(seen)@.contains(x) <==> #[trigger] old(out)@.contains(x),
    ensures
        final(out)@ == extend(g@, n, old(out)@),
        forall|x: usize| final(seen)@.contains(x) <==> #[trigger] final(out)@.contains(x),
    decreases n,
{
    if seen.contains(&n) {
        return ;
    }
    let deps = g.dependencies(n);
    proof {
        assert(forall|k: int|
            0 <= k < deps@.len() ==> (#[trigger] g@[n as int].operands()[k]) < n);
    }
    if deps.len() >= 1 {
        assert(g@[n as int].operands()[0] < n);
        visit(g, deps[0], seen, out);
    }
    if deps.len() >= 2 {
        assert(g@[n as int].operands()[1] < n);
        visit(g, deps[1], seen, out);
    }
    proof {
        lemma_push_contains(out@, n);
    }
    seen.insert(n);
    out.push(n);
}

impl Graph {
    /// The forward pass from `root`, as a schedule: the nodes to recompute,
    /// in order. It names `root` and every node that `root` reaches, each
    /// once and each after its operands, `root` last. Recomputing the value
    /// of each derived node of the schedule in turn, from the values that its
    /// operands then have, brings the value of `root` up to date with the
    /// leaves; the value of a leaf is left as it is.
    pub fn forward_schedule(&self, root: usize) -> (r: Vec<usize>)
        requires
            self.wf(),
            self.contains(root),
        ensures
            r@ == forward_order(self@, root),
            operands_first(self@, r@),
            forall|m: usize| #[trigger] r@.contains(m) <==> reaches(self@, root, m),
            r@.last() == root,
    {
        let mut seen: HashSet<usize> = HashSet::new();
        let mut out: Vec<usize> = Vec::new();
        proof {
            assert(forall|x: usize| !Seq::<usize>::empty().contains(x));
        }
        visit(self, root, &mut seen, &mut out);
        proof {
            lemma_extend(self@, root, Seq::empty());
            assert forall|m: usize| #[trigger] out@.contains(m) <==> reaches(self@, root, m) by {
                assert(!Seq::<usize>::empty().contains(m));
            }
        }
        out
    }
}

} // verus!
