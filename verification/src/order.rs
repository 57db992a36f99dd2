//! The order in which a walk visits the nodes of a tree or a forest.

use vstd::prelude::*;
use crate::heap::Heap;
use crate::heap::NIL;
use crate::node::Node;
use crate::walk::Cursor;
use crate::walk::Direction;
use crate::walk::Nodes;
use crate::walk::Visit;
use crate::walk::VisitType;

verus! {

impl Cursor {
    /// The state after `n` steps forward.
    pub open spec fn steps<T>(self, heap: &Heap<T>, n: nat) -> Cursor
        decreases n,
    {
        if n == 0 {
            self
        } else {
            self.forward(heap).steps(heap, (n - 1) as nat)
        }
    }

    /// `a` steps and then `b` steps are `a + b` steps.
    pub proof fn steps_add<T>(self, heap: &Heap<T>, a: nat, b: nat)
        ensures
            self.steps(heap, a + b) == self.steps(heap, a).steps(heap, b),
        decreases a,
    {
        if a > 0 {
            self.forward(heap).steps_add(heap, (a - 1) as nat, b);
        }
    }

    /// No step changes where the walk began.
    pub proof fn steps_origin<T>(self, heap: &Heap<T>, n: nat)
        ensures
            self.steps(heap, n).origin == self.origin,
        decreases n,
    {
        if n > 0 {
            self.forward(heap).steps_origin(heap, (n - 1) as nat);
        }
    }

    /// Whether the walk has done with the node it stands at: the next step
    /// moves on to the right.
    pub open spec fn done<T>(self, heap: &Heap<T>) -> bool {
        &&& self.path.len() > 0
        &&& self.direction != Direction::Up
        &&& self.direction == Direction::Down ==> heap.kids(self.path.last().node).len() == 0
    }
}

impl<T> Heap<T> {
    /// The visits that are due to the children of `at` from position `j` on,
    /// in depth-first order: for every child, its `Leaf`, or its `Begin`,
    /// then what is due to its children, then its `End`.
    pub open spec fn events_from(&self, at: usize, j: int) -> Seq<Visit>
        decreases self.cnt(at), self.kids(at).len() - j,
        when self.wf() && self.live(at) && 0 <= j <= self.kids(at).len()
    {
        if j >= self.kids(at).len() {
            Seq::empty()
        } else {
            let x = self.kids(at)[j];
            proof {
                self.size_invariant(at);
                self.weight_ge(self.kids(at), j);
            }
            (if self.kids(x).len() == 0 {
                seq![Visit::Leaf(Node { at: x })]
            } else {
                seq![Visit::Begin(Node { at: x })] + self.events_from(x, 0) + seq![
                    Visit::End(Node { at: x }),
                ]
            }) + self.events_from(at, j + 1)
        }
    }

    /// The visits that are due to the subtree rooted at `at`, in depth-first
    /// order: a node with children is visited twice, before and after all
    /// that is below it, a node without children once.
    pub open spec fn events(&self, at: usize) -> Seq<Visit> {
        if self.kids(at).len() == 0 {
            seq![Visit::Leaf(Node { at })]
        } else {
            seq![Visit::Begin(Node { at })] + self.events_from(at, 0) + seq![Visit::End(Node { at })]
        }
    }

    /// The visits that are due to the trees rooted at the nodes of `run`
    /// from position `j` on, tree by tree.
    pub open spec fn events_of(&self, run: Seq<usize>, j: int) -> Seq<Visit>
        decreases run.len() - j,
    {
        if j < 0 || j >= run.len() {
            Seq::empty()
        } else {
            self.events(run[j]) + self.events_of(run, j + 1)
        }
    }

    /// What is due to the children of a node is what is due to the trees
    /// rooted at them.
    pub proof fn events_of_kids(&self, at: usize, j: int)
        requires
            self.wf(),
            self.live(at),
            0 <= j <= self.kids(at).len(),
        ensures
            self.events_from(at, j) == self.events_of(self.kids(at), j),
        decreases self.kids(at).len() - j,
    {
        if j < self.kids(at).len() {
            self.size_invariant(at);
            self.events_of_kids(at, j + 1);
        }
    }

    /// What is due to a node with children is its `Begin`, what is due to
    /// its first child, what is due to its other children, and its `End`.
    pub proof fn events_parts(&self, x: usize)
        requires
            self.wf(),
            self.live(x),
            self.kids(x).len() > 0,
        ensures
            self.events(x) == seq![Visit::Begin(Node { at: x })] + self.events(self.kids(x)[0]) + (
            self.events_of(self.kids(x), 1) + seq![Visit::End(Node { at: x })]),
            self.events(self.kids(x)[0]).len() >= 1,
            self.live(self.kids(x)[0]),
            self.cnt(self.kids(x)[0]) < self.cnt(x),
            forall|i: int| 0 <= i < self.kids(x).len() ==> self.cnt(#[trigger] self.kids(x)[i]) < self.cnt(
                x,
            ),
            self.ring(self.kids(x), x),
    {
        let ks = self.kids(x);
        assert(self.node_ok(x, 0, 0));
        self.size_invariant(x);
        self.events_of_kids(x, 0);
        self.events_of_kids(x, 1);
        assert forall|i: int| 0 <= i < ks.len() implies self.cnt(#[trigger] ks[i]) < self.cnt(x) by {
            self.weight_ge(ks, i);
        }
        assert(self.events(x) =~= seq![Visit::Begin(Node { at: x })] + self.events(ks[0]) + (
        self.events_of(ks, 1) + seq![Visit::End(Node { at: x })]));
    }

    /// A walk that has just arrived at `x` reports, step by step, the
    /// visits that are due to the subtree rooted at `x`, and then has done
    /// with `x`, at the level where it arrived.
    #[verifier::rlimit(30)]
    pub proof fn walk_subtree(&self, c: Cursor, x: usize, k: nat)
        requires
            self.wf(),
            self.live(x),
            c.path.len() > 0,
            c.path.last().node == x,
            c.visit_type == Cursor::arrival(self, x),
            c.direction != Direction::Up,
            self.kids(x).len() > 0 ==> c.direction == Direction::Down,
            k < self.events(x).len(),
        ensures
            c.steps(self, k).get() == Some(self.events(x)[k as int]),
            k == self.events(x).len() - 1 ==> c.steps(self, k).done(self) && c.steps(self, k).path
                == c.path,
        decreases self.cnt(x), self.kids(x).len() + 1, 0nat,
    {
        if k > 0 {
            // the node has children, and the walk goes down to the first
            let ks = self.kids(x);
            let c1 = c.forward(self);
            let head = ks[0];
            self.events_parts(x);
            assert(c1 == c.down(self));
            assert(c1.path.last() == Nodes { node: head, sentinel: head });
            let first = self.events(head);
            let rest = self.events_of(ks, 1) + seq![Visit::End(Node { at: x })];
            if k - 1 < first.len() {
                self.walk_subtree(c1, head, (k - 1) as nat);
                assert(self.events(x)[k as int] == first[k - 1]);
            } else {
                let a = (first.len() - 1) as nat;
                self.walk_subtree(c1, head, a);
                let c2 = c1.steps(self, a);
                let t = (k - 1 - a) as nat;
                assert(c2.path =~= c.path.push(Nodes { node: head, sentinel: head }));
                self.walk_ring(c2, ks, x, 0, t, self.cnt(x));
                c1.steps_add(self, a, t);
                assert(self.events(x)[k as int] == rest[t - 1]);
                assert(c2.path.drop_last() =~= c.path);
            }
        }
    }

    /// A walk that has done with the node at position `j` of the ring `ks`
    /// reports, step by step, the visits that are due to the nodes after it
    /// in the ring; then it leaves the level, and reports the `End` of the
    /// node of the level above, if there is one.
    #[verifier::rlimit(30)]
    pub proof fn walk_ring(&self, c: Cursor, ks: Seq<usize>, p: usize, j: int, t: nat, bound: int)
        requires
            self.wf(),
            self.ring(ks, p),
            0 <= j < ks.len(),
            forall|i: int| 0 <= i < ks.len() ==> self.cnt(#[trigger] ks[i]) < bound,
            c.path.len() >= 1,
            c.path.last() == (Nodes { node: ks[j], sentinel: ks[0] }),
            c.done(self),
            1 <= t <= self.events_of(ks, j + 1).len() + 1,
        ensures
            t <= self.events_of(ks, j + 1).len() ==> c.steps(self, t).get() == Some(
                self.events_of(ks, j + 1)[t - 1],
            ),
            t == self.events_of(ks, j + 1).len() + 1 ==> c.steps(self, t) == (Cursor {
                direction: Direction::Up,
                ..c
            }).up(),
        decreases bound, ks.len() - j, 1nat,
    {
        let n = ks.len();
        let x = ks[j];
        assert(self.sib_ok(ks, j, p));
        let c1 = c.forward(self);
        let r = Cursor { direction: Direction::Right, ..c };
        assert(c1 == r.right(self));
        let next = self.link(x).next;
        if j + 1 == n {
            // the ring has been gone round
            assert(next == ks[0]);
            assert(self.events_of(ks, j + 1) =~= Seq::<Visit>::empty());
            let m = Cursor { direction: Direction::Up, ..r.moved(next) };
            assert(c1 == m.up());
            assert(m.path.drop_last() =~= c.path.drop_last());
            assert(c.steps(self, 1) == c1.steps(self, 0));
        } else {
            let y = ks[j + 1];
            assert(next == y);
            assert(y != ks[0]);
            assert(self.sib_ok(ks, j + 1, p));
            let c1x = r.moved(y).arrived(self);
            assert(c1 == c1x);
            assert(c1.path.last() == Nodes { node: y, sentinel: ks[0] });
            let first = self.events(y);
            let rest = self.events_of(ks, j + 2);
            assert(self.events_of(ks, j + 1) == first + rest);
            if t - 1 < first.len() {
                self.walk_subtree(c1, y, (t - 1) as nat);
                assert(c.steps(self, t) == c1.steps(self, (t - 1) as nat));
            } else {
                let a = (first.len() - 1) as nat;
                self.walk_subtree(c1, y, a);
                let c2 = c1.steps(self, a);
                let u = (t - 1 - a) as nat;
                self.walk_ring(c2, ks, p, j + 1, u, bound);
                c1.steps_add(self, a, u);
                assert(c.steps(self, t) == c1.steps(self, (t - 1) as nat));
                if u <= rest.len() {
                    assert((first + rest)[t - 1] == rest[u - 1]);
                }
                assert(c2.path.drop_last() =~= c.path.drop_last());
                c1.steps_origin(self, a);
                assert((Cursor { direction: Direction::Up, ..c2 }).up() == (Cursor {
                    direction: Direction::Up,
                    ..c
                }).up());
            }
        }
    }
}

/// A walk that begins at the first of the roots `tops` of a forest reports,
/// step by step, the visits that are due to the trees in depth-first order,
/// tree by tree, the first of them before any step; then it is over. So
/// every node with children is visited twice, at its `Begin` and, after all
/// that is below it, at its `End`, and every node without children once.
pub proof fn forest_walk_is_depth_first<T>(heap: &Heap<T>, tops: Seq<usize>, k: nat)
    requires
        heap.wf(),
        heap.ring(tops, NIL),
        tops.len() > 0,
        k <= heap.events_of(tops, 0).len(),
    ensures
        Cursor::set_on(heap, Nodes { node: tops[0], sentinel: tops[0] }).steps(heap, k).get() == (if k
            < heap.events_of(tops, 0).len() {
            Some(heap.events_of(tops, 0)[k as int])
        } else {
            None
        }),
{
    let first = tops[0];
    let c = Cursor::set_on(heap, Nodes { node: first, sentinel: first });
    assert(heap.sib_ok(tops, 0, NIL));
    assert(c.path.last() == Nodes { node: first, sentinel: first });
    assert(c.path =~= seq![Nodes { node: first, sentinel: first }]);
    let head = heap.events(first);
    let rest = heap.events_of(tops, 1);
    assert(heap.events_of(tops, 0) == head + rest);
    if k < head.len() {
        heap.walk_subtree(c, first, k);
    } else {
        let a = (head.len() - 1) as nat;
        heap.walk_subtree(c, first, a);
        let d = c.steps(heap, a);
        let t = (k - a) as nat;
        c.steps_add(heap, a, t);
        heap.walk_ring(d, tops, NIL, 0, t, u32::MAX + 1);
        if t <= rest.len() {
            assert((head + rest)[k as int] == rest[t - 1]);
        } else {
            let m = Cursor { direction: Direction::Up, ..d };
            assert(m.path.drop_last() =~= Seq::<Nodes>::empty());
        }
    }
}

/// A walk that begins at the root of a tree reports, step by step, the visits
/// that are due to the tree in depth-first order, the first of them before
/// any step; then it is over.
pub proof fn walk_is_depth_first<T>(heap: &Heap<T>, root: usize, k: nat)
    requires
        heap.wf(),
        heap.ring(seq![root], NIL),
        k <= heap.events(root).len(),
    ensures
        Cursor::set_on(heap, Nodes { node: root, sentinel: root }).steps(heap, k).get() == (if k
            < heap.events(root).len() {
            Some(heap.events(root)[k as int])
        } else {
            None
        }),
{
    let tops = seq![root];
    assert(heap.events_of(tops, 1) =~= Seq::<Visit>::empty());
    assert(heap.events_of(tops, 0) =~= heap.events(root));
    forest_walk_is_depth_first(heap, tops, k);
}

} // verus!
