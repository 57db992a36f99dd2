//! Laws that hold of the operations on nodes, trees and forests.

use vstd::prelude::*;
use crate::heap::Heap;
use crate::heap::NIL;
use crate::iter::Iter;
use crate::size::Size;
use crate::tree::Tree;

verus! {

impl<T> Heap<T> {
    /// In a heap at rest, the degree of every node is the number of its
    /// children, and its node count is one more than the sum of the node
    /// counts of its children. Every operation that changes a heap leaves it
    /// at rest, so this holds at every node, at every level above a change,
    /// as soon as the operation returns.
    pub proof fn size_invariant(&self, v: usize)
        requires
            self.wf(),
            self.live(v),
        ensures
            self.deg(v) == self.kids(v).len(),
            self.cnt(v) == 1 + self.weight(self.kids(v)),
            forall|j: int| 0 <= j < self.kids(v).len() ==> self.live(#[trigger] self.kids(v)[j]),
    {
        assert(self.node_ok(v, 0, 0));
        assert forall|j: int| 0 <= j < self.kids(v).len() implies self.live(#[trigger] self.kids(v)[j]) by {
            assert(self.sib_ok(self.kids(v), j, v));
        }
    }

    /// Two heaps at rest in which a node has the same parent and that parent
    /// the same children give the node the same neighbours.
    pub proof fn same_siblings(&self, o: &Heap<T>, i: usize)
        requires
            self.wf(),
            o.wf(),
            self.live(i),
            o.live(i),
            self.link(i).parent == o.link(i).parent,
            self.link(i).parent != NIL,
            self.kids(self.link(i).parent) == o.kids(self.link(i).parent),
        ensures
            self.link(i).next == o.link(i).next,
            self.link(i).prev == o.link(i).prev,
    {
        let p = self.link(i).parent;
        assert(self.node_ok(i, 0, 0));
        assert(o.node_ok(i, 0, 0));
        assert(self.node_ok(p, 0, 0));
        assert(o.node_ok(p, 0, 0));
        let ks = self.kids(p);
        let j = choose|j: int| 0 <= j < ks.len() && ks[j] == i;
        assert(self.sib_ok(ks, j, p));
        assert(o.sib_ok(ks, j, p));
    }

    /// Two heaps at rest in which a node has the same children give it the
    /// same last child.
    pub proof fn same_child(&self, o: &Heap<T>, i: usize)
        requires
            self.wf(),
            o.wf(),
            self.live(i),
            o.live(i),
            self.kids(i) == o.kids(i),
        ensures
            self.link(i).child == o.link(i).child,
    {
        assert(self.node_ok(i, 0, 0));
        assert(o.node_ok(i, 0, 0));
    }
}

/// Putting a tree under a node and taking the child at that end out again
/// restores the heap: the node has the size and the children it had, the
/// tree that comes out is the tree that was put in, and every node of the
/// heap has the payload, the children and the header it had.
pub proof fn push_pop_inverse<T>(
    h0: &Heap<T>,
    h1: &Heap<T>,
    h2: &Heap<T>,
    at: usize,
    tree: Tree,
    front: bool,
)
    requires
        h0.wf(),
        h0.live(at),
        tree.wf(h0),
        h0.takes(at, seq![tree@]),
        h1.wf(),
        h1.grafted(h0, at, seq![tree@], front),
        h2.wf(),
        h2.pruned(
            h1,
            at,
            if front {
                0
            } else {
                h1.kids(at).len() - 1
            },
        ),
    ensures
        h1.kids(at)[if front {
            0
        } else {
            h1.kids(at).len() - 1
        }] == tree@,
        h2.kids(at) == h0.kids(at),
        h2.link(at).size == h0.link(at).size,
        tree.wf(h2),
        forall|i: usize|
            #![trigger h2.live(i)]
            #![trigger h2.link(i)]
            #![trigger h2.kids(i)]
            #![trigger h2.payload(i)]
            {
                &&& h2.live(i) == h0.live(i)
                &&& h2.payload(i) == h0.payload(i)
                &&& h2.kids(i) == h0.kids(i)
                &&& h0.live(i) ==> h2.link(i) == h0.link(i)
            },
{
    let t = tree@;
    let run = seq![t];
    let ks = h0.kids(at);
    let j = if front {
        0
    } else {
        h1.kids(at).len() - 1
    };
    assert(h0.sib_ok(run, 0, NIL));
    h0.graft_ready(at, run);
    assert(run[0] == t);
    assert(!h0.above(t, at));
    assert(forall|i: usize| run.contains(i) == (i == t)) by {
        assert forall|i: usize| run.contains(i) == (i == t) by {
            if i == t {
                assert(run[0] == i);
            }
        }
    }
    h1.wf_is_ranked(NIL, 0, 0, NIL, 0);
    assert(h1.kids(at)[j] == t);
    assert(h1.kids(at).remove(j) =~= ks);
    assert(h1.live(at) == h0.live(at));
    assert forall|y: usize| #[trigger] h0.above(y, at) implies h1.live(y) && h1.link(y).parent == h0.link(
        y,
    ).parent by {
        h0.above_rank(y, at);
        assert(h1.live(y) == h0.live(y));
    }
    assert(h1.link(t).size.node_cnt == h0.cnt(t)) by {
        assert(h1.cnt(t) == h0.cnt(t) + (if h0.above(t, at) {
            h0.weight(run)
        } else {
            0
        }));
    }
    assert forall|i: usize|
        #![trigger h2.live(i)]
        #![trigger h2.link(i)]
        #![trigger h2.kids(i)]
        #![trigger h2.payload(i)]
        {
            &&& h2.live(i) == h0.live(i)
            &&& h2.payload(i) == h0.payload(i)
            &&& h2.kids(i) == h0.kids(i)
            &&& h0.live(i) ==> h2.link(i) == h0.link(i)
        } by {
        assert(h1.live(i) == h0.live(i));
        assert(h2.live(i) == h1.live(i));
        assert(h1.payload(i) == h0.payload(i));
        assert(h1.kids(i) == (if i == at {
            h1.kids(at)
        } else {
            h0.kids(i)
        }));
        assert(h2.kids(i) == h0.kids(i));
        if h0.live(i) {
            h0.above_same(h1, i, at);
            assert(h1.cnt(i) == h0.cnt(i) + (if h0.above(i, at) {
                h0.weight(run)
            } else {
                0
            }));
            assert(h2.cnt(i) == h1.cnt(i) - (if h1.above(i, at) {
                h1.cnt(t)
            } else {
                0
            }));
            assert(h1.deg(i) == h0.deg(i) + (if i == at {
                1int
            } else {
                0
            }));
            assert(h2.deg(i) == h1.deg(i) - (if i == at {
                1int
            } else {
                0
            }));
            assert(h2.link(i).size == h0.link(i).size);
            assert(h2.link(i).parent == h0.link(i).parent);
            h2.same_child(h0, i);
            if h0.link(i).parent != NIL {
                assert(h2.kids(h0.link(i).parent) == h0.kids(h0.link(i).parent)) by {
                    let p = h0.link(i).parent;
                    assert(h1.kids(p) == (if p == at {
                        h1.kids(at)
                    } else {
                        h0.kids(p)
                    }));
                }
                h2.same_siblings(h0, i);
            } else {
                if i != t {
                    assert(h1.link(i).next == h0.link(i).next);
                    assert(h1.link(i).parent == NIL);
                }
            }
        }
    }
}

/// Taking all children out of a root that has none changes nothing: the
/// forest that comes out is empty, and the root keeps the size `(0, 1)`.
pub proof fn abandon_of_leaf<T>(h0: &Heap<T>, h1: &Heap<T>, tree: Tree)
    requires
        h0.wf(),
        tree.wf(h0),
        h0.kids(tree@).len() == 0,
        h1.stripped(h0, tree@),
    ensures
        h1.kids(tree@) == h0.kids(tree@),
        h1.link(tree@).size == (Size { degree: 0, node_cnt: 1 }),
        forall|i: usize|
            #![trigger h1.live(i)]
            #![trigger h1.link(i)]
            #![trigger h1.kids(i)]
            #![trigger h1.payload(i)]
            {
                &&& h1.live(i) == h0.live(i)
                &&& h1.payload(i) == h0.payload(i)
                &&& h1.kids(i) == h0.kids(i)
                &&& h1.link(i) == h0.link(i)
            },
{
    let at = tree@;
    assert(h0.node_ok(at, 0, 0));
    assert(h1.kids(at) =~= h0.kids(at));
    assert(h0.weight(h0.kids(at)) == 0);
    assert forall|i: usize| !h0.kids(at).contains(i) by {}
}

/// The number of calls of `next` that hand out a node, for an iterator that
/// has the nodes `rest` still to come: every such call takes the first node
/// off, and the call after the last gives nothing.
pub open spec fn calls_left(rest: Seq<usize>) -> nat
    decreases rest.len(),
{
    if rest.len() == 0 {
        0
    } else {
        1 + calls_left(rest.drop_first())
    }
}

/// The number of calls of `next` that hand out a node is the number of
/// nodes still to come.
pub proof fn calls_left_is_len(rest: Seq<usize>)
    ensures
        calls_left(rest) == rest.len(),
    decreases rest.len(),
{
    if rest.len() > 0 {
        calls_left_is_len(rest.drop_first());
    }
}

/// The count that an iterator over siblings reports is the number of calls
/// of `next` that it takes to use it up, whatever the length of the run, an
/// empty run included.
pub proof fn iterator_is_exact<T>(heap: &Heap<T>, iter: Iter)
    requires
        iter.wf(heap),
    ensures
        iter.count() == calls_left(iter@),
{
    calls_left_is_len(iter@);
}

} // verus!
