//! Iteration over the children of a node that can change them on the way.

use vstd::prelude::*;
use crate::heap::Heap;
use crate::heap::NIL;
use crate::node::Node;
use crate::tree::Tree;

verus! {

/// An iterator over the children of a node, first to last, through which a
/// sibling can be put before or after the child that was handed out last,
/// and through which that child can be taken out. The iterator names the
/// child to come, the child handed out last, the last child and the parent,
/// and keeps them in step with every change made through it. A sibling that
/// is put in is not handed out.
pub struct OntoIter {
    next: usize,
    curr: usize,
    child: usize,
    parent: usize,
    len: usize,
    pos: Ghost<int>,
    at: Ghost<int>,
}

impl OntoIter {
    /// The node whose children the iterator goes over.
    pub closed spec fn parent_at(&self) -> usize {
        self.parent
    }

    /// The child to come, or [`NIL`].
    pub closed spec fn next_at(&self) -> usize {
        self.next
    }

    /// The child handed out last, unless it was taken out since; else
    /// [`NIL`].
    pub closed spec fn current(&self) -> usize {
        self.curr
    }

    /// The last child, or [`NIL`].
    pub closed spec fn tail_at(&self) -> usize {
        self.child
    }

    /// The number of children that the iterator reports as still to come.
    pub closed spec fn count(&self) -> usize {
        self.len
    }

    /// The number of children that stand before the child to come.
    pub closed spec fn place(&self) -> int {
        self.pos@
    }

    /// The position of the child handed out last among the children.
    pub closed spec fn spot(&self) -> int {
        self.at@
    }

    /// Whether the iterator agrees with `heap`: it names the child to come,
    /// the child before it if that was handed out, and the last child, and
    /// reports the exact number of children still to come.
    pub open spec fn wf<T>(&self, heap: &Heap<T>) -> bool {
        let ks = heap.kids(self.parent_at());
        &&& heap.live(self.parent_at())
        &&& 0 <= self.place() <= ks.len()
        &&& self.next_at() == (if self.place() < ks.len() {
            ks[self.place()]
        } else {
            NIL
        })
        &&& self.tail_at() == heap.link(self.parent_at()).child
        &&& self.current() != NIL ==> 0 <= self.spot() < self.place() && self.current() == ks[self.spot()]
        &&& self.count() == ks.len() - self.place()
    }

    /// The children still to come, in order.
    pub open spec fn rest<T>(&self, heap: &Heap<T>) -> Seq<usize> {
        heap.kids(self.parent_at()).subrange(self.place(), heap.kids(self.parent_at()).len() as int)
    }

    /// The iterator over the children of `parent` that has handed out none
    /// yet: `next` is the first child and `child` the last, or both are
    /// [`NIL`]; `len` is their number.
    #[inline]
    pub(crate) fn new(next: usize, child: usize, parent: usize, len: usize) -> (iter: OntoIter)
        ensures
            iter.next_at() == next,
            iter.current() == NIL,
            iter.tail_at() == child,
            iter.parent_at() == parent,
            iter.count() == len,
            iter.place() == 0,
    {
        OntoIter { next, curr: NIL, child, parent, len, pos: Ghost(0), at: Ghost(0) }
    }

    /// The next child, if any is still to come.
    pub fn next<T>(&mut self, heap: &Heap<T>) -> (node: Option<Node>)
        requires
            heap.wf(),
            old(self).wf(heap),
        ensures
            final(self).wf(heap),
            final(self).parent_at() == old(self).parent_at(),
            match node {
                None => old(self).rest(heap).len() == 0 && final(self).place() == old(self).place()
                    && final(self).current() == old(self).current(),
                Some(n) => {
                    &&& old(self).rest(heap).len() > 0
                    &&& n.at == old(self).rest(heap)[0]
                    &&& final(self).current() == n.at
                    &&& final(self).spot() == old(self).place()
                    &&& final(self).place() == old(self).place() + 1
                    &&& final(self).rest(heap) == old(self).rest(heap).drop_first()
                },
            },
    {
        if self.next == NIL {
            proof {
                let ks = heap.kids(self.parent);
                if self.pos@ < ks.len() {
                    heap.size_invariant(self.parent);
                }
            }
            None
        } else {
            let node: usize = self.next;
            proof {
                let ks = heap.kids(self.parent);
                assert(heap.node_ok(self.parent, 0, 0));
                assert(heap.sib_ok(ks, self.pos@, self.parent));
                if self.pos@ + 1 < ks.len() {
                    assert(heap.sib_ok(ks, self.pos@ + 1, self.parent));
                }
                assert(ks[ks.len() - 1] == ks.last());
                assert(self.rest(heap).drop_first() =~= ks.subrange(self.pos@ + 1, ks.len() as int));
            }
            self.curr = node;
            self.next = if node == self.child {
                NIL
            } else {
                heap.get(node).next
            };
            self.len = self.len - 1;
            proof {
                self.at@ = self.pos@;
                self.pos@ = self.pos@ + 1;
            }
            Some(Node { at: node })
        }
    }

    /// The exact number of children still to come.
    #[inline]
    pub fn len(&self) -> (len: usize)
        ensures
            len == self.count(),
    {
        self.len
    }

    /// The exact number of children still to come, as a lower and an upper
    /// bound.
    #[inline]
    pub fn size_hint<T>(&self, heap: &Heap<T>) -> (hint: (usize, Option<usize>))
        requires
            self.wf(heap),
        ensures
            hint == (self.rest(heap).len() as usize, Some(self.rest(heap).len() as usize)),
    {
        (self.len, Some(self.len))
    }

    /// Puts `tree` before the child that was handed out last. Where no child
    /// was handed out, or it was taken out since, nothing changes and the
    /// tree is given back.
    pub fn insert_before<T>(&mut self, heap: &mut Heap<T>, tree: Tree) -> (back: Option<Tree>)
        requires
            old(heap).wf(),
            old(self).wf(old(heap)),
            tree.wf(old(heap)),
            old(heap).takes(old(self).parent_at(), seq![tree@]),
        ensures
            final(heap).wf(),
            final(self).wf(final(heap)),
            final(self).parent_at() == old(self).parent_at(),
            final(self).current() == old(self).current(),
            final(self).rest(final(heap)) == old(self).rest(old(heap)),
            match back {
                Some(b) => old(self).current() == NIL && b@ == tree@ && *final(heap) == *old(heap)
                    && final(self).place() == old(self).place(),
                None => {
                    &&& old(self).current() != NIL
                    &&& final(heap).inserted(old(heap), old(self).parent_at(), old(self).spot(), tree@)
                    &&& final(self).spot() == old(self).spot() + 1
                    &&& final(self).place() == old(self).place() + 1
                },
            },
    {
        if self.curr == NIL {
            return Some(tree);
        }
        let ghost ks = heap.kids(self.parent);
        let ghost j = self.at@;
        proof {
            assert(heap.node_ok(self.parent, 0, 0));
            assert(heap.sib_ok(ks, j, self.parent));
            heap.place_facts(self.curr);
            heap.ends_of_ring(ks, self.parent);
        }
        Node { at: self.curr }.insert_before(heap, tree);
        proof {
            let now = heap.kids(self.parent);
            assert(now == ks.insert(j, tree@));
            assert(heap.live(self.parent) == old(heap).live(self.parent));
            assert(heap.node_ok(self.parent, 0, 0));
            assert(now.last() == ks.last()) by {
                assert(now[now.len() - 1] == ks[ks.len() - 1]);
            }
            let p = self.pos@;
            self.pos@ = p + 1;
            self.at@ = j + 1;
            assert(now.subrange(p + 1, now.len() as int) =~= ks.subrange(p, ks.len() as int));
            if p < ks.len() {
                assert(now[p + 1] == ks[p]);
            }
            assert(now[j + 1] == ks[j]);
        }
        None
    }

    /// Puts `tree` after the child that was handed out last; the iterator
    /// goes on with the child that was to come. Where no child was handed
    /// out, or it was taken out since, nothing changes and the tree is given
    /// back.
    pub fn insert_after<T>(&mut self, heap: &mut Heap<T>, tree: Tree) -> (back: Option<Tree>)
        requires
            old(heap).wf(),
            old(self).wf(old(heap)),
            tree.wf(old(heap)),
            old(heap).takes(old(self).parent_at(), seq![tree@]),
        ensures
            final(heap).wf(),
            final(self).wf(final(heap)),
            final(self).parent_at() == old(self).parent_at(),
            final(self).current() == old(self).current(),
            final(self).rest(final(heap)) == old(self).rest(old(heap)),
            match back {
                Some(b) => old(self).current() == NIL && b@ == tree@ && *final(heap) == *old(heap)
                    && final(self).place() == old(self).place(),
                None => {
                    &&& old(self).current() != NIL
                    &&& final(heap).inserted(old(heap), old(self).parent_at(), old(self).spot() + 1, tree@)
                    &&& final(self).spot() == old(self).spot()
                    &&& final(self).place() == old(self).place() + 1
                },
            },
    {
        if self.curr == NIL {
            return Some(tree);
        }
        let ghost ks = heap.kids(self.parent);
        let ghost j = self.at@;
        proof {
            assert(heap.node_ok(self.parent, 0, 0));
            assert(heap.sib_ok(ks, j, self.parent));
            heap.place_facts(self.curr);
            heap.ends_of_ring(ks, self.parent);
        }
        Node { at: self.curr }.insert_after(heap, tree);
        self.child = heap.get(self.parent).tail();
        proof {
            let now = heap.kids(self.parent);
            assert(now == ks.insert(j + 1, tree@));
            let p = self.pos@;
            self.pos@ = p + 1;
            assert(now.subrange(p + 1, now.len() as int) =~= ks.subrange(p, ks.len() as int));
            if p < ks.len() {
                assert(now[p + 1] == ks[p]);
            }
            assert(now[j] == ks[j]);
        }
        None
    }

    /// Takes out the child that was handed out last, as a tree of its own;
    /// the iterator goes on with the child that was to come. Where no child
    /// was handed out, or it was taken out before, nothing changes.
    pub fn depart<T>(&mut self, heap: &mut Heap<T>) -> (tree: Option<Tree>)
        requires
            old(heap).wf(),
            old(self).wf(old(heap)),
        ensures
            final(heap).wf(),
            final(self).wf(final(heap)),
            final(self).parent_at() == old(self).parent_at(),
            final(self).current() == NIL,
            final(self).rest(final(heap)) == old(self).rest(old(heap)),
            match tree {
                None => old(self).current() == NIL && *final(heap) == *old(heap) && final(self).place()
                    == old(self).place(),
                Some(t) => {
                    &&& old(self).current() != NIL
                    &&& t@ == old(self).current()
                    &&& t.wf(final(heap))
                    &&& final(heap).pruned(old(heap), old(self).parent_at(), old(self).spot())
                    &&& final(self).place() == old(self).place() - 1
                },
            },
    {
        if self.curr == NIL {
            return None;
        }
        let ghost ks = heap.kids(self.parent);
        let ghost j = self.at@;
        proof {
            assert(heap.node_ok(self.parent, 0, 0));
            assert(heap.sib_ok(ks, j, self.parent));
            heap.place_facts(self.curr);
        }
        let tree = Node { at: self.curr }.depart(heap);
        self.curr = NIL;
        self.child = heap.get(self.parent).tail();
        proof {
            let now = heap.kids(self.parent);
            assert(now == ks.remove(j));
            let p = self.pos@;
            self.pos@ = p - 1;
            assert(now.subrange(p - 1, now.len() as int) =~= ks.subrange(p, ks.len() as int));
            if p < ks.len() {
                assert(now[p - 1] == ks[p]);
            }
        }
        Some(tree)
    }
}

impl Node {
    /// An iterator over the children of this node through which they can
    /// be changed on the way.
    pub fn onto_iter<T>(&self, heap: &Heap<T>) -> (iter: OntoIter)
        requires
            heap.wf(),
            heap.live(self.at),
        ensures
            iter.wf(heap),
            iter.parent_at() == self.at,
            iter.place() == 0,
            iter.current() == NIL,
            iter.rest(heap) == heap.kids(self.at),
    {
        proof {
            assert(heap.node_ok(self.at, 0, 0));
            assert(heap.kids(self.at).subrange(0, heap.kids(self.at).len() as int) =~= heap.kids(self.at));
        }
        let top = heap.get(self.at);
        if top.is_leaf() {
            OntoIter::new(NIL, NIL, self.at, 0)
        } else {
            proof {
                heap.ends_of_ring(heap.kids(self.at), self.at);
            }
            OntoIter::new(heap.head(self.at), top.tail(), self.at, top.size.degree as usize)
        }
    }
}

} // verus!
