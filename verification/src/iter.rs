//! Linear iteration over a run of siblings.

use vstd::prelude::*;
use crate::heap::Heap;
use crate::heap::NIL;
use crate::node::Node;

verus! {

/// An iterator over a run of siblings of a heap, first to last. It holds
/// where it stands and where it ends, and the exact number of nodes still to
/// come.
#[derive(Clone, Copy)]
pub struct Iter {
    head: usize,
    tail: usize,
    len: usize,
    rest: Ghost<Seq<usize>>,
}

impl View for Iter {
    type V = Seq<usize>;

    /// The nodes still to come, in order.
    closed spec fn view(&self) -> Seq<usize> {
        self.rest@
    }
}

impl<T> Heap<T> {
    /// Whether the node at position `j` of `run` is in use and is followed
    /// by the node at position `j + 1`, if there is one.
    pub open spec fn step_ok(&self, run: Seq<usize>, j: int) -> bool {
        &&& self.live(run[j])
        &&& j + 1 < run.len() ==> self.link(run[j]).next == run[j + 1]
    }

    /// Whether `run` is a run of distinct siblings, each followed by the
    /// next.
    pub open spec fn chain(&self, run: Seq<usize>) -> bool {
        &&& run.no_duplicates()
        &&& forall|j: int| 0 <= j < run.len() ==> #[trigger] self.step_ok(run, j)
    }

    /// A ring is a run of siblings.
    pub proof fn ring_steps(&self, ring: Seq<usize>, p: usize)
        requires
            self.ring(ring, p),
        ensures
            self.chain(ring),
    {
        assert forall|j: int| 0 <= j < ring.len() implies #[trigger] self.step_ok(ring, j) by {
            assert(self.sib_ok(ring, j, p));
        }
    }
}

impl Iter {
    /// Where the iterator stands, or [`NIL`].
    pub closed spec fn head_at(&self) -> usize {
        self.head
    }

    /// Where the iterator ends, or [`NIL`].
    pub closed spec fn tail_at(&self) -> usize {
        self.tail
    }

    /// The number of nodes that the iterator reports as still to come.
    pub closed spec fn count(&self) -> usize {
        self.len
    }

    /// Whether the iterator agrees with `heap`: the nodes still to come are a
    /// run of siblings from where it stands to where it ends, and it reports
    /// their exact number.
    pub open spec fn wf<T>(&self, heap: &Heap<T>) -> bool {
        &&& self.count() == self@.len()
        &&& (self.head_at() == NIL) == (self@.len() == 0)
        &&& self@.len() > 0 ==> self.head_at() == self@[0] && self.tail_at() == self@.last()
        &&& heap.chain(self@)
    }

    /// An iterator that agrees with a heap agrees with every heap that has
    /// the same nodes with the same headers.
    pub proof fn wf_kept<T>(&self, now: &Heap<T>, was: &Heap<T>)
        requires
            self.wf(was),
            forall|j: int|
                0 <= j < self@.len() ==> now.live(#[trigger] self@[j]) && now.link(self@[j]) == was.link(
                    self@[j],
                ),
        ensures
            self.wf(now),
    {
        assert forall|j: int| 0 <= j < self@.len() implies #[trigger] now.step_ok(self@, j) by {
            assert(was.step_ok(self@, j));
        }
    }

    /// An iterator over the run `rest`, which starts at `head`, ends at
    /// `tail` and has `len` nodes.
    #[inline]
    pub(crate) fn new(head: usize, tail: usize, len: usize, Ghost(rest): Ghost<Seq<usize>>) -> (iter:
        Iter)
        ensures
            iter@ == rest,
            iter.head_at() == head,
            iter.tail_at() == tail,
            iter.count() == len,
    {
        Iter { head, tail, len, rest: Ghost(rest) }
    }

    /// The next node, if any is still to come.
    #[inline]
    pub fn next<T>(&mut self, heap: &Heap<T>) -> (node: Option<Node>)
        requires
            old(self).wf(heap),
        ensures
            final(self).wf(heap),
            old(self)@.len() == 0 ==> node.is_none() && final(self)@ == old(self)@,
            old(self)@.len() > 0 ==> node == Some(Node { at: old(self)@[0] }) && final(self)@ == old(
                self,
            )@.drop_first(),
            final(self).count() == (if old(self).count() == 0 {
                0
            } else {
                old(self).count() - 1
            }),
    {
        if self.head == NIL {
            None
        } else {
            let node: usize = self.head;
            let ghost was = self.rest@;
            let ghost now = was.drop_first();
            proof {
                assert(heap.step_ok(was, 0));
                if was.len() > 1 {
                    assert(was[0] != was[was.len() - 1]);
                    assert(heap.step_ok(was, 1));
                }
                assert forall|j: int| 0 <= j < now.len() implies #[trigger] heap.step_ok(now, j) by {
                    assert(heap.step_ok(was, j + 1));
                    assert(now[j] == was[j + 1]);
                    if j + 1 < now.len() {
                        assert(now[j + 1] == was[j + 2]);
                    }
                }
                assert forall|a: int, b: int| 0 <= a < now.len() && 0 <= b < now.len() && a != b implies now[a]
                    != now[b] by {
                    assert(now[a] == was[a + 1]);
                    assert(now[b] == was[b + 1]);
                }
                if now.len() > 0 {
                    assert(now.last() == was.last());
                    assert(now[0] == was[1]);
                }
            }
            self.head = if self.head == self.tail {
                NIL
            } else {
                heap.get(node).next
            };
            self.len = self.len - 1;
            self.rest = Ghost(now);
            Some(Node { at: node })
        }
    }

    /// The exact number of nodes still to come, as a lower and an upper
    /// bound.
    #[inline]
    pub fn size_hint<T>(&self, heap: &Heap<T>) -> (hint: (usize, Option<usize>))
        requires
            self.wf(heap),
        ensures
            hint == (self@.len() as usize, Some(self@.len() as usize)),
    {
        (self.len, Some(self.len))
    }

    /// The exact number of nodes still to come.
    #[inline]
    pub fn len(&self) -> (len: usize)
        ensures
            len == self.count(),
    {
        self.len
    }
}

/// An iterator over the payloads of a run of siblings, first to last, each
/// of which it hands out to be changed in place. It holds where it stands
/// and where it ends, and the exact number of nodes still to come.
pub struct IterMut {
    head: usize,
    tail: usize,
    len: usize,
    rest: Ghost<Seq<usize>>,
}

impl View for IterMut {
    type V = Seq<usize>;

    /// The nodes still to come, in order.
    closed spec fn view(&self) -> Seq<usize> {
        self.rest@
    }
}

impl IterMut {
    /// Where the iterator stands, or [`NIL`].
    pub closed spec fn head_at(&self) -> usize {
        self.head
    }

    /// Where the iterator ends, or [`NIL`].
    pub closed spec fn tail_at(&self) -> usize {
        self.tail
    }

    /// The number of nodes that the iterator reports as still to come.
    pub closed spec fn count(&self) -> usize {
        self.len
    }

    /// Whether the iterator agrees with `heap`: the nodes still to come are a
    /// run of siblings from where it stands to where it ends, and it reports
    /// their exact number.
    pub open spec fn wf<T>(&self, heap: &Heap<T>) -> bool {
        &&& self.count() == self@.len()
        &&& (self.head_at() == NIL) == (self@.len() == 0)
        &&& self@.len() > 0 ==> self.head_at() == self@[0] && self.tail_at() == self@.last()
        &&& heap.chain(self@)
    }

    /// An iterator over the run `rest`, which starts at `head`, ends at
    /// `tail` and has `len` nodes.
    #[inline]
    pub(crate) fn new(head: usize, tail: usize, len: usize, Ghost(rest): Ghost<Seq<usize>>) -> (iter:
        IterMut)
        ensures
            iter@ == rest,
            iter.head_at() == head,
            iter.tail_at() == tail,
            iter.count() == len,
    {
        IterMut { head, tail, len, rest: Ghost(rest) }
    }

    /// The next node, if any is still to come.
    pub(crate) fn step<T>(&mut self, heap: &Heap<T>) -> (node: Option<usize>)
        requires
            old(self).wf(heap),
        ensures
            final(self).wf(heap),
            old(self)@.len() == 0 ==> node.is_none() && final(self)@ == old(self)@,
            old(self)@.len() > 0 ==> node == Some(old(self)@[0]) && final(self)@ == old(self)@.drop_first()
                && heap.live(old(self)@[0]) && !final(self)@.contains(old(self)@[0]),
            final(self).count() == (if old(self).count() == 0 {
                0
            } else {
                old(self).count() - 1
            }),
    {
        if self.head == NIL {
            None
        } else {
            let node: usize = self.head;
            let ghost was = self.rest@;
            let ghost now = was.drop_first();
            proof {
                assert(heap.step_ok(was, 0));
                if was.len() > 1 {
                    assert(was[0] != was[was.len() - 1]);
                    assert(heap.step_ok(was, 1));
                }
                assert forall|j: int| 0 <= j < now.len() implies #[trigger] heap.step_ok(now, j) by {
                    assert(heap.step_ok(was, j + 1));
                    assert(now[j] == was[j + 1]);
                    if j + 1 < now.len() {
                        assert(now[j + 1] == was[j + 2]);
                    }
                }
                assert forall|a: int, b: int| 0 <= a < now.len() && 0 <= b < now.len() && a != b implies now[a]
                    != now[b] by {
                    assert(now[a] == was[a + 1]);
                    assert(now[b] == was[b + 1]);
                }
                if now.len() > 0 {
                    assert(now.last() == was.last());
                    assert(now[0] == was[1]);
                }
                assert forall|j: int| 0 <= j < now.len() implies now[j] != was[0] by {
                    assert(now[j] == was[j + 1]);
                }
            }
            self.head = if self.head == self.tail {
                NIL
            } else {
                heap.get(node).next
            };
            self.len = self.len - 1;
            self.rest = Ghost(now);
            Some(node)
        }
    }

    /// The payload of the next node, if any is still to come. The payload
    /// can be changed in place; nothing else in the heap changes.
    pub fn next<'a, T>(&mut self, heap: &'a mut Heap<T>) -> (data: Option<&'a mut T>)
        requires
            old(self).wf(old(heap)),
        ensures
            final(self).wf(final(heap)),
            final(self).count() == (if old(self).count() == 0 {
                0
            } else {
                old(self).count() - 1
            }),
            match data {
                None => old(self)@.len() == 0 && final(self)@ == old(self)@ && *final(heap) == *old(heap),
                Some(d) => {
                    &&& old(self)@.len() > 0
                    &&& final(self)@ == old(self)@.drop_first()
                    &&& *d == old(heap).payload(old(self)@[0])
                    &&& final(heap).payload(old(self)@[0]) == *final(d)
                    &&& final(heap).live(old(self)@[0])
                    &&& final(heap).link(old(self)@[0]) == old(heap).link(old(self)@[0])
                    &&& final(heap).kids(old(self)@[0]) == old(heap).kids(old(self)@[0])
                    &&& final(heap).same_but(old(heap), old(self)@[0])
                    &&& old(heap).sound() ==> final(heap).sound()
                },
            },
    {
        let ghost was = self.rest@;
        match self.step(heap) {
            None => None,
            Some(node) => {
                proof {
                    let now = self.rest@;
                    assert forall|j: int| 0 <= j < now.len() implies heap.live(#[trigger] now[j]) && now[j]
                        != was[0] && (j + 1 < now.len() ==> heap.link(now[j]).next == was[j + 2]) by {
                        assert(heap.step_ok(now, j));
                        assert(now[j] == was[j + 1]);
                        assert(now.contains(now[j]));
                        if j + 1 < now.len() {
                            assert(now[j + 1] == was[j + 2]);
                        }
                    }
                }
                Some(heap.data_mut(node))
            },
        }
    }

    /// The exact number of nodes still to come, as a lower and an upper
    /// bound.
    #[inline]
    pub fn size_hint<T>(&self, heap: &Heap<T>) -> (hint: (usize, Option<usize>))
        requires
            self.wf(heap),
        ensures
            hint == (self@.len() as usize, Some(self@.len() as usize)),
    {
        (self.len, Some(self.len))
    }

    /// The exact number of nodes still to come.
    #[inline]
    pub fn len(&self) -> (len: usize)
        ensures
            len == self.count(),
    {
        self.len
    }
}

impl Node {
    /// The payload, to be changed in place. Nothing else in the heap
    /// changes.
    #[inline]
    pub fn data_mut<'a, T>(&self, heap: &'a mut Heap<T>) -> (data: &'a mut T)
        requires
            old(heap).live(self.at),
        ensures
            *data == old(heap).payload(self.at),
            final(heap).payload(self.at) == *final(data),
            final(heap).live(self.at),
            final(heap).link(self.at) == old(heap).link(self.at),
            final(heap).kids(self.at) == old(heap).kids(self.at),
            final(heap).same_but(old(heap), self.at),
            old(heap).sound() ==> final(heap).sound(),
    {
        heap.data_mut(self.at)
    }

    /// An iterator over the payloads of the children, first to last, each
    /// of which it hands out to be changed in place.
    pub fn iter_mut<T>(&self, heap: &Heap<T>) -> (iter: IterMut)
        requires
            heap.wf(),
            heap.live(self.at),
        ensures
            iter@ == heap.kids(self.at),
            iter.wf(heap),
    {
        let top = heap.get(self.at);
        proof {
            assert(heap.node_ok(self.at, 0, 0));
        }
        if top.is_leaf() {
            IterMut::new(NIL, NIL, 0, Ghost(Seq::empty()))
        } else {
            proof {
                heap.ring_steps(heap.kids(self.at), self.at);
                heap.ends_of_ring(heap.kids(self.at), self.at);
            }
            IterMut::new(
                heap.head(self.at),
                top.tail(),
                top.size.degree as usize,
                Ghost(heap.kids(self.at)),
            )
        }
    }

    /// This node alone, as a list of one whose payload can be changed in
    /// place.
    pub fn into_iter_mut<T>(&self, heap: &Heap<T>) -> (iter: IterMut)
        requires
            heap.live(self.at),
        ensures
            iter@ == seq![self.at],
            iter.wf(heap),
    {
        let ghost one = seq![self.at];
        IterMut::new(self.at, self.at, 1, Ghost(one))
    }

    /// The payload of the first child, if there is one, to be changed in
    /// place. Nothing else in the heap changes.
    pub fn first_mut<'a, T>(&self, heap: &'a mut Heap<T>) -> (data: Option<&'a mut T>)
        requires
            old(heap).wf(),
            old(heap).live(self.at),
        ensures
            match data {
                None => old(heap).kids(self.at).len() == 0 && *final(heap) == *old(heap),
                Some(d) => {
                    let kid = old(heap).kids(self.at)[0];
                    &&& old(heap).kids(self.at).len() > 0
                    &&& *d == old(heap).payload(kid)
                    &&& final(heap).payload(kid) == *final(d)
                    &&& final(heap).live(kid)
                    &&& final(heap).link(kid) == old(heap).link(kid)
                    &&& final(heap).kids(kid) == old(heap).kids(kid)
                    &&& final(heap).same_but(old(heap), kid)
                    &&& final(heap).sound()
                },
            },
    {
        match self.first(heap) {
            None => None,
            Some(kid) => Some(heap.data_mut(kid.at)),
        }
    }

    /// The payload of the last child, if there is one, to be changed in
    /// place. Nothing else in the heap changes.
    pub fn last_mut<'a, T>(&self, heap: &'a mut Heap<T>) -> (data: Option<&'a mut T>)
        requires
            old(heap).wf(),
            old(heap).live(self.at),
        ensures
            match data {
                None => old(heap).kids(self.at).len() == 0 && *final(heap) == *old(heap),
                Some(d) => {
                    let kid = old(heap).kids(self.at).last();
                    &&& old(heap).kids(self.at).len() > 0
                    &&& *d == old(heap).payload(kid)
                    &&& final(heap).payload(kid) == *final(d)
                    &&& final(heap).live(kid)
                    &&& final(heap).link(kid) == old(heap).link(kid)
                    &&& final(heap).kids(kid) == old(heap).kids(kid)
                    &&& final(heap).same_but(old(heap), kid)
                    &&& final(heap).sound()
                },
            },
    {
        match self.last(heap) {
            None => None,
            Some(kid) => Some(heap.data_mut(kid.at)),
        }
    }
}

} // verus!
