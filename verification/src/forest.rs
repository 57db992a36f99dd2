//! An ordered list of trees without a node above them.

use vstd::prelude::*;
use crate::heap::Heap;
use crate::heap::NIL;
use crate::iter::Iter;
use crate::iter::IterMut;
use crate::node::Link;
use crate::node::Node;
use crate::size::Size;
use crate::tree::Tree;

verus! {

/// The owner of an ordered, possibly empty, list of trees in a heap. The
/// roots have no parent and form one sibling ring; the forest names the last
/// of them and caches their number and the sum of their node counts.
pub struct Forest {
    tail: usize,
    size: Size,
    trees: Ghost<Seq<usize>>,
}

impl View for Forest {
    type V = Seq<usize>;

    /// Where the roots of the trees stand, first to last.
    closed spec fn view(&self) -> Seq<usize> {
        self.trees@
    }
}

impl Forest {
    /// The last root, or [`NIL`].
    pub closed spec fn last_at(&self) -> usize {
        self.tail
    }

    /// The cached size: the number of trees and the number of their nodes.
    pub closed spec fn extent(&self) -> Size {
        self.size
    }

    /// Whether the handle agrees with itself: it names the last of its roots.
    pub open spec fn shaped(&self) -> bool {
        &&& self.extent().degree == self@.len()
        &&& (self@.len() == 0) == (self.last_at() == NIL)
        &&& self@.len() > 0 ==> self.last_at() == self@.last()
    }

    /// Whether the handle names a ring of roots of `heap`, with the right
    /// sizes.
    pub open spec fn wf<T>(&self, heap: &Heap<T>) -> bool {
        &&& self.shaped()
        &&& heap.ring(self@, NIL)
        &&& self.extent().node_cnt == heap.weight(self@)
    }

    /// A forest without trees.
    pub fn new() -> (forest: Forest)
        ensures
            forest@ == Seq::<usize>::empty(),
            forest.shaped(),
            forest.extent() == (Size { degree: 0, node_cnt: 0 }),
    {
        Forest { tail: NIL, size: Size { degree: 0, node_cnt: 0 }, trees: Ghost(Seq::empty()) }
    }

    /// The forest of the trees rooted at `trees`, the last of which is `tail`.
    pub(crate) fn from(tail: usize, size: Size, Ghost(trees): Ghost<Seq<usize>>) -> (forest: Forest)
        ensures
            forest@ == trees,
            forest.last_at() == tail,
            forest.extent() == size,
    {
        Forest { tail, size, trees: Ghost(trees) }
    }

    /// Whether the forest has no trees.
    #[inline]
    pub fn is_empty(&self) -> (empty: bool)
        requires
            self.shaped(),
        ensures
            empty == (self@.len() == 0),
    {
        self.tail == NIL
    }

    /// The number of trees.
    #[inline]
    pub fn degree(&self) -> (degree: usize)
        requires
            self.shaped(),
        ensures
            degree == self@.len(),
    {
        self.size.degree as usize
    }

    /// The number of nodes of all trees together.
    #[inline]
    pub fn node_count(&self) -> (count: usize)
        ensures
            count == self.extent().node_cnt,
    {
        self.size.node_cnt as usize
    }

    /// The cached size.
    #[inline]
    pub fn size(&self) -> (size: Size)
        ensures
            size == self.extent(),
    {
        self.size
    }

    /// The last root, or [`NIL`].
    #[inline]
    pub(crate) fn tail(&self) -> (tail: usize)
        ensures
            tail == self.last_at(),
    {
        self.tail
    }

    /// The first root of a forest that has trees.
    pub(crate) fn head<T>(&self, heap: &Heap<T>) -> (head: usize)
        requires
            heap.live(self.last_at()),
        ensures
            head == heap.link(self.last_at()).next,
    {
        heap.get(self.tail).next
    }

    /// The root of the first tree, if there is one.
    pub fn first<T>(&self, heap: &Heap<T>) -> (first: Option<Node>)
        requires
            self.wf(heap),
        ensures
            first == (if self@.len() == 0 {
                None
            } else {
                Some(Node { at: self@[0] })
            }),
            first.is_some() ==> heap.live(first.unwrap().at),
    {
        if self.is_empty() {
            None
        } else {
            proof {
                heap.ends_of_ring(self@, NIL);
            }
            Some(Node { at: self.head(heap) })
        }
    }

    /// The root of the last tree, if there is one.
    pub fn last<T>(&self, heap: &Heap<T>) -> (last: Option<Node>)
        requires
            self.wf(heap),
        ensures
            last == (if self@.len() == 0 {
                None
            } else {
                Some(Node { at: self@.last() })
            }),
            last.is_some() ==> heap.live(last.unwrap().at),
    {
        if self.is_empty() {
            None
        } else {
            proof {
                heap.ends_of_ring(self@, NIL);
            }
            Some(Node { at: self.tail })
        }
    }

    /// The roots of the trees, first to last.
    pub fn iter<T>(&self, heap: &Heap<T>) -> (iter: Iter)
        requires
            self.wf(heap),
        ensures
            iter@ == self@,
            iter.wf(heap),
    {
        if self.is_empty() {
            Iter::new(NIL, NIL, 0, Ghost(Seq::empty()))
        } else {
            proof {
                heap.ring_steps(self@, NIL);
                heap.ends_of_ring(self@, NIL);
            }
            Iter::new(self.head(heap), self.tail, self.size.degree as usize, Ghost(self@))
        }
    }

    /// An iterator over the payloads of the roots of the trees, first to
    /// last, each of which it hands out to be changed in place.
    pub fn iter_mut<T>(&self, heap: &Heap<T>) -> (iter: IterMut)
        requires
            self.wf(heap),
        ensures
            iter@ == self@,
            iter.wf(heap),
    {
        if self.is_empty() {
            IterMut::new(NIL, NIL, 0, Ghost(Seq::empty()))
        } else {
            proof {
                heap.ring_steps(self@, NIL);
                heap.ends_of_ring(self@, NIL);
            }
            IterMut::new(self.head(heap), self.tail, self.size.degree as usize, Ghost(self@))
        }
    }

    /// Gives every root the parent `parent`. `was` is the parent they had.
    pub(crate) fn set_parent<T>(&self, heap: &mut Heap<T>, parent: usize, Ghost(was): Ghost<usize>)
        requires
            old(heap).sound(),
            self.shaped(),
            old(heap).ring(self@, was),
        ensures
            final(heap).sound(),
            final(heap).reparented(old(heap), self@, parent),
    {
        if self.is_empty() {
            assert forall|i: usize| !self@.contains(i) by {}
            return ;
        }
        let ghost run = self@;
        let tail: usize = self.tail;
        proof {
            heap.ends_of_ring(run, was);
        }
        let mut cur: usize = heap.get(tail).next;
        let ghost mut k: int = 0;
        loop
            invariant_except_break
                0 <= k < run.len(),
                cur == run[k],
                forall|i: usize|
                    #![trigger heap.live(i)]
                    #![trigger heap.link(i)]
                    #![trigger heap.kids(i)]
                    #![trigger heap.payload(i)]
                    {
                        &&& heap.live(i) == old(heap).live(i)
                        &&& heap.payload(i) == old(heap).payload(i)
                        &&& heap.kids(i) == old(heap).kids(i)
                        &&& heap.link(i) == (Link {
                            parent: if run.subrange(0, k).contains(i) {
                                parent
                            } else {
                                old(heap).link(i).parent
                            },
                            ..old(heap).link(i)
                        })
                    },
            invariant
                run == self@,
                run.len() > 0,
                tail == run.last(),
                old(heap).ring(run, was),
                heap.sound(),
            ensures
                heap.reparented(old(heap), run, parent),
            decreases run.len() - k,
        {
            let ghost before = *heap;
            proof {
                assert(old(heap).sib_ok(run, k, was));
                assert(heap.live(cur) == old(heap).live(cur));
            }
            let mut link: Link = heap.get(cur);
            link.set_parent(parent);
            heap.set(cur, link);
            proof {
                let done = run.subrange(0, k);
                let more = run.subrange(0, k + 1);
                assert(more =~= done.push(cur));
                assert forall|i: usize| more.contains(i) == (done.contains(i) || i == cur) by {
                    if done.contains(i) {
                        let j = choose|j: int| 0 <= j < done.len() && done[j] == i;
                        assert(more[j] == i);
                    }
                    if i == cur {
                        assert(more[k] == i);
                    }
                    if more.contains(i) {
                        let j = choose|j: int| 0 <= j < more.len() && more[j] == i;
                        if j < k {
                            assert(done[j] == i);
                        }
                    }
                }
                assert forall|i: usize|
                    #![trigger heap.live(i)]
                    #![trigger heap.link(i)]
                    #![trigger heap.kids(i)]
                    #![trigger heap.payload(i)]
                    {
                        &&& heap.live(i) == old(heap).live(i)
                        &&& heap.payload(i) == old(heap).payload(i)
                        &&& heap.kids(i) == old(heap).kids(i)
                        &&& heap.link(i) == (Link {
                            parent: if more.contains(i) {
                                parent
                            } else {
                                old(heap).link(i).parent
                            },
                            ..old(heap).link(i)
                        })
                    } by {
                    assert(before.live(i) == old(heap).live(i));
                    if i != cur {
                        assert(heap.same_at(&before, i));
                    }
                }
            }
            if cur == tail {
                proof {
                    assert(k == run.len() - 1);
                    assert(run.subrange(0, k + 1) =~= run);
                }
                break ;
            }
            proof {
                assert(k + 1 < run.len()) by {
                    if k == run.len() - 1 {
                        assert(run[k] == run.last());
                    }
                }
                assert(link.next == run[k + 1]);
            }
            cur = link.next;
            proof {
                k = k + 1;
            }
        }
    }

    /// Turns the ends of the ring outwards: the first root gets `prev` as its
    /// predecessor, the last root gets `next` as its successor.
    pub(crate) fn set_sib<T>(&self, heap: &mut Heap<T>, prev: usize, next: usize)
        requires
            old(heap).sound(),
            old(heap).live(self.last_at()),
            old(heap).live(old(heap).link(self.last_at()).next),
        ensures
            final(heap).sound(),
            forall|i: usize|
                #![trigger final(heap).live(i)]
                #![trigger final(heap).link(i)]
                #![trigger final(heap).kids(i)]
                #![trigger final(heap).payload(i)]
                {
                    &&& final(heap).live(i) == old(heap).live(i)
                    &&& final(heap).payload(i) == old(heap).payload(i)
                    &&& final(heap).kids(i) == old(heap).kids(i)
                    &&& final(heap).link(i) == (Link {
                        prev: if i == old(heap).link(self.last_at()).next {
                            prev
                        } else {
                            old(heap).link(i).prev
                        },
                        next: if i == self.last_at() {
                            next
                        } else {
                            old(heap).link(i).next
                        },
                        ..old(heap).link(i)
                    })
                },
    {
        heap.close(self.tail, prev, next);
    }

    /// Puts `tree` into the forest as its new first tree.
    pub fn push_front<T>(&mut self, heap: &mut Heap<T>, tree: Tree)
        requires
            old(heap).wf(),
            old(self).wf(old(heap)),
            tree.wf(old(heap)),
            !old(self)@.contains(tree@),
            old(self).extent().node_cnt + old(heap).cnt(tree@) <= u32::MAX,
        ensures
            final(heap).wf(),
            final(self).wf(final(heap)),
            final(self)@ == seq![tree@] + old(self)@,
            final(heap).relinked(old(heap), final(self)@),
    {
        let root: usize = tree.root().at;
        let ghost was = self.trees@;
        let ghost now = seq![root] + was;
        proof {
            assert(old(heap).sib_ok(seq![root], 0, NIL));
            old(heap).size_bounds(root);
            old(heap).ring_counts(was);
        }
        let node_cnt: u32 = heap.get(root).size.node_cnt;
        if self.is_empty() {
            self.tail = root;
            proof {
                assert(now =~= seq![root]);
            }
        } else {
            proof {
                old(heap).ends_of_ring(was, NIL);
            }
            let tail: usize = self.tail;
            let head: usize = self.head(heap);
            let mut link: Link = heap.get(root);
            link.set_sib(tail, head);
            heap.set(root, link);
            heap.close(tail, root, root);
            proof {
                assert forall|j: int| 0 <= j < was.len() implies {
                    &&& heap.live(#[trigger] was[j])
                    &&& heap.link(was[j]).parent == NIL
                    &&& j + 1 < was.len() ==> heap.link(was[j]).next == old(heap).link(was[j]).next
                    &&& j > 0 ==> heap.link(was[j]).prev == old(heap).link(was[j]).prev
                } by {
                    assert(old(heap).sib_ok(was, j, NIL));
                    assert(was.contains(was[j]));
                    assert(was[was.len() - 1] == was.last());
                }
                heap.ring_joined(old(heap), seq![root], was, NIL, NIL, NIL);
            }
        }
        self.size = Size { degree: self.size.degree + 1, node_cnt: self.size.node_cnt + node_cnt };
        self.trees = Ghost(now);
        proof {
            assert(now.last() == (if was.len() == 0 {
                root
            } else {
                was.last()
            }));
            assert forall|i: usize|
                #![trigger heap.live(i)]
                #![trigger heap.link(i)]
                #![trigger heap.kids(i)]
                #![trigger heap.payload(i)]
                !now.contains(i) implies heap.link(i) == old(heap).link(i) by {
                assert(now[0] == root);
                if was.len() > 0 {
                    assert(now[1] == was[0]);
                    assert(now[now.len() - 1] == was.last());
                }
            }
            assert forall|j: int| 0 <= j < now.len() implies old(heap).link(#[trigger] now[j]).parent
                == NIL by {
                if j > 0 {
                    assert(old(heap).sib_ok(was, j - 1, NIL));
                }
            }
            heap.relinked_wf(old(heap), now);
            old(heap).weight_concat(seq![root], was);
            old(heap).weight_one(root);
        }
    }

    /// Puts `tree` into the forest as its new last tree.
    pub fn push_back<T>(&mut self, heap: &mut Heap<T>, tree: Tree)
        requires
            old(heap).wf(),
            old(self).wf(old(heap)),
            tree.wf(old(heap)),
            !old(self)@.contains(tree@),
            old(self).extent().node_cnt + old(heap).cnt(tree@) <= u32::MAX,
        ensures
            final(heap).wf(),
            final(self).wf(final(heap)),
            final(self)@ == old(self)@.push(tree@),
            final(heap).relinked(old(heap), final(self)@),
    {
        let root: usize = tree.root().at;
        let ghost was = self.trees@;
        let ghost now = was.push(root);
        proof {
            assert(old(heap).sib_ok(seq![root], 0, NIL));
            old(heap).size_bounds(root);
            old(heap).ring_counts(was);
            assert(now =~= was + seq![root]);
        }
        let node_cnt: u32 = heap.get(root).size.node_cnt;
        if !self.is_empty() {
            proof {
                old(heap).ends_of_ring(was, NIL);
            }
            let tail: usize = self.tail;
            let head: usize = self.head(heap);
            let mut link: Link = heap.get(root);
            link.set_sib(tail, head);
            heap.set(root, link);
            heap.close(tail, root, root);
            proof {
                assert forall|j: int| 0 <= j < was.len() implies {
                    &&& heap.live(#[trigger] was[j])
                    &&& heap.link(was[j]).parent == NIL
                    &&& j + 1 < was.len() ==> heap.link(was[j]).next == old(heap).link(was[j]).next
                    &&& j > 0 ==> heap.link(was[j]).prev == old(heap).link(was[j]).prev
                } by {
                    assert(old(heap).sib_ok(was, j, NIL));
                    assert(was.contains(was[j]));
                    assert(was[was.len() - 1] == was.last());
                }
                heap.ring_joined(old(heap), was, seq![root], NIL, NIL, NIL);
            }
        }
        self.tail = root;
        self.size = Size { degree: self.size.degree + 1, node_cnt: self.size.node_cnt + node_cnt };
        self.trees = Ghost(now);
        proof {
            assert forall|i: usize|
                #![trigger heap.live(i)]
                #![trigger heap.link(i)]
                #![trigger heap.kids(i)]
                #![trigger heap.payload(i)]
                !now.contains(i) implies heap.link(i) == old(heap).link(i) by {
                assert(now[now.len() - 1] == root);
                if was.len() > 0 {
                    assert(now[0] == was[0]);
                    assert(now[was.len() - 1] == was.last());
                }
            }
            assert forall|j: int| 0 <= j < now.len() implies old(heap).link(#[trigger] now[j]).parent
                == NIL by {
                if j < was.len() {
                    assert(old(heap).sib_ok(was, j, NIL));
                }
            }
            heap.relinked_wf(old(heap), now);
            old(heap).weight_push(was, root);
        }
    }

    /// Takes the first tree out of the forest.
    pub fn pop_front<T>(&mut self, heap: &mut Heap<T>) -> (tree: Option<Tree>)
        requires
            old(heap).wf(),
            old(self).wf(old(heap)),
        ensures
            final(heap).wf(),
            final(self).wf(final(heap)),
            final(heap).relinked(old(heap), old(self)@),
            match tree {
                None => old(self)@.len() == 0 && final(self)@ == old(self)@,
                Some(t) => {
                    &&& old(self)@.len() > 0
                    &&& t@ == old(self)@[0]
                    &&& t.wf(final(heap))
                    &&& final(self)@ == old(self)@.drop_first()
                },
            },
    {
        if self.is_empty() {
            proof {
                heap.relinked_wf(old(heap), self@);
            }
            None
        } else {
            let ghost was = self.trees@;
            let ghost now = was.remove(0);
            proof {
                heap.ends_of_ring(was, NIL);
                assert(heap.sib_ok(was, 0, NIL));
                heap.ring_counts(was);
                assert(now =~= was.drop_first());
            }
            let tail: usize = self.tail;
            let front: usize = self.head(heap);
            let mut link: Link = heap.get(front);
            let node_cnt: u32 = link.size.node_cnt;
            if front == tail {
                self.tail = NIL;
            } else {
                proof {
                    assert(heap.sib_ok(was, 1, NIL));
                }
                let new_head: usize = link.next;
                let mut first: Link = heap.get(new_head);
                first.prev = tail;
                heap.set(new_head, first);
                let mut last: Link = heap.get(tail);
                last.next = new_head;
                heap.set(tail, last);
                link.reset_sib(front);
                heap.set(front, link);
            }
            self.size = Size { degree: self.size.degree - 1, node_cnt: self.size.node_cnt - node_cnt };
            self.trees = Ghost(now);
            proof {
                self.popped(heap, old(heap), was, 0);
            }
            Some(Tree::from(front))
        }
    }

    /// Takes the last tree out of the forest.
    pub fn pop_back<T>(&mut self, heap: &mut Heap<T>) -> (tree: Option<Tree>)
        requires
            old(heap).wf(),
            old(self).wf(old(heap)),
        ensures
            final(heap).wf(),
            final(self).wf(final(heap)),
            final(heap).relinked(old(heap), old(self)@),
            match tree {
                None => old(self)@.len() == 0 && final(self)@ == old(self)@,
                Some(t) => {
                    &&& old(self)@.len() > 0
                    &&& t@ == old(self)@.last()
                    &&& t.wf(final(heap))
                    &&& final(self)@ == old(self)@.drop_last()
                },
            },
    {
        if self.is_empty() {
            proof {
                heap.relinked_wf(old(heap), self@);
            }
            None
        } else {
            let ghost was = self.trees@;
            let ghost now = was.remove(was.len() - 1);
            proof {
                heap.ends_of_ring(was, NIL);
                assert(heap.sib_ok(was, was.len() - 1, NIL));
                heap.ring_counts(was);
                assert(now =~= was.drop_last());
            }
            let back: usize = self.tail;
            let head: usize = self.head(heap);
            let mut link: Link = heap.get(back);
            let node_cnt: u32 = link.size.node_cnt;
            if head == back {
                self.tail = NIL;
            } else {
                proof {
                    assert(heap.sib_ok(was, was.len() - 2, NIL));
                }
                let new_tail: usize = link.prev;
                let mut last: Link = heap.get(new_tail);
                last.next = head;
                heap.set(new_tail, last);
                let mut first: Link = heap.get(head);
                first.prev = new_tail;
                heap.set(head, first);
                link.reset_sib(back);
                heap.set(back, link);
                self.tail = new_tail;
            }
            self.size = Size { degree: self.size.degree - 1, node_cnt: self.size.node_cnt - node_cnt };
            self.trees = Ghost(now);
            proof {
                self.popped(heap, old(heap), was, was.len() - 1);
            }
            Some(Tree::from(back))
        }
    }

    /// A forest stays what it is where its roots keep their headers.
    pub proof fn kept<T>(&self, now: &Heap<T>, was: &Heap<T>)
        requires
            self.wf(was),
            forall|j: int|
                0 <= j < self@.len() ==> now.live(#[trigger] self@[j]) && now.link(self@[j]) == was.link(
                    self@[j],
                ),
        ensures
            self.wf(now),
    {
        now.ring_same(was, self@, NIL);
        assert forall|j: int| 0 <= j < self@.len() implies now.cnt(#[trigger] self@[j]) == was.cnt(
            self@[j],
        ) by {}
        now.weight_same(was, self@);
    }

    /// After the root at position `j` was unlinked from the ring `was`, the
    /// heap is at rest and the forest holds the other roots.
    proof fn popped<T>(&self, heap: &Heap<T>, o: &Heap<T>, was: Seq<usize>, j: int)
        requires
            o.wf(),
            o.ring(was, NIL),
            heap.sound(),
            0 <= j < was.len(),
            j == 0 || j == was.len() - 1,
            self@ == was.remove(j),
            forall|i: usize|
                #![trigger heap.live(i)]
                #![trigger heap.link(i)]
                #![trigger heap.kids(i)]
                #![trigger heap.payload(i)]
                {
                    &&& heap.live(i) == o.live(i)
                    &&& heap.payload(i) == o.payload(i)
                    &&& heap.kids(i) == o.kids(i)
                    &&& heap.link(i) == (Link {
                        next: if i == was[j] {
                            i
                        } else if i == o.link(was[j]).prev {
                            o.link(was[j]).next
                        } else {
                            o.link(i).next
                        },
                        prev: if i == was[j] {
                            i
                        } else if i == o.link(was[j]).next {
                            o.link(was[j]).prev
                        } else {
                            o.link(i).prev
                        },
                        ..o.link(i)
                    })
                },
        ensures
            heap.wf(),
            heap.relinked(o, was),
            heap.ring(self@, NIL),
            heap.weight(self@) == o.weight(was) - o.cnt(was[j]),
            heap.link(was[j]).next == was[j],
            heap.link(was[j]).prev == was[j],
            heap.link(was[j]).parent == NIL,
            heap.live(was[j]),
    {
        let c = was[j];
        let q = if j > 0 {
            j - 1
        } else {
            was.len() - 1
        };
        let s = if j + 1 < was.len() {
            j + 1
        } else {
            0
        };
        assert(o.sib_ok(was, j, NIL));
        assert(o.sib_ok(was, q, NIL));
        assert(o.sib_ok(was, s, NIL));
        assert(was.contains(was[q]));
        assert(was.contains(was[s]));
        assert(was.contains(c));
        assert forall|k: int| 0 <= k < was.len() implies o.link(#[trigger] was[k]).parent == NIL by {
            assert(o.sib_ok(was, k, NIL));
        }
        heap.relinked_wf(o, was);
        assert forall|k: int| 0 <= k < was.len() && k != j implies {
            &&& heap.live(#[trigger] was[k])
            &&& heap.link(was[k]).parent == NIL
            &&& heap.link(was[k]).next == (if o.link(was[k]).next == was[j] {
                o.link(was[j]).next
            } else {
                o.link(was[k]).next
            })
            &&& heap.link(was[k]).prev == (if o.link(was[k]).prev == was[j] {
                o.link(was[j]).prev
            } else {
                o.link(was[k]).prev
            })
        } by {
            assert(o.sib_ok(was, k, NIL));
            let kn = if k + 1 < was.len() {
                k + 1
            } else {
                0
            };
            let kp = if k > 0 {
                k - 1
            } else {
                was.len() - 1
            };
            assert(o.link(was[k]).next == was[kn]);
            assert(o.link(was[k]).prev == was[kp]);
        }
        heap.ring_cut(o, was, j, NIL);
        o.weight_remove(was, j);
    }
}

/// An iterator that takes the trees out of a forest, first to last.
pub struct IntoIter {
    forest: Forest,
}

impl View for IntoIter {
    type V = Seq<usize>;

    /// Where the roots of the trees still to come stand, in order.
    closed spec fn view(&self) -> Seq<usize> {
        self.forest@
    }
}

impl IntoIter {
    /// The forest of the trees still to come.
    pub closed spec fn held(&self) -> Forest {
        self.forest
    }

    /// Whether the iterator agrees with `heap`.
    pub open spec fn wf<T>(&self, heap: &Heap<T>) -> bool {
        self.held().wf(heap) && self@ == self.held()@
    }

    /// The next tree, if any is still to come.
    pub fn next<T>(&mut self, heap: &mut Heap<T>) -> (tree: Option<Tree>)
        requires
            old(heap).wf(),
            old(self).wf(old(heap)),
        ensures
            final(heap).wf(),
            final(self).wf(final(heap)),
            final(heap).relinked(old(heap), old(self)@),
            match tree {
                None => old(self)@.len() == 0 && final(self)@ == old(self)@,
                Some(t) => {
                    &&& old(self)@.len() > 0
                    &&& t@ == old(self)@[0]
                    &&& t.wf(final(heap))
                    &&& final(self)@ == old(self)@.drop_first()
                },
            },
    {
        self.forest.pop_front(heap)
    }

    /// The exact number of trees still to come.
    pub fn len(&self) -> (len: usize)
        requires
            self.held().shaped(),
        ensures
            len == self.held()@.len(),
    {
        self.forest.degree()
    }
}

impl Forest {
    /// Gives up every node of every tree of the forest, tree by tree, and
    /// nothing else. Every node of the heap that is not in one of the trees
    /// stays as it is.
    pub fn drop<T>(self, heap: &mut Heap<T>)
        requires
            old(heap).wf(),
            self.wf(old(heap)),
        ensures
            final(heap).wf(),
            forall|i: usize|
                #![trigger final(heap).live(i)]
                #![trigger final(heap).link(i)]
                #![trigger final(heap).kids(i)]
                #![trigger final(heap).payload(i)]
                {
                    &&& final(heap).live(i) == (old(heap).live(i) && !self@.contains(old(heap).root_of(i)))
                    &&& old(heap).live(i) && !self@.contains(old(heap).root_of(i)) ==> final(heap).same_at(
                        old(heap),
                        i,
                    )
                },
    {
        let mut forest = self;
        let ghost all = self@;
        let ghost mut k: int = 0;
        proof {
            assert(all.skip(0) =~= all);
            assert(all.take(0) =~= Seq::<usize>::empty());
            assert forall|i: usize| !all.take(0).contains(i) by {}
            heap.wf_is_ranked(NIL, 0, 0, NIL, 0);
        }
        loop
            invariant_except_break
                forest@ == all.skip(k),
            invariant
                old(heap).wf(),
                old(heap).ranked(),
                all == self@,
                old(heap).ring(all, NIL),
                heap.wf(),
                forest.wf(heap),
                0 <= k <= all.len(),
                forall|i: usize|
                    #![trigger heap.live(i)]
                    #![trigger heap.link(i)]
                    #![trigger heap.kids(i)]
                    #![trigger heap.payload(i)]
                    {
                        &&& heap.live(i) == (old(heap).live(i) && !all.take(k).contains(old(heap).root_of(i)))
                        &&& heap.live(i) ==> {
                            &&& heap.payload(i) == old(heap).payload(i)
                            &&& heap.kids(i) == old(heap).kids(i)
                            &&& heap.link(i).parent == old(heap).link(i).parent
                            &&& heap.link(i).child == old(heap).link(i).child
                            &&& heap.link(i).size == old(heap).link(i).size
                            &&& !all.contains(i) ==> heap.link(i) == old(heap).link(i)
                        }
                    },
            ensures
                k == all.len(),
            decreases all.len() - k,
        {
            let ghost h0 = *heap;
            let ghost rest = forest@;
            match forest.pop_front(heap) {
                None => {
                    break ;
                },
                Some(tree) => {
                    let ghost h1 = *heap;
                    let ghost t = tree@;
                    proof {
                        assert(t == all[k]);
                        assert(all.contains(t));
                        assert(forest@ =~= all.skip(k + 1));
                        h1.wf_is_ranked(NIL, 0, 0, NIL, 0);
                        assert(old(heap).sib_ok(all, k, NIL));
                    }
                    tree.drop(heap);
                    proof {
                        assert forall|j: int| 0 <= j < forest@.len() implies heap.live(
                            #[trigger] forest@[j],
                        ) && heap.link(forest@[j]) == h1.link(forest@[j]) by {
                            assert(h1.sib_ok(forest@, j, NIL));
                            assert(forest@[j] == all[k + 1 + j]);
                            assert(h1.root_of(forest@[j]) == forest@[j]);
                            assert(heap.same_at(&h1, forest@[j]));
                        }
                        forest.kept(heap, &h1);
                        assert(all.take(k + 1) =~= all.take(k).push(t));
                        assert forall|x: usize| all.take(k + 1).contains(x) == (all.take(k).contains(x) || x
                            == t) by {
                            if all.take(k).contains(x) {
                                let done = all.take(k);
                                let j = choose|j: int| 0 <= j < done.len() && done[j] == x;
                                assert(all.take(k + 1)[j] == x);
                            }
                            if x == t {
                                assert(all.take(k + 1)[k] == x);
                            }
                            if all.take(k + 1).contains(x) {
                                let more = all.take(k + 1);
                                let j = choose|j: int| 0 <= j < more.len() && more[j] == x;
                                if j < k {
                                    assert(all.take(k)[j] == x);
                                }
                            }
                        }
                        assert forall|i: usize|
                            #![trigger heap.live(i)]
                            #![trigger heap.link(i)]
                            #![trigger heap.kids(i)]
                            #![trigger heap.payload(i)]
                            {
                                &&& heap.live(i) == (old(heap).live(i) && !all.take(k + 1).contains(
                                    old(heap).root_of(i),
                                ))
                                &&& heap.live(i) ==> {
                                    &&& heap.payload(i) == old(heap).payload(i)
                                    &&& heap.kids(i) == old(heap).kids(i)
                                    &&& heap.link(i).parent == old(heap).link(i).parent
                                    &&& heap.link(i).child == old(heap).link(i).child
                                    &&& heap.link(i).size == old(heap).link(i).size
                                    &&& !all.contains(i) ==> heap.link(i) == old(heap).link(i)
                                }
                            } by {
                            assert(h1.live(i) == h0.live(i));
                            assert(h0.live(i) == (old(heap).live(i) && !all.take(k).contains(
                                old(heap).root_of(i),
                            )));
                            if h1.live(i) {
                                // the roots are where they were while the trees are there
                                assert forall|y: usize| #[trigger] old(heap).above(y, i) implies h1.live(y)
                                    && h1.link(y).parent == old(heap).link(y).parent by {
                                    old(heap).above_rank(y, i);
                                    old(heap).roots_shared(y, i);
                                    assert(h0.live(y) == (old(heap).live(y) && !all.take(k).contains(
                                        old(heap).root_of(y),
                                    )));
                                    assert(h1.live(y) == h0.live(y));
                                    assert(h1.link(y).parent == h0.link(y).parent);
                                }
                                old(heap).above_same(&h1, i, i);
                                assert(h1.root_of(i) == old(heap).root_of(i));
                                assert(h1.link(i).parent == h0.link(i).parent);
                                assert(h1.link(i).size == h0.link(i).size);
                                if !rest.contains(i) {
                                    assert(h1.link(i) == h0.link(i));
                                }
                                if !all.contains(i) {
                                    if rest.contains(i) {
                                        let j = choose|j: int| 0 <= j < rest.len() && rest[j] == i;
                                        assert(all[k + j] == i);
                                    }
                                }
                                if h1.root_of(i) != t {
                                    assert(heap.same_at(&h1, i));
                                }
                            }
                        }
                        k = k + 1;
                    }
                },
            }
        }
        proof {
            assert(all.take(all.len() as int) =~= all);
            assert forall|i: usize|
                #![trigger heap.live(i)]
                #![trigger heap.link(i)]
                #![trigger heap.kids(i)]
                #![trigger heap.payload(i)]
                old(heap).live(i) && !all.contains(old(heap).root_of(i)) implies heap.same_at(old(heap), i) by {
                old(heap).root_facts(i);
                if all.contains(i) {
                    let j = choose|j: int| 0 <= j < all.len() && all[j] == i;
                    assert(old(heap).sib_ok(all, j, NIL));
                    assert(old(heap).root_of(i) == i);
                }
            }
        }
    }

    /// The iterator that takes the trees out of this forest.
    pub fn into_iter(self) -> (iter: IntoIter)
        ensures
            iter.held() == self,
            iter@ == self@,
    {
        IntoIter { forest: self }
    }
}

impl Tree {
    /// The iterator that yields this tree alone.
    pub fn into_iter<T>(self, heap: &Heap<T>) -> (iter: IntoIter)
        requires
            heap.wf(),
            self.wf(heap),
        ensures
            iter@ == seq![self@],
            iter.wf(heap),
    {
        let node_cnt: u32 = heap.get(self.root().at).size.node_cnt;
        let ghost one = seq![self@];
        proof {
            assert(heap.sib_ok(one, 0, NIL));
            heap.weight_one(self@);
        }
        let forest = Forest::from(self.root().at, Size { degree: 1, node_cnt }, Ghost(one));
        IntoIter { forest }
    }
}

impl<T> Heap<T> {
    /// The node counts of the roots of a ring add up to at least their
    /// number.
    pub proof fn ring_counts(&self, ring: Seq<usize>)
        requires
            self.wf(),
            self.ring(ring, NIL),
        ensures
            self.weight(ring) >= ring.len(),
            forall|j: int| 0 <= j < ring.len() ==> self.cnt(#[trigger] ring[j]) <= self.weight(ring),
    {
        assert forall|j: int| 0 <= j < ring.len() implies self.cnt(#[trigger] ring[j]) >= 1 by {
            assert(self.sib_ok(ring, j, NIL));
            self.size_bounds(ring[j]);
        }
        self.weight_ge_len(ring);
        assert forall|j: int| 0 <= j < ring.len() implies self.cnt(#[trigger] ring[j]) <= self.weight(
            ring,
        ) by {
            self.weight_ge(ring, j);
        }
    }
}

} // verus!
