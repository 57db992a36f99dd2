//! A single rooted tree.

use vstd::prelude::*;
use crate::heap::Heap;
use crate::heap::NIL;
use crate::forest::Forest;
use crate::node::Link;
use crate::node::Node;
use crate::size::Size;

verus! {

/// The owner of one tree in a heap: the handle of its root, which has no
/// parent and no siblings. Putting the tree under a node hands it over; taking
/// a child out of a node hands a tree back.
pub struct Tree {
    pub(crate) root: usize,
}

impl View for Tree {
    type V = usize;

    /// Where the root stands.
    closed spec fn view(&self) -> usize {
        self.root
    }
}

impl Tree {
    /// Whether the handle names a root of `heap` that stands alone.
    pub open spec fn wf<T>(&self, heap: &Heap<T>) -> bool {
        &&& heap.live(self@)
        &&& heap.link(self@).parent == NIL
        &&& heap.link(self@).next == self@
        &&& heap.link(self@).prev == self@
    }

    /// Creates a tree of one node, which holds `data`.
    pub fn new<T>(heap: &mut Heap<T>, data: T) -> (tree: Tree)
        requires
            old(heap).wf(),
        ensures
            final(heap).wf(),
            tree.wf(final(heap)),
            !old(heap).live(tree@),
            final(heap).payload(tree@) == data,
            final(heap).kids(tree@) == Seq::<usize>::empty(),
            final(heap).link(tree@).size == (Size { degree: 0, node_cnt: 1 }),
            final(heap).same_but(old(heap), tree@),
    {
        let root: usize = heap.make_node(data);
        proof {
            assert forall|i: usize| #[trigger] heap.live(i) implies heap.node_ok(i, 0, 0) by {
                if i == root {
                    assert(heap.kids(root).len() == 0);
                    assert(heap.weight(heap.kids(root)) == 0);
                } else {
                    assert(old(heap).live(i));
                    let kk = old(heap).kids(i);
                    assert forall|j: int| 0 <= j < kk.len() implies {
                        &&& heap.live(#[trigger] kk[j])
                        &&& heap.link(kk[j]).next == old(heap).link(kk[j]).next
                        &&& heap.link(kk[j]).prev == old(heap).link(kk[j]).prev
                        &&& heap.link(kk[j]).parent == old(heap).link(kk[j]).parent
                        &&& heap.cnt(kk[j]) == old(heap).cnt(kk[j])
                    } by {
                        assert(old(heap).sib_ok(kk, j, i));
                    }
                    heap.weight_same(old(heap), kk);
                    heap.node_kept(old(heap), i, 0, 0, 0, 0);
                }
            }
        }
        Tree::from(root)
    }

    /// The root of the tree.
    #[inline]
    pub fn root(&self) -> (node: Node)
        ensures
            node.at == self@,
    {
        Node { at: self.root }
    }

    /// The payload of the root, to be changed in place. Nothing else in the
    /// heap changes.
    #[inline]
    pub fn root_mut<'a, T>(&mut self, heap: &'a mut Heap<T>) -> (data: &'a mut T)
        requires
            old(heap).live(old(self)@),
        ensures
            final(self)@ == old(self)@,
            *data == old(heap).payload(old(self)@),
            final(heap).payload(old(self)@) == *final(data),
            final(heap).live(old(self)@),
            final(heap).link(old(self)@) == old(heap).link(old(self)@),
            final(heap).kids(old(self)@) == old(heap).kids(old(self)@),
            final(heap).same_but(old(heap), old(self)@),
            old(heap).sound() ==> final(heap).sound(),
    {
        heap.data_mut(self.root)
    }

    /// The handle of the tree whose root stands at `root`.
    #[inline]
    pub(crate) fn from(root: usize) -> (tree: Tree)
        ensures
            tree@ == root,
    {
        Tree { root }
    }

    /// Takes all children out of the root and returns them as a forest. The
    /// tree is left a single node of size `(0, 1)`; a tree that had no
    /// children gives an empty forest.
    pub fn abandon<T>(&mut self, heap: &mut Heap<T>) -> (forest: Forest)
        requires
            old(heap).wf(),
            old(self).wf(old(heap)),
        ensures
            final(self)@ == old(self)@,
            final(heap).wf(),
            final(self).wf(final(heap)),
            forest.wf(final(heap)),
            forest@ == old(heap).kids(old(self)@),
            forest.extent() == (Size {
                degree: old(heap).link(old(self)@).size.degree,
                node_cnt: (old(heap).link(old(self)@).size.node_cnt - 1) as u32,
            }),
            final(heap).stripped(old(heap), old(self)@),
    {
        let root: usize = self.root;
        let top: Link = heap.get(root);
        let ghost kids = heap.kids(root);
        proof {
            assert(heap.node_ok(root, 0, 0));
            heap.size_bounds(root);
            assert forall|i: usize| kids.contains(i) implies i != root by {
                let k = choose|k: int| 0 <= k < kids.len() && kids[k] == i;
                assert(heap.sib_ok(kids, k, root));
            }
        }
        let forest = Forest::from(
            top.tail(),
            Size { degree: top.size.degree, node_cnt: top.size.node_cnt - 1 },
            Ghost(kids),
        );
        forest.set_parent(heap, NIL, Ghost(root));
        let mut top: Link = heap.get(root);
        top.reset_child();
        top.size.degree = 0;
        top.size.node_cnt = 1;
        heap.set(root, top);
        heap.set_kids(root, Ghost(Seq::empty()));
        proof {
            assert(heap.stripped(old(heap), root));
            heap.strip_wf(old(heap), root);
        }
        forest
    }

    /// Gives up the node of a tree that has no children, and returns its
    /// payload.
    pub fn into_data<T>(self, heap: &mut Heap<T>) -> (data: T)
        requires
            old(heap).wf(),
            self.wf(old(heap)),
            old(heap).kids(self@).len() == 0,
        ensures
            final(heap).wf(),
            !final(heap).live(self@),
            data == old(heap).payload(self@),
            final(heap).same_but(old(heap), self@),
    {
        let root: usize = self.root;
        let data: T = heap.drop_node(root);
        proof {
            assert forall|i: usize| #[trigger] heap.live(i) implies heap.node_ok(i, 0, 0) by {
                assert(old(heap).live(i));
                let kk = old(heap).kids(i);
                assert forall|j: int| 0 <= j < kk.len() implies {
                    &&& heap.live(#[trigger] kk[j])
                    &&& heap.link(kk[j]).next == old(heap).link(kk[j]).next
                    &&& heap.link(kk[j]).prev == old(heap).link(kk[j]).prev
                    &&& heap.link(kk[j]).parent == old(heap).link(kk[j]).parent
                    &&& heap.cnt(kk[j]) == old(heap).cnt(kk[j])
                } by {
                    assert(old(heap).sib_ok(kk, j, i));
                }
                heap.weight_same(old(heap), kk);
                assert(old(heap).link(i).parent != root);
                heap.node_kept(old(heap), i, 0, 0, 0, 0);
            }
        }
        data
    }

    /// Gives up the first child of the root, and puts the children of that
    /// child in its place.
    fn lift_first<T>(&self, heap: &mut Heap<T>)
        requires
            old(heap).wf(),
            self.wf(old(heap)),
            old(heap).kids(self@).len() > 0,
        ensures
            final(heap).wf(),
            self.wf(final(heap)),
            final(heap).lifted(old(heap), self@),
    {
        let root = self.root();
        let ghost h0 = *heap;
        let ghost c = h0.kids(root.at)[0];
        let ghost below = h0.kids(c);
        proof {
            h0.wf_is_ranked(NIL, 0, 0, NIL, 0);
            h0.prune_ready(root.at, 0);
            h0.size_bounds(c);
            assert(h0.above(root.at, root.at));
            assert forall|i: usize| h0.above(i, root.at) == (i == root.at) by {}
            assert(h0.node_ok(c, 0, 0));
            assert forall|i: usize| below.contains(i) implies h0.link(i).parent == c && i != root.at && i
                != c by {
                let k = choose|k: int| 0 <= k < below.len() && below[k] == i;
                assert(h0.sib_ok(below, k, c));
            }
        }
        let child = match root.pop_front(heap) {
            Some(child) => child,
            None => {
                return ;
            },
        };
        let ghost h1 = *heap;
        proof {
            assert(h1.cnt(root.at) == h0.cnt(root.at) - h0.cnt(c));
            assert(h1.kids(c) == below);
            assert(h1.cnt(c) == h0.cnt(c));
            assert(h1.kids(root.at) =~= h0.kids(root.at).drop_first());
        }
        let mut child = child;
        let forest = child.abandon(heap);
        let ghost h2 = *heap;
        proof {
            assert(h2.link(root.at) == h1.link(root.at));
            h2.wf_is_ranked(NIL, 0, 0, NIL, 0);
            assert(h2.root_of(root.at) == root.at);
            assert(h2.link(c).next == h1.link(c).next);
            assert forall|i: usize| h2.above(i, root.at) == (i == root.at) by {}
        }
        root.prepend(heap, forest);
        let ghost h3 = *heap;
        proof {
            assert(h3.link(c).next == h2.link(c).next);
            assert(h3.kids(c) == h2.kids(c));
            assert(h3.live(c));
            assert(h3.cnt(root.at) == h2.cnt(root.at) + h2.weight(below));
        }
        let _ = child.into_data(heap);
        proof {
            assert forall|i: usize|
                #![trigger heap.live(i)]
                #![trigger heap.link(i)]
                #![trigger heap.kids(i)]
                #![trigger heap.payload(i)]
                i != c implies {
                    &&& heap.live(i) == h0.live(i)
                    &&& heap.payload(i) == h0.payload(i)
                    &&& i != root.at ==> heap.kids(i) == h0.kids(i)
                    &&& heap.link(i).parent == (if below.contains(i) {
                        root.at
                    } else {
                        h0.link(i).parent
                    })
                    &&& h0.link(i).parent == NIL ==> heap.link(i).next == h0.link(i).next && heap.link(
                        i,
                    ).prev == h0.link(i).prev
                    &&& i != root.at && h0.link(i).parent != root.at && !below.contains(i) ==> heap.link(i)
                        == h0.link(i)
                } by {
                assert(heap.same_at(&h3, i));
                assert(h1.live(i) == h0.live(i));
                assert(h2.live(i) == h1.live(i));
                assert(h3.live(i) == h2.live(i));
                assert(h1.link(i).parent == h0.link(i).parent);
                assert(h2.link(i).parent == (if below.contains(i) {
                    NIL
                } else {
                    h1.link(i).parent
                }));
                assert(h3.link(i).parent == (if below.contains(i) {
                    root.at
                } else {
                    h2.link(i).parent
                }));
                if h0.link(i).parent == NIL {
                    assert(h1.link(i).next == h0.link(i).next);
                    assert(h2.link(i).next == h1.link(i).next);
                    assert(!below.contains(i));
                    assert(h3.link(i).next == h2.link(i).next);
                }
                if i != root.at && h0.link(i).parent != root.at && !below.contains(i) {
                    assert(h1.link(i) == h0.link(i));
                    assert(h2.link(i) == h1.link(i));
                    assert(h3.link(i) == h2.link(i));
                }
            }
        }
    }

    /// Gives up every node of the tree, and nothing else. The nodes are
    /// taken out one at a time, without recursion; a node is given up once it
    /// has no children left, the root last. Every node of the heap that is
    /// not in the tree stays as it is.
    pub fn drop<T>(self, heap: &mut Heap<T>)
        requires
            old(heap).wf(),
            self.wf(old(heap)),
        ensures
            final(heap).wf(),
            forall|i: usize|
                #![trigger final(heap).live(i)]
                #![trigger final(heap).link(i)]
                #![trigger final(heap).kids(i)]
                #![trigger final(heap).payload(i)]
                {
                    &&& final(heap).live(i) == (old(heap).live(i) && old(heap).root_of(i) != self@)
                    &&& old(heap).live(i) && old(heap).root_of(i) != self@ ==> final(heap).same_at(
                        old(heap),
                        i,
                    )
                },
    {
        proof {
            heap.wf_is_ranked(NIL, 0, 0, NIL, 0);
            assert(heap.root_of(self@) == self@);
        }
        loop
            invariant_except_break
                old(heap).wf(),
                old(heap).ranked(),
                old(heap).root_of(self@) == self@,
                heap.wf(),
                self.wf(heap),
                forall|i: usize| #[trigger]
                    heap.live(i) ==> old(heap).live(i) && heap.root_of(i) == old(heap).root_of(i),
                forall|i: usize|
                    #![trigger heap.live(i)]
                    #![trigger heap.link(i)]
                    #![trigger heap.kids(i)]
                    #![trigger heap.payload(i)]
                    old(heap).live(i) && old(heap).root_of(i) != self@ ==> heap.same_at(old(heap), i),
            ensures
                old(heap).wf(),
                heap.wf(),
                self.wf(heap),
                heap.kids(self@).len() == 0,
                forall|i: usize| #[trigger]
                    heap.live(i) ==> old(heap).live(i) && heap.root_of(i) == old(heap).root_of(i),
                forall|i: usize|
                    #![trigger heap.live(i)]
                    #![trigger heap.link(i)]
                    #![trigger heap.kids(i)]
                    #![trigger heap.payload(i)]
                    old(heap).live(i) && old(heap).root_of(i) != self@ ==> heap.same_at(old(heap), i),
            decreases heap.cnt(self@),
        {
            if self.root().is_leaf(heap) {
                break ;
            }
            let ghost h0 = *heap;
            self.lift_first(heap);
            proof {
                let r = self@;
                let c = h0.kids(r)[0];
                h0.wf_is_ranked(NIL, 0, 0, NIL, 0);
                h0.prune_ready(r, 0);
                assert(h0.node_ok(c, 0, 0));
                assert(h0.root_of(r) == r);
                assert(h0.root_of(c) == r);
                assert forall|i: usize| #[trigger] heap.live(i) implies old(heap).live(i) && heap.root_of(i)
                    == old(heap).root_of(i) by {
                    heap.lifted_roots(&h0, r, i);
                    assert(h0.live(i));
                }
                assert forall|i: usize|
                    #![trigger heap.live(i)]
                    #![trigger heap.link(i)]
                    #![trigger heap.kids(i)]
                    #![trigger heap.payload(i)]
                    old(heap).live(i) && old(heap).root_of(i) != self@ implies heap.same_at(old(heap), i) by {
                    assert(h0.same_at(old(heap), i));
                    assert(h0.live(i));
                    assert(h0.root_of(i) != r);
                    assert(i != r && i != c);
                    assert(h0.link(i).parent != r);
                    if h0.kids(c).contains(i) {
                        let k = choose|k: int| 0 <= k < h0.kids(c).len() && h0.kids(c)[k] == i;
                        assert(h0.sib_ok(h0.kids(c), k, c));
                    }
                    assert(heap.link(i) == h0.link(i));
                    assert(heap.kids(i) == h0.kids(i));
                }
            }
        }
        let ghost h = *heap;
        let _ = self.into_data(heap);
        proof {
            assert forall|i: usize|
                #![trigger heap.live(i)]
                #![trigger heap.link(i)]
                #![trigger heap.kids(i)]
                #![trigger heap.payload(i)]
                {
                    &&& heap.live(i) == (old(heap).live(i) && old(heap).root_of(i) != self@)
                    &&& old(heap).live(i) && old(heap).root_of(i) != self@ ==> heap.same_at(old(heap), i)
                } by {
                if i != self@ {
                    assert(heap.same_at(&h, i));
                    if h.live(i) && old(heap).root_of(i) == self@ {
                        assert(h.root_of(i) == self@);
                        h.below_root(i);
                    }
                    if old(heap).live(i) && old(heap).root_of(i) != self@ {
                        assert(h.same_at(old(heap), i));
                    }
                }
            }
        }
    }
}

} // verus!
