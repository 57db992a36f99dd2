//! Breadth-first traversal.

use vstd::prelude::*;
use std::collections::VecDeque;
use crate::forest::IntoIter;
use crate::heap::Heap;
use crate::heap::NIL;
use crate::node::Link;
use crate::iter::Iter;
use crate::iter::IterMut;
use crate::node::Node;
use crate::size::Size;

verus! {

/// One visit of a breadth-first traversal: what was found at a node, with the
/// number of its children and of the nodes of its subtree.
#[derive(Debug, PartialEq, Eq)]
pub struct Visit<T> {
    pub data: T,
    pub size: Size,
}

/// A breadth-first traversal of a tree or of a forest.
pub enum Bfs<I> {
    Tree(BfsTree<I>),
    Forest(BfsForest<I>),
}

/// A breadth-first traversal of a tree, with the size of what it goes over.
pub struct BfsTree<I> {
    pub iter: I,
    pub size: Size,
}

/// A breadth-first traversal of a forest, with the size of what it goes
/// over.
pub struct BfsForest<I> {
    pub iter: I,
    pub size: Size,
}

/// The queue of a breadth-first traversal: for every node visited so far,
/// in the order of the visits, the iterator over its children, as far as it
/// has not been used up.
pub struct Splitted<I> {
    pub(crate) iters: VecDeque<I>,
}

impl<I> Splitted<I> {
    /// The iterators in the queue, front to back.
    pub closed spec fn queue(&self) -> Seq<I> {
        self.iters@
    }

    /// The queue that holds `first` alone.
    pub fn from(first: I) -> (split: Splitted<I>)
        ensures
            split.queue() == seq![first],
    {
        let mut iters: VecDeque<I> = VecDeque::new();
        iters.push_back(first);
        proof {
            assert(iters@ =~= seq![first]);
        }
        Splitted { iters }
    }
}

impl<I> BfsTree<Splitted<I>> {
    /// The traversal that begins with what `treelike` yields, over `size`
    /// nodes.
    pub fn from(treelike: I, size: Size) -> (bfs: BfsTree<Splitted<I>>)
        ensures
            bfs.iter.queue() == seq![treelike],
            bfs.size == size,
    {
        BfsTree { iter: Splitted::<I>::from(treelike), size }
    }
}

impl<I> BfsTree<I> {
    /// The traversal as one of either kind.
    pub fn wrap(self) -> (bfs: Bfs<I>)
        ensures
            bfs == Bfs::Tree(self),
    {
        Bfs::Tree(self)
    }
}

impl<I> BfsForest<Splitted<I>> {
    /// The traversal that begins with what `treelike` yields, over `size`
    /// nodes.
    pub fn from(treelike: I, size: Size) -> (bfs: BfsForest<Splitted<I>>)
        ensures
            bfs.iter.queue() == seq![treelike],
            bfs.size == size,
    {
        BfsForest { iter: Splitted::<I>::from(treelike), size }
    }
}

impl<I> BfsForest<I> {
    /// The traversal as one of either kind.
    pub fn wrap(self) -> (bfs: Bfs<I>)
        ensures
            bfs == Bfs::Forest(self),
    {
        Bfs::Forest(self)
    }
}

impl<I> Bfs<I> {
    /// The iterator of the traversal.
    pub fn iter(self) -> (iter: I)
        ensures
            iter == (match self {
                Bfs::Tree(tree) => tree.iter,
                Bfs::Forest(forest) => forest.iter,
            }),
    {
        match self {
            Bfs::Tree(tree) => tree.iter,
            Bfs::Forest(forest) => forest.iter,
        }
    }

    /// The iterator of the traversal, and the size of what it goes over.
    pub fn iter_and_size(self) -> (pair: (I, Size))
        ensures
            pair == (match self {
                Bfs::Tree(tree) => (tree.iter, tree.size),
                Bfs::Forest(forest) => (forest.iter, forest.size),
            }),
    {
        match self {
            Bfs::Tree(tree) => (tree.iter, tree.size),
            Bfs::Forest(forest) => (forest.iter, forest.size),
        }
    }

    /// The iterator, if the traversal is one of a tree.
    pub fn tree_iter(self) -> (iter: Option<I>)
        ensures
            iter == (match self {
                Bfs::Tree(tree) => Some(tree.iter),
                Bfs::Forest(_) => None,
            }),
    {
        match self {
            Bfs::Tree(tree) => Some(tree.iter),
            _ => None,
        }
    }

    /// The iterator, if the traversal is one of a forest.
    pub fn forest_iter(self) -> (iter: Option<I>)
        ensures
            iter == (match self {
                Bfs::Forest(forest) => Some(forest.iter),
                Bfs::Tree(_) => None,
            }),
    {
        match self {
            Bfs::Forest(forest) => Some(forest.iter),
            _ => None,
        }
    }
}

impl<T> Heap<T> {
    /// Whether `self` is `o` after the root `at` was given up, unless `at`
    /// is [`NIL`], and its children were left as roots. Every other node has
    /// the payload, children and sizes it had; a node that was not a root
    /// keeps its neighbours too.
    pub open spec fn taken(&self, o: &Heap<T>, at: usize) -> bool {
        forall|i: usize|
            #![trigger self.live(i)]
            #![trigger self.link(i)]
            #![trigger self.kids(i)]
            #![trigger self.payload(i)]
            i != at ==> {
                &&& self.live(i) == o.live(i)
                &&& self.payload(i) == o.payload(i)
                &&& self.kids(i) == o.kids(i)
                &&& self.link(i).child == o.link(i).child
                &&& self.link(i).size == o.link(i).size
                &&& self.link(i).parent == (if o.kids(at).contains(i) {
                    NIL
                } else {
                    o.link(i).parent
                })
                &&& o.link(i).parent != NIL ==> self.link(i).next == o.link(i).next && self.link(i).prev
                    == o.link(i).prev
            }
    }
}

/// One step of a breadth-first traversal over the queue `q` of runs of
/// nodes: the runs at the front that are used up are dropped; the first node
/// of the first run that is left is visited, and the run of its children
/// joins the queue at the back. Where no run is left, nothing is visited.
pub open spec fn bfs_step<T>(heap: &Heap<T>, q: Seq<Seq<usize>>) -> (Seq<Seq<usize>>, Option<usize>)
    decreases q.len(),
{
    if q.len() == 0 {
        (q, None)
    } else if q[0].len() == 0 {
        bfs_step(heap, q.drop_first())
    } else {
        (q.update(0, q[0].drop_first()).push(heap.kids(q[0][0])), Some(q[0][0]))
    }
}

impl Splitted<Iter> {
    /// The runs of nodes still to come, one for each iterator in the queue.
    pub open spec fn runs(&self) -> Seq<Seq<usize>> {
        self.queue().map_values(|iter: Iter| iter@)
    }

    /// Whether every iterator in the queue agrees with `heap`.
    pub open spec fn wf<T>(&self, heap: &Heap<T>) -> bool {
        forall|k: int| 0 <= k < self.queue().len() ==> (#[trigger] self.queue()[k]).wf(heap)
    }

    /// The next node in breadth-first order, with the size of its subtree.
    pub fn next<T>(&mut self, heap: &Heap<T>) -> (visit: Option<Visit<Node>>)
        requires
            heap.wf(),
            old(self).wf(heap),
        ensures
            final(self).wf(heap),
            final(self).runs() == bfs_step(heap, old(self).runs()).0,
            match visit {
                None => bfs_step(heap, old(self).runs()).1.is_none(),
                Some(v) => {
                    &&& bfs_step(heap, old(self).runs()).1 == Some(v.data.at)
                    &&& heap.live(v.data.at)
                    &&& v.size.degree == heap.kids(v.data.at).len()
                    &&& v.size.node_cnt == heap.cnt(v.data.at)
                },
            },
    {
        loop
            invariant
                heap.wf(),
                self.wf(heap),
                bfs_step(heap, self.runs()) == bfs_step(heap, old(self).runs()),
            decreases self.queue().len(),
        {
            let ghost q0 = self.runs();
            let ghost its = self.queue();
            match self.iters.pop_front() {
                None => {
                    return None;
                },
                Some(mut iter) => {
                    let ghost run = iter@;
                    proof {
                        assert(iter == its[0]);
                        assert(q0[0] == run);
                    }
                    match iter.next(heap) {
                        Some(node) => {
                            proof {
                                assert(heap.step_ok(run, 0));
                                assert(heap.node_ok(node.at, 0, 0));
                            }
                            let kids: Iter = node.iter(heap);
                            let size = Size {
                                degree: kids.len() as u32,
                                node_cnt: heap.get(node.at).size.node_cnt,
                            };
                            self.iters.push_front(iter);
                            self.iters.push_back(kids);
                            proof {
                                let now = self.queue();
                                assert(now.len() == its.len() + 1);
                                assert forall|k: int| 0 <= k < now.len() implies (#[trigger] now[k]).wf(
                                    heap,
                                ) by {
                                    if 0 < k < its.len() {
                                        assert(now[k] == its[k]);
                                    }
                                }
                                assert(self.runs() =~= q0.update(0, run.drop_first()).push(
                                    heap.kids(node.at),
                                )) by {
                                    assert forall|k: int| 0 <= k < now.len() implies #[trigger] self.runs()[k]
                                        == q0.update(0, run.drop_first()).push(heap.kids(node.at))[k] by {
                                        if 0 < k < its.len() {
                                            assert(now[k] == its[k]);
                                        }
                                    }
                                }
                            }
                            return Some(Visit { data: node, size });
                        },
                        None => {
                            proof {
                                let now = self.queue();
                                assert forall|k: int| 0 <= k < now.len() implies (#[trigger] now[k]).wf(
                                    heap,
                                ) by {
                                    assert(now[k] == its[k + 1]);
                                }
                                assert(self.runs() =~= q0.drop_first()) by {
                                    assert forall|k: int| 0 <= k < now.len() implies #[trigger] self.runs()[k]
                                        == q0.drop_first()[k] by {
                                        assert(now[k] == its[k + 1]);
                                    }
                                }
                            }
                        },
                    }
                },
            }
        }
    }
}

impl Splitted<IterMut> {
    /// The runs of nodes still to come, one for each iterator in the queue.
    pub open spec fn runs(&self) -> Seq<Seq<usize>> {
        self.queue().map_values(|iter: IterMut| iter@)
    }

    /// Whether every iterator in the queue agrees with `heap`.
    pub open spec fn wf<T>(&self, heap: &Heap<T>) -> bool {
        forall|k: int| 0 <= k < self.queue().len() ==> (#[trigger] self.queue()[k]).wf(heap)
    }

    /// The payload of the next node in breadth-first order, to be changed in
    /// place, with the size of the subtree of the node. Nothing but that
    /// payload changes.
    pub fn next<'a, T>(&mut self, heap: &'a mut Heap<T>) -> (visit: Option<Visit<&'a mut T>>)
        requires
            old(heap).wf(),
            old(self).wf(old(heap)),
        ensures
            final(self).wf(final(heap)),
            final(self).runs() == bfs_step(old(heap), old(self).runs()).0,
            match visit {
                None => bfs_step(old(heap), old(self).runs()).1.is_none() && *final(heap) == *old(heap),
                Some(Visit { data, size }) => {
                    let at = bfs_step(old(heap), old(self).runs()).1.unwrap();
                    &&& bfs_step(old(heap), old(self).runs()).1.is_some()
                    &&& old(heap).live(at)
                    &&& *data == old(heap).payload(at)
                    &&& final(heap).payload(at) == *final(data)
                    &&& size.degree == old(heap).kids(at).len()
                    &&& size.node_cnt == old(heap).cnt(at)
                    &&& final(heap).live(at)
                    &&& final(heap).link(at) == old(heap).link(at)
                    &&& final(heap).kids(at) == old(heap).kids(at)
                    &&& final(heap).same_but(old(heap), at)
                    &&& final(heap).sound()
                },
            },
    {
        loop
            invariant
                heap.wf(),
                *heap == *old(heap),
                self.wf(heap),
                bfs_step(heap, self.runs()) == bfs_step(heap, old(self).runs()),
            decreases self.queue().len(),
        {
            let ghost q0 = self.runs();
            let ghost its = self.queue();
            match self.iters.pop_front() {
                None => {
                    return None;
                },
                Some(mut iter) => {
                    let ghost run = iter@;
                    proof {
                        assert(iter == its[0]);
                        assert(q0[0] == run);
                    }
                    match iter.step(heap) {
                        Some(at) => {
                            let node = Node { at };
                            proof {
                                assert(heap.node_ok(at, 0, 0));
                            }
                            let kids: IterMut = node.iter_mut(heap);
                            let size = Size {
                                degree: kids.len() as u32,
                                node_cnt: heap.get(at).size.node_cnt,
                            };
                            self.iters.push_front(iter);
                            self.iters.push_back(kids);
                            proof {
                                let now = self.queue();
                                assert(now.len() == its.len() + 1);
                                assert forall|k: int| 0 <= k < now.len() implies (#[trigger] now[k]).wf(
                                    heap,
                                ) by {
                                    if 0 < k < its.len() {
                                        assert(now[k] == its[k]);
                                    }
                                }
                                assert(self.runs() =~= q0.update(0, run.drop_first()).push(
                                    heap.kids(at),
                                )) by {
                                    assert forall|k: int| 0 <= k < now.len() implies #[trigger] self.runs()[k]
                                        == q0.update(0, run.drop_first()).push(heap.kids(at))[k] by {
                                        if 0 < k < its.len() {
                                            assert(now[k] == its[k]);
                                        }
                                    }
                                }
                                // what the iterators rest on, said of every node they hold
                                let tails = Seq::new(now.len(), |k: int| now[k]@.drop_first());
                                assert forall|k: int, j: int|
                                    0 <= k < now.len() && 0 <= j < now[k]@.len() implies heap.live(
                                    #[trigger] now[k]@[j],
                                ) && (j + 1 < now[k]@.len() ==> heap.link(now[k]@[j]).next == tails[k][j]) by {
                                    assert(now[k].wf(heap));
                                    assert(heap.step_ok(now[k]@, j));
                                }
                            }
                            return Some(Visit { data: heap.data_mut(at), size });
                        },
                        None => {
                            proof {
                                let now = self.queue();
                                assert forall|k: int| 0 <= k < now.len() implies (#[trigger] now[k]).wf(
                                    heap,
                                ) by {
                                    assert(now[k] == its[k + 1]);
                                }
                                assert(self.runs() =~= q0.drop_first()) by {
                                    assert forall|k: int| 0 <= k < now.len() implies #[trigger] self.runs()[k]
                                        == q0.drop_first()[k] by {
                                        assert(now[k] == its[k + 1]);
                                    }
                                }
                            }
                        },
                    }
                },
            }
        }
    }
}

impl Node {
    /// A breadth-first traversal of the subtree rooted at this node that
    /// hands out the payloads to be changed in place.
    pub fn bfs_mut<T>(&self, heap: &Heap<T>) -> (bfs: BfsTree<Splitted<IterMut>>)
        requires
            heap.wf(),
            heap.live(self.at),
        ensures
            bfs.iter.wf(heap),
            bfs.iter.runs() == seq![seq![self.at]],
            bfs.size == (Size { degree: 1, node_cnt: heap.link(self.at).size.node_cnt }),
    {
        let bfs = BfsTree::from(
            self.into_iter_mut(heap),
            Size { degree: 1, node_cnt: heap.get(self.at).size.node_cnt },
        );
        proof {
            assert(bfs.iter.runs() =~= seq![seq![self.at]]);
        }
        bfs
    }
}

impl Node {
    /// A breadth-first traversal of the subtree rooted at this node.
    pub fn bfs<T>(&self, heap: &Heap<T>) -> (bfs: BfsTree<Splitted<Iter>>)
        requires
            heap.wf(),
            heap.live(self.at),
        ensures
            bfs.iter.wf(heap),
            bfs.iter.runs() == seq![seq![self.at]],
            bfs.size == (Size { degree: 1, node_cnt: heap.link(self.at).size.node_cnt }),
    {
        let bfs = BfsTree::from(
            self.into_iter(heap),
            Size { degree: 1, node_cnt: heap.get(self.at).size.node_cnt },
        );
        proof {
            assert(bfs.iter.runs() =~= seq![seq![self.at]]);
        }
        bfs
    }
}

impl crate::forest::Forest {
    /// A breadth-first traversal of the trees of this forest that hands out
    /// the payloads to be changed in place.
    pub fn bfs_mut<T>(&self, heap: &Heap<T>) -> (bfs: BfsForest<Splitted<IterMut>>)
        requires
            heap.wf(),
            self.wf(heap),
        ensures
            bfs.iter.wf(heap),
            bfs.iter.runs() == seq![self@],
            bfs.size == self.extent(),
    {
        let bfs = BfsForest::from(self.iter_mut(heap), self.size());
        proof {
            assert(bfs.iter.runs() =~= seq![self@]);
        }
        bfs
    }

    /// A breadth-first traversal of the trees of this forest.
    pub fn bfs<T>(&self, heap: &Heap<T>) -> (bfs: BfsForest<Splitted<Iter>>)
        requires
            heap.wf(),
            self.wf(heap),
        ensures
            bfs.iter.wf(heap),
            bfs.iter.runs() == seq![self@],
            bfs.size == self.extent(),
    {
        let bfs = BfsForest::from(self.iter(heap), self.size());
        proof {
            assert(bfs.iter.runs() =~= seq![self@]);
        }
        bfs
    }
}

impl crate::forest::Forest {
    /// A breadth-first traversal that takes the trees of the forest apart
    /// and hands out the payloads.
    pub fn into_bfs(self) -> (bfs: BfsForest<Splitted<IntoIter>>)
        ensures
            bfs.iter.queue().len() == 1,
            bfs.iter.queue()[0].held() == self,
            bfs.iter.queue()[0]@ == self@,
            bfs.size == self.extent(),
    {
        let size = self.size();
        BfsForest::from(self.into_iter(), size)
    }
}

impl crate::tree::Tree {
    /// A breadth-first traversal that takes the tree apart and hands out
    /// the payloads.
    pub fn into_bfs<T>(self, heap: &Heap<T>) -> (bfs: BfsTree<Splitted<IntoIter>>)
        requires
            heap.wf(),
            self.wf(heap),
        ensures
            bfs.iter.queue().len() == 1,
            bfs.iter.queue()[0]@ == seq![self@],
            bfs.iter.queue()[0].wf(heap),
            bfs.size == (Size { degree: 1, node_cnt: heap.link(self@).size.node_cnt }),
    {
        let size = Size { degree: 1, node_cnt: heap.get(self.root().at).size.node_cnt };
        BfsTree::from(self.into_iter(heap), size)
    }
}

/// What a breadth-first traversal takes a node apart into: what is handed
/// out for the node, the iterator over its children, and the number of nodes
/// of its subtree.
pub trait Split<T>: Sized {
    type Item;

    type Iter;

    /// Whether `self` can be taken apart in `heap`.
    spec fn splits(&self, heap: &Heap<T>) -> bool;

    /// Whether taking `self` apart turns the heap `before` into `after` and
    /// gives `parts`.
    spec fn split_as(
        &self,
        before: &Heap<T>,
        after: &Heap<T>,
        parts: (Self::Item, Self::Iter, u32),
    ) -> bool;

    /// Takes `self` apart.
    fn split(self, heap: &mut Heap<T>) -> (parts: (Self::Item, Self::Iter, u32))
        requires
            self.splits(old(heap)),
        ensures
            self.split_as(old(heap), final(heap), parts),
    ;
}

impl<T> Split<T> for Node {
    type Item = Node;

    type Iter = Iter;

    open spec fn splits(&self, heap: &Heap<T>) -> bool {
        heap.wf() && heap.live(self.at)
    }

    /// The heap stays as it is; the node itself is handed out, with the
    /// iterator over its children.
    open spec fn split_as(&self, before: &Heap<T>, after: &Heap<T>, parts: (Node, Iter, u32)) -> bool {
        &&& *after == *before
        &&& parts.0 == *self
        &&& parts.1@ == before.kids(self.at)
        &&& parts.1.wf(before)
        &&& parts.2 == before.link(self.at).size.node_cnt
    }

    fn split(self, heap: &mut Heap<T>) -> (parts: (Node, Iter, u32)) {
        (self, self.iter(heap), heap.get(self.at).size.node_cnt)
    }
}

impl<T> Split<T> for crate::tree::Tree {
    type Item = T;

    type Iter = IntoIter;

    open spec fn splits(&self, heap: &Heap<T>) -> bool {
        heap.wf() && self.wf(heap)
    }

    /// The root is given up and its payload handed out; its children are
    /// left as the trees of a forest, which the iterator holds.
    open spec fn split_as(&self, before: &Heap<T>, after: &Heap<T>, parts: (T, IntoIter, u32)) -> bool {
        &&& after.wf()
        &&& !after.live(self@)
        &&& parts.0 == before.payload(self@)
        &&& parts.1@ == before.kids(self@)
        &&& parts.1.wf(after)
        &&& parts.2 == before.link(self@).size.node_cnt
        &&& forall|i: usize|
            #![trigger after.live(i)]
            #![trigger after.link(i)]
            #![trigger after.kids(i)]
            #![trigger after.payload(i)]
            i != self@ ==> {
                &&& after.live(i) == before.live(i)
                &&& after.payload(i) == before.payload(i)
                &&& after.kids(i) == before.kids(i)
                &&& after.link(i) == (Link {
                    parent: if before.kids(self@).contains(i) {
                        NIL
                    } else {
                        before.link(i).parent
                    },
                    ..before.link(i)
                })
            }
    }

    fn split(self, heap: &mut Heap<T>) -> (parts: (T, IntoIter, u32)) {
        let mut tree = self;
        let node_cnt: u32 = heap.get(tree.root().at).size.node_cnt;
        let forest = tree.abandon(heap);
        let ghost mid = *heap;
        let data: T = tree.into_data(heap);
        proof {
            let kids = forest@;
            assert(old(heap).node_ok(self@, 0, 0));
            assert forall|j: int| 0 <= j < kids.len() implies heap.live(#[trigger] kids[j]) && heap.link(
                kids[j],
            ) == mid.link(kids[j]) by {
                assert(mid.sib_ok(kids, j, NIL));
                assert(old(heap).sib_ok(kids, j, self@));
                assert(heap.same_at(&mid, kids[j]));
            }
            forest.kept(heap, &mid);
        }
        (data, forest.into_iter(), node_cnt)
    }
}

impl Splitted<IntoIter> {
    /// The runs of roots still to come, one for each iterator in the queue.
    pub open spec fn runs(&self) -> Seq<Seq<usize>> {
        self.queue().map_values(|iter: IntoIter| iter@)
    }

    /// Whether every iterator in the queue agrees with `heap`, and no two
    /// of them hold the same tree.
    pub open spec fn wf<T>(&self, heap: &Heap<T>) -> bool {
        &&& forall|k: int| 0 <= k < self.queue().len() ==> (#[trigger] self.queue()[k]).wf(heap)
        &&& forall|a: int, b: int, x: usize|
            0 <= a < b < self.queue().len() && #[trigger] self.queue()[a]@.contains(x) ==> !(
            #[trigger] self.queue()[b]@.contains(x))
    }

    /// The payload of the next node in breadth-first order, with the size of
    /// its subtree. The node is given up; its children are left as trees of
    /// their own, which the traversal holds.
    pub fn next<T>(&mut self, heap: &mut Heap<T>) -> (visit: Option<Visit<T>>)
        requires
            old(heap).wf(),
            old(self).wf(old(heap)),
        ensures
            final(heap).wf(),
            final(self).wf(final(heap)),
            final(self).runs() == bfs_step(old(heap), old(self).runs()).0,
            match visit {
                None => bfs_step(old(heap), old(self).runs()).1.is_none() && final(heap).taken(
                    old(heap),
                    NIL,
                ),
                Some(v) => {
                    let at = bfs_step(old(heap), old(self).runs()).1.unwrap();
                    &&& bfs_step(old(heap), old(self).runs()).1.is_some()
                    &&& old(heap).live(at)
                    &&& old(heap).link(at).parent == NIL
                    &&& !final(heap).live(at)
                    &&& v.data == old(heap).payload(at)
                    &&& v.size.degree == old(heap).kids(at).len()
                    &&& v.size.node_cnt == old(heap).cnt(at)
                    &&& final(heap).taken(old(heap), at)
                },
            },
    {
        loop
            invariant
                old(heap).wf(),
                heap.wf(),
                self.wf(heap),
                heap.relinked(old(heap), Seq::<usize>::empty()),
                bfs_step(old(heap), self.runs()) == bfs_step(old(heap), old(self).runs()),
            decreases self.queue().len(),
        {
            let ghost q0 = self.runs();
            let ghost its = self.queue();
            let ghost h0 = *heap;
            match self.iters.pop_front() {
                None => {
                    proof {
                        assert forall|i: usize| !Seq::<usize>::empty().contains(i) by {}
                        assert forall|i: usize| !old(heap).kids(NIL).contains(i) by {
                            if old(heap).live(NIL) {
                            }
                            old(heap).no_kids_of_nil();
                        }
                    }
                    return None;
                },
                Some(mut iter) => {
                    let ghost run = iter@;
                    let ghost front = iter.held();
                    proof {
                        assert(iter == its[0]);
                        assert(q0[0] == run);
                        assert forall|k: int| 0 <= k < its.len() implies q0[k] == (#[trigger] its[k])@ by {}
                    }
                    match iter.next(heap) {
                        Some(tree) => {
                            let ghost h1 = *heap;
                            let ghost c = tree@;
                            let ghost below = h1.kids(c);
                            proof {
                                assert(h0.sib_ok(run, 0, NIL));
                                assert(run.contains(c)) by {
                                    assert(run[0] == c);
                                }
                                assert(h1.node_ok(c, 0, 0));
                                assert(h1.kids(c) == h0.kids(c));
                                assert(h0.kids(c) == old(heap).kids(c));
                                assert forall|i: usize| below.contains(i) implies h1.link(i).parent == c by {
                                    let k = choose|k: int| 0 <= k < below.len() && below[k] == i;
                                    assert(h1.sib_ok(below, k, c));
                                }
                            }
                            let parts = tree.split(heap);
                            let data: T = parts.0;
                            let kids: IntoIter = parts.1;
                            let node_cnt: u32 = parts.2;
                            let size = Size { degree: kids.len() as u32, node_cnt };
                            self.iters.push_front(iter);
                            self.iters.push_back(kids);
                            proof {
                                let now = self.queue();
                                assert(now.len() == its.len() + 1);
                                assert(now[0] == iter);
                                assert(now[its.len() as int] == kids);
                                assert forall|k: int| 0 < k < its.len() implies now[k] == its[k] by {}
                                // the roots of the forests in the queue keep their headers
                                assert forall|k: int, j: int|
                                    0 < k < its.len() && 0 <= j < its[k]@.len() implies heap.live(
                                    #[trigger] its[k]@[j],
                                ) && heap.link(its[k]@[j]) == h0.link(its[k]@[j]) by {
                                    let x = its[k]@[j];
                                    assert(its[k].wf(&h0));
                                    assert(h0.sib_ok(its[k]@, j, NIL));
                                    assert(its[k]@.contains(x));
                                    assert(!its[0]@.contains(x));
                                    assert(h1.link(x) == h0.link(x));
                                    assert(x != c);
                                    assert(heap.link(x).next == h1.link(x).next);
                                }
                                assert forall|j: int| 0 <= j < iter@.len() implies heap.live(
                                    #[trigger] iter@[j],
                                ) && heap.link(iter@[j]) == h1.link(iter@[j]) by {
                                    let x = iter@[j];
                                    assert(h1.sib_ok(iter@, j, NIL));
                                    assert(x == run[j + 1]);
                                    assert(x != c);
                                    assert(heap.link(x).next == h1.link(x).next);
                                }
                                assert forall|k: int| 0 <= k < now.len() implies (#[trigger] now[k]).wf(
                                    heap,
                                ) by {
                                    if k == 0 {
                                        iter.held().kept(heap, &h1);
                                    } else if k < its.len() {
                                        assert(its[k].wf(&h0));
                                        its[k].held().kept(heap, &h0);
                                    }
                                }
                                assert forall|a: int, b: int, x: usize|
                                    0 <= a < b < now.len() && #[trigger] now[a]@.contains(x) implies !(
                                #[trigger] now[b]@.contains(x)) by {
                                    if now[b]@.contains(x) {
                                        if a == 0 {
                                            let j = choose|j: int| 0 <= j < iter@.len() && iter@[j] == x;
                                            assert(run[j + 1] == x);
                                            assert(its[0]@.contains(x));
                                        } else {
                                            assert(its[a]@.contains(x));
                                        }
                                        if b < its.len() {
                                            assert(its[b]@.contains(x));
                                        } else {
                                            assert(below.contains(x));
                                            assert(h1.link(x).parent == c);
                                            let k = if a == 0 {
                                                0
                                            } else {
                                                a
                                            };
                                            assert(its[k].wf(&h0));
                                            let j = choose|j: int| 0 <= j < its[k]@.len() && its[k]@[j] == x;
                                            assert(h0.sib_ok(its[k]@, j, NIL));
                                            assert(h1.link(x).parent == h0.link(x).parent);
                                        }
                                    }
                                }
                                assert forall|i: usize|
                                    #![trigger heap.live(i)]
                                    #![trigger heap.link(i)]
                                    #![trigger heap.kids(i)]
                                    #![trigger heap.payload(i)]
                                    i != c implies {
                                        &&& heap.live(i) == old(heap).live(i)
                                        &&& heap.payload(i) == old(heap).payload(i)
                                        &&& heap.kids(i) == old(heap).kids(i)
                                        &&& heap.link(i).child == old(heap).link(i).child
                                        &&& heap.link(i).size == old(heap).link(i).size
                                        &&& heap.link(i).parent == (if old(heap).kids(c).contains(i) {
                                            NIL
                                        } else {
                                            old(heap).link(i).parent
                                        })
                                        &&& old(heap).link(i).parent != NIL ==> heap.link(i).next == old(
                                            heap,
                                        ).link(i).next && heap.link(i).prev == old(heap).link(i).prev
                                    } by {
                                    assert(h0.link(i) == old(heap).link(i));
                                    assert(h1.live(i) == h0.live(i));
                                    assert(h1.link(i).parent == h0.link(i).parent);
                                    if run.contains(i) {
                                        let j = choose|j: int| 0 <= j < run.len() && run[j] == i;
                                        assert(h0.sib_ok(run, j, NIL));
                                    }
                                    assert(heap.link(i).next == h1.link(i).next);
                                }
                                assert(self.runs() =~= q0.update(0, run.drop_first()).push(
                                    old(heap).kids(c),
                                )) by {
                                    assert forall|k: int| 0 <= k < now.len() implies #[trigger] self.runs()[k]
                                        == q0.update(0, run.drop_first()).push(old(heap).kids(c))[k] by {
                                        if 0 < k < its.len() {
                                            assert(now[k] == its[k]);
                                        }
                                    }
                                }
                            }
                            return Some(Visit { data, size });
                        },
                        None => {
                            proof {
                                let now = self.queue();
                                assert(run.len() == 0);
                                assert forall|i: usize| !run.contains(i) by {}
                                assert forall|k: int| 0 <= k < now.len() implies (#[trigger] now[k]).wf(
                                    heap,
                                ) by {
                                    assert(now[k] == its[k + 1]);
                                    assert(its[k + 1].wf(&h0));
                                    assert forall|j: int| 0 <= j < now[k]@.len() implies heap.live(
                                        #[trigger] now[k]@[j],
                                    ) && heap.link(now[k]@[j]) == h0.link(now[k]@[j]) by {
                                        assert(h0.sib_ok(now[k]@, j, NIL));
                                    }
                                    now[k].held().kept(heap, &h0);
                                }
                                assert forall|a: int, b: int, x: usize|
                                    0 <= a < b < now.len() && #[trigger] now[a]@.contains(x) implies !(
                                #[trigger] now[b]@.contains(x)) by {
                                    assert(now[a] == its[a + 1]);
                                    assert(now[b] == its[b + 1]);
                                    assert(its[a + 1]@.contains(x));
                                }
                                assert(self.runs() =~= q0.drop_first()) by {
                                    assert forall|k: int| 0 <= k < now.len() implies #[trigger] self.runs()[k]
                                        == q0.drop_first()[k] by {
                                        assert(now[k] == its[k + 1]);
                                    }
                                }
                                assert forall|i: usize| !Seq::<usize>::empty().contains(i) by {}
                            }
                        },
                    }
                },
            }
        }
    }
}

} // verus!
