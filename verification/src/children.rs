//! The children of a node, seen as a forest.

use vstd::prelude::*;
use crate::heap::Heap;
use crate::iter::Iter;
use crate::node::Node;

verus! {

/// The children of a node, seen as the trees of a forest. The view borrows
/// the heap of the node; it holds nothing of its own.
pub struct Children<'a, T> {
    heap: &'a Heap<T>,
    at: usize,
}

impl<'a, T> View for Children<'a, T> {
    type V = Seq<usize>;

    /// Where the roots of the trees stand, first to last.
    closed spec fn view(&self) -> Seq<usize> {
        self.heap.kids(self.at)
    }
}

impl<'a, T> Children<'a, T> {
    /// The heap that the view borrows.
    pub closed spec fn heap(&self) -> Heap<T> {
        *self.heap
    }

    /// The node whose children are seen.
    pub closed spec fn parent_at(&self) -> usize {
        self.at
    }

    /// Whether the view is one of the children of a node of a heap at rest.
    pub open spec fn wf(&self) -> bool {
        &&& self.heap().wf()
        &&& self.heap().live(self.parent_at())
        &&& self@ == self.heap().kids(self.parent_at())
    }

    /// Whether there are no trees.
    pub fn is_empty(&self) -> (empty: bool)
        requires
            self.wf(),
        ensures
            empty == (self@.len() == 0),
    {
        Node { at: self.at }.is_leaf(self.heap)
    }

    /// The number of trees.
    pub fn degree(&self) -> (degree: usize)
        requires
            self.wf(),
        ensures
            degree == self@.len(),
    {
        Node { at: self.at }.degree(self.heap)
    }

    /// The number of nodes of all trees together.
    pub fn node_count(&self) -> (count: usize)
        requires
            self.wf(),
        ensures
            count == self.heap().weight(self@),
    {
        proof {
            self.heap.size_invariant(self.at);
            self.heap.weight_nonneg(self.heap.kids(self.at));
        }
        Node { at: self.at }.node_count(self.heap) - 1
    }

    /// The root of the first tree, if there is one.
    pub fn first(&self) -> (first: Option<Node>)
        requires
            self.wf(),
        ensures
            first == (if self@.len() == 0 {
                None
            } else {
                Some(Node { at: self@[0] })
            }),
    {
        Node { at: self.at }.first(self.heap)
    }

    /// The root of the last tree, if there is one.
    pub fn last(&self) -> (last: Option<Node>)
        requires
            self.wf(),
        ensures
            last == (if self@.len() == 0 {
                None
            } else {
                Some(Node { at: self@.last() })
            }),
    {
        Node { at: self.at }.last(self.heap)
    }

    /// The roots of the trees, first to last.
    pub fn iter(&self) -> (iter: Iter)
        requires
            self.wf(),
        ensures
            iter@ == self@,
            iter.wf(&self.heap()),
    {
        Node { at: self.at }.iter(self.heap)
    }
}

impl Node {
    /// The children of this node, seen as the trees of a forest.
    pub fn forest<'a, T>(&self, heap: &'a Heap<T>) -> (view: Children<'a, T>)
        requires
            heap.wf(),
            heap.live(self.at),
        ensures
            view.wf(),
            view.heap() == *heap,
            view.parent_at() == self.at,
    {
        Children { heap, at: self.at }
    }
}

} // verus!
