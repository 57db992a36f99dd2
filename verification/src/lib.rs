//! A multi-way tree and forest container.
//!
//! Nodes live in a [`Heap`], an arena of slots addressed by stable indices.
//! Every node carries a header ([`Link`]) that ties it into the circular ring
//! of its siblings, names its last child and its parent, and caches the
//! [`Size`] of the subtree below it. [`Tree`], [`Forest`] and [`Node`] are
//! handles into a heap; every operation on them takes the heap it works on.
//!
//! A heap is at rest ([`Heap::wf`]) when the headers of its nodes agree with
//! one another and with the children recorded for every node, and the cached
//! sizes are exact at every level. Every operation that changes a heap asks
//! for a heap at rest and leaves one.

/// Aggregate statistics of a node.
pub mod size;
/// The arena that stores the nodes.
pub mod heap;
/// The node header and the public view of a node.
pub mod node;
/// What it means for the nodes of a heap to form trees.
pub mod shape;
/// What putting trees under a node and taking a child out do to a heap.
pub mod graft;
/// A single rooted tree.
pub mod tree;
/// An ordered list of trees without a node above them.
pub mod forest;
/// Linear iteration over a run of siblings.
pub mod iter;
/// Iteration over the children of a node that can change them on the way.
pub mod onto_iter;
/// A depth-first walk that is driven from outside.
pub mod walk;
/// Breadth-first traversal.
pub mod bfs;
/// Laws of the operations on nodes, trees and forests.
pub mod laws;
/// The order in which a walk visits the nodes.
pub mod order;
/// The order in which a breadth-first traversal visits the nodes.
pub mod level;
/// Text rendering.
pub mod render;
/// Subtrees of the same shape.
pub mod twin;
/// Structural equality and order.
pub mod compare;
/// Deep copies.
pub mod clone;
/// Building trees and forests from their parts.
pub mod notation;
/// The children of a node, seen as a forest.
pub mod children;

pub use crate::children::Children;
pub use crate::forest::Forest;
pub use crate::heap::Heap;
pub use crate::heap::NIL;
pub use crate::iter::Iter;
pub use crate::iter::IterMut;
pub use crate::node::Link;
pub use crate::node::Node;
pub use crate::notation::fr;
pub use crate::notation::tr;
pub use crate::onto_iter::OntoIter;
pub use crate::render::Render;
pub use crate::size::Size;
pub use crate::tree::Tree;
pub use crate::walk::ForestWalk;
pub use crate::walk::TreeWalk;
