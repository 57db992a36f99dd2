//! A depth-first walk that is driven from outside, one visit at a time.

use vstd::prelude::*;
use crate::forest::Forest;
use crate::heap::Heap;
use crate::heap::NIL;
use crate::node::Node;
use crate::tree::Tree;

verus! {

/// One visit of a walk: a node with children is visited when the walk enters
/// it (`Begin`) and again when it leaves it (`End`), a node without children
/// once (`Leaf`).
#[derive(Copy, Clone, Debug, PartialEq, Eq, Structural)]
pub enum Visit {
    Begin(Node),
    End(Node),
    Leaf(Node),
}

impl Visit {
    /// The node that is visited.
    pub fn node(&self) -> (node: Node)
        ensures
            node == (match *self {
                Visit::Begin(n) => n,
                Visit::End(n) => n,
                Visit::Leaf(n) => n,
            }),
    {
        match *self {
            Visit::Begin(node) => node,
            Visit::End(node) => node,
            Visit::Leaf(node) => node,
        }
    }
}

/// What the last visit of a walk was; `Idle` before the first step and after
/// the last.
#[derive(Copy, Clone, Debug, PartialEq, Eq, Structural)]
pub enum VisitType {
    Idle,
    Begin,
    End,
    Leaf,
}

/// One level of a walk: the position in a ring of siblings, and the position
/// at which the ring has been gone round.
#[derive(Copy, Clone, Debug, PartialEq, Eq, Structural)]
pub struct Nodes {
    pub node: usize,
    pub sentinel: usize,
}

impl Nodes {
    /// The level that visits `node` alone, whatever siblings it has.
    pub(crate) fn this<T>(heap: &Heap<T>, node: usize) -> (nodes: Nodes)
        requires
            heap.live(node),
        ensures
            nodes == (Nodes { node, sentinel: heap.link(node).next }),
    {
        Nodes { node, sentinel: heap.get(node).next }
    }

    /// The level that visits `node` and the siblings after it, once round
    /// the ring.
    pub(crate) fn sibs(node: usize) -> (nodes: Nodes)
        ensures
            nodes == (Nodes { node, sentinel: node }),
    {
        Nodes { node, sentinel: node }
    }
}

/// The move that a walk tries next.
#[derive(Copy, Clone, Debug, PartialEq, Eq, Structural)]
pub enum Direction {
    Up,
    Down,
    Right,
}

/// The state of a walk: one level for every depth from where the walk began
/// down to where it stands, the move to try next, and what the last visit
/// was.
pub struct Cursor {
    pub path: Seq<Nodes>,
    pub direction: Direction,
    pub visit_type: VisitType,
    pub origin: usize,
}

impl Cursor {
    /// The state before any walk.
    pub open spec fn blank() -> Cursor {
        Cursor { path: Seq::empty(), direction: Direction::Down, visit_type: VisitType::Idle, origin: NIL }
    }

    /// The kind of visit on arriving at node `at`.
    pub open spec fn arrival<T>(heap: &Heap<T>, at: usize) -> VisitType {
        if heap.kids(at).len() == 0 {
            VisitType::Leaf
        } else {
            VisitType::Begin
        }
    }

    /// The state once the walk has been set on the level `nodes`, where it
    /// begins.
    pub open spec fn set_on<T>(heap: &Heap<T>, nodes: Nodes) -> Cursor {
        Cursor {
            path: seq![nodes],
            direction: Direction::Down,
            visit_type: Cursor::arrival(heap, nodes.node),
            origin: nodes.node,
        }
    }

    /// The visit that the walk stands at, if any.
    pub open spec fn get(self) -> Option<Visit> {
        if self.path.len() > 0 {
            let node = Node { at: self.path.last().node };
            match self.visit_type {
                VisitType::Begin => Some(Visit::Begin(node)),
                VisitType::End => Some(Visit::End(node)),
                VisitType::Leaf => Some(Visit::Leaf(node)),
                VisitType::Idle => None,
            }
        } else {
            None
        }
    }

    /// The state with the position of the last level moved to `node`.
    pub open spec fn moved(self, node: usize) -> Cursor {
        Cursor {
            path: self.path.update(
                self.path.len() - 1,
                Nodes { node, sentinel: self.path.last().sentinel },
            ),
            ..self
        }
    }

    /// The state after leaving the last level: the level above reports its
    /// `End`, and where there is none the walk is over.
    pub open spec fn up(self) -> Cursor {
        let path = if self.path.len() > 0 {
            self.path.drop_last()
        } else {
            self.path
        };
        if path.len() > 0 {
            Cursor { path, direction: Direction::Right, visit_type: VisitType::End, ..self }
        } else {
            Cursor { path, direction: Direction::Down, visit_type: VisitType::Idle, ..self }
        }
    }

    /// The state after entering the children of the node the walk stands at,
    /// which has children.
    pub open spec fn down<T>(self, heap: &Heap<T>) -> Cursor {
        let head = heap.kids(self.path.last().node)[0];
        Cursor {
            path: self.path.push(Nodes { node: head, sentinel: head }),
            visit_type: Cursor::arrival(heap, head),
            ..self
        }
    }

    /// The state after the visit of the node that the walk has just moved to.
    pub open spec fn arrived<T>(self, heap: &Heap<T>) -> Cursor {
        if heap.kids(self.path.last().node).len() == 0 {
            Cursor { visit_type: VisitType::Leaf, ..self }
        } else {
            Cursor { visit_type: VisitType::Begin, direction: Direction::Down, ..self }
        }
    }

    /// The state after moving on to the next sibling: where the ring has
    /// been gone round, the walk leaves the level.
    pub open spec fn right<T>(self, heap: &Heap<T>) -> Cursor {
        let next = heap.link(self.path.last().node).next;
        if next == self.path.last().sentinel {
            (Cursor { direction: Direction::Up, ..self.moved(next) }).up()
        } else {
            self.moved(next).arrived(heap)
        }
    }

    /// The state after one step forward. Going down, the walk enters the
    /// children of the node it stands at, or, at a leaf, moves on to the
    /// right; going right, it moves on to the next sibling, or, where the
    /// ring has been gone round, up; going up, it leaves the level.
    pub open spec fn forward<T>(self, heap: &Heap<T>) -> Cursor {
        match self.direction {
            Direction::Up => self.up(),
            Direction::Down => if self.path.len() == 0 {
                self
            } else if heap.kids(self.path.last().node).len() == 0 {
                (Cursor { direction: Direction::Right, ..self }).right(heap)
            } else {
                self.down(heap)
            },
            Direction::Right => if self.path.len() == 0 {
                self
            } else {
                self.right(heap)
            },
        }
    }

    /// The state after moving on by `n` siblings, and whether the ring was
    /// not gone round on the way.
    pub open spec fn hop<T>(self, heap: &Heap<T>, n: nat) -> (Cursor, bool)
        decreases n,
    {
        if n == 0 {
            (self, true)
        } else {
            let next = heap.link(self.path.last().node).next;
            if next == self.path.last().sentinel {
                (Cursor { direction: Direction::Up, ..self.moved(next) }, false)
            } else {
                self.moved(next).hop(heap, (n - 1) as nat)
            }
        }
    }

    /// The state after a jump across by `n` siblings.
    pub open spec fn to_sib<T>(self, heap: &Heap<T>, n: nat) -> Cursor {
        if self.path.len() == 0 {
            self
        } else if self.hop(heap, n).1 {
            self.hop(heap, n).0.arrived(heap)
        } else {
            self.hop(heap, n).0
        }
    }

    /// Whether a jump across by `n` siblings finds a node.
    pub open spec fn has_sib<T>(self, heap: &Heap<T>, n: nat) -> bool {
        self.path.len() > 0 && self.hop(heap, n).1
    }

    /// The state after a jump down to the child at position `n`.
    pub open spec fn to_child<T>(self, heap: &Heap<T>, n: nat) -> Cursor {
        if self.path.len() == 0 {
            self
        } else if heap.kids(self.path.last().node).len() == 0 {
            Cursor { direction: Direction::Right, ..self }
        } else {
            self.down(heap).to_sib(heap, n)
        }
    }

    /// Whether a jump down to the child at position `n` finds a node.
    pub open spec fn has_child<T>(self, heap: &Heap<T>, n: nat) -> bool {
        self.path.len() > 0 && heap.kids(self.path.last().node).len() > 0 && self.down(heap).has_sib(
            heap,
            n,
        )
    }

    /// The state after the walk was told to visit again where it stands; a
    /// walk that is over starts again where it began.
    pub open spec fn revisit<T>(self, heap: &Heap<T>) -> Cursor {
        if self.origin == NIL {
            self
        } else {
            let path = if self.visit_type == VisitType::Idle {
                self.path.push(Nodes { node: self.origin, sentinel: self.origin })
            } else {
                self.path
            };
            Cursor {
                path,
                direction: Direction::Down,
                visit_type: if path.len() > 0 {
                    Cursor::arrival(heap, path.last().node)
                } else {
                    VisitType::Idle
                },
                ..self
            }
        }
    }

    /// The node of the level above the one the walk stands at, if any.
    pub open spec fn get_parent(self) -> Option<Node> {
        if self.path.len() >= 2 {
            Some(Node { at: self.path[self.path.len() - 2].node })
        } else {
            None
        }
    }

    /// Whether the node of level `k` is in use and a child of the node of
    /// the level above.
    pub open spec fn frame_ok<T>(self, heap: &Heap<T>, k: int) -> bool {
        &&& heap.live(self.path[k].node)
        &&& heap.link(self.path[k].node).parent == self.path[k - 1].node
    }

    /// Whether the state agrees with `heap`, for a walk over the ring of
    /// roots `tops`: the first level stands in that ring, and every other
    /// level among the children of the node of the level above. A walk
    /// without a visit has no level.
    pub open spec fn sound<T>(self, heap: &Heap<T>, tops: Seq<usize>) -> bool {
        &&& heap.ring(tops, NIL)
        &&& self.origin != NIL ==> tops.contains(self.origin)
        &&& self.path.len() > 0 ==> tops.contains(self.path[0].node)
        &&& self.visit_type == VisitType::Idle ==> self.path.len() == 0
        &&& forall|k: int| 1 <= k < self.path.len() ==> #[trigger] self.frame_ok(heap, k)
    }

    /// The node that a sound walk stands at is in use, and so is its next
    /// sibling, at which the walk is sound too.
    pub proof fn top_facts<T>(self, heap: &Heap<T>, tops: Seq<usize>)
        requires
            heap.wf(),
            self.sound(heap, tops),
            self.path.len() > 0,
        ensures
            heap.live(self.path.last().node),
            heap.live(heap.link(self.path.last().node).next),
            self.moved(heap.link(self.path.last().node).next).sound(heap, tops),
            (heap.link(self.path.last().node).child == NIL) == (heap.kids(self.path.last().node).len() == 0),
            heap.kids(self.path.last().node).len() > 0 ==> {
                &&& heap.live(heap.link(self.path.last().node).child)
                &&& heap.link(heap.link(self.path.last().node).child).next == heap.kids(
                    self.path.last().node,
                )[0]
                &&& heap.live(heap.kids(self.path.last().node)[0])
                &&& heap.link(heap.kids(self.path.last().node)[0]).parent == self.path.last().node
            },
    {
        let n = self.path.len() - 1;
        let c = self.path[n].node;
        let next = heap.link(c).next;
        let m = self.moved(next);
        if n == 0 {
            let j = choose|j: int| 0 <= j < tops.len() && tops[j] == c;
            assert(heap.sib_ok(tops, j, NIL));
            let s = if j + 1 < tops.len() {
                j + 1
            } else {
                0
            };
            assert(heap.sib_ok(tops, s, NIL));
            assert(tops[s] == next);
        } else {
            assert(self.frame_ok(heap, n));
            let p = self.path[n - 1].node;
            assert(heap.node_ok(c, 0, 0));
            if n - 1 == 0 {
                let j = choose|j: int| 0 <= j < tops.len() && tops[j] == p;
                assert(heap.sib_ok(tops, j, NIL));
            } else {
                assert(self.frame_ok(heap, n - 1));
            }
            assert(heap.node_ok(p, 0, 0));
            let ks = heap.kids(p);
            let j = choose|j: int| 0 <= j < ks.len() && ks[j] == c;
            assert(heap.sib_ok(ks, j, p));
            let s = if j + 1 < ks.len() {
                j + 1
            } else {
                0
            };
            assert(heap.sib_ok(ks, s, p));
        }
        assert forall|k: int| 1 <= k < m.path.len() implies #[trigger] m.frame_ok(heap, k) by {
            assert(self.frame_ok(heap, k));
        }
        assert(heap.node_ok(c, 0, 0));
        if heap.kids(c).len() > 0 {
            heap.ends_of_ring(heap.kids(c), c);
            assert(heap.sib_ok(heap.kids(c), 0, c));
        }
    }

    /// The node that a walk stands at is in use.
    pub proof fn top_entry<T>(self, heap: &Heap<T>, tops: Seq<usize>)
        requires
            heap.ring(tops, NIL),
            self.path.len() > 0,
            tops.contains(self.path[0].node),
            forall|k: int| 1 <= k < self.path.len() ==> #[trigger] self.frame_ok(heap, k),
        ensures
            heap.live(self.path.last().node),
    {
        let n = self.path.len() - 1;
        if n == 0 {
            let j = choose|j: int| 0 <= j < tops.len() && tops[j] == self.path[0].node;
            assert(heap.sib_ok(tops, j, NIL));
        } else {
            assert(self.frame_ok(heap, n));
        }
    }

    /// A sound walk is sound after it has gone down, up, or arrived.
    pub proof fn moves_sound<T>(self, heap: &Heap<T>, tops: Seq<usize>)
        requires
            heap.wf(),
            self.sound(heap, tops),
        ensures
            self.up().sound(heap, tops),
            self.path.len() > 0 ==> self.arrived(heap).sound(heap, tops),
            self.path.len() > 0 && heap.kids(self.path.last().node).len() > 0 ==> self.down(heap).sound(
                heap,
                tops,
            ),
            (Cursor { direction: Direction::Right, ..self }).sound(heap, tops),
            (Cursor { direction: Direction::Up, ..self }).sound(heap, tops),
    {
        let u = self.up();
        assert forall|k: int| 1 <= k < u.path.len() implies #[trigger] u.frame_ok(heap, k) by {
            assert(self.frame_ok(heap, k));
        }
        if self.path.len() > 0 {
            let a = self.arrived(heap);
            assert forall|k: int| 1 <= k < a.path.len() implies #[trigger] a.frame_ok(heap, k) by {
                assert(self.frame_ok(heap, k));
            }
            if heap.kids(self.path.last().node).len() > 0 {
                self.top_facts(heap, tops);
                let d = self.down(heap);
                assert forall|k: int| 1 <= k < d.path.len() implies #[trigger] d.frame_ok(heap, k) by {
                    if k < self.path.len() {
                        assert(self.frame_ok(heap, k));
                    }
                }
            }
        }
        let r = Cursor { direction: Direction::Right, ..self };
        assert forall|k: int| 1 <= k < r.path.len() implies #[trigger] r.frame_ok(heap, k) by {
            assert(self.frame_ok(heap, k));
        }
        let v = Cursor { direction: Direction::Up, ..self };
        assert forall|k: int| 1 <= k < v.path.len() implies #[trigger] v.frame_ok(heap, k) by {
            assert(self.frame_ok(heap, k));
        }
    }
}

/// A walk over the trees of a heap.
pub struct Walk {
    path: Vec<Nodes>,
    direction: Direction,
    visit_type: VisitType,
    origin: usize,
    tops: Ghost<Seq<usize>>,
}

impl View for Walk {
    type V = Cursor;

    /// The state of the walk.
    closed spec fn view(&self) -> Cursor {
        Cursor {
            path: self.path@,
            direction: self.direction,
            visit_type: self.visit_type,
            origin: self.origin,
        }
    }
}

impl Walk {
    /// The ring of roots that the walk goes over.
    pub closed spec fn tops(&self) -> Seq<usize> {
        self.tops@
    }

    /// Whether the walk agrees with `heap`.
    pub open spec fn wf<T>(&self, heap: &Heap<T>) -> bool {
        self@.sound(heap, self.tops())
    }

    /// A walk that is set on nothing.
    #[inline]
    pub(crate) fn default() -> (walk: Walk)
        ensures
            walk@ == Cursor::blank(),
            walk.tops() == Seq::<usize>::empty(),
    {
        Walk {
            path: Vec::new(),
            direction: Direction::Down,
            visit_type: VisitType::Idle,
            origin: NIL,
            tops: Ghost(Seq::empty()),
        }
    }

    /// Sets the walk back to where no step has been made.
    #[inline]
    fn reset(&mut self)
        ensures
            final(self)@ == (Cursor { origin: old(self)@.origin, ..Cursor::blank() }),
            final(self).tops() == old(self).tops(),
    {
        self.path.clear();
        self.direction = Direction::Down;
        self.visit_type = VisitType::Idle;
    }

    /// Reports the visit of the node that the walk stands at.
    #[inline]
    fn init_visit<T>(&mut self, heap: &Heap<T>)
        requires
            heap.wf(),
            old(self)@.path.len() > 0 ==> heap.live(old(self)@.path.last().node),
        ensures
            final(self)@ == (Cursor {
                visit_type: if old(self)@.path.len() > 0 {
                    Cursor::arrival(heap, old(self)@.path.last().node)
                } else {
                    VisitType::Idle
                },
                ..old(self)@
            }),
            final(self).tops() == old(self).tops(),
    {
        let n: usize = self.path.len();
        self.visit_type = if n > 0 {
            let at: usize = self.path[n - 1].node;
            proof {
                assert(heap.node_ok(at, 0, 0));
            }
            if heap.get(at).is_leaf() {
                VisitType::Leaf
            } else {
                VisitType::Begin
            }
        } else {
            VisitType::Idle
        };
    }

    /// Sets the walk on the tree rooted at `node`.
    #[inline]
    fn on_node<T>(&mut self, heap: &Heap<T>, node: usize)
        requires
            heap.wf(),
            heap.ring(seq![node], NIL),
        ensures
            final(self)@ == Cursor::set_on(heap, Nodes { node, sentinel: node }),
            final(self).tops() == seq![node],
            final(self).wf(heap),
    {
        proof {
            assert(heap.sib_ok(seq![node], 0, NIL));
        }
        self.reset();
        self.path.push(Nodes::this(heap, node));
        self.init_visit(heap);
        self.origin = node;
        let ghost tops = seq![node];
        self.tops = Ghost(tops);
        proof {
            assert(self@.path =~= seq![Nodes { node, sentinel: node }]);
            assert(seq![node][0] == node);
        }
    }

    /// Sets the walk on the trees rooted at `tops`, the first of which is
    /// `head`.
    #[inline]
    fn on_forest<T>(&mut self, heap: &Heap<T>, head: usize, Ghost(tops): Ghost<Seq<usize>>)
        requires
            heap.wf(),
            heap.ring(tops, NIL),
            tops.len() > 0,
            head == tops[0],
        ensures
            final(self)@ == Cursor::set_on(heap, Nodes { node: head, sentinel: head }),
            final(self).tops() == tops,
            final(self).wf(heap),
    {
        proof {
            assert(heap.sib_ok(tops, 0, NIL));
        }
        self.reset();
        self.path.push(Nodes::sibs(head));
        self.init_visit(heap);
        self.origin = head;
        self.tops = Ghost(tops);
        proof {
            assert(self@.path =~= seq![Nodes { node: head, sentinel: head }]);
        }
    }

    /// Visits again where the walk stands; a walk that is over starts again
    /// where it began.
    #[inline]
    fn revisit<T>(&mut self, heap: &Heap<T>)
        requires
            heap.wf(),
            old(self).wf(heap),
        ensures
            final(self)@ == old(self)@.revisit(heap),
            final(self).tops() == old(self).tops(),
            final(self).wf(heap),
    {
        if self.origin != NIL {
            match self.visit_type {
                VisitType::Idle => self.path.push(Nodes::sibs(self.origin)),
                _ => (),
            }
            self.direction = Direction::Down;
            proof {
                let c = self@;
                assert forall|k: int| 1 <= k < c.path.len() implies #[trigger] c.frame_ok(heap, k) by {
                    assert(old(self)@.frame_ok(heap, k));
                }
                if c.path.len() > 0 {
                    c.top_entry(heap, self.tops());
                }
            }
            self.init_visit(heap);
            proof {
                let c = self@;
                assert forall|k: int| 1 <= k < c.path.len() implies #[trigger] c.frame_ok(heap, k) by {
                    assert(old(self)@.frame_ok(heap, k));
                }
            }
        }
    }

    /// The visit that the walk stands at, if any.
    #[inline]
    fn get(&self) -> (visit: Option<Visit>)
        ensures
            visit == self@.get(),
    {
        let n: usize = self.path.len();
        if n > 0 {
            let node = Node { at: self.path[n - 1].node };
            match self.visit_type {
                VisitType::Begin => Some(Visit::Begin(node)),
                VisitType::End => Some(Visit::End(node)),
                VisitType::Leaf => Some(Visit::Leaf(node)),
                VisitType::Idle => None,
            }
        } else {
            None
        }
    }

    /// Leaves the last level.
    #[inline]
    fn leave<T>(&mut self, heap: &Heap<T>)
        requires
            heap.wf(),
            old(self).wf(heap),
        ensures
            final(self)@ == old(self)@.up(),
            final(self).tops() == old(self).tops(),
            final(self).wf(heap),
    {
        proof {
            self@.moves_sound(heap, self.tops());
        }
        if self.path.len() > 0 {
            self.path.pop();
        }
        if self.path.len() > 0 {
            self.direction = Direction::Right;
            self.visit_type = VisitType::End;
        } else {
            self.direction = Direction::Down;
            self.visit_type = VisitType::Idle;
        }
    }

    /// Moves the last level on to the next sibling, and tells whether the
    /// ring has not been gone round.
    #[inline]
    fn advance<T>(&mut self, heap: &Heap<T>) -> (more: bool)
        requires
            heap.wf(),
            old(self).wf(heap),
            old(self)@.path.len() > 0,
        ensures
            final(self)@ == old(self)@.moved(heap.link(old(self)@.path.last().node).next),
            more == (heap.link(old(self)@.path.last().node).next != old(self)@.path.last().sentinel),
            final(self).tops() == old(self).tops(),
            final(self).wf(heap),
    {
        proof {
            self@.top_facts(heap, self.tops());
        }
        let n: usize = self.path.len();
        let nodes: Nodes = self.path[n - 1];
        let next: usize = heap.get(nodes.node).next;
        self.path[n - 1].node = next;
        proof {
            assert(self@.path =~= old(self)@.moved(next).path);
        }
        next != nodes.sentinel
    }

    /// Reports the visit of the node that the walk has just moved to.
    #[inline]
    fn arrive<T>(&mut self, heap: &Heap<T>)
        requires
            heap.wf(),
            old(self).wf(heap),
            old(self)@.path.len() > 0,
        ensures
            final(self)@ == old(self)@.arrived(heap),
            final(self).tops() == old(self).tops(),
            final(self).wf(heap),
    {
        proof {
            self@.top_facts(heap, self.tops());
            self@.moves_sound(heap, self.tops());
        }
        let n: usize = self.path.len();
        if heap.get(self.path[n - 1].node).is_leaf() {
            self.visit_type = VisitType::Leaf;
        } else {
            self.visit_type = VisitType::Begin;
            self.direction = Direction::Down;
        }
    }

    /// Enters the children of the node that the walk stands at, and tells
    /// whether it has any.
    #[inline]
    fn descend<T>(&mut self, heap: &Heap<T>) -> (entered: bool)
        requires
            heap.wf(),
            old(self).wf(heap),
            old(self)@.path.len() > 0,
        ensures
            entered == (heap.kids(old(self)@.path.last().node).len() > 0),
            final(self)@ == (if entered {
                old(self)@.down(heap)
            } else {
                Cursor { direction: Direction::Right, ..old(self)@ }
            }),
            final(self).tops() == old(self).tops(),
            final(self).wf(heap),
    {
        proof {
            self@.top_facts(heap, self.tops());
            self@.moves_sound(heap, self.tops());
        }
        let n: usize = self.path.len();
        let node: usize = self.path[n - 1].node;
        if heap.get(node).is_leaf() {
            self.direction = Direction::Right;
            false
        } else {
            let head: usize = heap.head(node);
            proof {
                assert(heap.node_ok(head, 0, 0));
            }
            self.visit_type = if heap.get(head).is_leaf() {
                VisitType::Leaf
            } else {
                VisitType::Begin
            };
            self.path.push(Nodes::sibs(head));
            true
        }
    }

    /// Goes one step forward: down into the children, else on to the next
    /// sibling, else up.
    fn forward<T>(&mut self, heap: &Heap<T>)
        requires
            heap.wf(),
            old(self).wf(heap),
        ensures
            final(self)@ == old(self)@.forward(heap),
            final(self).tops() == old(self).tops(),
            final(self).wf(heap),
    {
        loop
            invariant_except_break
                self@.forward(heap) == old(self)@.forward(heap),
            invariant
                heap.wf(),
                self.wf(heap),
                self.tops() == old(self).tops(),
            ensures
                self@ == old(self)@.forward(heap),
            decreases
                    (match self@.direction {
                        Direction::Down => 2int,
                        Direction::Right => 1int,
                        Direction::Up => 0int,
                    }),
        {
            match self.direction {
                Direction::Up => {
                    self.leave(heap);
                    break ;
                },
                Direction::Down => {
                    if self.path.len() > 0 {
                        if !self.descend(heap) {
                            continue ;
                        }
                    }
                    break ;
                },
                Direction::Right => {
                    if self.path.len() > 0 {
                        if self.advance(heap) {
                            self.arrive(heap);
                            break ;
                        } else {
                            proof {
                                self@.moves_sound(heap, self.tops());
                            }
                            self.direction = Direction::Up;
                            continue ;
                        }
                    }
                    break ;
                },
            }
        }
    }

    /// Goes one step forward and returns the visit then stood at, if any.
    #[inline]
    fn next<T>(&mut self, heap: &Heap<T>) -> (visit: Option<Visit>)
        requires
            heap.wf(),
            old(self).wf(heap),
        ensures
            final(self)@ == old(self)@.forward(heap),
            visit == final(self)@.get(),
            final(self).tops() == old(self).tops(),
            final(self).wf(heap),
    {
        self.forward(heap);
        self.get()
    }

    /// Leaves the level stood at, and returns the `End` of the level above,
    /// if there is one.
    #[inline]
    fn to_parent<T>(&mut self, heap: &Heap<T>) -> (visit: Option<Visit>)
        requires
            heap.wf(),
            old(self).wf(heap),
        ensures
            final(self)@ == old(self)@.up(),
            visit == final(self)@.get(),
            final(self).tops() == old(self).tops(),
            final(self).wf(heap),
    {
        if self.path.len() > 0 {
            self.leave(heap);
            if self.path.len() > 0 {
                return self.get();
            }
            return None;
        }
        self.direction = Direction::Down;
        self.visit_type = VisitType::Idle;
        None
    }

    /// The node of the level above, if there is one.
    #[inline]
    fn get_parent(&self) -> (parent: Option<Node>)
        ensures
            parent == self@.get_parent(),
    {
        let n: usize = self.path.len();
        if n >= 2 {
            Some(Node { at: self.path[n - 2].node })
        } else {
            None
        }
    }

    /// Jumps across by `n` siblings.
    fn to_sib<T>(&mut self, heap: &Heap<T>, n: usize) -> (visit: Option<Visit>)
        requires
            heap.wf(),
            old(self).wf(heap),
        ensures
            final(self)@ == old(self)@.to_sib(heap, n as nat),
            visit == (if old(self)@.has_sib(heap, n as nat) {
                final(self)@.get()
            } else {
                None
            }),
            final(self).tops() == old(self).tops(),
            final(self).wf(heap),
    {
        if self.path.len() > 0 {
            let mut i: usize = 0;
            while i < n
                invariant
                    heap.wf(),
                    self.wf(heap),
                    self.tops() == old(self).tops(),
                    self@.path.len() > 0,
                    old(self)@.path.len() > 0,
                    i <= n,
                    self@.hop(heap, (n - i) as nat) == old(self)@.hop(heap, n as nat),
                decreases n - i,
            {
                let ghost before = self@;
                if !self.advance(heap) {
                    proof {
                        self@.moves_sound(heap, self.tops());
                    }
                    self.direction = Direction::Up;
                    proof {
                        assert(before.hop(heap, (n - i) as nat) == (self@, false));
                    }
                    return None;
                }
                proof {
                    assert(before.hop(heap, (n - i) as nat) == self@.hop(heap, (n - i - 1) as nat));
                }
                i = i + 1;
            }
            self.arrive(heap);
            self.get()
        } else {
            None
        }
    }

    /// Jumps down to the child at position `n`.
    fn to_child<T>(&mut self, heap: &Heap<T>, n: usize) -> (visit: Option<Visit>)
        requires
            heap.wf(),
            old(self).wf(heap),
        ensures
            final(self)@ == old(self)@.to_child(heap, n as nat),
            visit == (if old(self)@.has_child(heap, n as nat) {
                final(self)@.get()
            } else {
                None
            }),
            final(self).tops() == old(self).tops(),
            final(self).wf(heap),
    {
        if self.path.len() > 0 {
            if !self.descend(heap) {
                return None;
            }
            self.to_sib(heap, n)
        } else {
            None
        }
    }
}

/// A walk over a tree that it holds.
pub struct TreeWalk {
    tree: Tree,
    walk: Walk,
}

impl View for TreeWalk {
    type V = Cursor;

    /// The state of the walk.
    closed spec fn view(&self) -> Cursor {
        self.walk@
    }
}

impl TreeWalk {
    /// Where the root of the tree stands.
    pub closed spec fn root_at(&self) -> usize {
        self.tree@
    }

    /// The tree that the walk holds.
    pub closed spec fn held(&self) -> Tree {
        self.tree
    }

    /// Whether the walk goes over its own tree.
    pub closed spec fn shaped(&self) -> bool {
        self.walk.tops() == seq![self.tree@]
    }

    /// Whether the walk agrees with `heap`: it holds a tree of that heap and
    /// stands in it.
    pub open spec fn wf<T>(&self, heap: &Heap<T>) -> bool {
        &&& self.shaped()
        &&& self.held()@ == self.root_at()
        &&& self.held().wf(heap)
        &&& self@.sound(heap, seq![self.root_at()])
    }

    /// Takes `tree` for a walk, which begins at its root.
    pub fn from<T>(tree: Tree, heap: &Heap<T>) -> (walk: TreeWalk)
        requires
            heap.wf(),
            tree.wf(heap),
        ensures
            walk.wf(heap),
            walk.held() == tree,
            walk@ == Cursor::set_on(heap, Nodes { node: tree@, sentinel: tree@ }),
    {
        let mut walk = Walk::default();
        proof {
            assert(heap.sib_ok(seq![tree@], 0, NIL));
        }
        walk.on_node(heap, tree.root().at);
        TreeWalk { tree, walk }
    }

    /// Gives the tree back.
    pub fn into(self) -> (tree: Tree)
        ensures
            tree == self.held(),
    {
        self.tree
    }

    /// The visit that the walk stands at, if any.
    #[inline]
    pub fn get(&self) -> (visit: Option<Visit>)
        ensures
            visit == self@.get(),
    {
        self.walk.get()
    }

    /// Goes one step forward in the depth-first walk.
    #[inline]
    pub fn forward<T>(&mut self, heap: &Heap<T>)
        requires
            heap.wf(),
            old(self).wf(heap),
        ensures
            final(self)@ == old(self)@.forward(heap),
            final(self).root_at() == old(self).root_at(),
            final(self).held() == old(self).held(),
            final(self).wf(heap),
    {
        self.walk.forward(heap);
    }

    /// Goes one step forward and returns the visit that the walk then
    /// stands at, if any.
    #[inline]
    pub fn next<T>(&mut self, heap: &Heap<T>) -> (visit: Option<Visit>)
        requires
            heap.wf(),
            old(self).wf(heap),
        ensures
            final(self)@ == old(self)@.forward(heap),
            visit == final(self)@.get(),
            final(self).root_at() == old(self).root_at(),
            final(self).held() == old(self).held(),
            final(self).wf(heap),
    {
        self.walk.next(heap)
    }

    /// Leaves the level that the walk stands at, and returns the `End` of
    /// the level above, if there is one.
    #[inline]
    pub fn to_parent<T>(&mut self, heap: &Heap<T>) -> (visit: Option<Visit>)
        requires
            heap.wf(),
            old(self).wf(heap),
        ensures
            final(self)@ == old(self)@.up(),
            visit == final(self)@.get(),
            final(self).root_at() == old(self).root_at(),
            final(self).held() == old(self).held(),
            final(self).wf(heap),
    {
        self.walk.to_parent(heap)
    }

    /// The node of the level above, if there is one. The walk does not move.
    #[inline]
    pub fn get_parent(&self) -> (parent: Option<Node>)
        ensures
            parent == self@.get_parent(),
    {
        self.walk.get_parent()
    }

    /// Jumps down to the child at position `n` of the node that the walk
    /// stands at, and returns its visit, if there is such a child.
    #[inline]
    pub fn to_child<T>(&mut self, heap: &Heap<T>, n: usize) -> (visit: Option<Visit>)
        requires
            heap.wf(),
            old(self).wf(heap),
        ensures
            final(self)@ == old(self)@.to_child(heap, n as nat),
            visit == (if old(self)@.has_child(heap, n as nat) {
                final(self)@.get()
            } else {
                None
            }),
            final(self).root_at() == old(self).root_at(),
            final(self).held() == old(self).held(),
            final(self).wf(heap),
    {
        self.walk.to_child(heap, n)
    }

    /// Jumps across by `n` siblings and returns the visit of the node found,
    /// if the ring is not gone round on the way.
    #[inline]
    pub fn to_sib<T>(&mut self, heap: &Heap<T>, n: usize) -> (visit: Option<Visit>)
        requires
            heap.wf(),
            old(self).wf(heap),
        ensures
            final(self)@ == old(self)@.to_sib(heap, n as nat),
            visit == (if old(self)@.has_sib(heap, n as nat) {
                final(self)@.get()
            } else {
                None
            }),
            final(self).root_at() == old(self).root_at(),
            final(self).held() == old(self).held(),
            final(self).wf(heap),
    {
        self.walk.to_sib(heap, n)
    }

    /// Visits again where the walk stands, as if it had just arrived; a walk
    /// that is over starts again at the root.
    #[inline]
    pub fn revisit<T>(&mut self, heap: &Heap<T>)
        requires
            heap.wf(),
            old(self).wf(heap),
        ensures
            final(self)@ == old(self)@.revisit(heap),
            final(self).root_at() == old(self).root_at(),
            final(self).held() == old(self).held(),
            final(self).wf(heap),
    {
        self.walk.revisit(heap);
    }
}

/// A walk over the trees of a forest that it holds.
pub struct ForestWalk {
    forest: Forest,
    walk: Walk,
}

impl View for ForestWalk {
    type V = Cursor;

    /// The state of the walk.
    closed spec fn view(&self) -> Cursor {
        self.walk@
    }
}

impl ForestWalk {
    /// Where the roots of the trees stand, first to last.
    pub closed spec fn roots(&self) -> Seq<usize> {
        self.forest@
    }

    /// The forest that the walk holds.
    pub closed spec fn held(&self) -> Forest {
        self.forest
    }

    /// Whether the walk goes over its own forest.
    pub closed spec fn shaped(&self) -> bool {
        self.walk.tops() == self.forest@
    }

    /// Whether the walk agrees with `heap`: it holds a forest of that heap
    /// and stands in it.
    pub open spec fn wf<T>(&self, heap: &Heap<T>) -> bool {
        &&& self.shaped()
        &&& self.held()@ == self.roots()
        &&& self.held().wf(heap)
        &&& self@.sound(heap, self.roots())
    }

    /// Takes `forest` for a walk, which begins at the root of its first
    /// tree. The walk over an empty forest is over before it begins.
    pub fn from<T>(forest: Forest, heap: &Heap<T>) -> (walk: ForestWalk)
        requires
            heap.wf(),
            forest.wf(heap),
        ensures
            walk.wf(heap),
            walk.held() == forest,
            walk@ == (if forest@.len() == 0 {
                Cursor::blank()
            } else {
                Cursor::set_on(heap, Nodes { node: forest@[0], sentinel: forest@[0] })
            }),
    {
        let mut walk = Walk::default();
        if !forest.is_empty() {
            proof {
                heap.ends_of_ring(forest@, NIL);
            }
            walk.on_forest(heap, forest.head(heap), Ghost(forest@));
        } else {
            walk.tops = Ghost(forest@);
        }
        ForestWalk { forest, walk }
    }

    /// Gives the forest back.
    pub fn into(self) -> (forest: Forest)
        ensures
            forest == self.held(),
    {
        self.forest
    }

    /// The visit that the walk stands at, if any.
    #[inline]
    pub fn get(&self) -> (visit: Option<Visit>)
        ensures
            visit == self@.get(),
    {
        self.walk.get()
    }

    /// Goes one step forward in the depth-first walk.
    #[inline]
    pub fn forward<T>(&mut self, heap: &Heap<T>)
        requires
            heap.wf(),
            old(self).wf(heap),
        ensures
            final(self)@ == old(self)@.forward(heap),
            final(self).roots() == old(self).roots(),
            final(self).held() == old(self).held(),
            final(self).wf(heap),
    {
        self.walk.forward(heap);
    }

    /// Goes one step forward and returns the visit that the walk then
    /// stands at, if any.
    #[inline]
    pub fn next<T>(&mut self, heap: &Heap<T>) -> (visit: Option<Visit>)
        requires
            heap.wf(),
            old(self).wf(heap),
        ensures
            final(self)@ == old(self)@.forward(heap),
            visit == final(self)@.get(),
            final(self).roots() == old(self).roots(),
            final(self).held() == old(self).held(),
            final(self).wf(heap),
    {
        self.walk.next(heap)
    }

    /// Leaves the level that the walk stands at, and returns the `End` of
    /// the level above, if there is one.
    #[inline]
    pub fn to_parent<T>(&mut self, heap: &Heap<T>) -> (visit: Option<Visit>)
        requires
            heap.wf(),
            old(self).wf(heap),
        ensures
            final(self)@ == old(self)@.up(),
            visit == final(self)@.get(),
            final(self).roots() == old(self).roots(),
            final(self).held() == old(self).held(),
            final(self).wf(heap),
    {
        self.walk.to_parent(heap)
    }

    /// The node of the level above, if there is one. The walk does not move.
    #[inline]
    pub fn get_parent(&self) -> (parent: Option<Node>)
        ensures
            parent == self@.get_parent(),
    {
        self.walk.get_parent()
    }

    /// Jumps down to the child at position `n` of the node that the walk
    /// stands at, and returns its visit, if there is such a child.
    #[inline]
    pub fn to_child<T>(&mut self, heap: &Heap<T>, n: usize) -> (visit: Option<Visit>)
        requires
            heap.wf(),
            old(self).wf(heap),
        ensures
            final(self)@ == old(self)@.to_child(heap, n as nat),
            visit == (if old(self)@.has_child(heap, n as nat) {
                final(self)@.get()
            } else {
                None
            }),
            final(self).roots() == old(self).roots(),
            final(self).held() == old(self).held(),
            final(self).wf(heap),
    {
        self.walk.to_child(heap, n)
    }

    /// Jumps across by `n` siblings and returns the visit of the node found,
    /// if the ring is not gone round on the way.
    #[inline]
    pub fn to_sib<T>(&mut self, heap: &Heap<T>, n: usize) -> (visit: Option<Visit>)
        requires
            heap.wf(),
            old(self).wf(heap),
        ensures
            final(self)@ == old(self)@.to_sib(heap, n as nat),
            visit == (if old(self)@.has_sib(heap, n as nat) {
                final(self)@.get()
            } else {
                None
            }),
            final(self).roots() == old(self).roots(),
            final(self).held() == old(self).held(),
            final(self).wf(heap),
    {
        self.walk.to_sib(heap, n)
    }

    /// Visits again where the walk stands, as if it had just arrived; a walk
    /// that is over starts again at the first tree.
    #[inline]
    pub fn revisit<T>(&mut self, heap: &Heap<T>)
        requires
            heap.wf(),
            old(self).wf(heap),
        ensures
            final(self)@ == old(self)@.revisit(heap),
            final(self).roots() == old(self).roots(),
            final(self).held() == old(self).held(),
            final(self).wf(heap),
    {
        self.walk.revisit(heap);
    }
}

} // verus!
