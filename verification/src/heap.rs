//! The arena that stores the nodes.

use vstd::prelude::*;
use crate::node::Link;

verus! {

/// The index that names no node.
pub const NIL: usize = usize::MAX;

/// An arena of nodes. A node keeps its index from [`Heap::make_node`] to
/// [`Heap::drop_node`]; a dropped slot is kept on a chain and handed out again.
///
/// Beside the headers and payloads the heap records, as ghost state, the
/// children of every node in order, so that the shape of the stored trees can
/// be spoken of directly.
pub struct Heap<T> {
    links: Vec<Link>,
    data: Vec<Option<T>>,
    /// Head of the chain of unused slots, linked through `next`.
    spare: usize,
    kids: Ghost<Seq<Seq<usize>>>,
    idle: Ghost<Seq<usize>>,
    used: Ghost<Seq<bool>>,
}

/// Whether the `k`-th unused slot is unused and names the next one.
spec fn idle_ok(links: Seq<Link>, used: Seq<bool>, idle: Seq<usize>, k: int) -> bool {
    &&& idle[k] < links.len()
    &&& !used[idle[k] as int]
    &&& links[idle[k] as int].next == (if k + 1 < idle.len() {
        idle[k + 1]
    } else {
        NIL
    })
}

/// Whether the chain of unused slots is intact.
spec fn chained(links: Seq<Link>, used: Seq<bool>, idle: Seq<usize>, spare: usize) -> bool {
    &&& idle.no_duplicates()
    &&& forall|k: int| 0 <= k < idle.len() ==> #[trigger] idle_ok(links, used, idle, k)
    &&& spare == (if idle.len() > 0 {
        idle[0]
    } else {
        NIL
    })
}

impl<T> Heap<T> {
    /// Whether slot `i` holds a node.
    pub closed spec fn used(&self, i: usize) -> bool {
        i < self.links.len() && i < self.data.len() && self.data[i as int].is_some()
    }

    /// Whether `i` names a node that is in use. [`NIL`] names none.
    pub open spec fn live(&self, i: usize) -> bool {
        i != NIL && self.used(i)
    }

    /// The header of node `i`.
    pub closed spec fn link(&self, i: usize) -> Link {
        if i < self.links.len() {
            self.links[i as int]
        } else {
            Link::solo(NIL)
        }
    }

    /// The payload of node `i`.
    pub closed spec fn payload(&self, i: usize) -> T {
        if i < self.data.len() && self.data[i as int].is_some() {
            self.data[i as int].unwrap()
        } else {
            arbitrary()
        }
    }

    /// The children of node `i`, first to last.
    pub closed spec fn kids(&self, i: usize) -> Seq<usize> {
        if i < self.kids@.len() {
            self.kids@[i as int]
        } else {
            Seq::empty()
        }
    }

    /// The storage invariant: every node in use has a payload, and the chain
    /// of unused slots is intact.
    pub closed spec fn sound(&self) -> bool {
        &&& self.data.len() == self.links.len()
        &&& self.kids@.len() == self.links.len()
        &&& self.used@.len() == self.links.len()
        &&& forall|i: int| 0 <= i < self.data.len() ==> self.used@[i] == (#[trigger] self.data[i]).is_some()
        &&& chained(self.links@, self.used@, self.idle@, self.spare)
    }

    /// Whether node `i` is the same in `self` and in `o`.
    pub open spec fn same_at(&self, o: &Heap<T>, i: usize) -> bool {
        &&& self.live(i) == o.live(i)
        &&& self.link(i) == o.link(i)
        &&& self.payload(i) == o.payload(i)
        &&& self.kids(i) == o.kids(i)
    }

    /// Whether `self` and `o` differ at most at node `at`.
    pub open spec fn same_but(&self, o: &Heap<T>, at: usize) -> bool {
        forall|i: usize|
            #![trigger self.live(i)]
            #![trigger self.link(i)]
            #![trigger self.kids(i)]
            #![trigger self.payload(i)]
            i != at ==> self.same_at(o, i)
    }

    /// No children are recorded for [`NIL`].
    pub proof fn no_kids_of_nil(&self)
        requires
            self.sound(),
        ensures
            self.kids(NIL) == Seq::<usize>::empty(),
    {
    }

    /// An empty heap.
    pub fn new() -> (heap: Heap<T>)
        ensures
            heap.sound(),
            forall|i: usize| !heap.live(i),
    {
        Heap {
            links: Vec::new(),
            data: Vec::new(),
            spare: NIL,
            kids: Ghost(Seq::empty()),
            idle: Ghost(Seq::empty()),
            used: Ghost(Seq::empty()),
        }
    }

    /// Stores `data` in a node of its own, which stands alone, and returns
    /// where it stands.
    pub(crate) fn make_node(&mut self, data: T) -> (at: usize)
        requires
            old(self).sound(),
        ensures
            final(self).sound(),
            !old(self).live(at),
            final(self).live(at),
            final(self).link(at) == Link::solo(at),
            final(self).payload(at) == data,
            final(self).kids(at) == Seq::<usize>::empty(),
            final(self).same_but(old(self), at),
    {
        if self.spare == NIL {
            assert(self.idle@.len() == 0) by {
                if self.idle@.len() > 0 {
                    assert(idle_ok(self.links@, self.used@, self.idle@, 0));
                }
            }
            let at: usize = self.links.len();
            self.links.push(Link::alone(at));
            self.data.push(Some(data));
            proof {
                self.kids@ = self.kids@.push(Seq::empty());
                self.used@ = self.used@.push(true);
            }
            at
        } else {
            let at: usize = self.spare;
            assert(idle_ok(self.links@, self.used@, self.idle@, 0));
            self.spare = self.links[at].next;
            self.links[at] = Link::alone(at);
            self.data[at] = Some(data);
            proof {
                let before = self.idle@;
                self.idle@ = before.drop_first();
                self.kids@ = self.kids@.update(at as int, Seq::empty());
                self.used@ = self.used@.update(at as int, true);
                assert forall|k: int| 0 <= k < self.idle@.len() implies (#[trigger] self.idle@[k])
                    != at by {
                    assert(before[k + 1] == self.idle@[k]);
                    assert(before[0] == at);
                }
                assert forall|k: int| 0 <= k < self.idle@.len() implies #[trigger] idle_ok(
                    self.links@,
                    self.used@,
                    self.idle@,
                    k,
                ) by {
                    assert(before[k + 1] == self.idle@[k]);
                    assert(idle_ok(old(self).links@, old(self).used@, before, k + 1));
                }
            }
            at
        }
    }

    /// Gives up node `at` and returns its payload. The slot will be handed
    /// out again.
    pub(crate) fn drop_node(&mut self, at: usize) -> (data: T)
        requires
            old(self).sound(),
            old(self).live(at),
        ensures
            final(self).sound(),
            !final(self).live(at),
            data == old(self).payload(at),
            final(self).same_but(old(self), at),
    {
        let data: Option<T> = self.data[at].take();
        self.links[at].next = self.spare;
        self.spare = at;
        proof {
            let before = self.idle@;
            self.idle@ = seq![at] + before;
            self.used@ = self.used@.update(at as int, false);
            assert forall|k: int| 0 <= k < self.idle@.len() implies #[trigger] idle_ok(
                self.links@,
                self.used@,
                self.idle@,
                k,
            ) by {
                if k > 0 {
                    assert(before[k - 1] == self.idle@[k]);
                    assert(idle_ok(old(self).links@, old(self).used@, before, k - 1));
                }
            }
            assert(self.idle@.no_duplicates()) by {
                assert forall|a: int, b: int|
                    0 <= a < self.idle@.len() && 0 <= b < self.idle@.len() && a != b implies self.idle@[a]
                    != self.idle@[b] by {
                    if a > 0 {
                        assert(before[a - 1] == self.idle@[a]);
                        assert(idle_ok(old(self).links@, old(self).used@, before, a - 1));
                    }
                    if b > 0 {
                        assert(before[b - 1] == self.idle@[b]);
                        assert(idle_ok(old(self).links@, old(self).used@, before, b - 1));
                    }
                }
            }
        }
        data.unwrap()
    }

    /// Whether `at` names a node that is in use.
    pub fn is_live(&self, at: usize) -> (live: bool)
        ensures
            live == self.live(at),
    {
        at < self.links.len() && at < self.data.len() && self.data[at].is_some()
    }

    /// Reads the header of node `at`.
    pub fn get(&self, at: usize) -> (link: Link)
        requires
            self.live(at),
        ensures
            link == self.link(at),
    {
        self.links[at]
    }

    /// Writes the header of node `at`.
    pub(crate) fn set(&mut self, at: usize, link: Link)
        requires
            old(self).sound(),
            old(self).live(at),
        ensures
            final(self).sound(),
            final(self).link(at) == link,
            final(self).live(at),
            final(self).payload(at) == old(self).payload(at),
            final(self).kids(at) == old(self).kids(at),
            final(self).same_but(old(self), at),
    {
        self.links[at] = link;
        proof {
            assert forall|k: int| 0 <= k < self.idle@.len() implies #[trigger] idle_ok(
                self.links@,
                self.used@,
                self.idle@,
                k,
            ) by {
                assert(idle_ok(old(self).links@, old(self).used@, self.idle@, k));
            }
        }
    }

    /// Records the children of node `at`.
    pub(crate) fn set_kids(&mut self, at: usize, Ghost(kids): Ghost<Seq<usize>>)
        requires
            old(self).sound(),
            old(self).live(at),
        ensures
            final(self).sound(),
            final(self).kids(at) == kids,
            final(self).live(at),
            final(self).link(at) == old(self).link(at),
            final(self).payload(at) == old(self).payload(at),
            final(self).same_but(old(self), at),
    {
        proof {
            self.kids@ = self.kids@.update(at as int, kids);
        }
    }

    /// The payload of node `at`.
    pub fn data(&self, at: usize) -> (data: &T)
        requires
            self.live(at),
        ensures
            *data == self.payload(at),
    {
        self.data[at].as_ref().unwrap()
    }

    /// The payload of node `at`, to be changed in place. Nothing but that
    /// payload changes.
    pub fn data_mut(&mut self, at: usize) -> (data: &mut T)
        requires
            old(self).live(at),
        ensures
            *data == old(self).payload(at),
            final(self).payload(at) == *final(data),
            old(self).sound() ==> final(self).sound(),
            final(self).live(at),
            final(self).link(at) == old(self).link(at),
            final(self).kids(at) == old(self).kids(at),
            final(self).same_but(old(self), at),
    {
        match &mut self.data[at] {
            Some(data) => data,
            None => vstd::pervasive::unreached(),
        }
    }

    /// Puts `data` in place of the payload of node `at` and returns the
    /// payload that was there. Nothing but that payload changes.
    pub fn replace(&mut self, at: usize, data: T) -> (was: T)
        requires
            old(self).live(at),
        ensures
            was == old(self).payload(at),
            final(self).payload(at) == data,
            old(self).sound() ==> final(self).sound(),
            final(self).live(at),
            final(self).link(at) == old(self).link(at),
            final(self).kids(at) == old(self).kids(at),
            final(self).same_but(old(self), at),
    {
        let was: Option<T> = self.data[at].take();
        self.data[at] = Some(data);
        was.unwrap()
    }
}

} // verus!
