//! Structural equality and order of subtrees.

use vstd::prelude::*;
use vstd::std_specs::cmp::OrdSpec;
use vstd::std_specs::cmp::PartialEqSpec;
use vstd::std_specs::cmp::PartialOrdSpec;
use core::cmp::Ordering;
use crate::heap::Heap;
use crate::iter::Iter;
use crate::node::Node;
use crate::tree::Tree;

verus! {

/// The relation that `==` is on payloads.
pub open spec fn eq_rel<T: PartialEq>() -> spec_fn(T, T) -> bool {
    |x: T, y: T| x.eq_spec(&y)
}

impl<T: Ord> Heap<T> {
    /// The order of the children of `a` in `self` from position `k` on
    /// against those of `b` in `o` from position `k` on: the first pair of
    /// subtrees that are not equal decides; where there is none, the shorter
    /// list is the lesser.
    pub open spec fn ordered_from(&self, a: usize, o: &Heap<T>, b: usize, k: int) -> Ordering
        decreases self.cnt(a), self.kids(a).len() - k,
        when self.wf() && self.live(a) && 0 <= k <= self.kids(a).len()
    {
        if k >= self.kids(a).len() {
            if k >= o.kids(b).len() {
                Ordering::Equal
            } else {
                Ordering::Less
            }
        } else if k >= o.kids(b).len() {
            Ordering::Greater
        } else {
            let x = self.kids(a)[k];
            let y = o.kids(b)[k];
            proof {
                self.size_invariant(a);
                self.weight_ge(self.kids(a), k);
            }
            match self.payload(x).cmp_spec(&o.payload(y)) {
                Ordering::Less => Ordering::Less,
                Ordering::Greater => Ordering::Greater,
                Ordering::Equal => match self.ordered_from(x, o, y, 0) {
                    Ordering::Less => Ordering::Less,
                    Ordering::Greater => Ordering::Greater,
                    Ordering::Equal => self.ordered_from(a, o, b, k + 1),
                },
            }
        }
    }

    /// The order of the subtree rooted at `a` in `self` against the one
    /// rooted at `b` in `o`: the payloads of the roots decide; where they
    /// are equal, the lists of children do.
    pub open spec fn ordered(&self, a: usize, o: &Heap<T>, b: usize) -> Ordering {
        match self.payload(a).cmp_spec(&o.payload(b)) {
            Ordering::Less => Ordering::Less,
            Ordering::Greater => Ordering::Greater,
            Ordering::Equal => self.ordered_from(a, o, b, 0),
        }
    }
}

impl<T: PartialOrd> Heap<T> {
    /// The order, if there is one, of the children of `a` in `self` from
    /// position `k` on against those of `b` in `o` from position `k` on: the
    /// first pair of subtrees that are not equal, or not ordered, decides;
    /// where there is none, the shorter list is the lesser.
    pub open spec fn partly_ordered_from(&self, a: usize, o: &Heap<T>, b: usize, k: int) -> Option<
        Ordering,
    >
        decreases self.cnt(a), self.kids(a).len() - k,
        when self.wf() && self.live(a) && 0 <= k <= self.kids(a).len()
    {
        if k >= self.kids(a).len() {
            if k >= o.kids(b).len() {
                Some(Ordering::Equal)
            } else {
                Some(Ordering::Less)
            }
        } else if k >= o.kids(b).len() {
            Some(Ordering::Greater)
        } else {
            let x = self.kids(a)[k];
            let y = o.kids(b)[k];
            proof {
                self.size_invariant(a);
                self.weight_ge(self.kids(a), k);
            }
            match self.payload(x).partial_cmp_spec(&o.payload(y)) {
                None => None,
                Some(Ordering::Less) => Some(Ordering::Less),
                Some(Ordering::Greater) => Some(Ordering::Greater),
                Some(Ordering::Equal) => match self.partly_ordered_from(x, o, y, 0) {
                    None => None,
                    Some(Ordering::Less) => Some(Ordering::Less),
                    Some(Ordering::Greater) => Some(Ordering::Greater),
                    Some(Ordering::Equal) => self.partly_ordered_from(a, o, b, k + 1),
                },
            }
        }
    }

    /// The order, if there is one, of the subtree rooted at `a` in `self`
    /// against the one rooted at `b` in `o`.
    pub open spec fn partly_ordered(&self, a: usize, o: &Heap<T>, b: usize) -> Option<Ordering> {
        match self.payload(a).partial_cmp_spec(&o.payload(b)) {
            None => None,
            Some(Ordering::Less) => Some(Ordering::Less),
            Some(Ordering::Greater) => Some(Ordering::Greater),
            Some(Ordering::Equal) => self.partly_ordered_from(a, o, b, 0),
        }
    }
}

impl Node {
    /// Whether the subtree rooted at this node equals the one rooted at
    /// `other`: the payloads are equal and the children are equal in order.
    pub fn eq<T: PartialEq>(&self, heap: &Heap<T>, other: &Node, there: &Heap<T>) -> (same: bool)
        requires
            heap.wf(),
            heap.live(self.at),
            there.wf(),
            there.live(other.at),
        ensures
            T::obeys_eq_spec() ==> same == heap.twin(self.at, there, other.at, eq_rel::<T>()),
        decreases heap.cnt(self.at),
    {
        if !heap.data(self.at).eq(there.data(other.at)) {
            return false;
        }
        let mut mine: Iter = self.iter(heap);
        let mut yours: Iter = other.iter(there);
        if mine.len() != yours.len() {
            return false;
        }
        let ghost ka = heap.kids(self.at);
        let ghost kb = there.kids(other.at);
        let ghost mut k: int = 0;
        proof {
            assert(ka.skip(0) =~= ka);
            assert(kb.skip(0) =~= kb);
        }
        loop
            invariant_except_break
                mine@ == ka.skip(k),
                yours@ == kb.skip(k),
                T::obeys_eq_spec() ==> heap.twins_upto(self.at, there, other.at, k, eq_rel::<T>()),
            invariant
                heap.wf(),
                heap.live(self.at),
                there.wf(),
                there.live(other.at),
                ka == heap.kids(self.at),
                kb == there.kids(other.at),
                ka.len() == kb.len(),
                mine.wf(heap),
                yours.wf(there),
                0 <= k <= ka.len(),
            ensures
                T::obeys_eq_spec() ==> heap.twins_upto(self.at, there, other.at, heap.fan(self.at), eq_rel::<T>()),
            decreases ka.len() - k,
        {
            let ghost rest = yours@;
            match mine.next(heap) {
                None => {
                    break ;
                },
                Some(x) => {
                    match yours.next(there) {
                        None => {
                            break ;
                        },
                        Some(y) => {
                            proof {
                                heap.twins_step(self.at, there, other.at, k, eq_rel::<T>());
                                assert(x.at == ka[k]);
                                assert(y.at == kb[k]);
                                assert(there.step_ok(rest, 0));
                            }
                            if !x.eq(heap, &y, there) {
                                proof {
                                    if T::obeys_eq_spec() && heap.twins_upto(
                                        self.at,
                                        there,
                                        other.at,
                                        heap.fan(self.at),
                                        eq_rel::<T>(),
                                    ) {
                                        heap.twins_prefix(
                                            self.at,
                                            there,
                                            other.at,
                                            heap.fan(self.at),
                                            k + 1,
                                            eq_rel::<T>(),
                                        );
                                    }
                                }
                                return false;
                            }
                            proof {
                                assert(mine@ =~= ka.skip(k + 1));
                                assert(yours@ =~= kb.skip(k + 1));
                                k = k + 1;
                            }
                        },
                    }
                },
            }
        }
        true
    }

    /// Whether the subtree rooted at this node differs from the one rooted
    /// at `other`.
    pub fn ne<T: PartialEq>(&self, heap: &Heap<T>, other: &Node, there: &Heap<T>) -> (differ: bool)
        requires
            heap.wf(),
            heap.live(self.at),
            there.wf(),
            there.live(other.at),
        ensures
            T::obeys_eq_spec() ==> differ == !heap.twin(self.at, there, other.at, eq_rel::<T>()),
    {
        !self.eq(heap, other, there)
    }

    /// The order of the subtree rooted at this node against the one rooted
    /// at `other`: the payloads decide; where they are equal, the children
    /// do, in order.
    pub fn cmp<T: Ord>(&self, heap: &Heap<T>, other: &Node, there: &Heap<T>) -> (order: Ordering)
        requires
            heap.wf(),
            heap.live(self.at),
            there.wf(),
            there.live(other.at),
        ensures
            T::obeys_cmp_spec() ==> order == heap.ordered(self.at, there, other.at),
        decreases heap.cnt(self.at),
    {
        match heap.data(self.at).cmp(there.data(other.at)) {
            Ordering::Less => Ordering::Less,
            Ordering::Greater => Ordering::Greater,
            Ordering::Equal => {
                let mut mine: Iter = self.iter(heap);
                let mut yours: Iter = other.iter(there);
                let ghost ka = heap.kids(self.at);
                let ghost kb = there.kids(other.at);
                let ghost mut k: int = 0;
                proof {
                    assert(ka.skip(0) =~= ka);
                    assert(kb.skip(0) =~= kb);
                }
                loop
                    invariant
                        heap.wf(),
                        heap.live(self.at),
                        there.wf(),
                        there.live(other.at),
                        ka == heap.kids(self.at),
                        kb == there.kids(other.at),
                        mine.wf(heap),
                        yours.wf(there),
                        0 <= k <= ka.len(),
                        k <= kb.len(),
                        mine@ == ka.skip(k),
                        yours@ == kb.skip(k),
                        T::obeys_cmp_spec() ==> heap.payload(self.at).cmp_spec(&there.payload(other.at))
                            == Ordering::Equal,
                        T::obeys_cmp_spec() ==> heap.ordered_from(self.at, there, other.at, k)
                            == heap.ordered_from(self.at, there, other.at, 0),
                    decreases ka.len() - k,
                {
                    let ghost rest = yours@;
                    match mine.next(heap) {
                        None => {
                            return if yours.next(there).is_none() {
                                Ordering::Equal
                            } else {
                                Ordering::Less
                            };
                        },
                        Some(x) => {
                            match yours.next(there) {
                                None => {
                                    return Ordering::Greater;
                                },
                                Some(y) => {
                                    proof {
                                        assert(x.at == ka[k]);
                                        assert(y.at == kb[k]);
                                        assert(there.step_ok(rest, 0));
                                        heap.size_invariant(self.at);
                                        heap.weight_ge(ka, k);
                                    }
                                    match x.cmp(heap, &y, there) {
                                        Ordering::Less => {
                                            return Ordering::Less;
                                        },
                                        Ordering::Greater => {
                                            return Ordering::Greater;
                                        },
                                        Ordering::Equal => {
                                            proof {
                                                assert(mine@ =~= ka.skip(k + 1));
                                                assert(yours@ =~= kb.skip(k + 1));
                                                k = k + 1;
                                            }
                                        },
                                    }
                                },
                            }
                        },
                    }
                }
            },
        }
    }

    /// The order, if there is one, of the subtree rooted at this node
    /// against the one rooted at `other`.
    pub fn partial_cmp<T: PartialOrd>(&self, heap: &Heap<T>, other: &Node, there: &Heap<T>) -> (order:
        Option<Ordering>)
        requires
            heap.wf(),
            heap.live(self.at),
            there.wf(),
            there.live(other.at),
        ensures
            T::obeys_partial_cmp_spec() ==> order == heap.partly_ordered(self.at, there, other.at),
        decreases heap.cnt(self.at),
    {
        match heap.data(self.at).partial_cmp(there.data(other.at)) {
            None => None,
            Some(Ordering::Less) => Some(Ordering::Less),
            Some(Ordering::Greater) => Some(Ordering::Greater),
            Some(Ordering::Equal) => {
                let mut mine: Iter = self.iter(heap);
                let mut yours: Iter = other.iter(there);
                let ghost ka = heap.kids(self.at);
                let ghost kb = there.kids(other.at);
                let ghost mut k: int = 0;
                proof {
                    assert(ka.skip(0) =~= ka);
                    assert(kb.skip(0) =~= kb);
                }
                loop
                    invariant
                        heap.wf(),
                        heap.live(self.at),
                        there.wf(),
                        there.live(other.at),
                        ka == heap.kids(self.at),
                        kb == there.kids(other.at),
                        mine.wf(heap),
                        yours.wf(there),
                        0 <= k <= ka.len(),
                        k <= kb.len(),
                        mine@ == ka.skip(k),
                        yours@ == kb.skip(k),
                        T::obeys_partial_cmp_spec() ==> heap.payload(self.at).partial_cmp_spec(
                            &there.payload(other.at),
                        ) == Some(Ordering::Equal),
                        T::obeys_partial_cmp_spec() ==> heap.partly_ordered_from(self.at, there, other.at, k)
                            == heap.partly_ordered_from(self.at, there, other.at, 0),
                    decreases ka.len() - k,
                {
                    let ghost rest = yours@;
                    match mine.next(heap) {
                        None => {
                            return if yours.next(there).is_none() {
                                Some(Ordering::Equal)
                            } else {
                                Some(Ordering::Less)
                            };
                        },
                        Some(x) => {
                            match yours.next(there) {
                                None => {
                                    return Some(Ordering::Greater);
                                },
                                Some(y) => {
                                    proof {
                                        assert(x.at == ka[k]);
                                        assert(y.at == kb[k]);
                                        assert(there.step_ok(rest, 0));
                                        heap.size_invariant(self.at);
                                        heap.weight_ge(ka, k);
                                    }
                                    match x.partial_cmp(heap, &y, there) {
                                        None => {
                                            return None;
                                        },
                                        Some(Ordering::Less) => {
                                            return Some(Ordering::Less);
                                        },
                                        Some(Ordering::Greater) => {
                                            return Some(Ordering::Greater);
                                        },
                                        Some(Ordering::Equal) => {
                                            proof {
                                                assert(mine@ =~= ka.skip(k + 1));
                                                assert(yours@ =~= kb.skip(k + 1));
                                                k = k + 1;
                                            }
                                        },
                                    }
                                },
                            }
                        },
                    }
                }
            },
        }
    }
}

impl Tree {
    /// Whether this tree equals `other`.
    pub fn eq<T: PartialEq>(&self, heap: &Heap<T>, other: &Tree, there: &Heap<T>) -> (same: bool)
        requires
            heap.wf(),
            self.wf(heap),
            there.wf(),
            other.wf(there),
        ensures
            T::obeys_eq_spec() ==> same == heap.twin(self@, there, other@, eq_rel::<T>()),
    {
        self.root().eq(heap, &other.root(), there)
    }

    /// Whether this tree differs from `other`.
    pub fn ne<T: PartialEq>(&self, heap: &Heap<T>, other: &Tree, there: &Heap<T>) -> (differ: bool)
        requires
            heap.wf(),
            self.wf(heap),
            there.wf(),
            other.wf(there),
        ensures
            T::obeys_eq_spec() ==> differ == !heap.twin(self@, there, other@, eq_rel::<T>()),
    {
        self.root().ne(heap, &other.root(), there)
    }

    /// The order of this tree against `other`.
    pub fn cmp<T: Ord>(&self, heap: &Heap<T>, other: &Tree, there: &Heap<T>) -> (order: Ordering)
        requires
            heap.wf(),
            self.wf(heap),
            there.wf(),
            other.wf(there),
        ensures
            T::obeys_cmp_spec() ==> order == heap.ordered(self@, there, other@),
    {
        self.root().cmp(heap, &other.root(), there)
    }

    /// The order, if there is one, of this tree against `other`.
    pub fn partial_cmp<T: PartialOrd>(&self, heap: &Heap<T>, other: &Tree, there: &Heap<T>) -> (order:
        Option<Ordering>)
        requires
            heap.wf(),
            self.wf(heap),
            there.wf(),
            other.wf(there),
        ensures
            T::obeys_partial_cmp_spec() ==> order == heap.partly_ordered(self@, there, other@),
    {
        self.root().partial_cmp(heap, &other.root(), there)
    }
}

} // verus!
