//! Subtrees of the same shape whose payloads correspond.

use vstd::prelude::*;
use crate::heap::Heap;
use crate::heap::NIL;

verus! {

impl<T> Heap<T> {
    /// The number of children of `a`.
    pub open spec fn fan(&self, a: usize) -> int {
        self.kids(a).len() as int
    }

    /// Whether the subtrees rooted at the first `k` children of `a` in
    /// `self` have the same shape as those rooted at the first `k` children
    /// of `b` in `o`, child by child, with payloads that `rel` relates.
    pub open spec fn twins_upto(
        &self,
        a: usize,
        o: &Heap<T>,
        b: usize,
        k: int,
        rel: spec_fn(T, T) -> bool,
    ) -> bool
        decreases self.cnt(a), k,
        when self.wf() && self.live(a) && 0 <= k <= self.kids(a).len()
    {
        if k == 0 {
            true
        } else {
            let x = self.kids(a)[k - 1];
            let y = o.kids(b)[k - 1];
            proof {
                self.size_invariant(a);
                self.weight_ge(self.kids(a), k - 1);
            }
            &&& self.twins_upto(a, o, b, k - 1, rel)
            &&& rel(self.payload(x), o.payload(y))
            &&& self.kids(x).len() == o.kids(y).len()
            &&& self.twins_upto(x, o, y, self.kids(x).len() as int, rel)
        }
    }

    /// Whether the subtree rooted at `a` in `self` has the same shape as the
    /// one rooted at `b` in `o`, with payloads that `rel` relates: the
    /// payloads of the roots correspond, and the children are as many and
    /// correspond in order, subtree by subtree.
    pub open spec fn twin(&self, a: usize, o: &Heap<T>, b: usize, rel: spec_fn(T, T) -> bool) -> bool {
        &&& rel(self.payload(a), o.payload(b))
        &&& self.kids(a).len() == o.kids(b).len()
        &&& self.twins_upto(a, o, b, self.kids(a).len() as int, rel)
    }

    /// Whether the child at position `k` of `a` is the twin of the child at
    /// position `k` of `b`.
    pub open spec fn twin_kid(&self, a: usize, o: &Heap<T>, b: usize, k: int, rel: spec_fn(T, T) -> bool) -> bool {
        self.twin(self.kids(a)[k], o, o.kids(b)[k], rel)
    }

    /// The first `k + 1` children correspond where the first `k` do and the
    /// next one does.
    pub proof fn twins_step(&self, a: usize, o: &Heap<T>, b: usize, k: int, rel: spec_fn(T, T) -> bool)
        requires
            self.wf(),
            self.live(a),
            0 <= k < self.kids(a).len(),
        ensures
            self.twins_upto(a, o, b, k + 1, rel) == (self.twins_upto(a, o, b, k, rel) && self.twin_kid(
                a,
                o,
                b,
                k,
                rel,
            )),
            self.live(self.kids(a)[k]),
            self.cnt(self.kids(a)[k]) < self.cnt(a),
    {
        self.size_invariant(a);
        self.weight_ge(self.kids(a), k);
    }

    /// Where the first `n` children correspond, so do the first `j` of them.
    pub proof fn twins_prefix(
        &self,
        a: usize,
        o: &Heap<T>,
        b: usize,
        n: int,
        j: int,
        rel: spec_fn(T, T) -> bool,
    )
        requires
            self.wf(),
            self.live(a),
            0 <= j <= n <= self.kids(a).len(),
            self.twins_upto(a, o, b, n, rel),
        ensures
            self.twins_upto(a, o, b, j, rel),
        decreases n - j,
    {
        if j < n {
            self.twins_step(a, o, b, n - 1, rel);
            self.twins_prefix(a, o, b, n - 1, j, rel);
        }
    }

    /// Whether every node in use in `self` is in use in `o` with the same
    /// payload, and, unless it is `skip`, with the same children.
    pub open spec fn held_in(&self, o: &Heap<T>, skip: usize) -> bool {
        forall|i: usize| #[trigger]
            self.live(i) ==> {
                &&& o.live(i)
                &&& o.payload(i) == self.payload(i)
                &&& i != skip ==> o.kids(i) == self.kids(i)
            }
    }

    /// Twins stay twins where the heap of the first is one whose nodes the
    /// heap it had holds, and the heap of the second holds the nodes it had,
    /// with their payloads and children.
    pub proof fn twins_same(
        &self,
        to: &Heap<T>,
        a: usize,
        was: &Heap<T>,
        now: &Heap<T>,
        b: usize,
        k: int,
        rel: spec_fn(T, T) -> bool,
    )
        requires
            self.wf(),
            to.wf(),
            self.live(a),
            to.live(a),
            0 <= k <= self.kids(a).len(),
            to.held_in(self, NIL),
            was.wf(),
            was.live(b),
            k <= was.kids(b).len(),
            was.held_in(now, NIL),
            self.twins_upto(a, was, b, k, rel),
        ensures
            to.twins_upto(a, now, b, k, rel),
        decreases self.cnt(a), k,
    {
        assert(to.kids(a) == self.kids(a));
        if k > 0 {
            self.twins_step(a, was, b, k - 1, rel);
            to.twins_step(a, now, b, k - 1, rel);
            let x = self.kids(a)[k - 1];
            let y = was.kids(b)[k - 1];
            was.size_invariant(b);
            to.size_invariant(a);
            assert(was.live(y));
            assert(to.live(x));
            assert(now.kids(b) == was.kids(b));
            assert(to.kids(x) == self.kids(x));
            assert(to.payload(x) == self.payload(x));
            assert(now.kids(y) == was.kids(y));
            self.twins_same(to, a, was, now, b, k - 1, rel);
            self.twins_same(to, x, was, now, y, self.kids(x).len() as int, rel);
        }
    }

    /// Twins stay twins where the heap of the second keeps its nodes, with
    /// their payloads, and with their children but for those of `skip`,
    /// which is not below the second.
    pub proof fn twins_kept(
        &self,
        a: usize,
        was: &Heap<T>,
        now: &Heap<T>,
        b: usize,
        k: int,
        rel: spec_fn(T, T) -> bool,
        skip: usize,
    )
        requires
            self.wf(),
            self.live(a),
            0 <= k <= self.kids(a).len(),
            was.wf(),
            was.live(b),
            was.live(skip),
            k <= was.kids(b).len(),
            was.held_in(now, skip),
            b == skip ==> forall|j: int| 0 <= j < k ==> now.kids(b)[j] == was.kids(b)[j],
            b != skip ==> !was.above(b, skip),
            self.twins_upto(a, was, b, k, rel),
        ensures
            self.twins_upto(a, now, b, k, rel),
        decreases self.cnt(a), k,
    {
        if k > 0 {
            self.twins_step(a, was, b, k - 1, rel);
            self.twins_step(a, now, b, k - 1, rel);
            let x = self.kids(a)[k - 1];
            let y = was.kids(b)[k - 1];
            was.wf_is_ranked(NIL, 0, 0, NIL, 0);
            was.size_invariant(b);
            assert(was.node_ok(b, 0, 0));
            assert(was.sib_ok(was.kids(b), k - 1, b));
            assert(was.live(y));
            assert(was.link(y).parent == b);
            assert(was.cnt(b) > was.cnt(y));
            if b != skip {
                assert(now.kids(b) == was.kids(b));
            }
            assert(now.kids(b)[k - 1] == y);
            if was.above(y, skip) {
                if y == skip {
                    assert(was.above(b, b));
                    assert(was.above(b, skip));
                } else {
                    was.above_step(y, skip);
                    if b == skip {
                        was.above_rank(y, skip);
                    }
                }
            }
            assert(!was.above(y, skip));
            assert(was.above(skip, skip));
            assert(y != skip);
            assert(now.kids(y) == was.kids(y));
            self.twins_kept(a, was, now, b, k - 1, rel, skip);
            self.twins_kept(x, was, now, y, self.kids(x).len() as int, rel, skip);
        }
    }
}

} // verus!
