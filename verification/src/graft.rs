//! What putting trees under a node and taking a child out do to a heap, and
//! why the heap's invariant survives both.

use vstd::prelude::*;
use crate::heap::Heap;
use crate::heap::NIL;
use crate::node::Link;
use crate::size::Size;

verus! {

impl<T> Heap<T> {
    /// Whether `self` is `o` after the trees rooted at `run` were put under
    /// `at`, in this order, before its children (`front`) or after them.
    /// The children of `at` are the old children and `run`; the roots in
    /// `run` have `at` as their parent; the degree of `at` grew by the length
    /// of `run`, and the node count of `at` and of each of its ancestors by
    /// the node counts of `run`. Every other node has the payload, children,
    /// parent and sizes it had, and every other root its neighbours; a node
    /// that is neither above `at` nor a child of `at` keeps its whole header.
    pub open spec fn grafted(&self, o: &Heap<T>, at: usize, run: Seq<usize>, front: bool) -> bool {
        &&& self.kids(at) == (if front {
            run + o.kids(at)
        } else {
            o.kids(at) + run
        })
        &&& forall|i: usize|
            #![trigger self.live(i)]
            #![trigger self.link(i)]
            #![trigger self.kids(i)]
            #![trigger self.payload(i)]
            {
                &&& self.live(i) == o.live(i)
                &&& self.payload(i) == o.payload(i)
                &&& i != at ==> self.kids(i) == o.kids(i)
                &&& self.link(i).parent == (if run.contains(i) {
                    at
                } else {
                    o.link(i).parent
                })
                &&& o.link(i).parent == NIL && !run.contains(i) ==> self.link(i).next == o.link(i).next
                    && self.link(i).prev == o.link(i).prev
                &&& self.deg(i) == o.deg(i) + (if i == at {
                    run.len() as int
                } else {
                    0
                })
                &&& self.cnt(i) == o.cnt(i) + (if o.above(i, at) {
                    o.weight(run)
                } else {
                    0
                })
                &&& !o.above(i, at) && !run.contains(i) && o.link(i).parent != at ==> self.link(i)
                    == o.link(i)
            }
    }

    /// Whether `self` is `o` after the child at position `j` of `at` was
    /// taken out to stand alone as a root. The children of `at` are the old
    /// ones without that child; the degree of `at` fell by 1, and the node
    /// count of `at` and of each of its ancestors by the node count of the
    /// child. Every other node has the payload, children, parent and sizes it
    /// had, and every root its neighbours; a node that is neither above `at`
    /// nor a child of `at` keeps its whole header.
    pub open spec fn pruned(&self, o: &Heap<T>, at: usize, j: int) -> bool {
        let c = o.kids(at)[j];
        &&& self.kids(at) == o.kids(at).remove(j)
        &&& self.link(c).next == c
        &&& self.link(c).prev == c
        &&& forall|i: usize|
            #![trigger self.live(i)]
            #![trigger self.link(i)]
            #![trigger self.kids(i)]
            #![trigger self.payload(i)]
            {
                &&& self.live(i) == o.live(i)
                &&& self.payload(i) == o.payload(i)
                &&& i != at ==> self.kids(i) == o.kids(i)
                &&& self.link(i).parent == (if i == c {
                    NIL
                } else {
                    o.link(i).parent
                })
                &&& o.link(i).parent == NIL ==> self.link(i).next == o.link(i).next && self.link(i).prev
                    == o.link(i).prev
                &&& self.deg(i) == o.deg(i) - (if i == at {
                    1int
                } else {
                    0
                })
                &&& self.cnt(i) == o.cnt(i) - (if o.above(i, at) {
                    o.cnt(c)
                } else {
                    0
                })
                &&& !o.above(i, at) && o.link(i).parent != at ==> self.link(i) == o.link(i)
            }
    }

    /// The headers of `self`, given those of `m`, after the ring `run` of
    /// roots was linked under `at`; sizes are as in `m`.
    pub open spec fn spliced(&self, m: &Heap<T>, at: usize, run: Seq<usize>, front: bool) -> bool {
        let ks = m.kids(at);
        &&& self.sound()
        &&& self.kids(at) == (if front {
            run + ks
        } else {
            ks + run
        })
        &&& forall|i: usize|
            #![trigger self.live(i)]
            #![trigger self.link(i)]
            #![trigger self.kids(i)]
            #![trigger self.payload(i)]
            {
                &&& self.live(i) == m.live(i)
                &&& self.payload(i) == m.payload(i)
                &&& i != at ==> self.kids(i) == m.kids(i)
                &&& self.link(i).size == m.link(i).size
                &&& self.link(i).parent == (if run.contains(i) {
                    at
                } else {
                    m.link(i).parent
                })
                &&& self.link(i).child == (if i == at && (!front || ks.len() == 0) {
                    run.last()
                } else {
                    m.link(i).child
                })
                &&& self.link(i).next == (if ks.len() > 0 && i == run.last() {
                    ks[0]
                } else if ks.len() > 0 && i == ks.last() {
                    run[0]
                } else {
                    m.link(i).next
                })
                &&& self.link(i).prev == (if ks.len() > 0 && i == run[0] {
                    ks.last()
                } else if ks.len() > 0 && i == ks[0] {
                    run.last()
                } else {
                    m.link(i).prev
                })
            }
    }

    /// The headers of `self`, given those of `o`, after the child at position
    /// `j` of `at` was unlinked; sizes are as in `o`.
    pub open spec fn unlinked(&self, o: &Heap<T>, at: usize, j: int) -> bool {
        let ks = o.kids(at);
        let c = ks[j];
        &&& self.sound()
        &&& self.kids(at) == ks.remove(j)
        &&& forall|i: usize|
            #![trigger self.live(i)]
            #![trigger self.link(i)]
            #![trigger self.kids(i)]
            #![trigger self.payload(i)]
            {
                &&& self.live(i) == o.live(i)
                &&& self.payload(i) == o.payload(i)
                &&& i != at ==> self.kids(i) == o.kids(i)
                &&& self.link(i).size == o.link(i).size
                &&& self.link(i).parent == (if i == c {
                    NIL
                } else {
                    o.link(i).parent
                })
                &&& self.link(i).child == (if i == at {
                    if ks.len() == 1 {
                        NIL
                    } else if j == ks.len() - 1 {
                        ks[j - 1]
                    } else {
                        ks.last()
                    }
                } else {
                    o.link(i).child
                })
                &&& self.link(i).next == (if i == c {
                    c
                } else if i == o.link(c).prev {
                    o.link(c).next
                } else {
                    o.link(i).next
                })
                &&& self.link(i).prev == (if i == c {
                    c
                } else if i == o.link(c).next {
                    o.link(c).prev
                } else {
                    o.link(i).prev
                })
            }
    }

    /// Whether `self` is `o` but for the parent of the nodes in `run`, which
    /// is `p`.
    pub open spec fn reparented(&self, o: &Heap<T>, run: Seq<usize>, p: usize) -> bool {
        forall|i: usize|
            #![trigger self.live(i)]
            #![trigger self.link(i)]
            #![trigger self.kids(i)]
            #![trigger self.payload(i)]
            {
                &&& self.live(i) == o.live(i)
                &&& self.payload(i) == o.payload(i)
                &&& self.kids(i) == o.kids(i)
                &&& self.link(i) == (Link {
                    parent: if run.contains(i) {
                        p
                    } else {
                        o.link(i).parent
                    },
                    ..o.link(i)
                })
            }
    }

    /// Whether `self` is `o` but for the neighbours of the roots in `ring`.
    pub open spec fn relinked(&self, o: &Heap<T>, ring: Seq<usize>) -> bool {
        forall|i: usize|
            #![trigger self.live(i)]
            #![trigger self.link(i)]
            #![trigger self.kids(i)]
            #![trigger self.payload(i)]
            {
                &&& self.live(i) == o.live(i)
                &&& self.payload(i) == o.payload(i)
                &&& self.kids(i) == o.kids(i)
                &&& self.link(i).child == o.link(i).child
                &&& self.link(i).parent == o.link(i).parent
                &&& self.link(i).size == o.link(i).size
                &&& !ring.contains(i) ==> self.link(i) == o.link(i)
            }
    }

    /// Whether `self` is `o` after all children of the root `at` were taken
    /// out, to stand as roots in the ring they formed. `at` is left a single
    /// node of size `(0, 1)`; every other node has the payload, children and
    /// sizes it had, and the neighbours it had.
    pub open spec fn stripped(&self, o: &Heap<T>, at: usize) -> bool {
        &&& self.kids(at) == Seq::<usize>::empty()
        &&& self.link(at) == (Link {
            child: NIL,
            size: Size { degree: 0, node_cnt: 1 },
            ..o.link(at)
        })
        &&& forall|i: usize|
            #![trigger self.live(i)]
            #![trigger self.link(i)]
            #![trigger self.kids(i)]
            #![trigger self.payload(i)]
            {
                &&& self.live(i) == o.live(i)
                &&& self.payload(i) == o.payload(i)
                &&& i != at ==> self.kids(i) == o.kids(i)
                &&& i != at ==> self.link(i) == (Link {
                    parent: if o.kids(at).contains(i) {
                        NIL
                    } else {
                        o.link(i).parent
                    },
                    ..o.link(i)
                })
            }
    }

    /// New neighbours for roots leave the heap at rest.
    pub proof fn relinked_wf(&self, o: &Heap<T>, ring: Seq<usize>)
        requires
            o.wf(),
            self.sound(),
            self.relinked(o, ring),
            forall|j: int| 0 <= j < ring.len() ==> o.link(#[trigger] ring[j]).parent == NIL,
        ensures
            self.wf(),
            forall|ks: Seq<usize>| #[trigger] self.weight(ks) == o.weight(ks),
    {
        assert forall|i: usize| #[trigger] self.live(i) implies self.node_ok(i, 0, 0) by {
            assert(o.live(i));
            let kk = o.kids(i);
            assert forall|j: int| 0 <= j < kk.len() implies {
                &&& self.live(#[trigger] kk[j])
                &&& self.link(kk[j]).next == o.link(kk[j]).next
                &&& self.link(kk[j]).prev == o.link(kk[j]).prev
                &&& self.link(kk[j]).parent == o.link(kk[j]).parent
                &&& self.cnt(kk[j]) == o.cnt(kk[j])
            } by {
                assert(o.sib_ok(kk, j, i));
                if ring.contains(kk[j]) {
                    let k = choose|k: int| 0 <= k < ring.len() && ring[k] == kk[j];
                    assert(o.link(ring[k]).parent == NIL);
                }
            }
            self.weight_same(o, kk);
            self.node_kept(o, i, 0, 0, 0, 0);
        }
        assert forall|ks: Seq<usize>| #[trigger] self.weight(ks) == o.weight(ks) by {
            assert forall|j: int| 0 <= j < ks.len() implies self.cnt(#[trigger] ks[j]) == o.cnt(ks[j]) by {
                assert(self.link(ks[j]).size == o.link(ks[j]).size);
            }
            self.weight_same(o, ks);
        }
    }

    /// Taking all children out of a root leaves the heap at rest, and the
    /// children in a ring of roots.
    pub proof fn strip_wf(&self, o: &Heap<T>, at: usize)
        requires
            o.wf(),
            o.live(at),
            o.link(at).parent == NIL,
            self.sound(),
            self.stripped(o, at),
        ensures
            self.wf(),
            self.ring(o.kids(at), NIL),
            self.weight(o.kids(at)) == o.cnt(at) - 1,
            o.kids(at).len() == o.deg(at),
    {
        let ks = o.kids(at);
        assert(o.node_ok(at, 0, 0));
        assert forall|i: usize| ks.contains(i) implies o.link(i).parent == at && o.live(i) && i != at by {
            let k = choose|k: int| 0 <= k < ks.len() && ks[k] == i;
            assert(o.sib_ok(ks, k, at));
        }
        assert forall|j: int| 0 <= j < ks.len() implies {
            &&& self.live(#[trigger] ks[j])
            &&& self.link(ks[j]).next == o.link(ks[j]).next
            &&& self.link(ks[j]).prev == o.link(ks[j]).prev
            &&& self.link(ks[j]).parent == NIL
            &&& self.cnt(ks[j]) == o.cnt(ks[j])
        } by {
            assert(ks.contains(ks[j]));
            assert(self.link(ks[j]).next == o.link(ks[j]).next);
        }
        self.ring_moved(o, ks, at, NIL);
        self.weight_same(o, ks);
        assert forall|i: usize| #[trigger] self.live(i) implies self.node_ok(i, 0, 0) by {
            assert(o.live(i));
            if i == at {
                assert(self.weight(self.kids(at)) == 0);
            } else {
                let kk = o.kids(i);
                assert forall|j: int| 0 <= j < kk.len() implies {
                    &&& self.live(#[trigger] kk[j])
                    &&& self.link(kk[j]).next == o.link(kk[j]).next
                    &&& self.link(kk[j]).prev == o.link(kk[j]).prev
                    &&& self.link(kk[j]).parent == o.link(kk[j]).parent
                    &&& self.cnt(kk[j]) == o.cnt(kk[j])
                } by {
                    assert(o.sib_ok(kk, j, i));
                    assert(self.link(kk[j]).next == o.link(kk[j]).next);
                }
                self.weight_same(o, kk);
                assert(self.link(i).child == o.link(i).child);
                self.node_kept(o, i, 0, 0, 0, 0);
            }
        }
    }

    /// What has no parent and stands above `x` is the root of `x`.
    pub proof fn above_root(&self, a: usize, x: usize)
        requires
            self.ranked(),
            self.live(x),
            self.above(a, x),
            self.link(a).parent == NIL,
        ensures
            a == self.root_of(x),
        decreases u32::MAX - self.cnt(x),
    {
        if a != x {
            self.above_root(a, self.link(x).parent);
        }
    }

    /// A sum without one of its terms is less by that term.
    pub proof fn weight_remove(&self, ks: Seq<usize>, j: int)
        requires
            0 <= j < ks.len(),
        ensures
            self.weight(ks.remove(j)) == self.weight(ks) - self.cnt(ks[j]),
    {
        let a = ks.subrange(0, j);
        let b = ks.subrange(j + 1, ks.len() as int);
        assert(ks.remove(j) =~= a + b);
        assert(ks =~= (a + seq![ks[j]]) + b);
        self.weight_concat(a, b);
        self.weight_concat(a + seq![ks[j]], b);
        self.weight_concat(a, seq![ks[j]]);
        self.weight_one(ks[j]);
    }

    /// Once the sizes above `at` have been raised for it, a ring of roots
    /// linked under `at` leaves the heap at rest.
    pub proof fn graft_wf(&self, m: &Heap<T>, at: usize, run: Seq<usize>, front: bool)
        requires
            m.wf_by(at, -(run.len() as int), -m.weight(run), NIL, 0),
            m.live(at),
            run.len() > 0,
            m.ring(run, NIL),
            self.spliced(m, at, run, front),
        ensures
            self.wf(),
    {
        let ks = m.kids(at);
        assert(m.node_ok(at, -(run.len() as int), -m.weight(run)));
        assert forall|j: int, k: int| 0 <= j < run.len() && 0 <= k < ks.len() implies run[j] != ks[k] by {
            assert(m.sib_ok(run, j, NIL));
            assert(m.sib_ok(ks, k, at));
        }
        assert forall|i: usize| run.contains(i) implies m.link(i).parent == NIL && m.live(i) by {
            let j = choose|j: int| 0 <= j < run.len() && run[j] == i;
            assert(m.sib_ok(run, j, NIL));
        }
        assert forall|i: usize| ks.contains(i) implies m.link(i).parent == at && m.live(i) by {
            let j = choose|j: int| 0 <= j < ks.len() && ks[j] == i;
            assert(m.sib_ok(ks, j, at));
        }
        assert(run.contains(run[0]));
        assert(run.contains(run.last())) by {
            assert(run[run.len() - 1] == run.last());
        }
        if ks.len() > 0 {
            assert(ks.contains(ks[0]));
            assert(ks.contains(ks.last())) by {
                assert(ks[ks.len() - 1] == ks.last());
            }
        }
        assert forall|i: usize| #[trigger] self.live(i) implies self.node_ok(i, 0, 0) by {
            assert(m.live(i));
            if i == at {
                let all = self.kids(at);
                if ks.len() == 0 {
                    assert(all =~= run);
                    assert forall|j: int| 0 <= j < run.len() implies #[trigger] self.sib_ok(run, j, at) by {
                        assert(m.sib_ok(run, j, NIL));
                        assert(run.contains(run[j]));
                    }
                } else {
                    let a = if front {
                        run
                    } else {
                        ks
                    };
                    let b = if front {
                        ks
                    } else {
                        run
                    };
                    let pa = if front {
                        NIL
                    } else {
                        at
                    };
                    let pb = if front {
                        at
                    } else {
                        NIL
                    };
                    assert(all == a + b);
                    assert forall|j: int| 0 <= j < a.len() implies {
                        &&& self.live(#[trigger] a[j])
                        &&& self.link(a[j]).parent == at
                        &&& j + 1 < a.len() ==> self.link(a[j]).next == m.link(a[j]).next
                        &&& j > 0 ==> self.link(a[j]).prev == m.link(a[j]).prev
                    } by {
                        assert(m.sib_ok(a, j, pa));
                        assert(a.contains(a[j]));
                        assert(a[a.len() - 1] == a.last());
                        assert(b[b.len() - 1] == b.last());
                    }
                    assert forall|j: int| 0 <= j < b.len() implies {
                        &&& self.live(#[trigger] b[j])
                        &&& self.link(b[j]).parent == at
                        &&& j + 1 < b.len() ==> self.link(b[j]).next == m.link(b[j]).next
                        &&& j > 0 ==> self.link(b[j]).prev == m.link(b[j]).prev
                    } by {
                        assert(m.sib_ok(b, j, pb));
                        assert(b.contains(b[j]));
                        assert(a[a.len() - 1] == a.last());
                        assert(b[b.len() - 1] == b.last());
                    }
                    assert(a[a.len() - 1] == a.last());
                    assert(b[b.len() - 1] == b.last());
                    self.ring_joined(m, a, b, pa, pb, at);
                    assert(all.last() == b.last());
                }
                self.weight_concat(run, ks);
                self.weight_concat(ks, run);
                assert forall|j: int| 0 <= j < run.len() implies self.cnt(#[trigger] run[j]) == m.cnt(
                    run[j],
                ) by {
                    assert(self.link(run[j]).size == m.link(run[j]).size);
                }
                self.weight_same(m, run);
                assert forall|j: int| 0 <= j < ks.len() implies self.cnt(#[trigger] ks[j]) == m.cnt(
                    ks[j],
                ) by {
                    assert(self.link(ks[j]).size == m.link(ks[j]).size);
                }
                self.weight_same(m, ks);
                if run.contains(at) {
                    let j = choose|j: int| 0 <= j < run.len() && run[j] == at;
                    m.weight_ge(run, j);
                    m.weight_nonneg(ks);
                }
                assert(!run.contains(at));
                m.weight_nonneg(run);
                m.wf_is_ranked(at, -(run.len() as int), -m.weight(run), NIL, 0);
                assert(self.sib_ok(all, all.len() - 1, at));
                assert(m.link(at).parent != at);
            } else {
                let kk = m.kids(i);
                assert forall|j: int| 0 <= j < kk.len() implies {
                    &&& self.live(#[trigger] kk[j])
                    &&& self.link(kk[j]).next == m.link(kk[j]).next
                    &&& self.link(kk[j]).prev == m.link(kk[j]).prev
                    &&& self.link(kk[j]).parent == m.link(kk[j]).parent
                    &&& self.cnt(kk[j]) == m.cnt(kk[j])
                } by {
                    assert(m.sib_ok(kk, j, i));
                }
                self.weight_same(m, kk);
                if run.contains(i) {
                    let j = choose|j: int| 0 <= j < run.len() && run[j] == i;
                    assert(self.kids(at)[if front {
                        j
                    } else {
                        j + ks.len()
                    }] == i);
                } else {
                    let p = m.link(i).parent;
                    if p == at {
                        let j = choose|j: int| 0 <= j < ks.len() && ks[j] == i;
                        assert(self.kids(at)[if front {
                            j + run.len()
                        } else {
                            j
                        }] == i);
                    }
                }
                self.node_kept(m, i, 0, 0, 0, 0);
            }
        }
    }

    /// A child that was unlinked from under `at` leaves the heap at rest but
    /// for the sizes of `at`, which are too large by the child's.
    pub proof fn prune_wf(&self, o: &Heap<T>, at: usize, j: int)
        requires
            o.wf(),
            o.live(at),
            0 <= j < o.kids(at).len(),
            self.unlinked(o, at, j),
        ensures
            self.wf_by(at, -1, -o.cnt(o.kids(at)[j]), NIL, 0),
    {
        let ks = o.kids(at);
        let c = ks[j];
        let rest = ks.remove(j);
        assert(o.node_ok(at, 0, 0));
        assert(o.sib_ok(ks, j, at));
        assert forall|i: usize| ks.contains(i) implies o.link(i).parent == at && o.live(i) by {
            let k = choose|k: int| 0 <= k < ks.len() && ks[k] == i;
            assert(o.sib_ok(ks, k, at));
        }
        assert forall|i: usize| #[trigger] self.live(i) implies self.node_ok(
            i,
            if i == at {
                -1
            } else {
                0
            },
            if i == at {
                -o.cnt(c)
            } else {
                0
            },
        ) by {
            assert(o.live(i));
            assert(o.node_ok(i, 0, 0));
            if i == at {
                assert forall|k: int| 0 <= k < ks.len() && k != j implies {
                    &&& self.live(#[trigger] ks[k])
                    &&& self.link(ks[k]).parent == at
                    &&& self.link(ks[k]).next == (if o.link(ks[k]).next == ks[j] {
                        o.link(ks[j]).next
                    } else {
                        o.link(ks[k]).next
                    })
                    &&& self.link(ks[k]).prev == (if o.link(ks[k]).prev == ks[j] {
                        o.link(ks[j]).prev
                    } else {
                        o.link(ks[k]).prev
                    })
                } by {
                    assert(o.sib_ok(ks, k, at));
                    let q = if j > 0 {
                        j - 1
                    } else {
                        ks.len() - 1
                    };
                    let s = if j + 1 < ks.len() {
                        j + 1
                    } else {
                        0
                    };
                    assert(o.sib_ok(ks, q, at));
                    assert(o.sib_ok(ks, s, at));
                    assert(o.link(c).prev == ks[q]);
                    assert(o.link(c).next == ks[s]);
                    let kn = if k + 1 < ks.len() {
                        k + 1
                    } else {
                        0
                    };
                    let kp = if k > 0 {
                        k - 1
                    } else {
                        ks.len() - 1
                    };
                    assert(o.link(ks[k]).next == ks[kn]);
                    assert(o.link(ks[k]).prev == ks[kp]);
                }
                self.ring_cut(o, ks, j, at);
                self.weight_remove(ks, j);
                assert forall|k: int| 0 <= k < rest.len() implies self.cnt(#[trigger] rest[k]) == o.cnt(
                    rest[k],
                ) by {
                    assert(self.link(rest[k]).size == o.link(rest[k]).size);
                }
                self.weight_same(o, rest);
                o.weight_remove(ks, j);
                if rest.len() > 0 {
                    if j == ks.len() - 1 {
                        assert(rest.last() == ks[j - 1]);
                    } else {
                        assert(rest.last() == ks.last());
                    }
                    assert(self.sib_ok(rest, rest.len() - 1, at));
                }
                o.wf_is_ranked(NIL, 0, 0, NIL, 0);
                assert(o.link(at).parent != at);
            } else {
                let kk = o.kids(i);
                assert forall|k: int| 0 <= k < kk.len() implies {
                    &&& self.live(#[trigger] kk[k])
                    &&& self.link(kk[k]).next == o.link(kk[k]).next
                    &&& self.link(kk[k]).prev == o.link(kk[k]).prev
                    &&& self.link(kk[k]).parent == o.link(kk[k]).parent
                    &&& self.cnt(kk[k]) == o.cnt(kk[k])
                } by {
                    assert(o.sib_ok(kk, k, i));
                    let q = if j > 0 {
                        j - 1
                    } else {
                        ks.len() - 1
                    };
                    let s = if j + 1 < ks.len() {
                        j + 1
                    } else {
                        0
                    };
                    assert(o.sib_ok(ks, q, at));
                    assert(o.sib_ok(ks, s, at));
                }
                self.weight_same(o, kk);
                if i != c {
                    let p = o.link(i).parent;
                    if p == at {
                        let k = choose|k: int| 0 <= k < ks.len() && ks[k] == i;
                        assert(rest[if k < j {
                            k
                        } else {
                            k - 1
                        }] == i);
                    }
                }
                self.node_kept(o, i, 0, 0, 0, 0);
            }
        }
    }

    /// Whether the trees rooted at `run` can be put under `at`: none of them
    /// is the tree that holds `at`, and the node counts above `at` still fit
    /// in `u32` once raised.
    pub open spec fn takes(&self, at: usize, run: Seq<usize>) -> bool {
        &&& !run.contains(self.root_of(at))
        &&& self.tree_cnt(at) + self.weight(run) <= u32::MAX
    }

    /// What holds before the trees rooted at `run` are put under `at`: none
    /// of them stands above `at`, and the sizes can be raised.
    pub proof fn graft_ready(&self, at: usize, run: Seq<usize>)
        requires
            self.wf(),
            self.live(at),
            self.ring(run, NIL),
            self.takes(at, run),
        ensures
            self.ranked(),
            self.deg(at) + run.len() <= u32::MAX,
            0 <= self.weight(run),
            run.len() <= self.weight(run),
            forall|j: int| 0 <= j < run.len() ==> !self.above(#[trigger] run[j], at),
            run.len() == 1 ==> self.weight(run) == self.cnt(run[0]),
    {
        self.wf_is_ranked(NIL, 0, 0, NIL, 0);
        self.size_bounds(at);
        assert forall|j: int| 0 <= j < run.len() implies self.cnt(#[trigger] run[j]) >= 1 by {
            assert(self.sib_ok(run, j, NIL));
            self.size_bounds(run[j]);
        }
        self.weight_ge_len(run);
        assert forall|j: int| 0 <= j < run.len() implies !self.above(#[trigger] run[j], at) by {
            assert(self.sib_ok(run, j, NIL));
            if self.above(run[j], at) {
                self.above_root(run[j], at);
            }
        }
        if run.len() == 1 {
            assert(run =~= seq![run[0]]);
            self.weight_one(run[0]);
        }
    }

    /// What holds once the sizes above `at` have been raised for `run`.
    pub proof fn graft_begun(&self, o: &Heap<T>, at: usize, run: Seq<usize>)
        requires
            o.wf(),
            o.live(at),
            o.ring(run, NIL),
            o.takes(at, run),
            self.wf_by(at, -(run.len() as int), -o.weight(run), NIL, 0),
            self.resized(o, at, run.len() as int, o.weight(run)),
        ensures
            self.live(at),
            self.ring(run, NIL),
            self.weight(run) == o.weight(run),
            self.kids(at) == o.kids(at),
    {
        o.wf_is_ranked(NIL, 0, 0, NIL, 0);
        assert forall|j: int| 0 <= j < run.len() implies {
            &&& self.live(#[trigger] run[j])
            &&& self.link(run[j]).next == o.link(run[j]).next
            &&& self.link(run[j]).prev == o.link(run[j]).prev
            &&& self.link(run[j]).parent == o.link(run[j]).parent
            &&& self.cnt(run[j]) == o.cnt(run[j])
        } by {
            assert(o.sib_ok(run, j, NIL));
            if o.above(run[j], at) {
                o.above_root(run[j], at);
            }
            assert(self.link(run[j]).size.node_cnt == o.cnt(run[j]));
        }
        self.ring_same(o, run, NIL);
        self.weight_same(o, run);
        assert(self.live(at) == o.live(at));
        assert(self.kids(at) == o.kids(at));
    }

    /// Raising the sizes and linking the ring add up to the graft.
    pub proof fn graft_done(&self, m: &Heap<T>, o: &Heap<T>, at: usize, run: Seq<usize>, front: bool)
        requires
            o.wf(),
            o.live(at),
            run.len() > 0,
            m.ring(run, NIL),
            m.wf_by(at, -(run.len() as int), -o.weight(run), NIL, 0),
            m.resized(o, at, run.len() as int, o.weight(run)),
            self.spliced(m, at, run, front),
        ensures
            self.grafted(o, at, run, front),
    {
        let ks = m.kids(at);
        o.wf_is_ranked(NIL, 0, 0, NIL, 0);
        assert(o.above(at, at));
        assert(m.live(at) == o.live(at));
        assert(m.kids(at) == o.kids(at));
        assert(m.node_ok(at, -(run.len() as int), -o.weight(run)));
        assert forall|i: usize| run.contains(i) implies m.link(i).parent == NIL by {
            let j = choose|j: int| 0 <= j < run.len() && run[j] == i;
            assert(m.sib_ok(run, j, NIL));
        }
        if ks.len() > 0 {
            m.ends_of_ring(ks, at);
            assert(m.sib_ok(ks, 0, at));
            assert(m.sib_ok(ks, ks.len() - 1, at));
        }
        assert(run.contains(run[0]));
        assert(run.contains(run.last())) by {
            assert(run[run.len() - 1] == run.last());
        }
        assert forall|i: usize|
            #![trigger self.live(i)]
            #![trigger self.link(i)]
            #![trigger self.kids(i)]
            #![trigger self.payload(i)]
            {
                &&& self.live(i) == o.live(i)
                &&& self.payload(i) == o.payload(i)
                &&& i != at ==> self.kids(i) == o.kids(i)
                &&& self.link(i).parent == (if run.contains(i) {
                    at
                } else {
                    o.link(i).parent
                })
                &&& o.link(i).parent == NIL && !run.contains(i) ==> self.link(i).next == o.link(i).next
                    && self.link(i).prev == o.link(i).prev
                &&& self.deg(i) == o.deg(i) + (if i == at {
                    run.len() as int
                } else {
                    0
                })
                &&& self.cnt(i) == o.cnt(i) + (if o.above(i, at) {
                    o.weight(run)
                } else {
                    0
                })
                &&& !o.above(i, at) && !run.contains(i) && o.link(i).parent != at ==> self.link(i)
                    == o.link(i)
            } by {
            assert(self.link(i).size == m.link(i).size);
            assert(m.link(i).parent == o.link(i).parent);
            assert(m.link(i).size.degree == o.deg(i) + (if i == at {
                run.len() as int
            } else {
                0
            }));
            assert(m.link(i).size.node_cnt == o.cnt(i) + (if o.above(i, at) {
                o.weight(run)
            } else {
                0
            }));
        }
    }

    /// What holds before the child at position `j` of `at` is taken out.
    pub proof fn prune_ready(&self, at: usize, j: int)
        requires
            self.wf(),
            self.live(at),
            0 <= j < self.kids(at).len(),
        ensures
            self.link(at).child != NIL,
            self.live(self.link(at).child),
            self.link(at).child == self.kids(at).last(),
            self.link(self.link(at).child).next == self.kids(at)[0],
            self.live(self.kids(at)[0]),
            self.link(self.kids(at)[0]).prev == self.kids(at).last(),
            (self.kids(at)[0] == self.kids(at).last()) == (self.kids(at).len() == 1),
            self.live(self.kids(at)[j]),
            self.link(self.kids(at)[j]).parent == at,
            self.live(self.link(self.kids(at)[j]).next),
            self.live(self.link(self.kids(at)[j]).prev),
            self.link(self.link(self.kids(at)[j]).next).parent == at,
            self.link(self.link(self.kids(at)[j]).prev).parent == at,
            self.kids(at).len() > 1 ==> {
                &&& self.link(self.kids(at)[0]).next == self.kids(at)[1]
                &&& self.link(self.kids(at).last()).prev == self.kids(at)[self.kids(at).len() - 2]
            },
    {
        let ks = self.kids(at);
        assert(self.node_ok(at, 0, 0));
        self.ends_of_ring(ks, at);
        assert(self.sib_ok(ks, j, at));
        assert(self.sib_ok(ks, 0, at));
        assert(self.sib_ok(ks, ks.len() - 1, at));
        assert(self.sib_ok(ks, if j + 1 < ks.len() {
            j + 1
        } else {
            0
        }, at));
        assert(self.sib_ok(ks, if j > 0 {
            j - 1
        } else {
            ks.len() - 1
        }, at));
    }

    /// Unlinking the child and lowering the sizes add up to the pruning.
    pub proof fn prune_done(&self, m: &Heap<T>, o: &Heap<T>, at: usize, j: int)
        requires
            o.wf(),
            o.live(at),
            0 <= j < o.kids(at).len(),
            m.unlinked(o, at, j),
            m.wf_by(at, -1, -o.cnt(o.kids(at)[j]), NIL, 0),
            self.resized(m, at, -1, -o.cnt(o.kids(at)[j])),
        ensures
            self.pruned(o, at, j),
    {
        let ks = o.kids(at);
        let c = ks[j];
        o.wf_is_ranked(NIL, 0, 0, NIL, 0);
        m.wf_is_ranked(at, -1, -o.cnt(c), NIL, 0);
        o.prune_ready(at, j);
        assert(m.live(at) == o.live(at));
        assert forall|y: usize| #[trigger] o.above(y, at) implies m.live(y) && m.link(y).parent == o.link(
            y,
        ).parent by {
            o.above_rank(y, at);
            assert(m.live(y) == o.live(y));
            assert(m.link(y).parent == (if y == c {
                NIL
            } else {
                o.link(y).parent
            }));
        }
        assert(self.kids(at) == m.kids(at));
        assert(self.link(c).next == m.link(c).next);
        assert forall|i: usize|
            #![trigger self.live(i)]
            #![trigger self.link(i)]
            #![trigger self.kids(i)]
            #![trigger self.payload(i)]
            {
                &&& self.live(i) == o.live(i)
                &&& self.payload(i) == o.payload(i)
                &&& i != at ==> self.kids(i) == o.kids(i)
                &&& self.link(i).parent == (if i == c {
                    NIL
                } else {
                    o.link(i).parent
                })
                &&& o.link(i).parent == NIL ==> self.link(i).next == o.link(i).next && self.link(i).prev
                    == o.link(i).prev
                &&& self.deg(i) == o.deg(i) - (if i == at {
                    1int
                } else {
                    0
                })
                &&& self.cnt(i) == o.cnt(i) - (if o.above(i, at) {
                    o.cnt(c)
                } else {
                    0
                })
                &&& !o.above(i, at) && o.link(i).parent != at ==> self.link(i) == o.link(i)
            } by {
            o.above_same(m, i, at);
            assert(m.live(i) == o.live(i));
            assert(self.link(i).next == m.link(i).next);
            assert(self.link(i).size.degree == m.deg(i) + (if i == at {
                -1int
            } else {
                0
            }));
            assert(self.link(i).size.node_cnt == m.cnt(i) + (if m.above(i, at) {
                -o.cnt(c)
            } else {
                0
            }));
            assert(m.link(i).size == o.link(i).size);
        }
    }

    /// Putting no trees under `at` changes nothing.
    pub proof fn graft_none(&self, at: usize, run: Seq<usize>, front: bool)
        requires
            run.len() == 0,
        ensures
            self.grafted(self, at, run, front),
    {
        assert(run + self.kids(at) =~= self.kids(at));
        assert(self.kids(at) + run =~= self.kids(at));
        assert(self.weight(run) == 0);
    }

    /// Whether `self` is `o` after the tree rooted at `t` was put under
    /// `at` as the child at position `j`. The children of `at` are the old
    /// ones with `t` among them; `t` has `at` as its parent; the degree of
    /// `at` grew by 1, and the node count of `at` and of each of its
    /// ancestors by that of `t`. Every other node has the payload, children,
    /// parent and sizes it had, and every other root its neighbours; a node
    /// that is neither above `at` nor a child of `at` keeps its whole header.
    pub open spec fn inserted(&self, o: &Heap<T>, at: usize, j: int, t: usize) -> bool {
        &&& self.kids(at) == o.kids(at).insert(j, t)
        &&& forall|i: usize|
            #![trigger self.live(i)]
            #![trigger self.link(i)]
            #![trigger self.kids(i)]
            #![trigger self.payload(i)]
            {
                &&& self.live(i) == o.live(i)
                &&& self.payload(i) == o.payload(i)
                &&& i != at ==> self.kids(i) == o.kids(i)
                &&& self.link(i).parent == (if i == t {
                    at
                } else {
                    o.link(i).parent
                })
                &&& o.link(i).parent == NIL && i != t ==> self.link(i).next == o.link(i).next
                    && self.link(i).prev == o.link(i).prev
                &&& self.deg(i) == o.deg(i) + (if i == at {
                    1int
                } else {
                    0
                })
                &&& self.cnt(i) == o.cnt(i) + (if o.above(i, at) {
                    o.cnt(t)
                } else {
                    0
                })
                &&& !o.above(i, at) && i != t && o.link(i).parent != at ==> self.link(i) == o.link(i)
            }
    }

    /// The headers of `self`, given those of `m`, after the root `t`, which
    /// stood alone, was linked under `at` between its children `pred` and
    /// `succ`, as the child at position `j`; sizes are as in `m`.
    pub open spec fn wedged(&self, m: &Heap<T>, at: usize, j: int, t: usize) -> bool {
        let ks = m.kids(at);
        let pred = if j > 0 {
            ks[j - 1]
        } else {
            ks.last()
        };
        let succ = if j < ks.len() {
            ks[j]
        } else {
            ks[0]
        };
        &&& self.sound()
        &&& self.kids(at) == ks.insert(j, t)
        &&& forall|i: usize|
            #![trigger self.live(i)]
            #![trigger self.link(i)]
            #![trigger self.kids(i)]
            #![trigger self.payload(i)]
            {
                &&& self.live(i) == m.live(i)
                &&& self.payload(i) == m.payload(i)
                &&& i != at ==> self.kids(i) == m.kids(i)
                &&& self.link(i).size == m.link(i).size
                &&& self.link(i).parent == (if i == t {
                    at
                } else {
                    m.link(i).parent
                })
                &&& self.link(i).child == (if i == at && j == ks.len() {
                    t
                } else {
                    m.link(i).child
                })
                &&& self.link(i).next == (if ks.len() > 0 && i == t {
                    succ
                } else if ks.len() > 0 && i == pred {
                    t
                } else {
                    m.link(i).next
                })
                &&& self.link(i).prev == (if ks.len() > 0 && i == t {
                    pred
                } else if ks.len() > 0 && i == succ {
                    t
                } else {
                    m.link(i).prev
                })
            }
    }

    /// Once the sizes above `at` have been raised for it, a root linked
    /// between two children of `at` leaves the heap at rest.
    pub proof fn wedge_wf(&self, m: &Heap<T>, at: usize, j: int, t: usize)
        requires
            m.wf_by(at, -1, -m.cnt(t), NIL, 0),
            m.live(at),
            0 <= j <= m.kids(at).len(),
            m.ring(seq![t], NIL),
            self.wedged(m, at, j, t),
        ensures
            self.wf(),
    {
        let ks = m.kids(at);
        let n = ks.len() as int;
        let run = seq![t];
        let all = ks.insert(j, t);
        m.weight_one(t);
        assert(m.node_ok(at, -1, -m.cnt(t)));
        assert(m.sib_ok(run, 0, NIL));
        assert forall|i: usize| ks.contains(i) implies m.link(i).parent == at && m.live(i) && i != t by {
            let k = choose|k: int| 0 <= k < ks.len() && ks[k] == i;
            assert(m.sib_ok(ks, k, at));
        }
        if n > 0 {
            assert(ks.contains(ks[0]));
            assert(ks.contains(ks[n - 1]));
            if j > 0 {
                assert(ks.contains(ks[j - 1]));
            }
            if j < n {
                assert(ks.contains(ks[j]));
            }
        }
        if t == at {
            m.weight_nonneg(ks);
        }
        assert(t != at);
        m.wf_is_ranked(at, -1, -m.cnt(t), NIL, 0);
        assert(m.link(at).parent != at);
        assert forall|i: usize| #[trigger] self.live(i) implies self.node_ok(i, 0, 0) by {
            assert(m.live(i));
            if i == at {
                if n == 0 {
                    assert(all =~= run);
                    assert(self.sib_ok(all, 0, at));
                } else {
                    let rot = ks.subrange(j, n) + ks.subrange(0, j);
                    m.ring_rotated(ks, j, at);
                    assert forall|k: int| 0 <= k < n implies rot[k] == ks[if k < n - j {
                        k + j
                    } else {
                        k - (n - j)
                    }] by {}
                    assert(rot[0] == (if j < n {
                        ks[j]
                    } else {
                        ks[0]
                    }));
                    assert(rot[n - 1] == (if j > 0 {
                        ks[j - 1]
                    } else {
                        ks[n - 1]
                    }));
                    assert forall|k: int| 0 <= k < rot.len() implies {
                        &&& self.live(#[trigger] rot[k])
                        &&& self.link(rot[k]).parent == at
                        &&& k + 1 < rot.len() ==> self.link(rot[k]).next == m.link(rot[k]).next
                        &&& k > 0 ==> self.link(rot[k]).prev == m.link(rot[k]).prev
                    } by {
                        assert(m.sib_ok(rot, k, at));
                        assert(ks.contains(rot[k]));
                    }
                    assert forall|a: int, b: int| 0 <= a < run.len() && 0 <= b < rot.len() implies run[a]
                        != rot[b] by {
                        assert(ks.contains(rot[b]));
                    }
                    self.ring_joined(m, run, rot, NIL, at, at);
                    let joined = run + rot;
                    self.ring_rotated(joined, 1 + n - j, at);
                    assert(joined.subrange(1 + n - j, joined.len() as int) + joined.subrange(0, 1 + n - j)
                        =~= all);
                }
                assert(all =~= ks.subrange(0, j) + run + ks.subrange(j, n));
                assert(ks =~= ks.subrange(0, j) + ks.subrange(j, n));
                self.weight_concat(ks.subrange(0, j) + run, ks.subrange(j, n));
                self.weight_concat(ks.subrange(0, j), run);
                self.weight_concat(ks.subrange(0, j), ks.subrange(j, n));
                self.weight_one(t);
                assert forall|k: int| 0 <= k < ks.len() implies self.cnt(#[trigger] ks[k]) == m.cnt(
                    ks[k],
                ) by {
                    assert(self.link(ks[k]).size == m.link(ks[k]).size);
                }
                self.weight_same(m, ks);
                assert forall|k: int| 0 <= k < j implies self.cnt(#[trigger] ks.subrange(0, j)[k]) == m.cnt(
                    ks.subrange(0, j)[k],
                ) by {
                    assert(self.link(ks[k]).size == m.link(ks[k]).size);
                }
                self.weight_same(m, ks.subrange(0, j));
                assert forall|k: int| 0 <= k < n - j implies self.cnt(#[trigger] ks.subrange(j, n)[k])
                    == m.cnt(ks.subrange(j, n)[k]) by {
                    assert(self.link(ks[k + j]).size == m.link(ks[k + j]).size);
                }
                self.weight_same(m, ks.subrange(j, n));
                m.weight_concat(ks.subrange(0, j), ks.subrange(j, n));
                assert(self.cnt(t) == m.cnt(t));
                assert(self.sib_ok(all, all.len() - 1, at));
                assert(all.last() == (if j == n {
                    t
                } else {
                    ks.last()
                }));
            } else {
                let kk = m.kids(i);
                assert forall|k: int| 0 <= k < kk.len() implies {
                    &&& self.live(#[trigger] kk[k])
                    &&& self.link(kk[k]).next == m.link(kk[k]).next
                    &&& self.link(kk[k]).prev == m.link(kk[k]).prev
                    &&& self.link(kk[k]).parent == m.link(kk[k]).parent
                    &&& self.cnt(kk[k]) == m.cnt(kk[k])
                } by {
                    assert(m.sib_ok(kk, k, i));
                }
                self.weight_same(m, kk);
                if i == t {
                    assert(all[j] == t);
                } else {
                    let p = m.link(i).parent;
                    if p == at {
                        let k = choose|k: int| 0 <= k < ks.len() && ks[k] == i;
                        assert(all[if k < j {
                            k
                        } else {
                            k + 1
                        }] == i);
                    }
                }
                assert(self.link(i).child == m.link(i).child);
                self.node_kept(m, i, 0, 0, 0, 0);
            }
        }
    }

    /// Raising the sizes and linking the root add up to the insertion.
    pub proof fn wedge_done(&self, m: &Heap<T>, o: &Heap<T>, at: usize, j: int, t: usize)
        requires
            o.wf(),
            o.live(at),
            0 <= j <= o.kids(at).len(),
            m.ring(seq![t], NIL),
            m.wf_by(at, -1, -o.cnt(t), NIL, 0),
            m.resized(o, at, 1, o.cnt(t)),
            self.wedged(m, at, j, t),
        ensures
            self.inserted(o, at, j, t),
    {
        let ks = m.kids(at);
        o.wf_is_ranked(NIL, 0, 0, NIL, 0);
        assert(o.above(at, at));
        assert(m.live(at) == o.live(at));
        assert(m.kids(at) == o.kids(at));
        assert(m.node_ok(at, -1, -o.cnt(t)));
        assert(m.sib_ok(seq![t], 0, NIL));
        assert forall|i: usize| ks.contains(i) implies m.link(i).parent == at by {
            let k = choose|k: int| 0 <= k < ks.len() && ks[k] == i;
            assert(m.sib_ok(ks, k, at));
        }
        if ks.len() > 0 {
            assert(ks.contains(ks[0]));
            assert(ks.contains(ks[ks.len() - 1]));
            if j > 0 {
                assert(ks.contains(ks[j - 1]));
            }
            if j < ks.len() {
                assert(ks.contains(ks[j]));
            }
        }
        assert forall|i: usize|
            #![trigger self.live(i)]
            #![trigger self.link(i)]
            #![trigger self.kids(i)]
            #![trigger self.payload(i)]
            {
                &&& self.live(i) == o.live(i)
                &&& self.payload(i) == o.payload(i)
                &&& i != at ==> self.kids(i) == o.kids(i)
                &&& self.link(i).parent == (if i == t {
                    at
                } else {
                    o.link(i).parent
                })
                &&& o.link(i).parent == NIL && i != t ==> self.link(i).next == o.link(i).next
                    && self.link(i).prev == o.link(i).prev
                &&& self.deg(i) == o.deg(i) + (if i == at {
                    1int
                } else {
                    0
                })
                &&& self.cnt(i) == o.cnt(i) + (if o.above(i, at) {
                    o.cnt(t)
                } else {
                    0
                })
                &&& !o.above(i, at) && i != t && o.link(i).parent != at ==> self.link(i) == o.link(i)
            } by {
            assert(self.link(i).size == m.link(i).size);
            assert(m.link(i).parent == o.link(i).parent);
            assert(m.link(i).size.degree == o.deg(i) + (if i == at {
                1int
            } else {
                0
            }));
            assert(m.link(i).size.node_cnt == o.cnt(i) + (if o.above(i, at) {
                o.cnt(t)
            } else {
                0
            }));
        }
    }

    /// The position of node `c` among the children of its parent.
    pub open spec fn place(&self, c: usize) -> int {
        self.kids(self.link(c).parent).index_of(c)
    }

    /// A node that has a parent stands among the children of that parent,
    /// between its neighbours.
    pub proof fn place_facts(&self, c: usize)
        requires
            self.wf(),
            self.live(c),
            self.link(c).parent != NIL,
        ensures
            self.live(self.link(c).parent),
            0 <= self.place(c) < self.kids(self.link(c).parent).len(),
            self.kids(self.link(c).parent)[self.place(c)] == c,
            self.sib_ok(self.kids(self.link(c).parent), self.place(c), self.link(c).parent),
            self.live(self.link(c).next),
            self.live(self.link(c).prev),
            self.link(self.link(c).parent).child == self.kids(self.link(c).parent).last(),
            self.live(self.link(self.link(c).parent).child),
            (self.link(self.link(c).parent).child == c) == (self.place(c) == self.kids(
                self.link(c).parent,
            ).len() - 1),
            (self.link(c).next == c) == (self.kids(self.link(c).parent).len() == 1),
            (self.link(self.link(self.link(c).parent).child).next == self.link(self.link(c).parent).child)
                == (self.kids(self.link(c).parent).len() == 1),
            self.link(self.link(c).next).parent == self.link(c).parent,
            self.link(self.link(c).prev).parent == self.link(c).parent,
            self.link(self.link(c).parent).parent != self.link(c).parent,
            self.link(c).parent != c,
    {
        let p = self.link(c).parent;
        self.wf_is_ranked(NIL, 0, 0, NIL, 0);
        assert(self.node_ok(c, 0, 0));
        assert(self.node_ok(p, 0, 0));
        let ks = self.kids(p);
        let j = ks.index_of(c);
        assert(ks.contains(c));
        assert(0 <= j < ks.len() && ks[j] == c);
        assert(self.sib_ok(ks, j, p));
        assert(self.sib_ok(ks, if j + 1 < ks.len() {
            j + 1
        } else {
            0
        }, p));
        assert(self.sib_ok(ks, if j > 0 {
            j - 1
        } else {
            ks.len() - 1
        }, p));
        self.ends_of_ring(ks, p);
        assert(self.sib_ok(ks, ks.len() - 1, p));
    }

    /// Whether `self` is `o` after the first child of the root `r` was given
    /// up and its children were put in its place. The children of `r` are
    /// those of that child and then the other children of `r`; they have `r`
    /// as their parent; the node count of `r` fell by 1. A node that is
    /// neither `r` nor a child of `r` nor a child of that child keeps its
    /// header, and every other node its payload and children.
    pub open spec fn lifted(&self, o: &Heap<T>, r: usize) -> bool {
        let c = o.kids(r)[0];
        &&& !self.live(c)
        &&& self.kids(r) == o.kids(c) + o.kids(r).drop_first()
        &&& self.cnt(r) == o.cnt(r) - 1
        &&& forall|i: usize|
            #![trigger self.live(i)]
            #![trigger self.link(i)]
            #![trigger self.kids(i)]
            #![trigger self.payload(i)]
            i != c ==> {
                &&& self.live(i) == o.live(i)
                &&& self.payload(i) == o.payload(i)
                &&& i != r ==> self.kids(i) == o.kids(i)
                &&& self.link(i).parent == (if o.kids(c).contains(i) {
                    r
                } else {
                    o.link(i).parent
                })
                &&& o.link(i).parent == NIL ==> self.link(i).next == o.link(i).next && self.link(i).prev
                    == o.link(i).prev
                &&& i != r && o.link(i).parent != r && !o.kids(c).contains(i) ==> self.link(i) == o.link(
                    i,
                )
            }
    }

    /// A node that is not the root of its tree stands below a root that has
    /// children.
    pub proof fn below_root(&self, i: usize)
        requires
            self.wf(),
            self.live(i),
            self.root_of(i) != i,
        ensures
            self.kids(self.root_of(i)).len() > 0,
        decreases u32::MAX - self.cnt(i),
    {
        self.wf_is_ranked(NIL, 0, 0, NIL, 0);
        let p = self.link(i).parent;
        assert(self.node_ok(i, 0, 0));
        if self.link(p).parent == NIL {
            assert(self.root_of(p) == p);
        } else {
            self.root_facts(p);
            self.below_root(p);
        }
    }

    /// Giving up the first child of a root and putting its children in its
    /// place leaves every node in the tree it was in.
    pub proof fn lifted_roots(&self, o: &Heap<T>, r: usize, x: usize)
        requires
            o.wf(),
            self.wf(),
            o.live(r),
            o.link(r).parent == NIL,
            o.kids(r).len() > 0,
            self.lifted(o, r),
            self.live(x),
        ensures
            o.live(x),
            self.root_of(x) == o.root_of(x),
        decreases u32::MAX - o.cnt(x),
    {
        let c = o.kids(r)[0];
        o.wf_is_ranked(NIL, 0, 0, NIL, 0);
        self.wf_is_ranked(NIL, 0, 0, NIL, 0);
        assert(o.node_ok(r, 0, 0));
        assert(o.sib_ok(o.kids(r), 0, r));
        assert(o.node_ok(c, 0, 0));
        assert(self.live(x) == o.live(x));
        assert(self.live(r) == o.live(r));
        assert(!o.kids(c).contains(r)) by {
            if o.kids(c).contains(r) {
                let k = choose|k: int| 0 <= k < o.kids(c).len() && o.kids(c)[k] == r;
                assert(o.sib_ok(o.kids(c), k, c));
            }
        }
        assert(self.link(r).parent == NIL);
        assert(self.root_of(r) == r);
        assert(o.root_of(r) == r);
        assert(o.root_of(c) == r);
        if o.kids(c).contains(x) {
            let k = choose|k: int| 0 <= k < o.kids(c).len() && o.kids(c)[k] == x;
            assert(o.sib_ok(o.kids(c), k, c));
            assert(self.link(x).parent == r);
        } else {
            let p = o.link(x).parent;
            assert(self.link(x).parent == p);
            if p != NIL {
                assert(self.node_ok(x, 0, 0));
                self.lifted_roots(o, r, p);
            }
        }
    }
}

} // verus!
