//! What it means for the nodes of a heap to form trees, and the facts about
//! such heaps that the structural operations rest on.

use vstd::prelude::*;
use crate::heap::Heap;
use crate::heap::NIL;

verus! {

impl<T> Heap<T> {
    /// The cached node count of node `i`.
    pub open spec fn cnt(&self, i: usize) -> int {
        self.link(i).size.node_cnt as int
    }

    /// The cached degree of node `i`.
    pub open spec fn deg(&self, i: usize) -> int {
        self.link(i).size.degree as int
    }

    /// The sum of the cached node counts of the nodes in `ks`.
    pub open spec fn weight(&self, ks: Seq<usize>) -> int
        decreases ks.len(),
    {
        if ks.len() == 0 {
            0
        } else {
            self.weight(ks.drop_last()) + self.cnt(ks.last())
        }
    }

    /// Whether the node at position `j` of the ring `ks` is in use, has `p`
    /// as its parent, and names its neighbours in the ring.
    pub open spec fn sib_ok(&self, ks: Seq<usize>, j: int, p: usize) -> bool {
        let c = ks[j];
        &&& self.live(c)
        &&& self.link(c).parent == p
        &&& self.link(c).next == (if j + 1 < ks.len() {
            ks[j + 1]
        } else {
            ks[0]
        })
        &&& self.link(c).prev == (if j > 0 {
            ks[j - 1]
        } else {
            ks[ks.len() - 1]
        })
    }

    /// Whether the nodes of `ks` form, in this order, a closed sibling ring
    /// under the parent `p`.
    pub open spec fn ring(&self, ks: Seq<usize>, p: usize) -> bool {
        &&& ks.no_duplicates()
        &&& forall|j: int| 0 <= j < ks.len() ==> #[trigger] self.sib_ok(ks, j, p)
    }

    /// The invariant of one node: its header agrees with its recorded
    /// children, which form a ring under it, and its parent records it as a
    /// child. `dd` and `dc` are what the cached degree and node count fall
    /// short of the true values; both are 0 in a heap at rest.
    pub open spec fn node_ok(&self, i: usize, dd: int, dc: int) -> bool {
        let l = self.link(i);
        let ks = self.kids(i);
        &&& ks.len() == l.size.degree + dd
        &&& (l.child == NIL) == (ks.len() == 0)
        &&& ks.len() > 0 ==> l.child == ks.last()
        &&& self.ring(ks, i)
        &&& l.size.node_cnt + dc == 1 + self.weight(ks)
        &&& l.parent != NIL ==> self.live(l.parent) && self.kids(l.parent).contains(i)
    }

    /// The invariant of the heap while sizes are being brought up to date:
    /// every node in use satisfies its invariant, but the cached sizes of `x`
    /// fall short by `dd` and `dc`, and the cached node count of `y`, unless
    /// `y` is [`NIL`], by `ec`.
    pub open spec fn wf_by(&self, x: usize, dd: int, dc: int, y: usize, ec: int) -> bool {
        &&& self.sound()
        &&& forall|i: usize| #[trigger]
            self.live(i) ==> self.node_ok(
                i,
                if i == x {
                    dd
                } else {
                    0
                },
                (if i == x {
                    dc
                } else {
                    0
                }) + (if i == y && y != NIL {
                    ec
                } else {
                    0
                }),
            )
    }

    /// The invariant of the heap at rest. For every node `v` in use,
    /// `degree(v)` is the number of its children and `node_cnt(v)` is one
    /// more than the sum of the node counts of its children.
    pub open spec fn wf(&self) -> bool {
        self.wf_by(NIL, 0, 0, NIL, 0)
    }

    /// Whether every parent has a larger cached node count than its child.
    pub open spec fn ranked(&self) -> bool {
        forall|i: usize| #[trigger]
            self.live(i) && self.link(i).parent != NIL ==> self.live(self.link(i).parent)
                && self.cnt(self.link(i).parent) > self.cnt(i)
    }

    /// Whether `a` is `x` or an ancestor of `x`.
    pub open spec fn above(&self, a: usize, x: usize) -> bool
        decreases u32::MAX - self.cnt(x),
        when self.ranked() && self.live(x)
    {
        a == x || (self.link(x).parent != NIL && self.above(a, self.link(x).parent))
    }

    /// The root of the tree that holds `x`.
    pub open spec fn root_of(&self, x: usize) -> usize
        decreases u32::MAX - self.cnt(x),
        when self.ranked() && self.live(x)
    {
        if self.link(x).parent == NIL {
            x
        } else {
            self.root_of(self.link(x).parent)
        }
    }

    /// The number of nodes of the tree that holds `x`.
    pub open spec fn tree_cnt(&self, x: usize) -> int {
        self.cnt(self.root_of(x))
    }

    /// Whether `self` and `o` hold the same nodes with the same payloads,
    /// children and neighbours; cached sizes may differ.
    pub open spec fn same_mesh(&self, o: &Heap<T>) -> bool {
        forall|i: usize|
            #![trigger self.live(i)]
            #![trigger self.link(i)]
            #![trigger self.kids(i)]
            #![trigger self.payload(i)]
            {
                &&& self.live(i) == o.live(i)
                &&& self.payload(i) == o.payload(i)
                &&& self.kids(i) == o.kids(i)
                &&& self.link(i).next == o.link(i).next
                &&& self.link(i).prev == o.link(i).prev
                &&& self.link(i).child == o.link(i).child
                &&& self.link(i).parent == o.link(i).parent
            }
    }

    /// Whether `self` is `o` with the cached degree of `at` raised by `dd`
    /// and the cached node count of `at` and of each of its ancestors raised
    /// by `dc`, and nothing else changed.
    pub open spec fn resized(&self, o: &Heap<T>, at: usize, dd: int, dc: int) -> bool {
        &&& self.same_mesh(o)
        &&& forall|i: usize| #[trigger]
            self.link(i).size.degree == o.deg(i) + (if i == at {
                dd
            } else {
                0
            })
        &&& forall|i: usize| #[trigger]
            self.link(i).size.node_cnt == o.cnt(i) + (if o.above(i, at) {
                dc
            } else {
                0
            })
    }

    /// A sum of node counts is not negative.
    pub proof fn weight_nonneg(&self, ks: Seq<usize>)
        ensures
            self.weight(ks) >= 0,
        decreases ks.len(),
    {
        if ks.len() > 0 {
            self.weight_nonneg(ks.drop_last());
        }
    }

    /// A sum is at least each of its terms.
    pub proof fn weight_ge(&self, ks: Seq<usize>, j: int)
        requires
            0 <= j < ks.len(),
        ensures
            self.weight(ks) >= self.cnt(ks[j]),
        decreases ks.len(),
    {
        self.weight_nonneg(ks.drop_last());
        if j < ks.len() - 1 {
            self.weight_ge(ks.drop_last(), j);
        }
    }

    /// Where every term is at least 1, the sum is at least the number of terms.
    pub proof fn weight_ge_len(&self, ks: Seq<usize>)
        requires
            forall|j: int| 0 <= j < ks.len() ==> self.cnt(#[trigger] ks[j]) >= 1,
        ensures
            self.weight(ks) >= ks.len(),
        decreases ks.len(),
    {
        if ks.len() > 0 {
            self.weight_ge_len(ks.drop_last());
        }
    }

    /// A sum with one more term is more by that term.
    pub proof fn weight_push(&self, ks: Seq<usize>, c: usize)
        ensures
            self.weight(ks.push(c)) == self.weight(ks) + self.cnt(c),
    {
        assert(ks.push(c).drop_last() =~= ks);
    }

    /// The sum over two runs is the sum of the sums over each.
    pub proof fn weight_concat(&self, a: Seq<usize>, b: Seq<usize>)
        ensures
            self.weight(a + b) == self.weight(a) + self.weight(b),
        decreases b.len(),
    {
        if b.len() == 0 {
            assert(a + b =~= a);
        } else {
            assert((a + b).drop_last() =~= a + b.drop_last());
            self.weight_concat(a, b.drop_last());
        }
    }

    /// The sum over one node is its node count.
    pub proof fn weight_one(&self, c: usize)
        ensures
            self.weight(seq![c]) == self.cnt(c),
    {
        assert(seq![c].drop_last() =~= Seq::<usize>::empty());
        assert(self.weight(seq![c].drop_last()) == 0);
    }

    /// Two heaps that agree on the node counts of the nodes in `ks` agree on
    /// their sum.
    pub proof fn weight_same(&self, o: &Heap<T>, ks: Seq<usize>)
        requires
            forall|j: int| 0 <= j < ks.len() ==> self.cnt(#[trigger] ks[j]) == o.cnt(ks[j]),
        ensures
            self.weight(ks) == o.weight(ks),
        decreases ks.len(),
    {
        if ks.len() > 0 {
            self.weight_same(o, ks.drop_last());
        }
    }

    /// Where the node count of one node of `ks` grew by `d` and the others
    /// stayed, the sum grew by `d`.
    pub proof fn weight_bump(&self, o: &Heap<T>, ks: Seq<usize>, c: usize, d: int)
        requires
            ks.no_duplicates(),
            ks.contains(c),
            self.cnt(c) == o.cnt(c) + d,
            forall|j: int| 0 <= j < ks.len() && ks[j] != c ==> self.cnt(#[trigger] ks[j]) == o.cnt(ks[j]),
        ensures
            self.weight(ks) == o.weight(ks) + d,
        decreases ks.len(),
    {
        let n = ks.len() - 1;
        let rest = ks.drop_last();
        if ks[n] == c {
            assert forall|j: int| 0 <= j < rest.len() implies self.cnt(#[trigger] rest[j]) == o.cnt(
                rest[j],
            ) by {
                assert(rest[j] == ks[j]);
            }
            self.weight_same(o, rest);
        } else {
            let j = choose|j: int| 0 <= j < ks.len() && ks[j] == c;
            assert(rest[j] == c);
            assert forall|j: int| 0 <= j < rest.len() && rest[j] != c implies self.cnt(
                #[trigger] rest[j],
            ) == o.cnt(rest[j]) by {
                assert(rest[j] == ks[j]);
            }
            self.weight_bump(o, rest, c, d);
        }
    }

    /// In a heap whose cached node counts are nowhere too small, every
    /// parent has a larger count than its child.
    pub proof fn wf_is_ranked(&self, x: usize, dd: int, dc: int, y: usize, ec: int)
        requires
            self.wf_by(x, dd, dc, y, ec),
            dc <= 0,
            ec <= 0,
        ensures
            self.ranked(),
    {
        assert forall|i: usize| #[trigger] self.live(i) && self.link(i).parent != NIL implies self.live(
            self.link(i).parent,
        ) && self.cnt(self.link(i).parent) > self.cnt(i) by {
            let p = self.link(i).parent;
            assert(self.live(p));
            let ks = self.kids(p);
            let j = choose|j: int| 0 <= j < ks.len() && ks[j] == i;
            self.weight_ge(ks, j);
        }
    }

    /// An ancestor is in use and has a larger cached node count.
    pub proof fn above_rank(&self, a: usize, x: usize)
        requires
            self.ranked(),
            self.live(x),
            self.above(a, x),
        ensures
            self.live(a),
            self.cnt(a) >= self.cnt(x),
            a != x ==> self.cnt(a) > self.cnt(x),
        decreases u32::MAX - self.cnt(x),
    {
        if a != x {
            self.above_rank(a, self.link(x).parent);
        }
    }

    /// The parent of what stands above `x` stands above `x`.
    pub proof fn above_step(&self, a: usize, x: usize)
        requires
            self.ranked(),
            self.live(x),
            self.above(a, x),
            self.link(a).parent != NIL,
        ensures
            self.above(self.link(a).parent, x),
        decreases u32::MAX - self.cnt(x),
    {
        if a == x {
            assert(self.above(self.link(x).parent, self.link(x).parent));
        } else {
            self.above_step(a, self.link(x).parent);
        }
    }

    /// The root of the tree that holds `x` is in use, has no parent, and is
    /// `x` or an ancestor of `x`.
    pub proof fn root_facts(&self, x: usize)
        requires
            self.ranked(),
            self.live(x),
        ensures
            self.live(self.root_of(x)),
            self.link(self.root_of(x)).parent == NIL,
            self.above(self.root_of(x), x),
            self.cnt(self.root_of(x)) >= self.cnt(x),
        decreases u32::MAX - self.cnt(x),
    {
        if self.link(x).parent != NIL {
            self.root_facts(self.link(x).parent);
        }
    }

    /// What stands above `x` is in the tree that holds `x`.
    pub proof fn roots_shared(&self, a: usize, x: usize)
        requires
            self.ranked(),
            self.live(x),
            self.above(a, x),
        ensures
            self.root_of(a) == self.root_of(x),
        decreases u32::MAX - self.cnt(x),
    {
        if a != x {
            self.roots_shared(a, self.link(x).parent);
        }
    }

    /// Two heaps that agree on the parents along the way up from `x` agree
    /// on what stands above `x`.
    pub proof fn above_same(&self, o: &Heap<T>, a: usize, x: usize)
        requires
            self.ranked(),
            o.ranked(),
            self.live(x),
            forall|y: usize| #[trigger]
                self.above(y, x) ==> o.live(y) && o.link(y).parent == self.link(y).parent,
        ensures
            self.above(a, x) == o.above(a, x),
            self.root_of(x) == o.root_of(x),
        decreases u32::MAX - self.cnt(x),
    {
        assert(self.above(x, x));
        let p = self.link(x).parent;
        if p != NIL {
            assert forall|y: usize| #[trigger] self.above(y, p) implies o.live(y) && o.link(y).parent
                == self.link(y).parent by {
                assert(self.above(y, x));
            }
            self.above_same(o, a, p);
        }
    }

    /// The first and the last child of a node that has children.
    pub proof fn ends_of_ring(&self, ks: Seq<usize>, p: usize)
        requires
            self.ring(ks, p),
            ks.len() > 0,
        ensures
            self.live(ks[0]),
            self.live(ks.last()),
            self.link(ks.last()).next == ks[0],
            self.link(ks[0]).prev == ks.last(),
            ks[0] != NIL,
            ks.last() != NIL,
    {
        assert(self.sib_ok(ks, 0, p));
        assert(self.sib_ok(ks, ks.len() - 1, p));
    }

    /// A ring carries over to a heap in which its nodes have the same
    /// neighbours and parent.
    pub proof fn ring_same(&self, o: &Heap<T>, ks: Seq<usize>, p: usize)
        requires
            o.ring(ks, p),
            forall|j: int|
                0 <= j < ks.len() ==> {
                    &&& self.live(#[trigger] ks[j])
                    &&& self.link(ks[j]).next == o.link(ks[j]).next
                    &&& self.link(ks[j]).prev == o.link(ks[j]).prev
                    &&& self.link(ks[j]).parent == o.link(ks[j]).parent
                },
        ensures
            self.ring(ks, p),
    {
        assert forall|j: int| 0 <= j < ks.len() implies #[trigger] self.sib_ok(ks, j, p) by {
            assert(o.sib_ok(ks, j, p));
        }
    }

    /// A ring carries over to a heap in which its nodes have the same
    /// neighbours and all have `p` as their parent.
    pub proof fn ring_moved(&self, o: &Heap<T>, ks: Seq<usize>, was: usize, p: usize)
        requires
            o.ring(ks, was),
            forall|j: int|
                0 <= j < ks.len() ==> {
                    &&& self.live(#[trigger] ks[j])
                    &&& self.link(ks[j]).next == o.link(ks[j]).next
                    &&& self.link(ks[j]).prev == o.link(ks[j]).prev
                    &&& self.link(ks[j]).parent == p
                },
        ensures
            self.ring(ks, p),
    {
        assert forall|j: int| 0 <= j < ks.len() implies #[trigger] self.sib_ok(ks, j, p) by {
            assert(o.sib_ok(ks, j, was));
        }
    }

    /// Two disjoint rings `a` and `b`, closed over one another at both
    /// seams, form the ring `a + b`.
    pub proof fn ring_joined(&self, o: &Heap<T>, a: Seq<usize>, b: Seq<usize>, pa: usize, pb: usize, p: usize)
        requires
            a.len() > 0,
            b.len() > 0,
            o.ring(a, pa),
            o.ring(b, pb),
            forall|j: int, k: int| 0 <= j < a.len() && 0 <= k < b.len() ==> a[j] != b[k],
            forall|j: int|
                0 <= j < a.len() ==> {
                    &&& self.live(#[trigger] a[j])
                    &&& self.link(a[j]).parent == p
                    &&& j + 1 < a.len() ==> self.link(a[j]).next == o.link(a[j]).next
                    &&& j > 0 ==> self.link(a[j]).prev == o.link(a[j]).prev
                },
            forall|j: int|
                0 <= j < b.len() ==> {
                    &&& self.live(#[trigger] b[j])
                    &&& self.link(b[j]).parent == p
                    &&& j + 1 < b.len() ==> self.link(b[j]).next == o.link(b[j]).next
                    &&& j > 0 ==> self.link(b[j]).prev == o.link(b[j]).prev
                },
            self.link(a.last()).next == b[0],
            self.link(b[0]).prev == a.last(),
            self.link(b.last()).next == a[0],
            self.link(a[0]).prev == b.last(),
        ensures
            self.ring(a + b, p),
    {
        let r = a + b;
        assert forall|j: int| 0 <= j < r.len() implies #[trigger] self.sib_ok(r, j, p) by {
            if j < a.len() {
                assert(r[j] == a[j]);
                assert(o.sib_ok(a, j, pa));
                if j + 1 < a.len() {
                    assert(r[j + 1] == a[j + 1]);
                } else {
                    assert(r[j + 1] == b[0]);
                }
                if j > 0 {
                    assert(r[j - 1] == a[j - 1]);
                } else {
                    assert(r[r.len() - 1] == b.last());
                }
            } else {
                let k = j - a.len();
                assert(r[j] == b[k]);
                assert(o.sib_ok(b, k, pb));
                if k + 1 < b.len() {
                    assert(r[j + 1] == b[k + 1]);
                } else {
                    assert(r[0] == a[0]);
                }
                if k > 0 {
                    assert(r[j - 1] == b[k - 1]);
                } else {
                    assert(r[j - 1] == a.last());
                }
            }
        }
        assert forall|j: int, k: int| 0 <= j < r.len() && 0 <= k < r.len() && j != k implies r[j] != r[k] by {
            if j < a.len() {
                assert(r[j] == a[j]);
            } else {
                assert(r[j] == b[j - a.len()]);
            }
            if k < a.len() {
                assert(r[k] == a[k]);
            } else {
                assert(r[k] == b[k - a.len()]);
            }
        }
    }

    /// A ring can be read from any of its nodes on.
    pub proof fn ring_rotated(&self, ks: Seq<usize>, j: int, p: usize)
        requires
            self.ring(ks, p),
            0 <= j <= ks.len(),
        ensures
            self.ring(ks.subrange(j, ks.len() as int) + ks.subrange(0, j), p),
    {
        let n = ks.len();
        let r = ks.subrange(j, n as int) + ks.subrange(0, j);
        assert(r.len() == n);
        assert forall|k: int| 0 <= k < n implies r[k] == ks[if k < n - j {
            k + j
        } else {
            k - (n - j)
        }] by {}
        assert forall|k: int| 0 <= k < r.len() implies #[trigger] self.sib_ok(r, k, p) by {
            let at = if k < n - j {
                k + j
            } else {
                k - (n - j)
            };
            assert(self.sib_ok(ks, at, p));
            let kn = if k + 1 < n {
                k + 1
            } else {
                0
            };
            let kp = if k > 0 {
                k - 1
            } else {
                n - 1
            };
            assert(r[kn] == ks[if kn < n - j {
                kn + j
            } else {
                kn - (n - j)
            }]);
            assert(r[kp] == ks[if kp < n - j {
                kp + j
            } else {
                kp - (n - j)
            }]);
        }
        assert forall|a: int, b: int| 0 <= a < r.len() && 0 <= b < r.len() && a != b implies r[a] != r[b] by {
            assert(r[a] == ks[if a < n - j {
                a + j
            } else {
                a - (n - j)
            }]);
            assert(r[b] == ks[if b < n - j {
                b + j
            } else {
                b - (n - j)
            }]);
        }
    }

    /// A ring from which the node at position `j` is taken, and which is
    /// closed over the gap, is the ring without that node.
    pub proof fn ring_cut(&self, o: &Heap<T>, ks: Seq<usize>, j: int, p: usize)
        requires
            o.ring(ks, p),
            0 <= j < ks.len(),
            forall|k: int|
                0 <= k < ks.len() && k != j ==> {
                    &&& self.live(#[trigger] ks[k])
                    &&& self.link(ks[k]).parent == p
                    &&& self.link(ks[k]).next == (if o.link(ks[k]).next == ks[j] {
                        o.link(ks[j]).next
                    } else {
                        o.link(ks[k]).next
                    })
                    &&& self.link(ks[k]).prev == (if o.link(ks[k]).prev == ks[j] {
                        o.link(ks[j]).prev
                    } else {
                        o.link(ks[k]).prev
                    })
                },
        ensures
            self.ring(ks.remove(j), p),
    {
        let r = ks.remove(j);
        let n = ks.len();
        assert(o.sib_ok(ks, j, p));
        assert forall|k: int| 0 <= k < r.len() implies #[trigger] self.sib_ok(r, k, p) by {
            let k0 = if k < j {
                k
            } else {
                k + 1
            };
            assert(r[k] == ks[k0]);
            assert(o.sib_ok(ks, k0, p));
            // the successor of ks[k0] in the old ring, and in the new one
            let s0 = if k0 + 1 < n {
                k0 + 1
            } else {
                0
            };
            let s = if k + 1 < r.len() {
                k + 1
            } else {
                0
            };
            assert(o.link(ks[k0]).next == ks[s0]);
            let s00 = if s0 + 1 < n {
                s0 + 1
            } else {
                0
            };
            assert(r[s] == ks[if s < j {
                s
            } else {
                s + 1
            }]);
            if s0 == j {
                assert(o.link(ks[j]).next == ks[s00]);
            } else {
                assert(ks[s0] != ks[j]);
            }
            // the predecessor
            let q0 = if k0 > 0 {
                k0 - 1
            } else {
                n - 1
            };
            let q = if k > 0 {
                k - 1
            } else {
                r.len() - 1
            };
            assert(o.link(ks[k0]).prev == ks[q0]);
            let q00 = if q0 > 0 {
                q0 - 1
            } else {
                n - 1
            };
            assert(r[q] == ks[if q < j {
                q
            } else {
                q + 1
            }]);
            if q0 == j {
                assert(o.link(ks[j]).prev == ks[q00]);
            } else {
                assert(ks[q0] != ks[j]);
            }
        }
        assert forall|a: int, b: int| 0 <= a < r.len() && 0 <= b < r.len() && a != b implies r[a] != r[b] by {
            assert(r[a] == ks[if a < j {
                a
            } else {
                a + 1
            }]);
            assert(r[b] == ks[if b < j {
                b
            } else {
                b + 1
            }]);
        }
    }

    /// The invariant of a node carries over to a heap in which the node has
    /// the same children, whose neighbours and parent are the same.
    pub proof fn node_kept(&self, o: &Heap<T>, i: usize, dd0: int, dc0: int, dd: int, dc: int)
        requires
            o.node_ok(i, dd0, dc0),
            self.kids(i) == o.kids(i),
            self.link(i).child == o.link(i).child,
            forall|j: int|
                0 <= j < o.kids(i).len() ==> {
                    &&& self.live(#[trigger] o.kids(i)[j])
                    &&& self.link(o.kids(i)[j]).next == o.link(o.kids(i)[j]).next
                    &&& self.link(o.kids(i)[j]).prev == o.link(o.kids(i)[j]).prev
                    &&& self.link(o.kids(i)[j]).parent == o.link(o.kids(i)[j]).parent
                },
            self.link(i).parent != NIL ==> self.live(self.link(i).parent) && self.kids(
                self.link(i).parent,
            ).contains(i),
            self.deg(i) + dd == o.deg(i) + dd0,
            self.cnt(i) + dc - self.weight(self.kids(i)) == o.cnt(i) + dc0 - o.weight(o.kids(i)),
        ensures
            self.node_ok(i, dd, dc),
    {
        self.ring_same(o, self.kids(i), i);
    }

    /// The invariant of a node carries over to a heap with the same mesh,
    /// with the shortfalls that the sizes in that heap give.
    pub proof fn node_same(&self, o: &Heap<T>, i: usize, dd0: int, dc0: int, dd: int, dc: int)
        requires
            o.node_ok(i, dd0, dc0),
            self.same_mesh(o),
            self.deg(i) + dd == o.deg(i) + dd0,
            self.cnt(i) + dc - self.weight(self.kids(i)) == o.cnt(i) + dc0 - o.weight(o.kids(i)),
        ensures
            self.node_ok(i, dd, dc),
    {
        let ks = self.kids(i);
        assert(ks == o.kids(i));
        assert forall|j: int| 0 <= j < ks.len() implies {
            &&& self.live(#[trigger] ks[j])
            &&& self.link(ks[j]).next == o.link(ks[j]).next
            &&& self.link(ks[j]).prev == o.link(ks[j]).prev
            &&& self.link(ks[j]).parent == o.link(ks[j]).parent
        } by {
            assert(o.sib_ok(ks, j, i));
        }
        self.ring_same(o, ks, i);
        let p = self.link(i).parent;
        assert(p == o.link(i).parent);
        if p != NIL {
            assert(self.live(p) == o.live(p));
            assert(self.kids(p) == o.kids(p));
        }
    }

    /// A heap that has the nodes of a heap at rest, with the same headers
    /// and children, is at rest.
    pub proof fn same_links_wf(&self, o: &Heap<T>)
        requires
            o.wf(),
            self.sound(),
            forall|i: usize|
                #![trigger self.live(i)]
                #![trigger self.link(i)]
                #![trigger self.kids(i)]
                {
                    &&& self.live(i) == o.live(i)
                    &&& self.link(i) == o.link(i)
                    &&& self.kids(i) == o.kids(i)
                },
        ensures
            self.wf(),
    {
        assert forall|i: usize| #[trigger] self.live(i) implies self.node_ok(i, 0, 0) by {
            assert(o.live(i));
            let kk = o.kids(i);
            assert forall|j: int| 0 <= j < kk.len() implies {
                &&& self.live(#[trigger] kk[j])
                &&& self.link(kk[j]).next == o.link(kk[j]).next
                &&& self.link(kk[j]).prev == o.link(kk[j]).prev
                &&& self.link(kk[j]).parent == o.link(kk[j]).parent
                &&& self.cnt(kk[j]) == o.cnt(kk[j])
            } by {
                assert(o.sib_ok(kk, j, i));
                assert(self.link(kk[j]) == o.link(kk[j]));
            }
            self.weight_same(o, kk);
            assert(self.link(i) == o.link(i));
            self.node_kept(o, i, 0, 0, 0, 0);
        }
    }

    /// In a heap at rest every node in use has a positive node count, fewer
    /// children than nodes, and no more nodes than its root.
    pub proof fn size_bounds(&self, i: usize)
        requires
            self.wf(),
            self.live(i),
        ensures
            self.cnt(i) >= 1,
            self.deg(i) < self.cnt(i),
            self.cnt(i) <= self.cnt(self.root_of(i)),
    {
        let ks = self.kids(i);
        assert forall|j: int| 0 <= j < ks.len() implies self.cnt(#[trigger] ks[j]) >= 1 by {
            assert(self.sib_ok(ks, j, i));
            assert(self.live(ks[j]));
            self.weight_nonneg(self.kids(ks[j]));
        }
        self.weight_ge_len(ks);
        self.wf_is_ranked(NIL, 0, 0, NIL, 0);
        self.root_facts(i);
    }
}

} // verus!
