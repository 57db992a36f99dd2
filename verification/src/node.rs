//! The node header and the public view of a node.

use vstd::prelude::*;
use crate::heap::Heap;
use crate::heap::NIL;
use crate::size::Size;
use crate::tree::Tree;
use crate::forest::Forest;
use crate::iter::Iter;

verus! {

/// The header of a node. Siblings form a circular doubly-linked ring, so a
/// node without siblings names itself as its neighbour on both sides. `child`
/// names the last child, whose `next` is the first; `parent` names the owning
/// node. Where there is no child or no parent the field holds [`NIL`].
#[derive(Copy, Clone, Debug)]
pub struct Link {
    /// Next sibling.
    pub next: usize,
    /// Last child.
    pub child: usize,
    /// Previous sibling.
    pub prev: usize,
    /// Owning node.
    pub parent: usize,
    /// Cached size of the subtree rooted here.
    pub size: Size,
}

impl Link {
    /// The header of a node at `at` that stands alone: no siblings, no
    /// children, no parent.
    pub open spec fn solo(at: usize) -> Link {
        Link { next: at, child: NIL, prev: at, parent: NIL, size: Size { degree: 0, node_cnt: 1 } }
    }

    /// Makes the header of a node at `at` that stands alone.
    pub(crate) fn alone(at: usize) -> (link: Link)
        ensures
            link == Link::solo(at),
    {
        let mut link = Link {
            next: NIL,
            child: NIL,
            prev: NIL,
            parent: NIL,
            size: Size { degree: 0, node_cnt: 1 },
        };
        link.reset_sib(at);
        link
    }

    /// Names `parent` as the owning node.
    #[inline]
    pub(crate) fn set_parent(&mut self, parent: usize)
        ensures
            *final(self) == (Link { parent, ..*old(self) }),
    {
        self.parent = parent;
    }

    /// Names no owning node.
    #[inline]
    pub(crate) fn reset_parent(&mut self)
        ensures
            *final(self) == (Link { parent: NIL, ..*old(self) }),
    {
        self.parent = NIL;
    }

    /// Names `child` as the last child.
    #[inline]
    pub(crate) fn set_child(&mut self, child: usize)
        ensures
            *final(self) == (Link { child, ..*old(self) }),
    {
        self.child = child;
    }

    /// Names no child.
    #[inline]
    pub(crate) fn reset_child(&mut self)
        ensures
            *final(self) == (Link { child: NIL, ..*old(self) }),
    {
        self.set_child(NIL);
    }

    /// Whether the header names no child.
    #[inline]
    pub fn is_leaf(&self) -> (leaf: bool)
        ensures
            leaf == (self.child == NIL),
    {
        self.child == NIL
    }

    /// Names `prev` and `next` as the neighbours in the ring.
    #[inline]
    pub(crate) fn set_sib(&mut self, prev: usize, next: usize)
        ensures
            *final(self) == (Link { prev, next, ..*old(self) }),
    {
        self.prev = prev;
        self.next = next;
    }

    /// Closes the sibling ring on the node itself, which stands at `this`.
    #[inline]
    pub(crate) fn reset_sib(&mut self, this: usize)
        ensures
            *final(self) == (Link { prev: this, next: this, ..*old(self) }),
    {
        self.prev = this;
        self.next = this;
    }

    /// Whether the node, which stands at `this`, is alone in its ring.
    #[inline]
    pub fn has_no_sib(&self, this: usize) -> (alone: bool)
        ensures
            alone == (self.prev == this && self.next == this),
    {
        self.prev == this && self.next == this
    }

    /// The last child, or [`NIL`].
    #[inline]
    pub fn tail(&self) -> (tail: usize)
        ensures
            tail == self.child,
    {
        self.child
    }
}

} // verus!

verus! {

impl<T> Heap<T> {
    /// The first child of node `at`, which has children.
    pub(crate) fn head(&self, at: usize) -> (head: usize)
        requires
            self.live(at),
            self.live(self.link(at).child),
        ensures
            head == self.link(self.link(at).child).next,
    {
        self.get(self.get(at).child).next
    }

    /// Whether node `at`, which has children, has exactly one.
    pub(crate) fn has_only_one_child(&self, at: usize) -> (one: bool)
        requires
            self.live(at),
            self.live(self.link(at).child),
        ensures
            one == (self.link(self.link(at).child).next == self.link(at).child),
    {
        self.head(at) == self.get(at).tail()
    }

    /// The child that follows the first child of node `at`.
    pub(crate) fn new_head(&self, at: usize) -> (head: usize)
        requires
            self.live(at),
            self.live(self.link(at).child),
            self.live(self.link(self.link(at).child).next),
        ensures
            head == self.link(self.link(self.link(at).child).next).next,
    {
        self.get(self.head(at)).next
    }

    /// The child that precedes the last child of node `at`.
    pub(crate) fn new_tail(&self, at: usize) -> (tail: usize)
        requires
            self.live(at),
            self.live(self.link(at).child),
        ensures
            tail == self.link(self.link(at).child).prev,
    {
        self.get(self.get(at).tail()).prev
    }

    /// Turns the ends of the ring whose last node is `tail` outwards: the
    /// first node gets `begin` as its predecessor, the last node gets `end`
    /// as its successor.
    pub(crate) fn close(&mut self, tail: usize, begin: usize, end: usize)
        requires
            old(self).sound(),
            old(self).live(tail),
            old(self).live(old(self).link(tail).next),
        ensures
            final(self).sound(),
            forall|i: usize|
                #![trigger final(self).live(i)]
                #![trigger final(self).link(i)]
                #![trigger final(self).kids(i)]
                #![trigger final(self).payload(i)]
                {
                    &&& final(self).live(i) == old(self).live(i)
                    &&& final(self).payload(i) == old(self).payload(i)
                    &&& final(self).kids(i) == old(self).kids(i)
                    &&& final(self).link(i) == (Link {
                        prev: if i == old(self).link(tail).next {
                            begin
                        } else {
                            old(self).link(i).prev
                        },
                        next: if i == tail {
                            end
                        } else {
                            old(self).link(i).next
                        },
                        ..old(self).link(i)
                    })
                },
    {
        let head: usize = self.get(tail).next;
        let mut first: Link = self.get(head);
        first.prev = begin;
        self.set(head, first);
        let ghost mid = *self;
        proof {
            if tail != head {
                assert(mid.same_at(old(self), tail));
            }
        }
        let mut last: Link = self.get(tail);
        last.next = end;
        self.set(tail, last);
        proof {
            assert forall|i: usize|
                #![trigger self.live(i)]
                #![trigger self.link(i)]
                #![trigger self.kids(i)]
                #![trigger self.payload(i)]
                {
                    &&& self.live(i) == old(self).live(i)
                    &&& self.payload(i) == old(self).payload(i)
                    &&& self.kids(i) == old(self).kids(i)
                    &&& self.link(i) == (Link {
                        prev: if i == head {
                            begin
                        } else {
                            old(self).link(i).prev
                        },
                        next: if i == tail {
                            end
                        } else {
                            old(self).link(i).next
                        },
                        ..old(self).link(i)
                    })
                } by {
                if i != tail {
                    assert(self.same_at(&mid, i));
                }
                if i != head {
                    assert(mid.same_at(old(self), i));
                }
            }
        }
    }

    /// Closes the ring of the children of node `at` over a run of new
    /// siblings: the first child gets `begin` as its predecessor, the last
    /// child gets `end` as its successor.
    pub(crate) fn adopt(&mut self, at: usize, begin: usize, end: usize)
        requires
            old(self).sound(),
            old(self).live(at),
            old(self).live(old(self).link(at).child),
            old(self).live(old(self).link(old(self).link(at).child).next),
        ensures
            final(self).sound(),
            forall|i: usize|
                #![trigger final(self).live(i)]
                #![trigger final(self).link(i)]
                #![trigger final(self).kids(i)]
                #![trigger final(self).payload(i)]
                {
                    &&& final(self).live(i) == old(self).live(i)
                    &&& final(self).payload(i) == old(self).payload(i)
                    &&& final(self).kids(i) == old(self).kids(i)
                    &&& final(self).link(i) == (Link {
                        prev: if i == old(self).link(old(self).link(at).child).next {
                            begin
                        } else {
                            old(self).link(i).prev
                        },
                        next: if i == old(self).link(at).child {
                            end
                        } else {
                            old(self).link(i).next
                        },
                        ..old(self).link(i)
                    })
                },
    {
        let tail: usize = self.get(at).tail();
        self.close(tail, begin, end);
    }

    /// Raises the cached degree of node `at` by `degree`, and the cached
    /// node count of `at` and of each of its ancestors by `node_cnt`. This
    /// is what keeps the node counts right at every level: it is called once
    /// for every run of nodes that is about to be put under `at`.
    pub(crate) fn inc_sizes(&mut self, at: usize, degree: u32, node_cnt: u32)
        requires
            old(self).wf(),
            old(self).live(at),
            old(self).deg(at) + degree <= u32::MAX,
            old(self).tree_cnt(at) + node_cnt <= u32::MAX,
        ensures
            final(self).wf_by(at, -(degree as int), -(node_cnt as int), NIL, 0),
            final(self).resized(old(self), at, degree as int, node_cnt as int),
    {
        let ghost base = *self;
        proof {
            base.wf_is_ranked(NIL, 0, 0, NIL, 0);
            base.root_facts(at);
        }
        let mut top: Link = self.get(at);
        top.size.degree = top.size.degree + degree;
        self.set(at, top);
        proof {
            assert(base.above(at, at));
            assert forall|i: usize|
                    #![trigger self.live(i)]
                    #![trigger self.link(i)]
                    #![trigger self.kids(i)]
                    #![trigger self.payload(i)]
                    {
                        &&& self.live(i) == base.live(i)
                        &&& self.payload(i) == base.payload(i)
                        &&& self.kids(i) == base.kids(i)
                        &&& self.link(i).next == base.link(i).next
                        &&& self.link(i).prev == base.link(i).prev
                        &&& self.link(i).child == base.link(i).child
                        &&& self.link(i).parent == base.link(i).parent
                        &&& self.cnt(i) == base.cnt(i)
                        &&& self.deg(i) == base.deg(i) + (if i == at {
                            degree as int
                        } else {
                            0
                        })
                    } by {
                if i != at {
                    assert(self.same_at(&base, i));
                }
            }
            assert(self.same_mesh(&base));
            assert forall|i: usize| #[trigger] self.live(i) implies self.node_ok(
                i,
                if i == at {
                    -(degree as int)
                } else {
                    0
                },
                (if i == at {
                    -(node_cnt as int)
                } else {
                    0
                }) + (if i == at {
                    node_cnt as int
                } else {
                    0
                }),
            ) by {
                assert(base.live(i));
                let ks = self.kids(i);
                assert forall|j: int| 0 <= j < ks.len() implies self.cnt(#[trigger] ks[j]) == base.cnt(
                    ks[j],
                ) by {
                    assert(self.link(ks[j]).next == base.link(ks[j]).next);
                }
                self.weight_same(&base, ks);
                self.node_same(
                    &base,
                    i,
                    0,
                    0,
                    if i == at {
                        -(degree as int)
                    } else {
                        0
                    },
                    0,
                );
            }
        }
        let mut cur: usize = at;
        while cur != NIL
            invariant
                base.wf(),
                base.ranked(),
                base.live(at),
                base.tree_cnt(at) + node_cnt <= u32::MAX,
                self.same_mesh(&base),
                cur != NIL ==> base.live(cur) && base.above(cur, at) && base.root_of(cur) == base.root_of(
                    at,
                ),
                forall|i: usize| #[trigger]
                    self.link(i).size.degree == base.deg(i) + (if i == at {
                        degree as int
                    } else {
                        0
                    }),
                forall|i: usize| #[trigger]
                    self.link(i).size.node_cnt == base.cnt(i) + (if base.above(i, at) && (cur == NIL
                        || !base.above(i, cur)) {
                        node_cnt as int
                    } else {
                        0
                    }),
                self.wf_by(at, -(degree as int), -(node_cnt as int), cur, node_cnt as int),
            decreases
                    (if cur == NIL {
                        0
                    } else {
                        u32::MAX - base.cnt(cur) + 1
                    }),
        {
            let ghost prev = *self;
            proof {
                base.size_bounds(cur);
                assert(base.above(cur, cur));
            }
            let mut link: Link = self.get(cur);
            link.size.node_cnt = link.size.node_cnt + node_cnt;
            self.set(cur, link);
            let up: usize = link.parent;
            proof {
                base.above_rank(cur, at);
                assert(up == base.link(cur).parent);
                if up != NIL {
                    assert(base.live(up) && base.cnt(up) > base.cnt(cur));
                    base.above_step(cur, at);
                }
                assert forall|i: usize|
                    #![trigger self.live(i)]
                    #![trigger self.link(i)]
                    #![trigger self.kids(i)]
                    #![trigger self.payload(i)]
                    {
                        &&& self.live(i) == prev.live(i)
                        &&& self.payload(i) == prev.payload(i)
                        &&& self.kids(i) == prev.kids(i)
                        &&& self.link(i).next == prev.link(i).next
                        &&& self.link(i).prev == prev.link(i).prev
                        &&& self.link(i).child == prev.link(i).child
                        &&& self.link(i).parent == prev.link(i).parent
                        &&& self.deg(i) == prev.deg(i)
                        &&& self.cnt(i) == prev.cnt(i) + (if i == cur {
                            node_cnt as int
                        } else {
                            0
                        })
                    } by {
                    if i != cur {
                        assert(self.same_at(&prev, i));
                    }
                }
                assert(self.same_mesh(&prev));
                assert forall|i: usize| #[trigger]
                    self.link(i).size.node_cnt == base.cnt(i) + (if base.above(i, at) && (up == NIL
                        || !base.above(i, up)) {
                        node_cnt as int
                    } else {
                        0
                    }) by {
                    assert(self.cnt(i) == prev.cnt(i) + (if i == cur {
                        node_cnt as int
                    } else {
                        0
                    }));
                    if i == cur {
                        if up != NIL && base.above(cur, up) {
                            base.above_rank(cur, up);
                        }
                    }
                }
                assert forall|i: usize| #[trigger] self.live(i) implies self.node_ok(
                    i,
                    if i == at {
                        -(degree as int)
                    } else {
                        0
                    },
                    (if i == at {
                        -(node_cnt as int)
                    } else {
                        0
                    }) + (if i == up && up != NIL {
                        node_cnt as int
                    } else {
                        0
                    }),
                ) by {
                    assert(prev.live(i));
                    let ks = self.kids(i);
                    assert(ks == prev.kids(i));
                    if i == up {
                        assert forall|j: int| 0 <= j < ks.len() && ks[j] != cur implies self.cnt(
                            #[trigger] ks[j],
                        ) == prev.cnt(ks[j]) by {
                            assert(self.link(ks[j]).next == prev.link(ks[j]).next);
                        }
                        assert(prev.live(cur));
                        assert(prev.link(cur).parent == up);
                        assert(prev.kids(up).contains(cur));
                        self.weight_bump(&prev, ks, cur, node_cnt as int);
                    } else {
                        assert forall|j: int| 0 <= j < ks.len() implies self.cnt(#[trigger] ks[j])
                            == prev.cnt(ks[j]) by {
                            assert(prev.sib_ok(ks, j, i));
                            assert(self.link(ks[j]).next == prev.link(ks[j]).next);
                        }
                        self.weight_same(&prev, ks);
                    }
                    self.node_same(
                        &prev,
                        i,
                        if i == at {
                            -(degree as int)
                        } else {
                            0
                        },
                        (if i == at {
                            -(node_cnt as int)
                        } else {
                            0
                        }) + (if i == cur {
                            node_cnt as int
                        } else {
                            0
                        }),
                        if i == at {
                            -(degree as int)
                        } else {
                            0
                        },
                        (if i == at {
                            -(node_cnt as int)
                        } else {
                            0
                        }) + (if i == up && up != NIL {
                            node_cnt as int
                        } else {
                            0
                        }),
                    );
                }
            }
            cur = up;
        }
    }

    /// Lowers the cached degree of node `at` by `degree`, and the cached
    /// node count of `at` and of each of its ancestors by `node_cnt`. It is
    /// called once for every run of nodes that was just taken from under `at`.
    pub(crate) fn dec_sizes(&mut self, at: usize, degree: u32, node_cnt: u32)
        requires
            old(self).wf_by(at, -(degree as int), -(node_cnt as int), NIL, 0),
            old(self).live(at),
        ensures
            final(self).wf(),
            final(self).resized(old(self), at, -(degree as int), -(node_cnt as int)),
    {
        let ghost base = *self;
        proof {
            base.wf_is_ranked(at, -(degree as int), -(node_cnt as int), NIL, 0);
            assert(base.node_ok(at, -(degree as int), -(node_cnt as int)));
        }
        let mut top: Link = self.get(at);
        top.size.degree = top.size.degree - degree;
        self.set(at, top);
        proof {
            assert(base.above(at, at));
            assert forall|i: usize|
                    #![trigger self.live(i)]
                    #![trigger self.link(i)]
                    #![trigger self.kids(i)]
                    #![trigger self.payload(i)]
                    {
                        &&& self.live(i) == base.live(i)
                        &&& self.payload(i) == base.payload(i)
                        &&& self.kids(i) == base.kids(i)
                        &&& self.link(i).next == base.link(i).next
                        &&& self.link(i).prev == base.link(i).prev
                        &&& self.link(i).child == base.link(i).child
                        &&& self.link(i).parent == base.link(i).parent
                        &&& self.cnt(i) == base.cnt(i)
                        &&& self.deg(i) == base.deg(i) + (if i == at {
                            -(degree as int)
                        } else {
                            0
                        })
                    } by {
                if i != at {
                    assert(self.same_at(&base, i));
                }
            }
            assert(self.same_mesh(&base));
            assert forall|i: usize| #[trigger] self.live(i) implies self.node_ok(
                i,
                0,
                if i == at {
                    -(node_cnt as int)
                } else {
                    0
                },
            ) by {
                assert(base.live(i));
                let ks = self.kids(i);
                assert forall|j: int| 0 <= j < ks.len() implies self.cnt(#[trigger] ks[j]) == base.cnt(
                    ks[j],
                ) by {
                    assert(self.link(ks[j]).next == base.link(ks[j]).next);
                }
                self.weight_same(&base, ks);
                self.node_same(
                    &base,
                    i,
                    if i == at {
                        -(degree as int)
                    } else {
                        0
                    },
                    if i == at {
                        -(node_cnt as int)
                    } else {
                        0
                    },
                    0,
                    if i == at {
                        -(node_cnt as int)
                    } else {
                        0
                    },
                );
            }
        }
        let mut cur: usize = at;
        while cur != NIL
            invariant
                base.ranked(),
                base.live(at),
                self.same_mesh(&base),
                cur != NIL ==> base.live(cur) && base.above(cur, at),
                forall|i: usize| #[trigger]
                    self.link(i).size.degree == base.deg(i) + (if i == at {
                        -(degree as int)
                    } else {
                        0
                    }),
                forall|i: usize| #[trigger]
                    self.link(i).size.node_cnt == base.cnt(i) + (if base.above(i, at) && (cur == NIL
                        || !base.above(i, cur)) {
                        -(node_cnt as int)
                    } else {
                        0
                    }),
                self.wf_by(NIL, 0, 0, cur, -(node_cnt as int)),
            decreases
                    (if cur == NIL {
                        0
                    } else {
                        u32::MAX - base.cnt(cur) + 1
                    }),
        {
            let ghost prev = *self;
            proof {
                assert(base.above(cur, cur));
                assert(self.live(cur));
                self.weight_nonneg(self.kids(cur));
            }
            let mut link: Link = self.get(cur);
            link.size.node_cnt = link.size.node_cnt - node_cnt;
            self.set(cur, link);
            let up: usize = link.parent;
            proof {
                base.above_rank(cur, at);
                assert(up == base.link(cur).parent);
                if up != NIL {
                    assert(base.live(up) && base.cnt(up) > base.cnt(cur));
                    base.above_step(cur, at);
                }
                assert forall|i: usize|
                    #![trigger self.live(i)]
                    #![trigger self.link(i)]
                    #![trigger self.kids(i)]
                    #![trigger self.payload(i)]
                    {
                        &&& self.live(i) == prev.live(i)
                        &&& self.payload(i) == prev.payload(i)
                        &&& self.kids(i) == prev.kids(i)
                        &&& self.link(i).next == prev.link(i).next
                        &&& self.link(i).prev == prev.link(i).prev
                        &&& self.link(i).child == prev.link(i).child
                        &&& self.link(i).parent == prev.link(i).parent
                        &&& self.deg(i) == prev.deg(i)
                        &&& self.cnt(i) == prev.cnt(i) + (if i == cur {
                            -(node_cnt as int)
                        } else {
                            0
                        })
                    } by {
                    if i != cur {
                        assert(self.same_at(&prev, i));
                    }
                }
                assert(self.same_mesh(&prev));
                assert forall|i: usize| #[trigger]
                    self.link(i).size.node_cnt == base.cnt(i) + (if base.above(i, at) && (up == NIL
                        || !base.above(i, up)) {
                        -(node_cnt as int)
                    } else {
                        0
                    }) by {
                    assert(self.cnt(i) == prev.cnt(i) + (if i == cur {
                        -(node_cnt as int)
                    } else {
                        0
                    }));
                    if i == cur {
                        if up != NIL && base.above(cur, up) {
                            base.above_rank(cur, up);
                        }
                    }
                }
                assert forall|i: usize| #[trigger] self.live(i) implies self.node_ok(
                    i,
                    0,
                    if i == up && up != NIL {
                        -(node_cnt as int)
                    } else {
                        0
                    },
                ) by {
                    assert(prev.live(i));
                    let ks = self.kids(i);
                    assert(ks == prev.kids(i));
                    if i == up {
                        assert forall|j: int| 0 <= j < ks.len() && ks[j] != cur implies self.cnt(
                            #[trigger] ks[j],
                        ) == prev.cnt(ks[j]) by {
                            assert(self.link(ks[j]).next == prev.link(ks[j]).next);
                        }
                        assert(prev.live(cur));
                        assert(prev.link(cur).parent == up);
                        assert(prev.kids(up).contains(cur));
                        self.weight_bump(&prev, ks, cur, -(node_cnt as int));
                    } else {
                        assert forall|j: int| 0 <= j < ks.len() implies self.cnt(#[trigger] ks[j])
                            == prev.cnt(ks[j]) by {
                            assert(prev.sib_ok(ks, j, i));
                            assert(self.link(ks[j]).next == prev.link(ks[j]).next);
                        }
                        self.weight_same(&prev, ks);
                    }
                    self.node_same(
                        &prev,
                        i,
                        0,
                        if i == cur {
                            -(node_cnt as int)
                        } else {
                            0
                        },
                        0,
                        if i == up && up != NIL {
                            -(node_cnt as int)
                        } else {
                            0
                        },
                    );
                }
            }
            cur = up;
        }
    }
}

} // verus!

verus! {

/// The public view of a node: where it stands in its heap.
#[derive(Copy, Clone, Debug, PartialEq, Eq, Structural)]
pub struct Node {
    pub at: usize,
}

impl Node {
    /// Whether the node has no children.
    #[inline]
    pub fn is_leaf<T>(&self, heap: &Heap<T>) -> (leaf: bool)
        requires
            heap.wf(),
            heap.live(self.at),
        ensures
            leaf == (heap.kids(self.at).len() == 0),
    {
        heap.get(self.at).is_leaf()
    }

    /// The number of children.
    #[inline]
    pub fn degree<T>(&self, heap: &Heap<T>) -> (degree: usize)
        requires
            heap.wf(),
            heap.live(self.at),
        ensures
            degree == heap.kids(self.at).len(),
    {
        heap.get(self.at).size.degree as usize
    }

    /// The number of nodes of the subtree rooted here, this node included.
    #[inline]
    pub fn node_count<T>(&self, heap: &Heap<T>) -> (count: usize)
        requires
            heap.wf(),
            heap.live(self.at),
        ensures
            count == heap.cnt(self.at),
            count == 1 + heap.weight(heap.kids(self.at)),
    {
        heap.get(self.at).size.node_cnt as usize
    }

    /// The payload.
    #[inline]
    pub fn data<'a, T>(&self, heap: &'a Heap<T>) -> (data: &'a T)
        requires
            heap.live(self.at),
        ensures
            *data == heap.payload(self.at),
    {
        heap.data(self.at)
    }

    /// Puts `data` in place of the payload and returns the payload that was
    /// there. Nothing else in the heap changes.
    pub fn replace<T>(&self, heap: &mut Heap<T>, data: T) -> (was: T)
        requires
            old(heap).live(self.at),
        ensures
            was == old(heap).payload(self.at),
            final(heap).payload(self.at) == data,
            final(heap).live(self.at),
            final(heap).link(self.at) == old(heap).link(self.at),
            final(heap).kids(self.at) == old(heap).kids(self.at),
            final(heap).same_but(old(heap), self.at),
            old(heap).wf() ==> final(heap).wf(),
    {
        let was: T = heap.replace(self.at, data);
        proof {
            if old(heap).wf() {
                heap.same_links_wf(old(heap));
            }
        }
        was
    }

    /// The first child, if there is one.
    pub fn first<T>(&self, heap: &Heap<T>) -> (first: Option<Node>)
        requires
            heap.wf(),
            heap.live(self.at),
        ensures
            first == (if heap.kids(self.at).len() == 0 {
                None
            } else {
                Some(Node { at: heap.kids(self.at)[0] })
            }),
            first.is_some() ==> heap.live(first.unwrap().at),
    {
        if self.is_leaf(heap) {
            None
        } else {
            proof {
                heap.ends_of_ring(heap.kids(self.at), self.at);
            }
            Some(Node { at: heap.head(self.at) })
        }
    }

    /// The last child, if there is one.
    pub fn last<T>(&self, heap: &Heap<T>) -> (last: Option<Node>)
        requires
            heap.wf(),
            heap.live(self.at),
        ensures
            last == (if heap.kids(self.at).len() == 0 {
                None
            } else {
                Some(Node { at: heap.kids(self.at).last() })
            }),
            last.is_some() ==> heap.live(last.unwrap().at),
    {
        if self.is_leaf(heap) {
            None
        } else {
            proof {
                heap.ends_of_ring(heap.kids(self.at), self.at);
            }
            Some(Node { at: heap.get(self.at).tail() })
        }
    }

    /// The parent, if there is one.
    pub fn parent<T>(&self, heap: &Heap<T>) -> (parent: Option<Node>)
        requires
            heap.wf(),
            heap.live(self.at),
        ensures
            parent == (if heap.link(self.at).parent == NIL {
                None
            } else {
                Some(Node { at: heap.link(self.at).parent })
            }),
            parent.is_some() ==> heap.live(parent.unwrap().at) && heap.kids(parent.unwrap().at).contains(
                self.at,
            ),
    {
        let up: usize = heap.get(self.at).parent;
        if up == NIL {
            None
        } else {
            Some(Node { at: up })
        }
    }

    /// Puts `tree` under this node as its new first child.
    pub fn push_front<T>(&self, heap: &mut Heap<T>, tree: Tree)
        requires
            old(heap).wf(),
            old(heap).live(self.at),
            tree.wf(old(heap)),
            old(heap).takes(self.at, seq![tree@]),
        ensures
            final(heap).wf(),
            final(heap).grafted(old(heap), self.at, seq![tree@], true),
            final(heap).kids(self.at) == seq![tree@] + old(heap).kids(self.at),
            final(heap).link(tree@).parent == self.at,
    {
        let at: usize = self.at;
        let root: usize = tree.root().at;
        let ghost run = seq![root];
        proof {
            assert(old(heap).sib_ok(run, 0, NIL));
            old(heap).graft_ready(at, run);
        }
        let node_cnt: u32 = heap.get(root).size.node_cnt;
        heap.inc_sizes(at, 1, node_cnt);
        let ghost mid = *heap;
        proof {
            mid.graft_begun(old(heap), at, run);
            mid.ends_of_ring(run, NIL);
        }
        let mut link: Link = heap.get(root);
        link.set_parent(at);
        let top: Link = heap.get(at);
        if top.is_leaf() {
            heap.set(root, link);
            let mut top: Link = heap.get(at);
            top.set_child(root);
            heap.set(at, top);
        } else {
            proof {
                mid.ends_of_ring(mid.kids(at), at);
            }
            let tail: usize = top.tail();
            let head: usize = heap.head(at);
            link.set_sib(tail, head);
            heap.set(root, link);
            heap.adopt(at, root, root);
        }
        heap.set_kids(at, Ghost(run + mid.kids(at)));
        proof {
            assert(heap.spliced(&mid, at, run, true));
            heap.graft_wf(&mid, at, run, true);
            heap.graft_done(&mid, old(heap), at, run, true);
            assert(run.contains(root)) by {
                assert(run[0] == root);
            }
        }
    }

    /// Puts `tree` under this node as its new last child.
    pub fn push_back<T>(&self, heap: &mut Heap<T>, tree: Tree)
        requires
            old(heap).wf(),
            old(heap).live(self.at),
            tree.wf(old(heap)),
            old(heap).takes(self.at, seq![tree@]),
        ensures
            final(heap).wf(),
            final(heap).grafted(old(heap), self.at, seq![tree@], false),
            final(heap).kids(self.at) == old(heap).kids(self.at).push(tree@),
            final(heap).link(tree@).parent == self.at,
    {
        let at: usize = self.at;
        let root: usize = tree.root().at;
        let ghost run = seq![root];
        proof {
            assert(old(heap).sib_ok(run, 0, NIL));
            old(heap).graft_ready(at, run);
        }
        let node_cnt: u32 = heap.get(root).size.node_cnt;
        heap.inc_sizes(at, 1, node_cnt);
        let ghost mid = *heap;
        proof {
            mid.graft_begun(old(heap), at, run);
            mid.ends_of_ring(run, NIL);
        }
        let mut link: Link = heap.get(root);
        link.set_parent(at);
        let top: Link = heap.get(at);
        if !top.is_leaf() {
            proof {
                mid.ends_of_ring(mid.kids(at), at);
            }
            let tail: usize = top.tail();
            let head: usize = heap.head(at);
            link.set_sib(tail, head);
            heap.set(root, link);
            heap.adopt(at, root, root);
        } else {
            heap.set(root, link);
        }
        let mut top: Link = heap.get(at);
        top.set_child(root);
        heap.set(at, top);
        heap.set_kids(at, Ghost(mid.kids(at) + run));
        proof {
            assert(heap.spliced(&mid, at, run, false));
            heap.graft_wf(&mid, at, run, false);
            heap.graft_done(&mid, old(heap), at, run, false);
            assert(run.contains(root)) by {
                assert(run[0] == root);
            }
            assert(old(heap).kids(at) + run =~= old(heap).kids(at).push(root));
        }
    }

    /// Takes the first child out, as a tree of its own.
    pub fn pop_front<T>(&self, heap: &mut Heap<T>) -> (tree: Option<Tree>)
        requires
            old(heap).wf(),
            old(heap).live(self.at),
        ensures
            final(heap).wf(),
            match tree {
                None => old(heap).kids(self.at).len() == 0 && *final(heap) == *old(heap),
                Some(t) => {
                    &&& old(heap).kids(self.at).len() > 0
                    &&& t@ == old(heap).kids(self.at)[0]
                    &&& t.wf(final(heap))
                    &&& final(heap).pruned(old(heap), self.at, 0)
                },
            },
    {
        let at: usize = self.at;
        if heap.get(at).is_leaf() {
            None
        } else {
            let ghost ks = heap.kids(at);
            proof {
                heap.prune_ready(at, 0);
            }
            let front: usize = heap.head(at);
            if heap.has_only_one_child(at) {
                let mut top: Link = heap.get(at);
                top.reset_child();
                heap.set(at, top);
            } else {
                let new_head: usize = heap.new_head(at);
                let tail: usize = heap.get(at).tail();
                let mut first: Link = heap.get(new_head);
                first.prev = tail;
                heap.set(new_head, first);
                let mut last: Link = heap.get(tail);
                last.next = new_head;
                heap.set(tail, last);
            }
            let mut link: Link = heap.get(front);
            link.reset_parent();
            link.reset_sib(front);
            heap.set(front, link);
            heap.set_kids(at, Ghost(ks.remove(0)));
            proof {
                assert(heap.unlinked(old(heap), at, 0));
                heap.prune_wf(old(heap), at, 0);
            }
            let ghost mid = *heap;
            heap.dec_sizes(at, 1, link.size.node_cnt);
            proof {
                heap.prune_done(&mid, old(heap), at, 0);
            }
            Some(Tree::from(front))
        }
    }

    /// Takes the last child out, as a tree of its own.
    pub fn pop_back<T>(&self, heap: &mut Heap<T>) -> (tree: Option<Tree>)
        requires
            old(heap).wf(),
            old(heap).live(self.at),
        ensures
            final(heap).wf(),
            match tree {
                None => old(heap).kids(self.at).len() == 0 && *final(heap) == *old(heap),
                Some(t) => {
                    &&& old(heap).kids(self.at).len() > 0
                    &&& t@ == old(heap).kids(self.at).last()
                    &&& t.wf(final(heap))
                    &&& final(heap).pruned(old(heap), self.at, old(heap).kids(self.at).len() - 1)
                },
            },
    {
        let at: usize = self.at;
        if heap.get(at).is_leaf() {
            None
        } else {
            let ghost ks = heap.kids(at);
            let ghost j = ks.len() - 1;
            proof {
                heap.prune_ready(at, j);
            }
            let back: usize = heap.get(at).tail();
            if heap.has_only_one_child(at) {
                let mut top: Link = heap.get(at);
                top.reset_child();
                heap.set(at, top);
            } else {
                let new_tail: usize = heap.new_tail(at);
                let head: usize = heap.head(at);
                let mut last: Link = heap.get(new_tail);
                last.next = head;
                heap.set(new_tail, last);
                let mut first: Link = heap.get(head);
                first.prev = new_tail;
                heap.set(head, first);
                let mut top: Link = heap.get(at);
                top.set_child(new_tail);
                heap.set(at, top);
            }
            let mut link: Link = heap.get(back);
            link.reset_parent();
            link.reset_sib(back);
            heap.set(back, link);
            heap.set_kids(at, Ghost(ks.remove(j)));
            proof {
                assert(heap.unlinked(old(heap), at, j));
                heap.prune_wf(old(heap), at, j);
            }
            let ghost mid = *heap;
            heap.dec_sizes(at, 1, link.size.node_cnt);
            proof {
                heap.prune_done(&mid, old(heap), at, j);
            }
            Some(Tree::from(back))
        }
    }

    /// Puts the trees of `forest` under this node, in their order, before
    /// its children.
    pub fn prepend<T>(&self, heap: &mut Heap<T>, forest: Forest)
        requires
            old(heap).wf(),
            old(heap).live(self.at),
            forest.wf(old(heap)),
            old(heap).takes(self.at, forest@),
        ensures
            final(heap).wf(),
            final(heap).grafted(old(heap), self.at, forest@, true),
    {
        let at: usize = self.at;
        let ghost run = forest@;
        if !forest.is_empty() {
            proof {
                old(heap).graft_ready(at, run);
            }
            let size: Size = forest.size();
            heap.inc_sizes(at, size.degree, size.node_cnt);
            let ghost mid = *heap;
            proof {
                mid.graft_begun(old(heap), at, run);
                mid.ends_of_ring(run, NIL);
            }
            forest.set_parent(heap, at, Ghost(NIL));
            let top: Link = heap.get(at);
            if top.is_leaf() {
                let mut top: Link = top;
                top.set_child(forest.tail());
                heap.set(at, top);
            } else {
                proof {
                    mid.ends_of_ring(mid.kids(at), at);
                }
                let forest_head: usize = forest.head(heap);
                let tail: usize = top.tail();
                let head: usize = heap.head(at);
                forest.set_sib(heap, tail, head);
                heap.adopt(at, forest.tail(), forest_head);
            }
            heap.set_kids(at, Ghost(run + mid.kids(at)));
            proof {
                assert(heap.spliced(&mid, at, run, true));
                heap.graft_wf(&mid, at, run, true);
                heap.graft_done(&mid, old(heap), at, run, true);
            }
        } else {
            proof {
                heap.graft_none(at, run, true);
            }
        }
    }

    /// Puts the trees of `forest` under this node, in their order, after its
    /// children.
    pub fn append<T>(&self, heap: &mut Heap<T>, forest: Forest)
        requires
            old(heap).wf(),
            old(heap).live(self.at),
            forest.wf(old(heap)),
            old(heap).takes(self.at, forest@),
        ensures
            final(heap).wf(),
            final(heap).grafted(old(heap), self.at, forest@, false),
    {
        let at: usize = self.at;
        let ghost run = forest@;
        if !forest.is_empty() {
            proof {
                old(heap).graft_ready(at, run);
            }
            let size: Size = forest.size();
            heap.inc_sizes(at, size.degree, size.node_cnt);
            let ghost mid = *heap;
            proof {
                mid.graft_begun(old(heap), at, run);
                mid.ends_of_ring(run, NIL);
            }
            forest.set_parent(heap, at, Ghost(NIL));
            let top: Link = heap.get(at);
            if top.is_leaf() {
                let mut top: Link = top;
                top.set_child(forest.tail());
                heap.set(at, top);
            } else {
                proof {
                    mid.ends_of_ring(mid.kids(at), at);
                }
                let forest_head: usize = forest.head(heap);
                let tail: usize = top.tail();
                let head: usize = heap.head(at);
                forest.set_sib(heap, tail, head);
                heap.adopt(at, forest.tail(), forest_head);
                let mut top: Link = heap.get(at);
                top.set_child(forest.tail());
                heap.set(at, top);
            }
            heap.set_kids(at, Ghost(mid.kids(at) + run));
            proof {
                assert(heap.spliced(&mid, at, run, false));
                heap.graft_wf(&mid, at, run, false);
                heap.graft_done(&mid, old(heap), at, run, false);
            }
        } else {
            proof {
                heap.graft_none(at, run, false);
            }
        }
    }

    /// The children, first to last.
    pub fn iter<T>(&self, heap: &Heap<T>) -> (iter: Iter)
        requires
            heap.wf(),
            heap.live(self.at),
        ensures
            iter@ == heap.kids(self.at),
            iter.wf(heap),
    {
        let top: Link = heap.get(self.at);
        proof {
            assert(heap.node_ok(self.at, 0, 0));
        }
        if top.is_leaf() {
            Iter::new(NIL, NIL, 0, Ghost(Seq::empty()))
        } else {
            proof {
                heap.ring_steps(heap.kids(self.at), self.at);
                heap.ends_of_ring(heap.kids(self.at), self.at);
            }
            Iter::new(heap.head(self.at), top.tail(), top.size.degree as usize, Ghost(heap.kids(self.at)))
        }
    }

    /// This node alone, as a list of one.
    pub fn into_iter<T>(&self, heap: &Heap<T>) -> (iter: Iter)
        requires
            heap.live(self.at),
        ensures
            iter@ == seq![self.at],
            iter.wf(heap),
    {
        proof {
        }
        let ghost one = seq![self.at];
        Iter::new(self.at, self.at, 1, Ghost(one))
    }

    /// Puts `tree` under the parent of this node, as the sibling before it.
    pub fn insert_before<T>(&self, heap: &mut Heap<T>, tree: Tree)
        requires
            old(heap).wf(),
            old(heap).live(self.at),
            old(heap).link(self.at).parent != NIL,
            tree.wf(old(heap)),
            old(heap).takes(old(heap).link(self.at).parent, seq![tree@]),
        ensures
            final(heap).wf(),
            final(heap).inserted(
                old(heap),
                old(heap).link(self.at).parent,
                old(heap).place(self.at),
                tree@,
            ),
    {
        let at: usize = self.at;
        let up: usize = heap.get(at).parent;
        let root: usize = tree.root().at;
        let ghost run = seq![root];
        let ghost j = heap.place(at);
        proof {
            heap.place_facts(at);
            assert(old(heap).sib_ok(run, 0, NIL));
            old(heap).graft_ready(up, run);
        }
        let node_cnt: u32 = heap.get(root).size.node_cnt;
        heap.inc_sizes(up, 1, node_cnt);
        let ghost mid = *heap;
        proof {
            mid.graft_begun(old(heap), up, run);
            mid.weight_one(root);
            assert(mid.sib_ok(run, 0, NIL));
            assert(mid.sib_ok(mid.kids(up), j, up)) by {
                assert(old(heap).sib_ok(old(heap).kids(up), j, up));
            }
            assert(mid.kids(up)[j] == at);
            assert(mid.link(mid.link(at).prev).parent == up) by {
                assert(mid.link(at).prev == old(heap).link(at).prev);
                assert(mid.link(old(heap).link(at).prev).parent == old(heap).link(
                    old(heap).link(at).prev,
                ).parent);
            }
            assert(mid.link(up).parent != up) by {
                assert(mid.link(up).parent == old(heap).link(up).parent);
            }
        }
        let pred: usize = heap.get(at).prev;
        let mut link: Link = heap.get(root);
        link.set_parent(up);
        link.set_sib(pred, at);
        heap.set(root, link);
        let mut before: Link = heap.get(pred);
        before.next = root;
        heap.set(pred, before);
        let mut after: Link = heap.get(at);
        after.prev = root;
        heap.set(at, after);
        heap.set_kids(up, Ghost(mid.kids(up).insert(j, root)));
        proof {
            assert(heap.wedged(&mid, up, j, root));
            heap.wedge_wf(&mid, up, j, root);
            heap.wedge_done(&mid, old(heap), up, j, root);
        }
    }

    /// Puts `tree` under the parent of this node, as the sibling after it.
    pub fn insert_after<T>(&self, heap: &mut Heap<T>, tree: Tree)
        requires
            old(heap).wf(),
            old(heap).live(self.at),
            old(heap).link(self.at).parent != NIL,
            tree.wf(old(heap)),
            old(heap).takes(old(heap).link(self.at).parent, seq![tree@]),
        ensures
            final(heap).wf(),
            final(heap).inserted(
                old(heap),
                old(heap).link(self.at).parent,
                old(heap).place(self.at) + 1,
                tree@,
            ),
    {
        let at: usize = self.at;
        let up: usize = heap.get(at).parent;
        let root: usize = tree.root().at;
        let ghost run = seq![root];
        let ghost j = heap.place(at);
        proof {
            heap.place_facts(at);
            assert(old(heap).sib_ok(run, 0, NIL));
            old(heap).graft_ready(up, run);
        }
        let node_cnt: u32 = heap.get(root).size.node_cnt;
        heap.inc_sizes(up, 1, node_cnt);
        let ghost mid = *heap;
        proof {
            mid.graft_begun(old(heap), up, run);
            mid.weight_one(root);
            assert(mid.sib_ok(run, 0, NIL));
            assert(mid.sib_ok(mid.kids(up), j, up)) by {
                assert(old(heap).sib_ok(old(heap).kids(up), j, up));
            }
            assert(mid.link(up).child == old(heap).link(up).child);
            assert(mid.kids(up)[j] == at);
            assert(mid.link(mid.link(at).next).parent == up) by {
                assert(mid.link(at).next == old(heap).link(at).next);
                assert(mid.link(old(heap).link(at).next).parent == old(heap).link(
                    old(heap).link(at).next,
                ).parent);
            }
            assert(mid.link(up).parent != up) by {
                assert(mid.link(up).parent == old(heap).link(up).parent);
            }
        }
        let succ: usize = heap.get(at).next;
        let mut link: Link = heap.get(root);
        link.set_parent(up);
        link.set_sib(at, succ);
        heap.set(root, link);
        let mut before: Link = heap.get(at);
        before.next = root;
        heap.set(at, before);
        let mut after: Link = heap.get(succ);
        after.prev = root;
        heap.set(succ, after);
        let mut top: Link = heap.get(up);
        if top.tail() == at {
            top.set_child(root);
            heap.set(up, top);
        }
        heap.set_kids(up, Ghost(mid.kids(up).insert(j + 1, root)));
        proof {
            assert(heap.wedged(&mid, up, j + 1, root));
            heap.wedge_wf(&mid, up, j + 1, root);
            heap.wedge_done(&mid, old(heap), up, j + 1, root);
        }
    }

    /// Takes this node out from under its parent, as a tree of its own.
    pub fn depart<T>(&self, heap: &mut Heap<T>) -> (tree: Tree)
        requires
            old(heap).wf(),
            old(heap).live(self.at),
            old(heap).link(self.at).parent != NIL,
        ensures
            final(heap).wf(),
            tree@ == self.at,
            tree.wf(final(heap)),
            final(heap).pruned(old(heap), old(heap).link(self.at).parent, old(heap).place(self.at)),
    {
        let at: usize = self.at;
        let mut link: Link = heap.get(at);
        let up: usize = link.parent;
        let ghost ks = heap.kids(up);
        let ghost j = heap.place(at);
        proof {
            heap.place_facts(at);
            heap.prune_ready(up, j);
        }
        if heap.has_only_one_child(up) {
            let mut top: Link = heap.get(up);
            top.reset_child();
            heap.set(up, top);
        } else {
            let pred: usize = link.prev;
            let succ: usize = link.next;
            let mut before: Link = heap.get(pred);
            before.next = succ;
            heap.set(pred, before);
            let mut after: Link = heap.get(succ);
            after.prev = pred;
            heap.set(succ, after);
            let mut top: Link = heap.get(up);
            if top.tail() == at {
                top.set_child(pred);
                heap.set(up, top);
            }
        }
        link.reset_parent();
        link.reset_sib(at);
        heap.set(at, link);
        heap.set_kids(up, Ghost(ks.remove(j)));
        proof {
            assert(heap.unlinked(old(heap), up, j));
            heap.prune_wf(old(heap), up, j);
        }
        let ghost mid = *heap;
        heap.dec_sizes(up, 1, link.size.node_cnt);
        proof {
            heap.prune_done(&mid, old(heap), up, j);
        }
        Tree::from(at)
    }
}

} // verus!
