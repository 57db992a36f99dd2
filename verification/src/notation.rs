//! Building trees and forests from their parts.

use vstd::prelude::*;
use crate::forest::Forest;
use crate::heap::Heap;
use crate::heap::NIL;
use crate::node::Node;
use crate::tree::Tree;

verus! {

/// Where the roots of `trees` stand, in order.
pub open spec fn roots_of(trees: Seq<Tree>) -> Seq<usize> {
    trees.map_values(|tree: Tree| tree@)
}

/// Whether `trees` are trees of `heap`, no two of them the same, whose nodes
/// can be counted in `u32`.
pub open spec fn can_join<T>(heap: &Heap<T>, trees: Seq<Tree>) -> bool {
    &&& forall|i: int| 0 <= i < trees.len() ==> (#[trigger] trees[i]).wf(heap)
    &&& roots_of(trees).no_duplicates()
    &&& heap.weight(roots_of(trees)) <= u32::MAX
}

/// The forest of `trees`, in their order.
pub fn fr<T>(heap: &mut Heap<T>, trees: Vec<Tree>) -> (forest: Forest)
    requires
        old(heap).wf(),
        can_join(old(heap), trees@),
    ensures
        final(heap).wf(),
        forest.wf(final(heap)),
        forest@ == roots_of(trees@),
        final(heap).relinked(old(heap), forest@),
{
    let mut trees = trees;
    let mut forest = Forest::new();
    let ghost all = roots_of(trees@);
    let ghost first = trees@;
    proof {
        assert(all.skip(all.len() as int) =~= Seq::<usize>::empty());
        assert forall|i: usize| !Seq::<usize>::empty().contains(i) by {}
        assert(heap.weight(Seq::<usize>::empty()) == 0);
    }
    loop
        invariant_except_break
            trees@ == first.take(trees@.len() as int),
        invariant
            old(heap).wf(),
            can_join(old(heap), first),
            all == roots_of(first),
            trees@.len() <= first.len(),
            heap.wf(),
            forest.wf(heap),
            forest@ == all.skip(trees@.len() as int),
            heap.relinked(old(heap), forest@),
        ensures
            forest@ == all,
        decreases trees@.len(),
    {
        let ghost n = trees@.len() as int;
        let ghost h0 = *heap;
        match trees.pop() {
            None => {
                proof {
                    assert(all.skip(0) =~= all);
                }
                break ;
            },
            Some(tree) => {
                let ghost t = tree@;
                proof {
                    assert(tree == first[n - 1]);
                    assert(all[n - 1] == t);
                    assert(first[n - 1].wf(old(heap)));
                    // the tree is not in the forest yet, so it is as it was
                    assert forall|j: int| 0 <= j < forest@.len() implies forest@[j] != t by {
                        assert(forest@[j] == all[n + j]);
                    }
                    assert(!forest@.contains(t));
                    assert(h0.link(t) == old(heap).link(t));
                    // the nodes still fit
                    assert(all.skip(n - 1) =~= seq![t] + all.skip(n));
                    assert(all =~= all.take(n - 1) + all.skip(n - 1));
                    old(heap).weight_concat(all.take(n - 1), all.skip(n - 1));
                    old(heap).weight_concat(seq![t], all.skip(n));
                    old(heap).weight_one(t);
                    old(heap).weight_nonneg(all.take(n - 1));
                    assert forall|j: int| 0 <= j < forest@.len() implies h0.cnt(#[trigger] forest@[j])
                        == old(heap).cnt(forest@[j]) by {
                        assert(h0.link(forest@[j]).size == old(heap).link(forest@[j]).size);
                    }
                    h0.weight_same(old(heap), forest@);
                }
                forest.push_front(heap, tree);
                proof {
                    assert(forest@ =~= all.skip(n - 1));
                    assert(trees@ =~= first.take(n - 1));
                    assert forall|i: usize|
                        #![trigger heap.live(i)]
                        #![trigger heap.link(i)]
                        #![trigger heap.kids(i)]
                        #![trigger heap.payload(i)]
                        {
                            &&& heap.live(i) == old(heap).live(i)
                            &&& heap.payload(i) == old(heap).payload(i)
                            &&& heap.kids(i) == old(heap).kids(i)
                            &&& heap.link(i).child == old(heap).link(i).child
                            &&& heap.link(i).parent == old(heap).link(i).parent
                            &&& heap.link(i).size == old(heap).link(i).size
                            &&& !forest@.contains(i) ==> heap.link(i) == old(heap).link(i)
                        } by {
                        assert(h0.live(i) == old(heap).live(i));
                        assert(heap.live(i) == h0.live(i));
                        if !forest@.contains(i) {
                            if all.skip(n).contains(i) {
                                let j = choose|j: int| 0 <= j < all.skip(n).len() && all.skip(n)[j] == i;
                                assert(forest@[j + 1] == i);
                            }
                            assert(h0.link(i) == old(heap).link(i));
                            assert(heap.link(i) == h0.link(i));
                        }
                    }
                }
            },
        }
    }
    forest
}

/// The tree whose root holds `data` and has `kids` as its children, in their
/// order.
pub fn tr<T>(heap: &mut Heap<T>, data: T, kids: Vec<Tree>) -> (tree: Tree)
    requires
        old(heap).wf(),
        can_join(old(heap), kids@),
        old(heap).weight(roots_of(kids@)) < u32::MAX,
    ensures
        final(heap).wf(),
        tree.wf(final(heap)),
        !old(heap).live(tree@),
        final(heap).payload(tree@) == data,
        final(heap).kids(tree@) == roots_of(kids@),
        final(heap).cnt(tree@) == 1 + old(heap).weight(roots_of(kids@)),
        forall|i: usize| #[trigger] final(heap).live(i) == (old(heap).live(i) || i == tree@),
        forall|i: usize|
            #![trigger final(heap).link(i)]
            #![trigger final(heap).kids(i)]
            #![trigger final(heap).payload(i)]
            old(heap).live(i) ==> {
                &&& final(heap).payload(i) == old(heap).payload(i)
                &&& final(heap).kids(i) == old(heap).kids(i)
                &&& final(heap).link(i).size == old(heap).link(i).size
                &&& final(heap).link(i).child == old(heap).link(i).child
                &&& final(heap).link(i).parent == (if roots_of(kids@).contains(i) {
                    tree@
                } else {
                    old(heap).link(i).parent
                })
                &&& !roots_of(kids@).contains(i) ==> final(heap).link(i) == old(heap).link(i)
            },
{
    let forest = fr(heap, kids);
    let ghost h1 = *heap;
    let tree = Tree::new(heap, data);
    let ghost h2 = *heap;
    proof {
        let run = forest@;
        assert forall|j: int| 0 <= j < run.len() implies h2.live(#[trigger] run[j]) && h2.link(run[j])
            == h1.link(run[j]) by {
            assert(h1.sib_ok(run, j, NIL));
            assert(h2.same_at(&h1, run[j]));
        }
        forest.kept(&h2, &h1);
        h2.wf_is_ranked(NIL, 0, 0, NIL, 0);
        assert(h2.root_of(tree@) == tree@);
        assert forall|j: int| 0 <= j < run.len() implies run[j] != tree@ by {
            assert(h1.sib_ok(run, j, NIL));
        }
        assert forall|ks: Seq<usize>| #[trigger] h1.weight(ks) == old(heap).weight(ks) by {
            assert forall|j: int| 0 <= j < ks.len() implies h1.cnt(#[trigger] ks[j]) == old(heap).cnt(
                ks[j],
            ) by {
                assert(h1.link(ks[j]).size == old(heap).link(ks[j]).size);
            }
            h1.weight_same(old(heap), ks);
        }
        assert(h2.takes(tree@, run));
        assert(h2.above(tree@, tree@));
    }
    tree.root().append(heap, forest);
    proof {
        let run = forest@;
        assert(Seq::<usize>::empty() + run =~= run);
        assert(heap.link(tree@).next == h2.link(tree@).next) by {
            assert(!run.contains(tree@));
        }
        assert forall|i: usize| h2.above(i, tree@) == (i == tree@) by {}
        assert forall|i: usize| #[trigger] heap.live(i) == (old(heap).live(i) || i == tree@) by {
            assert(h1.live(i) == old(heap).live(i));
            assert(heap.live(i) == h2.live(i));
            if i != tree@ {
                assert(h2.same_at(&h1, i));
            }
        }
        assert forall|i: usize|
            #![trigger heap.link(i)]
            #![trigger heap.kids(i)]
            #![trigger heap.payload(i)]
            old(heap).live(i) implies {
                &&& heap.payload(i) == old(heap).payload(i)
                &&& heap.kids(i) == old(heap).kids(i)
                &&& heap.link(i).size == old(heap).link(i).size
                &&& heap.link(i).child == old(heap).link(i).child
                &&& heap.link(i).parent == (if run.contains(i) {
                    tree@
                } else {
                    old(heap).link(i).parent
                })
                &&& !run.contains(i) ==> heap.link(i) == old(heap).link(i)
            } by {
            assert(h1.live(i) == old(heap).live(i));
            assert(h1.link(i).size == old(heap).link(i).size);
            assert(h2.same_at(&h1, i));
            assert(heap.live(i) == h2.live(i));
            assert(heap.cnt(i) == h2.cnt(i));
            assert(heap.deg(i) == h2.deg(i));
            assert(heap.kids(i) == h2.kids(i));
            heap.same_child(&h2, i);
            assert(old(heap).node_ok(i, 0, 0));
            assert(h2.link(i).parent != tree@);
            if !run.contains(i) {
                assert(h1.link(i) == old(heap).link(i));
                assert(heap.link(i) == h2.link(i));
            }
        }
    }
    tree
}

impl Node {
    /// Puts `trees` under this node, in their order, after its children.
    pub fn extend<T>(&self, heap: &mut Heap<T>, trees: Vec<Tree>)
        requires
            old(heap).wf(),
            old(heap).live(self.at),
            can_join(old(heap), trees@),
            old(heap).takes(self.at, roots_of(trees@)),
        ensures
            final(heap).wf(),
            final(heap).grafted(old(heap), self.at, roots_of(trees@), false),
    {
        let ghost run = roots_of(trees@);
        let forest = fr(heap, trees);
        let ghost h1 = *heap;
        proof {
            old(heap).wf_is_ranked(NIL, 0, 0, NIL, 0);
            h1.wf_is_ranked(NIL, 0, 0, NIL, 0);
            assert forall|y: usize| #[trigger] old(heap).above(y, self.at) implies h1.live(y) && h1.link(
                y,
            ).parent == old(heap).link(y).parent by {
                old(heap).above_rank(y, self.at);
            }
            old(heap).above_same(&h1, self.at, self.at);
            assert forall|ks: Seq<usize>| #[trigger] h1.weight(ks) == old(heap).weight(ks) by {
                assert forall|j: int| 0 <= j < ks.len() implies h1.cnt(#[trigger] ks[j]) == old(heap).cnt(
                    ks[j],
                ) by {
                    assert(h1.link(ks[j]).size == old(heap).link(ks[j]).size);
                }
                h1.weight_same(old(heap), ks);
            }
            assert(h1.link(old(heap).root_of(self.at)).size == old(heap).link(
                old(heap).root_of(self.at),
            ).size);
        }
        self.append(heap, forest);
        proof {
            assert forall|i: usize|
                #![trigger heap.live(i)]
                #![trigger heap.link(i)]
                #![trigger heap.kids(i)]
                #![trigger heap.payload(i)]
                {
                    &&& heap.live(i) == old(heap).live(i)
                    &&& heap.payload(i) == old(heap).payload(i)
                    &&& i != self.at ==> heap.kids(i) == old(heap).kids(i)
                    &&& heap.link(i).parent == (if run.contains(i) {
                        self.at
                    } else {
                        old(heap).link(i).parent
                    })
                    &&& old(heap).link(i).parent == NIL && !run.contains(i) ==> heap.link(i).next == old(
                        heap,
                    ).link(i).next && heap.link(i).prev == old(heap).link(i).prev
                    &&& heap.deg(i) == old(heap).deg(i) + (if i == self.at {
                        run.len() as int
                    } else {
                        0
                    })
                    &&& heap.cnt(i) == old(heap).cnt(i) + (if old(heap).above(i, self.at) {
                        old(heap).weight(run)
                    } else {
                        0
                    })
                    &&& !old(heap).above(i, self.at) && !run.contains(i) && old(heap).link(i).parent
                        != self.at ==> heap.link(i) == old(heap).link(i)
                } by {
                assert(h1.live(i) == old(heap).live(i));
                assert(h1.link(i).parent == old(heap).link(i).parent);
                assert(h1.link(i).size == old(heap).link(i).size);
                old(heap).above_same(&h1, i, self.at);
                assert(heap.live(i) == h1.live(i));
                assert(heap.cnt(i) == h1.cnt(i) + (if h1.above(i, self.at) {
                    h1.weight(run)
                } else {
                    0
                }));
                assert(heap.deg(i) == h1.deg(i) + (if i == self.at {
                    run.len() as int
                } else {
                    0
                }));
                if !run.contains(i) {
                    assert(h1.link(i) == old(heap).link(i));
                }
            }
            assert(heap.kids(self.at) == old(heap).kids(self.at) + run);
        }
    }
}

} // verus!
