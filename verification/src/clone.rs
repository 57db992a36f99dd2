//! Deep copies of subtrees.

use vstd::prelude::*;
use crate::heap::Heap;
use crate::heap::NIL;
use crate::iter::Iter;
use crate::node::Node;
use crate::tree::Tree;

verus! {

/// The relation between a payload and what `clone` makes of it.
pub open spec fn cloned_rel<T: Clone>() -> spec_fn(T, T) -> bool {
    |x: T, y: T| cloned::<T>(x, y)
}

impl Node {
    /// Copies the subtree rooted at this node, payload by payload, into a
    /// tree of its own in the same heap. The copy has the shape of the
    /// subtree; every node that was in the heap stays as it is.
    pub fn to_owned<T: Clone>(&self, heap: &mut Heap<T>) -> (tree: Tree)
        requires
            old(heap).wf(),
            old(heap).live(self.at),
        ensures
            final(heap).wf(),
            tree.wf(final(heap)),
            !old(heap).live(tree@),
            forall|i: usize|
                #![trigger final(heap).live(i)]
                #![trigger final(heap).link(i)]
                #![trigger final(heap).kids(i)]
                #![trigger final(heap).payload(i)]
                old(heap).live(i) ==> final(heap).same_at(old(heap), i),
            old(heap).twin(self.at, final(heap), tree@, cloned_rel::<T>()),
            final(heap).cnt(tree@) == old(heap).cnt(self.at),
        decreases old(heap).cnt(self.at),
    {
        let data: T = heap.data(self.at).clone();
        let tree = Tree::new(heap, data);
        let root = tree.root();
        let mut kids: Iter = self.iter(heap);
        let ghost ka = old(heap).kids(self.at);
        let ghost rel = cloned_rel::<T>();
        let ghost mut k: int = 0;
        proof {
            assert(ka.skip(0) =~= ka);
            assert(ka.take(0) =~= Seq::<usize>::empty());
            assert(old(heap).weight(ka.take(0)) == 0);
            old(heap).size_bounds(self.at);
        }
        loop
            invariant_except_break
                kids@ == ka.skip(k),
            invariant
                old(heap).wf(),
                old(heap).live(self.at),
                ka == old(heap).kids(self.at),
                rel == cloned_rel::<T>(),
                heap.wf(),
                tree.wf(heap),
                root.at == tree@,
                !old(heap).live(tree@),
                forall|i: usize|
                    #![trigger heap.live(i)]
                    #![trigger heap.link(i)]
                    #![trigger heap.kids(i)]
                    #![trigger heap.payload(i)]
                    old(heap).live(i) ==> heap.same_at(old(heap), i),
                kids.wf(heap),
                0 <= k <= ka.len(),
                heap.kids(tree@).len() == k,
                rel(old(heap).payload(self.at), heap.payload(tree@)),
                old(heap).twins_upto(self.at, heap, tree@, k, rel),
                heap.cnt(tree@) == 1 + old(heap).weight(ka.take(k)),
            ensures
                k == ka.len(),
            decreases ka.len() - k,
        {
            let ghost h0 = *heap;
            let ghost rest = kids@;
            match kids.next(heap) {
                None => {
                    break ;
                },
                Some(kid) => {
                    proof {
                        assert(kid.at == ka[k]);
                        old(heap).size_invariant(self.at);
                        old(heap).weight_ge(ka, k);
                        assert(old(heap).live(kid.at));
                        assert(h0.same_at(old(heap), kid.at));
                    }
                    let copy = kid.to_owned(heap);
                    let ghost h1 = *heap;
                    let ghost c = copy@;
                    let ghost run = seq![c];
                    proof {
                        h1.wf_is_ranked(NIL, 0, 0, NIL, 0);
                        assert(h1.same_at(&h0, tree@));
                        assert(h1.root_of(tree@) == tree@);
                        assert(run[0] == c);
                        assert forall|i: usize| run.contains(i) == (i == c) by {
                            if i == c {
                                assert(run[0] == i);
                            }
                        }
                        h1.weight_one(c);
                        assert(ka.take(k + 1) =~= ka.take(k).push(ka[k]));
                        old(heap).weight_push(ka.take(k), ka[k]);
                        assert(ka =~= ka.take(k + 1) + ka.skip(k + 1));
                        old(heap).weight_concat(ka.take(k + 1), ka.skip(k + 1));
                        old(heap).weight_nonneg(ka.skip(k + 1));
                        old(heap).size_bounds(self.at);
                        assert(h1.cnt(c) == old(heap).cnt(kid.at));
                        assert(h1.takes(tree@, run));
                    }
                    root.push_back(heap, copy);
                    proof {
                        let h2 = *heap;
                        assert forall|i: usize| h1.above(i, tree@) == (i == tree@) by {}
                        // nodes of the heap as it was stay as they are
                        assert forall|i: usize|
                            #![trigger heap.live(i)]
                            #![trigger heap.link(i)]
                            #![trigger heap.kids(i)]
                            #![trigger heap.payload(i)]
                            old(heap).live(i) implies heap.same_at(old(heap), i) by {
                            assert(h0.same_at(old(heap), i));
                            assert(h1.same_at(&h0, i));
                            assert(old(heap).node_ok(i, 0, 0));
                            assert(h1.link(i).parent != tree@);
                            assert(h2.link(i) == h1.link(i));
                            assert(h2.kids(i) == h1.kids(i));
                        }
                        // the iterator goes on
                        assert forall|j: int| 0 <= j < kids@.len() implies heap.live(#[trigger] kids@[j])
                            && heap.link(kids@[j]) == h0.link(kids@[j]) by {
                            assert(h0.step_ok(kids@, j));
                            assert(kids@[j] == ka[k + 1 + j]);
                            old(heap).size_invariant(self.at);
                            assert(old(heap).live(ka[k + 1 + j]));
                            assert(h0.same_at(old(heap), kids@[j]));
                            assert(heap.same_at(old(heap), kids@[j]));
                        }
                        kids.wf_kept(heap, &h0);
                        assert(kids@ =~= ka.skip(k + 1));
                        // the copies made so far stay twins
                        assert(h2.kids(tree@) == h1.kids(tree@).push(c)) by {
                            assert(h1.kids(tree@) + run =~= h1.kids(tree@).push(c));
                        }
                        assert(h0.held_in(&h1, NIL));
                        old(heap).twins_same(old(heap), self.at, &h0, &h1, tree@, k, rel);
                        assert(h1.held_in(&h2, tree@));
                        assert forall|j: int| 0 <= j < k implies h2.kids(tree@)[j] == h1.kids(tree@)[j] by {}
                        old(heap).twins_kept(self.at, &h1, &h2, tree@, k, rel, tree@);
                        // the new copy is a twin
                        assert(old(heap).held_in(&h0, NIL));
                        assert(h1.held_in(&h1, NIL));
                        assert(h0.twins_upto(kid.at, &h1, c, h0.kids(kid.at).len() as int, rel));
                        assert(h1.kids(c).len() == h0.kids(kid.at).len());
                        h0.twins_same(old(heap), kid.at, &h1, &h1, c, h0.kids(kid.at).len() as int, rel);
                        assert(!h1.above(c, tree@));
                        old(heap).twins_kept(
                            kid.at,
                            &h1,
                            &h2,
                            c,
                            old(heap).kids(kid.at).len() as int,
                            rel,
                            tree@,
                        );
                        assert(h2.kids(tree@)[k] == c);
                        assert(old(heap).twin_kid(self.at, &h2, tree@, k, rel));
                        old(heap).twins_step(self.at, &h2, tree@, k, rel);
                        assert(h2.cnt(tree@) == h1.cnt(tree@) + h1.weight(run));
                        k = k + 1;
                    }
                },
            }
        }
        proof {
            assert(ka.take(ka.len() as int) =~= ka);
            old(heap).size_invariant(self.at);
        }
        tree
    }
}

impl Tree {
    /// Copies the tree, payload by payload, into a tree of its own in the
    /// same heap.
    pub fn clone<T: Clone>(&self, heap: &mut Heap<T>) -> (tree: Tree)
        requires
            old(heap).wf(),
            self.wf(old(heap)),
        ensures
            final(heap).wf(),
            tree.wf(final(heap)),
            self.wf(final(heap)),
            !old(heap).live(tree@),
            forall|i: usize|
                #![trigger final(heap).live(i)]
                #![trigger final(heap).link(i)]
                #![trigger final(heap).kids(i)]
                #![trigger final(heap).payload(i)]
                old(heap).live(i) ==> final(heap).same_at(old(heap), i),
            old(heap).twin(self@, final(heap), tree@, cloned_rel::<T>()),
            final(heap).cnt(tree@) == old(heap).cnt(self@),
    {
        let tree = self.root().to_owned(heap);
        proof {
            assert(heap.same_at(old(heap), self@));
        }
        tree
    }
}

} // verus!
