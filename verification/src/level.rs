//! The order in which a breadth-first traversal visits the nodes.

use vstd::prelude::*;
use crate::bfs::bfs_step;
use crate::heap::Heap;

verus! {

/// The nodes of the runs of the queue `q`, front to back.
pub open spec fn flat(q: Seq<Seq<usize>>) -> Seq<usize>
    decreases q.len(),
{
    if q.len() == 0 {
        Seq::empty()
    } else {
        q[0] + flat(q.drop_first())
    }
}

/// The queue after `n` steps of a breadth-first traversal.
pub open spec fn bfs_steps<T>(heap: &Heap<T>, q: Seq<Seq<usize>>, n: nat) -> Seq<Seq<usize>>
    decreases n,
{
    if n == 0 {
        q
    } else {
        bfs_steps(heap, bfs_step(heap, q).0, (n - 1) as nat)
    }
}

impl<T> Heap<T> {
    /// Whether all nodes of `run` are in use.
    pub open spec fn all_live(&self, run: Seq<usize>) -> bool {
        forall|j: int| 0 <= j < run.len() ==> self.live(#[trigger] run[j])
    }

    /// The children of the nodes of `level`, in order: the level below.
    pub open spec fn below(&self, level: Seq<usize>) -> Seq<usize>
        decreases level.len(),
    {
        if level.len() == 0 {
            Seq::empty()
        } else {
            self.below(level.drop_last()) + self.kids(level.last())
        }
    }

    /// The nodes in the order in which a queue that holds `f` hands them
    /// out: the first node of the queue, and then what the rest of the queue
    /// and, behind it, the children of that node hand out.
    pub open spec fn breadth(&self, f: Seq<usize>) -> Seq<usize>
        decreases self.weight(f),
        when self.wf() && self.all_live(f)
    {
        if f.len() == 0 {
            Seq::empty()
        } else {
            proof {
                self.queue_shrinks(f);
            }
            seq![f[0]] + self.breadth(f.drop_first() + self.kids(f[0]))
        }
    }

    /// The nodes level by level: the nodes of `level`, then those of the
    /// level below, and so on down.
    pub open spec fn level_order(&self, level: Seq<usize>) -> Seq<usize>
        decreases self.weight(level),
        when self.wf() && self.all_live(level)
    {
        if level.len() == 0 {
            Seq::empty()
        } else {
            proof {
                self.below_weight(level);
            }
            level + self.level_order(self.below(level))
        }
    }

    /// A queue that hands out a node and takes its children in holds fewer
    /// nodes to come, counted with all that is below them.
    pub proof fn queue_shrinks(&self, f: Seq<usize>)
        requires
            self.wf(),
            self.all_live(f),
            f.len() > 0,
        ensures
            self.weight(f.drop_first() + self.kids(f[0])) == self.weight(f) - 1,
            self.all_live(f.drop_first() + self.kids(f[0])),
            0 <= self.weight(f.drop_first() + self.kids(f[0])),
    {
        let rest = f.drop_first();
        let next = rest + self.kids(f[0]);
        assert(f =~= seq![f[0]] + rest);
        self.weight_concat(seq![f[0]], rest);
        self.weight_one(f[0]);
        self.weight_concat(rest, self.kids(f[0]));
        self.size_invariant(f[0]);
        self.weight_nonneg(next);
        assert forall|j: int| 0 <= j < next.len() implies self.live(#[trigger] next[j]) by {
            if j < rest.len() {
                assert(next[j] == f[j + 1]);
            } else {
                assert(next[j] == self.kids(f[0])[j - rest.len()]);
            }
        }
    }

    /// The level below holds, with all that is below it, as many nodes as
    /// the level without its own.
    pub proof fn below_weight(&self, level: Seq<usize>)
        requires
            self.wf(),
            self.all_live(level),
        ensures
            self.weight(self.below(level)) == self.weight(level) - level.len(),
            self.all_live(self.below(level)),
            0 <= self.weight(self.below(level)),
        decreases level.len(),
    {
        if level.len() > 0 {
            let most = level.drop_last();
            let x = level.last();
            assert forall|j: int| 0 <= j < most.len() implies self.live(#[trigger] most[j]) by {
                assert(most[j] == level[j]);
            }
            self.below_weight(most);
            self.size_invariant(x);
            self.weight_concat(self.below(most), self.kids(x));
            let all = self.below(level);
            assert forall|j: int| 0 <= j < all.len() implies self.live(#[trigger] all[j]) by {
                if j < self.below(most).len() {
                    assert(all[j] == self.below(most)[j]);
                } else {
                    assert(all[j] == self.kids(x)[j - self.below(most).len()]);
                }
            }
        }
        self.weight_nonneg(self.below(level));
    }

    /// A queue that holds the rest `a` of a level, and behind it the
    /// children of the nodes `p` of that level that it has handed out, hands
    /// out the rest of the level and then goes on with the level below.
    pub proof fn breadth_of_level(&self, p: Seq<usize>, a: Seq<usize>)
        requires
            self.wf(),
            self.all_live(p),
            self.all_live(a),
        ensures
            self.all_live(a + self.below(p)),
            self.all_live(p + a),
            self.all_live(self.below(p + a)),
            self.breadth(a + self.below(p)) == a + self.breadth(self.below(p + a)),
        decreases a.len(),
    {
        let level = p + a;
        assert forall|j: int| 0 <= j < level.len() implies self.live(#[trigger] level[j]) by {
            if j < p.len() {
                assert(level[j] == p[j]);
            } else {
                assert(level[j] == a[j - p.len()]);
            }
        }
        self.below_weight(p);
        self.below_weight(level);
        let f = a + self.below(p);
        assert forall|j: int| 0 <= j < f.len() implies self.live(#[trigger] f[j]) by {
            if j < a.len() {
                assert(f[j] == a[j]);
            } else {
                assert(f[j] == self.below(p)[j - a.len()]);
            }
        }
        if a.len() == 0 {
            assert(f =~= self.below(p));
            assert(level =~= p);
            assert(a + self.breadth(self.below(level)) =~= self.breadth(self.below(level)));
        } else {
            let x = a[0];
            let rest = a.drop_first();
            let more = p.push(x);
            assert(more.drop_last() =~= p);
            assert(self.below(more) == self.below(p) + self.kids(x));
            assert forall|j: int| 0 <= j < more.len() implies self.live(#[trigger] more[j]) by {
                if j < p.len() {
                    assert(more[j] == p[j]);
                }
            }
            assert forall|j: int| 0 <= j < rest.len() implies self.live(#[trigger] rest[j]) by {
                assert(rest[j] == a[j + 1]);
            }
            self.breadth_of_level(more, rest);
            assert(more + rest =~= level);
            assert(f.drop_first() + self.kids(f[0]) =~= rest + self.below(more));
            self.queue_shrinks(f);
            assert(self.breadth(f) == seq![x] + self.breadth(rest + self.below(more)));
            assert(seq![x] + (rest + self.breadth(self.below(level))) =~= a + self.breadth(
                self.below(level),
            ));
        }
    }

    /// A queue hands the nodes out level by level: all nodes of a level
    /// before any node of the level below, for any number of children.
    pub proof fn breadth_is_level_order(&self, level: Seq<usize>)
        requires
            self.wf(),
            self.all_live(level),
        ensures
            self.breadth(level) == self.level_order(level),
        decreases self.weight(level),
    {
        if level.len() > 0 {
            let none = Seq::<usize>::empty();
            assert(self.below(none) =~= none);
            assert(level + self.below(none) =~= level);
            assert(none + level =~= level);
            self.breadth_of_level(none, level);
            self.below_weight(level);
            self.breadth_is_level_order(self.below(level));
        }
    }

    /// One step of a breadth-first traversal hands out the first node of the
    /// queue and takes its children in at the back.
    pub proof fn step_is_breadth(&self, q: Seq<Seq<usize>>)
        requires
            self.wf(),
            self.all_live(flat(q)),
        ensures
            bfs_step(self, q).1 == (if flat(q).len() == 0 {
                None
            } else {
                Some(flat(q)[0])
            }),
            flat(q).len() > 0 ==> flat(bfs_step(self, q).0) == flat(q).drop_first() + self.kids(flat(q)[0]),
            flat(q).len() == 0 ==> flat(bfs_step(self, q).0) == flat(q),
        decreases q.len(),
    {
        if q.len() > 0 {
            let rest = q.drop_first();
            if q[0].len() == 0 {
                assert(flat(q) =~= flat(rest));
                self.step_is_breadth(rest);
            } else {
                let x = q[0][0];
                let now = q.update(0, q[0].drop_first()).push(self.kids(x));
                flat_push(q.update(0, q[0].drop_first()), self.kids(x));
                assert(q.update(0, q[0].drop_first()).drop_first() =~= rest);
                assert(flat(now) =~= flat(q).drop_first() + self.kids(x));
            }
        } else {
            assert(bfs_step(self, q).0 == q);
        }
    }
}

/// The nodes of a queue with one more run at the back.
pub proof fn flat_push(q: Seq<Seq<usize>>, run: Seq<usize>)
    ensures
        flat(q.push(run)) == flat(q) + run,
    decreases q.len(),
{
    if q.len() == 0 {
        let one = q.push(run);
        assert(one[0] == run);
        assert(one.drop_first() =~= q);
        assert(flat(one.drop_first()) =~= Seq::<usize>::empty());
        assert(flat(one) == one[0] + flat(one.drop_first()));
        assert(flat(one) =~= run);
        assert(flat(q) + run =~= run);
    } else {
        assert(q.push(run).drop_first() =~= q.drop_first().push(run));
        flat_push(q.drop_first(), run);
        assert(flat(q.push(run)) =~= flat(q) + run);
    }
}

/// A breadth-first traversal that begins with the queue `q` visits, step by
/// step, the nodes below the queue level by level: all nodes of a level
/// before any node of the level below; then it is over.
pub proof fn bfs_is_level_order<T>(heap: &Heap<T>, q: Seq<Seq<usize>>, k: nat)
    requires
        heap.wf(),
        heap.all_live(flat(q)),
        k <= heap.level_order(flat(q)).len(),
    ensures
        bfs_step(heap, bfs_steps(heap, q, k)).1 == (if k < heap.level_order(flat(q)).len() {
            Some(heap.level_order(flat(q))[k as int])
        } else {
            None
        }),
    decreases k,
{
    let f = flat(q);
    heap.breadth_is_level_order(f);
    heap.step_is_breadth(q);
    if f.len() > 0 {
        heap.queue_shrinks(f);
        let next = bfs_step(heap, q).0;
        heap.breadth_is_level_order(flat(next));
        assert(heap.breadth(f) == seq![f[0]] + heap.breadth(flat(next)));
        if k > 0 {
            bfs_is_level_order(heap, next, (k - 1) as nat);
        }
    } else {
        assert(heap.breadth(f) =~= Seq::<usize>::empty());
    }
}

} // verus!
