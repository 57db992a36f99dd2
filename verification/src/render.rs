//! Text rendering of payloads, trees and forests.

use vstd::prelude::*;
use vstd::string::StringExecFns;
use crate::forest::Forest;
use crate::heap::Heap;
use crate::iter::Iter;
use crate::node::Node;
use crate::tree::Tree;

verus! {

/// A payload that can be rendered as text.
pub trait Render {
    /// The text of the payload.
    spec fn rendered(&self) -> Seq<char>;

    /// Renders the payload.
    fn render(&self) -> (text: String)
        ensures
            text@ == self.rendered(),
    ;
}

/// The text of one decimal digit.
pub open spec fn digit(d: nat) -> Seq<char> {
    if d == 0 {
        "0"@
    } else if d == 1 {
        "1"@
    } else if d == 2 {
        "2"@
    } else if d == 3 {
        "3"@
    } else if d == 4 {
        "4"@
    } else if d == 5 {
        "5"@
    } else if d == 6 {
        "6"@
    } else if d == 7 {
        "7"@
    } else if d == 8 {
        "8"@
    } else {
        "9"@
    }
}

/// The decimal digits of `n`, without leading zeros.
pub open spec fn digits(n: nat) -> Seq<char>
    decreases n,
{
    if n < 10 {
        digit(n)
    } else {
        digits(n / 10) + digit(n % 10)
    }
}

/// The decimal text of `n`, with a minus sign where it is negative.
pub open spec fn decimal(n: int) -> Seq<char> {
    if n < 0 {
        "-"@ + digits((-n) as nat)
    } else {
        digits(n as nat)
    }
}

/// The text of one decimal digit.
fn digit_str(d: u64) -> (text: &'static str)
    requires
        d < 10,
    ensures
        text@ == digit(d as nat),
{
    if d == 0 {
        "0"
    } else if d == 1 {
        "1"
    } else if d == 2 {
        "2"
    } else if d == 3 {
        "3"
    } else if d == 4 {
        "4"
    } else if d == 5 {
        "5"
    } else if d == 6 {
        "6"
    } else if d == 7 {
        "7"
    } else if d == 8 {
        "8"
    } else {
        "9"
    }
}

/// Appends the decimal digits of `n` to `out`.
fn put_digits(out: &mut String, n: u64)
    ensures
        final(out)@ == old(out)@ + digits(n as nat),
    decreases n,
{
    if n >= 10 {
        put_digits(out, n / 10);
    }
    out.append(digit_str(n % 10));
    proof {
        if n >= 10 {
            assert(old(out)@ + digits((n / 10) as nat) + digit((n % 10) as nat) =~= old(out)@ + (digits(
                (n / 10) as nat,
            ) + digit((n % 10) as nat)));
        }
    }
}

/// The decimal text of `n`.
fn unsigned_text(n: u64) -> (text: String)
    ensures
        text@ == decimal(n as int),
{
    let mut out = String::new();
    put_digits(&mut out, n);
    proof {
        assert(Seq::<char>::empty() + digits(n as nat) =~= digits(n as nat));
    }
    out
}

/// The decimal text of `n`.
fn signed_text(n: i64) -> (text: String)
    ensures
        text@ == decimal(n as int),
{
    if n < 0 {
        let mut out = String::new();
        out.append("-");
        let size: u64 = (-(n + 1)) as u64 + 1;
        put_digits(&mut out, size);
        proof {
            assert(Seq::<char>::empty() + "-"@ =~= "-"@);
        }
        out
    } else {
        unsigned_text(n as u64)
    }
}

impl Render for u8 {
    open spec fn rendered(&self) -> Seq<char> {
        decimal(*self as int)
    }

    fn render(&self) -> (text: String) {
        unsigned_text(*self as u64)
    }
}

impl Render for u16 {
    open spec fn rendered(&self) -> Seq<char> {
        decimal(*self as int)
    }

    fn render(&self) -> (text: String) {
        unsigned_text(*self as u64)
    }
}

impl Render for u32 {
    open spec fn rendered(&self) -> Seq<char> {
        decimal(*self as int)
    }

    fn render(&self) -> (text: String) {
        unsigned_text(*self as u64)
    }
}

impl Render for u64 {
    open spec fn rendered(&self) -> Seq<char> {
        decimal(*self as int)
    }

    fn render(&self) -> (text: String) {
        unsigned_text(*self)
    }
}

impl Render for usize {
    open spec fn rendered(&self) -> Seq<char> {
        decimal(*self as int)
    }

    fn render(&self) -> (text: String) {
        unsigned_text(*self as u64)
    }
}

impl Render for i8 {
    open spec fn rendered(&self) -> Seq<char> {
        decimal(*self as int)
    }

    fn render(&self) -> (text: String) {
        signed_text(*self as i64)
    }
}

impl Render for i16 {
    open spec fn rendered(&self) -> Seq<char> {
        decimal(*self as int)
    }

    fn render(&self) -> (text: String) {
        signed_text(*self as i64)
    }
}

impl Render for i32 {
    open spec fn rendered(&self) -> Seq<char> {
        decimal(*self as int)
    }

    fn render(&self) -> (text: String) {
        signed_text(*self as i64)
    }
}

impl Render for i64 {
    open spec fn rendered(&self) -> Seq<char> {
        decimal(*self as int)
    }

    fn render(&self) -> (text: String) {
        signed_text(*self)
    }
}

impl Render for String {
    open spec fn rendered(&self) -> Seq<char> {
        self@
    }

    fn render(&self) -> (text: String) {
        self.clone()
    }
}

impl<T: Render> Heap<T> {
    /// The text of the first `k` children of node `at`, each followed by a
    /// blank.
    pub open spec fn text_upto(&self, at: usize, k: nat) -> Seq<char>
        decreases self.cnt(at), k,
        when self.wf() && self.live(at) && k <= self.kids(at).len()
    {
        if k == 0 {
            Seq::empty()
        } else {
            let kid = self.kids(at)[k - 1];
            proof {
                self.size_invariant(at);
                self.weight_ge(self.kids(at), k - 1);
            }
            self.text_upto(at, (k - 1) as nat) + self.payload(kid).rendered() + (if self.kids(kid).len()
                == 0 {
                Seq::empty()
            } else {
                "( "@ + self.text_upto(kid, self.kids(kid).len()) + ")"@
            }) + " "@
        }
    }

    /// The text of the subtree rooted at `at`: a leaf renders as its
    /// payload, a node with children as its payload followed by its children
    /// in order, each followed by a blank, in parentheses.
    pub open spec fn text(&self, at: usize) -> Seq<char> {
        self.payload(at).rendered() + (if self.kids(at).len() == 0 {
            Seq::empty()
        } else {
            "( "@ + self.text_upto(at, self.kids(at).len()) + ")"@
        })
    }

    /// The text of the trees rooted at the first `k` nodes of `run`, each
    /// followed by a blank.
    pub open spec fn text_of(&self, run: Seq<usize>, k: nat) -> Seq<char>
        decreases k,
    {
        if k == 0 {
            Seq::empty()
        } else {
            self.text_of(run, (k - 1) as nat) + self.text(run[k - 1]) + " "@
        }
    }

    /// The text of the children of `at` is the text of the trees rooted at
    /// them.
    pub proof fn text_of_kids(&self, at: usize, k: nat)
        requires
            self.wf(),
            self.live(at),
            k <= self.kids(at).len(),
        ensures
            self.text_upto(at, k) == self.text_of(self.kids(at), k),
        decreases k,
    {
        if k > 0 {
            self.text_of_kids(at, (k - 1) as nat);
            let kid = self.kids(at)[k - 1];
            let a = self.text_upto(at, (k - 1) as nat);
            let l = self.payload(kid).rendered();
            let r = if self.kids(kid).len() == 0 {
                Seq::<char>::empty()
            } else {
                "( "@ + self.text_upto(kid, self.kids(kid).len()) + ")"@
            };
            self.size_invariant(at);
            assert(self.live(kid));
            assert(self.text_upto(at, k) == (self.text_upto(at, (k - 1) as nat) + self.payload(
                kid,
            ).rendered() + (if self.kids(kid).len() == 0 {
                Seq::<char>::empty()
            } else {
                "( "@ + self.text_upto(kid, self.kids(kid).len()) + ")"@
            }) + " "@));
            assert(self.text_upto(at, k) == a + l + r + " "@);
            assert(a + l + r + " "@ =~= a + (l + r) + " "@);
        }
    }
}

impl Node {
    /// Appends the text of the subtree rooted at this node to `out`.
    pub fn write<T: Render>(&self, heap: &Heap<T>, out: &mut String)
        requires
            heap.wf(),
            heap.live(self.at),
        ensures
            final(out)@ == old(out)@ + heap.text(self.at),
        decreases heap.cnt(self.at),
    {
        let label: String = heap.data(self.at).render();
        out.append(label.as_str());
        if self.is_leaf(heap) {
            proof {
                assert(old(out)@ + heap.payload(self.at).rendered() =~= old(out)@ + heap.text(self.at));
            }
        } else {
            out.append("( ");
            let mut kids: Iter = self.iter(heap);
            let ghost all = heap.kids(self.at);
            let ghost mut k: nat = 0;
            let ghost start = out@;
            proof {
                assert(start + heap.text_of(all, 0) =~= start);
            }
            loop
                invariant_except_break
                    kids@ == all.subrange(k as int, all.len() as int),
                    out@ == start + heap.text_of(all, k),
                invariant
                    heap.wf(),
                    heap.live(self.at),
                    all == heap.kids(self.at),
                    kids.wf(heap),
                    k <= all.len(),
                ensures
                    out@ == start + heap.text_of(all, all.len()),
                decreases all.len() - k,
            {
                match kids.next(heap) {
                    Some(kid) => {
                        proof {
                            assert(kid.at == all[k as int]);
                            heap.size_invariant(self.at);
                            heap.weight_ge(all, k as int);
                        }
                        let ghost before = out@;
                        kid.write(heap, out);
                        out.append(" ");
                        proof {
                            assert(kids@ =~= all.subrange(k as int + 1, all.len() as int));
                            assert(before + heap.text(kid.at) + " "@ =~= start + heap.text_of(
                                all,
                                (k + 1) as nat,
                            ));
                            k = k + 1;
                        }
                    },
                    None => {
                        proof {
                            assert(k == all.len());
                        }
                        break ;
                    },
                }
            }
            out.append(")");
            proof {
                heap.text_of_kids(self.at, all.len());
                assert(out@ =~= old(out)@ + heap.text(self.at));
            }
        }
    }

    /// The text of the subtree rooted at this node.
    pub fn to_string<T: Render>(&self, heap: &Heap<T>) -> (text: String)
        requires
            heap.wf(),
            heap.live(self.at),
        ensures
            text@ == heap.text(self.at),
    {
        let mut out = String::new();
        self.write(heap, &mut out);
        proof {
            assert(Seq::<char>::empty() + heap.text(self.at) =~= heap.text(self.at));
        }
        out
    }
}

impl Tree {
    /// The text of the tree.
    pub fn to_string<T: Render>(&self, heap: &Heap<T>) -> (text: String)
        requires
            heap.wf(),
            self.wf(heap),
        ensures
            text@ == heap.text(self@),
    {
        self.root().to_string(heap)
    }
}

impl Forest {
    /// The text of the forest: its trees in order, each followed by a
    /// blank, in parentheses.
    pub fn to_string<T: Render>(&self, heap: &Heap<T>) -> (text: String)
        requires
            heap.wf(),
            self.wf(heap),
        ensures
            text@ == "( "@ + heap.text_of(self@, self@.len()) + ")"@,
    {
        let mut out = String::new();
        out.append("( ");
        let mut trees: Iter = self.iter(heap);
        let ghost all = self@;
        let ghost mut k: nat = 0;
        let ghost start = out@;
        proof {
            assert(start + heap.text_of(all, 0) =~= start);
        }
        loop
            invariant_except_break
                trees@ == all.subrange(k as int, all.len() as int),
                out@ == start + heap.text_of(all, k),
            invariant
                heap.wf(),
                trees.wf(heap),
                k <= all.len(),
                start == "( "@,
            ensures
                out@ == start + heap.text_of(all, all.len()),
            decreases all.len() - k,
        {
            let ghost rest = trees@;
            match trees.next(heap) {
                Some(tree) => {
                    proof {
                        assert(tree.at == all[k as int]);
                        assert(heap.step_ok(rest, 0));
                    }
                    let ghost before = out@;
                    tree.write(heap, &mut out);
                    out.append(" ");
                    proof {
                        assert(trees@ =~= all.subrange(k as int + 1, all.len() as int));
                        assert(before + heap.text(tree.at) + " "@ =~= start + heap.text_of(
                            all,
                            (k + 1) as nat,
                        ));
                        k = k + 1;
                    }
                },
                None => {
                    proof {
                        assert(k == all.len());
                    }
                    break ;
                },
            }
        }
        out.append(")");
        proof {
            assert(Seq::<char>::empty() + "( "@ =~= "( "@);
        }
        out
    }
}

} // verus!
