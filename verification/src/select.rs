use vstd::prelude::*;

use crate::score::lemma_ws_refl;
use crate::score::lemma_ws_total;
use crate::score::lemma_ws_trans;
use crate::score::ws_leq;
use crate::score::WordScore;

verus! {

/// Scan of the insertion in `push`: keeps walking while the held word at
/// `p` still ranks at or below the new one.
fn push_keeps_going(items: &Vec<WordScore>, p: usize, ws: &WordScore) -> (b: bool)
    requires
        p <= items@.len(),
    ensures
        b == (p < items@.len() && ws_leq(items@[p as int]@, ws@)),
{
    p < items.len() && items[p].ranks_le(ws)
}

/// A max-ordered collection of scored words: words go in one by one, and
/// come out greatest first under the selection order — highest score first,
/// ties yielding the lexicographically earliest word.
pub struct RankedSelector {
    items: Vec<WordScore>,
}

impl View for RankedSelector {
    type V = Seq<(Seq<char>, int)>;

    closed spec fn view(&self) -> Seq<(Seq<char>, int)> {
        self.items.deep_view()
    }
}

impl RankedSelector {
    /// The selector's words are held sorted in the selection order.
    pub closed spec fn wf(&self) -> bool {
        forall|i: int, j: int|
            0 <= i < j < self.items.deep_view().len() ==> ws_leq(
                #[trigger] self.items.deep_view()[i],
                #[trigger] self.items.deep_view()[j],
            )
    }

    /// An empty selector.
    pub fn new() -> (s: RankedSelector)
        ensures
            s@ == Seq::<(Seq<char>, int)>::empty(),
            s.wf(),
    {
        let s = RankedSelector { items: Vec::new() };
        proof {
            assert(s@ =~= Seq::<(Seq<char>, int)>::empty());
        }
        s
    }

    /// How many scored words the selector holds.
    pub fn len(&self) -> (n: usize)
        ensures
            n == self@.len(),
    {
        self.items.len()
    }

    /// Takes one scored word in. The collection afterwards holds exactly the
    /// words it held before, plus this one.
    pub fn push(&mut self, ws: WordScore)
        requires
            old(self).wf(),
        ensures
            final(self).wf(),
            final(self)@.to_multiset() == old(self)@.to_multiset().insert(ws@),
            final(self)@.len() == old(self)@.len() + 1,
    {
        broadcast use vstd::seq_lib::to_multiset_insert;

        let ghost dv0 = self.items.deep_view();
        let n = self.items.len();
        let mut p: usize = 0;
        while push_keeps_going(&self.items, p, &ws)
            invariant
                self.items.deep_view().len() == n,
                p <= self.items.deep_view().len(),
                forall|q: int| 0 <= q < p ==> ws_leq(#[trigger] self.items.deep_view()[q], ws@),
            decreases self.items.deep_view().len() - p,
        {
            p = p + 1;
        }
        proof {
            if (p as int) < dv0.len() {
                lemma_ws_total(dv0[p as int], ws@);
            }
        }
        self.items.insert(p, ws);
        proof {
            assert(self.items.deep_view() =~= dv0.insert(p as int, ws@)) by {
                dv0.insert_ensures(p as int, ws@);
            }
            dv0.insert_ensures(p as int, ws@);
            let dv = self.items.deep_view();
            assert forall|i: int, j: int| 0 <= i < j < dv.len() implies ws_leq(
                #[trigger] dv[i],
                #[trigger] dv[j],
            ) by {
                if i == p {
                    assert(dv[j] == dv0[j - 1]);
                    if j - 1 > p {
                        lemma_ws_trans(ws@, dv0[p as int], dv0[j - 1]);
                    }
                } else if j == p {
                    assert(dv[i] == dv0[i]);
                } else {
                    let i0 = if i < p {
                        i
                    } else {
                        i - 1
                    };
                    let j0 = if j < p {
                        j
                    } else {
                        j - 1
                    };
                    assert(dv[i] == dv0[i0] && dv[j] == dv0[j0]);
                }
            }
            assert(dv.to_multiset() == dv0.to_multiset().insert(ws@));
        }
    }

    /// Gives out a greatest held word, or nothing when empty: the word
    /// handed out ranks at or above everything that was held.
    pub fn pop(&mut self) -> (r: Option<WordScore>)
        requires
            old(self).wf(),
        ensures
            final(self).wf(),
            old(self)@.len() == 0 ==> r is None && final(self)@ == old(self)@,
            old(self)@.len() > 0 ==> {
                &&& r is Some
                &&& final(self)@ == old(self)@.drop_last()
                &&& r->0@ == old(self)@.last()
                &&& forall|i: int| 0 <= i < old(self)@.len() ==> ws_leq(old(self)@[i], r->0@)
            },
    {
        let ghost dv0 = self.items.deep_view();
        let r = self.items.pop();
        proof {
            match &r {
                Some(ws) => {
                    assert(dv0.len() > 0);
                    assert(self.items.deep_view() =~= dv0.drop_last());
                    assert(ws@ == dv0.last());
                    assert forall|i: int| 0 <= i < dv0.len() implies ws_leq(dv0[i], ws@) by {
                        if i == dv0.len() - 1 {
                            lemma_ws_refl(ws@);
                        }
                    }
                },
                None => {
                    assert(dv0.len() == 0);
                    assert(self.items.deep_view() =~= dv0);
                },
            }
        }
        r
    }
}

} // verus!
