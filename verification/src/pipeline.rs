use vstd::prelude::*;

use crate::filter::Filter;
use crate::freq::CharFreq;
use crate::score::sat_score;
use crate::score::ws_leq;
use crate::score::WordScore;
use crate::select::RankedSelector;

verus! {

/// What str::to_lowercase returns for a string: a function of its
/// characters alone.
pub uninterp spec fn lower_of(s: Seq<char>) -> Seq<char>;

/// Relies on str::to_lowercase: the result depends on the characters alone,
/// and an empty string stays empty.
#[verifier::external_body]
fn lowercase(s: &str) -> (r: String)
    ensures
        r@ == lower_of(s@),
        s@.len() == 0 ==> r@.len() == 0,
{
    s.to_lowercase()
}

/// The candidates of a list that the filter accepts, each held against the
/// filter after folding to lower case, kept in their original spelling.
pub open spec fn accepted_words(f: Filter, ls: Seq<Seq<char>>) -> Seq<Seq<char>> {
    ls.filter(|w: Seq<char>| f.spec_accept(lower_of(w)))
}

/// A word paired with its score against a table.
pub open spec fn scored(counts: Seq<usize>, w: Seq<char>) -> (Seq<char>, int) {
    (w, sat_score(counts, w))
}

/// The scored words a top-K selection chooses from.
pub open spec fn scored_candidates(f: Filter, counts: Seq<usize>, ls: Seq<Seq<char>>) -> Seq<
    (Seq<char>, int),
> {
    accepted_words(f, ls).map_values(|w: Seq<char>| scored(counts, w))
}

/// The words of an output list, each paired with its score.
pub open spec fn out_model(counts: Seq<usize>, out: Seq<Seq<char>>) -> Seq<(Seq<char>, int)> {
    out.map_values(|w: Seq<char>| scored(counts, w))
}

/// Reads one line of a list, as its own copy.
fn line_at(lines: &Vec<String>, i: usize) -> (r: String)
    requires
        i < lines@.len(),
    ensures
        r@ == lines@[i as int]@,
{
    lines[i].clone()
}

/// Filters a list of candidate lines: each line is folded to lower case and
/// held against the filter; the ones that pass are kept in their original
/// spelling and order.
pub fn grep_words(lines: &Vec<String>, filter: &Filter) -> (r: Vec<String>)
    ensures
        r.deep_view() == accepted_words(*filter, lines.deep_view()),
{
    broadcast use Seq::lemma_filter_push;

    let ghost ls = lines.deep_view();
    let mut r: Vec<String> = Vec::new();
    let mut i: usize = 0;
    while i < lines.len()
        invariant
            ls == lines.deep_view(),
            i <= ls.len(),
            r.deep_view() == accepted_words(*filter, ls.take(i as int)),
        decreases ls.len() - i,
    {
        let line = line_at(lines, i);
        let low = lowercase(line.as_str());
        let ghost dv0 = r.deep_view();
        let keep = filter.accept(low.as_str());
        if keep {
            r.push(line);
            proof {
                assert(r.deep_view() =~= dv0.push(ls[i as int]));
            }
        }
        proof {
            assert(ls.take(i + 1) =~= ls.take(i as int).push(ls[i as int]));
            ls.take(i as int).lemma_filter_push(
                ls[i as int],
                |w: Seq<char>| filter.spec_accept(lower_of(w)),
            );
            assert(r.deep_view() =~= accepted_words(*filter, ls.take(i + 1)));
        }
        i = i + 1;
    }
    proof {
        assert(ls.take(ls.len() as int) =~= ls);
    }
    r
}

/// The scored top-K selection: every accepted candidate is scored, and the
/// `k` greatest under the selection order come out, greatest first — highest
/// score first, ties yielding the lexicographically earliest word first.
/// When fewer than `k` candidates pass, all of them come out; none is listed
/// twice more often than it was given.
pub fn grep_top_k(lines: &Vec<String>, filter: &Filter, char_freq: &CharFreq, k: usize) -> (r: Vec<
    String,
>)
    ensures
        ({
            let cands = scored_candidates(*filter, char_freq@, lines.deep_view());
            let out = out_model(char_freq@, r.deep_view());
            &&& r.deep_view().len() == vstd::math::min(k as int, cands.len() as int)
            &&& forall|t: int, u: int| 0 <= t < u < out.len() ==> ws_leq(out[u], out[t])
            &&& out.to_multiset().subset_of(cands.to_multiset())
            &&& forall|x: (Seq<char>, int)|
                #![trigger cands.to_multiset().count(x)]
                cands.to_multiset().count(x) > out.to_multiset().count(x) ==> forall|t: int|
                    0 <= t < out.len() ==> ws_leq(x, out[t])
        }),
{
    broadcast use Seq::lemma_filter_push;
    broadcast use vstd::seq_lib::group_to_multiset_ensures;
    broadcast use vstd::multiset::group_multiset_axioms;

    let ghost ls = lines.deep_view();
    let ghost counts = char_freq@;
    let ghost cands = scored_candidates(*filter, counts, ls);

    let mut sel = RankedSelector::new();
    let mut i: usize = 0;
    while i < lines.len()
        invariant
            sel.wf(),
            ls == lines.deep_view(),
            counts == char_freq@,
            i <= ls.len(),
            sel@.to_multiset() =~= scored_candidates(*filter, counts, ls.take(
                i as int,
            )).to_multiset(),
            sel@.len() == scored_candidates(*filter, counts, ls.take(i as int)).len(),
        decreases ls.len() - i,
    {
        let line = line_at(lines, i);
        let low = lowercase(line.as_str());
        let keep = filter.accept(low.as_str());
        let ghost pre = sel@;
        if keep {
            let ws = WordScore::new(line, char_freq);
            proof {
                assert(ws@ == scored(counts, ls[i as int]));
            }
            sel.push(ws);
        }
        proof {
            assert(ls.take(i + 1) =~= ls.take(i as int).push(ls[i as int]));
            ls.take(i as int).lemma_filter_push(
                ls[i as int],
                |w: Seq<char>| filter.spec_accept(lower_of(w)),
            );
            let acc0 = accepted_words(*filter, ls.take(i as int));
            let acc1 = accepted_words(*filter, ls.take(i + 1));
            if filter.spec_accept(lower_of(ls[i as int])) {
                assert(acc1 == acc0.push(ls[i as int]));
                let sc = scored(counts, ls[i as int]);
                let c0 = scored_candidates(*filter, counts, ls.take(i as int));
                assert(scored_candidates(*filter, counts, ls.take(i + 1)) =~= c0.push(sc));
                c0.to_multiset_ensures();
                assert(c0.push(sc).to_multiset() =~= c0.to_multiset().insert(sc));
                assert(sel@.to_multiset() =~= scored_candidates(
                    *filter,
                    counts,
                    ls.take(i + 1),
                ).to_multiset());
            } else {
                assert(acc1 == acc0);
                assert(scored_candidates(*filter, counts, ls.take(i + 1)) =~= scored_candidates(
                    *filter,
                    counts,
                    ls.take(i as int),
                ));
            }
        }
        i = i + 1;
    }
    proof {
        assert(ls.take(ls.len() as int) =~= ls);
        assert(sel@.to_multiset() =~= cands.to_multiset());
        assert(sel@.len() == cands.len());
    }

    // every candidate pairs a word with that word's own score
    proof {
        assert forall|x: (Seq<char>, int)|
            cands.to_multiset().count(x) > 0 implies x == scored(counts, x.0) by {
            let j = choose|j: int| 0 <= j < cands.len() && cands[j] == x;
            assert(cands[j] == scored(counts, accepted_words(*filter, ls)[j]));
        }
    }

    let mut out: Vec<String> = Vec::new();
    let mut budget = k;
    while budget > 0 && sel.len() > 0
        invariant
            sel.wf(),
            counts == char_freq@,
            budget <= k,
            out.deep_view().len() == k - budget,
            sel@.len() + out.deep_view().len() == cands.len(),
            out_model(counts, out.deep_view()).to_multiset().add(sel@.to_multiset())
                =~= cands.to_multiset(),
            forall|t: int, u: int|
                0 <= t < u < out.deep_view().len() ==> ws_leq(
                    out_model(counts, out.deep_view())[u],
                    out_model(counts, out.deep_view())[t],
                ),
            forall|j: int, t: int|
                0 <= j < sel@.len() && 0 <= t < out.deep_view().len() ==> ws_leq(
                    #[trigger] sel@[j],
                    #[trigger] out_model(counts, out.deep_view())[t],
                ),
            forall|x: (Seq<char>, int)|
                cands.to_multiset().count(x) > 0 ==> x == scored(counts, x.0),
        decreases budget,
    {
        let ghost pre_sel = sel@;
        let ghost pre_out = out.deep_view();
        let popped = sel.pop();
        match popped {
            Some(ws) => {
                proof {
                    pre_sel.to_multiset_ensures();
                    assert(pre_sel.contains(pre_sel.last()));
                    assert(pre_sel.to_multiset().count(pre_sel.last()) > 0);
                    assert(cands.to_multiset().count(ws@) > 0);
                    assert(ws@ == scored(counts, ws@.0));
                    assert(ws@.0 == ws.word@);
                }
                let ghost dv0 = out.deep_view();
                out.push(ws.word);
                proof {
                    assert(out.deep_view() =~= dv0.push(ws@.0));
                    let om = out_model(counts, out.deep_view());
                    let om0 = out_model(counts, dv0);
                    assert(om =~= om0.push(ws@));
                    assert(sel@ =~= pre_sel.drop_last());
                    assert(pre_sel =~= sel@.push(ws@));
                    om0.to_multiset_ensures();
                    sel@.to_multiset_ensures();
                    assert(om0.push(ws@).to_multiset() =~= om0.to_multiset().insert(ws@));
                    assert(sel@.push(ws@).to_multiset() =~= sel@.to_multiset().insert(ws@));
                    assert forall|x: (Seq<char>, int)|
                        om.to_multiset().add(sel@.to_multiset()).count(x) == cands.to_multiset(
                        ).count(x) by {
                        assert(om.to_multiset().count(x) == om0.to_multiset().insert(ws@).count(
                            x,
                        ));
                        assert(pre_sel.to_multiset().count(x) == sel@.to_multiset().insert(
                            ws@,
                        ).count(x));
                        assert(om0.to_multiset().add(pre_sel.to_multiset()).count(x)
                            == cands.to_multiset().count(x));
                    }
                    assert(om.to_multiset().add(sel@.to_multiset()) =~= cands.to_multiset());
                    // order among the emitted words
                    assert forall|t: int, u: int| 0 <= t < u < om.len() implies ws_leq(
                        om[u],
                        om[t],
                    ) by {
                        if u == om.len() - 1 {
                            assert(om[t] == om0[t]);
                            assert(ws_leq(pre_sel[pre_sel.len() - 1], om0[t]));
                        } else {
                            assert(om[t] == om0[t] && om[u] == om0[u]);
                        }
                    }
                    // what stays held ranks at or below everything emitted
                    assert forall|j: int, t: int|
                        0 <= j < sel@.len() && 0 <= t < om.len() implies ws_leq(
                        #[trigger] sel@[j],
                        #[trigger] om[t],
                    ) by {
                        assert(sel@[j] == pre_sel[j]);
                        if t == om.len() - 1 {
                            assert(ws_leq(pre_sel[j], ws@));
                        } else {
                            assert(om[t] == om0[t]);
                        }
                    }
                }
                budget = budget - 1;
            },
            None => {
                proof {
                    assert(false);
                }
            },
        }
    }

    proof {
        let om = out_model(counts, out.deep_view());
        assert(om.to_multiset().subset_of(cands.to_multiset()));
        if budget == 0 {
            assert(out.deep_view().len() == k);
            assert(cands.len() >= k);
            assert(out.deep_view().len() == vstd::math::min(k as int, cands.len() as int));
        } else {
            assert(sel@.len() == 0);
            assert(out.deep_view().len() == cands.len());
            assert(out.deep_view().len() == vstd::math::min(k as int, cands.len() as int));
        }
        assert forall|x: (Seq<char>, int)|
            #![trigger cands.to_multiset().count(x)]
            cands.to_multiset().count(x) > om.to_multiset().count(x) implies forall|t: int|
            0 <= t < om.len() ==> ws_leq(x, om[t]) by {
            assert(sel@.to_multiset().count(x) > 0);
            let j = choose|j: int| 0 <= j < sel@.len() && sel@[j] == x;
            assert forall|t: int| 0 <= t < om.len() implies ws_leq(x, om[t]) by {
                assert(ws_leq(sel@[j], om[t]));
            }
        }
    }
    out
}

} // verus!
