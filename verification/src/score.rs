use vstd::prelude::*;

use crate::chars::char_at;
use crate::chars::char_of_slot;
use crate::chars::chars_of;
use crate::chars::is_ascii_letter;
use crate::chars::letter_slot;
use crate::chars::lex_leq;
use crate::freq::CharFreq;

verus! {

/// The set of distinct letter slots met while scoring a word, held in a bit
/// set of the outside bit-set crate. The struct is opaque to the verifier;
/// what it holds is named by `slot_set_elems` below.
#[verifier::external_body]
pub struct SlotSet {
    inner: bit_set::BitSet,
}

/// The set of values a slot set holds.
pub uninterp spec fn slot_set_elems(s: SlotSet) -> Set<int>;

impl SlotSet {
    /// Relies on bit_set::BitSet::with_capacity: a newly created bit set has
    /// no contents.
    #[verifier::external_body]
    fn new() -> (s: SlotSet)
        ensures
            slot_set_elems(s) == Set::<int>::empty(),
    {
        SlotSet { inner: bit_set::BitSet::with_capacity(26) }
    }

    /// Relies on bit_set::BitSet::insert: adds the value to the set and tells
    /// whether it was absent, growing the backing bit vector as needed.
    #[verifier::external_body]
    fn insert(&mut self, value: usize) -> (r: bool)
        requires
            value < 26,
        ensures
            slot_set_elems(*final(self)) == slot_set_elems(*old(self)).insert(value as int),
            r == !slot_set_elems(*old(self)).contains(value as int),
    {
        self.inner.insert(value)
    }

    /// Relies on bit_set::BitSet::contains: membership in the set.
    #[verifier::external_body]
    fn contains(&self, value: usize) -> (r: bool)
        ensures
            r == slot_set_elems(*self).contains(value as int),
    {
        self.inner.contains(value)
    }
}

/// The distinct letters of a word, as their lower-case slots.
pub open spec fn word_letter_set(w: Seq<char>) -> Set<int> {
    Set::new(
        |l: int|
            0 <= l < 26 && exists|i: int|
                0 <= i < w.len() && is_ascii_letter(#[trigger] w[i]) && letter_slot(w[i]) == l,
    )
}

/// The summed counts of the slots of a set below a bound.
pub open spec fn score_upto(counts: Seq<usize>, ls: Set<int>, b: int) -> int
    decreases b,
{
    if b <= 0 {
        0
    } else {
        score_upto(counts, ls, b - 1) + if ls.contains(b - 1) {
            counts[b - 1] as int
        } else {
            0
        }
    }
}

/// The score of a word: the summed counts of its distinct letters, each
/// letter counted once however often it repeats in the word.
pub open spec fn spec_score(counts: Seq<usize>, w: Seq<char>) -> int {
    score_upto(counts, word_letter_set(w), 26)
}

/// The score as stored: the true score, saturated at the machine's limit.
pub open spec fn sat_score(counts: Seq<usize>, w: Seq<char>) -> int {
    if spec_score(counts, w) <= usize::MAX as int {
        spec_score(counts, w)
    } else {
        usize::MAX as int
    }
}

/// Summing never shrinks as the bound grows.
proof fn lemma_score_upto_nonneg(counts: Seq<usize>, ls: Set<int>, b: int)
    ensures
        score_upto(counts, ls, b) >= 0,
    decreases b,
{
    if b > 0 {
        lemma_score_upto_nonneg(counts, ls, b - 1);
    }
}

/// The selection order on scored words: by score ascending, ties broken by
/// word descending. Under this order the greatest element carries the
/// highest score and, among equal scores, the lexicographically earliest
/// word.
pub open spec fn ws_leq(a: (Seq<char>, int), b: (Seq<char>, int)) -> bool {
    a.1 < b.1 || (a.1 == b.1 && lex_leq(b.0, a.0))
}

/// The selection order relates every two scored words.
pub proof fn lemma_ws_total(a: (Seq<char>, int), b: (Seq<char>, int))
    ensures
        ws_leq(a, b) || ws_leq(b, a),
{
    crate::chars::lemma_lex_total(a.0, b.0);
}

/// The selection order is transitive.
pub proof fn lemma_ws_trans(a: (Seq<char>, int), b: (Seq<char>, int), c: (Seq<char>, int))
    requires
        ws_leq(a, b),
        ws_leq(b, c),
    ensures
        ws_leq(a, c),
{
    if a.1 == b.1 && b.1 == c.1 {
        crate::chars::lemma_lex_trans(c.0, b.0, a.0);
    }
}

/// The selection order is antisymmetric: two scored words ranking at or
/// below each other are equal, so the order in which a full drain hands
/// words out is completely determined.
pub proof fn lemma_ws_antisym(a: (Seq<char>, int), b: (Seq<char>, int))
    requires
        ws_leq(a, b),
        ws_leq(b, a),
    ensures
        a == b,
{
    crate::chars::lemma_lex_antisym(a.0, b.0);
}

/// The selection order is reflexive.
pub proof fn lemma_ws_refl(a: (Seq<char>, int))
    ensures
        ws_leq(a, a),
{
    crate::chars::lemma_lex_refl(a.0);
}

/// A word scored against a frequency table: the word and its score, computed
/// once at construction.
#[derive(Debug, PartialEq, Eq)]
pub struct WordScore {
    pub word: String,
    pub score: usize,
}

impl View for WordScore {
    type V = (Seq<char>, int);

    open spec fn view(&self) -> (Seq<char>, int) {
        (self.word@, self.score as int)
    }
}

impl DeepView for WordScore {
    type V = (Seq<char>, int);

    open spec fn deep_view(&self) -> (Seq<char>, int) {
        self.view()
    }
}

impl WordScore {
    /// Scores a word against a table: collects the word's distinct letters
    /// in a bit set, then sums their counts, saturating at the machine's
    /// limit.
    pub fn calc_score(word: &str, char_freq: &CharFreq) -> (score: usize)
        ensures
            score as int == sat_score(char_freq@, word@),
    {
        let w = chars_of(word);
        let mut s = SlotSet::new();
        let mut i: usize = 0;
        while i < w.len()
            invariant
                w@ == word@,
                i <= w@.len(),
                slot_set_elems(s) == word_letter_set(w@.take(i as int)),
            decreases w@.len() - i,
        {
            let c = char_at(&w, i);
            let ghost pre = slot_set_elems(s);
            match crate::chars::slot_of_char(c) {
                Some(slot) => {
                    s.insert(slot as usize);
                    proof {
                        assert(slot_set_elems(s) =~= word_letter_set(w@.take(i + 1))) by {
                            assert forall|l: int|
                                word_letter_set(w@.take(i + 1)).contains(l) implies pre.insert(
                                letter_slot(c),
                            ).contains(l) by {
                                let j = choose|j: int|
                                    0 <= j < w@.take(i + 1).len() && is_ascii_letter(
                                        #[trigger] w@.take(i + 1)[j],
                                    ) && letter_slot(w@.take(i + 1)[j]) == l;
                                if j < i {
                                    assert(w@.take(i as int)[j] == w@.take(i + 1)[j]);
                                    assert(word_letter_set(w@.take(i as int)).contains(l));
                                }
                            }
                            assert forall|l: int|
                                pre.insert(letter_slot(c)).contains(l) implies word_letter_set(
                                w@.take(i + 1),
                            ).contains(l) by {
                                if l == letter_slot(c) {
                                    assert(w@.take(i + 1)[i as int] == c);
                                } else {
                                    let j = choose|j: int|
                                        0 <= j < w@.take(i as int).len() && is_ascii_letter(
                                            #[trigger] w@.take(i as int)[j],
                                        ) && letter_slot(w@.take(i as int)[j]) == l;
                                    assert(w@.take(i + 1)[j] == w@.take(i as int)[j]);
                                }
                            }
                        }
                    }
                },
                None => {
                    proof {
                        assert(slot_set_elems(s) =~= word_letter_set(w@.take(i + 1))) by {
                            assert forall|l: int|
                                word_letter_set(w@.take(i + 1)).contains(l) implies pre.contains(
                                l,
                            ) by {
                                let j = choose|j: int|
                                    0 <= j < w@.take(i + 1).len() && is_ascii_letter(
                                        #[trigger] w@.take(i + 1)[j],
                                    ) && letter_slot(w@.take(i + 1)[j]) == l;
                                assert(j < i);
                                assert(w@.take(i as int)[j] == w@.take(i + 1)[j]);
                                assert(word_letter_set(w@.take(i as int)).contains(l));
                            }
                            assert forall|l: int|
                                pre.contains(l) implies word_letter_set(w@.take(i + 1)).contains(
                                l,
                            ) by {
                                let j = choose|j: int|
                                    0 <= j < w@.take(i as int).len() && is_ascii_letter(
                                        #[trigger] w@.take(i as int)[j],
                                    ) && letter_slot(w@.take(i as int)[j]) == l;
                                assert(w@.take(i + 1)[j] == w@.take(i as int)[j]);
                            }
                        }
                    }
                },
            }
            i = i + 1;
        }
        proof {
            assert(w@.take(w@.len() as int) =~= w@);
        }

        let ghost ls = word_letter_set(word@);
        let mut total: usize = 0;
        let mut l: usize = 0;
        while l < 26
            invariant
                slot_set_elems(s) == ls,
                ls == word_letter_set(word@),
                l <= 26,
                score_upto(char_freq@, ls, l as int) <= usize::MAX ==> total as int == score_upto(
                    char_freq@,
                    ls,
                    l as int,
                ),
                score_upto(char_freq@, ls, l as int) > usize::MAX ==> total == usize::MAX,
            decreases 26 - l,
        {
            if s.contains(l) {
                let letter = char_of_slot(l as u8);
                let c = char_freq.get_freq(letter);
                proof {
                    lemma_score_upto_nonneg(char_freq@, ls, l as int);
                    assert(score_upto(char_freq@, ls, l + 1) == score_upto(char_freq@, ls, l as int)
                        + c);
                }
                total = total.saturating_add(c);
            } else {
                proof {
                    assert(score_upto(char_freq@, ls, l + 1) == score_upto(
                        char_freq@,
                        ls,
                        l as int,
                    ));
                }
            }
            l = l + 1;
        }
        total
    }

    /// Builds a scored word: the word itself and its score against the table.
    pub fn new(word: String, char_freq: &CharFreq) -> (ws: WordScore)
        ensures
            ws.word@ == word@,
            ws.score as int == sat_score(char_freq@, word@),
    {
        let score = WordScore::calc_score(word.as_str(), char_freq);
        WordScore { word, score }
    }

    /// Whether this scored word ranks at or below another in the selection
    /// order.
    pub fn ranks_le(&self, other: &WordScore) -> (r: bool)
        ensures
            r == ws_leq(self@, other@),
    {
        if self.score < other.score {
            true
        } else if self.score > other.score {
            false
        } else {
            let a = chars_of(other.word.as_str());
            let b = chars_of(self.word.as_str());
            crate::chars::lex_leq_vecs(&a, &b)
        }
    }
}

} // verus!
