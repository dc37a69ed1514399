use vstd::prelude::*;

use crate::chars::char_at;
use crate::chars::char_of_slot;
use crate::chars::chars_of;
use crate::chars::is_ascii_letter;
use crate::chars::letter_slot;
use crate::chars::slot_letter;
use crate::chars::slot_of_char;
use crate::freq_file::applied_line;
use crate::freq_file::applied_lines;
use crate::freq_file::is_digit;
use crate::freq_file::parse_freq_line;
use crate::freq_file::digits_value;
use crate::freq_file::lemma_applied_lines_snoc;

verus! {

/// Ranking order on `(letter, count)` pairs: by count descending, ties broken
/// by letter ascending ('b' before 'c' among equal counts).
pub open spec fn ranked_le(a: (char, usize), b: (char, usize)) -> bool {
    a.1 > b.1 || (a.1 == b.1 && a.0 as int <= b.0 as int)
}

/// The pair listed for a slot: its lower-case letter and its count.
pub open spec fn freq_entry(counts: Seq<usize>, l: int) -> (char, usize) {
    (slot_letter(l), counts[l])
}

fn ranked_le_exec(a: &(char, usize), b: &(char, usize)) -> (r: bool)
    ensures
        r == ranked_le(*a, *b),
{
    a.1 > b.1 || (a.1 == b.1 && a.0 <= b.0)
}

/// How many characters of a sequence fold to the lower-case letter of a slot.
pub open spec fn letter_count(s: Seq<char>, l: int) -> nat {
    s.filter(|c: char| is_ascii_letter(c) && letter_slot(c) == l).len()
}

/// A 26-slot table of letter counts, indexed by the lower-case letters.
pub struct CharFreq {
    counts: Vec<usize>,
}

impl View for CharFreq {
    type V = Seq<usize>;

    closed spec fn view(&self) -> Seq<usize> {
        self.counts@
    }
}

/// Scan of the insertion loop of `to_vec`: keeps walking while the listed
/// pair at `p` still ranks at or before the new pair.
fn scan_keeps_going(r: &Vec<(char, usize)>, p: usize, e: &(char, usize)) -> (b: bool)
    requires
        p <= r@.len(),
    ensures
        b == (p < r@.len() && ranked_le(r@[p as int], *e)),
{
    p < r.len() && ranked_le_exec(&r[p], e)
}

impl CharFreq {
    #[verifier::type_invariant]
    spec fn type_inv(self) -> bool {
        self.counts@.len() == 26
    }

    /// A fresh table: all 26 counts are zero.
    pub fn new() -> (cf: CharFreq)
        ensures
            cf@.len() == 26,
            forall|l: int| 0 <= l < 26 ==> cf@[l] == 0,
    {
        let mut counts: Vec<usize> = Vec::new();
        let mut i: usize = 0;
        while i < 26
            invariant
                counts@.len() == i,
                i <= 26,
                forall|l: int| 0 <= l < i ==> counts@[l] == 0,
            decreases 26 - i,
        {
            counts.push(0);
            i = i + 1;
        }
        CharFreq { counts }
    }

    pub(crate) fn set_count(&mut self, slot: usize, v: usize)
        requires
            slot < old(self)@.len(),
        ensures
            final(self)@ == old(self)@.update(slot as int, v),
    {
        proof {
            use_type_invariant(&*self);
        }
        self.counts[slot] = v;
    }

    fn count_at(&self, i: usize) -> (c: usize)
        requires
            i < self@.len(),
        ensures
            c == self@[i as int],
    {
        self.counts[i]
    }

    /// Counts one more occurrence of an ASCII letter, folded to lower case;
    /// any other character is ignored.
    pub fn add_char(&mut self, c: char)
        requires
            is_ascii_letter(c) ==> old(self)@[letter_slot(c)] < usize::MAX,
        ensures
            is_ascii_letter(c) ==> final(self)@ == old(self)@.update(
                letter_slot(c),
                (old(self)@[letter_slot(c)] + 1) as usize,
            ),
            !is_ascii_letter(c) ==> final(self)@ == old(self)@,
    {
        proof {
            use_type_invariant(&*self);
        }
        match slot_of_char(c) {
            Some(s) => {
                let idx = s as usize;
                let v = self.counts[idx];
                self.counts[idx] = v + 1;
            },
            None => {},
        }
    }

    /// Builds a table by scanning a corpus character by character: every
    /// ASCII letter is counted under its lower-case form, everything else is
    /// ignored.
    pub fn from_corpus(text: &str) -> (cf: CharFreq)
        ensures
            cf@.len() == 26,
            forall|l: int| 0 <= l < 26 ==> cf@[l] == letter_count(text@, l),
    {
        broadcast use Seq::lemma_filter_push;
        broadcast use Seq::lemma_filter_len;

        let w = chars_of(text);
        let mut cf = CharFreq::new();
        let mut i: usize = 0;
        while i < w.len()
            invariant
                w@ == text@,
                i <= w@.len(),
                cf@.len() == 26,
                forall|l: int| 0 <= l < 26 ==> cf@[l] == letter_count(w@.take(i as int), l),
            decreases w@.len() - i,
        {
            let c = char_at(&w, i);
            proof {
                if is_ascii_letter(c) {
                    assert(letter_count(w@.take(i as int), letter_slot(c)) <= w@.take(
                        i as int,
                    ).len());
                }
            }
            let ghost pre = cf@;
            cf.add_char(c);
            proof {
                assert(w@.take(i + 1) =~= w@.take(i as int).push(w@[i as int]));
                assert forall|l: int| 0 <= l < 26 implies cf@[l] == letter_count(
                    w@.take(i + 1),
                    l,
                ) by {
                    w@.take(i as int).lemma_filter_push(
                        c,
                        |x: char| is_ascii_letter(x) && letter_slot(x) == l,
                    );
                }
            }
            i = i + 1;
        }
        proof {
            assert(w@.take(w@.len() as int) =~= w@);
        }
        cf
    }

    /// The count recorded for an ASCII letter, folded to lower case; zero for
    /// any other character.
    pub fn get_freq(&self, c: char) -> (r: usize)
        ensures
            is_ascii_letter(c) ==> r == self@[letter_slot(c)],
            !is_ascii_letter(c) ==> r == 0,
    {
        proof {
            use_type_invariant(&*self);
        }
        match slot_of_char(c) {
            Some(s) => self.counts[s as usize],
            None => 0,
        }
    }

    /// Lists all 26 `(letter, count)` pairs, ordered by count descending with
    /// ties broken by letter ascending. The listing holds exactly one pair
    /// per letter, carrying that letter's count.
    pub fn to_vec(&self) -> (r: Vec<(char, usize)>)
        ensures
            r@.len() == 26,
            forall|l: int| 0 <= l < 26 ==> r@.contains(freq_entry(self@, l)),
            forall|i: int|
                #![trigger r@[i]]
                0 <= i < r@.len() ==> 'a' <= r@[i].0 <= 'z' && r@[i].1 == self@[letter_slot(
                    r@[i].0,
                )],
            forall|i: int, j: int| 0 <= i < j < r@.len() ==> r@[i].0 != r@[j].0,
            forall|i: int, j: int| 0 <= i < j < r@.len() ==> ranked_le(r@[i], r@[j]),
    {
        proof {
            use_type_invariant(&*self);
            assert(forall|s: int| 0 <= s < 26 ==> (#[trigger] slot_letter(s)) as int == 97 + s);
        }
        let mut r: Vec<(char, usize)> = Vec::new();
        let mut l: usize = 0;
        while l < 26
            invariant
                self@.len() == 26,
                l <= 26,
                r@.len() == l,
                forall|s: int| 0 <= s < l ==> r@.contains(freq_entry(self@, s)),
                forall|i: int|
                    #![trigger r@[i]]
                    0 <= i < r@.len() ==> 'a' <= r@[i].0 <= 'z' && r@[i].1 == self@[letter_slot(
                        r@[i].0,
                    )] && letter_slot(r@[i].0) < l,
                forall|i: int, j: int| 0 <= i < j < r@.len() ==> r@[i].0 != r@[j].0,
                forall|i: int, j: int| 0 <= i < j < r@.len() ==> ranked_le(r@[i], r@[j]),
            decreases 26 - l,
        {
            let letter = char_of_slot(l as u8);
            let cnt = self.count_at(l);
            let e = (letter, cnt);
            proof {
                assert(e == freq_entry(self@, l as int));
            }

            let mut p: usize = 0;
            while scan_keeps_going(&r, p, &e)
                invariant
                    r@.len() <= 26,
                    p <= r@.len(),
                    forall|q: int| 0 <= q < p ==> ranked_le(r@[q], e),
                decreases r@.len() - p,
            {
                p = p + 1;
            }

            let ghost r0 = r@;
            r.insert(p, e);
            proof {
                r0.insert_ensures(p as int, e);
                assert(forall|s: int| 0 <= s < 26 ==> (#[trigger] slot_letter(s)) as int == 97
                    + s);
                // every slot seen so far is still listed
                assert forall|s: int| 0 <= s < l + 1 implies r@.contains(freq_entry(self@, s)) by {
                    if s < l {
                        let idx = choose|idx: int|
                            0 <= idx < r0.len() && r0[idx] == freq_entry(self@, s);
                        if idx < p {
                            assert(r@[idx] == freq_entry(self@, s));
                        } else {
                            assert(r@[idx + 1] == freq_entry(self@, s));
                        }
                    } else {
                        assert(r@[p as int] == freq_entry(self@, s));
                    }
                }
                // every listed pair carries its own letter's count, for a
                // slot handled so far
                assert forall|i: int| #![trigger r@[i]] 0 <= i < r@.len() implies 'a' <= r@[i].0
                    <= 'z' && r@[i].1 == self@[letter_slot(r@[i].0)] && letter_slot(r@[i].0) < l
                    + 1 by {
                    if i < p {
                        assert(r@[i] == r0[i]);
                    } else if i == p {
                        assert(r@[i] == freq_entry(self@, l as int));
                    } else {
                        assert(r@[i] == r0[i - 1]);
                    }
                }
                // letters stay pairwise distinct
                assert forall|i: int, j: int| 0 <= i < j < r@.len() implies r@[i].0 != r@[j].0 by {
                    if j == p || i == p {
                        let k = if i == p {
                            j
                        } else {
                            i
                        };
                        let k0 = if k < p {
                            k
                        } else {
                            k - 1
                        };
                        assert(r@[k] == r0[k0]);
                        assert(letter_slot(r0[k0].0) < l);
                        assert(r@[p as int].0 == slot_letter(l as int));
                        assert(letter_slot(slot_letter(l as int)) == l as int);
                    } else {
                        let i0 = if i < p {
                            i
                        } else {
                            i - 1
                        };
                        let j0 = if j < p {
                            j
                        } else {
                            j - 1
                        };
                        assert(r@[i] == r0[i0] && r@[j] == r0[j0]);
                    }
                }
                // the listing stays ordered
                assert forall|i: int, j: int| 0 <= i < j < r@.len() implies ranked_le(
                    r@[i],
                    r@[j],
                ) by {
                    if i == p {
                        assert(r@[j] == r0[j - 1]);
                        assert(!(p < r0.len() && ranked_le(r0[p as int], e)));
                        if j - 1 > p {
                            assert(ranked_le(r0[p as int], r0[j - 1]));
                        }
                    } else if j == p {
                        assert(r@[i] == r0[i]);
                        assert(ranked_le(r0[i], e));
                    } else {
                        let i0 = if i < p {
                            i
                        } else {
                            i - 1
                        };
                        let j0 = if j < p {
                            j
                        } else {
                            j - 1
                        };
                        assert(r@[i] == r0[i0] && r@[j] == r0[j0]);
                        if i0 < j0 {
                            assert(ranked_le(r0[i0], r0[j0]));
                        }
                    }
                }
            }
            l = l + 1;
        }
        r
    }
}


impl CharFreq {
    /// Reads one line of the frequency file: a line of the exact shape
    /// `letter:count` overwrites that letter's count (when the count fits
    /// the machine), any other line is ignored.
    pub fn load_line(&mut self, line: &str)
        ensures
            final(self)@ == applied_line(old(self)@, line@),
    {
        let w = chars_of(line);
        if w.len() < 3 {
            return ;
        }
        let c0 = char_at(&w, 0);
        if !('a' <= c0 && c0 <= 'z') {
            return ;
        }
        let c1 = char_at(&w, 1);
        if c1 != ':' {
            return ;
        }

        // check the digits and accumulate their value, watching for overflow
        let mut i: usize = 2;
        let mut acc: usize = 0;
        let mut too_big: bool = false;
        while i < w.len()
            invariant
                2 <= i <= w@.len(),
                w@ == line@,
                forall|j: int| 2 <= j < i ==> is_digit(#[trigger] w@[j]),
                !too_big ==> acc as int == digits_value(w@.skip(2).take(i - 2)),
                too_big ==> digits_value(w@.skip(2).take(i - 2)) > usize::MAX as int,
            decreases w@.len() - i,
        {
            let c = char_at(&w, i);
            if !('0' <= c && c <= '9') {
                return ;
            }
            let d = (c as u32 - '0' as u32) as usize;
            proof {
                assert(w@.skip(2).take(i - 2 + 1).drop_last() =~= w@.skip(2).take(i - 2));
                assert(w@.skip(2).take(i - 2 + 1).last() == w@[i as int]);
            }
            if too_big {
            } else if acc > usize::MAX / 10 {
                proof {
                    assert(acc * 10 + d > usize::MAX) by (nonlinear_arith)
                        requires
                            acc > usize::MAX / 10,
                            d >= 0,
                            usize::MAX >= 10,
                    ;
                }
                too_big = true;
            } else {
                proof {
                    assert(acc * 10 <= (usize::MAX / 10) * 10) by (nonlinear_arith)
                        requires
                            acc <= usize::MAX / 10,
                    ;
                }
                let shifted = acc * 10;
                if shifted > usize::MAX - d {
                    proof {
                        assert(shifted + d > usize::MAX);
                    }
                    too_big = true;
                } else {
                    acc = shifted + d;
                }
            }
            i = i + 1;
        }

        proof {
            assert(w@.skip(2).take(w@.len() - 2) =~= w@.skip(2));
            assert(parse_freq_line(line@) == Some((w@[0], digits_value(w@.skip(2)))));
        }
        if too_big {
            return ;
        }
        let slot = (c0 as u32 - 'a' as u32) as usize;
        proof {
            use_type_invariant(&*self);
            assert(slot == letter_slot(c0));
        }
        self.set_count(slot, acc);
    }

    /// Reads a whole frequency file, given as its lines, in order.
    pub fn load_lines(&mut self, lines: &Vec<String>)
        ensures
            final(self)@ == applied_lines(old(self)@, lines.deep_view()),
    {
        let ghost ls = lines.deep_view();
        let mut i: usize = 0;
        while i < lines.len()
            invariant
                i <= ls.len(),
                ls == lines.deep_view(),
                self@ == applied_lines(old(self)@, ls.take(i as int)),
            decreases ls.len() - i,
        {
            proof {
                assert(ls.take(i + 1) =~= ls.take(i as int).push(ls[i as int]));
                lemma_applied_lines_snoc(old(self)@, ls.take(i as int), ls[i as int]);
                assert(ls[i as int] == lines@[i as int]@);
            }
            self.load_line(lines[i].as_str());
            i = i + 1;
        }
        proof {
            assert(ls.take(ls.len() as int) =~= ls);
        }
    }

    /// Builds a table from the lines of a frequency file, starting from all
    /// zeros: exactly what reading the file into a freshly created table gives.
    pub fn from_lines(lines: &Vec<String>) -> (cf: CharFreq)
        ensures
            cf@ == applied_lines(Seq::new(26, |l: int| 0usize), lines.deep_view()),
    {
        let mut cf = CharFreq::new();
        proof {
            assert(cf@ =~= Seq::new(26, |l: int| 0usize));
        }
        cf.load_lines(lines);
        cf
    }
}

} // verus!
