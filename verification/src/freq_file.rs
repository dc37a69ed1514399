use vstd::prelude::*;

use crate::chars::letter_slot;
use crate::chars::slot_letter;
use crate::chars::string_from_chars;
use crate::freq::ranked_le;
use crate::freq::CharFreq;

verus! {

/// True for the ASCII decimal digits.
pub open spec fn is_digit(c: char) -> bool {
    '0' <= c && c <= '9'
}

/// Numeric value of one decimal digit.
pub open spec fn digit_val(c: char) -> int {
    c as int - '0' as int
}

/// The digit character for a value in `0..10`.
pub open spec fn digit_char(d: int) -> char {
    ('0' as int + d) as char
}

/// Value of a digit string, most significant digit first.
pub open spec fn digits_value(s: Seq<char>) -> int
    decreases s.len(),
{
    if s.len() == 0 {
        0
    } else {
        digits_value(s.drop_last()) * 10 + digit_val(s.last())
    }
}

/// The decimal digit string of a number, without leading zeros (except for
/// the number zero itself).
pub open spec fn spec_digits(n: nat) -> Seq<char>
    decreases n,
{
    if n < 10 {
        seq![digit_char(n as int)]
    } else {
        spec_digits(n / 10).push(digit_char((n % 10) as int))
    }
}

/// What one line of the frequency file means: exactly a lower-case letter,
/// a colon, and one or more digits. Anything else means nothing.
pub open spec fn parse_freq_line(s: Seq<char>) -> Option<(char, int)> {
    if s.len() >= 3 && 'a' <= s[0] && s[0] <= 'z' && s[1] == ':' && (forall|i: int|
        2 <= i < s.len() ==> is_digit(#[trigger] s[i])) {
        Some((s[0], digits_value(s.skip(2))))
    } else {
        None
    }
}

/// The line written for one letter and its count.
pub open spec fn render_freq_line(letter: char, count: nat) -> Seq<char> {
    seq![letter, ':'] + spec_digits(count)
}

/// The table after one line has been read: a meaningful line whose count
/// fits the machine overwrites its letter's count, any other line changes
/// nothing.
pub open spec fn applied_line(counts: Seq<usize>, line: Seq<char>) -> Seq<usize> {
    match parse_freq_line(line) {
        Some((c, v)) => if v <= usize::MAX as int {
            counts.update(letter_slot(c), v as usize)
        } else {
            counts
        },
        None => counts,
    }
}

/// The table after a whole file has been read, line by line.
pub open spec fn applied_lines(counts: Seq<usize>, lines: Seq<Seq<char>>) -> Seq<usize>
    decreases lines.len(),
{
    if lines.len() == 0 {
        counts
    } else {
        applied_lines(applied_line(counts, lines[0]), lines.drop_first())
    }
}

/// Reading one more line at the end of a file is reading the file, then
/// that line.
pub proof fn lemma_applied_lines_snoc(counts: Seq<usize>, lines: Seq<Seq<char>>, line: Seq<char>)
    ensures
        applied_lines(counts, lines.push(line)) == applied_line(
            applied_lines(counts, lines),
            line,
        ),
    decreases lines.len(),
{
    if lines.len() == 0 {
        assert(lines.push(line).drop_first() =~= Seq::<Seq<char>>::empty());
        assert(lines.push(line)[0] == line);
        assert(applied_lines(counts, lines.push(line)) == applied_lines(
            applied_line(counts, line),
            Seq::<Seq<char>>::empty(),
        ));
        assert(applied_lines(applied_line(counts, line), Seq::<Seq<char>>::empty())
            == applied_line(counts, line));
        assert(applied_lines(counts, lines) == counts);
    } else {
        assert(lines.push(line).drop_first() =~= lines.drop_first().push(line));
        assert(lines.push(line)[0] == lines[0]);
        lemma_applied_lines_snoc(applied_line(counts, lines[0]), lines.drop_first(), line);
        assert(applied_lines(counts, lines.push(line)) == applied_lines(
            applied_line(counts, lines[0]),
            lines.drop_first().push(line),
        ));
        assert(applied_lines(counts, lines) == applied_lines(
            applied_line(counts, lines[0]),
            lines.drop_first(),
        ));
    }
}

/// The digit character of a small value reads back as that value.
pub proof fn lemma_digit_char_val(d: int)
    requires
        0 <= d < 10,
    ensures
        digit_val(digit_char(d)) == d,
        is_digit(digit_char(d)),
{
    assert(digit_char(d) as int == '0' as int + d);
}

/// The digit string of a number is made of digits, and reads back as the
/// number itself.
pub proof fn lemma_digits_round_trip(n: nat)
    ensures
        spec_digits(n).len() >= 1,
        forall|i: int| 0 <= i < spec_digits(n).len() ==> is_digit(#[trigger] spec_digits(n)[i]),
        digits_value(spec_digits(n)) == n,
    decreases n,
{
    if n < 10 {
        lemma_digit_char_val(n as int);
        assert(spec_digits(n) =~= seq![digit_char(n as int)]);
        assert(spec_digits(n).drop_last() =~= Seq::<char>::empty());
        assert(spec_digits(n).last() == digit_char(n as int));
        assert(digits_value(spec_digits(n)) == digits_value(spec_digits(n).drop_last()) * 10
            + digit_val(spec_digits(n).last()));
        assert(digits_value(spec_digits(n).drop_last()) == 0);
        assert(digits_value(spec_digits(n)) == n);
    } else {
        lemma_digits_round_trip(n / 10);
        lemma_digit_char_val((n % 10) as int);
        assert(spec_digits(n).drop_last() =~= spec_digits(n / 10));
        assert(spec_digits(n).last() == digit_char((n % 10) as int));
        assert(digits_value(spec_digits(n)) == (n / 10) * 10 + n % 10);
        assert(n / 10 * 10 + n % 10 == n) by (nonlinear_arith);
    }
}

/// A rendered line parses back to the letter and count it was written from.
pub proof fn lemma_parse_render_round_trip(letter: char, count: nat)
    requires
        'a' <= letter && letter <= 'z',
    ensures
        parse_freq_line(render_freq_line(letter, count)) == Some((letter, count as int)),
{
    lemma_digits_round_trip(count);
    let s = render_freq_line(letter, count);
    assert(s.skip(2) =~= spec_digits(count));
    assert(forall|i: int| 2 <= i < s.len() ==> is_digit(#[trigger] s[i])) by {
        assert(forall|i: int|
            2 <= i < s.len() ==> #[trigger] s[i] == spec_digits(count)[i - 2]);
    }
}

/// Appends the decimal digits of a number, most significant first.
fn push_digits(n: usize, out: &mut Vec<char>)
    ensures
        final(out)@ == old(out)@ + spec_digits(n as nat),
    decreases n,
{
    if n < 10 {
        let d = n as u32;
        let c = (48 + d as u8) as char;
        proof {
            assert(c == digit_char(n as int));
        }
        out.push(c);
        proof {
            assert(final(out)@ =~= old(out)@ + spec_digits(n as nat));
        }
    } else {
        push_digits(n / 10, out);
        let d = (n % 10) as u32;
        let c = (48 + d as u8) as char;
        proof {
            assert(c == digit_char((n % 10) as int));
        }
        out.push(c);
        proof {
            assert(final(out)@ =~= old(out)@ + spec_digits(n as nat));
        }
    }
}

/// Renders one line of the frequency file for a letter and its count.
pub fn render_line(letter: char, count: usize) -> (s: String)
    ensures
        s@ == render_freq_line(letter, count as nat),
{
    let mut v: Vec<char> = Vec::new();
    v.push(letter);
    v.push(':');
    push_digits(count, &mut v);
    proof {
        assert(v@ =~= render_freq_line(letter, count as nat));
    }
    string_from_chars(&v)
}

impl CharFreq {
    /// Writes the whole table as frequency-file lines: one line per letter,
    /// all 26 letters, in the ranked order of `to_vec`.
    pub fn save_lines(&self) -> (r: Vec<String>)
        ensures
            r.deep_view().len() == 26,
            forall|l: int|
                0 <= l < 26 ==> r.deep_view().contains(
                    render_freq_line(slot_letter(l), self@[l] as nat),
                ),
            forall|i: int|
                #![trigger r.deep_view()[i]]
                0 <= i < 26 ==> {
                    let line = r.deep_view()[i];
                    'a' <= line[0] <= 'z' && line == render_freq_line(
                        line[0],
                        self@[letter_slot(line[0])] as nat,
                    )
                },
            forall|i: int, j: int|
                #![trigger r.deep_view()[i], r.deep_view()[j]]
                0 <= i < j < 26 ==> ranked_le(
                    (r.deep_view()[i][0], self@[letter_slot(r.deep_view()[i][0])]),
                    (r.deep_view()[j][0], self@[letter_slot(r.deep_view()[j][0])]),
                ),
    {
        let list = self.to_vec();
        let mut r: Vec<String> = Vec::new();
        let mut i: usize = 0;
        while i < list.len()
            invariant
                list@.len() == 26,
                forall|l: int|
                    0 <= l < 26 ==> list@.contains(
                        crate::freq::freq_entry(self@, l),
                    ),
                forall|k: int|
                    #![trigger list@[k]]
                    0 <= k < 26 ==> 'a' <= list@[k].0 <= 'z' && list@[k].1 == self@[letter_slot(
                        list@[k].0,
                    )],
                forall|k: int, m: int| 0 <= k < m < 26 ==> ranked_le(list@[k], list@[m]),
                i <= 26,
                r.deep_view().len() == i,
                forall|k: int|
                    #![trigger r.deep_view()[k]]
                    0 <= k < i ==> r.deep_view()[k] == render_freq_line(
                        list@[k].0,
                        list@[k].1 as nat,
                    ),
            decreases 26 - i,
        {
            let pair = pair_at(&list, i);
            let line = render_line(pair.0, pair.1);
            let ghost dv0 = r.deep_view();
            r.push(line);
            proof {
                assert(r.deep_view() =~= dv0.push(line@));
            }
            i = i + 1;
        }
        proof {
            let lv = r.deep_view();
            assert forall|l: int| 0 <= l < 26 implies lv.contains(
                render_freq_line(slot_letter(l), self@[l] as nat),
            ) by {
                let k = choose|k: int|
                    0 <= k < list@.len() && list@[k] == crate::freq::freq_entry(self@, l);
                assert(lv[k] == render_freq_line(slot_letter(l), self@[l] as nat));
            }
            assert forall|i0: int| #![trigger lv[i0]] 0 <= i0 < 26 implies {
                let line = lv[i0];
                'a' <= line[0] <= 'z' && line == render_freq_line(
                    line[0],
                    self@[letter_slot(line[0])] as nat,
                )
            } by {
                assert(lv[i0] == render_freq_line(list@[i0].0, list@[i0].1 as nat));
                assert(lv[i0][0] == list@[i0].0);
            }
            assert forall|i0: int, j0: int|
                #![trigger lv[i0], lv[j0]]
                0 <= i0 < j0 < 26 implies ranked_le(
                (lv[i0][0], self@[letter_slot(lv[i0][0])]),
                (lv[j0][0], self@[letter_slot(lv[j0][0])]),
            ) by {
                assert(lv[i0][0] == list@[i0].0 && lv[j0][0] == list@[j0].0);
                assert(ranked_le(list@[i0], list@[j0]));
            }
        }
        r
    }
}

/// Reads one listed pair of the ranked listing.
fn pair_at(list: &Vec<(char, usize)>, i: usize) -> (p: (char, usize))
    requires
        i < list@.len(),
    ensures
        p == list@[i as int],
{
    list[i]
}

/// Whether some line of a file names the letter of a slot.
pub open spec fn has_line_for(lines: Seq<Seq<char>>, l: int) -> bool {
    exists|i: int|
        0 <= i < lines.len() && lines[i].len() >= 1 && 'a' <= lines[i][0] <= 'z' && letter_slot(
            lines[i][0],
        ) == l
}

/// What loading a complete rendering does: every slot that some line names
/// is overwritten with the rendered count, every other slot keeps its prior
/// value.
pub proof fn lemma_load_effect(t: Seq<usize>, lines: Seq<Seq<char>>, counts: Seq<usize>)
    requires
        t.len() == 26,
        counts.len() == 26,
        forall|i: int|
            #![trigger lines[i]]
            0 <= i < lines.len() ==> lines[i].len() >= 1 && 'a' <= lines[i][0] <= 'z'
                && lines[i] == render_freq_line(
                lines[i][0],
                counts[letter_slot(lines[i][0])] as nat,
            ),
    ensures
        applied_lines(t, lines).len() == 26,
        forall|l: int|
            0 <= l < 26 ==> applied_lines(t, lines)[l] == if has_line_for(lines, l) {
                counts[l]
            } else {
                t[l]
            },
    decreases lines.len(),
{
    if lines.len() == 0 {
        assert(forall|l: int| 0 <= l < 26 ==> !has_line_for(lines, l));
    } else {
        let first = lines[0];
        let c = first[0];
        let sc = letter_slot(c);
        lemma_parse_render_round_trip(c, counts[sc] as nat);
        assert(parse_freq_line(first) == Some((c, counts[sc] as int)));
        let t1 = applied_line(t, first);
        assert(t1 =~= t.update(sc, counts[sc]));
        let rest = lines.drop_first();
        assert(forall|i: int|
            #![trigger rest[i]]
            0 <= i < rest.len() ==> rest[i] == lines[i + 1]);
        lemma_load_effect(t1, rest, counts);
        assert forall|l: int| 0 <= l < 26 implies applied_lines(t, lines)[l] == (
        if has_line_for(lines, l) {
            counts[l]
        } else {
            t[l]
        }) by {
            assert(applied_lines(t, lines) == applied_lines(t1, rest));
            if has_line_for(rest, l) {
                let i = choose|i: int|
                    0 <= i < rest.len() && rest[i].len() >= 1 && 'a' <= rest[i][0] <= 'z'
                        && letter_slot(rest[i][0]) == l;
                assert(lines[i + 1] == rest[i]);
                assert(has_line_for(lines, l));
            } else if l == sc {
                assert(has_line_for(lines, l));
            } else {
                if has_line_for(lines, l) {
                    let i = choose|i: int|
                        0 <= i < lines.len() && lines[i].len() >= 1 && 'a' <= lines[i][0] <= 'z'
                            && letter_slot(lines[i][0]) == l;
                    assert(i != 0);
                    assert(rest[i - 1] == lines[i]);
                    assert(has_line_for(rest, l));
                }
            }
        }
    }
}

/// Saving a table and loading the file back restores every count, whatever
/// the table held before the load: the file names all 26 letters.
pub proof fn lemma_save_load_round_trip(init: Seq<usize>, counts: Seq<usize>, lines: Seq<Seq<char>>)
    requires
        init.len() == 26,
        counts.len() == 26,
        forall|l: int|
            0 <= l < 26 ==> lines.contains(render_freq_line(slot_letter(l), counts[l] as nat)),
        forall|i: int|
            #![trigger lines[i]]
            0 <= i < lines.len() ==> lines[i].len() >= 1 && 'a' <= lines[i][0] <= 'z'
                && lines[i] == render_freq_line(
                lines[i][0],
                counts[letter_slot(lines[i][0])] as nat,
            ),
    ensures
        applied_lines(init, lines) == counts,
{
    lemma_load_effect(init, lines, counts);
    assert forall|l: int| 0 <= l < 26 implies has_line_for(lines, l) by {
        let i = choose|i: int|
            0 <= i < lines.len() && lines[i] == render_freq_line(slot_letter(l), counts[l] as nat);
        assert(lines[i][0] == slot_letter(l));
        assert(letter_slot(slot_letter(l)) == l);
    }
    assert(applied_lines(init, lines) =~= counts);
}

} // verus!
