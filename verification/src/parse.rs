use vstd::prelude::*;

use crate::chars::char_at;
use crate::chars::chars_of;
use crate::filter::CharPosition;

verus! {

/// The constraint entries contributed by one five-character pattern, read
/// from index `i` on: each non-wildcard character paired with its index.
pub open spec fn pattern_entries(s: Seq<char>, i: int) -> Seq<(char, int)>
    decreases s.len() - i,
{
    if i < 0 || i >= s.len() {
        Seq::empty()
    } else if s[i] == '*' {
        pattern_entries(s, i + 1)
    } else {
        seq![(s[i], i)] + pattern_entries(s, i + 1)
    }
}

/// The entries contributed by a list of patterns, from pattern `i` on:
/// each five-character pattern contributes its entries, any other string
/// contributes nothing.
pub open spec fn multi_pattern_entries(ts: Seq<Seq<char>>, i: int) -> Seq<(char, int)>
    decreases ts.len() - i,
{
    if i < 0 || i >= ts.len() {
        Seq::empty()
    } else if ts[i].len() == 5 {
        pattern_entries(ts[i], 0) + multi_pattern_entries(ts, i + 1)
    } else {
        multi_pattern_entries(ts, i + 1)
    }
}

/// Parses one required-position pattern. A five-character string yields one
/// entry per non-wildcard character; any other length yields no entries.
pub fn parse_char_position(target: String) -> (r: Vec<CharPosition>)
    ensures
        target@.len() == 5 ==> r.deep_view() == pattern_entries(target@, 0),
        target@.len() != 5 ==> r@ == Seq::<CharPosition>::empty(),
{
    let w = chars_of(target.as_str());
    let mut r: Vec<CharPosition> = Vec::new();

    if w.len() != 5 {
        proof {
            assert(r@ =~= Seq::<CharPosition>::empty());
        }
        return r;
    }
    let mut i: usize = 0;
    while i < w.len()
        invariant
            0 <= i <= w@.len(),
            w@ == target@,
            pattern_entries(target@, 0) =~= r.deep_view() + pattern_entries(target@, i as int),
        decreases w@.len() - i,
    {
        let c = char_at(&w, i);
        let ghost dv0 = r.deep_view();
        if c != '*' {
            r.push(CharPosition { letter: c, position: i });
            proof {
                assert(r.deep_view() =~= dv0 + seq![(c, i as int)]);
                assert(pattern_entries(target@, i as int) == seq![(c, i as int)]
                    + pattern_entries(target@, i + 1));
                assert(r.deep_view() + pattern_entries(target@, i + 1) =~= dv0 + pattern_entries(
                    target@,
                    i as int,
                ));
            }
        } else {
            proof {
                assert(pattern_entries(target@, i as int) == pattern_entries(target@, i + 1));
            }
        }
        i = i + 1;
    }
    proof {
        assert(r.deep_view() =~= pattern_entries(target@, 0));
    }
    r
}

/// Explodes a string of letters to exclude into its individual characters.
pub fn parse_ignore_chars(ignore_chars: String) -> (r: Vec<char>)
    ensures
        r@ == ignore_chars@,
{
    chars_of(ignore_chars.as_str())
}

/// Parses a list of wrong-position patterns, concatenating the entries of
/// every five-character pattern and skipping strings of any other length.
pub fn parse_different_positions(targets: Vec<String>) -> (r: Vec<CharPosition>)
    ensures
        r.deep_view() == multi_pattern_entries(targets.deep_view(), 0),
{
    let ghost ts = targets.deep_view();
    let mut r: Vec<CharPosition> = Vec::new();
    let mut i: usize = 0;
    while i < targets.len()
        invariant
            0 <= i <= ts.len(),
            ts == targets.deep_view(),
            multi_pattern_entries(ts, 0) =~= r.deep_view() + multi_pattern_entries(ts, i as int),
        decreases ts.len() - i,
    {
        let mut part = parse_char_position(targets[i].clone());
        proof {
            assert(ts[i as int] == targets@[i as int]@);
        }
        r.append(&mut part);
        proof {
            assert(r.deep_view() + multi_pattern_entries(ts, i + 1) =~= multi_pattern_entries(
                ts,
                0,
            ));
        }
        i = i + 1;
    }
    proof {
        assert(r.deep_view() =~= multi_pattern_entries(ts, 0));
    }
    r
}

} // verus!
