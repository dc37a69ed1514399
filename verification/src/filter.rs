use vstd::prelude::*;

use crate::chars::chars_of;

verus! {

/// One positional constraint: a letter tied to a zero-based index of the word.
/// In `char_positions` it means "this letter stands exactly there"; in
/// `different_char_positions` it means "this letter occurs in the word, but
/// not there".
pub struct CharPosition {
    pub letter: char,
    pub position: usize,
}

impl View for CharPosition {
    type V = (char, int);

    open spec fn view(&self) -> (char, int) {
        (self.letter, self.position as int)
    }
}

impl DeepView for CharPosition {
    type V = (char, int);

    open spec fn deep_view(&self) -> (char, int) {
        self.view()
    }
}

/// Checks whether a vector of characters holds a given character.
pub fn contains_char(w: &Vec<char>, c: char) -> (r: bool)
    ensures
        r == w@.contains(c),
{
    let mut i: usize = 0;
    while i < w.len()
        invariant
            0 <= i <= w@.len(),
            forall|j: int| 0 <= j < i ==> w@[j] != c,
        decreases w@.len() - i,
    {
        if w[i] == c {
            return true;
        }
        i = i + 1;
    }
    false
}

/// The word filter: a candidate is accepted when its length matches, it
/// avoids every excluded letter, it satisfies every positional constraint,
/// and it contains every letter that is known to be present elsewhere.
pub struct Filter {
    pub length: usize,
    pub ignore_chars: Vec<char>,
    pub char_positions: Vec<CharPosition>,
    pub different_char_positions: Vec<CharPosition>,
}

impl Filter {
    /// Every filter is built for words of exactly five characters.
    pub open spec fn wf(self) -> bool {
        self.length == 5
    }

    /// The word holds none of the excluded letters.
    pub open spec fn excluded_ok(self, w: Seq<char>) -> bool {
        forall|i: int|
            0 <= i < self.ignore_chars@.len() ==> !w.contains(#[trigger] self.ignore_chars@[i])
    }

    /// Every required position carries its letter, and no forbidden position does.
    pub open spec fn positions_ok(self, w: Seq<char>) -> bool {
        &&& forall|i: int|
            0 <= i < self.char_positions@.len() ==> {
                let cp = #[trigger] self.char_positions@[i];
                cp.position < w.len() && w[cp.position as int] == cp.letter
            }
        &&& forall|i: int|
            0 <= i < self.different_char_positions@.len() ==> {
                let cp = #[trigger] self.different_char_positions@[i];
                !(cp.position < w.len() && w[cp.position as int] == cp.letter)
            }
    }

    /// Every letter listed with a wrong position still occurs somewhere.
    pub open spec fn presence_ok(self, w: Seq<char>) -> bool {
        forall|i: int|
            0 <= i < self.different_char_positions@.len() ==> w.contains(
                (#[trigger] self.different_char_positions@[i]).letter,
            )
    }

    /// The whole rule set, in the order the checks run.
    pub open spec fn spec_accept(self, w: Seq<char>) -> bool {
        &&& w.len() == self.length
        &&& self.excluded_ok(w)
        &&& self.positions_ok(w)
        &&& self.presence_ok(w)
    }

    pub fn new(
        ignore_chars: Vec<char>,
        char_positions: Vec<CharPosition>,
        different_char_positions: Vec<CharPosition>,
    ) -> (f: Filter)
        ensures
            f.wf(),
            f.ignore_chars == ignore_chars,
            f.char_positions == char_positions,
            f.different_char_positions == different_char_positions,
    {
        Filter { length: 5, ignore_chars, char_positions, different_char_positions }
    }

    /// Accepts or rejects one candidate word against the whole rule set.
    pub fn accept(&self, word: &str) -> (r: bool)
        ensures
            r == self.spec_accept(word@),
    {
        let w = chars_of(word);
        if w.len() != self.length {
            return false;
        }

        let mut i: usize = 0;
        while i < self.ignore_chars.len()
            invariant
                0 <= i <= self.ignore_chars@.len(),
                w@ == word@,
                forall|j: int| 0 <= j < i ==> !word@.contains(#[trigger] self.ignore_chars@[j]),
            decreases self.ignore_chars@.len() - i,
        {
            if contains_char(&w, self.ignore_chars[i]) {
                return false;
            }
            i = i + 1;
        }

        if !self.accept_char_position(word) {
            return false;
        }

        if !self.accept_char(word) {
            return false;
        }

        true
    }

    /// Checks the positional constraints alone: required letters in place,
    /// forbidden letters out of place.
    pub fn accept_char_position(&self, word: &str) -> (r: bool)
        ensures
            r == self.positions_ok(word@),
    {
        let w = chars_of(word);
        let mut i: usize = 0;
        while i < self.char_positions.len()
            invariant
                0 <= i <= self.char_positions@.len(),
                w@ == word@,
                forall|j: int|
                    0 <= j < i ==> {
                        let cp = #[trigger] self.char_positions@[j];
                        cp.position < word@.len() && word@[cp.position as int] == cp.letter
                    },
            decreases self.char_positions@.len() - i,
        {
            let cp = &self.char_positions[i];
            if cp.position >= w.len() {
                return false;
            }
            if w[cp.position] != cp.letter {
                return false;
            }
            i = i + 1;
        }

        let mut i: usize = 0;
        while i < self.different_char_positions.len()
            invariant
                0 <= i <= self.different_char_positions@.len(),
                w@ == word@,
                forall|j: int|
                    0 <= j < i ==> {
                        let cp = #[trigger] self.different_char_positions@[j];
                        !(cp.position < word@.len() && word@[cp.position as int] == cp.letter)
                    },
            decreases self.different_char_positions@.len() - i,
        {
            let cp = &self.different_char_positions[i];
            if cp.position < w.len() && w[cp.position] == cp.letter {
                return false;
            }
            i = i + 1;
        }

        true
    }

    /// Checks the mandatory-presence rule: each letter named by a
    /// wrong-position constraint must occur somewhere in the word.
    pub fn accept_char(&self, word: &str) -> (r: bool)
        ensures
            r == self.presence_ok(word@),
    {
        let w = chars_of(word);
        let mut i: usize = 0;
        while i < self.different_char_positions.len()
            invariant
                0 <= i <= self.different_char_positions@.len(),
                w@ == word@,
                forall|j: int|
                    0 <= j < i ==> word@.contains(
                        (#[trigger] self.different_char_positions@[j]).letter,
                    ),
            decreases self.different_char_positions@.len() - i,
        {
            if !contains_char(&w, self.different_char_positions[i].letter) {
                return false;
            }
            i = i + 1;
        }
        true
    }
}

/// Whatever the constraints, a word whose length is not the filter's fixed
/// five is rejected.
pub proof fn lemma_wrong_length_rejected(f: Filter, w: Seq<char>)
    requires
        f.wf(),
        w.len() != 5,
    ensures
        !f.spec_accept(w),
{
}

} // verus!
