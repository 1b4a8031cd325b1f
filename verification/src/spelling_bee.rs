//! The filter for the puzzle with a centre letter: long words that use the
//! centre letter and no letter outside the allowed ones.

use vstd::prelude::*;
use crate::text::{has_letter, letters_of, words_of};

verus! {

/// A word must have more letters than this to be accepted.
pub const LONG_WORD: usize = 8;

/// What the puzzle is given: the letter every word must use, and the
/// letters a word may use.
pub struct BeeRules {
    pub center: char,
    pub allowed: Seq<char>,
}

/// A word is accepted when it has more than eight letters, uses the centre
/// letter, and uses no letter outside the allowed ones.
pub open spec fn bee_accepts(rules: BeeRules, word: Seq<char>) -> bool {
    &&& word.len() > LONG_WORD
    &&& word.contains(rules.center)
    &&& forall|i: int| 0 <= i < word.len() ==> rules.allowed.contains(#[trigger] word[i])
}

/// The test whether a word is accepted.
pub open spec fn accepted_by(rules: BeeRules) -> spec_fn(Seq<char>) -> bool {
    |word: Seq<char>| bee_accepts(rules, word)
}

/// The accepted words of a word list, in the order of the list.
pub open spec fn bee_words(rules: BeeRules, dict: Seq<Seq<char>>) -> Seq<Seq<char>> {
    dict.filter(accepted_by(rules))
}

/// The puzzle with a centre letter.
#[derive(Debug, Clone, PartialEq, Eq)]
pub struct SpellingBee {
    center: char,
    allowed: Vec<char>,
}

impl View for SpellingBee {
    type V = BeeRules;

    closed spec fn view(&self) -> BeeRules {
        BeeRules { center: self.center, allowed: self.allowed@ }
    }
}

impl SpellingBee {
    /// The puzzle with the given centre letter and allowed letters.
    pub fn new(center: char, allowed: &str) -> (bee: Self)
        ensures
            bee@ == (BeeRules { center, allowed: allowed@ }),
    {
        SpellingBee { center, allowed: letters_of(allowed) }
    }

    /// Whether the puzzle accepts the word.
    pub fn accepts(&self, word: &str) -> (ok: bool)
        ensures
            ok == bee_accepts(self@, word@),
    {
        let letters = letters_of(word);
        if letters.len() <= LONG_WORD {
            return false;
        }
        if !has_letter(&letters, self.center) {
            return false;
        }
        let mut i: usize = 0;
        while i < letters.len()
            invariant
                i <= letters.len(),
                letters@ == word@,
                forall|k: int| 0 <= k < i ==> self.allowed@.contains(#[trigger] letters@[k]),
            decreases letters.len() - i,
        {
            if !has_letter(&self.allowed, letters[i]) {
                return false;
            }
            i += 1;
        }
        true
    }

    /// The words of the list that the puzzle accepts, in the order of the
    /// list.
    pub fn solve(&self, dict: &Vec<String>) -> (found: Vec<String>)
        ensures
            words_of(found@) == bee_words(self@, words_of(dict@)),
    {
        let ghost keep = accepted_by(self@);
        let mut found: Vec<String> = Vec::new();
        let mut i: usize = 0;
        assert(words_of(dict@).take(0) =~= Seq::<Seq<char>>::empty());
        assert(words_of(found@) =~= Seq::<Seq<char>>::empty());
        proof {
            reveal(Seq::filter);
        }
        while i < dict.len()
            invariant
                i <= dict.len(),
                keep == accepted_by(self@),
                words_of(found@) == words_of(dict@).take(i as int).filter(keep),
            decreases dict.len() - i,
        {
            proof {
                let seen = words_of(dict@).take(i as int);
                assert(words_of(dict@).take(i + 1) =~= seen.push(dict@[i as int]@));
                seen.lemma_filter_push(dict@[i as int]@, keep);
            }
            if self.accepts(dict[i].as_str()) {
                let ghost before = found@;
                found.push(dict[i].clone());
                assert(words_of(found@) =~= words_of(before).push(dict@[i as int]@));
            }
            i += 1;
        }
        assert(words_of(dict@).take(dict@.len() as int) =~= words_of(dict@));
        found
    }
}

} // verus!
