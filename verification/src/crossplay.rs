//! The filter for the puzzle with a rack and a pattern: words of the
//! pattern's length that agree with its fixed letters and whose other
//! letters the rack can supply, with wildcards standing in where it cannot.

use vstd::prelude::*;
use crate::text::{count_letter, letters_of, without_repeats, words_of};

verus! {

/// The rack letter that stands for a wildcard.
pub const WILDCARD: char = '*';

/// The pattern letter that stands for a free position.
pub const PLACEHOLDER: char = '.';

/// What the puzzle is given: the letters at hand, and the pattern a word
/// must fill.
pub struct CrossplayRules {
    pub rack: Seq<char>,
    pub pattern: Seq<char>,
}

/// The word has the length of the pattern and holds, at every position
/// where the pattern names a letter, that letter.
pub open spec fn fits_pattern(pattern: Seq<char>, word: Seq<char>) -> bool {
    &&& word.len() == pattern.len()
    &&& forall|i: int|
        0 <= i < pattern.len() && pattern[i] != PLACEHOLDER ==> #[trigger] word[i] == pattern[i]
}

/// The letters of the word at the free positions of the pattern, in order,
/// for a word of the pattern's length.
pub open spec fn free_letters(pattern: Seq<char>, word: Seq<char>) -> Seq<char>
    decreases word.len(),
{
    if word.len() == 0 || pattern.len() != word.len() {
        Seq::empty()
    } else {
        let before = free_letters(pattern.drop_last(), word.drop_last());
        if pattern.last() == PLACEHOLDER {
            before.push(word.last())
        } else {
            before
        }
    }
}

/// How many wildcards the rack holds.
pub open spec fn wildcards(rack: Seq<char>) -> nat {
    rack.to_multiset().count(WILDCARD)
}

/// How often the rack can supply the letter without a wildcard.
pub open spec fn available(rack: Seq<char>, c: char) -> nat {
    if c == WILDCARD {
        0
    } else {
        rack.to_multiset().count(c)
    }
}

/// The letters that the word needs at free positions more often than the
/// rack can supply them.
pub open spec fn short_letters(rules: CrossplayRules, word: Seq<char>) -> Set<char> {
    Set::new(
        |c: char|
            free_letters(rules.pattern, word).to_multiset().count(c) > available(rules.rack, c),
    )
}

/// A word is accepted when it fits the pattern and the rack holds a
/// wildcard for each letter it is short of. One wildcard makes up for one
/// letter, however often the word needs that letter beyond the rack.
pub open spec fn crossplay_accepts(rules: CrossplayRules, word: Seq<char>) -> bool {
    &&& fits_pattern(rules.pattern, word)
    &&& short_letters(rules, word).len() <= wildcards(rules.rack)
}

/// The test whether a word is accepted.
pub open spec fn matched_by(rules: CrossplayRules) -> spec_fn(Seq<char>) -> bool {
    |word: Seq<char>| crossplay_accepts(rules, word)
}

/// The accepted words of a word list, in the order of the list.
pub open spec fn crossplay_words(rules: CrossplayRules, dict: Seq<Seq<char>>) -> Seq<Seq<char>> {
    dict.filter(matched_by(rules))
}

/// Every letter that the word is short of is one of its free letters, so
/// there are finitely many of them.
pub proof fn lemma_short_letters_are_free(rules: CrossplayRules, word: Seq<char>)
    ensures
        short_letters(rules, word).subset_of(free_letters(rules.pattern, word).to_set()),
        short_letters(rules, word).finite(),
{
    let free = free_letters(rules.pattern, word);
    assert forall|c: char| short_letters(rules, word).contains(c) implies free.to_set().contains(
        c,
    ) by {
        vstd::seq_lib::to_multiset_contains(free, c);
    }
    vstd::seq_lib::seq_to_set_is_finite(free);
    vstd::set_lib::lemma_len_subset(short_letters(rules, word), free.to_set());
}

/// The puzzle with a rack and a pattern.
#[derive(Debug, Clone, PartialEq, Eq)]
pub struct Crossplay {
    rack: Vec<char>,
    pattern: Vec<char>,
}

impl View for Crossplay {
    type V = CrossplayRules;

    closed spec fn view(&self) -> CrossplayRules {
        CrossplayRules { rack: self.rack@, pattern: self.pattern@ }
    }
}

impl Crossplay {
    /// The puzzle with the given rack and pattern.
    pub fn new(rack: &str, pattern: &str) -> (game: Self)
        ensures
            game@ == (CrossplayRules { rack: rack@, pattern: pattern@ }),
    {
        Crossplay { rack: letters_of(rack), pattern: letters_of(pattern) }
    }

    /// Whether the puzzle accepts the word.
    pub fn accepts(&self, word: &str) -> (ok: bool)
        ensures
            ok == crossplay_accepts(self@, word@),
    {
        let letters = letters_of(word);
        if letters.len() != self.pattern.len() {
            return false;
        }
        let mut free: Vec<char> = Vec::new();
        let mut i: usize = 0;
        while i < letters.len()
            invariant
                i <= letters.len(),
                letters@ == word@,
                letters@.len() == self.pattern@.len(),
                free@ == free_letters(self.pattern@.take(i as int), word@.take(i as int)),
                forall|k: int|
                    0 <= k < i && self.pattern@[k] != PLACEHOLDER ==> #[trigger] word@[k]
                        == self.pattern@[k],
            decreases letters.len() - i,
        {
            proof {
                assert(self.pattern@.take(i + 1).drop_last() =~= self.pattern@.take(i as int));
                assert(word@.take(i + 1).drop_last() =~= word@.take(i as int));
            }
            if self.pattern[i] == PLACEHOLDER {
                free.push(letters[i]);
            } else if self.pattern[i] != letters[i] {
                return false;
            }
            i += 1;
        }
        proof {
            assert(self.pattern@.take(i as int) =~= self.pattern@);
            assert(word@.take(i as int) =~= word@);
            lemma_short_letters_are_free(self@, word@);
        }
        let kinds = without_repeats(&free);
        let ghost short = short_letters(self@, word@);
        let mut lacking: usize = 0;
        let mut j: usize = 0;
        assert(kinds@.take(0).to_set().intersect(short) =~= Set::<char>::empty());
        while j < kinds.len()
            invariant
                j <= kinds.len(),
                kinds@.no_duplicates(),
                free@ == free_letters(self.pattern@, word@),
                short == short_letters(self@, word@),
                lacking <= j,
                lacking == kinds@.take(j as int).to_set().intersect(short).len(),
            decreases kinds.len() - j,
        {
            let c = kinds[j];
            let need = count_letter(&free, c);
            let have = if c == WILDCARD {
                0
            } else {
                count_letter(&self.rack, c)
            };
            proof {
                let seen = kinds@.take(j as int);
                assert(kinds@.take(j + 1) =~= seen.push(c));
                seen.lemma_push_to_set_commute(c);
                vstd::seq_lib::seq_to_set_is_finite(seen);
                assert(!seen.to_set().contains(c)) by {
                    if seen.contains(c) {
                        let k = choose|k: int| 0 <= k < seen.len() && seen[k] == c;
                        assert(kinds@[k] == kinds@[j as int]);
                    }
                }
                if short.contains(c) {
                    assert(seen.to_set().insert(c).intersect(short) =~= seen.to_set().intersect(
                        short,
                    ).insert(c));
                } else {
                    assert(seen.to_set().insert(c).intersect(short) =~= seen.to_set().intersect(
                        short,
                    ));
                }
            }
            if need > have {
                lacking += 1;
            }
            j += 1;
        }
        proof {
            assert(kinds@.take(kinds@.len() as int) =~= kinds@);
            assert(kinds@.to_set().intersect(short) =~= short);
        }
        lacking <= count_letter(&self.rack, WILDCARD)
    }

    /// The words of the list that the puzzle accepts, in the order of the
    /// list.
    pub fn solve(&self, dict: &Vec<String>) -> (found: Vec<String>)
        ensures
            words_of(found@) == crossplay_words(self@, words_of(dict@)),
    {
        let ghost keep = matched_by(self@);
        let mut found: Vec<String> = Vec::new();
        let mut i: usize = 0;
        assert(words_of(dict@).take(0) =~= Seq::<Seq<char>>::empty());
        assert(words_of(found@) =~= Seq::<Seq<char>>::empty());
        proof {
            reveal(Seq::filter);
        }
        while i < dict.len()
            invariant
                i <= dict.len(),
                keep == matched_by(self@),
                words_of(found@) == words_of(dict@).take(i as int).filter(keep),
            decreases dict.len() - i,
        {
            proof {
                let seen = words_of(dict@).take(i as int);
                assert(words_of(dict@).take(i + 1) =~= seen.push(dict@[i as int]@));
                seen.lemma_filter_push(dict@[i as int]@, keep);
            }
            if self.accepts(dict[i].as_str()) {
                let ghost before = found@;
                found.push(dict[i].clone());
                assert(words_of(found@) =~= words_of(before).push(dict@[i as int]@));
            }
            i += 1;
        }
        assert(words_of(dict@).take(dict@.len() as int) =~= words_of(dict@));
        found
    }
}

} // verus!
