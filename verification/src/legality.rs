//! Which words can be played on a board, and the filter that keeps exactly
//! those words of a word list.

use vstd::prelude::*;
use crate::board::{
    alphabet, followers, lemma_follower_on_other_side, share_side, sides_disjoint, LetterBoxed,
};
use crate::text::{has_letter, letters_of, words_of};

verus! {

/// The shortest word that may be played.
pub const MIN_WORD_LEN: usize = 3;

/// The letter at position `i + 1` of the word may follow the letter at
/// position `i`.
pub open spec fn legal_step(sides: Seq<Seq<char>>, word: Seq<char>, i: int) -> bool {
    followers(sides, word[i]).contains(word[i + 1])
}

/// A word is legal on a board when it has at least three letters, all of
/// them letters of the board, and each letter but the first may follow the
/// letter before it.
pub open spec fn is_legal(sides: Seq<Seq<char>>, word: Seq<char>) -> bool {
    &&& word.len() >= MIN_WORD_LEN
    &&& forall|i: int| 0 <= i < word.len() ==> alphabet(sides).contains(#[trigger] word[i])
    &&& forall|i: int| 0 <= i < word.len() - 1 ==> #[trigger] legal_step(sides, word, i)
}

/// The test whether a word is legal on the board.
pub open spec fn legal_on(sides: Seq<Seq<char>>) -> spec_fn(Seq<char>) -> bool {
    |word: Seq<char>| is_legal(sides, word)
}

/// The legal words of a word list, in the order of the list.
pub open spec fn legal_words(sides: Seq<Seq<char>>, dict: Seq<Seq<char>>) -> Seq<Seq<char>> {
    dict.filter(legal_on(sides))
}

/// The filter keeps a word exactly when the word list holds it and it is
/// legal on the board.
pub proof fn lemma_filter_keeps_legal(
    sides: Seq<Seq<char>>,
    dict: Seq<Seq<char>>,
    word: Seq<char>,
)
    ensures
        legal_words(sides, dict).contains(word) <==> dict.contains(word) && is_legal(sides, word),
{
    let kept = legal_words(sides, dict);
    if kept.contains(word) {
        let i = choose|i: int| 0 <= i < kept.len() && kept[i] == word;
        dict.lemma_filter_pred(legal_on(sides), i);
        dict.lemma_filter_contains_rev(legal_on(sides), word);
    }
    if dict.contains(word) && is_legal(sides, word) {
        let i = choose|i: int| 0 <= i < dict.len() && dict[i] == word;
        dict.lemma_filter_contains(legal_on(sides), i);
    }
}

/// The filter keeps no word of fewer than three letters, whatever the board.
pub proof fn lemma_filter_rejects_short(
    sides: Seq<Seq<char>>,
    dict: Seq<Seq<char>>,
    word: Seq<char>,
)
    requires
        word.len() < MIN_WORD_LEN,
    ensures
        !is_legal(sides, word),
        !legal_words(sides, dict).contains(word),
{
    lemma_filter_keeps_legal(sides, dict, word);
}

/// On a board where no letter stands on two sides, no two letters that
/// stand next to each other in a word kept by the filter share a side.
pub proof fn lemma_kept_neighbours_on_different_sides(
    sides: Seq<Seq<char>>,
    dict: Seq<Seq<char>>,
    word: Seq<char>,
    i: int,
)
    requires
        sides_disjoint(sides),
        legal_words(sides, dict).contains(word),
        0 <= i < word.len() - 1,
    ensures
        !share_side(sides, word[i], word[i + 1]),
{
    lemma_filter_keeps_legal(sides, dict, word);
    assert(legal_step(sides, word, i));
    lemma_follower_on_other_side(sides, word[i], word[i + 1]);
}

/// Every letter of a word kept by the filter is a letter of the board.
pub proof fn lemma_kept_letters_on_board(
    sides: Seq<Seq<char>>,
    dict: Seq<Seq<char>>,
    word: Seq<char>,
    i: int,
)
    requires
        legal_words(sides, dict).contains(word),
        0 <= i < word.len(),
    ensures
        alphabet(sides).contains(word[i]),
{
    lemma_filter_keeps_legal(sides, dict, word);
}

impl LetterBoxed {
    /// Decides legality of a word given as its letters, with the letters of
    /// the board already at hand.
    fn admits(&self, board_letters: &Vec<char>, word: &Vec<char>) -> (ok: bool)
        requires
            board_letters@.to_set() == alphabet(self@),
        ensures
            ok == is_legal(self@, word@),
    {
        if word.len() < MIN_WORD_LEN {
            return false;
        }
        let mut i: usize = 0;
        while i < word.len()
            invariant
                i <= word.len(),
                board_letters@.to_set() == alphabet(self@),
                forall|k: int| 0 <= k < i ==> alphabet(self@).contains(#[trigger] word@[k]),
            decreases word.len() - i,
        {
            if !has_letter(board_letters, word[i]) {
                assert(!alphabet(self@).contains(word@[i as int]));
                return false;
            }
            i += 1;
        }
        let mut i: usize = 0;
        while i + 1 < word.len()
            invariant
                i + 1 <= word.len(),
                forall|k: int| 0 <= k < i ==> #[trigger] legal_step(self@, word@, k),
            decreases word.len() - i,
        {
            let allowed = self.get_valid_connections(&word[i]);
            if !has_letter(&allowed, word[i + 1]) {
                assert(!legal_step(self@, word@, i as int));
                return false;
            }
            i += 1;
        }
        true
    }

    /// Whether a word can be played on this board.
    pub fn is_legal_word(&self, word: &str) -> (ok: bool)
        ensures
            ok == is_legal(self@, word@),
    {
        let board_letters = self.get_all_chars();
        let letters = letters_of(word);
        self.admits(&board_letters, &letters)
    }

    /// The words of the list that can be played on this board, in the order
    /// of the list.
    pub fn legal_words(&self, dict: &Vec<String>) -> (legal: Vec<String>)
        ensures
            words_of(legal@) == legal_words(self@, words_of(dict@)),
    {
        let ghost keep = legal_on(self@);
        let board_letters = self.get_all_chars();
        let mut legal: Vec<String> = Vec::new();
        let mut i: usize = 0;
        while i < dict.len()
            invariant
                i <= dict.len(),
                keep == legal_on(self@),
                board_letters@.to_set() == alphabet(self@),
                words_of(legal@) == words_of(dict@).take(i as int).filter(keep),
            decreases dict.len() - i,
        {
            let letters = letters_of(dict[i].as_str());
            proof {
                let seen = words_of(dict@).take(i as int);
                assert(words_of(dict@).take(i + 1) =~= seen.push(dict@[i as int]@));
                seen.lemma_filter_push(dict@[i as int]@, keep);
            }
            if self.admits(&board_letters, &letters) {
                let ghost before = legal@;
                legal.push(dict[i].clone());
                assert(words_of(legal@) =~= words_of(before).push(dict@[i as int]@));
            }
            i += 1;
        }
        assert(words_of(dict@).take(dict@.len() as int) =~= words_of(dict@));
        legal
    }
}

} // verus!
