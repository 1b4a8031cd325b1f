//! What holds of every chain that the greedy search returns.

use vstd::prelude::*;
use crate::board::{alphabet, lemma_flatten_holds, on_side, LetterBoxed};
use crate::chain::{
    begins_with, first_best, lemma_first_best_exists, lemma_missing_bounded,
    lemma_starting_with_not_empty, letters_used, missing, missing_letters, outcome_words, search,
    solution, starting_with, step_limit, SolveError,
};
use crate::legality::{is_legal, legal_on, legal_words, lemma_filter_keeps_legal};
use crate::text::words_of;

verus! {

/// Word number `i` of the chain ends with the letter that word number
/// `i + 1` begins with.
pub open spec fn linked_at(chain: Seq<Seq<char>>, i: int) -> bool {
    &&& chain[i].len() > 0
    &&& chain[i + 1].len() > 0
    &&& chain[i].last() == chain[i + 1].first()
}

/// Every word of the chain but the last ends with the letter that the next
/// word begins with.
pub open spec fn is_linked(chain: Seq<Seq<char>>) -> bool {
    forall|i: int| 0 <= i < chain.len() - 1 ==> #[trigger] linked_at(chain, i)
}

/// Every word of the pool can follow the chain: it has a first letter, and
/// where the chain has a last word, that word ends with this letter.
pub open spec fn pool_follows(pool: Seq<Seq<char>>, chain: Seq<Seq<char>>) -> bool {
    forall|i: int|
        0 <= i < pool.len() ==> {
            &&& (#[trigger] pool[i]).len() > 0
            &&& chain.len() > 0 ==> chain.last().len() > 0 && chain.last().last() == pool[i][0]
        }
}

/// A chain that the search returns misses no letter of the board. It
/// begins with the chain that the search started from, is longer than it by
/// at least one word and at most the budget, and every word that was added
/// comes from the pool or from the words that later pools are drawn from.
pub proof fn lemma_search_extends(
    sides: Seq<Seq<char>>,
    words: Seq<Seq<char>>,
    pool: Seq<Seq<char>>,
    chain: Seq<Seq<char>>,
    budget: nat,
)
    requires
        search(sides, words, pool, chain, budget) is Ok,
    ensures
        ({
            let found = search(sides, words, pool, chain, budget)->Ok_0;
            &&& missing(sides, found) == 0
            &&& chain.len() < found.len() <= chain.len() + budget
            &&& found.take(chain.len() as int) == chain
            &&& forall|i: int|
                chain.len() <= i < found.len() ==> pool.contains(#[trigger] found[i])
                    || words.contains(found[i])
        }),
    decreases budget,
{
    let found = search(sides, words, pool, chain, budget)->Ok_0;
    lemma_first_best_exists(sides, chain, pool);
    let k = first_best(sides, chain, pool);
    let word = pool[k];
    let longer = chain.push(word);
    assert(longer.take(chain.len() as int) =~= chain);
    if missing(sides, longer) == 0 {
        assert(found == longer);
    } else {
        let next = starting_with(words, word.last());
        lemma_search_extends(sides, words, next, longer, (budget - 1) as nat);
        assert(found.take(chain.len() as int) =~= found.take(longer.len() as int).take(
            chain.len() as int,
        ));
        assert forall|i: int| chain.len() <= i < found.len() implies pool.contains(
            #[trigger] found[i],
        ) || words.contains(found[i]) by {
            if i == chain.len() {
                assert(found.take(longer.len() as int)[i] == longer[i]);
            } else {
                if next.contains(found[i]) {
                    words.lemma_filter_contains_rev(begins_with(word.last()), found[i]);
                }
            }
        }
    }
}

/// A chain that the search returns is linked, where the chain that the
/// search started from is linked and every word of the pool can follow it.
pub proof fn lemma_search_linked(
    sides: Seq<Seq<char>>,
    words: Seq<Seq<char>>,
    pool: Seq<Seq<char>>,
    chain: Seq<Seq<char>>,
    budget: nat,
)
    requires
        is_linked(chain),
        pool_follows(pool, chain),
        search(sides, words, pool, chain, budget) is Ok,
    ensures
        is_linked(search(sides, words, pool, chain, budget)->Ok_0),
    decreases budget,
{
    lemma_first_best_exists(sides, chain, pool);
    let k = first_best(sides, chain, pool);
    let word = pool[k];
    let longer = chain.push(word);
    assert(is_linked(longer)) by {
        assert forall|i: int| 0 <= i < longer.len() - 1 implies #[trigger] linked_at(longer, i) by {
            if i < chain.len() - 1 {
                assert(linked_at(chain, i));
            }
        }
    }
    if missing(sides, longer) != 0 {
        let next = starting_with(words, word.last());
        assert(pool_follows(next, longer)) by {
            assert forall|i: int| 0 <= i < next.len() implies {
                &&& (#[trigger] next[i]).len() > 0
                &&& longer.len() > 0 ==> longer.last().len() > 0 && longer.last().last()
                    == next[i][0]
            } by {
                lemma_starting_with_not_empty(words, word.last(), i);
            }
        }
        lemma_search_linked(sides, words, next, longer, (budget - 1) as nat);
    }
}

/// For a chain that uses letters of the board only, the missing count is
/// the number of letters of the board less the number of letters used.
pub proof fn lemma_missing_is_board_less_used(sides: Seq<Seq<char>>, chain: Seq<Seq<char>>)
    requires
        letters_used(chain).subset_of(alphabet(sides)),
    ensures
        missing(sides, chain) == alphabet(sides).len() - letters_used(chain).len(),
{
    lemma_missing_bounded(sides, chain);
    vstd::seq_lib::seq_to_set_is_finite(chain.flatten());
    vstd::set_lib::lemma_set_difference_len(alphabet(sides), letters_used(chain));
    assert(alphabet(sides).intersect(letters_used(chain)) =~= letters_used(chain));
}

/// A chain of legal words that misses no letter of the board uses exactly
/// the letters of the board.
pub proof fn lemma_complete_chain_uses_alphabet(sides: Seq<Seq<char>>, chain: Seq<Seq<char>>)
    requires
        missing(sides, chain) == 0,
        forall|i: int| 0 <= i < chain.len() ==> is_legal(sides, #[trigger] chain[i]),
    ensures
        letters_used(chain) == alphabet(sides),
{
    lemma_missing_bounded(sides, chain);
    missing_letters(sides, chain).lemma_len0_is_empty();
    assert forall|c: char| letters_used(chain).contains(c) == alphabet(sides).contains(c) by {
        if letters_used(chain).contains(c) {
            lemma_flatten_holds(chain, c);
            let i = choose|i: int| on_side(chain, i, c);
            let j = choose|j: int| 0 <= j < chain[i].len() && chain[i][j] == c;
            assert(is_legal(sides, chain[i]));
            assert(alphabet(sides).contains(chain[i][j]));
        }
        if alphabet(sides).contains(c) && !letters_used(chain).contains(c) {
            assert(missing_letters(sides, chain).contains(c));
        }
    }
    assert(letters_used(chain) =~= alphabet(sides));
}

/// A chain returned for a board and a word list is made of legal words of
/// the list, and has no more words than the step limit of the board.
pub proof fn lemma_solution_words_legal(sides: Seq<Seq<char>>, dict: Seq<Seq<char>>, i: int)
    requires
        solution(sides, dict) is Ok,
        0 <= i < solution(sides, dict)->Ok_0.len(),
    ensures
        solution(sides, dict)->Ok_0.len() <= step_limit(sides),
        dict.contains(solution(sides, dict)->Ok_0[i]),
        is_legal(sides, solution(sides, dict)->Ok_0[i]),
{
    let legal = legal_words(sides, dict);
    lemma_search_extends(sides, legal, legal, Seq::empty(), step_limit(sides));
    let found = solution(sides, dict)->Ok_0;
    assert(legal.contains(found[i]));
    lemma_filter_keeps_legal(sides, dict, found[i]);
}

/// In a chain returned for a board and a word list, every word but the
/// last ends with the letter that the next word begins with.
pub proof fn lemma_solution_linked(sides: Seq<Seq<char>>, dict: Seq<Seq<char>>)
    requires
        solution(sides, dict) is Ok,
    ensures
        is_linked(solution(sides, dict)->Ok_0),
{
    let legal = legal_words(sides, dict);
    let start = Seq::<Seq<char>>::empty();
    assert(pool_follows(legal, start)) by {
        assert forall|i: int| 0 <= i < legal.len() implies (#[trigger] legal[i]).len() > 0 by {
            dict.lemma_filter_pred(legal_on(sides), i);
        }
    }
    lemma_search_linked(sides, legal, legal, start, step_limit(sides));
}

/// A chain returned for a board and a word list misses no letter of the
/// board, and the letters of its words are exactly the letters of the
/// board.
pub proof fn lemma_solution_covers(sides: Seq<Seq<char>>, dict: Seq<Seq<char>>)
    requires
        solution(sides, dict) is Ok,
    ensures
        missing(sides, solution(sides, dict)->Ok_0) == 0,
        letters_used(solution(sides, dict)->Ok_0) == alphabet(sides),
{
    let legal = legal_words(sides, dict);
    let found = solution(sides, dict)->Ok_0;
    lemma_search_extends(sides, legal, legal, Seq::empty(), step_limit(sides));
    assert forall|i: int| 0 <= i < found.len() implies is_legal(sides, #[trigger] found[i]) by {
        lemma_solution_words_legal(sides, dict, i);
    }
    lemma_complete_chain_uses_alphabet(sides, found);
}

/// Solving twice gives the same chain: where two boards have the same
/// sides and two word lists hold the same words, what `solve` returns for
/// the one board and list holds the same words, or is the same failure, as
/// what it returns for the other.
pub proof fn lemma_solve_deterministic(
    board_a: LetterBoxed,
    dict_a: Vec<String>,
    outcome_a: Result<Vec<String>, SolveError>,
    board_b: LetterBoxed,
    dict_b: Vec<String>,
    outcome_b: Result<Vec<String>, SolveError>,
)
    requires
        board_a@ == board_b@,
        words_of(dict_a@) == words_of(dict_b@),
        outcome_words(outcome_a) == solution(board_a@, words_of(dict_a@)),
        outcome_words(outcome_b) == solution(board_b@, words_of(dict_b@)),
    ensures
        outcome_words(outcome_a) == outcome_words(outcome_b),
{
}

} // verus!
