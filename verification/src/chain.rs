//! Chains of words: which letters of the board a chain still misses, and
//! the greedy search for a chain that misses none.

use vstd::prelude::*;
use crate::board::{alphabet, lemma_flatten_is_alphabet, LetterBoxed};
use crate::chain_laws::{
    is_linked, lemma_solution_covers, lemma_solution_linked, lemma_solution_words_legal,
};
use crate::legality::{is_legal, legal_on, legal_words};
use crate::text::{
    char_limit, has_letter, lemma_letter_set_bounded, letters_of, without_repeats, words_of,
};

verus! {

/// The letters that occur in the words of a chain.
pub open spec fn letters_used(chain: Seq<Seq<char>>) -> Set<char> {
    chain.flatten().to_set()
}

/// The letters of the board that no word of the chain uses.
pub open spec fn missing_letters(sides: Seq<Seq<char>>, chain: Seq<Seq<char>>) -> Set<char> {
    alphabet(sides).difference(letters_used(chain))
}

/// The missing count of a chain: how many letters of the board no word of
/// the chain uses.
pub open spec fn missing(sides: Seq<Seq<char>>, chain: Seq<Seq<char>>) -> nat {
    missing_letters(sides, chain).len()
}

/// The missing count of a chain once the word is appended to it.
pub open spec fn missing_after(
    sides: Seq<Seq<char>>,
    chain: Seq<Seq<char>>,
    word: Seq<char>,
) -> nat {
    missing(sides, chain.push(word))
}

/// Word number `k` of the pool is the best extension of the chain: no word
/// of the pool leaves a smaller missing count, and every word before it
/// leaves a larger one.
pub open spec fn is_first_best(
    sides: Seq<Seq<char>>,
    chain: Seq<Seq<char>>,
    pool: Seq<Seq<char>>,
    k: int,
) -> bool {
    &&& 0 <= k < pool.len()
    &&& forall|j: int|
        0 <= j < k ==> missing_after(sides, chain, pool[k]) < #[trigger] missing_after(
            sides,
            chain,
            pool[j],
        )
    &&& forall|j: int|
        k <= j < pool.len() ==> missing_after(sides, chain, pool[k]) <= #[trigger] missing_after(
            sides,
            chain,
            pool[j],
        )
}

/// The position in the pool of the best extension of the chain.
pub open spec fn first_best(
    sides: Seq<Seq<char>>,
    chain: Seq<Seq<char>>,
    pool: Seq<Seq<char>>,
) -> int {
    choose|k: int| is_first_best(sides, chain, pool, k)
}

/// The test whether a word begins with the given letter.
pub open spec fn begins_with(c: char) -> spec_fn(Seq<char>) -> bool {
    |word: Seq<char>| word.len() > 0 && word[0] == c
}

/// The words that begin with the given letter, in the order of the list.
pub open spec fn starting_with(words: Seq<Seq<char>>, c: char) -> Seq<Seq<char>> {
    words.filter(begins_with(c))
}

/// Why a search ended without a chain.
#[derive(Debug, Clone, Copy, PartialEq, Eq, Structural)]
pub enum SolveError {
    /// No word can extend the chain: the pool is empty.
    NoCandidate,
    /// The chain still misses letters and the budget of words is spent.
    Exhausted,
}

/// The greedy search. While the pool holds a word and the budget allows
/// one, the best extension of the chain is appended to it. The search ends
/// with the chain as soon as the chain misses no letter; otherwise it goes
/// on with the words that begin with the last letter of the chain.
pub open spec fn search(
    sides: Seq<Seq<char>>,
    words: Seq<Seq<char>>,
    pool: Seq<Seq<char>>,
    chain: Seq<Seq<char>>,
    budget: nat,
) -> Result<Seq<Seq<char>>, SolveError>
    decreases budget,
{
    if pool.len() == 0 {
        Err(SolveError::NoCandidate)
    } else if budget == 0 {
        Err(SolveError::Exhausted)
    } else {
        let word = pool[first_best(sides, chain, pool)];
        let longer = chain.push(word);
        if missing(sides, longer) == 0 {
            Ok(longer)
        } else {
            search(sides, words, starting_with(words, word.last()), longer, (budget - 1) as nat)
        }
    }
}

/// The most words that `solve` lets a chain have: one more than the square
/// of the number of letters of the board. A search that has not ended by
/// then has come back to where it was before and would never end.
pub open spec fn step_limit(sides: Seq<Seq<char>>) -> nat {
    alphabet(sides).len() * alphabet(sides).len() + 1
}

/// What `solve` returns for a board and a word list: the outcome of the
/// greedy search among the legal words of the list, from the empty chain.
pub open spec fn solution(sides: Seq<Seq<char>>, dict: Seq<Seq<char>>) -> Result<
    Seq<Seq<char>>,
    SolveError,
> {
    let legal = legal_words(sides, dict);
    search(sides, legal, legal, Seq::empty(), step_limit(sides))
}

/// The outcome of a search with the chain given as its words.
pub open spec fn outcome_words(outcome: Result<Vec<String>, SolveError>) -> Result<
    Seq<Seq<char>>,
    SolveError,
> {
    match outcome {
        Ok(chain) => Ok(words_of(chain@)),
        Err(e) => Err(e),
    }
}

/// How the best extension changes when a word is added at the end of the
/// pool: the new word is the best extension if it leaves a smaller missing
/// count than the best so far, and else the best so far stays.
pub proof fn lemma_first_best_push(
    sides: Seq<Seq<char>>,
    chain: Seq<Seq<char>>,
    pool: Seq<Seq<char>>,
    word: Seq<char>,
    k: int,
)
    requires
        is_first_best(sides, chain, pool, k),
    ensures
        is_first_best(
            sides,
            chain,
            pool.push(word),
            if missing_after(sides, chain, word) < missing_after(sides, chain, pool[k]) {
                pool.len() as int
            } else {
                k
            },
        ),
{
    let more = pool.push(word);
    assert forall|j: int| 0 <= j < pool.len() implies missing_after(sides, chain, pool[k])
        <= #[trigger] missing_after(sides, chain, more[j]) by {
        assert(more[j] == pool[j]);
        if j < k {
            assert(missing_after(sides, chain, pool[k]) < missing_after(sides, chain, pool[j]));
        } else {
            assert(missing_after(sides, chain, pool[k]) <= missing_after(sides, chain, pool[j]));
        }
    }
    assert forall|j: int| 0 <= j < k implies missing_after(sides, chain, pool[k])
        < #[trigger] missing_after(sides, chain, more[j]) by {
        assert(more[j] == pool[j]);
        assert(missing_after(sides, chain, pool[k]) < missing_after(sides, chain, pool[j]));
    }
    assert(more[k] == pool[k]);
    assert(more[pool.len() as int] == word);
}

/// A pool that is not empty has a best extension.
pub proof fn lemma_first_best_exists(
    sides: Seq<Seq<char>>,
    chain: Seq<Seq<char>>,
    pool: Seq<Seq<char>>,
)
    requires
        pool.len() > 0,
    ensures
        is_first_best(sides, chain, pool, first_best(sides, chain, pool)),
    decreases pool.len(),
{
    if pool.len() == 1 {
        assert(is_first_best(sides, chain, pool, 0));
    } else {
        let front = pool.drop_last();
        lemma_first_best_exists(sides, chain, front);
        lemma_first_best_push(sides, chain, front, pool.last(), first_best(sides, chain, front));
        assert(front.push(pool.last()) =~= pool);
    }
}

/// A pool has at most one best extension.
pub proof fn lemma_first_best_unique(
    sides: Seq<Seq<char>>,
    chain: Seq<Seq<char>>,
    pool: Seq<Seq<char>>,
    k: int,
)
    requires
        is_first_best(sides, chain, pool, k),
    ensures
        k == first_best(sides, chain, pool),
{
    let other = first_best(sides, chain, pool);
    assert(is_first_best(sides, chain, pool, other));
    if k < other {
        assert(missing_after(sides, chain, pool[other]) < missing_after(sides, chain, pool[k]));
        assert(missing_after(sides, chain, pool[k]) <= missing_after(sides, chain, pool[other]));
    } else if other < k {
        assert(missing_after(sides, chain, pool[k]) < missing_after(sides, chain, pool[other]));
        assert(missing_after(sides, chain, pool[other]) <= missing_after(sides, chain, pool[k]));
    }
}

/// Every word that begins with a given letter has a first letter.
pub proof fn lemma_starting_with_not_empty(words: Seq<Seq<char>>, c: char, i: int)
    requires
        0 <= i < starting_with(words, c).len(),
    ensures
        starting_with(words, c)[i].len() > 0,
        starting_with(words, c)[i][0] == c,
{
    words.lemma_filter_pred(begins_with(c), i);
}

/// The board has finitely many letters, fewer than the limit of `char`
/// codes, and no chain misses more letters than the board has.
pub proof fn lemma_missing_bounded(sides: Seq<Seq<char>>, chain: Seq<Seq<char>>)
    ensures
        alphabet(sides).finite(),
        alphabet(sides).len() <= char_limit(),
        missing_letters(sides, chain).finite(),
        missing(sides, chain) <= alphabet(sides).len(),
{
    lemma_flatten_is_alphabet(sides);
    lemma_letter_set_bounded(alphabet(sides));
    vstd::set_lib::lemma_len_difference(alphabet(sides), letters_used(chain));
}

/// The letters of all the words, laid end to end.
fn letters_of_all(words: &Vec<String>) -> (letters: Vec<char>)
    ensures
        letters@ == words_of(words@).flatten(),
{
    let mut letters: Vec<char> = Vec::new();
    let mut i: usize = 0;
    while i < words.len()
        invariant
            i <= words.len(),
            letters@ == words_of(words@).take(i as int).flatten(),
        decreases words.len() - i,
    {
        let mut word = letters_of(words[i].as_str());
        proof {
            let seen = words_of(words@).take(i as int);
            assert(words_of(words@).take(i + 1) =~= seen.push(word@));
            seen.lemma_flatten_push(word@);
        }
        letters.append(&mut word);
        i += 1;
    }
    assert(words_of(words@).take(words@.len() as int) =~= words_of(words@));
    letters
}

/// A copy of the chain with the word appended.
fn extended(chain: &Vec<String>, word: &String) -> (longer: Vec<String>)
    ensures
        longer@ == chain@.push(*word),
{
    let mut longer: Vec<String> = Vec::new();
    let mut i: usize = 0;
    while i < chain.len()
        invariant
            i <= chain.len(),
            longer@ == chain@.take(i as int),
        decreases chain.len() - i,
    {
        longer.push(chain[i].clone());
        assert(chain@.take(i + 1) =~= chain@.take(i as int).push(chain@[i as int]));
        i += 1;
    }
    assert(chain@.take(chain@.len() as int) =~= chain@);
    longer.push(word.clone());
    longer
}

/// A copy of the list of words.
fn copied(words: &Vec<String>) -> (copy: Vec<String>)
    ensures
        copy@ == words@,
{
    let mut copy: Vec<String> = Vec::new();
    let mut i: usize = 0;
    while i < words.len()
        invariant
            i <= words.len(),
            copy@ == words@.take(i as int),
        decreases words.len() - i,
    {
        copy.push(words[i].clone());
        assert(words@.take(i + 1) =~= words@.take(i as int).push(words@[i as int]));
        i += 1;
    }
    assert(words@.take(words@.len() as int) =~= words@);
    copy
}

/// The words of the list that begin with the given letter, in the order of
/// the list.
fn words_starting_with(words: &Vec<String>, c: char) -> (chosen: Vec<String>)
    ensures
        words_of(chosen@) == starting_with(words_of(words@), c),
{
    let ghost begins = begins_with(c);
    let mut chosen: Vec<String> = Vec::new();
    let mut i: usize = 0;
    while i < words.len()
        invariant
            i <= words.len(),
            begins == begins_with(c),
            words_of(chosen@) == words_of(words@).take(i as int).filter(begins),
        decreases words.len() - i,
    {
        let word = words[i].as_str();
        proof {
            let seen = words_of(words@).take(i as int);
            assert(words_of(words@).take(i + 1) =~= seen.push(word@));
            seen.lemma_filter_push(word@, begins);
        }
        if !word.is_empty() && word.get_char(0) == c {
            let ghost before = chosen@;
            chosen.push(words[i].clone());
            assert(words_of(chosen@) =~= words_of(before).push(word@));
        }
        i += 1;
    }
    assert(words_of(words@).take(words@.len() as int) =~= words_of(words@));
    chosen
}

impl LetterBoxed {
    /// The missing count of a chain of words on this board.
    pub fn check_missing_chars(&self, words: &Vec<String>) -> (count: u32)
        ensures
            count == missing(self@, words_of(words@)),
    {
        let board_letters = without_repeats(&self.get_all_chars());
        let used = letters_of_all(words);
        let ghost used_set = letters_used(words_of(words@));
        proof {
            board_letters@.unique_seq_to_set();
            lemma_missing_bounded(self@, words_of(words@));
            assert(board_letters@.take(0).to_set().difference(used_set) =~= Set::<char>::empty());
        }
        let mut count: u32 = 0;
        let mut i: usize = 0;
        while i < board_letters.len()
            invariant
                i <= board_letters.len(),
                board_letters@.len() <= char_limit(),
                board_letters@.no_duplicates(),
                used@.to_set() == used_set,
                count <= i,
                count == board_letters@.take(i as int).to_set().difference(used_set).len(),
            decreases board_letters.len() - i,
        {
            let c = board_letters[i];
            proof {
                let seen = board_letters@.take(i as int);
                assert(board_letters@.take(i + 1) =~= seen.push(c));
                seen.lemma_push_to_set_commute(c);
                vstd::seq_lib::seq_to_set_is_finite(seen);
                assert(!seen.to_set().contains(c)) by {
                    if seen.contains(c) {
                        let k = choose|k: int| 0 <= k < seen.len() && seen[k] == c;
                        assert(board_letters@[k] == board_letters@[i as int]);
                    }
                }
                let unused = seen.to_set().difference(used_set);
                if used_set.contains(c) {
                    assert(seen.to_set().insert(c).difference(used_set) =~= unused);
                } else {
                    assert(seen.to_set().insert(c).difference(used_set) =~= unused.insert(c));
                }
            }
            if !has_letter(&used, c) {
                count += 1;
            }
            i += 1;
        }
        assert(board_letters@.take(board_letters@.len() as int) =~= board_letters@);
        count
    }

    /// The greedy search for a chain that misses no letter of this board.
    /// It starts from `candidate` with the pool `current_possible_words`,
    /// draws every later pool from `possible_words`, and appends at most
    /// `budget` words.
    pub fn find_recursive(
        &self,
        possible_words: &Vec<String>,
        current_possible_words: Vec<String>,
        candidate: Vec<String>,
        budget: u64,
    ) -> (outcome: Result<Vec<String>, SolveError>)
        requires
            forall|i: int|
                0 <= i < current_possible_words@.len() ==> (
                #[trigger] current_possible_words@[i])@.len() > 0,
        ensures
            outcome_words(outcome) == search(
                self@,
                words_of(possible_words@),
                words_of(current_possible_words@),
                words_of(candidate@),
                budget as nat,
            ),
    {
        let ghost sides = self@;
        let ghost words = words_of(possible_words@);
        let ghost goal = search(
            sides,
            words,
            words_of(current_possible_words@),
            words_of(candidate@),
            budget as nat,
        );
        let mut pool = current_possible_words;
        let mut chain = candidate;
        let mut left = budget;
        loop
            invariant
                sides == self@,
                words == words_of(possible_words@),
                goal == search(
                    self@,
                    words_of(possible_words@),
                    words_of(current_possible_words@),
                    words_of(candidate@),
                    budget as nat,
                ),
                forall|i: int| 0 <= i < pool@.len() ==> (#[trigger] pool@[i])@.len() > 0,
                search(sides, words, words_of(pool@), words_of(chain@), left as nat) == goal,
            decreases left,
        {
            if pool.len() == 0 {
                return Err(SolveError::NoCandidate);
            }
            if left == 0 {
                return Err(SolveError::Exhausted);
            }
            let ghost pool_words = words_of(pool@);
            let ghost chain_words = words_of(chain@);
            let mut best: u32 = u32::MAX;
            let mut best_at: usize = 0;
            let mut best_chain: Vec<String> = Vec::new();
            let mut k: usize = 0;
            while k < pool.len()
                invariant
                    k <= pool.len(),
                    left > 0,
                    sides == self@,
                    pool_words == words_of(pool@),
                    chain_words == words_of(chain@),
                    search(sides, words, pool_words, chain_words, left as nat) == goal,
                    goal == search(
                        self@,
                        words_of(possible_words@),
                        words_of(current_possible_words@),
                        words_of(candidate@),
                        budget as nat,
                    ),
                    k == 0 ==> best == u32::MAX,
                    k > 0 ==> {
                        &&& best > 0
                        &&& best_at < k
                        &&& best == missing_after(sides, chain_words, pool_words[best_at as int])
                        &&& is_first_best(
                            sides,
                            chain_words,
                            pool_words.take(k as int),
                            best_at as int,
                        )
                        &&& words_of(best_chain@) == chain_words.push(pool_words[best_at as int])
                    },
                decreases pool.len() - k,
            {
                let curr = extended(&chain, &pool[k]);
                assert(words_of(curr@) =~= chain_words.push(pool_words[k as int]));
                let count = self.check_missing_chars(&curr);
                proof {
                    lemma_missing_bounded(sides, words_of(curr@));
                    let seen = pool_words.take(k as int);
                    assert(pool_words.take(k + 1) =~= seen.push(pool_words[k as int]));
                    if k > 0 {
                        assert(seen[best_at as int] == pool_words[best_at as int]);
                        lemma_first_best_push(
                            sides,
                            chain_words,
                            seen,
                            pool_words[k as int],
                            best_at as int,
                        );
                    } else {
                        assert(is_first_best(sides, chain_words, pool_words.take(1), 0));
                    }
                }
                if count == 0 {
                    proof {
                        let more = pool_words.take(k + 1);
                        assert(is_first_best(sides, chain_words, pool_words, k as int)) by {
                            assert forall|j: int| 0 <= j < k implies missing_after(
                                sides,
                                chain_words,
                                pool_words[k as int],
                            ) < #[trigger] missing_after(sides, chain_words, pool_words[j]) by {
                                assert(more[j] == pool_words[j]);
                                assert(missing_after(sides, chain_words, more[k as int])
                                    < missing_after(sides, chain_words, more[j]));
                            }
                        }
                        lemma_first_best_unique(sides, chain_words, pool_words, k as int);
                    }
                    return Ok(curr);
                }
                if count < best {
                    best = count;
                    best_at = k;
                    best_chain = curr;
                }
                k += 1;
            }
            proof {
                assert(pool_words.take(pool_words.len() as int) =~= pool_words);
                lemma_first_best_unique(sides, chain_words, pool_words, best_at as int);
            }
            let letters = letters_of(pool[best_at].as_str());
            let last = letters[letters.len() - 1];
            assert(last == pool_words[best_at as int].last());
            pool = words_starting_with(possible_words, last);
            chain = best_chain;
            left = left - 1;
            proof {
                assert forall|i: int| 0 <= i < pool@.len() implies (#[trigger] pool@[i])@.len()
                    > 0 by {
                    assert(words_of(pool@)[i] == pool@[i]@);
                    lemma_starting_with_not_empty(words, last, i);
                }
            }
        }
    }

    /// The most words that `solve` lets a chain have on this board.
    pub fn step_limit(&self) -> (limit: u64)
        ensures
            limit == step_limit(self@),
    {
        let board_letters = without_repeats(&self.get_all_chars());
        proof {
            board_letters@.unique_seq_to_set();
            lemma_missing_bounded(self@, Seq::empty());
        }
        let n = board_letters.len() as u64;
        assert(n * n <= 0x110000 * 0x110000) by (nonlinear_arith)
            requires
                n <= 0x110000,
        ;
        n * n + 1
    }

    /// Looks for a chain of legal words of the list that together use every
    /// letter of this board. The search is greedy: it starts with the legal
    /// word that leaves the fewest letters missing, goes on with the words
    /// that begin where the chain ends, and never takes a word back. It
    /// fails with `NoCandidate` where no word can follow the chain, and with
    /// `Exhausted` where the chain has reached the step limit of the board.
    pub fn solve(&self, dict: &Vec<String>) -> (outcome: Result<Vec<String>, SolveError>)
        ensures
            outcome_words(outcome) == solution(self@, words_of(dict@)),
            outcome matches Ok(chain) ==> {
                &&& is_linked(words_of(chain@))
                &&& letters_used(words_of(chain@)) == alphabet(self@)
                &&& forall|i: int|
                    0 <= i < chain@.len() ==> is_legal(self@, (#[trigger] chain@[i])@)
            },
    {
        proof {
            let found = solution(self@, words_of(dict@));
            if found is Ok {
                lemma_solution_linked(self@, words_of(dict@));
                lemma_solution_covers(self@, words_of(dict@));
                assert forall|i: int| 0 <= i < found->Ok_0.len() implies is_legal(
                    self@,
                    #[trigger] found->Ok_0[i],
                ) by {
                    lemma_solution_words_legal(self@, words_of(dict@), i);
                }
            }
        }
        let legal = self.legal_words(dict);
        let pool = copied(&legal);
        let limit = self.step_limit();
        proof {
            assert forall|i: int| 0 <= i < pool@.len() implies (#[trigger] pool@[i])@.len() > 0 by {
                assert(words_of(legal@)[i] == pool@[i]@);
                words_of(dict@).lemma_filter_pred(legal_on(self@), i);
            }
        }
        let start: Vec<String> = Vec::new();
        assert(words_of(start@) =~= Seq::<Seq<char>>::empty());
        let outcome = self.find_recursive(&legal, pool, start, limit);
        proof {
            if outcome is Ok {
                let chain = outcome->Ok_0;
                let found = solution(self@, words_of(dict@))->Ok_0;
                assert(words_of(chain@) == found);
                assert forall|i: int| 0 <= i < chain@.len() implies is_legal(
                    self@,
                    (#[trigger] chain@[i])@,
                ) by {
                    assert(found[i] == chain@[i]@);
                }
            }
        }
        outcome
    }
}

} // verus!
