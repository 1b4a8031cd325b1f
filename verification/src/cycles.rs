//! Why the step limit loses nothing: a search that has not ended within the
//! limit has come back to a position it was in before, and goes round in
//! circles from there on, whatever the budget.

use vstd::prelude::*;
use crate::board::{alphabet, lemma_flatten_is_alphabet};
use crate::chain::{
    begins_with, first_best, is_first_best, lemma_first_best_exists, lemma_first_best_unique,
    lemma_missing_bounded, missing, missing_after, missing_letters, search, solution,
    starting_with, step_limit, SolveError,
};
use crate::legality::{is_legal, legal_on, legal_words};

verus! {

/// Where a search stands: the chain so far and the pool to extend it from.
pub struct Position {
    pub pool: Seq<Seq<char>>,
    pub chain: Seq<Seq<char>>,
}

/// The word that the search appends next.
pub open spec fn chosen(sides: Seq<Seq<char>>, at: Position) -> Seq<char> {
    at.pool[first_best(sides, at.chain, at.pool)]
}

/// The search takes a step from here and does not end with it: there is a
/// word to append, and the longer chain still misses a letter.
pub open spec fn goes_on(sides: Seq<Seq<char>>, at: Position) -> bool {
    at.pool.len() > 0 && missing(sides, at.chain.push(chosen(sides, at))) != 0
}

/// Where the search stands after its next step.
pub open spec fn next(sides: Seq<Seq<char>>, words: Seq<Seq<char>>, at: Position) -> Position {
    Position {
        pool: starting_with(words, chosen(sides, at).last()),
        chain: at.chain.push(chosen(sides, at)),
    }
}

/// Where the search stands after `steps` steps.
pub open spec fn after(
    sides: Seq<Seq<char>>,
    words: Seq<Seq<char>>,
    at: Position,
    steps: nat,
) -> Position
    decreases steps,
{
    if steps == 0 {
        at
    } else {
        after(sides, words, next(sides, words, at), (steps - 1) as nat)
    }
}

/// The search takes `steps` steps from here and ends with none of them.
pub open spec fn runs(
    sides: Seq<Seq<char>>,
    words: Seq<Seq<char>>,
    at: Position,
    steps: nat,
) -> bool
    decreases steps,
{
    steps == 0 || (goes_on(sides, at) && runs(
        sides,
        words,
        next(sides, words, at),
        (steps - 1) as nat,
    ))
}

/// The outcome of the search from a position.
pub open spec fn search_from(
    sides: Seq<Seq<char>>,
    words: Seq<Seq<char>>,
    at: Position,
    budget: nat,
) -> Result<Seq<Seq<char>>, SolveError> {
    search(sides, words, at.pool, at.chain, budget)
}

/// Two positions from which the search takes the same steps: the pools are
/// the same and the chains miss the same letters.
pub open spec fn alike(sides: Seq<Seq<char>>, a: Position, b: Position) -> bool {
    a.pool == b.pool && missing_letters(sides, a.chain) == missing_letters(sides, b.chain)
}

/// Steps add up.
pub proof fn lemma_after_add(
    sides: Seq<Seq<char>>,
    words: Seq<Seq<char>>,
    at: Position,
    first: nat,
    then: nat,
)
    ensures
        after(sides, words, at, first + then) == after(
            sides,
            words,
            after(sides, words, at, first),
            then,
        ),
        runs(sides, words, at, first + then) <==> runs(sides, words, at, first) && runs(
            sides,
            words,
            after(sides, words, at, first),
            then,
        ),
    decreases first,
{
    if first > 0 {
        lemma_after_add(sides, words, next(sides, words, at), (first - 1) as nat, then);
        assert((first + then - 1) as nat == (first - 1) as nat + then);
    }
}

/// While the search runs, the budget is spent step by step and the outcome
/// stays the same.
pub proof fn lemma_run_spends_budget(
    sides: Seq<Seq<char>>,
    words: Seq<Seq<char>>,
    at: Position,
    steps: nat,
    budget: nat,
)
    requires
        runs(sides, words, at, steps),
        steps <= budget,
    ensures
        search_from(sides, words, at, budget) == search_from(
            sides,
            words,
            after(sides, words, at, steps),
            (budget - steps) as nat,
        ),
    decreases steps,
{
    if steps > 0 {
        lemma_run_spends_budget(
            sides,
            words,
            next(sides, words, at),
            (steps - 1) as nat,
            (budget - 1) as nat,
        );
    }
}

/// A search that ends for want of budget has run for the whole budget, and
/// still has a word at hand.
pub proof fn lemma_exhausted_search_ran(
    sides: Seq<Seq<char>>,
    words: Seq<Seq<char>>,
    at: Position,
    budget: nat,
)
    requires
        search_from(sides, words, at, budget) == Err::<Seq<Seq<char>>, SolveError>(
            SolveError::Exhausted,
        ),
    ensures
        runs(sides, words, at, budget),
        after(sides, words, at, budget).pool.len() > 0,
    decreases budget,
{
    if budget > 0 {
        lemma_exhausted_search_ran(sides, words, next(sides, words, at), (budget - 1) as nat);
    }
}

/// A search that would run for more steps than the budget allows ends for
/// want of budget.
pub proof fn lemma_run_outlasts_budget(
    sides: Seq<Seq<char>>,
    words: Seq<Seq<char>>,
    at: Position,
    steps: nat,
    budget: nat,
)
    requires
        runs(sides, words, at, steps),
        budget < steps,
    ensures
        search_from(sides, words, at, budget) == Err::<Seq<Seq<char>>, SolveError>(
            SolveError::Exhausted,
        ),
{
    lemma_after_add(sides, words, at, budget, (steps - budget) as nat);
    lemma_run_spends_budget(sides, words, at, budget, budget);
    assert(goes_on(sides, after(sides, words, at, budget)));
}

/// Appending a word to a chain takes the letters of the word out of the
/// letters that the chain misses.
pub proof fn lemma_missing_after_word(sides: Seq<Seq<char>>, chain: Seq<Seq<char>>, word: Seq<char>)
    ensures
        missing_letters(sides, chain.push(word)) == missing_letters(sides, chain).difference(
            word.to_set(),
        ),
{
    chain.lemma_flatten_push(word);
    vstd::seq_lib::seq_to_set_distributes_over_add(chain.flatten(), word);
    assert(missing_letters(sides, chain.push(word)) =~= missing_letters(sides, chain).difference(
        word.to_set(),
    ));
}

/// From positions that are alike the search chooses the same word.
pub proof fn lemma_alike_choose_alike(sides: Seq<Seq<char>>, a: Position, b: Position)
    requires
        alike(sides, a, b),
        a.pool.len() > 0,
    ensures
        chosen(sides, a) == chosen(sides, b),
        missing(sides, a.chain.push(chosen(sides, a))) == missing(
            sides,
            b.chain.push(chosen(sides, b)),
        ),
        goes_on(sides, a) == goes_on(sides, b),
{
    let pool = a.pool;
    lemma_first_best_exists(sides, a.chain, pool);
    let k = first_best(sides, a.chain, pool);
    assert forall|j: int| 0 <= j < pool.len() implies missing_after(sides, a.chain, pool[j])
        == missing_after(sides, b.chain, pool[j]) by {
        lemma_missing_after_word(sides, a.chain, pool[j]);
        lemma_missing_after_word(sides, b.chain, pool[j]);
    }
    assert(is_first_best(sides, b.chain, pool, k)) by {
        assert forall|j: int| 0 <= j < k implies missing_after(sides, b.chain, pool[k])
            < #[trigger] missing_after(sides, b.chain, pool[j]) by {
            assert(missing_after(sides, a.chain, pool[k]) < missing_after(sides, a.chain, pool[j]));
        }
        assert forall|j: int| k <= j < pool.len() implies missing_after(sides, b.chain, pool[k])
            <= #[trigger] missing_after(sides, b.chain, pool[j]) by {
            assert(missing_after(sides, a.chain, pool[k]) <= missing_after(
                sides,
                a.chain,
                pool[j],
            ));
        }
    }
    lemma_first_best_unique(sides, b.chain, pool, k);
    assert(missing_after(sides, a.chain, pool[k]) == missing_after(sides, b.chain, pool[k]));
}

/// Positions that are alike stay alike step by step.
pub proof fn lemma_alike_stay_alike(
    sides: Seq<Seq<char>>,
    words: Seq<Seq<char>>,
    a: Position,
    b: Position,
)
    requires
        alike(sides, a, b),
        a.pool.len() > 0,
    ensures
        alike(sides, next(sides, words, a), next(sides, words, b)),
{
    lemma_alike_choose_alike(sides, a, b);
    lemma_missing_after_word(sides, a.chain, chosen(sides, a));
    lemma_missing_after_word(sides, b.chain, chosen(sides, b));
}

/// From positions that are alike the search fails alike: with the same
/// budget both searches find a chain, or both fail for the same reason.
pub proof fn lemma_alike_fail_alike(
    sides: Seq<Seq<char>>,
    words: Seq<Seq<char>>,
    a: Position,
    b: Position,
    budget: nat,
)
    requires
        alike(sides, a, b),
    ensures
        search_from(sides, words, a, budget) is Err == search_from(sides, words, b, budget) is Err,
        search_from(sides, words, a, budget) is Err ==> search_from(sides, words, a, budget)->Err_0
            == search_from(sides, words, b, budget)->Err_0,
    decreases budget,
{
    if a.pool.len() > 0 && budget > 0 {
        lemma_alike_choose_alike(sides, a, b);
        lemma_alike_stay_alike(sides, words, a, b);
        lemma_alike_fail_alike(
            sides,
            words,
            next(sides, words, a),
            next(sides, words, b),
            (budget - 1) as nat,
        );
    }
}

/// A search that comes back to a position like the one it started from
/// never ends with a chain: whatever the budget, it ends for want of it.
pub proof fn lemma_circle_never_ends(
    sides: Seq<Seq<char>>,
    words: Seq<Seq<char>>,
    at: Position,
    round: nat,
    budget: nat,
)
    requires
        round >= 1,
        runs(sides, words, at, round),
        alike(sides, at, after(sides, words, at, round)),
    ensures
        search_from(sides, words, at, budget) == Err::<Seq<Seq<char>>, SolveError>(
            SolveError::Exhausted,
        ),
    decreases budget,
{
    if budget < round {
        lemma_run_outlasts_budget(sides, words, at, round, budget);
    } else {
        let rest = (budget - round) as nat;
        lemma_run_spends_budget(sides, words, at, round, budget);
        lemma_circle_never_ends(sides, words, at, round, rest);
        lemma_alike_fail_alike(sides, words, at, after(sides, words, at, round), rest);
    }
}

/// Every word of the list is legal on the board.
pub open spec fn all_legal(sides: Seq<Seq<char>>, words: Seq<Seq<char>>) -> bool {
    forall|i: int| 0 <= i < words.len() ==> is_legal(sides, #[trigger] words[i])
}

/// The last letter of the chain.
pub open spec fn last_letter(at: Position) -> char {
    at.chain.last().last()
}

/// A position that a step has led to: the chain ends with a letter of the
/// board, and the pool holds the words that begin with that letter.
pub open spec fn settled(sides: Seq<Seq<char>>, words: Seq<Seq<char>>, at: Position) -> bool {
    &&& at.chain.len() > 0
    &&& at.chain.last().len() > 0
    &&& alphabet(sides).contains(last_letter(at))
    &&& at.pool == starting_with(words, last_letter(at))
}

/// The words that begin with a given letter are words of the list.
pub proof fn lemma_starting_with_legal(sides: Seq<Seq<char>>, words: Seq<Seq<char>>, c: char)
    requires
        all_legal(sides, words),
    ensures
        all_legal(sides, starting_with(words, c)),
{
    let pool = starting_with(words, c);
    assert forall|i: int| 0 <= i < pool.len() implies is_legal(sides, #[trigger] pool[i]) by {
        assert(pool.contains(pool[i]));
        words.lemma_filter_contains_rev(begins_with(c), pool[i]);
        let k = choose|k: int| 0 <= k < words.len() && words[k] == pool[i];
        assert(is_legal(sides, words[k]));
    }
}

/// A step from a pool of legal words leads to a settled position.
pub proof fn lemma_step_settles(sides: Seq<Seq<char>>, words: Seq<Seq<char>>, at: Position)
    requires
        all_legal(sides, at.pool),
        at.pool.len() > 0,
    ensures
        settled(sides, words, next(sides, words, at)),
{
    lemma_first_best_exists(sides, at.chain, at.pool);
    let word = chosen(sides, at);
    assert(is_legal(sides, word));
    assert(alphabet(sides).contains(word[word.len() - 1]));
}

/// A run of at least one step through legal words leads to a settled
/// position whose chain still misses a letter, and misses no letter that
/// the chain at the start did not miss.
pub proof fn lemma_run_settles(
    sides: Seq<Seq<char>>,
    words: Seq<Seq<char>>,
    at: Position,
    steps: nat,
)
    requires
        all_legal(sides, words),
        all_legal(sides, at.pool),
        runs(sides, words, at, steps),
        steps >= 1,
    ensures
        settled(sides, words, after(sides, words, at, steps)),
        missing(sides, after(sides, words, at, steps).chain) != 0,
        missing_letters(sides, after(sides, words, at, steps).chain).subset_of(
            missing_letters(sides, at.chain),
        ),
    decreases steps,
{
    let step = next(sides, words, at);
    lemma_step_settles(sides, words, at);
    lemma_missing_after_word(sides, at.chain, chosen(sides, at));
    if steps > 1 {
        lemma_starting_with_legal(sides, words, last_letter(step));
        lemma_run_settles(sides, words, step, (steps - 1) as nat);
    } else {
        assert(after(sides, words, step, 0) == step);
    }
}

/// After `steps` steps, at least one and at most as many as the board has
/// letters, the chain misses fewer letters than the chain at the start.
pub open spec fn misses_fewer(
    sides: Seq<Seq<char>>,
    words: Seq<Seq<char>>,
    at: Position,
    steps: nat,
) -> bool {
    &&& 1 <= steps <= alphabet(sides).len()
    &&& missing(sides, after(sides, words, at, steps).chain) < missing(sides, at.chain)
}

/// Among more letters of the board than the board has, one comes twice.
pub proof fn lemma_letter_comes_twice(sides: Seq<Seq<char>>, letters: Seq<char>) -> (pair: (
    int,
    int,
))
    requires
        letters.len() > alphabet(sides).len(),
        forall|i: int| 0 <= i < letters.len() ==> alphabet(sides).contains(#[trigger] letters[i]),
    ensures
        0 <= pair.0 < pair.1 < letters.len(),
        letters[pair.0] == letters[pair.1],
{
    lemma_flatten_is_alphabet(sides);
    if letters.no_duplicates() {
        letters.unique_seq_to_set();
        assert(letters.to_set().subset_of(alphabet(sides))) by {
            assert forall|c: char| letters.to_set().contains(c) implies alphabet(sides).contains(
                c,
            ) by {
                let i = choose|i: int| 0 <= i < letters.len() && letters[i] == c;
                assert(alphabet(sides).contains(letters[i]));
            }
        }
        vstd::set_lib::lemma_len_subset(letters.to_set(), alphabet(sides));
    }
    let (i, j) = choose|i: int, j: int|
        0 <= i < letters.len() && 0 <= j < letters.len() && i != j && letters[i] == letters[j];
    if i < j {
        (i, j)
    } else {
        (j, i)
    }
}

/// A settled run of as many steps as the board has letters either comes to
/// miss fewer letters, or comes to two positions that are alike. The
/// result tells which, and after how many steps.
pub proof fn lemma_phase(sides: Seq<Seq<char>>, words: Seq<Seq<char>>, at: Position) -> (found: (
    bool,
    nat,
    nat,
))
    requires
        all_legal(sides, words),
        settled(sides, words, at),
        runs(sides, words, at, alphabet(sides).len()),
    ensures
        found.0 ==> 1 <= found.1 <= alphabet(sides).len() && missing(
            sides,
            after(sides, words, at, found.1).chain,
        ) < missing(sides, at.chain),
        !found.0 ==> found.1 < found.2 <= alphabet(sides).len() && alike(
            sides,
            after(sides, words, at, found.1),
            after(sides, words, at, found.2),
        ),
{
    let n = alphabet(sides).len();
    if exists|u: nat| misses_fewer(sides, words, at, u) {
        let u = choose|u: nat| misses_fewer(sides, words, at, u);
        (true, u, 0)
    } else {
        lemma_starting_with_legal(sides, words, last_letter(at));
        let letters = Seq::new(n + 1, |u: int| last_letter(after(sides, words, at, u as nat)));
        assert forall|u: nat| u <= n implies {
            &&& settled(sides, words, #[trigger] after(sides, words, at, u))
            &&& missing_letters(sides, after(sides, words, at, u).chain) == missing_letters(
                sides,
                at.chain,
            )
        } by {
            if u >= 1 {
                lemma_after_add(sides, words, at, u, (n - u) as nat);
                lemma_run_settles(sides, words, at, u);
                let here = missing_letters(sides, after(sides, words, at, u).chain);
                let start = missing_letters(sides, at.chain);
                lemma_missing_bounded(sides, at.chain);
                lemma_missing_bounded(sides, after(sides, words, at, u).chain);
                vstd::set_lib::lemma_len_subset(here, start);
                assert(!misses_fewer(sides, words, at, u));
                vstd::set_lib::lemma_subset_equality(here, start);
            }
        }
        assert forall|i: int| 0 <= i < letters.len() implies alphabet(sides).contains(
            #[trigger] letters[i],
        ) by {
            assert(settled(sides, words, after(sides, words, at, i as nat)));
        }
        let (i, j) = lemma_letter_comes_twice(sides, letters);
        assert(settled(sides, words, after(sides, words, at, i as nat)));
        assert(settled(sides, words, after(sides, words, at, j as nat)));
        (false, i as nat, j as nat)
    }
}

/// A settled run of as many steps as the board has letters, times as many
/// as the chain misses, comes to two positions that are alike. The result
/// tells after how many steps.
pub proof fn lemma_run_repeats(
    sides: Seq<Seq<char>>,
    words: Seq<Seq<char>>,
    at: Position,
    steps: nat,
) -> (found: (nat, nat))
    requires
        all_legal(sides, words),
        settled(sides, words, at),
        missing(sides, at.chain) >= 1,
        runs(sides, words, at, steps),
        steps >= missing(sides, at.chain) * alphabet(sides).len(),
    ensures
        found.0 < found.1 <= steps,
        alike(
            sides,
            after(sides, words, at, found.0),
            after(sides, words, at, found.1),
        ),
    decreases missing(sides, at.chain),
{
    let n = alphabet(sides).len();
    let m = missing(sides, at.chain);
    assert(m * n >= n) by (nonlinear_arith)
        requires
            m >= 1,
    ;
    lemma_after_add(sides, words, at, n, (steps - n) as nat);
    let phase = lemma_phase(sides, words, at);
    if !phase.0 {
        (phase.1, phase.2)
    } else {
        let u = phase.1;
        let there = after(sides, words, at, u);
        let fewer = missing(sides, there.chain);
        lemma_starting_with_legal(sides, words, last_letter(at));
        lemma_after_add(sides, words, at, u, (steps - u) as nat);
        lemma_run_settles(sides, words, at, u);
        assert(steps - u >= fewer * n) by (nonlinear_arith)
            requires
                steps >= m * n,
                u <= n,
                fewer < m,
        ;
        let later = lemma_run_repeats(sides, words, there, (steps - u) as nat);
        lemma_after_add(sides, words, at, u, later.0);
        lemma_after_add(sides, words, at, u, later.1);
        (u + later.0, u + later.1)
    }
}

/// The step limit loses nothing. A search through legal words that ends
/// for want of budget at the step limit of the board ends for want of
/// budget with every budget: it never finds a chain.
pub proof fn lemma_step_limit_is_enough(
    sides: Seq<Seq<char>>,
    words: Seq<Seq<char>>,
    pool: Seq<Seq<char>>,
    chain: Seq<Seq<char>>,
    budget: nat,
)
    requires
        all_legal(sides, words),
        all_legal(sides, pool),
        search(sides, words, pool, chain, step_limit(sides)) == Err::<Seq<Seq<char>>, SolveError>(
            SolveError::Exhausted,
        ),
    ensures
        search(sides, words, pool, chain, budget) == Err::<Seq<Seq<char>>, SolveError>(
            SolveError::Exhausted,
        ),
{
    let n = alphabet(sides).len();
    let start = Position { pool, chain };
    let first = next(sides, words, start);
    lemma_exhausted_search_ran(sides, words, start, step_limit(sides));
    lemma_after_add(sides, words, start, 1, n * n);
    assert(after(sides, words, start, 1) == first) by {
        assert(after(sides, words, first, 0) == first);
    }
    lemma_run_settles(sides, words, start, 1);
    lemma_missing_bounded(sides, first.chain);
    let m = missing(sides, first.chain);
    assert(n * n >= m * n) by (nonlinear_arith)
        requires
            m <= n,
    ;
    let found = lemma_run_repeats(sides, words, first, n * n);
    let round = (found.1 - found.0) as nat;
    let circle = after(sides, words, first, found.0);
    lemma_after_add(sides, words, first, found.0, round);
    lemma_after_add(sides, words, first, found.1, (n * n - found.1) as nat);
    lemma_after_add(sides, words, start, 1, found.0);
    let lead = 1 + found.0;
    assert(runs(sides, words, start, lead)) by {
        lemma_after_add(sides, words, first, found.0, (n * n - found.0) as nat);
    }
    if budget < lead + 1 {
        lemma_after_add(sides, words, start, lead, round);
        lemma_run_outlasts_budget(sides, words, start, lead + round, budget);
    } else {
        lemma_run_spends_budget(sides, words, start, lead, budget);
        lemma_circle_never_ends(sides, words, circle, round, (budget - lead) as nat);
    }
}

/// A search that does not end for want of budget ends the same way with
/// every larger budget.
pub proof fn lemma_larger_budget_same_outcome(
    sides: Seq<Seq<char>>,
    words: Seq<Seq<char>>,
    pool: Seq<Seq<char>>,
    chain: Seq<Seq<char>>,
    budget: nat,
    larger: nat,
)
    requires
        budget <= larger,
        search(sides, words, pool, chain, budget) != Err::<Seq<Seq<char>>, SolveError>(
            SolveError::Exhausted,
        ),
    ensures
        search(sides, words, pool, chain, larger) == search(sides, words, pool, chain, budget),
    decreases budget,
{
    if pool.len() > 0 && budget > 0 {
        let word = pool[first_best(sides, chain, pool)];
        let longer = chain.push(word);
        if missing(sides, longer) != 0 {
            lemma_larger_budget_same_outcome(
                sides,
                words,
                starting_with(words, word.last()),
                longer,
                (budget - 1) as nat,
                (larger - 1) as nat,
            );
        }
    }
}

/// The step limit decides the search. For a board and a word list, the
/// greedy search among the legal words of the list, from the empty chain,
/// ends with every budget from the step limit of the board upwards as it
/// ends with the step limit: with the same chain, or with the same failure.
pub proof fn lemma_step_limit_decides(sides: Seq<Seq<char>>, dict: Seq<Seq<char>>, budget: nat)
    requires
        budget >= step_limit(sides),
    ensures
        search(
            sides,
            legal_words(sides, dict),
            legal_words(sides, dict),
            Seq::empty(),
            budget,
        ) == solution(sides, dict),
{
    let legal = legal_words(sides, dict);
    if solution(sides, dict) == Err::<Seq<Seq<char>>, SolveError>(SolveError::Exhausted) {
        assert(all_legal(sides, legal)) by {
            assert forall|i: int| 0 <= i < legal.len() implies is_legal(
                sides,
                #[trigger] legal[i],
            ) by {
                dict.lemma_filter_pred(legal_on(sides), i);
            }
        }
        lemma_step_limit_is_enough(sides, legal, legal, Seq::empty(), budget);
    } else {
        lemma_larger_budget_same_outcome(
            sides,
            legal,
            legal,
            Seq::empty(),
            step_limit(sides),
            budget,
        );
    }
}

} // verus!
