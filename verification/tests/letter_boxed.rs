use wordgames::board::LetterBoxed;
use wordgames::chain::SolveError;

fn strings(words: &[&str]) -> Vec<String> {
    words.iter().map(|w| w.to_string()).collect()
}

fn small_board() -> LetterBoxed {
    LetterBoxed::new(&strings(&["ab", "cd", "ef"]))
}

#[test]
fn new_lower_cases_the_sides() {
    let board = LetterBoxed::new(&strings(&["AB", "cD"]));
    assert_eq!(board.get_all_chars(), vec!['a', 'b', 'c', 'd']);
    assert_eq!(board, LetterBoxed::new(&strings(&["ab", "cd"])));
}

#[test]
fn new_keeps_letters_that_have_no_lower_case() {
    let board = LetterBoxed::new(&strings(&["A1", "É?"]));
    assert_eq!(board.get_all_chars(), vec!['a', '1', 'É', '?']);
}

#[test]
fn board_without_sides_has_no_letters() {
    let board = LetterBoxed::new(&[]);
    assert_eq!(board.get_all_chars(), Vec::<char>::new());
    assert_eq!(board.get_valid_connections(&'a'), Vec::<char>::new());
    assert_eq!(board.solve(&strings(&["abc"])), Err(SolveError::NoCandidate));
}

#[test]
fn all_letters_come_in_board_order() {
    assert_eq!(small_board().get_all_chars(), vec!['a', 'b', 'c', 'd', 'e', 'f']);
}

#[test]
fn followers_are_the_letters_of_the_other_sides() {
    let board = small_board();
    assert_eq!(board.get_valid_connections(&'a'), vec!['c', 'd', 'e', 'f']);
    assert_eq!(board.get_valid_connections(&'d'), vec!['a', 'b', 'e', 'f']);
    assert_eq!(board.get_valid_connections(&'f'), vec!['a', 'b', 'c', 'd']);
}

#[test]
fn letter_off_the_board_is_followed_by_every_letter() {
    let board = small_board();
    assert_eq!(board.get_valid_connections(&'z'), vec!['a', 'b', 'c', 'd', 'e', 'f']);
}

#[test]
fn words_shorter_than_three_letters_are_rejected() {
    let board = small_board();
    assert!(!board.is_legal_word(""));
    assert!(!board.is_legal_word("a"));
    assert!(!board.is_legal_word("ac"));
    assert!(board.is_legal_word("ace"));
    let dict = strings(&["", "a", "ac", "fa", "ace"]);
    assert_eq!(board.legal_words(&dict), strings(&["ace"]));
}

#[test]
fn short_words_are_rejected_on_any_board() {
    let dict = strings(&["ac", "ca"]);
    assert_eq!(LetterBoxed::new(&strings(&["a", "c"])).legal_words(&dict), strings(&[]));
    assert_eq!(LetterBoxed::new(&strings(&["ac"])).legal_words(&dict), strings(&[]));
    assert_eq!(LetterBoxed::new(&[]).legal_words(&dict), strings(&[]));
}

#[test]
fn words_with_a_letter_off_the_board_are_rejected() {
    let board = small_board();
    assert!(!board.is_legal_word("aceg"));
    assert!(!board.is_legal_word("xce"));
    assert!(!board.is_legal_word("ACE"));
}

#[test]
fn words_with_neighbours_on_one_side_are_rejected() {
    let board = small_board();
    assert!(!board.is_legal_word("ebad"));
    assert!(!board.is_legal_word("abc"));
    assert!(!board.is_legal_word("aace"));
    assert!(board.is_legal_word("ebd"));
    assert!(board.is_legal_word("aca"));
}

#[test]
fn filter_keeps_the_order_of_the_list() {
    let board = small_board();
    let dict = strings(&["fade", "ebad", "face", "xyz", "ace", "fade"]);
    assert_eq!(board.legal_words(&dict), strings(&["fade", "face", "ace", "fade"]));
}

#[test]
fn kept_words_use_board_letters_on_alternating_sides() {
    let sides = ["ab", "cd", "ef"];
    let board = LetterBoxed::new(&strings(&sides));
    let dict = strings(&["face", "ebad", "fade", "bead", "deaf", "cafe", "decaf", "faced"]);
    let kept = board.legal_words(&dict);
    assert_eq!(kept, strings(&["face", "fade", "bead", "deaf", "decaf", "faced"]));
    for word in &kept {
        let letters: Vec<char> = word.chars().collect();
        for c in &letters {
            assert!(sides.iter().any(|s| s.contains(*c)));
        }
        for pair in letters.windows(2) {
            assert!(!sides.iter().any(|s| s.contains(pair[0]) && s.contains(pair[1])));
        }
    }
}

#[test]
fn missing_count_counts_unused_board_letters() {
    let board = small_board();
    assert_eq!(board.check_missing_chars(&strings(&[])), 6);
    assert_eq!(board.check_missing_chars(&strings(&["face"])), 2);
    assert_eq!(board.check_missing_chars(&strings(&["face", "face"])), 2);
    assert_eq!(board.check_missing_chars(&strings(&["face", "ebd"])), 0);
}

#[test]
fn missing_count_ignores_letters_off_the_board() {
    let board = small_board();
    assert_eq!(board.check_missing_chars(&strings(&["xyz"])), 6);
    assert_eq!(board.check_missing_chars(&strings(&["axbycz"])), 3);
}

#[test]
fn missing_count_counts_a_repeated_board_letter_once() {
    let board = LetterBoxed::new(&strings(&["aab", "bc"]));
    assert_eq!(board.check_missing_chars(&strings(&[])), 3);
    assert_eq!(board.check_missing_chars(&strings(&["b"])), 2);
}

#[test]
fn two_word_chain_is_found() {
    let board = small_board();
    let dict = strings(&["face", "ebd"]);
    assert_eq!(board.solve(&dict), Ok(strings(&["face", "ebd"])));
}

#[test]
fn single_word_that_covers_the_board_is_returned() {
    let board = LetterBoxed::new(&strings(&["a", "b", "c"]));
    let dict = strings(&["aba", "abc", "cab"]);
    assert_eq!(board.solve(&dict), Ok(strings(&["abc"])));
}

#[test]
fn stranded_chain_reports_no_candidate() {
    let board = small_board();
    let dict = strings(&["face", "ebad"]);
    assert_eq!(board.legal_words(&dict), strings(&["face"]));
    assert_eq!(board.solve(&dict), Err(SolveError::NoCandidate));
}

#[test]
fn empty_word_list_reports_no_candidate() {
    assert_eq!(small_board().solve(&strings(&[])), Err(SolveError::NoCandidate));
}

#[test]
fn first_of_equally_good_words_is_chosen() {
    let board = small_board();
    let dict = strings(&["face", "fade", "ebd", "ebc"]);
    assert_eq!(board.solve(&dict), Ok(strings(&["face", "ebd"])));
    let dict = strings(&["fade", "face", "ebd", "ebc"]);
    assert_eq!(board.solve(&dict), Ok(strings(&["fade", "ebc"])));
}

#[test]
fn better_word_later_in_the_list_is_chosen() {
    let board = small_board();
    let dict = strings(&["ace", "face", "ebd"]);
    assert_eq!(board.solve(&dict), Ok(strings(&["face", "ebd"])));
}

#[test]
fn search_is_greedy_and_may_miss_a_chain_that_exists() {
    let board = small_board();
    let dict = strings(&["faced", "face", "ebd"]);
    assert_eq!(board.solve(&dict), Err(SolveError::NoCandidate));
    let dict = strings(&["face", "ebd"]);
    assert_eq!(board.solve(&dict), Ok(strings(&["face", "ebd"])));
    let dict = strings(&["ace", "ebd", "dfa"]);
    assert_eq!(board.solve(&dict), Ok(strings(&["ace", "ebd", "dfa"])));
}

#[test]
fn search_that_goes_round_in_circles_is_cut_off() {
    let board = small_board();
    assert_eq!(board.step_limit(), 37);
    assert_eq!(board.solve(&strings(&["aca"])), Err(SolveError::Exhausted));
}

#[test]
fn larger_budget_than_the_step_limit_changes_nothing() {
    let board = small_board();
    let words = strings(&["aca"]);
    for budget in [37, 38, 1000] {
        let outcome = board.find_recursive(&words, words.clone(), Vec::new(), budget);
        assert_eq!(outcome, Err(SolveError::Exhausted));
    }
    let dict = strings(&["fade", "face", "ebd", "ebc"]);
    let legal = board.legal_words(&dict);
    for budget in [37, 38, 1000] {
        let outcome = board.find_recursive(&legal, legal.clone(), Vec::new(), budget);
        assert_eq!(outcome, board.solve(&dict));
    }
}

#[test]
fn step_limit_is_one_more_than_the_square_of_the_letter_count() {
    assert_eq!(LetterBoxed::new(&[]).step_limit(), 1);
    assert_eq!(LetterBoxed::new(&strings(&["a"])).step_limit(), 2);
    assert_eq!(LetterBoxed::new(&strings(&["aa", "ab"])).step_limit(), 5);
    assert_eq!(LetterBoxed::new(&strings(&["abc", "def", "ghi", "jkl"])).step_limit(), 145);
}

#[test]
fn chain_may_use_a_word_more_than_once() {
    let board = LetterBoxed::new(&strings(&["ac", "bdef"]));
    let dict = strings(&["abc", "cda", "cea", "cfa"]);
    assert_eq!(
        board.solve(&dict),
        Ok(strings(&["abc", "cda", "abc", "cea", "abc", "cfa"]))
    );
}

#[test]
fn returned_chain_is_linked_and_covers_the_board() {
    let board = LetterBoxed::new(&strings(&["ac", "bdef"]));
    let dict = strings(&["abc", "cda", "cea", "cfa"]);
    let chain = board.solve(&dict).unwrap();
    for pair in chain.windows(2) {
        assert_eq!(pair[0].chars().last(), pair[1].chars().next());
    }
    let mut used: Vec<char> = chain.iter().flat_map(|w| w.chars()).collect();
    used.sort();
    used.dedup();
    assert_eq!(used, vec!['a', 'b', 'c', 'd', 'e', 'f']);
    assert_eq!(board.check_missing_chars(&chain), 0);
}

#[test]
fn same_board_and_list_give_the_same_chain() {
    let dict = strings(&["fade", "face", "ebd", "ebc", "cafe"]);
    let first = small_board().solve(&dict);
    let second = small_board().solve(&dict.clone());
    assert_eq!(first, second);
    assert_eq!(first, Ok(strings(&["fade", "ebc"])));
}

#[test]
fn search_with_no_budget_is_exhausted() {
    let board = small_board();
    let words = strings(&["face", "ebd"]);
    let outcome = board.find_recursive(&words, words.clone(), Vec::new(), 0);
    assert_eq!(outcome, Err(SolveError::Exhausted));
}

#[test]
fn search_stops_when_the_budget_is_spent() {
    let board = small_board();
    let words = strings(&["face", "ebd"]);
    let outcome = board.find_recursive(&words, words.clone(), Vec::new(), 1);
    assert_eq!(outcome, Err(SolveError::Exhausted));
    let outcome = board.find_recursive(&words, words.clone(), Vec::new(), 2);
    assert_eq!(outcome, Ok(strings(&["face", "ebd"])));
}

#[test]
fn search_with_empty_pool_has_no_candidate() {
    let board = small_board();
    let words = strings(&["face", "ebd"]);
    let outcome = board.find_recursive(&words, Vec::new(), Vec::new(), 10);
    assert_eq!(outcome, Err(SolveError::NoCandidate));
    let outcome = board.find_recursive(&words, Vec::new(), Vec::new(), 0);
    assert_eq!(outcome, Err(SolveError::NoCandidate));
}

#[test]
fn search_goes_on_from_the_given_chain_and_pool() {
    let board = small_board();
    let words = strings(&["face", "ebd", "ebc"]);
    let outcome = board.find_recursive(&words, strings(&["ebc", "ebd"]), strings(&["face"]), 5);
    assert_eq!(outcome, Ok(strings(&["face", "ebd"])));
}

#[test]
fn search_from_a_complete_chain_appends_the_first_word() {
    let board = small_board();
    let words = strings(&["ace", "ebd"]);
    let outcome = board.find_recursive(&words, words.clone(), strings(&["face", "ebd"]), 3);
    assert_eq!(outcome, Ok(strings(&["face", "ebd", "ace"])));
}
