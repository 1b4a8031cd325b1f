use wordgames::chain::SolveError;
use wordgames::dictionary::read_words;
use wordgames::game::Game;

fn strings(words: &[&str]) -> Vec<String> {
    words.iter().map(|w| w.to_string()).collect()
}

#[test]
fn letter_boxed_from_arguments_and_word_list_text() {
    let args = strings(&["letterboxed", "AB", "cd", "EF"]);
    let dict = read_words("Face\nEBAD\nebd\nzzz\nfa\n");
    match Game::from(&args[..]) {
        Game::LetterBoxed(board) => {
            assert_eq!(board.legal_words(&dict), strings(&["face", "ebd"]));
            assert_eq!(board.solve(&dict), Ok(strings(&["face", "ebd"])));
        }
        other => panic!("unexpected game {:?}", other),
    }
}

#[test]
fn letter_boxed_without_a_chain_fails_without_panic() {
    let args = strings(&["letterboxed", "ab", "cd", "ef"]);
    let dict = read_words("face\nebad\n");
    match Game::from(&args[..]) {
        Game::LetterBoxed(board) => {
            assert_eq!(board.solve(&dict), Err(SolveError::NoCandidate));
        }
        other => panic!("unexpected game {:?}", other),
    }
}

#[test]
fn spelling_bee_from_arguments_and_word_list_text() {
    let args = strings(&["spellingbee", "o", "olfeinr"]);
    let dict = read_words("Reinforce\nfeloniefier\nreoffering\nfelon\n");
    match Game::from(&args[..]) {
        Game::SpellingBee(bee) => assert_eq!(bee.solve(&dict), strings(&["feloniefier"])),
        other => panic!("unexpected game {:?}", other),
    }
}

#[test]
fn crossplay_from_arguments_and_word_list_text() {
    let args = strings(&["crossplay", "art*", "c.t"]);
    let dict = read_words("CAT\ncart\ncut\nbat\n");
    match Game::from(&args[..]) {
        Game::Crossplay(game) => assert_eq!(game.solve(&dict), strings(&["cat", "cut"])),
        other => panic!("unexpected game {:?}", other),
    }
}
