use wordgames::board::LetterBoxed;
use wordgames::crossplay::Crossplay;
use wordgames::game::{Game, GameError};
use wordgames::spelling_bee::SpellingBee;

fn strings(words: &[&str]) -> Vec<String> {
    words.iter().map(|w| w.to_string()).collect()
}

#[test]
fn letter_boxed_takes_one_argument_per_side() {
    let args = strings(&["letterboxed", "abc", "DEF", "ghi", "jkl"]);
    let board = LetterBoxed::new(&strings(&["abc", "def", "ghi", "jkl"]));
    assert_eq!(Game::from(&args[..]), Game::LetterBoxed(board.clone()));
    assert_eq!(Game::parse(&args), Ok(Game::LetterBoxed(board)));
}

#[test]
fn letter_boxed_may_have_no_sides() {
    let args = strings(&["letterboxed"]);
    assert_eq!(Game::from(&args[..]), Game::LetterBoxed(LetterBoxed::new(&[])));
}

#[test]
fn unknown_name_gives_no_game() {
    let args = strings(&["sudoku", "abc"]);
    assert_eq!(Game::from(&args[..]), Game::Error);
    assert_eq!(Game::parse(&args), Err(GameError::UnknownKind));
    let args = strings(&["LetterBoxed", "abc"]);
    assert_eq!(Game::parse(&args), Err(GameError::UnknownKind));
    let args = strings(&[""]);
    assert_eq!(Game::parse(&args), Err(GameError::UnknownKind));
}

#[test]
fn missing_name_gives_no_game() {
    let args: Vec<String> = Vec::new();
    assert_eq!(Game::from(&args[..]), Game::Error);
    assert_eq!(Game::parse(&args), Err(GameError::UnknownKind));
}

#[test]
fn spelling_bee_takes_centre_and_allowed_letters() {
    let args = strings(&["spellingbee", "o", "olfeinr"]);
    let bee = SpellingBee::new('o', "olfeinr");
    assert_eq!(Game::parse(&args), Ok(Game::SpellingBee(bee.clone())));
    assert_eq!(Game::from(&args[..]), Game::SpellingBee(bee));
}

#[test]
fn spelling_bee_with_wrong_arguments_is_malformed() {
    for args in [
        strings(&["spellingbee"]),
        strings(&["spellingbee", "o"]),
        strings(&["spellingbee", "o", "olfeinr", "x"]),
        strings(&["spellingbee", "ol", "olfeinr"]),
        strings(&["spellingbee", "", "olfeinr"]),
    ] {
        assert_eq!(Game::parse(&args), Err(GameError::MalformedArguments));
        assert_eq!(Game::from(&args[..]), Game::Error);
    }
}

#[test]
fn crossplay_takes_rack_and_pattern() {
    let args = strings(&["crossplay", "art*", "c.t"]);
    let game = Crossplay::new("art*", "c.t");
    assert_eq!(Game::parse(&args), Ok(Game::Crossplay(game.clone())));
    assert_eq!(Game::from(&args[..]), Game::Crossplay(game));
}

#[test]
fn crossplay_with_wrong_arguments_is_malformed() {
    for args in [
        strings(&["crossplay"]),
        strings(&["crossplay", "art*"]),
        strings(&["crossplay", "art*", "c.t", "x"]),
    ] {
        assert_eq!(Game::parse(&args), Err(GameError::MalformedArguments));
        assert_eq!(Game::from(&args[..]), Game::Error);
    }
}
