//! Which puzzle a command line asks for.

use vstd::prelude::*;
use vstd::slice::slice_subrange;
use vstd::std_specs::convert::FromSpecImpl;
use crate::board::{sides_from, LetterBoxed};
use crate::crossplay::{Crossplay, CrossplayRules};
use crate::spelling_bee::{BeeRules, SpellingBee};
use crate::text::{letters_of, same_text};

verus! {

/// A puzzle, ready to be solved.
#[derive(Debug, Clone, PartialEq, Eq)]
pub enum Game {
    /// The puzzle with a board of sides.
    LetterBoxed(LetterBoxed),
    /// The puzzle with a centre letter.
    SpellingBee(SpellingBee),
    /// The puzzle with a rack and a pattern.
    Crossplay(Crossplay),
    /// No puzzle: the arguments name none, or do not fit the one they name.
    Error,
}

/// What a puzzle is, told by what it was given.
pub enum GameView {
    LetterBoxed(Seq<Seq<char>>),
    SpellingBee(BeeRules),
    Crossplay(CrossplayRules),
    Error,
}

/// Why a list of arguments gives no puzzle.
#[derive(Debug, Clone, Copy, PartialEq, Eq, Structural)]
pub enum GameError {
    /// The first argument is missing or names no puzzle.
    UnknownKind,
    /// The arguments after the name do not fit the puzzle.
    MalformedArguments,
}

impl View for Game {
    type V = GameView;

    open spec fn view(&self) -> GameView {
        match self {
            Game::LetterBoxed(board) => GameView::LetterBoxed(board@),
            Game::SpellingBee(bee) => GameView::SpellingBee(bee@),
            Game::Crossplay(game) => GameView::Crossplay(game@),
            Game::Error => GameView::Error,
        }
    }
}

/// The name of the puzzle with a board of sides.
pub open spec fn letter_boxed_name() -> Seq<char> {
    "letterboxed"@
}

/// The name of the puzzle with a centre letter.
pub open spec fn spelling_bee_name() -> Seq<char> {
    "spellingbee"@
}

/// The name of the puzzle with a rack and a pattern.
pub open spec fn crossplay_name() -> Seq<char> {
    "crossplay"@
}

/// The puzzle that a list of arguments asks for. The first argument names
/// the puzzle. Letter Boxed takes one further argument per side, any
/// number of them. The puzzle with a centre letter takes two: the centre,
/// which is a single letter, and the allowed letters. The puzzle with a
/// rack takes two: the rack and the pattern.
pub open spec fn parsed(args: Seq<String>) -> Result<GameView, GameError> {
    if args.len() == 0 {
        Err(GameError::UnknownKind)
    } else if args[0]@ == letter_boxed_name() {
        Ok(GameView::LetterBoxed(sides_from(args.subrange(1, args.len() as int))))
    } else if args[0]@ == spelling_bee_name() {
        if args.len() == 3 && args[1]@.len() == 1 {
            Ok(GameView::SpellingBee(BeeRules { center: args[1]@[0], allowed: args[2]@ }))
        } else {
            Err(GameError::MalformedArguments)
        }
    } else if args[0]@ == crossplay_name() {
        if args.len() == 3 {
            Ok(GameView::Crossplay(CrossplayRules { rack: args[1]@, pattern: args[2]@ }))
        } else {
            Err(GameError::MalformedArguments)
        }
    } else {
        Err(GameError::UnknownKind)
    }
}

/// The puzzle that a list of arguments asks for, with no puzzle in place
/// of either failure.
pub open spec fn selected(args: Seq<String>) -> GameView {
    match parsed(args) {
        Ok(game) => game,
        Err(_) => GameView::Error,
    }
}

/// The outcome of parsing with the puzzle told by what it was given.
pub open spec fn parse_outcome(outcome: Result<Game, GameError>) -> Result<GameView, GameError> {
    match outcome {
        Ok(game) => Ok(game@),
        Err(e) => Err(e),
    }
}

impl Game {
    /// Reads the puzzle that a list of arguments asks for.
    pub fn parse(args: &[String]) -> (outcome: Result<Game, GameError>)
        ensures
            parse_outcome(outcome) == parsed(args@),
    {
        if args.len() == 0 {
            return Err(GameError::UnknownKind);
        }
        let name = args[0].as_str();
        if same_text(name, "letterboxed") {
            let sides = slice_subrange(args, 1, args.len());
            Ok(Game::LetterBoxed(LetterBoxed::new(sides)))
        } else if same_text(name, "spellingbee") {
            if args.len() != 3 {
                return Err(GameError::MalformedArguments);
            }
            let center = letters_of(args[1].as_str());
            if center.len() != 1 {
                return Err(GameError::MalformedArguments);
            }
            Ok(Game::SpellingBee(SpellingBee::new(center[0], args[2].as_str())))
        } else if same_text(name, "crossplay") {
            if args.len() != 3 {
                return Err(GameError::MalformedArguments);
            }
            Ok(Game::Crossplay(Crossplay::new(args[1].as_str(), args[2].as_str())))
        } else {
            Err(GameError::UnknownKind)
        }
    }
}

impl From<&[String]> for Game {
    /// The puzzle that a list of arguments asks for, or `Game::Error`.
    fn from(args: &[String]) -> (game: Game)
        ensures
            game@ == selected(args@),
    {
        match Game::parse(args) {
            Ok(game) => game,
            Err(_) => Game::Error,
        }
    }
}

impl FromSpecImpl<&[String]> for Game {
    /// `from` is specified by its own contract, over the view of the
    /// puzzle: a board cannot be named in a specification.
    open spec fn obeys_from_spec() -> bool {
        false
    }

    open spec fn from_spec(args: &[String]) -> Game {
        choose|game: Game| game@ == selected(args@)
    }
}

} // verus!
