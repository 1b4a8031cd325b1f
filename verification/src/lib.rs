//! Solvers for word puzzles played against a fixed word list.
//!
//! The main one is Letter Boxed ([`board`], [`legality`], [`chain`]): the
//! letters of a board are grouped into sides, a word may never go from a
//! letter to another letter of the same side, and the aim is a chain of
//! words, each beginning with the last letter of the word before, that
//! together use every letter of the board. [`chain_laws`] states what holds
//! of every chain found, and [`cycles`] why the limit on the length of a
//! chain costs no chain.
//!
//! Two plain filters stand beside it ([`spelling_bee`], [`crossplay`]).
//! [`dictionary`] reads a word list from text, [`game`] picks the puzzle
//! from command line arguments, and [`text`] holds what they all share.

pub mod text;
pub mod board;
pub mod legality;
pub mod chain;
pub mod chain_laws;
pub mod cycles;
pub mod dictionary;
pub mod spelling_bee;
pub mod crossplay;
pub mod game;
