//! Deterministic core of a timed word-search puzzle: a lexicon of letters and
//! words, a grid engine for finding words and moving letters, and the game
//! state machine that ties them to a clock and a seeded generator.

pub mod clock;
pub mod generator;
pub mod lexicon;
pub mod dictionary;
pub mod grid;
pub mod paths;
pub mod words;
pub mod queue;
pub mod routes;
pub mod game;
pub mod budget;
