//! A solver for a five-letter word-guessing puzzle.
//!
//! The feedback oracle compares a guess with a hidden target; the solver keeps
//! the dictionary words that every observed feedback still allows, ranked by
//! usage weight.
//!
//! Repeated letters follow the simple containment rule throughout: a letter of
//! the guess that is not in its place is `Misplaced` whenever the target holds
//! it anywhere, however often, and `consistent` reads feedback the same way.

pub mod feedback;
pub mod frequencies;
pub mod solver;
pub mod laws;
pub mod game;
pub mod text;
