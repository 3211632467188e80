//! A verified solver engine for a five-letter word-guessing game.
//!
//! The solver keeps a knowledge state of everything learned from past
//! guesses against a hidden target word, filters a dictionary down to the
//! words consistent with that knowledge, and ranks the remaining candidates
//! by letter-frequency statistics to pick the next guess.

pub mod filter;
pub mod freq;
pub mod knowledge;
pub mod score;
pub mod solver;
pub mod words;
