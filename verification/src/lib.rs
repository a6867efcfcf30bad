//! A solver for five-letter word-guessing puzzles.
//!
//! Each turn the solver picks the dictionary word whose feedback is expected
//! to shrink the set of remaining candidates the most. The feedback rules,
//! the candidate filter, the guess search and the turn sequence are stated
//! over mathematical models and proved against them.

pub mod constraints;
pub mod dictionary;
pub mod feedback;
pub mod filter;
pub mod game;
pub mod optimizer;
pub mod word;
pub mod wordlist;
