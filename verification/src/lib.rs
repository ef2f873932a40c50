//! Curation of a tagged frequency word list into a compact word pool, and
//! generation of seven-letter center-letter word puzzles from that pool.
//!
//! The pipeline has two stages. The admissibility filter decides which corpus
//! words enter the pool; the puzzle generator filters the pool against a
//! seven-letter alphabet with a distinguished center letter, and the daily
//! scheduler derives such an alphabet deterministically from a day index.

use vstd::prelude::*;

pub mod daily;
pub mod filter;
pub mod lexicon;
pub mod norm;
pub mod pool;
pub mod puzzle;
pub mod rng;
pub mod utils;

verus! {

/// The ways puzzle generation can fail.
///
/// `TooFewWords` and `TooManyWords` reject a puzzle's shape and are
/// recoverable by retrying with other letters; `NoPangrams` means the compiled
/// pangram list is empty; `ExhaustedRetries` means the bounded retry loop of
/// the daily scheduler ran out of attempts.
#[derive(Clone, Copy, Debug, PartialEq, Eq, Structural)]
pub enum Error {
    TooFewWords,
    TooManyWords,
    NoPangrams,
    ExhaustedRetries,
}

impl Error {
    /// A short description of the error.
    pub fn message(&self) -> (r: &'static str)
        ensures
            r@ =~= match self {
                Error::TooFewWords => "Too few words"@,
                Error::TooManyWords => "Too many words"@,
                Error::NoPangrams => "No pangrams to choose from"@,
                Error::ExhaustedRetries => "Too many tries, failed to find puzzle"@,
            },
    {
        match self {
            Error::TooFewWords => "Too few words",
            Error::TooManyWords => "Too many words",
            Error::NoPangrams => "No pangrams to choose from",
            Error::ExhaustedRetries => "Too many tries, failed to find puzzle",
        }
    }
}

} // verus!
