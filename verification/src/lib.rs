//! Core engine of a letter-puzzle solver: a word index answering anagram and
//! wildcard-pattern queries over a fixed word list.

pub mod board;
pub mod dictionary;
pub mod laws;
pub mod letters;

use vstd::prelude::*;

verus! {

/// The solver's run parameters, as the surrounding command line hands them
/// over: where the word list lives, the shortest word worth indexing, which
/// day's board to solve, and whether to keep quiet about progress. `quiet`
/// only silences reporting; it never changes index contents or query results.
pub struct SolveArgs {
    pub dict_path: String,
    pub min_word_length: usize,
    pub date: String,
    pub quiet: bool,
}

} // verus!
