// Picks the next best guess in a fixed-length word-guessing game by
// maximizing expected information gain, optionally extended with bounded
// multi-step lookahead.
//
// The pieces, leaves first: `word` holds the fixed-length word model,
// `pattern` the duplicate-letter-aware feedback classifier, `logfp` the
// fixed-point binary logarithm that all scores are measured in, `entropy`
// the partition and entropy model of one guess against a pool, `search` the
// scoring engine with its recursive lookahead and the parallel fan-out, and
// `rank` the candidate ordering and the top-level best-guess search.

pub mod entropy;
pub mod errors;
pub mod logfp;
pub mod pattern;
pub mod rank;
pub mod search;
pub mod word;

use vstd::prelude::*;

verus! {

/// The fixed word length of the game.
pub const WORD_LEN: usize = 5;

/// Number of distinct feedback patterns: 3 colors at each of the 5 positions.
pub const MASK_SIZE: usize = 243;

} // verus!
