//! Recovery of an alphabet permutation from its smooshed Morse encoding:
//! the concatenation, without separators, of each letter's Morse pattern in
//! permutation order. A segmented backtracking search commits letters in
//! small groups, validates each group's bits against the target stream, and
//! backtracks on mismatch or exhaustion.

pub mod frame;
pub mod morse;
pub mod permutations;

pub use frame::SegmentChars;
pub use morse::ValidationError;
pub use permutations::run;
