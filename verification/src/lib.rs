//! A word-puzzle assistant: filters a word list against positional and
//! exclusion constraints, and ranks the surviving candidates by a
//! letter-frequency score built from a corpus.

pub mod chars;
pub mod filter;
pub mod freq;
pub mod freq_file;
pub mod parse;
pub mod pipeline;
pub mod score;
pub mod select;
