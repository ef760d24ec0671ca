//! Word-count core: argument parsing, the word iterator, and the line, word,
//! character and byte counts with their output formatting.

pub mod command;
pub mod counts;
pub mod iterators;
