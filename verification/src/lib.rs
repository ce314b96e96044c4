//! A word-counting library: splits lines of text into whitespace-delimited
//! tokens and tallies how often each token occurs. Counting is offered both
//! as a single sequential pass and as a partition-and-merge scheme suitable
//! for a pool of workers; both are proved to produce the same mapping.

pub mod cli;
pub mod counter;
pub mod counts;
pub mod laws;
pub mod tokens;
