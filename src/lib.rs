//! Word ladders: the cheapest chain of dictionary words from one word to
//! another, where a step's cost is a multi-resolution count of letter edits.
pub mod distance;
