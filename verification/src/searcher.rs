//! Regex-based fuzzy searching of candidate strings, with ranking and highlighting
//! helpers.
pub mod matches;
pub mod pattern;
pub mod compile;
pub mod search;
pub mod util;
