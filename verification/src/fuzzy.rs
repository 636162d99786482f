//! Incremental longest-common-subsequence matching.
pub mod dp;
pub mod lcs;
pub mod iterator;
pub mod matcher;
pub mod util;
pub mod substring;
pub mod compile;
pub mod search;
