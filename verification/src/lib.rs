//! Fuzzy searching of candidate strings (regex based and longest-common-subsequence
//! based), highlighting helpers, ANSI string building, and the pure decision logic
//! of a media casting server (file cache, directory tree, track language choice and
//! the front state machine).
pub mod fuzzy;
pub mod text;
pub mod lcs;
pub mod searcher;
pub mod net;
pub mod ansistring;
pub mod server;
pub mod order;
