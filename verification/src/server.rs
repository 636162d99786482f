//! The pure decision logic of the casting server: track language choice, the
//! file cache and its directory tree, the configuration, and the states of the
//! front end.
pub mod lang;
pub mod tracks;
pub mod paths;
pub mod cache;
pub mod tree;
pub mod config;
pub mod job;
pub mod front;
pub mod scan;
pub mod filesearch;
pub mod queue;
pub mod node;
pub mod player;
pub mod machine;
pub mod filer_machine;
pub mod refresh;
pub mod process;
