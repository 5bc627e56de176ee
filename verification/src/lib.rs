//! ghola: content-addressed version history with no stored diffs.
//!
//! Objects (blob, tree, commit) are immutable and named by the SHA-256 of
//! their canonical encoding; history is a DAG of commits; diffs and merges
//! are computed on demand from whole snapshots.

pub mod bytes;
pub mod cli;
pub mod client;
pub mod digest;
pub mod edit_graph;
pub mod graph;
pub mod history;
pub mod merge;
pub mod myers;
pub mod object;
pub mod reach;
pub mod repo;
pub mod server;
pub mod snapshot;
pub mod text;
pub mod tree_merge;
pub mod treediff;
pub mod trees;
pub mod wire;
pub mod worktree;
