//! Attach text tags to files and directories found by walking a tree.
//!
//! The library holds the verified logic: the report of a tagging run and its
//! merge, the ignore rules and include globs that select entries, the tag
//! store with its uniqueness discipline, and the engine that drives walked
//! entries through the store.

pub mod report;
pub mod pattern;
pub mod paths;
pub mod filter;
pub mod store;
pub mod engine;
