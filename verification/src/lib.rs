//! A model checker for a hierarchical, optimistic-concurrency document store.
//!
//! The library enumerates every legal interleaving of the low-level
//! read/write steps that a set of concurrent clients would emit while
//! performing higher-level document operations, executes each interleaving
//! against an in-memory replica of the store, and verifies after every step
//! that a structural invariant holds: every document is reachable through a
//! chain of directory entries from the root.

pub mod actor;
pub mod config;
pub mod db;
pub mod graph;
pub mod path;
pub mod payload;
pub mod planner;
pub mod runner;
pub mod store;
pub mod strutil;
