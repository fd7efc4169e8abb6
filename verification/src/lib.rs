//! A generic task-dependency-graph executor together with the ACE
//! cross-section table layer that is built on top of it.
//!
//! `graph` holds the dependency graph and its acyclicity guarantee,
//! `store` the write-once result store, `executor` the scheduling state
//! machine and the blocking executor, and `ace_data` / `blocks` the
//! column-oriented ACE table model whose sections are decoded as tasks
//! of such a graph.

pub mod errors;
pub mod graph;
pub mod store;
pub mod executor;
pub mod ace_data;
pub mod blocks;
