//! Two-way reconciliation of directory trees.
//!
//! The crate holds the decisions of a synchronisation run and leaves every
//! filesystem call to its caller: directory listings come in as plain values,
//! and what has to be copied goes out as a list of operations.

pub mod laws;
pub mod metadata;
pub mod model;
pub mod outcome;
pub mod path;
pub mod plan;
pub mod scan;
pub mod sync;
pub mod tree;
