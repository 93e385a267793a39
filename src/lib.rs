//! Flattening of a directory tree: every file below the root is moved into the
//! root itself, with a numeric suffix where its name is already taken.
//!
//! The library holds the decisions; the caller performs the filesystem work
//! that each decision names and reports back what happened.
pub mod filter;
pub mod naming;
pub mod walk;
pub mod summary;
pub mod flatten;
pub mod confirm;
pub mod laws;
pub mod tree;
pub mod flatten_tree;
