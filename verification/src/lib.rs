//! Find the first directory with real content in a tree of nested folders.
//!
//! Starting from a directory, the resolver descends as long as the current
//! directory holds exactly one entry and that entry is itself a directory,
//! and stops at the first directory that is empty, holds a lone
//! non-directory entry, or holds two or more entries of any kind.
//!
//! The crate is split in two layers:
//! - [`listing`] classifies the immediate children of one directory and
//!   decides whether the descent continues, scanning the entries lazily so
//!   that it can stop as soon as the outcome is settled;
//! - [`tree`] models a directory tree as plain values and runs the full
//!   descent over it, proved against a recursive specification.

pub mod listing;
pub mod tree;

pub use tree::resolve;
