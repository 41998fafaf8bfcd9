//! Comparison of two directory trees, entry by entry.
//!
//! The library holds the rules of the comparison: how the entries of a
//! directory are ordered and paired, how a pair is judged, and how the
//! workers share the directories that are still to be visited. Reading the
//! file system and printing are left to the caller.
//!
//! - [`file_type_enum`], [`path`] and [`entry`]: what a directory entry is to
//!   the comparison, and how entries are ordered.
//! - [`merge`]: the pairing of the entries of two directories.
//! - [`content`]: the judgement of a pair of files or of links.
//! - [`diff`]: the differences that are reported.
//! - [`stack`] and [`worker`]: the workers and the stacks from which they
//!   take the directories.
//! - [`outcome`] and [`pool`]: what the comparison comes to, and why the
//!   workers neither lose a directory nor go on for ever.

pub mod content;
pub mod diff;
pub mod entry;
pub mod file_type_enum;
pub mod merge;
pub mod outcome;
pub mod path;
pub mod pool;
pub mod stack;
pub mod worker;
