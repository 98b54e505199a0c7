//! An in-memory, hierarchical namespace of directories and files, plus a
//! small two-phase byte buffer that separates inbound argument accumulation
//! from outbound response streaming.
//!
//! The tree is an inode-indexed arena: every node lives in one growable
//! table, directory entries name child slots by index, and a node that is
//! overwritten out of its parent's entry list stays alive in the table
//! (detached, but still addressable through any handle already held).

pub mod fs;
pub mod paths;
pub mod trans;
