//! Rewrites the committed history of a content-addressed repository:
//! compiles path patterns into predicates, rewrites directory trees against
//! them, remaps parent hashes through an append-only table, and repoints
//! refs to the rewritten graph.

pub mod laws;
pub mod objects;
pub mod patterns;
pub mod pipeline;
pub mod rewrite;
pub mod table;
