//! Flattening of a hierarchical document-source tree into a single flat
//! directory: a deterministic mapping from a segmented path to a flat file
//! name, and a rewriting engine that updates cross-reference commands inside
//! document text to use the same flat naming scheme.

pub mod flatten;
pub mod laws;
pub mod rewrite;
pub mod text;
