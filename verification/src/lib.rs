//! Directory-tree modelling: a filter-aware builder that turns a snapshot of a
//! filesystem subtree into an in-memory tree, plus a structured text codec for
//! exporting and re-importing such trees.

pub mod cli;
pub mod codec;
pub mod fs;
pub mod render;
