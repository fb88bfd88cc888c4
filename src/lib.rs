//! Aggregate statistics of a filesystem subtree: per-node counters of files,
//! directories, links, other entries, errors and real size, rolled up from the
//! children, with failures kept as data at the node where they were met.

pub mod laws;
pub mod tree;
pub mod walk;
