//! Exact minimum directed feedback vertex sets: a cardinality-tracking bit
//! set, strongly connected components, and a branch-and-bound search over a
//! word-encoded graph.

pub mod bitset;
pub mod graph;
pub mod exact;
