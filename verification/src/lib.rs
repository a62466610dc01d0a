//! Estimation of the "small world" property in a bipartite
//! user-product interaction graph.
//!
//! The crate samples bounded subsets of entities from a record stream,
//! builds an undirected graph for each subset, computes average shortest
//! path lengths by breadth-first search, and compares the two graphs
//! against the six-degrees-of-separation threshold.

pub mod assoc;
pub mod compare;
pub mod graph;
pub mod paths;
pub mod sampler;
