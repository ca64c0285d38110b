//! Structural metrics over a static, undirected, unweighted graph: the degree of
//! every node, the number of nodes two hops away from it, one shortest path between
//! every pair of nodes, and betweenness scores drawn from those paths.
//!
//! - [`graph`] holds the adjacency list and the metrics read directly off it.
//! - [`paths`] says what walks and shortest paths are.
//! - [`algorithms`] computes shortest paths from one source and from all of them,
//!   on top of the priority queue in [`queue`].
//! - [`betweenness`] scores nodes by the paths that run through them.
//! - [`analysis`] runs all of the above over one graph.
//! - [`loader`] reads edges from lines of text.

pub mod algorithms;
pub mod analysis;
pub mod betweenness;
pub mod graph;
pub mod loader;
pub mod paths;
pub mod queue;
mod search;
