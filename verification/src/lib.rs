//! Analysis of an undirected transaction network: an adjacency-list graph
//! over string-identified nodes, breadth-first shortest paths, and a sampled
//! estimate of the average shortest-path length.

pub mod bfs;
pub mod graph;
pub mod sampler;
pub mod stats;
