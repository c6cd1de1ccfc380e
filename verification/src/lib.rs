//! A co-appearance graph library: builds an undirected simple graph from
//! group-membership tables (movie casts) and computes graph analytics over it.

pub mod bfs;
pub mod brandes;
pub mod builder;
pub mod centrality;
pub mod closeness;
pub mod components;
pub mod graph;
pub mod paths;
pub mod ratio;
pub mod reach;
pub mod sampling;
pub mod subgraph;
pub mod table;
