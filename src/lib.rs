//! Graph analysis over an undirected gene network: building the graph from an
//! edge list, reachability-based centrality, connected-component clustering,
//! and the flattening of disease-gene association records.
pub mod network;
pub mod builder;
pub mod loader;
pub mod centrality;
pub mod clustering;
pub mod associations;
