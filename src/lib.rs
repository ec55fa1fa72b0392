//! Bulk-synchronous label propagation over an undirected graph, with a
//! shuffled-join strategy and a replicated-adjacency strategy that provably
//! agree, plus the pieces a PageRank driver shares with it.

pub mod adjacency;
pub mod catalog;
pub mod coordinator;
pub mod graph;
pub mod labels;
pub mod laws;
pub mod relax;
