//! An undirected graph of labelled nodes with breadth-first distance, shortest-path
//! and centrality queries.

pub mod bfs;
pub mod graph;
pub mod ingest;
