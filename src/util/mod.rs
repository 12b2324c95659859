pub mod bfs_directed;
pub mod digraph;
