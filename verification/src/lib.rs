//! A graph-traversal toolkit: breadth-first and depth-first exploration of a
//! graph's reachability structure, visitation bookkeeping (seen flags plus a
//! predecessor map), and utilities that validate or reconstruct paths from the
//! predecessor maps the traversals produce.

pub mod bfs;
pub mod dfs;
pub mod graph;
pub mod hanoi;
pub mod path;
pub mod tracker;
