//! A directed graph kept in an arena, with depth-first, breadth-first and
//! priority-first traversals over it.
//!
//! Nodes live in the [`digraph::Digraph`] that owns them and are named by
//! their key; an edge stores the position of its peer in the arena, so a
//! cycle of edges is no cycle of ownership. Every mutation goes through the
//! graph, which keeps the two adjacency lists of each edge in step.

pub mod error;
pub mod adjacent;
pub mod node;
pub mod model;
pub mod edge;
pub mod digraph;
pub mod method;
pub mod frontier;
pub mod heap;
pub mod path;
pub mod walk;
pub mod run;
pub mod progress;
pub mod level;
pub mod search;
pub mod dfs;
pub mod bfs;
pub mod pfs;
pub mod laws;
