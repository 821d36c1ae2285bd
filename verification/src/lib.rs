//! Reachability, shortest-path distances, and bounded subgraph samples over an
//! unweighted graph described as a flat edge list.
//!
//! The graph is built once from line-oriented text (two whitespace-separated
//! node ids per line) and is immutable afterwards; traversal, distance, and
//! sampling operations each return a freshly owned result.

pub mod dist;
pub mod graph;
pub mod loader;
pub mod parse;
pub mod paths;
pub mod random;
pub mod reach;
pub mod route;
pub mod sample;
pub mod traverse;

pub use graph::Graph;
pub use graph::GraphEntry;
