//! An in-memory labeled multigraph.
//!
//! Vertices carry a caller-assigned numeric identifier and a display label;
//! edges connect two existing vertices, carry an exact decimal weight, and
//! keep both endpoints' adjacency lists synchronized.  A breadth-first
//! traversal labels every vertex with its hop distance from a start vertex.
//! A plain-text description of a graph can be parsed into a [`graph::Graph`].

pub mod edge;
pub mod file_processor;
pub mod graph;
pub mod import;
pub mod text;
pub mod traversal;
pub mod vertex;
