//! A directed-graph container with per-node payloads, adjacency mutation,
//! depth-first reachability from node 0, and a line-oriented text format.

pub mod codec;
pub mod error;
pub mod graph;
pub mod laws;
pub mod model;
mod node;
pub mod outside;
pub mod parse;
pub mod round_trip;
pub mod text;
pub mod text_laws;
pub mod tgf;
pub mod traversal;

pub use error::GraphError;
pub use graph::Graph;
pub use model::{GraphModel, NodeModel};
