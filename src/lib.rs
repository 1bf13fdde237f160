//! An in-memory spatial graph of location nodes joined by undirected,
//! non-negatively weighted edges, with verified shortest-path queries.

pub mod graph;
pub mod laws;
pub mod queue;
pub mod route;

pub use graph::{manhattan_distance, BuildError, Edge, Graph, Link, Node};
pub use route::UNREACHABLE;
