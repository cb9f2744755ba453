//! Analysis of directed citation graphs: degree-based pruning, labelling of
//! forward-reachable components, and ranking of components by edge density.

pub mod components;
pub mod density;
pub mod graph;
pub mod loader;
pub mod prune;
pub mod ranking;

pub use density::Density;
pub use graph::{Graph, GraphError};
