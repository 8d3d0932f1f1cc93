//! An immutable topology of a dataflow execution plan: operator vertices
//! connected through numbered ports by edges with dense 1-based ids.
//!
//! The heart of the crate is [`graph::LogicalGraph::new`], which validates a
//! flat, arbitrarily ordered list of edge descriptors and builds two
//! adjacency indices: which edge feeds each input port, and which edges each
//! output port feeds.

pub mod edge;
pub mod model;
pub mod graph;

pub use edge::Edge;
pub use edge::Port;
pub use graph::GraphError;
pub use graph::LogicalGraph;
