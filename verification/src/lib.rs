//! Directed, undirected, multi- and compound graphs over string identifiers,
//! with depth-first traversal.

pub mod algo;
pub mod consistency;
pub mod edge;
pub mod error;
pub mod filter;
pub mod filter_laws;
pub mod graph;
pub mod hierarchy;
pub mod laws;
pub mod model;
pub mod ordered_map;
pub mod removal;

pub use edge::Edge;
pub use graph::DefaultEdgeLabel;
pub use graph::DefaultNodeLabel;
pub use graph::EdgeLabelOrString;
pub use graph::EdgeOrString;
pub use graph::Graph;
pub use graph::GraphOption;
