//! A node graph engine for CAD.
//!
//! Nodes are either library operations or host objects: drawing objects
//! whose property rows are the ports. The engine owns the graph and the
//! dataflow (ordering, list lacing, value coercion) and asks the [`Host`]
//! to create, edit and read objects and to evaluate operation calls.
pub mod fields;
pub mod graph;
pub mod laws;
pub mod op_laws;
pub mod ops;
pub mod strings;
pub mod value;

pub use graph::{Graph, Host, Kind, Link, Node, NodeId, Port};
pub use ops::{Input, Spec};
