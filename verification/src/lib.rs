//! A node-graph evaluation engine for reliability block diagrams.
//!
//! A diagram is a directed graph of nodes with named input and output ports.
//! The engine computes the value of a node's outputs by resolving the node's
//! inputs on demand, remembering every output it has computed during a pass,
//! and reporting a dependency cycle instead of looping.

pub mod cache;
pub mod edit;
pub mod evaluator;
pub mod graph;
pub mod laws;
pub mod semantics;
pub mod state;
pub mod template;
pub mod types;

