//! The circuit DAG: nodes, the graph itself and its step-by-step generator.
pub mod generator;
pub mod graph;
pub mod node;

pub use graph::DAG;
pub use node::{Node, OpType};
