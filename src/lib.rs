//! A scalar reverse-mode automatic-differentiation engine and a small
//! feed-forward network built on it.
//!
//! The library holds the structure of the computation: the graph of nodes,
//! the order in which gradients flow back through it, and the way neurons,
//! layers and perceptrons lay out their parameters and build their outputs.
//! The numbers themselves (node values and gradients) live beside the graph,
//! indexed by node id, and are computed by the caller following the steps the
//! library hands out.

pub mod graph;
pub mod backward;
pub mod nn;

pub use backward::{Factor, Step};
pub use graph::{Graph, Op};
pub use nn::{Layer, MultiLayerPerceptron, Neuron, ShapeError};
