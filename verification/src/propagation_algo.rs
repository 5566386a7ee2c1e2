//! Refinement of a state by a condition: forward and backward propagation
//! over the tree of the condition's expression.

pub mod node;
pub mod propagation_algo;
