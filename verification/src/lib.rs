//! A scalar reverse-mode differentiation engine.
//!
//! A computation is a graph of operations in an arena, its nodes named by
//! their index. [`value_ops`] holds the operations and the local derivative
//! rule of each, [`graph`] the topology, and [`forward`] and [`backward`]
//! decide in which order a pass goes over the nodes. [`tape`] is the engine
//! itself: the graph together with a value and a gradient for every node. It
//! works with scalars of any type and with the arithmetic that its user
//! supplies, see [`formula`]; what its passes make of the values and gradients
//! is stated in [`passes`]. [`neuron`] builds the weighted sum of a neuron.

pub mod value_ops;
pub mod graph;
pub mod forward;
pub mod backward;
pub mod formula;
pub mod passes;
pub mod tape;
pub mod neuron;

pub use graph::Graph;
pub use neuron::{weighted_sum, WeightedSum};
pub use formula::Formula;
pub use tape::{backprop, reset, tanh, Tape};
pub use value_ops::{
    AddOperation, Factor, MulOperation, NoneOperation, Operation, Push, SubOperation,
    TanhOperation,
};
