//! A small artificial-neural-network computation engine over exact
//! fixed-point arithmetic: element-wise and per-column matrix transforms,
//! activation functions, a polymorphic neuron/synapse model, a two-layer
//! feed-forward network, and a sum-of-squared-error cost function.

pub mod fixed;
pub mod matrix;
pub mod network;
pub mod neuron;
pub mod utils;
