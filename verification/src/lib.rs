//! Feedforward neural networks: topology, shape validation and the
//! orchestration of inference and online training over abstract layers.

pub mod layer;
pub mod network;
pub mod neural_net;
