//! A reverse-mode automatic-differentiation engine over scalar values,
//! with a multi-layer perceptron and gradient-descent training built on it.
//!
//! Scalar payloads are opaque 64-bit words: the engine records how every
//! node was derived and schedules gradient propagation, while the caller
//! interprets payloads numerically (IEEE-754 bit patterns in practice) and
//! carries out the scalar arithmetic that the schedule asks for.

pub mod graph;
pub mod backprop;
pub mod adjoint;
pub mod model;
pub mod training;
pub mod codec;

