//! A deterministic gravitational N-body engine.
//!
//! Every coordinate is kept as the bit pattern of an IEEE 754 binary
//! floating-point number and all arithmetic on it is carried out in integer
//! code, so that a trajectory is the same on every machine.

pub mod arith;
pub mod bounds;
pub mod format;
pub mod generator;
pub mod laws;
pub mod pow;
pub mod rounding;
pub mod scalar;
pub mod universe;

