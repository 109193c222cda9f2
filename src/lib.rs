//! Deterministic transcendental functions over integer-backed fixed-point values.
//!
//! Every kernel runs a number of steps fixed by the destination format and uses
//! checked fixed-point arithmetic, so the same inputs give the same bits on every
//! platform. Each function's result is stated exactly, bit for bit, by a spec
//! function over mathematical integers.

pub mod fixed;
pub mod consts;
pub mod transcendental;

pub use fixed::{Fixed, Format};
pub use transcendental::{asin, cos, exp, ln, log2, pow, rs, sin, sqrt, tan};
