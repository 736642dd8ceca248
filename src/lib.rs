//! Test-support assertions on vectors: order-insensitive comparison of two
//! sequences as multisets, with a positional report of what did not match.

pub mod assert_vec;
pub mod model;
pub mod render;

pub use assert_vec::AssertVec;
