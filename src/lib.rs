//! Arbitrary-precision signed decimal integers, stored as little-endian digit sequences.
pub mod digits;
pub mod number;
pub mod arith;
pub mod division;
pub mod laws;
