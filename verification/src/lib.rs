//! Arbitrary-precision signed integers stored as a sign and a little-endian
//! vector of machine-word digits.
use vstd::prelude::*;

pub mod big_int;
pub mod columns;
pub mod conversions;
pub mod digits;
pub mod laws;
pub mod order;

pub use crate::big_int::BigInt;
