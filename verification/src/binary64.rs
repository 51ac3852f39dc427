//! IEEE 754 binary64 numbers held as bit patterns, with correctly rounded arithmetic.

pub mod arithmetic;
pub mod closeness;
pub mod deviation;
pub mod errors;
pub mod laws;
pub mod nearness;
pub mod number;
pub mod powers;
pub mod rank;
pub mod rounding;
pub mod scaling;

pub use number::Binary64;
