//! A categorical distribution over `k` outcomes whose weights are IEEE 754
//! binary64 numbers, handled throughout by their 64-bit encodings.
//!
//! [`binary64`] reads an encoding: what kind of number it is, how many units
//! of `2^-1074` it counts, how two numbers compare, what whole part a number
//! has. [`rounding`] says which number an exact value rounds to, and
//! [`arithmetic`] gives sums, products and quotients as the exact results,
//! rounded. [`categorical`] builds the distribution on these: it validates
//! and accumulates the weights, finds the outcome of a uniform draw, and
//! evaluates the distribution function and the mean.
//!
//! A caller that holds the numbers as floating-point values hands each in
//! by its bits and makes each result from the bits that come back.

pub mod binary64;
pub mod rounding;
pub mod arithmetic;
pub mod error;
pub mod categorical;

pub use crate::categorical::{is_valid_prob_mass, Categorical};
pub use crate::error::StatsError;
