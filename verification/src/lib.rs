//! Compensated summation of floating-point values, with arithmetic in
//! software on IEEE 754 bit patterns.
//!
//! The error-free transforms [`two_sum`] and [`fast_two_sum`] return the
//! rounded sum of two values and the error of that rounding. The
//! accumulators [`KahanBabuska`] and [`KahanBabuskaNeumaier`] are built on
//! them. All of them work on any [`Float`]: on [`Binary64`] and on
//! [`Binary32`], whose sums are proved to round the exact sum to nearest,
//! ties to even.

pub mod binary32;
pub mod binary64;
pub mod dev;
pub mod equality;
pub mod error_free;
pub mod float;
pub mod kahan;
pub mod neumaier;
pub mod number;
pub mod rounding;
pub mod running;
pub mod soft;
pub mod transform;

pub use binary32::Binary32;
pub use binary64::Binary64;
pub use float::Float;
pub use kahan::KahanBabuska;
pub use neumaier::KahanBabuskaNeumaier;
pub use transform::{fast_two_sum, two_sub, two_sum};
