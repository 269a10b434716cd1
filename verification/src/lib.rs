//! A reverse-mode automatic-differentiation engine over N-dimensional strided
//! tensors with broadcasting.
//!
//! Scalars are rationals in canonical form, so every arithmetic contract is
//! stated and proved as an equality of values; a result whose reduced
//! numerator or denominator leaves the 64-bit component range is clamped,
//! and the specifications model that clamping exactly.

pub mod nn;
pub mod ops;
pub mod optim;
pub mod rat;
pub mod shape;
pub mod tensor;
pub mod trace;
pub mod utils;
