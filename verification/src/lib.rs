//! Complex numbers `re + im*I` over IEEE 754 binary64.
//!
//! A real number is a [`Double`], the bit pattern of a binary64 number. Its
//! sum, difference, product, quotient and square root are computed on the
//! bits and are the exact results rounded to nearest, ties to even: each
//! contract gives the result over the integers, in units of `2^-1074`, and
//! `nearest` shows what that rounding promises. [`Complex`] has the
//! arithmetic operators for two complex numbers and for a complex and a
//! real number in either order, the conjugate, the magnitude and a power by
//! repeated multiplication; `laws` holds what is proved of them.
//!
//! Nothing here computes a sine, cosine, arctangent, logarithm or
//! exponential of a real number. The functions that rest on one, in
//! `polar`, take its value as a parameter, and their contracts give the
//! result for every such value. In the same way `display` takes the
//! decimal texts of the two parts.

pub mod binary64;
pub mod complex;
pub mod complex_ops;
pub mod convert;
pub mod display;
pub mod identities;
pub mod laws;
pub mod nearest;
pub mod polar;
pub mod product;
pub mod quotient;
pub mod root;
pub mod rounding;
pub mod sum;
pub mod word;

pub use crate::binary64::Double;
pub use crate::complex::Complex;
pub use crate::polar::Polar;
