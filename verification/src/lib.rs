//! Sparse univariate polynomials over decimal fixed-point numbers.
//!
//! A [`Polynomial`] keeps one term for each power whose coefficient is not
//! zero. Coefficients are [`Fixed`] numbers: millionths in an `i64`, with
//! saturating arithmetic that rounds toward zero. A number that comes as a
//! single-precision bit pattern is read by [`Fixed::from_binary32`]. The crate
//! offers the ring operations, long division, derivative and integral,
//! evaluation, a search for real roots by a sweep, curves for plotting, and
//! text.
//!
//! Every operation is stated over the model of a polynomial, a map from
//! powers to raw coefficients (see [`model`]), and proved against it.

pub mod arith;
pub mod binary32;
pub mod calculus;
pub mod division;
pub mod equality;
pub mod error;
pub mod evaluation;
pub mod fixed;
pub mod laws;
pub mod model;
pub mod polynomial;
pub mod render;
pub mod roots;
pub mod sampling;

pub use crate::error::PolynomialError;
pub use crate::fixed::Fixed;
pub use crate::polynomial::{Polynomial, Term};
pub use crate::sampling::{Curve, Plot};
