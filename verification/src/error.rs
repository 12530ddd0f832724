//! The failures that the operations of this library report.

use vstd::prelude::*;

verus! {

/// Why an operation was refused.
#[derive(Clone, Copy, Debug, PartialEq, Eq, Structural)]
pub enum PolynomialError {
    /// A term was given a negative power.
    InvalidPower,
    /// The divisor of a division or remainder was the zero polynomial.
    DivisionByZeroPolynomial,
    /// The step of a root search was not positive.
    InvalidStep,
    /// Fewer than two sample points were asked for.
    InsufficientSamples,
}

impl PolynomialError {
    /// What went wrong, in words.
    pub fn message(&self) -> (s: &'static str)
        ensures
            s@ == (match *self {
                PolynomialError::InvalidPower => "Requested a term with a negative power."@,
                PolynomialError::DivisionByZeroPolynomial => "Requested division with zero polynomial."@,
                PolynomialError::InvalidStep => "dx should be positive."@,
                PolynomialError::InsufficientSamples => "Requested less than 2 samples for plotting."@,
            }),
    {
        match self {
            PolynomialError::InvalidPower => "Requested a term with a negative power.",
            PolynomialError::DivisionByZeroPolynomial => "Requested division with zero polynomial.",
            PolynomialError::InvalidStep => "dx should be positive.",
            PolynomialError::InsufficientSamples => "Requested less than 2 samples for plotting.",
        }
    }
}

} // verus!
