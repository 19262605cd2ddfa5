//! Errors of reading polynomials from text.

use vstd::prelude::*;

verus! {

/// Why a text could not be read as a term or a polynomial.
#[derive(Clone, Copy, Debug, PartialEq, Eq, Structural)]
pub enum ParseError {
    /// The text does not have the shape of a term.
    InvalidSyntax,
    /// A term has the coefficient zero.
    InvalidValue,
    /// The degree after `x^` is not an integer.
    ParseInt,
    /// The coefficient is not a number.
    ParseRational,
}

} // verus!
