//! Exact univariate polynomial algebra over rational coefficients.

pub mod integer;
pub mod rational;
pub mod monomial;
pub mod polynomial;
pub mod arith;
pub mod division;
pub mod error;
pub mod text;
pub mod parse;
pub mod format;
pub mod number;
pub mod lexer;
pub mod laws;
pub mod round_trip;
pub mod uniqueness;
