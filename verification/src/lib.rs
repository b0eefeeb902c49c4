//! Evaluation of a single arithmetic equation over fractional numbers.
//!
//! A fraction value ([`arg::Arg`]) carries a whole part, a numerator and a
//! denominator, and supports conversion between mixed and improper form,
//! reduction to lowest terms, parsing from text and rendering back to text.
//! An [`equation::Equation`] pairs two fraction values with one operator and
//! evaluates to a single normalized fraction value.

pub mod arg;
pub mod equation;
pub mod errors;
pub mod gcd;
pub mod laws;
pub mod numerals;
pub mod operand;
pub mod split;
