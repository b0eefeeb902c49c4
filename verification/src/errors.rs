use vstd::prelude::*;

verus! {

/// Everything that can go wrong while parsing or solving an equation.
#[derive(Debug)]
pub enum ParseError {
    /// A denominator written as a literal `0`, or a division whose right
    /// operand is zero.
    DivByZeroError,
    /// A fraction token with a number of segments other than 1, 2 or 3.
    UnexpectedError,
    /// An operator token other than `+`, `-`, `x` or `/`.
    UnsupportedOperand,
    /// A token segment that is not a signed decimal integer, or one whose
    /// value does not fit the fraction fields.
    ParseIntError,
    /// An equation line with a token count other than 3.
    TooManyOrTooFewArguments,
}

} // verus!
