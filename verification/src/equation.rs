use vstd::prelude::*;
use crate::arg::{Arg, arg_of, improper_num, lemma_mul_i32_bound, mixed_frac, reduced_frac};
use crate::errors::ParseError;
use crate::operand::{Operand, operand_of};
use crate::split::{split_whitespace, ws_tokens};

verus! {

/// A single equation: two fraction values joined by one operator. It is
/// created by parsing a line and consumed once by [`Equation::solve`].
pub struct Equation {
    pub lhs: Arg,
    pub op: Operand,
    pub rhs: Arg,
}

/// The equation denoted by a line, or the error it raises: the line must hold
/// exactly three whitespace-delimited tokens, `operand operator operand`.
/// Sub-parse errors surface in the order: second operand, operator, first
/// operand.
pub open spec fn equation_of(s: Seq<char>) -> Result<Equation, ParseError> {
    let ts = ws_tokens(s);
    if ts.len() != 3 {
        Err(ParseError::TooManyOrTooFewArguments)
    } else {
        match arg_of(ts[2]) {
            Err(e) => Err(e),
            Ok(rhs) => match operand_of(ts[1]) {
                Err(e) => Err(e),
                Ok(op) => match arg_of(ts[0]) {
                    Err(e) => Err(e),
                    Ok(lhs) => Ok(Equation { lhs, op, rhs }),
                },
            },
        }
    }
}

/// The raw numerator and denominator produced by the operator over the two
/// operands' improper forms, before any reduction. Division multiplies by the
/// flipped right operand, so a zero right numerator surfaces as a zero raw
/// denominator.
pub open spec fn raw_parts(e: Equation) -> (int, int) {
    let n0 = improper_num(e.lhs);
    let d0 = e.lhs.den as int;
    let n1 = improper_num(e.rhs);
    let d1 = e.rhs.den as int;
    match e.op {
        Operand::Add => (n0 * d1 + n1 * d0, d0 * d1),
        Operand::Sub => (n0 * d1 - n1 * d0, d0 * d1),
        Operand::Mul => (n0 * n1, d0 * d1),
        Operand::Div => (n0 * d1, d0 * n1),
    }
}

/// The normalized result of an equation: the raw fraction reduced to lowest
/// terms and converted to mixed form.
pub open spec fn solution(e: Equation) -> (int, int, int)
    recommends
        raw_parts(e).1 != 0,
{
    let raw = raw_parts(e);
    let red = reduced_frac(raw.0, raw.1);
    mixed_frac(0, red.0, red.1)
}

impl Equation {
    /// Parses an equation line of the shape `operand operator operand`.
    pub fn from_str(s: &str) -> (r: Result<Equation, ParseError>)
        ensures
            r == equation_of(s@),
    {
        let tokens = split_whitespace(s);
        let ghost ts = ws_tokens(s@);
        if tokens.len() != 3 {
            return Err(ParseError::TooManyOrTooFewArguments);
        }
        assert(tokens@[2]@ == ts[2] && tokens@[1]@ == ts[1] && tokens@[0]@ == ts[0]);
        let rhs = match Arg::from_str(tokens[2]) {
            Ok(a) => a,
            Err(e) => {
                return Err(e);
            },
        };
        let op = match Operand::from_str(tokens[1]) {
            Ok(o) => o,
            Err(e) => {
                return Err(e);
            },
        };
        let lhs = match Arg::from_str(tokens[0]) {
            Ok(a) => a,
            Err(e) => {
                return Err(e);
            },
        };
        Ok(Equation { lhs, op, rhs })
    }

    /// Evaluates the equation: combines the improper forms of the two
    /// operands under the operator, reduces the result, and converts it to
    /// mixed form. A zero raw denominator (dividing by a fraction worth zero,
    /// or a zero operand denominator) is reported as a division by zero.
    pub fn solve(self) -> (r: Result<Arg, ParseError>)
        requires
            -0x8000_0000 <= improper_num(self.lhs) <= 0x7fff_ffff,
            -0x8000_0000 <= improper_num(self.rhs) <= 0x7fff_ffff,
            -0x7fff_ffff <= raw_parts(self).0 <= 0x7fff_ffff,
            -0x7fff_ffff <= raw_parts(self).1 <= 0x7fff_ffff,
        ensures
            raw_parts(self).1 == 0 ==> r == Err::<Arg, ParseError>(ParseError::DivByZeroError),
            raw_parts(self).1 != 0 ==> (r matches Ok(a) && a.who as int == solution(self).0
                && a.num as int == solution(self).1 && a.den as int == solution(self).2),
    {
        let a0 = self.lhs.mixed_to_improp();
        let a1 = self.rhs.mixed_to_improp();
        let n0: i64 = a0.num as i64;
        let d0: i64 = a0.den as i64;
        let n1: i64 = a1.num as i64;
        let d1: i64 = a1.den as i64;
        proof {
            lemma_mul_i32_bound(n0 as int, d1 as int);
            lemma_mul_i32_bound(n1 as int, d0 as int);
            lemma_mul_i32_bound(n0 as int, n1 as int);
            lemma_mul_i32_bound(d0 as int, d1 as int);
            lemma_mul_i32_bound(d0 as int, n1 as int);
        }
        let parts: (i64, i64) = match self.op {
            Operand::Add => (n0 * d1 + n1 * d0, d0 * d1),
            Operand::Sub => (n0 * d1 - n1 * d0, d0 * d1),
            Operand::Mul => (n0 * n1, d0 * d1),
            Operand::Div => (n0 * d1, d0 * n1),
        };
        assert(parts.0 as int == raw_parts(self).0 && parts.1 as int == raw_parts(self).1);
        if parts.1 == 0 {
            return Err(ParseError::DivByZeroError);
        }
        let frac = Arg { who: 0, num: parts.0 as i32, den: parts.1 as i32 };
        let mut out = frac.reduce();
        if out.den < 0 {
            // Unreachable after reduce; kept as a defensive sign
            // normalization mirroring the reduction's own.
            out.num = out.num * -1;
            out.den = -out.den;
        }
        let mixed = out.improp_to_mixed();
        Ok(mixed)
    }
}

} // verus!
