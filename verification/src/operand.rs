use vstd::prelude::*;
use vstd::string::*;
use crate::errors::ParseError;

verus! {

/// The operator of an equation.
#[derive(Clone, Copy, Debug)]
pub enum Operand {
    Add,
    Sub,
    Mul,
    Div,
}

/// The operator denoted by a token: `+`, `-`, `x` or `/`; anything else is
/// unsupported.
pub open spec fn operand_of(s: Seq<char>) -> Result<Operand, ParseError> {
    if s == seq!['+'] {
        Ok(Operand::Add)
    } else if s == seq!['-'] {
        Ok(Operand::Sub)
    } else if s == seq!['x'] {
        Ok(Operand::Mul)
    } else if s == seq!['/'] {
        Ok(Operand::Div)
    } else {
        Err(ParseError::UnsupportedOperand)
    }
}

impl Operand {
    /// Parses an operator token.
    pub fn from_str(s: &str) -> (r: Result<Operand, ParseError>)
        ensures
            r == operand_of(s@),
    {
        let len = s.unicode_len();
        if len == 1 {
            let c = s.get_char(0);
            proof {
                assert(s@ =~= seq![s@[0]]);
            }
            if c == '+' {
                Ok(Operand::Add)
            } else if c == '-' {
                Ok(Operand::Sub)
            } else if c == 'x' {
                Ok(Operand::Mul)
            } else if c == '/' {
                Ok(Operand::Div)
            } else {
                Err(ParseError::UnsupportedOperand)
            }
        } else {
            Err(ParseError::UnsupportedOperand)
        }
    }
}

} // verus!
