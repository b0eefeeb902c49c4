use vstd::prelude::*;
use vstd::string::*;
use vstd::math::abs;
use vstd::arithmetic::div_mod::lemma_div_nonincreasing;
use crate::errors::ParseError;
use crate::gcd::{gcd, lemma_gcd_divides, lemma_divides_le, lemma_exact_div_neg};
use crate::numerals::{is_i32_literal, int_literal_value, int_chars, parse_i32, render_i32};
use crate::split::{frac_segments, split_frac_seps};

verus! {

/// A fraction value, conceptually `who + num/den`; after conversion to
/// improper form it is the single fraction `num/den`.
#[derive(Clone, Copy, Debug, PartialEq, Eq, Structural)]
pub struct Arg {
    pub who: i32,
    pub num: i32,
    pub den: i32,
}

/// The numerator of the value in improper form, over the denominator `den`:
/// the whole part folded in, with the sign of a negative whole part
/// distributed onto the combined numerator.
pub open spec fn improper_num(a: Arg) -> int {
    if a.who < 0 {
        -(a.den * -(a.who as int) + a.num)
    } else if a.who > 0 {
        a.den * a.who + a.num
    } else {
        a.num as int
    }
}

/// The fraction `n/d` in lowest terms: numerator and denominator divided by
/// their greatest common divisor, with both signs flipped if the denominator
/// would come out negative.
pub open spec fn reduced_frac(n: int, d: int) -> (int, int)
    recommends
        d != 0,
{
    let g = gcd(abs(n) as nat, abs(d) as nat) as int;
    if d / g < 0 {
        (-(n / g), -(d / g))
    } else {
        (n / g, d / g)
    }
}

/// The value of `a` in lowest terms, the whole part folded in first.
pub open spec fn reduced_parts(a: Arg) -> (int, int)
    recommends
        a.den != 0,
{
    reduced_frac(improper_num(a), a.den as int)
}

/// Division with the quotient rounded toward zero, for a positive divisor.
pub open spec fn quot_trunc(n: int, d: int) -> int
    recommends
        d > 0,
{
    if n >= 0 {
        n / d
    } else {
        -((-n) / d)
    }
}

/// The mixed form of the fraction value `(w, n, d)`: a pure improper fraction
/// (whole part zero, `|n| >= |d|`) is reduced and split into a signed whole
/// part and a non-negative remainder numerator over a positive denominator;
/// anything else stays as it is.
pub open spec fn mixed_frac(w: int, n: int, d: int) -> (int, int, int)
    recommends
        (w == 0 && abs(n) >= abs(d)) ==> d != 0,
{
    if w == 0 && abs(n) >= abs(d) {
        let nd = reduced_frac(n, d);
        (quot_trunc(nd.0, nd.1), (abs(nd.0) as int) % nd.1, nd.1)
    } else {
        (w, n, d)
    }
}

/// The mixed form of the value of `a`.
pub open spec fn mixed_parts(a: Arg) -> (int, int, int)
    recommends
        (a.who == 0 && abs(a.num as int) >= abs(a.den as int)) ==> a.den != 0,
{
    mixed_frac(a.who as int, a.num as int, a.den as int)
}

/// The rendering of a fraction value: the whole part alone when the numerator
/// is zero; `N/D` when the whole part is zero; `W_N/D` otherwise.
pub open spec fn render_chars(a: Arg) -> Seq<char> {
    if a.num == 0 {
        int_chars(a.who as int)
    } else if a.who == 0 {
        int_chars(a.num as int) + seq!['/'] + int_chars(a.den as int)
    } else {
        int_chars(a.who as int) + seq!['_'] + int_chars(a.num as int) + seq!['/'] + int_chars(
            a.den as int,
        )
    }
}

/// Every segment of a token is an integer literal that fits an `i32` field.
pub open spec fn segments_ok(cs: Seq<Seq<char>>) -> bool {
    forall|i: int| 0 <= i < cs.len() ==> is_i32_literal(#[trigger] cs[i])
}

/// The fraction value denoted by a token, or the error the token raises: one
/// segment is a whole number, two segments are `N/D`, three are `W_N/D`; a
/// non-integer segment, a zero denominator, or any other segment count is
/// rejected.
pub open spec fn arg_of(s: Seq<char>) -> Result<Arg, ParseError> {
    let cs = frac_segments(s);
    if !segments_ok(cs) {
        Err(ParseError::ParseIntError)
    } else if cs.len() == 1 {
        Ok(Arg { who: int_literal_value(cs[0]) as i32, num: 0, den: 1 })
    } else if cs.len() == 2 {
        if int_literal_value(cs[1]) != 0 {
            Ok(
                Arg {
                    who: 0,
                    num: int_literal_value(cs[0]) as i32,
                    den: int_literal_value(cs[1]) as i32,
                },
            )
        } else {
            Err(ParseError::DivByZeroError)
        }
    } else if cs.len() == 3 {
        if int_literal_value(cs[2]) != 0 {
            Ok(
                Arg {
                    who: int_literal_value(cs[0]) as i32,
                    num: int_literal_value(cs[1]) as i32,
                    den: int_literal_value(cs[2]) as i32,
                },
            )
        } else {
            Err(ParseError::DivByZeroError)
        }
    } else {
        Err(ParseError::UnexpectedError)
    }
}

/// The product of two values bounded by an `i32` magnitude stays well inside
/// `i64`.
pub(crate) proof fn lemma_mul_i32_bound(x: int, y: int)
    requires
        -0x8000_0000 <= x <= 0x8000_0000,
        -0x8000_0000 <= y <= 0x8000_0000,
    ensures
        -0x4000_0000_0000_0000 <= x * y <= 0x4000_0000_0000_0000,
{
    assert(-0x4000_0000_0000_0000 <= x * y <= 0x4000_0000_0000_0000) by (nonlinear_arith)
        requires
            -0x8000_0000 <= x <= 0x8000_0000,
            -0x8000_0000 <= y <= 0x8000_0000,
    ;
}

impl Arg {
    /// Parses a fraction token of the shape `W`, `N/D` or `W_N/D`.
    pub fn from_str(s: &str) -> (r: Result<Arg, ParseError>)
        ensures
            r == arg_of(s@),
    {
        let parts = split_frac_seps(s);
        let ghost cs = frac_segments(s@);
        let mut vals: Vec<i32> = Vec::new();
        let mut k: usize = 0;
        while k < parts.len()
            invariant
                cs == frac_segments(s@),
                parts@.map_values(|p: &str| p@) == cs,
                cs.len() == parts@.len(),
                0 <= k <= parts.len(),
                vals.len() == k,
                forall|j: int| 0 <= j < k ==> is_i32_literal(#[trigger] cs[j]),
                forall|j: int|
                    0 <= j < k ==> #[trigger] vals@[j] == int_literal_value(cs[j]) as i32,
            decreases parts.len() - k,
        {
            assert(parts@[k as int]@ == cs[k as int]);
            match parse_i32(parts[k]) {
                Ok(v) => {
                    vals.push(v);
                    k += 1;
                },
                Err(_) => {
                    assert(!is_i32_literal(cs[k as int]));
                    assert(!segments_ok(cs));
                    return Err(ParseError::ParseIntError);
                },
            }
        }
        assert(cs.len() == parts@.len());
        assert(segments_ok(cs));
        if vals.len() == 1 {
            Ok(Arg { who: vals[0], num: 0, den: 1 })
        } else if vals.len() == 2 {
            proof {
                assert(is_i32_literal(cs[1]));
            }
            if vals[1] != 0 {
                Ok(Arg { who: 0, num: vals[0], den: vals[1] })
            } else {
                Err(ParseError::DivByZeroError)
            }
        } else if vals.len() == 3 {
            proof {
                assert(is_i32_literal(cs[2]));
            }
            if vals[2] != 0 {
                Ok(Arg { who: vals[0], num: vals[1], den: vals[2] })
            } else {
                Err(ParseError::DivByZeroError)
            }
        } else {
            Err(ParseError::UnexpectedError)
        }
    }

    /// Greatest common divisor of two non-negative numbers by the Euclidean
    /// recursion.
    pub fn gcd(a: i32, b: i32) -> (r: i32)
        requires
            a >= 0,
            b >= 0,
        ensures
            r >= 0,
            r as nat == gcd(a as nat, b as nat),
        decreases b,
    {
        if b == 0 {
            a
        } else {
            let m: i32 = ((a as u32) % (b as u32)) as i32;
            Self::gcd(b, m)
        }
    }

    /// Folds the whole part into the numerator over the same denominator,
    /// without reducing; a value whose whole part is already zero is returned
    /// unchanged.
    pub fn mixed_to_improp(self) -> (r: Arg)
        requires
            -0x8000_0000 <= improper_num(self) <= 0x7fff_ffff,
        ensures
            r.who == 0,
            r.num as int == improper_num(self),
            r.den == self.den,
    {
        if self.who != 0 {
            let who: i64 = self.who as i64;
            let num: i64 = self.num as i64;
            let den: i64 = self.den as i64;
            proof {
                lemma_mul_i32_bound(den as int, -(who as int));
                lemma_mul_i32_bound(den as int, who as int);
            }
            let combined: i64 = if who < 0 {
                -(den * (-who) + num)
            } else {
                den * who + num
            };
            Arg { who: 0, num: combined as i32, den: self.den }
        } else {
            self
        }
    }

    /// Reduces to lowest terms: folds any whole part into the numerator,
    /// divides numerator and denominator by their greatest common divisor,
    /// and flips both signs if the denominator would come out negative, so
    /// the resulting denominator is always positive.
    pub fn reduce(self) -> (r: Arg)
        requires
            self.den != 0,
            -0x8000_0000 < self.den,
            -0x7fff_ffff <= improper_num(self) <= 0x7fff_ffff,
        ensures
            r.who == 0,
            r.num as int == reduced_parts(self).0,
            r.den as int == reduced_parts(self).1,
            0 < r.den,
            abs(r.num as int) <= abs(improper_num(self)),
            r.den <= abs(self.den as int),
    {
        let arg = self.mixed_to_improp();
        let na: u32 = if arg.num < 0 {
            (-(arg.num as i64)) as u32
        } else {
            arg.num as u32
        };
        let da: u32 = if arg.den < 0 {
            (-(arg.den as i64)) as u32
        } else {
            arg.den as u32
        };
        let ghost n = improper_num(self);
        let ghost d = self.den as int;
        let ghost g0 = gcd(abs(n) as nat, abs(d) as nat) as int;
        proof {
            assert(na as int == abs(n));
            assert(da as int == abs(d));
            lemma_gcd_divides(na as nat, da as nat);
        }
        let g: i32 = Self::gcd(na as i32, da as i32);
        let qn: u32 = na / (g as u32);
        let qd: u32 = da / (g as u32);
        proof {
            lemma_divides_le(g0, da as int);
            lemma_div_nonincreasing(na as int, g0);
            lemma_div_nonincreasing(da as int, g0);
            if n < 0 {
                lemma_exact_div_neg(g0, na as int);
            }
            if d < 0 {
                lemma_exact_div_neg(g0, da as int);
            }
        }
        let neg_out = (arg.num < 0) != (arg.den < 0);
        let num_final: i32 = if neg_out {
            -(qn as i32)
        } else {
            qn as i32
        };
        let den_final: i32 = qd as i32;
        Arg { who: 0, num: num_final, den: den_final }
    }

    /// Converts a pure improper fraction (whole part zero, numerator at least
    /// as large in magnitude as the denominator) to reduced mixed form; any
    /// other value is returned unchanged, without reducing.
    pub fn improp_to_mixed(self) -> (r: Arg)
        requires
            self.who == 0 ==> -0x8000_0000 < self.num && -0x8000_0000 < self.den,
            (self.who == 0 && abs(self.num as int) >= abs(self.den as int)) ==> self.den != 0,
        ensures
            r.who as int == mixed_parts(self).0,
            r.num as int == mixed_parts(self).1,
            r.den as int == mixed_parts(self).2,
    {
        if self.who != 0 {
            return self;
        }
        let na: u32 = if self.num < 0 {
            (-(self.num as i64)) as u32
        } else {
            self.num as u32
        };
        let da: u32 = if self.den < 0 {
            (-(self.den as i64)) as u32
        } else {
            self.den as u32
        };
        if na >= da {
            let red = self.reduce();
            let rm: u32 = if red.num < 0 {
                (-(red.num as i64)) as u32
            } else {
                red.num as u32
            };
            let db: u32 = red.den as u32;
            let q: u32 = rm / db;
            let m: u32 = rm % db;
            proof {
                lemma_div_nonincreasing(rm as int, db as int);
            }
            let who: i32 = if red.num < 0 {
                -(q as i32)
            } else {
                q as i32
            };
            Arg { who, num: m as i32, den: red.den }
        } else {
            self
        }
    }

    /// The textual form of the value: the whole part alone when the numerator
    /// is zero, `N/D` when the whole part is zero, `W_N/D` otherwise.
    pub fn to_string(&self) -> (r: String)
        ensures
            r@ == render_chars(*self),
    {
        if self.num == 0 {
            render_i32(self.who)
        } else if self.who == 0 {
            let mut out = render_i32(self.num);
            out.append("/");
            let den = render_i32(self.den);
            out.append(den.as_str());
            proof {
                reveal_strlit("/");
                assert(out@ =~= render_chars(*self));
            }
            out
        } else {
            let mut out = render_i32(self.who);
            out.append("_");
            let num = render_i32(self.num);
            out.append(num.as_str());
            out.append("/");
            let den = render_i32(self.den);
            out.append(den.as_str());
            proof {
                reveal_strlit("_");
                reveal_strlit("/");
                assert(out@ =~= render_chars(*self));
            }
            out
        }
    }
}

} // verus!
