use vstd::prelude::*;
use vstd::string::*;
use crate::errors::ParseError;

verus! {

/// `c` is a decimal digit.
pub open spec fn is_digit(c: char) -> bool {
    c == '0' || c == '1' || c == '2' || c == '3' || c == '4' || c == '5' || c == '6' || c == '7'
        || c == '8' || c == '9'
}

/// The numeric value of a decimal digit.
pub open spec fn digit_val(c: char) -> int
    recommends
        is_digit(c),
{
    if c == '0' {
        0
    } else if c == '1' {
        1
    } else if c == '2' {
        2
    } else if c == '3' {
        3
    } else if c == '4' {
        4
    } else if c == '5' {
        5
    } else if c == '6' {
        6
    } else if c == '7' {
        7
    } else if c == '8' {
        8
    } else {
        9
    }
}

/// The decimal digit for a value below ten.
pub open spec fn digit_char(d: int) -> char
    recommends
        0 <= d < 10,
{
    if d == 0 {
        '0'
    } else if d == 1 {
        '1'
    } else if d == 2 {
        '2'
    } else if d == 3 {
        '3'
    } else if d == 4 {
        '4'
    } else if d == 5 {
        '5'
    } else if d == 6 {
        '6'
    } else if d == 7 {
        '7'
    } else if d == 8 {
        '8'
    } else {
        '9'
    }
}

/// Every character of `s` is a decimal digit.
pub open spec fn is_digits(s: Seq<char>) -> bool {
    forall|i: int| 0 <= i < s.len() ==> is_digit(#[trigger] s[i])
}

/// The value of a digit string read in base ten.
pub open spec fn digits_value(s: Seq<char>) -> int
    decreases s.len(),
{
    if s.len() == 0 {
        0
    } else {
        digits_value(s.drop_last()) * 10 + digit_val(s.last())
    }
}

/// The decimal digit string of a non-negative number, most significant first.
pub open spec fn digits_of(n: nat) -> Seq<char>
    decreases n,
{
    if n < 10 {
        seq![digit_char(n as int)]
    } else {
        digits_of(n / 10).push(digit_char((n % 10) as int))
    }
}

/// The decimal rendering of an integer: a minus sign for negative values,
/// then the digits of the magnitude.
pub open spec fn int_chars(v: int) -> Seq<char> {
    if v < 0 {
        seq!['-'] + digits_of((-v) as nat)
    } else {
        digits_of(v as nat)
    }
}

/// `s` has the shape of a signed decimal integer: an optional single leading
/// `+` or `-`, then one or more digits.
pub open spec fn is_int_literal(s: Seq<char>) -> bool {
    if s.len() == 0 {
        false
    } else if s[0] == '-' || s[0] == '+' {
        s.len() >= 2 && is_digits(s.subrange(1, s.len() as int))
    } else {
        is_digits(s)
    }
}

/// The value denoted by a signed decimal integer literal.
pub open spec fn int_literal_value(s: Seq<char>) -> int
    recommends
        is_int_literal(s),
{
    if s[0] == '-' {
        -digits_value(s.subrange(1, s.len() as int))
    } else if s[0] == '+' {
        digits_value(s.subrange(1, s.len() as int))
    } else {
        digits_value(s)
    }
}

/// `s` is an integer literal whose value fits in an `i32` field.
pub open spec fn is_i32_literal(s: Seq<char>) -> bool {
    &&& is_int_literal(s)
    &&& -0x8000_0000 <= int_literal_value(s) <= 0x7fff_ffff
}

/// A digit string has a non-negative value.
pub proof fn lemma_digits_value_nonneg(s: Seq<char>)
    requires
        is_digits(s),
    ensures
        digits_value(s) >= 0,
    decreases s.len(),
{
    if s.len() > 0 {
        lemma_digits_value_nonneg(s.drop_last());
    }
}

/// Extending a digit string can only grow its value.
pub proof fn lemma_digits_value_prefix_le(s: Seq<char>, k: int)
    requires
        is_digits(s),
        0 <= k <= s.len(),
    ensures
        digits_value(s.subrange(0, k)) <= digits_value(s),
    decreases s.len(),
{
    if k == s.len() {
        assert(s.subrange(0, k) =~= s);
    } else {
        assert(s.drop_last() =~= s.subrange(0, s.len() - 1));
        assert(s.subrange(0, k) =~= s.drop_last().subrange(0, k));
        lemma_digits_value_prefix_le(s.drop_last(), k);
        lemma_digits_value_nonneg(s.drop_last());
    }
}

/// The digit string of `n` is a non-empty digit string denoting `n`.
pub proof fn lemma_digits_of_value(n: nat)
    ensures
        digits_of(n).len() >= 1,
        is_digits(digits_of(n)),
        digits_value(digits_of(n)) == n,
    decreases n,
{
    if n < 10 {
        assert(digits_of(n).drop_last() =~= Seq::<char>::empty());
        assert(digits_of(n).last() == digit_char(n as int));
        assert(digit_val(digit_char(n as int)) == n);
        assert(digits_value(Seq::<char>::empty()) == 0);
        assert(digits_value(digits_of(n)) == digits_value(Seq::<char>::empty()) * 10 + digit_val(
            digit_char(n as int),
        ));
    } else {
        lemma_digits_of_value(n / 10);
        assert(digits_of(n).drop_last() =~= digits_of(n / 10));
        assert(digits_of(n).last() == digit_char((n % 10) as int));
        assert(digit_val(digit_char((n % 10) as int)) == n % 10);
        assert(digits_value(digits_of(n)) == digits_value(digits_of(n / 10)) * 10 + digit_val(
            digit_char((n % 10) as int),
        ));
        vstd::arithmetic::div_mod::lemma_fundamental_div_mod(n as int, 10);
    }
}

/// The rendering of `v` is a well-formed literal denoting `v`, made only of
/// digits and at most one minus sign.
pub proof fn lemma_int_chars_literal(v: int)
    ensures
        is_int_literal(int_chars(v)),
        int_literal_value(int_chars(v)) == v,
        forall|i: int|
            0 <= i < int_chars(v).len() ==> (is_digit(#[trigger] int_chars(v)[i])
                || int_chars(v)[i] == '-'),
{
    if v < 0 {
        lemma_digits_of_value((-v) as nat);
        assert(int_chars(v).subrange(1, int_chars(v).len() as int) =~= digits_of((-v) as nat));
    } else {
        lemma_digits_of_value(v as nat);
    }
}

/// The digit value of a character, or `None` where it is not a digit.
fn digit_of(c: char) -> (r: Option<u32>)
    ensures
        is_digit(c) ==> r == Some(digit_val(c) as u32),
        !is_digit(c) ==> r is None,
{
    match c {
        '0' => Some(0u32),
        '1' => Some(1u32),
        '2' => Some(2u32),
        '3' => Some(3u32),
        '4' => Some(4u32),
        '5' => Some(5u32),
        '6' => Some(6u32),
        '7' => Some(7u32),
        '8' => Some(8u32),
        '9' => Some(9u32),
        _ => None,
    }
}

/// Parses a signed decimal integer, rejecting anything whose value does not
/// fit an `i32`.
pub fn parse_i32(s: &str) -> (r: Result<i32, ParseError>)
    ensures
        is_i32_literal(s@) ==> r == Ok::<i32, ParseError>(int_literal_value(s@) as i32),
        !is_i32_literal(s@) ==> r == Err::<i32, ParseError>(ParseError::ParseIntError),
{
    let len = s.unicode_len();
    if len == 0 {
        return Err(ParseError::ParseIntError);
    }
    let first = s.get_char(0);
    let neg = first == '-';
    let start: usize = if first == '-' || first == '+' {
        1
    } else {
        0
    };
    if start == len {
        return Err(ParseError::ParseIntError);
    }
    let ghost digits = s@.subrange(start as int, len as int);
    proof {
        if start == 1 {
            assert(digits =~= s@.subrange(1, s@.len() as int));
        } else {
            assert(digits =~= s@);
        }
        assert(is_int_literal(s@) == is_digits(digits));
        assert(is_int_literal(s@) ==> int_literal_value(s@) == if neg {
            -digits_value(digits)
        } else {
            digits_value(digits)
        });
    }
    let mut i = start;
    let mut acc: u64 = 0;
    while i < len
        invariant
            start <= i <= len,
            len == s@.len(),
            digits == s@.subrange(start as int, len as int),
            is_int_literal(s@) == is_digits(digits),
            is_int_literal(s@) ==> int_literal_value(s@) == if neg {
                -digits_value(digits)
            } else {
                digits_value(digits)
            },
            is_digits(s@.subrange(start as int, i as int)),
            acc == digits_value(s@.subrange(start as int, i as int)),
            acc <= 0x8000_0000,
        decreases len - i,
    {
        let c = s.get_char(i);
        match digit_of(c) {
            None => {
                proof {
                    assert(digits[i - start] == s@[i as int]);
                    assert(!is_digit(digits[i - start]));
                }
                return Err(ParseError::ParseIntError);
            },
            Some(d) => {
                proof {
                    assert(s@.subrange(start as int, i + 1).drop_last() =~= s@.subrange(
                        start as int,
                        i as int,
                    ));
                    assert(s@.subrange(start as int, i + 1).last() == s@[i as int]);
                }
                acc = acc * 10 + d as u64;
                if acc > 0x8000_0000 {
                    proof {
                        if is_int_literal(s@) {
                            assert(digits.subrange(0, i + 1 - start) =~= s@.subrange(
                                start as int,
                                i + 1,
                            ));
                            lemma_digits_value_prefix_le(digits, i + 1 - start);
                        }
                    }
                    return Err(ParseError::ParseIntError);
                }
                i += 1;
            },
        }
    }
    assert(s@.subrange(start as int, i as int) =~= digits);
    if neg {
        assert(int_literal_value(s@) == -(acc as int));
        Ok((-(acc as i64)) as i32)
    } else {
        if acc > 0x7fff_ffff {
            return Err(ParseError::ParseIntError);
        }
        assert(int_literal_value(s@) == acc as int);
        Ok(acc as i32)
    }
}

/// The text of one decimal digit.
fn digit_str(d: u32) -> (r: &'static str)
    requires
        d < 10,
    ensures
        r@ == seq![digit_char(d as int)],
{
    proof {
        reveal_strlit("0");
        reveal_strlit("1");
        reveal_strlit("2");
        reveal_strlit("3");
        reveal_strlit("4");
        reveal_strlit("5");
        reveal_strlit("6");
        reveal_strlit("7");
        reveal_strlit("8");
        reveal_strlit("9");
        assert("0"@ =~= seq![digit_char(0)]);
        assert("1"@ =~= seq![digit_char(1)]);
        assert("2"@ =~= seq![digit_char(2)]);
        assert("3"@ =~= seq![digit_char(3)]);
        assert("4"@ =~= seq![digit_char(4)]);
        assert("5"@ =~= seq![digit_char(5)]);
        assert("6"@ =~= seq![digit_char(6)]);
        assert("7"@ =~= seq![digit_char(7)]);
        assert("8"@ =~= seq![digit_char(8)]);
        assert("9"@ =~= seq![digit_char(9)]);
    }
    if d == 0 {
        "0"
    } else if d == 1 {
        "1"
    } else if d == 2 {
        "2"
    } else if d == 3 {
        "3"
    } else if d == 4 {
        "4"
    } else if d == 5 {
        "5"
    } else if d == 6 {
        "6"
    } else if d == 7 {
        "7"
    } else if d == 8 {
        "8"
    } else {
        "9"
    }
}

/// Renders a non-negative number as its decimal digits.
fn render_u32(n: u32) -> (r: String)
    ensures
        r@ == digits_of(n as nat),
    decreases n,
{
    if n < 10 {
        String::from_str(digit_str(n))
    } else {
        let mut acc = render_u32(n / 10);
        acc.append(digit_str(n % 10));
        proof {
            assert(digits_of((n / 10) as nat).push(digit_char((n % 10) as int)) =~= digits_of(
                (n / 10) as nat,
            ) + seq![digit_char((n % 10) as int)]);
        }
        acc
    }
}

/// Renders a signed number as its decimal text.
pub fn render_i32(v: i32) -> (r: String)
    ensures
        r@ == int_chars(v as int),
{
    if v < 0 {
        let mut acc = String::from_str("-");
        let mag = (-(v as i64)) as u32;
        let tail = render_u32(mag);
        acc.append(tail.as_str());
        proof {
            reveal_strlit("-");
            assert("-"@ + digits_of((-(v as int)) as nat) =~= int_chars(v as int));
        }
        acc
    } else {
        render_u32(v as u32)
    }
}

} // verus!
