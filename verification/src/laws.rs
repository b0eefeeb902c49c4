use vstd::prelude::*;
use vstd::math::abs;
use vstd::arithmetic::div_mod::{lemma_div_basics, lemma_div_pos_is_pos};
use crate::arg::{
    Arg, arg_of, improper_num, mixed_frac, reduced_frac, reduced_parts, render_chars,
};
use crate::errors::ParseError;
use crate::gcd::{
    gcd, lemma_divides_le, lemma_exact_div_neg, lemma_gcd_divides, lemma_gcd_quotients_coprime,
};
use crate::numerals::{int_chars, is_i32_literal, lemma_int_chars_literal};
use crate::split::{
    frac_segments, lemma_frac_segments_step, lemma_frac_segments_whole, sep_free,
};

verus! {

/// The shape of a reduced fraction: a positive denominator `|d| / g` and a
/// numerator of magnitude `|n| / g`, where `g` is the (positive) gcd of the
/// two magnitudes.
proof fn lemma_reduced_frac_shape(n: int, d: int)
    requires
        d != 0,
    ensures
        ({
            let g = gcd(abs(n), abs(d)) as int;
            &&& g > 0
            &&& reduced_frac(n, d).1 == abs(d) as int / g
            &&& abs(reduced_frac(n, d).0) as int == abs(n) as int / g
            &&& reduced_frac(n, d).1 > 0
        }),
{
    let an = abs(n) as int;
    let ad = abs(d) as int;
    lemma_gcd_divides(an as nat, ad as nat);
    let g = gcd(an as nat, ad as nat) as int;
    lemma_divides_le(g, ad);
    lemma_div_pos_is_pos(an, g);
    if n < 0 {
        lemma_exact_div_neg(g, an);
    }
    if d < 0 {
        lemma_exact_div_neg(g, ad);
    }
}

/// Reduction always yields a positive denominator.
pub proof fn lemma_reduced_den_positive(n: int, d: int)
    requires
        d != 0,
    ensures
        reduced_frac(n, d).1 > 0,
{
    lemma_reduced_frac_shape(n, d);
}

/// Reduction is idempotent: reducing an already reduced fraction changes
/// nothing.
pub proof fn lemma_reduce_idempotent(n: int, d: int)
    requires
        d != 0,
    ensures
        reduced_frac(reduced_frac(n, d).0, reduced_frac(n, d).1) == reduced_frac(n, d),
{
    lemma_reduced_frac_shape(n, d);
    let r = reduced_frac(n, d);
    let an = abs(n) as int;
    let ad = abs(d) as int;
    let g = gcd(an as nat, ad as nat) as int;
    lemma_gcd_quotients_coprime(an as nat, ad as nat);
    assert(abs(r.0) as int == an / g && abs(r.1) as int == ad / g);
    assert(gcd(abs(r.0), abs(r.1)) == 1);
    lemma_div_basics(r.0);
    lemma_div_basics(r.1);
}

/// Reduction is idempotent at the level of fraction values: the parts of a
/// reduced value reduce to themselves.
pub proof fn lemma_reduce_idempotent_arg(a: Arg)
    requires
        a.den != 0,
    ensures
        reduced_frac(reduced_parts(a).0, reduced_parts(a).1) == reduced_parts(a),
{
    lemma_reduce_idempotent(improper_num(a), a.den as int);
}

/// Converting a proper pure fraction (whole part zero, numerator smaller in
/// magnitude than the denominator) to improper form and back to mixed form
/// returns it unchanged: the improper form already equals the value, and the
/// mixed conversion does not apply to it.
pub proof fn lemma_improper_mixed_identity(a: Arg)
    requires
        a.who == 0,
        abs(a.num as int) < abs(a.den as int),
    ensures
        improper_num(a) == a.num as int,
        mixed_frac(0, improper_num(a), a.den as int) == (a.who as int, a.num as int, a.den as int),
{
}

/// A value parses back from its own rendering, provided its denominator is
/// not zero and a zero numerator comes with the canonical denominator one
/// (rendering drops the fraction part of a whole number).
pub proof fn lemma_render_parse_roundtrip(a: Arg)
    requires
        a.den != 0,
        a.num == 0 ==> a.den == 1,
    ensures
        arg_of(render_chars(a)) == Ok::<Arg, ParseError>(a),
{
    lemma_int_chars_literal(a.who as int);
    lemma_int_chars_literal(a.num as int);
    lemma_int_chars_literal(a.den as int);
    let w = int_chars(a.who as int);
    let n = int_chars(a.num as int);
    let d = int_chars(a.den as int);
    assert(sep_free(w));
    assert(sep_free(n));
    assert(sep_free(d));
    let s = render_chars(a);
    if a.num == 0 {
        lemma_frac_segments_whole(w);
        assert(frac_segments(s) =~~= seq![w]);
        assert(frac_segments(s)[0] == w);
        assert(is_i32_literal(w));
    } else if a.who == 0 {
        assert(s =~= n + seq!['/'] + d);
        lemma_frac_segments_step(n, '/', d);
        lemma_frac_segments_whole(d);
        assert(frac_segments(s) =~~= seq![n, d]);
        assert(is_i32_literal(n) && is_i32_literal(d));
    } else {
        assert(s =~= w + seq!['_'] + (n + seq!['/'] + d));
        lemma_frac_segments_step(w, '_', n + seq!['/'] + d);
        lemma_frac_segments_step(n, '/', d);
        lemma_frac_segments_whole(d);
        assert(frac_segments(s) =~~= seq![w, n, d]);
        assert(is_i32_literal(w) && is_i32_literal(n) && is_i32_literal(d));
    }
}

} // verus!
