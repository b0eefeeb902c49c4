use vstd::prelude::*;
use vstd::arithmetic::div_mod::{
    lemma_fundamental_div_mod, lemma_mod_multiples_basic, lemma_mod_self_0, lemma_small_mod,
};

verus! {

/// Greatest common divisor by the Euclidean recursion; `gcd(a, 0) == a`.
pub open spec fn gcd(a: nat, b: nat) -> nat
    decreases b,
{
    if b == 0 {
        a
    } else {
        gcd(b, a % b)
    }
}

/// `d` divides `n` exactly.
pub open spec fn divides(d: int, n: int) -> bool
    recommends
        d != 0,
{
    n % d == 0
}

/// An exact multiple of a positive `d` is divisible by `d`.
proof fn lemma_mult_divides(d: int, k: int)
    requires
        d > 0,
    ensures
        divides(d, d * k),
{
    lemma_mod_multiples_basic(k, d);
    assert(d * k == k * d) by (nonlinear_arith);
}

/// A number divisible by a positive `d` is `d` times its quotient.
pub proof fn lemma_div_exact(d: int, n: int)
    requires
        d > 0,
        divides(d, n),
    ensures
        n == d * (n / d),
{
    lemma_fundamental_div_mod(n, d);
}

/// Divisibility is closed under integer linear combinations.
proof fn lemma_divides_linear(d: int, a: int, b: int, x: int, y: int)
    requires
        d > 0,
        divides(d, a),
        divides(d, b),
    ensures
        divides(d, a * x + b * y),
{
    lemma_div_exact(d, a);
    lemma_div_exact(d, b);
    assert(a * x + b * y == d * ((a / d) * x + (b / d) * y)) by (nonlinear_arith)
        requires
            a == d * (a / d),
            b == d * (b / d),
    ;
    lemma_mult_divides(d, (a / d) * x + (b / d) * y);
}

/// The gcd of two numbers that are not both zero is positive.
pub proof fn lemma_gcd_pos(a: nat, b: nat)
    requires
        a > 0 || b > 0,
    ensures
        gcd(a, b) > 0,
    decreases b,
{
    if b > 0 {
        lemma_gcd_pos(b, a % b);
    }
}

/// The gcd divides both of its arguments.
pub proof fn lemma_gcd_divides(a: nat, b: nat)
    requires
        a > 0 || b > 0,
    ensures
        gcd(a, b) > 0,
        divides(gcd(a, b) as int, a as int),
        divides(gcd(a, b) as int, b as int),
    decreases b,
{
    lemma_gcd_pos(a, b);
    let g = gcd(a, b) as int;
    if b == 0 {
        lemma_mod_self_0(a as int);
        lemma_small_mod(0, a);
    } else {
        lemma_gcd_divides(b, a % b);
        lemma_fundamental_div_mod(a as int, b as int);
        assert(a as int == (b as int) * (a as int / b as int) + ((a % b) as int) * 1);
        lemma_divides_linear(g, b as int, (a % b) as int, a as int / b as int, 1);
    }
}

/// Every common divisor of `a` and `b` divides their gcd.
pub proof fn lemma_gcd_greatest(a: nat, b: nat, d: int)
    requires
        d > 0,
        divides(d, a as int),
        divides(d, b as int),
    ensures
        divides(d, gcd(a, b) as int),
    decreases b,
{
    if b > 0 {
        lemma_fundamental_div_mod(a as int, b as int);
        assert((a % b) as int == (a as int) * 1 + (b as int) * (-(a as int / b as int)))
            by (nonlinear_arith)
            requires
                a as int == (b as int) * (a as int / b as int) + (a % b) as int,
        ;
        lemma_divides_linear(d, a as int, b as int, 1, -(a as int / b as int));
        lemma_gcd_greatest(b, a % b, d);
    }
}

/// A positive divisor of a positive number is no larger than it, and the
/// quotient is at least one.
pub proof fn lemma_divides_le(d: int, n: int)
    requires
        d > 0,
        n > 0,
        divides(d, n),
    ensures
        d <= n,
        n / d >= 1,
{
    lemma_div_exact(d, n);
    assert(n / d >= 1 && d <= n) by (nonlinear_arith)
        requires
            n == d * (n / d),
            d > 0,
            n > 0,
    ;
}

/// Exact division carries over to the negated dividend, negating the
/// quotient.
pub proof fn lemma_exact_div_neg(g: int, m: int)
    requires
        g > 0,
        m >= 0,
        divides(g, m),
    ensures
        divides(g, -m),
        (-m) / g == -(m / g),
{
    lemma_div_exact(g, m);
    assert(-m == (-(m / g)) * g + 0) by (nonlinear_arith)
        requires
            m == g * (m / g),
    ;
    vstd::arithmetic::div_mod::lemma_fundamental_div_mod_converse(-m, g, -(m / g), 0);
}

/// Dividing two numbers by their gcd leaves quotients with gcd one.
pub proof fn lemma_gcd_quotients_coprime(a: nat, b: nat)
    requires
        b > 0,
    ensures
        gcd(
            (a as int / gcd(a, b) as int) as nat,
            (b as int / gcd(a, b) as int) as nat,
        ) == 1,
{
    lemma_gcd_divides(a, b);
    let g = gcd(a, b) as int;
    let a1 = a as int / g;
    let b1 = b as int / g;
    lemma_div_exact(g, a as int);
    lemma_div_exact(g, b as int);
    lemma_divides_le(g, b as int);
    assert(a1 >= 0) by (nonlinear_arith)
        requires
            a as int == g * a1,
            g > 0,
            a >= 0,
    ;
    lemma_gcd_divides(a1 as nat, b1 as nat);
    let d = gcd(a1 as nat, b1 as nat) as int;
    lemma_div_exact(d, a1);
    lemma_div_exact(d, b1);
    assert(a as int == (d * g) * (a1 / d)) by (nonlinear_arith)
        requires
            a as int == g * a1,
            a1 == d * (a1 / d),
    ;
    assert(b as int == (d * g) * (b1 / d)) by (nonlinear_arith)
        requires
            b as int == g * b1,
            b1 == d * (b1 / d),
    ;
    assert(d * g > 0) by (nonlinear_arith)
        requires
            d > 0,
            g > 0,
    ;
    lemma_mult_divides(d * g, a1 / d);
    lemma_mult_divides(d * g, b1 / d);
    lemma_gcd_greatest(a, b, d * g);
    lemma_divides_le(d * g, g);
    assert(d <= 1) by (nonlinear_arith)
        requires
            d * g <= g,
            g > 0,
            d > 0,
    ;
}

} // verus!
