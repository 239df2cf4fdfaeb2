//! Greatest common divisors and fractions in lowest terms.

use vstd::arithmetic::div_mod::{
    lemma_fundamental_div_mod, lemma_mod_multiples_basic, lemma_truncate_middle,
};
use vstd::prelude::*;

verus! {

/// The greatest common divisor of `a` and `b`; `gcd(0, 0)` is 0.
pub open spec fn gcd(a: nat, b: nat) -> nat
    decreases b,
{
    if b == 0 {
        a
    } else {
        gcd(b, a % b)
    }
}

/// A sum of multiples of `c` is a multiple of `c`.
proof fn lemma_multiples_combine(x: int, y: int, k: int, c: int)
    requires
        c > 0,
        x % c == 0,
        y % c == 0,
    ensures
        (x * k + y) % c == 0,
{
    lemma_fundamental_div_mod(x, c);
    lemma_fundamental_div_mod(y, c);
    let q: int = (x / c) * k + y / c;
    assert(x * k + y == q * c) by (nonlinear_arith)
        requires
            x == c * (x / c),
            y == c * (y / c),
            q == (x / c) * k + y / c,
    ;
    lemma_mod_multiples_basic(q, c);
}

/// The greatest common divisor divides both numbers.
pub proof fn lemma_gcd_divides(a: nat, b: nat)
    requires
        a > 0 || b > 0,
    ensures
        gcd(a, b) > 0,
        a % gcd(a, b) == 0,
        b % gcd(a, b) == 0,
    decreases b,
{
    if b == 0 {
        lemma_mod_multiples_basic(1, a as int);
        lemma_mod_multiples_basic(0, a as int);
    } else {
        let g = gcd(b, a % b);
        lemma_gcd_divides(b, a % b);
        lemma_fundamental_div_mod(a as int, b as int);
        lemma_multiples_combine(b as int, (a % b) as int, (a / b) as int, g as int);
    }
}

/// Every common divisor divides the greatest one.
pub proof fn lemma_gcd_greatest(a: nat, b: nat, c: nat)
    requires
        c > 0,
        a % c == 0,
        b % c == 0,
    ensures
        gcd(a, b) % c == 0,
    decreases b,
{
    if b != 0 {
        let q: int = a as int / b as int;
        let r: int = a as int % b as int;
        lemma_fundamental_div_mod(a as int, b as int);
        lemma_multiples_combine(b as int, a as int, -q, c as int);
        assert(b * (-q) + a == r) by (nonlinear_arith)
            requires
                a == b * q + r,
        ;
        lemma_gcd_greatest(b, a % b, c);
    }
}

/// Scaling both numbers scales their greatest common divisor.
pub proof fn lemma_gcd_scales(a: nat, b: nat, k: nat)
    requires
        k > 0,
    ensures
        gcd(k * a, k * b) == k * gcd(a, b),
    decreases b,
{
    if b != 0 {
        assert(k * b > 0) by (nonlinear_arith)
            requires
                k > 0,
                b > 0,
        ;
        lemma_truncate_middle(a as int, k as int, b as int);
        lemma_gcd_scales(b, a % b, k);
    }
}

/// The greatest common divisor does not depend on the order of the numbers.
pub proof fn lemma_gcd_symmetric(a: nat, b: nat)
    ensures
        gcd(a, b) == gcd(b, a),
{
    if a > 0 || b > 0 {
        let g = gcd(a, b);
        let h = gcd(b, a);
        lemma_gcd_divides(a, b);
        lemma_gcd_divides(b, a);
        lemma_gcd_greatest(b, a, g);
        lemma_gcd_greatest(a, b, h);
        lemma_fundamental_div_mod(g as int, h as int);
        lemma_fundamental_div_mod(h as int, g as int);
        let s = g / h;
        let t = h / g;
        assert(g == h) by (nonlinear_arith)
            requires
                g > 0,
                h > 0,
                g == h * s,
                h == g * t,
        ;
    }
}

/// Dividing two numbers by their greatest common divisor leaves them coprime.
pub proof fn lemma_reduced_is_coprime(a: nat, b: nat)
    requires
        b > 0,
    ensures
        gcd(a, b) > 0,
        gcd(a / gcd(a, b), b / gcd(a, b)) == 1,
        a == gcd(a, b) * (a / gcd(a, b)),
        b == gcd(a, b) * (b / gcd(a, b)),
{
    let g = gcd(a, b);
    lemma_gcd_divides(a, b);
    lemma_fundamental_div_mod(a as int, g as int);
    lemma_fundamental_div_mod(b as int, g as int);
    lemma_gcd_scales(a / g, b / g, g);
    let h = gcd(a / g, b / g);
    assert(h == 1) by (nonlinear_arith)
        requires
            g > 0,
            g == g * h,
    ;
}

/// Euclid's lemma: a number coprime to `p` that divides `p * d` divides `d`.
pub proof fn lemma_coprime_divides_product(p: nat, q: nat, d: nat)
    requires
        q > 0,
        gcd(p, q) == 1,
        (p * d) % q == 0,
    ensures
        d % q == 0,
{
    if d == 0 {
        lemma_mod_multiples_basic(0, q as int);
    } else {
        lemma_gcd_scales(p, q, d);
        assert(d * p == p * d) by (nonlinear_arith);
        assert(d * gcd(p, q) == d) by (nonlinear_arith)
            requires
                gcd(p, q) == 1,
        ;
        lemma_mod_multiples_basic(d as int, q as int);
        lemma_gcd_greatest(d * p, d * q, q);
    }
}

/// A fraction in lowest terms has the least numerator and denominator among
/// all fractions of the same value.
pub proof fn lemma_lowest_terms_are_least(p: nat, q: nat, n: nat, d: nat)
    requires
        q > 0,
        d > 0,
        gcd(p, q) == 1,
        n * q == p * d,
    ensures
        q <= d,
        p <= n,
{
    lemma_mod_multiples_basic(n as int, q as int);
    lemma_coprime_divides_product(p, q, d);
    lemma_fundamental_div_mod(d as int, q as int);
    let t = d / q;
    assert(q <= d && p <= n) by (nonlinear_arith)
        requires
            q > 0,
            d > 0,
            d == q * t,
            n * q == p * d,
    ;
}

/// Computes the greatest common divisor by Euclid's algorithm.
pub fn greatest_common_divisor(a: u128, b: u128) -> (g: u128)
    ensures
        g == gcd(a as nat, b as nat),
{
    let mut x: u128 = a;
    let mut y: u128 = b;
    while y != 0
        invariant
            gcd(x as nat, y as nat) == gcd(a as nat, b as nat),
        decreases y,
    {
        let r: u128 = x % y;
        x = y;
        y = r;
    }
    x
}

} // verus!
