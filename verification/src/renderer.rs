//! Rendering of a number with a unit and a metric prefix. The number is
//! scaled by a power of a thousand and shown with two decimal digits.

use crate::scalar::{lemma_ratio_sign, magnitude, ratio, Extended, Scalar, LIMIT};
use vstd::prelude::*;
use vstd::string::StringExecFns;

verus! {

/// The power `1000^n`.
pub open spec fn thousands(n: nat) -> nat
    decreases n,
{
    if n == 0 {
        1
    } else {
        1000 * thousands((n - 1) as nat)
    }
}

/// The number `x / 1000^k`.
pub open spec fn mantissa(x: real, k: int) -> real {
    if k >= 0 {
        x / (thousands(k as nat) as real)
    } else {
        x * (thousands((-k) as nat) as real)
    }
}

/// Whether the positive number `x` falls into the bucket `k`. Bucket zero
/// holds the numbers between 0.01 and 100, both excluded. A positive bucket
/// holds the numbers whose mantissa is at least 0.1 and below 100, so the
/// first reaches from 100 up to 100 000. A negative bucket holds those
/// whose mantissa is above 0.01 and at most 10, so the first reaches from
/// above 0.00001 up to 0.01. The buckets leave no gap and do not overlap.
pub open spec fn in_bucket(x: real, k: int) -> bool {
    let m = mantissa(x, k);
    if k > 0 {
        1real <= 10real * m && m < 100real
    } else if k == 0 {
        1real < 100real * m && m < 100real
    } else {
        1real < 100real * m && m <= 10real
    }
}

/// The bucket of `x`; zero is in bucket zero. With `L` for the decimal
/// logarithm of the magnitude of `x`, the bucket is `(L + 1) / 3` for a
/// magnitude above one and `(L - 1) / 3` otherwise, rounded toward zero.
pub open spec fn bucket(x: real) -> int {
    if x == 0real {
        0
    } else {
        choose|k: int| in_bucket(absolute(x), k)
    }
}

/// The magnitude of a real number.
pub open spec fn absolute(x: real) -> real {
    if x < 0real {
        -x
    } else {
        x
    }
}

/// The magnitude of `x` in hundredths of `1000^k`, rounded to the nearest
/// whole number, halves away from zero.
pub open spec fn hundredths(x: real, k: int) -> int {
    (mantissa(absolute(x), k) * 100real + 1real / 2real).floor()
}

/// The character of a decimal digit.
pub open spec fn digit(d: int) -> char {
    if d == 0 {
        '0'
    } else if d == 1 {
        '1'
    } else if d == 2 {
        '2'
    } else if d == 3 {
        '3'
    } else if d == 4 {
        '4'
    } else if d == 5 {
        '5'
    } else if d == 6 {
        '6'
    } else if d == 7 {
        '7'
    } else if d == 8 {
        '8'
    } else {
        '9'
    }
}

/// The decimal digits of `n`, without leading zeros.
pub open spec fn decimal(n: nat) -> Seq<char>
    decreases n,
{
    if n < 10 {
        seq![digit(n as int)]
    } else {
        decimal(n / 10).push(digit((n % 10) as int))
    }
}

/// The decimal digits of `i`, after a minus sign where `i` is negative.
pub open spec fn signed_decimal(i: int) -> Seq<char> {
    if i < 0 {
        seq!['-'] + decimal((-i) as nat)
    } else {
        decimal(i as nat)
    }
}

/// The prefix of a bucket: M, k, none, m and µ for the buckets from 2 down
/// to -2, and beyond them `e^` and the decimal exponent `3 * k`.
pub open spec fn prefix(k: int) -> Seq<char> {
    if k == 2 {
        seq!['M']
    } else if k == 1 {
        seq!['k']
    } else if k == 0 {
        Seq::empty()
    } else if k == -1 {
        seq!['m']
    } else if k == -2 {
        seq!['µ']
    } else {
        seq!['e', '^'] + signed_decimal(3 * k)
    }
}

/// A count of hundredths as a number with two decimal digits.
pub open spec fn fixed_two(h: nat) -> Seq<char> {
    decimal(h / 100) + seq!['.', digit((h % 100) as int / 10), digit((h % 100) as int % 10)]
}

/// The text of a value with its unit: an optional minus sign, the
/// mantissa with two decimal digits, the prefix of the value's bucket, the
/// unit. An infinity is shown as `inf` and the indeterminate value as
/// `NaN`, both without a prefix.
pub open spec fn rendered(value: Extended, unit: Seq<char>) -> Seq<char> {
    match value {
        Extended::Nan => seq!['N', 'a', 'N'] + unit,
        Extended::PosInf => seq!['i', 'n', 'f'] + unit,
        Extended::NegInf => seq!['-', 'i', 'n', 'f'] + unit,
        Extended::Finite(x) => {
            let k = bucket(x);
            let sign = if x < 0real {
                seq!['-']
            } else {
                Seq::empty()
            };
            sign + fixed_two(hundredths(x, k) as nat) + prefix(k) + unit
        },
    }
}

/// The text of one decimal digit.
fn digit_text(d: u8) -> (text: &'static str)
    requires
        d < 10,
    ensures
        text@ == seq![digit(d as int)],
{
    proof {
        reveal_strlit("0");
        reveal_strlit("1");
        reveal_strlit("2");
        reveal_strlit("3");
        reveal_strlit("4");
        reveal_strlit("5");
        reveal_strlit("6");
        reveal_strlit("7");
        reveal_strlit("8");
        reveal_strlit("9");
    }
    let text = if d == 0 {
        "0"
    } else if d == 1 {
        "1"
    } else if d == 2 {
        "2"
    } else if d == 3 {
        "3"
    } else if d == 4 {
        "4"
    } else if d == 5 {
        "5"
    } else if d == 6 {
        "6"
    } else if d == 7 {
        "7"
    } else if d == 8 {
        "8"
    } else {
        "9"
    };
    text
}

/// Appends the decimal digits of `n`.
fn push_decimal(text: &mut String, n: u128)
    ensures
        final(text)@ == old(text)@ + decimal(n as nat),
    decreases n,
{
    if n >= 10 {
        push_decimal(text, n / 10);
    }
    text.append(digit_text((n % 10) as u8));
}

/// A higher power of a thousand is at least a thousand times a lower one.
pub proof fn lemma_thousands_grow(m: nat, n: nat)
    requires
        m < n,
    ensures
        thousands(m) >= 1,
        thousands(n) >= 1000 * thousands(m),
    decreases n,
{
    if m > 0 {
        lemma_thousands_grow((m - 1) as nat, m);
    }
    if m + 1 < n {
        lemma_thousands_grow(m, (n - 1) as nat);
    }
}

/// The lower of two buckets cannot hold what the higher one holds.
proof fn lemma_buckets_apart(x: real, j: int, k: int)
    requires
        x > 0real,
        j < k,
        in_bucket(x, j),
    ensures
        !in_bucket(x, k),
{
    let mj = mantissa(x, j);
    let mk = mantissa(x, k);
    if j >= 0 {
        let a = thousands(j as nat) as real;
        let b = thousands(k as nat) as real;
        lemma_thousands_grow(j as nat, k as nat);
        assert(!(1real <= 10real * mk)) by (nonlinear_arith)
            requires
                a >= 1real,
                b >= 1000real * a,
                mj == x / a,
                mk == x / b,
                mj < 100real,
                x > 0real,
        ;
    } else if k >= 0 {
        let a = thousands((-j) as nat) as real;
        let b = thousands(k as nat) as real;
        lemma_thousands_grow(0, (-j) as nat);
        if k > 0 {
            lemma_thousands_grow(0, k as nat);
        }
        assert(!(1real < 100real * mk) && !(1real <= 10real * mk)) by (nonlinear_arith)
            requires
                a >= 1000real,
                b >= 1real,
                mj == x * a,
                mk == x / b,
                mj <= 10real,
                x > 0real,
        ;
    } else {
        let a = thousands((-j) as nat) as real;
        let b = thousands((-k) as nat) as real;
        lemma_thousands_grow((-k) as nat, (-j) as nat);
        assert(!(1real < 100real * mk)) by (nonlinear_arith)
            requires
                b >= 1real,
                a >= 1000real * b,
                mj == x * a,
                mk == x * b,
                mj <= 10real,
                x > 0real,
        ;
    }
}

/// A power of a thousand exceeds its exponent.
proof fn lemma_thousands_exceed(n: nat)
    ensures
        thousands(n) > n,
    decreases n,
{
    if n > 0 {
        lemma_thousands_exceed((n - 1) as nat);
    }
}

/// A number below a hundred times some power of a thousand is in a bucket.
proof fn lemma_bucket_at_or_below(x: real, k: nat)
    requires
        x > 0real,
        x < 100real * (thousands(k) as real),
    ensures
        exists|j: int| in_bucket(x, j),
    decreases k,
{
    if k == 0 {
        if 1real < 100real * x {
            assert(in_bucket(x, 0));
        } else {
            let bound = (1real / x).floor() + 1;
            assert(bound >= 1 && x * (bound as real) > 1real) by (nonlinear_arith)
                requires
                    x > 0real,
                    bound == (1real / x).floor() + 1,
            ;
            lemma_thousands_exceed(bound as nat);
            assert(1real < 100real * (x * (thousands(bound as nat) as real)))
                by (nonlinear_arith)
                requires
                    x > 0real,
                    x * (bound as real) > 1real,
                    thousands(bound as nat) > bound,
            ;
            lemma_bucket_at_or_above(x, bound as nat);
        }
    } else {
        let below = thousands((k - 1) as nat) as real;
        if 1real <= 10real * mantissa(x, k as int) {
            assert(mantissa(x, k as int) < 100real) by (nonlinear_arith)
                requires
                    mantissa(x, k as int) == x / (thousands(k) as real),
                    x < 100real * (thousands(k) as real),
                    thousands(k) > 0,
            ;
            assert(in_bucket(x, k as int));
        } else {
            lemma_thousands_grow((k - 1) as nat, k);
            assert(x < 100real * below) by (nonlinear_arith)
                requires
                    mantissa(x, k as int) == x / (thousands(k) as real),
                    !(1real <= 10real * mantissa(x, k as int)),
                    thousands(k) == 1000 * thousands((k - 1) as nat),
                    below == thousands((k - 1) as nat) as real,
                    below >= 1real,
            ;
            lemma_bucket_at_or_below(x, (k - 1) as nat);
        }
    }
}

/// A number at most a hundredth that is more than a hundredth of some
/// negative power of a thousand is in a bucket.
proof fn lemma_bucket_at_or_above(x: real, k: nat)
    requires
        x > 0real,
        100real * x <= 1real,
        1real < 100real * (x * (thousands(k) as real)),
    ensures
        exists|j: int| in_bucket(x, j),
    decreases k,
{
    if k == 0 {
        assert(false) by (nonlinear_arith)
            requires
                100real * x <= 1real,
                1real < 100real * (x * (thousands(0) as real)),
                thousands(0) == 1,
        ;
    } else {
        let scaled = x * (thousands(k) as real);
        if scaled <= 10real {
            assert(in_bucket(x, -(k as int)));
        } else {
            let below = thousands((k - 1) as nat) as real;
            assert(1real < 100real * (x * below)) by (nonlinear_arith)
                requires
                    scaled == x * (thousands(k) as real),
                    scaled > 10real,
                    thousands(k) == 1000 * thousands((k - 1) as nat),
                    below == thousands((k - 1) as nat) as real,
            ;
            lemma_bucket_at_or_above(x, (k - 1) as nat);
        }
    }
}

/// Every positive number is in a bucket.
pub proof fn lemma_bucket_exists(x: real)
    requires
        x > 0real,
    ensures
        in_bucket(x, bucket(x)),
{
    let bound = x.floor() + 1;
    assert(bound >= 1 && x < bound as real) by (nonlinear_arith)
        requires
            x > 0real,
            bound == x.floor() + 1,
    ;
    lemma_thousands_exceed(bound as nat);
    assert(x < 100real * (thousands(bound as nat) as real)) by (nonlinear_arith)
        requires
            x < bound as real,
            thousands(bound as nat) > bound,
            bound >= 1,
    ;
    lemma_bucket_at_or_below(x, bound as nat);
}

/// A positive number is in one bucket at most, so a bucket that holds it is
/// its bucket.
pub proof fn lemma_bucket_is_unique(x: real, k: int)
    requires
        x > 0real,
        in_bucket(x, k),
    ensures
        bucket(x) == k,
{
    let j = bucket(x);
    if j < k {
        lemma_buckets_apart(x, j, k);
    } else if k < j {
        lemma_buckets_apart(x, k, j);
    }
}

/// The mantissa of a fraction in a bucket at or above zero.
proof fn lemma_mantissa_above(a: int, d: int, p: nat)
    requires
        d > 0,
        p > 0,
    ensures
        ratio(a, d) / (p as real) == ratio(a, d * p),
        d * p > 0,
{
    assert(ratio(a, d) / (p as real) == ratio(a, d * p) && d * p > 0) by (nonlinear_arith)
        requires
            d > 0,
            p > 0,
    ;
}

/// The mantissa of a fraction in a bucket below zero.
proof fn lemma_mantissa_below(a: int, d: int, p: nat)
    requires
        d > 0,
    ensures
        ratio(a, d) * (p as real) == ratio(a * p, d),
{
    assert(ratio(a, d) * (p as real) == ratio(a * p, d)) by (nonlinear_arith)
        requires
            d > 0,
    ;
}

/// How a fraction stands to the bounds of a bucket, and its rounding to
/// hundredths, in whole numbers.
proof fn lemma_fraction_bounds(n: int, d: int)
    requires
        d > 0,
    ensures
        1real <= 10real * ratio(n, d) <==> d <= 10 * n,
        1real < 100real * ratio(n, d) <==> d < 100 * n,
        ratio(n, d) < 100real <==> n < 100 * d,
        ratio(n, d) <= 10real <==> n <= 10 * d,
        (ratio(n, d) * 100real + 1real / 2real).floor() == (200 * n + d) / (2 * d),
{
    let m = ratio(n, d);
    assert((1real <= 10real * m <==> d <= 10 * n) && (1real < 100real * m <==> d < 100 * n) && (m
        < 100real <==> n < 100 * d) && (m <= 10real <==> n <= 10 * d)) by (nonlinear_arith)
        requires
            d > 0,
            m == ratio(n, d),
    ;
    assert((m * 100real + 1real / 2real).floor() == (200 * n + d) / (2 * d)) by (nonlinear_arith)
        requires
            d > 0,
            m == ratio(n, d),
    ;
}

/// The first powers of a thousand.
proof fn lemma_thousands_values()
    ensures
        thousands(0) == 1,
        thousands(1) == 1_000,
        thousands(2) == 1_000_000,
        thousands(3) == 1_000_000_000,
        thousands(4) == 1_000_000_000_000,
        thousands(5) == 1_000_000_000_000_000,
        thousands(6) == 1_000_000_000_000_000_000,
        thousands(7) == 1_000_000_000_000_000_000_000,
{
    reveal_with_fuel(thousands, 8);
}

/// The bucket of the positive fraction `a / d` and its magnitude in
/// hundredths of that bucket's power of a thousand.
fn classify(a: u128, d: u128) -> (r: (i32, u128))
    requires
        0 < a <= LIMIT,
        0 < d <= LIMIT,
    ensures
        -6 <= r.0 <= 6,
        in_bucket(ratio(a as int, d as int), r.0 as int),
        r.1 == hundredths(ratio(a as int, d as int), r.0 as int),
        r.1 <= 10_000,
{
    proof {
        lemma_thousands_values();
    }
    let ghost x = ratio(a as int, d as int);
    proof {
        lemma_ratio_sign(a as int, d as int);
    }
    if a > d {
        let mut k: i32 = 0;
        let mut scale: u128 = d;
        assert(d * thousands(0) == d) by (nonlinear_arith)
            requires
                thousands(0) == 1,
        ;
        while a >= 100 * scale
            invariant
                0 < a <= LIMIT,
                0 < d <= LIMIT,
                0 <= k <= 6,
                scale == d * thousands(k as nat),
                scale <= 10 * a,
                k == 0 ==> scale < a,
            decreases 6 - k,
        {
            proof {
                lemma_thousands_values();
                let p = thousands(k as nat);
                assert(100 * p <= a) by (nonlinear_arith)
                    requires
                        a >= 100 * (d * p),
                        d >= 1,
                        p >= 0,
                ;
                assert(d * (1000 * p) == 1000 * (d * p)) by (nonlinear_arith);
            }
            scale = scale * 1000;
            k = k + 1;
        }
        proof {
            let p = thousands(k as nat);
            lemma_thousands_grow(0, 7);
            lemma_mantissa_above(a as int, d as int, p);
            lemma_fraction_bounds(a as int, d * p);
        }
        ((k, (200 * a + scale) / (2 * scale)))
    } else {
        let mut j: i32 = 0;
        let mut scaled: u128 = a;
        assert(a * thousands(0) == a) by (nonlinear_arith)
            requires
                thousands(0) == 1,
        ;
        while 100 * scaled <= d
            invariant
                0 < a <= LIMIT,
                0 < d <= LIMIT,
                0 <= j <= 6,
                scaled == a * thousands(j as nat),
                scaled <= 10 * d,
            decreases 6 - j,
        {
            proof {
                lemma_thousands_values();
                let p = thousands(j as nat);
                assert(100 * p <= d) by (nonlinear_arith)
                    requires
                        100 * (a * p) <= d,
                        a >= 1,
                        p >= 0,
                ;
                assert(a * (1000 * p) == 1000 * (a * p)) by (nonlinear_arith);
            }
            scaled = scaled * 1000;
            j = j + 1;
        }
        proof {
            let p = thousands(j as nat);
            lemma_mantissa_below(a as int, d as int, p);
            lemma_fraction_bounds(a * p, d as int);
            if j == 0 {
                lemma_mantissa_above(a as int, d as int, 1);
                assert(d * 1 == d && a * p == a) by (nonlinear_arith)
                    requires
                        p == 1,
                ;
            }
        }
        ((-j, (200 * scaled + d) / (2 * d)))
    }
}

/// Appends a count of hundredths as a number with two decimal digits.
fn push_fixed_two(text: &mut String, h: u128)
    ensures
        final(text)@ == old(text)@ + fixed_two(h as nat),
{
    let cents: u8 = (h % 100) as u8;
    push_decimal(text, h / 100);
    text.append(".");
    text.append(digit_text(cents / 10));
    text.append(digit_text(cents % 10));
    proof {
        reveal_strlit(".");
    }
}

/// Appends the prefix of a bucket.
fn push_prefix(text: &mut String, k: i32)
    requires
        -6 <= k <= 6,
    ensures
        final(text)@ == old(text)@ + prefix(k as int),
{
    proof {
        reveal_strlit("M");
        reveal_strlit("k");
        reveal_strlit("m");
        reveal_strlit("µ");
        reveal_strlit("e^");
        reveal_strlit("e^-");
    }
    if k == 2 {
        text.append("M");
    } else if k == 1 {
        text.append("k");
    } else if k == 0 {
    } else if k == -1 {
        text.append("m");
    } else if k == -2 {
        text.append("µ");
    } else {
        let exponent: i32 = 3 * k;
        if exponent < 0 {
            text.append("e^-");
            push_decimal(text, (-exponent) as u128);
        } else {
            text.append("e^");
            push_decimal(text, exponent as u128);
        }
    }
}

/// Renders `value` with `unit`: the mantissa with two decimal digits, then
/// the prefix of the value's bucket and the unit, with nothing between
/// them, as in `1.00kA`. Zero is rendered as `0.00` without a prefix, an
/// infinity as `inf` and the indeterminate value as `NaN`.
pub fn scientific_float_renderer(value: Scalar, unit: &str) -> (text: String)
    ensures
        text@ == rendered(value@, unit@),
{
    let mut text = String::new();
    match value.as_ratio() {
        Some((n, d)) => {
            if n == 0 {
                proof {
                    lemma_ratio_sign(n as int, d as int);
                    assert(hundredths(0real, 0) == 0) by {
                        assert((0real / 1real * 100real + 1real / 2real).floor() == 0)
                            by (nonlinear_arith);
                    }
                }
                push_fixed_two(&mut text, 0);
            } else {
                let a: u128 = if n < 0 {
                    (-(n as i128)) as u128
                } else {
                    n as u128
                };
                let (k, h) = classify(a, d as u128);
                proof {
                    let x = ratio(n as int, d as int);
                    lemma_ratio_sign(n as int, d as int);
                    assert(absolute(x) == ratio(a as int, d as int)) by (nonlinear_arith)
                        requires
                            d > 0,
                            x == ratio(n as int, d as int),
                            a == magnitude(n as int),
                    ;
                    lemma_ratio_sign(a as int, d as int);
                    lemma_bucket_is_unique(absolute(x), k as int);
                }
                if n < 0 {
                    text.append("-");
                }
                push_fixed_two(&mut text, h);
                push_prefix(&mut text, k);
            }
        },
        None => {
            if value.is_nan() {
                text.append("NaN");
            } else if value.is_negative() {
                text.append("-inf");
            } else {
                text.append("inf");
            }
        },
    }
    text.append(unit);
    proof {
        reveal_strlit("-");
        reveal_strlit("NaN");
        reveal_strlit("-inf");
        reveal_strlit("inf");
    }
    text
}

} // verus!
