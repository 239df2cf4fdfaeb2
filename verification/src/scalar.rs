//! Exact numbers: rationals extended by the infinities and an indeterminate
//! value, with arithmetic that follows the usual rules for division by zero.

use crate::divisors::{
    gcd, greatest_common_divisor, lemma_gcd_symmetric, lemma_lowest_terms_are_least,
    lemma_reduced_is_coprime,
};
use vstd::prelude::*;

verus! {

/// The largest magnitude that a numerator or a denominator may have.
pub const LIMIT: i64 = 9_223_372_036_854_775_807;

/// The real number `n / d`.
pub open spec fn ratio(n: int, d: int) -> real {
    n as real / d as real
}

/// The magnitude of an integer.
pub open spec fn magnitude(n: int) -> nat {
    if n < 0 {
        (-n) as nat
    } else {
        n as nat
    }
}

/// Whether a real number is the quotient of two integers within `LIMIT`.
pub open spec fn fits(x: real) -> bool {
    exists|n: int, d: int| -LIMIT <= n <= LIMIT && 0 < d <= LIMIT && x == #[trigger] ratio(n, d)
}

/// A real number, one of the two infinities, or the indeterminate value that
/// undefined operations such as `0 / 0` produce.
pub enum Extended {
    Nan,
    PosInf,
    NegInf,
    Finite(real),
}

impl Extended {
    /// The infinity with the sign of `s`, indeterminate where `s` is zero.
    pub open spec fn infinity_of_sign(s: int) -> Extended {
        if s > 0 {
            Extended::PosInf
        } else if s < 0 {
            Extended::NegInf
        } else {
            Extended::Nan
        }
    }

    /// The sign of a value as -1, 0 or 1; the indeterminate value has sign 0.
    pub open spec fn sign(self) -> int {
        match self {
            Extended::Nan => 0,
            Extended::PosInf => 1,
            Extended::NegInf => -1,
            Extended::Finite(x) => if x > 0real {
                1
            } else if x < 0real {
                -1
            } else {
                0
            },
        }
    }

    /// Whether the value can be held by a `Scalar`.
    pub open spec fn representable(self) -> bool {
        self matches Extended::Finite(x) ==> fits(x)
    }

    /// The sum. Opposite infinities sum to the indeterminate value.
    pub open spec fn plus(self, rhs: Extended) -> Extended {
        match (self, rhs) {
            (Extended::Finite(x), Extended::Finite(y)) => Extended::Finite(x + y),
            (Extended::Nan, _) => Extended::Nan,
            (_, Extended::Nan) => Extended::Nan,
            (Extended::PosInf, Extended::NegInf) => Extended::Nan,
            (Extended::NegInf, Extended::PosInf) => Extended::Nan,
            (Extended::Finite(_), _) => rhs,
            _ => self,
        }
    }

    /// The product. Zero times an infinity is indeterminate.
    pub open spec fn times(self, rhs: Extended) -> Extended {
        match (self, rhs) {
            (Extended::Finite(x), Extended::Finite(y)) => Extended::Finite(x * y),
            (Extended::Nan, _) => Extended::Nan,
            (_, Extended::Nan) => Extended::Nan,
            _ => Extended::infinity_of_sign(self.sign() * rhs.sign()),
        }
    }

    /// The quotient. A nonzero number over zero is the infinity of the
    /// number's sign, and a number over an infinity is zero. An infinity
    /// over a number keeps its sign unless the number is negative. `0 / 0`
    /// and an infinity over an infinity are indeterminate.
    pub open spec fn over(self, rhs: Extended) -> Extended {
        match (self, rhs) {
            (Extended::Nan, _) => Extended::Nan,
            (_, Extended::Nan) => Extended::Nan,
            (Extended::Finite(x), Extended::Finite(y)) => if y != 0real {
                Extended::Finite(x / y)
            } else {
                Extended::infinity_of_sign(self.sign())
            },
            (Extended::Finite(_), _) => Extended::Finite(0real),
            (_, Extended::Finite(y)) => if y >= 0real {
                self
            } else {
                Extended::infinity_of_sign(-self.sign())
            },
            _ => Extended::Nan,
        }
    }

    /// The reciprocal, `1 / self`.
    pub open spec fn recip(self) -> Extended {
        Extended::Finite(1real).over(self)
    }
}

/// Two fractions are equal exactly when their cross products are.
pub proof fn lemma_ratio_equal(a: int, b: int, c: int, d: int)
    requires
        b != 0,
        d != 0,
    ensures
        ratio(a, b) == ratio(c, d) <==> a * d == c * b,
{
    assert(ratio(a, b) == ratio(c, d) <==> a * d == c * b) by (nonlinear_arith)
        requires
            b != 0,
            d != 0,
    ;
}

/// The sum of two fractions.
pub proof fn lemma_ratio_sum(a: int, b: int, c: int, d: int)
    requires
        b != 0,
        d != 0,
    ensures
        ratio(a, b) + ratio(c, d) == ratio(a * d + c * b, b * d),
        b * d != 0,
{
    assert(ratio(a, b) + ratio(c, d) == ratio(a * d + c * b, b * d) && b * d != 0)
        by (nonlinear_arith)
        requires
            b != 0,
            d != 0,
    ;
}

/// The product of two fractions.
pub proof fn lemma_ratio_product(a: int, b: int, c: int, d: int)
    requires
        b != 0,
        d != 0,
    ensures
        ratio(a, b) * ratio(c, d) == ratio(a * c, b * d),
        b * d != 0,
{
    assert(ratio(a, b) * ratio(c, d) == ratio(a * c, b * d) && b * d != 0) by (nonlinear_arith)
        requires
            b != 0,
            d != 0,
    ;
}

/// The quotient of two fractions.
pub proof fn lemma_ratio_quotient(a: int, b: int, c: int, d: int)
    requires
        b != 0,
        c != 0,
        d != 0,
    ensures
        ratio(a, b) / ratio(c, d) == ratio(a * d, b * c),
        ratio(c, d) != 0real,
        b * c != 0,
{
    assert(ratio(a, b) / ratio(c, d) == ratio(a * d, b * c) && ratio(c, d) != 0real && b * c != 0)
        by (nonlinear_arith)
        requires
            b != 0,
            c != 0,
            d != 0,
    ;
}

/// The sign of a fraction with a positive denominator is that of its numerator.
pub proof fn lemma_ratio_sign(a: int, b: int)
    requires
        b > 0,
    ensures
        a > 0 <==> ratio(a, b) > 0real,
        a < 0 <==> ratio(a, b) < 0real,
        a == 0 <==> ratio(a, b) == 0real,
{
    assert((a > 0 <==> ratio(a, b) > 0real) && (a < 0 <==> ratio(a, b) < 0real) && (a == 0
        <==> ratio(a, b) == 0real)) by (nonlinear_arith)
        requires
            b > 0,
    ;
}

/// A fraction in lowest terms whose numerator or denominator exceeds
/// `LIMIT` has no equal within the limit.
proof fn lemma_lowest_terms_outside_limit(n: int, d: int)
    requires
        d > 0,
        gcd(magnitude(n), d as nat) == 1,
        magnitude(n) > LIMIT || d > LIMIT,
    ensures
        !fits(ratio(n, d)),
{
    assert forall|m: int, e: int| -LIMIT <= m <= LIMIT && 0 < e <= LIMIT implies ratio(n, d)
        != #[trigger] ratio(m, e) by {
        if ratio(n, d) == ratio(m, e) {
            lemma_ratio_equal(m, e, n, d);
            assert(magnitude(m) * d == magnitude(n) * e) by (nonlinear_arith)
                requires
                    m * d == n * e,
                    d > 0,
                    e > 0,
            ;
            lemma_lowest_terms_are_least(magnitude(n), d as nat, magnitude(m), e as nat);
        }
    }
}

#[derive(Clone, Copy, Debug, PartialEq, Eq, Structural)]
enum Repr {
    Finite { num: i64, den: i64 },
    PosInf,
    NegInf,
    Nan,
}

/// An exact number: a fraction of two 64-bit integers in lowest terms, one
/// of the two infinities, or the indeterminate value. Zero has no sign.
#[derive(Clone, Copy, Debug, PartialEq, Eq, Structural)]
pub struct Scalar {
    repr: Repr,
}

impl View for Scalar {
    type V = Extended;

    closed spec fn view(&self) -> Extended {
        match self.repr {
            Repr::Finite { num, den } => Extended::Finite(ratio(num as int, den as int)),
            Repr::PosInf => Extended::PosInf,
            Repr::NegInf => Extended::NegInf,
            Repr::Nan => Extended::Nan,
        }
    }
}

/// The magnitude of a 64-bit integer.
fn magnitude_of(n: i64) -> (m: u128)
    ensures
        m == magnitude(n as int),
        m <= LIMIT + 1,
{
    if n < 0 {
        (-(n as i128)) as u128
    } else {
        n as u128
    }
}

/// The product of two integers within `LIMIT` stays far inside 128 bits.
proof fn lemma_product_bound(a: int, b: int)
    requires
        -LIMIT <= a <= LIMIT,
        -LIMIT <= b <= LIMIT,
    ensures
        -LIMIT * LIMIT <= a * b <= LIMIT * LIMIT,
{
    assert(-LIMIT * LIMIT <= a * b <= LIMIT * LIMIT) by (nonlinear_arith)
        requires
            -LIMIT <= a <= LIMIT,
            -LIMIT <= b <= LIMIT,
    ;
}

impl Scalar {
    /// Whether a finite number is held in lowest terms, with a positive
    /// denominator and a numerator within `LIMIT`. Every `Scalar` that a
    /// program holds is well formed.
    #[verifier::type_invariant]
    pub closed spec fn well_formed(self) -> bool {
        match self.repr {
            Repr::Finite { num, den } => {
                &&& den >= 1
                &&& num >= -LIMIT
                &&& gcd(magnitude(num as int), den as nat) == 1
            },
            _ => true,
        }
    }

    /// The value of a well-formed number can be represented.
    pub proof fn lemma_value_is_representable(self)
        requires
            self.well_formed(),
        ensures
            self@.representable(),
    {
    }

    /// Well-formed numbers of the same value are the same number.
    pub proof fn lemma_value_determines_number(self, other: Scalar)
        requires
            self.well_formed(),
            other.well_formed(),
            self@ == other@,
        ensures
            self == other,
    {
        if self.repr is Finite {
            let a = self.repr->num as int;
            let b = self.repr->den as int;
            let c = other.repr->num as int;
            let d = other.repr->den as int;
            lemma_ratio_equal(a, b, c, d);
            lemma_ratio_sign(a, b);
            lemma_ratio_sign(c, d);
            assert(magnitude(a) * d == magnitude(c) * b) by (nonlinear_arith)
                requires
                    a * d == c * b,
                    b > 0,
                    d > 0,
                    (a < 0) == (c < 0),
            ;
            lemma_lowest_terms_are_least(magnitude(a), b as nat, magnitude(c), d as nat);
            lemma_lowest_terms_are_least(magnitude(c), d as nat, magnitude(a), b as nat);
        }
    }

    /// The fraction `±m / d` in lowest terms, where it fits.
    fn reduced(negative: bool, m: u128, d: u128) -> (r: Option<Scalar>)
        requires
            d > 0,
        ensures
            r matches Some(s) ==> s@ == Extended::Finite(
                ratio(if negative { -(m as int) } else { m as int }, d as int),
            ),
            r is None <==> !fits(ratio(if negative { -(m as int) } else { m as int }, d as int)),
    {
        let g: u128 = greatest_common_divisor(m, d);
        proof {
            lemma_reduced_is_coprime(m as nat, d as nat);
        }
        let p: u128 = m / g;
        let q: u128 = d / g;
        let ghost n: int = if negative { -(m as int) } else { m as int };
        let ghost k: int = if negative { -(p as int) } else { p as int };
        proof {
            assert(k * d == n * q) by (nonlinear_arith)
                requires
                    m == g * p,
                    d == g * q,
                    n == (if negative { -(m as int) } else { m as int }),
                    k == (if negative { -(p as int) } else { p as int }),
            ;
            assert(q > 0) by (nonlinear_arith)
                requires
                    d == g * q,
                    d > 0,
                    g > 0,
            ;
            lemma_ratio_equal(k, q as int, n, d as int);
        }
        if p <= LIMIT as u128 && q <= LIMIT as u128 {
            let num: i64 = if negative { -(p as i64) } else { p as i64 };
            assert(fits(ratio(n, d as int)));
            Some(Scalar { repr: Repr::Finite { num, den: q as i64 } })
        } else {
            proof {
                lemma_lowest_terms_outside_limit(k, q as int);
            }
            None
        }
    }

    /// The whole number `n`.
    pub fn from_int(n: i32) -> (s: Scalar)
        ensures
            s@ == Extended::Finite(n as real),
            s@.representable(),
    {
        proof {
            assert(gcd(magnitude(n as int), 1) == 1) by {
                reveal_with_fuel(gcd, 2);
            }
            assert(ratio(n as int, 1) == n as real) by (nonlinear_arith);
        }
        Scalar { repr: Repr::Finite { num: n as i64, den: 1 } }
    }

    /// The fraction `num / den`, unless `den` is zero or the fraction in
    /// lowest terms needs an integer beyond `LIMIT`.
    pub fn from_ratio(num: i64, den: i64) -> (r: Option<Scalar>)
        ensures
            r matches Some(s) ==> den != 0 && s@ == Extended::Finite(ratio(num as int, den as int)),
            r is None <==> den == 0 || !fits(ratio(num as int, den as int)),
    {
        if den == 0 {
            return None;
        }
        let negative: bool = (num < 0) != (den < 0);
        let m: u128 = magnitude_of(num);
        let d: u128 = magnitude_of(den);
        proof {
            let n: int = if negative { -(m as int) } else { m as int };
            assert(n * den == num * d) by (nonlinear_arith)
                requires
                    den != 0,
                    m == magnitude(num as int),
                    d == magnitude(den as int),
                    negative == ((num < 0) != (den < 0)),
                    n == (if negative { -(m as int) } else { m as int }),
            ;
            lemma_ratio_equal(n, d as int, num as int, den as int);
        }
        Scalar::reduced(negative, m, d)
    }

    /// Positive infinity.
    pub fn infinity() -> (s: Scalar)
        ensures
            s@ == Extended::PosInf,
    {
        Scalar { repr: Repr::PosInf }
    }

    /// Negative infinity.
    pub fn neg_infinity() -> (s: Scalar)
        ensures
            s@ == Extended::NegInf,
    {
        Scalar { repr: Repr::NegInf }
    }

    /// The indeterminate value.
    pub fn nan() -> (s: Scalar)
        ensures
            s@ == Extended::Nan,
    {
        Scalar { repr: Repr::Nan }
    }

    /// Whether this is the indeterminate value.
    pub fn is_nan(self) -> (b: bool)
        ensures
            b == (self@ is Nan),
    {
        matches!(self.repr, Repr::Nan)
    }

    /// Whether this is one of the two infinities.
    pub fn is_infinite(self) -> (b: bool)
        ensures
            b == (self@ is PosInf || self@ is NegInf),
    {
        matches!(self.repr, Repr::PosInf) || matches!(self.repr, Repr::NegInf)
    }

    /// Whether this is negative infinity or a number below zero.
    pub fn is_negative(self) -> (b: bool)
        ensures
            b == (self@.sign() < 0),
    {
        proof {
            use_type_invariant(&self);
        }
        match self.repr {
            Repr::Finite { num, den } => {
                proof {
                    lemma_ratio_sign(num as int, den as int);
                }
                num < 0
            },
            Repr::NegInf => true,
            _ => false,
        }
    }

    /// The numerator and the denominator of a finite number in lowest terms,
    /// the denominator positive; `None` for an infinity and for the
    /// indeterminate value.
    pub fn as_ratio(self) -> (r: Option<(i64, i64)>)
        ensures
            match r {
                Some((n, d)) => {
                    &&& self@ == Extended::Finite(ratio(n as int, d as int))
                    &&& -LIMIT <= n
                    &&& 0 < d
                    &&& gcd(magnitude(n as int), d as nat) == 1
                },
                None => !(self@ is Finite),
            },
    {
        proof {
            use_type_invariant(&self);
        }
        match self.repr {
            Repr::Finite { num, den } => Some((num, den)),
            _ => None,
        }
    }
    /// The sign as -1, 0 or 1.
    fn signum(self) -> (s: i8)
        ensures
            s == self@.sign(),
    {
        proof {
            use_type_invariant(&self);
        }
        match self.repr {
            Repr::Finite { num, den } => {
                proof {
                    lemma_ratio_sign(num as int, den as int);
                }
                if num > 0 {
                    1
                } else if num < 0 {
                    -1
                } else {
                    0
                }
            },
            Repr::PosInf => 1,
            Repr::NegInf => -1,
            Repr::Nan => 0,
        }
    }

    /// The infinity of the given sign, indeterminate for sign zero.
    fn infinity_of_sign(sign: i8) -> (s: Scalar)
        ensures
            s@ == Extended::infinity_of_sign(sign as int),
    {
        if sign > 0 {
            Scalar { repr: Repr::PosInf }
        } else if sign < 0 {
            Scalar { repr: Repr::NegInf }
        } else {
            Scalar { repr: Repr::Nan }
        }
    }

    /// The fraction `n / d` in lowest terms, where it fits.
    fn reduced_signed(n: i128, d: i128) -> (r: Option<Scalar>)
        requires
            d > 0,
            n > i128::MIN,
        ensures
            r matches Some(s) ==> s@ == Extended::Finite(ratio(n as int, d as int)),
            r is None <==> !fits(ratio(n as int, d as int)),
    {
        if n < 0 {
            Scalar::reduced(true, (-n) as u128, d as u128)
        } else {
            Scalar::reduced(false, n as u128, d as u128)
        }
    }

    /// The exact sum, unless it does not fit.
    pub fn checked_add(self, rhs: Scalar) -> (r: Option<Scalar>)
        ensures
            r matches Some(s) ==> s@ == self@.plus(rhs@),
            r is None <==> !self@.plus(rhs@).representable(),
    {
        proof {
            use_type_invariant(&self);
            use_type_invariant(&rhs);
        }
        match (self.repr, rhs.repr) {
            (Repr::Finite { num: a, den: b }, Repr::Finite { num: c, den: d }) => {
                proof {
                    lemma_product_bound(a as int, d as int);
                    lemma_product_bound(c as int, b as int);
                    lemma_product_bound(b as int, d as int);
                    lemma_ratio_sum(a as int, b as int, c as int, d as int);
                    assert(b * d > 0) by (nonlinear_arith)
                        requires
                            b > 0,
                            d > 0,
                    ;
                }
                let n: i128 = (a as i128) * (d as i128) + (c as i128) * (b as i128);
                let e: i128 = (b as i128) * (d as i128);
                Scalar::reduced_signed(n, e)
            },
            (Repr::Nan, _) => Some(Scalar { repr: Repr::Nan }),
            (_, Repr::Nan) => Some(Scalar { repr: Repr::Nan }),
            (Repr::PosInf, Repr::NegInf) => Some(Scalar { repr: Repr::Nan }),
            (Repr::NegInf, Repr::PosInf) => Some(Scalar { repr: Repr::Nan }),
            (Repr::Finite { .. }, _) => Some(rhs),
            _ => Some(self),
        }
    }

    /// The exact product, unless it does not fit.
    pub fn checked_mul(self, rhs: Scalar) -> (r: Option<Scalar>)
        ensures
            r matches Some(s) ==> s@ == self@.times(rhs@),
            r is None <==> !self@.times(rhs@).representable(),
    {
        proof {
            use_type_invariant(&self);
            use_type_invariant(&rhs);
        }
        match (self.repr, rhs.repr) {
            (Repr::Finite { num: a, den: b }, Repr::Finite { num: c, den: d }) => {
                proof {
                    lemma_product_bound(a as int, c as int);
                    lemma_product_bound(b as int, d as int);
                    lemma_ratio_product(a as int, b as int, c as int, d as int);
                    assert(b * d > 0) by (nonlinear_arith)
                        requires
                            b > 0,
                            d > 0,
                    ;
                }
                let n: i128 = (a as i128) * (c as i128);
                let e: i128 = (b as i128) * (d as i128);
                Scalar::reduced_signed(n, e)
            },
            (Repr::Nan, _) => Some(Scalar { repr: Repr::Nan }),
            (_, Repr::Nan) => Some(Scalar { repr: Repr::Nan }),
            _ => {
                let left: i8 = self.signum();
                let right: i8 = rhs.signum();
                assert(-1 <= left * right <= 1) by (nonlinear_arith)
                    requires
                        -1 <= left <= 1,
                        -1 <= right <= 1,
                ;
                Some(Scalar::infinity_of_sign(left * right))
            },
        }
    }

    /// The exact quotient, unless it does not fit.
    pub fn checked_div(self, rhs: Scalar) -> (r: Option<Scalar>)
        ensures
            r matches Some(s) ==> s@ == self@.over(rhs@),
            r is None <==> !self@.over(rhs@).representable(),
    {
        proof {
            use_type_invariant(&self);
            use_type_invariant(&rhs);
        }
        match (self.repr, rhs.repr) {
            (Repr::Nan, _) => Some(Scalar { repr: Repr::Nan }),
            (_, Repr::Nan) => Some(Scalar { repr: Repr::Nan }),
            (Repr::Finite { num: a, den: b }, Repr::Finite { num: c, den: d }) => {
                if c == 0 {
                    proof {
                        lemma_ratio_sign(c as int, d as int);
                    }
                    Some(Scalar::infinity_of_sign(self.signum()))
                } else {
                    proof {
                        lemma_product_bound(a as int, d as int);
                        lemma_product_bound(b as int, c as int);
                        lemma_ratio_quotient(a as int, b as int, c as int, d as int);
                        assert((-(a * d)) * (b * c) == (a * d) * (-(b * c))) by (nonlinear_arith);
                        lemma_ratio_equal(-(a * d), -(b * c), a * d, b * c);
                        assert(c > 0 ==> b * c > 0) by (nonlinear_arith)
                            requires
                                b > 0,
                        ;
                        assert(c < 0 ==> b * c < 0) by (nonlinear_arith)
                            requires
                                b > 0,
                        ;
                    }
                    let n: i128 = (a as i128) * (d as i128);
                    let e: i128 = (b as i128) * (c as i128);
                    if c > 0 {
                        Scalar::reduced_signed(n, e)
                    } else {
                        Scalar::reduced_signed(-n, -e)
                    }
                }
            },
            (Repr::Finite { .. }, _) => Some(Scalar::from_int(0)),
            (_, Repr::Finite { num: c, den: d }) => {
                proof {
                    lemma_ratio_sign(c as int, d as int);
                }
                if c >= 0 {
                    Some(self)
                } else {
                    Some(Scalar::infinity_of_sign(-self.signum()))
                }
            },
            _ => Some(Scalar { repr: Repr::Nan }),
        }
    }

    /// The reciprocal, which always fits: the reciprocal of zero is positive
    /// infinity and that of an infinity is zero.
    pub fn recip(self) -> (r: Scalar)
        ensures
            r@ == self@.recip(),
    {
        proof {
            use_type_invariant(&self);
        }
        match self.repr {
            Repr::Finite { num, den } => {
                proof {
                    lemma_ratio_sign(num as int, den as int);
                    lemma_gcd_symmetric(magnitude(num as int), den as nat);
                    assert(ratio(1, 1) == 1real) by (nonlinear_arith);
                    if num != 0 {
                        lemma_ratio_quotient(1, 1, num as int, den as int);
                        assert((-den) * num == den * (-num)) by (nonlinear_arith);
                        lemma_ratio_equal(-den, -num, den as int, num as int);
                    }
                }
                if num > 0 {
                    Scalar { repr: Repr::Finite { num: den, den: num } }
                } else if num < 0 {
                    Scalar { repr: Repr::Finite { num: -den, den: -num } }
                } else {
                    Scalar { repr: Repr::PosInf }
                }
            },
            Repr::PosInf => Scalar::from_int(0),
            Repr::NegInf => Scalar::from_int(0),
            Repr::Nan => Scalar { repr: Repr::Nan },
        }
    }
}

} // verus!
