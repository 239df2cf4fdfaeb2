use circuit_solver::scalar::{Scalar, LIMIT};

fn ratio(num: i64, den: i64) -> Scalar {
    Scalar::from_ratio(num, den).unwrap()
}

#[test]
fn a_ratio_is_kept_in_lowest_terms() {
    assert_eq!(ratio(6, 4).as_ratio(), Some((3, 2)));
    assert_eq!(ratio(6, -4).as_ratio(), Some((-3, 2)));
    assert_eq!(ratio(-6, -4).as_ratio(), Some((3, 2)));
    assert_eq!(ratio(0, -7).as_ratio(), Some((0, 1)));
    assert_eq!(ratio(6, 4), ratio(3, 2));
    assert_eq!(ratio(10, 1), Scalar::from_int(10));
}

#[test]
fn a_ratio_over_zero_is_refused() {
    assert_eq!(Scalar::from_ratio(1, 0), None);
    assert_eq!(Scalar::from_ratio(0, 0), None);
}

#[test]
fn a_ratio_beyond_the_limit_is_refused() {
    assert_eq!(LIMIT, i64::MAX);
    assert_eq!(Scalar::from_ratio(i64::MIN, 1), None);
    assert_eq!(Scalar::from_ratio(1, i64::MIN), None);
    assert_eq!(Scalar::from_ratio(i64::MIN, 3), None);
    assert_eq!(Scalar::from_ratio(i64::MIN, 2).unwrap().as_ratio(), Some((i64::MIN / 2, 1)));
    assert_eq!(Scalar::from_ratio(i64::MIN, i64::MIN), Some(Scalar::from_int(1)));
    assert_eq!(Scalar::from_ratio(i64::MAX, 1).unwrap().as_ratio(), Some((i64::MAX, 1)));
    assert_eq!(Scalar::from_ratio(-i64::MAX, i64::MAX), Some(Scalar::from_int(-1)));
}

#[test]
fn whole_numbers() {
    assert_eq!(Scalar::from_int(0).as_ratio(), Some((0, 1)));
    assert_eq!(Scalar::from_int(-7).as_ratio(), Some((-7, 1)));
    assert_eq!(Scalar::from_int(i32::MIN).as_ratio(), Some((i32::MIN as i64, 1)));
}

#[test]
fn special_values_have_no_ratio() {
    assert_eq!(Scalar::infinity().as_ratio(), None);
    assert_eq!(Scalar::neg_infinity().as_ratio(), None);
    assert_eq!(Scalar::nan().as_ratio(), None);
}

#[test]
fn classification() {
    assert!(Scalar::nan().is_nan());
    assert!(!Scalar::infinity().is_nan());
    assert!(!Scalar::from_int(3).is_nan());
    assert!(Scalar::infinity().is_infinite());
    assert!(Scalar::neg_infinity().is_infinite());
    assert!(!Scalar::nan().is_infinite());
    assert!(!Scalar::from_int(3).is_infinite());
    assert!(Scalar::neg_infinity().is_negative());
    assert!(ratio(-1, 3).is_negative());
    assert!(!Scalar::from_int(0).is_negative());
    assert!(!ratio(1, 3).is_negative());
    assert!(!Scalar::infinity().is_negative());
    assert!(!Scalar::nan().is_negative());
}

#[test]
fn sums_are_exact() {
    assert_eq!(ratio(1, 3).checked_add(ratio(1, 6)), Some(ratio(1, 2)));
    assert_eq!(ratio(1, 10).checked_add(ratio(2, 10)), Some(ratio(3, 10)));
    assert_eq!(ratio(1, 2).checked_add(ratio(-1, 2)), Some(Scalar::from_int(0)));
    assert_eq!(ratio(-3, 4).checked_add(ratio(1, 4)), Some(ratio(-1, 2)));
}

#[test]
fn sums_with_special_values() {
    let inf = Scalar::infinity();
    let neg = Scalar::neg_infinity();
    let nan = Scalar::nan();
    let one = Scalar::from_int(1);
    assert_eq!(inf.checked_add(one), Some(inf));
    assert_eq!(one.checked_add(inf), Some(inf));
    assert_eq!(neg.checked_add(one), Some(neg));
    assert_eq!(one.checked_add(neg), Some(neg));
    assert_eq!(inf.checked_add(inf), Some(inf));
    assert_eq!(neg.checked_add(neg), Some(neg));
    assert_eq!(inf.checked_add(neg), Some(nan));
    assert_eq!(neg.checked_add(inf), Some(nan));
    assert_eq!(nan.checked_add(one), Some(nan));
    assert_eq!(one.checked_add(nan), Some(nan));
    assert_eq!(nan.checked_add(inf), Some(nan));
}

#[test]
fn a_sum_beyond_the_limit_is_refused() {
    let big = ratio(i64::MAX, 1);
    assert_eq!(big.checked_add(Scalar::from_int(1)), None);
    assert_eq!(big.checked_add(Scalar::from_int(-1)), Some(ratio(i64::MAX - 1, 1)));
    let fine = ratio(1, i64::MAX);
    assert_eq!(fine.checked_add(ratio(1, 2)), None);
    assert_eq!(fine.checked_add(fine), Some(ratio(2, i64::MAX)));
}

#[test]
fn products_are_exact() {
    assert_eq!(ratio(2, 3).checked_mul(ratio(3, 4)), Some(ratio(1, 2)));
    assert_eq!(ratio(-2, 3).checked_mul(ratio(3, 4)), Some(ratio(-1, 2)));
    assert_eq!(ratio(-2, 3).checked_mul(ratio(-3, 4)), Some(ratio(1, 2)));
    assert_eq!(Scalar::from_int(10).checked_mul(ratio(3, 10)), Some(Scalar::from_int(3)));
    assert_eq!(Scalar::from_int(0).checked_mul(ratio(3, 10)), Some(Scalar::from_int(0)));
}

#[test]
fn products_with_special_values() {
    let inf = Scalar::infinity();
    let neg = Scalar::neg_infinity();
    let nan = Scalar::nan();
    let zero = Scalar::from_int(0);
    let two = Scalar::from_int(2);
    let minus = Scalar::from_int(-2);
    assert_eq!(inf.checked_mul(two), Some(inf));
    assert_eq!(two.checked_mul(inf), Some(inf));
    assert_eq!(inf.checked_mul(minus), Some(neg));
    assert_eq!(minus.checked_mul(neg), Some(inf));
    assert_eq!(inf.checked_mul(neg), Some(neg));
    assert_eq!(neg.checked_mul(neg), Some(inf));
    assert_eq!(inf.checked_mul(zero), Some(nan));
    assert_eq!(zero.checked_mul(neg), Some(nan));
    assert_eq!(nan.checked_mul(two), Some(nan));
    assert_eq!(inf.checked_mul(nan), Some(nan));
}

#[test]
fn a_product_beyond_the_limit_is_refused() {
    let big = ratio(1 << 62, 1);
    assert_eq!(big.checked_mul(Scalar::from_int(2)), None);
    assert_eq!(big.checked_mul(ratio(1, 2)), Some(ratio(1 << 61, 1)));
    let fine = ratio(1, 1 << 62);
    assert_eq!(fine.checked_mul(ratio(1, 2)), None);
}

#[test]
fn quotients_are_exact() {
    assert_eq!(Scalar::from_int(9).checked_div(Scalar::from_int(30)), Some(ratio(3, 10)));
    assert_eq!(Scalar::from_int(9).checked_div(Scalar::from_int(-30)), Some(ratio(-3, 10)));
    assert_eq!(ratio(1, 2).checked_div(ratio(1, 4)), Some(Scalar::from_int(2)));
    assert_eq!(Scalar::from_int(0).checked_div(Scalar::from_int(5)), Some(Scalar::from_int(0)));
}

#[test]
fn division_by_zero() {
    let zero = Scalar::from_int(0);
    assert_eq!(Scalar::from_int(9).checked_div(zero), Some(Scalar::infinity()));
    assert_eq!(Scalar::from_int(-9).checked_div(zero), Some(Scalar::neg_infinity()));
    assert_eq!(zero.checked_div(zero), Some(Scalar::nan()));
    assert_eq!(Scalar::infinity().checked_div(zero), Some(Scalar::infinity()));
    assert_eq!(Scalar::neg_infinity().checked_div(zero), Some(Scalar::neg_infinity()));
}

#[test]
fn quotients_with_special_values() {
    let inf = Scalar::infinity();
    let neg = Scalar::neg_infinity();
    let nan = Scalar::nan();
    let zero = Scalar::from_int(0);
    let two = Scalar::from_int(2);
    let minus = Scalar::from_int(-2);
    assert_eq!(two.checked_div(inf), Some(zero));
    assert_eq!(two.checked_div(neg), Some(zero));
    assert_eq!(inf.checked_div(two), Some(inf));
    assert_eq!(inf.checked_div(minus), Some(neg));
    assert_eq!(neg.checked_div(minus), Some(inf));
    assert_eq!(neg.checked_div(two), Some(neg));
    assert_eq!(inf.checked_div(inf), Some(nan));
    assert_eq!(inf.checked_div(neg), Some(nan));
    assert_eq!(nan.checked_div(two), Some(nan));
    assert_eq!(two.checked_div(nan), Some(nan));
}

#[test]
fn a_quotient_beyond_the_limit_is_refused() {
    let big = ratio(1 << 62, 1);
    assert_eq!(big.checked_div(ratio(1, 2)), None);
    assert_eq!(big.checked_div(Scalar::from_int(2)), Some(ratio(1 << 61, 1)));
}

#[test]
fn reciprocals() {
    assert_eq!(ratio(3, 10).recip(), ratio(10, 3));
    assert_eq!(ratio(-3, 10).recip(), ratio(-10, 3));
    assert_eq!(Scalar::from_int(1).recip(), Scalar::from_int(1));
    assert_eq!(Scalar::from_int(0).recip(), Scalar::infinity());
    assert_eq!(Scalar::infinity().recip(), Scalar::from_int(0));
    assert_eq!(Scalar::neg_infinity().recip(), Scalar::from_int(0));
    assert!(Scalar::nan().recip().is_nan());
    assert_eq!(ratio(i64::MAX, 1).recip(), ratio(1, i64::MAX));
    assert_eq!(ratio(-i64::MAX, 1).recip().as_ratio(), Some((-1, i64::MAX)));
}

#[test]
fn the_reciprocal_of_the_reciprocal() {
    let values = vec![ratio(3, 10), ratio(-7, 2), Scalar::from_int(5), Scalar::infinity()];
    for v in values {
        assert_eq!(v.recip().recip(), if v.is_infinite() { Scalar::infinity() } else { v });
    }
}
