use circuit_solver::divisors::greatest_common_divisor;

#[test]
fn common_divisors() {
    assert_eq!(greatest_common_divisor(12, 18), 6);
    assert_eq!(greatest_common_divisor(18, 12), 6);
    assert_eq!(greatest_common_divisor(17, 5), 1);
    assert_eq!(greatest_common_divisor(200, 30), 10);
    assert_eq!(greatest_common_divisor(1, 1), 1);
}

#[test]
fn divisors_of_zero() {
    assert_eq!(greatest_common_divisor(0, 7), 7);
    assert_eq!(greatest_common_divisor(7, 0), 7);
    assert_eq!(greatest_common_divisor(0, 0), 0);
}

#[test]
fn divisors_of_large_numbers() {
    assert_eq!(greatest_common_divisor(u128::MAX, u128::MAX), u128::MAX);
    assert_eq!(greatest_common_divisor(u128::MAX, 1), 1);
    assert_eq!(greatest_common_divisor(1 << 100, 1 << 70), 1 << 70);
    assert_eq!(greatest_common_divisor(3 * (1 << 100), 5 * (1 << 90)), 1 << 90);
}
