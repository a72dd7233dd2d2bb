use scirust::matrix::{Ring, Scalar, Sqrt};

#[test]
fn the_identities_of_the_integers() {
    assert_eq!(<i64 as Ring>::zero(), 0);
    assert_eq!(<i64 as Ring>::one(), 1);
}

#[test]
fn integer_sums_differences_and_products_wrap() {
    assert_eq!(Ring::add(3i64, 4), 7);
    assert_eq!(Ring::sub(3i64, 4), -1);
    assert_eq!(Ring::mul(-3i64, 4), -12);
    assert_eq!(Ring::add(i64::MAX, 1), i64::MIN);
    assert_eq!(Ring::sub(i64::MIN, 1), i64::MAX);
    assert_eq!(Ring::mul(i64::MAX, 2), -2);
}

#[test]
fn integer_square_root_is_the_integer_part() {
    assert_eq!(Sqrt::sqrt(0i64), 0);
    assert_eq!(Sqrt::sqrt(1i64), 1);
    assert_eq!(Sqrt::sqrt(16i64), 4);
    assert_eq!(Sqrt::sqrt(17i64), 4);
    assert_eq!(Sqrt::sqrt(24i64), 4);
    assert_eq!(Sqrt::sqrt(25i64), 5);
    assert_eq!(Sqrt::sqrt(i64::MAX), 3037000499);
}

#[test]
fn integer_quotient_truncates_toward_zero() {
    assert_eq!(Scalar::div(7i64, 2), 3);
    assert_eq!(Scalar::div(-7i64, 2), -3);
    assert_eq!(Scalar::div(7i64, -2), -3);
    assert_eq!(Scalar::div(-7i64, -2), 3);
    assert_eq!(Scalar::div(0i64, -5), 0);
    assert_eq!(Scalar::div(i64::MIN, -1), i64::MIN);
    assert_eq!(Scalar::div(i64::MIN, 1), i64::MIN);
}

#[test]
fn integer_sign_and_zero_tests() {
    assert!(Scalar::is_positive(1i64));
    assert!(!Scalar::is_positive(0i64));
    assert!(!Scalar::is_positive(-1i64));
    assert!(Scalar::is_zero(0i64));
    assert!(!Scalar::is_zero(-1i64));
}
