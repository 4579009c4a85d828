use splines::lowest_terms::greatest_common_divisor;
use splines::maths::factorial;
use splines::scalar::{integer_root, Scalar, LIMIT};

#[test]
fn factorial_of_table_arguments() {
    let expected: [u128; 11] = [1, 1, 2, 6, 24, 120, 720, 5040, 40320, 362880, 3628800];
    for (n, value) in expected.iter().enumerate() {
        assert_eq!(factorial(n as u128), *value);
    }
}

#[test]
fn factorial_beyond_the_table() {
    assert_eq!(factorial(11), 39916800);
    assert_eq!(factorial(12), 479001600);
    assert_eq!(factorial(20), 2432902008176640000);
    assert_eq!(factorial(25), 15511210043330985984000000);
}

#[test]
fn factorial_of_largest_argument() {
    assert_eq!(factorial(34), 295232799039604140847618609643520000000);
    assert_eq!(factorial(34), factorial(33) * 34);
}

#[test]
fn gcd_of_machine_integers() {
    assert_eq!(greatest_common_divisor(12, 18), 6);
    assert_eq!(greatest_common_divisor(17, 5), 1);
    assert_eq!(greatest_common_divisor(0, 9), 9);
    assert_eq!(greatest_common_divisor(9, 0), 9);
    assert_eq!(greatest_common_divisor(0, 0), 0);
}

#[test]
fn scalar_is_held_in_lowest_terms() {
    assert_eq!(Scalar::new(2, 4).parts(), Some((1, 2)));
    assert_eq!(Scalar::new(1, -2).parts(), Some((-1, 2)));
    assert_eq!(Scalar::new(-6, -8).parts(), Some((3, 4)));
    assert_eq!(Scalar::new(0, 7).parts(), Some((0, 1)));
    assert_eq!(Scalar::from_int(5).parts(), Some((5, 1)));
}

#[test]
fn scalar_with_zero_denominator_is_undefined() {
    assert_eq!(Scalar::new(1, 0).parts(), None);
    assert!(!Scalar::new(0, 0).is_defined());
    assert!(!Scalar::undefined().is_defined());
    assert!(Scalar::new(1, 3).is_defined());
}

#[test]
fn scalar_limits() {
    assert_eq!(LIMIT, i64::MAX);
    assert!(Scalar::from_int(i64::MAX).is_defined());
    assert!(Scalar::from_int(-i64::MAX).is_defined());
    assert!(!Scalar::from_int(i64::MIN).is_defined());
    assert!(!Scalar::new(1, i64::MIN).is_defined());
    assert_eq!(Scalar::new(i64::MIN, i64::MIN), Scalar::from_int(1));
    assert_eq!(Scalar::new(i64::MIN, 2).parts(), Some((-(1i64 << 62), 1)));
    assert!(Scalar::from_u128(i64::MAX as u128).is_defined());
    assert!(!Scalar::from_u128(i64::MAX as u128 + 1).is_defined());
    assert_eq!(Scalar::from_usize(7), Scalar::from_int(7));
}

#[test]
fn scalar_sum_is_exact() {
    let a = Scalar::new(1, 2);
    let b = Scalar::new(1, 3);
    assert_eq!(a.add(b), Scalar::new(5, 6));
    assert_eq!(a.add(b).parts(), Some((5, 6)));
    assert_eq!(Scalar::new(1, 6).add(Scalar::new(1, 3)).parts(), Some((1, 2)));
    assert_eq!(a.add(a.neg()), Scalar::zero());
}

#[test]
fn scalar_difference_product_quotient() {
    let a = Scalar::new(3, 4);
    let b = Scalar::new(2, 3);
    assert_eq!(a.sub(b).parts(), Some((1, 12)));
    assert_eq!(b.sub(a).parts(), Some((-1, 12)));
    assert_eq!(a.mul(b).parts(), Some((1, 2)));
    assert_eq!(a.div(b).parts(), Some((9, 8)));
    assert_eq!(a.div(b.neg()).parts(), Some((-9, 8)));
    assert_eq!(a.neg().parts(), Some((-3, 4)));
}

#[test]
fn scalar_division_by_zero_is_undefined() {
    assert!(!Scalar::from_int(1).div(Scalar::zero()).is_defined());
    assert!(!Scalar::zero().div(Scalar::zero()).is_defined());
    assert_eq!(Scalar::zero().div(Scalar::from_int(3)), Scalar::zero());
}

#[test]
fn scalar_overflow_is_undefined() {
    let big = Scalar::from_int(i64::MAX);
    assert!(!big.add(Scalar::one()).is_defined());
    assert!(!big.mul(Scalar::from_int(2)).is_defined());
    assert!(!big.neg().sub(Scalar::one()).is_defined());
    assert!(!Scalar::new(1, i64::MAX).div(Scalar::from_int(2)).is_defined());
    // the exact result fits although the cross products do not
    assert_eq!(big.mul(Scalar::new(1, i64::MAX)), Scalar::one());
    assert_eq!(big.add(big.neg()), Scalar::zero());
    assert_eq!(Scalar::new(i64::MAX, 2).add(Scalar::new(i64::MAX, 2)), big);
}

#[test]
fn undefined_spreads_through_operations() {
    let u = Scalar::undefined();
    let one = Scalar::one();
    assert!(!u.add(one).is_defined());
    assert!(!one.add(u).is_defined());
    assert!(!u.sub(one).is_defined());
    assert!(!u.mul(Scalar::zero()).is_defined());
    assert!(!one.div(u).is_defined());
    assert!(!u.neg().is_defined());
    assert!(!u.fract().is_defined());
    assert!(!u.sqrt().is_defined());
    assert_eq!(u.floor(), None);
    assert_eq!(u.parts(), None);
}

#[test]
fn scalar_equality_is_by_value() {
    assert_eq!(Scalar::new(1, 2), Scalar::new(2, 4));
    assert_eq!(Scalar::new(-1, 2), Scalar::new(1, -2));
    assert_ne!(Scalar::new(1, 2), Scalar::new(1, 3));
    assert_eq!(Scalar::undefined(), Scalar::new(3, 0));
    assert_ne!(Scalar::undefined(), Scalar::zero());
    assert_ne!(Scalar::zero(), Scalar::undefined());
}

#[test]
fn scalar_powers() {
    let half = Scalar::new(1, 2);
    assert_eq!(half.powi(0), Scalar::one());
    assert_eq!(half.powi(1), half);
    assert_eq!(half.powi(3).parts(), Some((1, 8)));
    assert_eq!(Scalar::from_int(-2).powi(5), Scalar::from_int(-32));
    assert_eq!(Scalar::zero().powi(0), Scalar::one());
    assert_eq!(Scalar::zero().powi(4), Scalar::zero());
    assert_eq!(Scalar::undefined().powi(0), Scalar::one());
    assert!(!Scalar::undefined().powi(1).is_defined());
    assert!(Scalar::from_int(2).powi(62).is_defined());
    assert!(!Scalar::from_int(2).powi(63).is_defined());
}

#[test]
fn scalar_floor_and_fraction() {
    assert_eq!(Scalar::new(7, 2).floor(), Some(3));
    assert_eq!(Scalar::new(7, 2).fract(), Scalar::new(1, 2));
    assert_eq!(Scalar::new(-7, 2).floor(), Some(-4));
    assert_eq!(Scalar::new(-7, 2).fract(), Scalar::new(1, 2));
    assert_eq!(Scalar::new(-1, 3).floor(), Some(-1));
    assert_eq!(Scalar::new(-1, 3).fract(), Scalar::new(2, 3));
    assert_eq!(Scalar::from_int(4).floor(), Some(4));
    assert_eq!(Scalar::from_int(4).fract(), Scalar::zero());
    assert_eq!(Scalar::from_int(-4).floor(), Some(-4));
    assert_eq!(Scalar::from_int(-4).fract(), Scalar::zero());
    assert_eq!(Scalar::from_int(-i64::MAX).floor(), Some(-i64::MAX));
    assert_eq!(Scalar::new(-i64::MAX, 2).floor(), Some(-(1i64 << 62)));
}

#[test]
fn integer_roots() {
    assert_eq!(integer_root(0), 0);
    assert_eq!(integer_root(1), 1);
    assert_eq!(integer_root(3), 1);
    assert_eq!(integer_root(4), 2);
    assert_eq!(integer_root(99), 9);
    assert_eq!(integer_root(100), 10);
    assert_eq!(integer_root(u64::MAX), 0xffff_ffff);
    assert_eq!(integer_root(0xffff_ffff * 0xffff_ffff), 0xffff_ffff);
}

#[test]
fn scalar_square_roots() {
    assert_eq!(Scalar::new(4, 9).sqrt().parts(), Some((2, 3)));
    assert_eq!(Scalar::new(8, 18).sqrt().parts(), Some((2, 3)));
    assert_eq!(Scalar::from_int(25).sqrt(), Scalar::from_int(5));
    assert_eq!(Scalar::zero().sqrt(), Scalar::zero());
    assert_eq!(Scalar::one().sqrt(), Scalar::one());
    assert!(!Scalar::from_int(2).sqrt().is_defined());
    assert!(!Scalar::new(1, 2).sqrt().is_defined());
    assert!(!Scalar::new(4, 3).sqrt().is_defined());
    assert!(!Scalar::from_int(-4).sqrt().is_defined());
}
