use polycalc::error::AlgebraError;
use polycalc::power::{checked_int_pow, integer_root, Power};
use polycalc::rational::Rational;

#[test]
fn new_reduces_to_lowest_terms() {
    let r = Rational::new(6, -4);
    assert_eq!(r.numer(), -3);
    assert_eq!(r.denom(), 2);
    let z = Rational::new(0, 5);
    assert_eq!(z, Rational::zero());
    assert_eq!(Rational::new(7, 7), Rational::one());
}

#[test]
fn sum_of_fractions_is_exact() {
    let a = Rational::new(1, 6);
    let b = Rational::new(1, 3);
    assert_eq!(a.checked_add(b), Ok(Rational::new(1, 2)));
    assert_eq!(a.checked_add(a.neg()), Ok(Rational::zero()));
}

#[test]
fn product_is_in_lowest_terms() {
    let a = Rational::new(2, 3);
    let b = Rational::new(3, 4);
    assert_eq!(a.checked_mul(b), Ok(Rational::new(1, 2)));
    assert_eq!(a.checked_mul(Rational::zero()), Ok(Rational::zero()));
}

#[test]
fn quotient_keeps_the_sign_in_the_numerator() {
    let a = Rational::new(1, 2);
    let b = Rational::new(-3, 4);
    let q = a.checked_div(b).unwrap();
    assert_eq!(q.numer(), -2);
    assert_eq!(q.denom(), 3);
    assert_eq!(a.checked_div(a), Ok(Rational::one()));
}

#[test]
fn division_by_zero_is_reported() {
    let a = Rational::new(1, 6);
    assert_eq!(a.checked_div(Rational::zero()), Err(AlgebraError::DivisionByZero));
    assert_eq!(Rational::zero().recip(), Err(AlgebraError::DivisionByZero));
}

#[test]
fn overflow_is_reported() {
    let big = Rational::from_integer(i64::MAX);
    assert_eq!(big.checked_add(Rational::one()), Err(AlgebraError::Overflow));
    assert_eq!(big.checked_mul(Rational::from_integer(2)), Err(AlgebraError::Overflow));
    let tiny = Rational::new(1, i64::MAX);
    assert_eq!(tiny.checked_div(Rational::from_integer(2)), Err(AlgebraError::Overflow));
}

#[test]
fn order_of_fractions() {
    let third = Rational::new(1, 3);
    let half = Rational::new(1, 2);
    let minus_half = Rational::new(-1, 2);
    assert!(third.lt(half));
    assert!(!half.lt(third));
    assert!(!half.lt(half));
    assert!(minus_half.lt(third));
    assert_eq!(third.max(half), half);
    assert_eq!(third.min(half), third);
}

#[test]
fn reciprocal_and_negation() {
    let a = Rational::new(-2, 3);
    assert_eq!(a.recip(), Ok(Rational::new(-3, 2)));
    assert_eq!(a.neg(), Rational::new(2, 3));
}

#[test]
fn text_of_fractions() {
    assert_eq!(Rational::from_integer(3).text(), "3");
    assert_eq!(Rational::new(-3, 4).text(), "-3/4");
    assert_eq!(Rational::zero().text(), "0");
    assert_eq!(Rational::new(120, 7).text(), "120/7");
}

#[test]
fn integer_powers_and_roots() {
    assert_eq!(checked_int_pow(3, 4), Some(81));
    assert_eq!(checked_int_pow(2, 62), Some(1i64 << 62));
    assert_eq!(checked_int_pow(2, 63), None);
    assert_eq!(checked_int_pow(0, 0), Some(1));
    assert_eq!(checked_int_pow(1, i64::MAX), Some(1));
    assert_eq!(integer_root(27, 3), Some(3));
    assert_eq!(integer_root(28, 3), None);
    assert_eq!(integer_root(0, 5), Some(0));
    assert_eq!(integer_root(i64::MAX, 2), None);
    assert_eq!(integer_root(9_223_372_030_926_249_001, 2), Some(3_037_000_499));
}

#[test]
fn exact_powers_of_fractions() {
    let half = Rational::new(1, 2);
    assert_eq!(Rational::new(4, 9).checked_pow(half), Ok(Power::Exact(Rational::new(2, 3))));
    assert_eq!(Rational::from_integer(2).checked_pow(half), Ok(Power::Inexact));
    assert_eq!(Rational::from_integer(13).checked_pow(half), Ok(Power::Inexact));
    assert_eq!(
        Rational::from_integer(2).checked_pow(Rational::from_integer(-2)),
        Ok(Power::Exact(Rational::new(1, 4)))
    );
    assert_eq!(
        Rational::from_integer(-2).checked_pow(Rational::from_integer(3)),
        Ok(Power::Exact(Rational::from_integer(-8)))
    );
    assert_eq!(
        Rational::new(-2, 3).checked_pow(Rational::from_integer(-3)),
        Ok(Power::Exact(Rational::new(-27, 8)))
    );
    assert_eq!(
        Rational::new(8, 27).checked_pow(Rational::new(2, 3)),
        Ok(Power::Exact(Rational::new(4, 9)))
    );
    assert_eq!(Rational::from_integer(-8).checked_pow(Rational::new(1, 3)), Ok(Power::Inexact));
    assert_eq!(Rational::zero().checked_pow(Rational::zero()), Ok(Power::Exact(Rational::one())));
    assert_eq!(Rational::zero().checked_pow(half), Ok(Power::Exact(Rational::zero())));
    assert_eq!(
        Rational::zero().checked_pow(Rational::from_integer(-1)),
        Err(AlgebraError::DivisionByZero)
    );
    assert_eq!(
        Rational::from_integer(2).checked_pow(Rational::from_integer(64)),
        Err(AlgebraError::Overflow)
    );
}
