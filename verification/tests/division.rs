use polycalc::error::AlgebraError;
use polycalc::polynomial::Polynomial;
use polycalc::rational::Rational;
use polycalc::term::{Term, Variable};

fn q(n: i64, d: i64) -> Rational {
    Rational::new(n, d)
}

fn whole(n: i64) -> Rational {
    Rational::from_integer(n)
}

fn var(name: &str, degree: i64) -> Variable {
    Variable::new(name, whole(degree))
}

fn term(c: i64, vars: Vec<Variable>) -> Term {
    Term { coefficient: whole(c), variables: vars }
}

fn poly(terms: Vec<Term>) -> Polynomial {
    Polynomial { terms, degree: whole(1) }
}

#[test]
fn exact_division_gives_the_quotient_over_one() {
    let a = poly(vec![term(1, vec![var("x", 2)]), term(-1, vec![])]);
    let b = poly(vec![term(1, vec![var("x", 1)]), term(-1, vec![])]);
    let r = a.div(&b, 64).unwrap();
    assert_eq!(r.numerator.as_string(), "x+1");
    assert_eq!(r.denominator.as_string(), "1");
    assert_eq!(r.as_string(), "x+1");
    let back = r.numerator.mul(&b).unwrap();
    assert_eq!(back.equals(&a), Ok(true));
}

#[test]
fn division_by_a_single_term() {
    let a = poly(vec![term(8, vec![var("x", 1)]), term(2, vec![var("y", 1)])]);
    let b = poly(vec![term(2, vec![var("x", 1)])]);
    let r = a.div(&b, 64).unwrap();
    assert_eq!(r.as_string(), "x^(-1)y+4");
    assert_eq!(r.numerator.mul(&b).unwrap().equals(&a), Ok(true));
}

#[test]
fn zero_dividend_gives_zero_over_one() {
    let a = poly(vec![term(1, vec![var("x", 1)]), term(-1, vec![var("x", 1)])]);
    let b = poly(vec![term(1, vec![var("x", 1)])]);
    let r = a.div(&b, 64).unwrap();
    assert_eq!(r.numerator.as_string(), "0");
    assert_eq!(r.denominator.as_string(), "1");
    let zero = poly(vec![]);
    assert_eq!(a.div(&zero, 64).unwrap().as_string(), "0");
}

#[test]
fn zero_divisor_gives_the_ratio_over_zero() {
    let a = poly(vec![term(1, vec![var("x", 1)])]);
    let zero = poly(vec![]);
    let r = a.div(&zero, 64).unwrap();
    assert_eq!(r.as_string(), "ERROR: Division by zero!");
    assert_eq!(r.numerator.as_string(), "x");
}

#[test]
fn lower_degree_gives_the_ratio_as_it_is() {
    let a = poly(vec![term(2, vec![])]);
    let b = poly(vec![term(4, vec![var("x", 1)])]);
    assert_eq!(a.div(&b, 64).unwrap().as_string(), "(2)/(4x)");
}

#[test]
fn division_drops_what_is_left() {
    let a = poly(vec![term(1, vec![var("x", 2)]), term(1, vec![])]);
    let b = poly(vec![term(1, vec![var("x", 2)])]);
    assert_eq!(a.div(&b, 64).unwrap().as_string(), "1");
}

#[test]
fn division_without_end_is_given_up() {
    let a = poly(vec![term(1, vec![var("x", 1)])]);
    let b = poly(vec![term(1, vec![var("x", 1)]), term(1, vec![var("y", 1)])]);
    assert!(matches!(a.div(&b, 64), Err(AlgebraError::UnsupportedOperation)));
}

#[test]
fn division_of_negative_powers_leads_with_the_first_term() {
    let a = poly(vec![term(1, vec![var("x", -1)])]);
    let b = poly(vec![term(1, vec![var("x", -2)])]);
    let r = a.div(&b, 64).unwrap();
    assert_eq!(r.as_string(), "x");
    let lead = a.leading_term();
    assert_eq!(lead.coefficient, whole(1));
    assert_eq!(lead.variables.len(), 1);
    assert_eq!(lead.variables[0].degree, whole(-1));
}

#[test]
fn division_takes_no_more_steps_than_it_may() {
    let a = poly(vec![term(1, vec![var("x", 3)]), term(-1, vec![])]);
    let b = poly(vec![term(1, vec![var("x", 1)]), term(-1, vec![])]);
    assert!(matches!(a.div(&b, 2), Err(AlgebraError::UnsupportedOperation)));
    assert_eq!(a.div(&b, 3).unwrap().as_string(), "x^(2)+x+1");
}
