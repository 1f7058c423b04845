use polycalc::error::AlgebraError;
use polycalc::polynomial::Polynomial;
use polycalc::ratio::PolyRatio;
use polycalc::rational::Rational;
use polycalc::term::{Term, Variable};

fn q(n: i64, d: i64) -> Rational {
    Rational::new(n, d)
}

fn whole(n: i64) -> Rational {
    Rational::from_integer(n)
}

fn var(name: &str, degree: i64) -> Variable {
    Variable::new(name, whole(degree))
}

fn term(c: i64, vars: Vec<Variable>) -> Term {
    Term { coefficient: whole(c), variables: vars }
}

fn poly(terms: Vec<Term>) -> Polynomial {
    Polynomial { terms, degree: whole(1) }
}

fn ratio(n: Vec<Term>, d: Vec<Term>) -> PolyRatio {
    PolyRatio { numerator: poly(n), denominator: poly(d) }
}

fn simplified(mut r: PolyRatio) -> PolyRatio {
    r.simplify().unwrap();
    r
}

#[test]
fn simplify_without_shared_content_is_a_fixed_point() {
    let r = ratio(
        vec![term(1, vec![var("x", 1)]), term(2, vec![var("y", 1)])],
        vec![term(2, vec![var("x", 1)])],
    );
    let once = simplified(r);
    assert_eq!(once.as_string(), "(x+2y)/(2x)");
    let twice = simplified(once.clone());
    assert_eq!(twice.as_string(), once.as_string());
    assert!(twice.numerator.terms == once.numerator.terms);
    assert!(twice.denominator.terms == once.denominator.terms);
    // no variable stands in every term of both sides
    let in_every_term = |name: &str| {
        once.numerator.terms.iter().chain(once.denominator.terms.iter())
            .all(|t| t.variables.iter().any(|v| v.name == name))
    };
    assert!(!in_every_term("x"));
    assert!(!in_every_term("y"));
    // and the coefficients 1, 2, 2 share no divisor
    let coefficients: Vec<Rational> = once.numerator.terms.iter()
        .chain(once.denominator.terms.iter())
        .map(|t| t.coefficient)
        .collect();
    assert_eq!(coefficients, vec![whole(1), whole(2), whole(2)]);
}

#[test]
fn simplify_cancels_the_shared_content() {
    let r = ratio(vec![term(2, vec![var("x", 1)])], vec![term(4, vec![var("x", 2)])]);
    let s = simplified(r);
    assert_eq!(s.as_string(), "(1)/(2x)");
    assert_eq!(simplified(s.clone()).as_string(), "(1)/(2x)");
    let t = ratio(
        vec![term(6, vec![var("x", 3)]), term(9, vec![var("x", 2)])],
        vec![term(3, vec![var("x", 1)])],
    );
    assert_eq!(simplified(t).as_string(), "2x^(2)+3x");
}

#[test]
fn simplify_of_equal_sides_is_one() {
    let r = ratio(
        vec![term(1, vec![var("x", 1)]), term(1, vec![])],
        vec![term(1, vec![]), term(1, vec![var("x", 1)])],
    );
    let s = simplified(r);
    assert_eq!(s.as_string(), "1");
    assert_eq!(s.numerator.as_string(), "1");
    assert_eq!(s.denominator.as_string(), "1");
}

#[test]
fn simplify_moves_negative_degrees_across() {
    let r = ratio(vec![term(1, vec![var("x", -1)])], vec![term(1, vec![])]);
    assert_eq!(simplified(r).as_string(), "(1)/(x)");
    let s = ratio(vec![term(3, vec![])], vec![term(1, vec![var("y", -2)])]);
    assert_eq!(simplified(s).as_string(), "3y^(2)");
}

#[test]
fn simplify_keeps_fractional_coefficients() {
    let r = PolyRatio {
        numerator: poly(vec![Term { coefficient: q(1, 2), variables: vec![var("x", 1)] }]),
        denominator: poly(vec![Term { coefficient: q(1, 3), variables: vec![var("y", 1)] }]),
    };
    assert_eq!(simplified(r).as_string(), "(1/2x)/(1/3y)");
    let numbers = ratio(vec![term(4, vec![])], vec![term(6, vec![])]);
    assert_eq!(simplified(numbers).as_string(), "(2)/(3)");
}

#[test]
fn zero_denominator_renders_as_an_error() {
    let r = ratio(
        vec![term(1, vec![var("x", 1)])],
        vec![term(1, vec![var("y", 1)]), term(-1, vec![var("y", 1)])],
    );
    let s = simplified(r);
    assert_eq!(s.as_string(), "ERROR: Division by zero!");
    assert_eq!(s.numerator.as_string(), "x");
    assert_eq!(s.denominator.as_string(), "0");
    let both = simplified(ratio(vec![], vec![]));
    assert_eq!(both.as_string(), "ERROR: Division by zero!");
    assert_eq!(both.numerator.as_string(), "0");
    assert_eq!(both.denominator.as_string(), "0");
}

#[test]
fn simplify_reduces_over_a_zero_denominator_too() {
    let negative = simplified(ratio(vec![term(1, vec![var("x", -1)])], vec![]));
    assert_eq!(negative.numerator.as_string(), "1");
    assert_eq!(negative.denominator.as_string(), "0");
    assert_eq!(negative.as_string(), "ERROR: Division by zero!");
    let doubled = simplified(ratio(vec![term(2, vec![var("x", 1)])], vec![term(0, vec![])]));
    assert_eq!(doubled.numerator.as_string(), "x");
    assert_eq!(doubled.denominator.as_string(), "0");
}

#[test]
fn simplify_leaves_ratios_at_rest_as_they_are() {
    let zero_over = simplified(ratio(vec![], vec![term(1, vec![var("x", 1)]), term(1, vec![])]));
    assert_eq!(zero_over.as_string(), "(0)/(x+1)");
    assert_eq!(simplified(zero_over.clone()).as_string(), "(0)/(x+1)");
    let one = simplified(ratio(vec![term(1, vec![])], vec![term(1, vec![])]));
    assert_eq!(one.as_string(), "1");
    assert_eq!(simplified(one.clone()).numerator.as_string(), "1");
    assert_eq!(simplified(one).denominator.as_string(), "1");
    let shared = simplified(ratio(
        vec![term(1, vec![var("a", 1), var("b", 1)])],
        vec![term(1, vec![var("a", 1), var("b", 1), var("c", 1)])],
    ));
    assert_eq!(shared.as_string(), "(b)/(bc)");
    assert_eq!(simplified(shared).as_string(), "(1)/(c)");
}


#[test]
fn text_of_ratios() {
    let over_one = PolyRatio::from(poly(vec![term(2, vec![var("x", 1)])]));
    assert_eq!(over_one.as_string(), "2x");
    let plain = ratio(vec![term(1, vec![])], vec![term(1, vec![var("x", 1)]), term(1, vec![])]);
    assert_eq!(plain.as_string(), "(1)/(x+1)");
}

#[test]
fn sum_of_ratios() {
    let a = ratio(vec![term(1, vec![])], vec![term(1, vec![var("x", 1)])]);
    let b = ratio(vec![term(1, vec![])], vec![term(1, vec![var("y", 1)])]);
    assert_eq!(a.add(&b).unwrap().as_string(), "(x+y)/(xy)");
    assert_eq!(b.add(&a).unwrap().as_string(), "(x+y)/(xy)");
    assert_eq!(a.sub(&a).unwrap().as_string(), "(0)/(x^(2))");
}

#[test]
fn product_and_quotient_of_ratios() {
    let a = ratio(vec![term(2, vec![var("x", 1)])], vec![term(3, vec![var("y", 1)])]);
    let b = ratio(vec![term(3, vec![var("y", 2)])], vec![term(4, vec![var("x", 1)])]);
    let once = a.mul(&b).unwrap();
    assert_eq!(once.as_string(), "(y^(2))/(2y)");
    assert_eq!(simplified(once).as_string(), "(y)/(2)");
    assert_eq!(a.div(&a).unwrap().as_string(), "1");
    assert_eq!(a.div(&b).unwrap().as_string(), "(8x^(2))/(9y^(3))");
}

#[test]
fn evaluate_substitutes_on_both_sides() {
    let mut r = ratio(
        vec![term(1, vec![var("x", 1)]), term(1, vec![])],
        vec![term(2, vec![var("x", 2)])],
    );
    assert_eq!(r.evaluate(&vec![("x".to_string(), whole(3))]), Ok(()));
    assert_eq!(r.numerator.as_string(), "4");
    assert_eq!(r.denominator.as_string(), "18");
    let mut bad = ratio(vec![term(1, vec![])], vec![term(1, vec![var("x", -1)])]);
    assert_eq!(bad.evaluate(&vec![("x".to_string(), whole(0))]), Err(AlgebraError::DivisionByZero));
    assert_eq!(bad.denominator.as_string(), "x^(-1)");
}
