use polycalc::error::AlgebraError;
use polycalc::polynomial::Polynomial;
use polycalc::ratio::PolyRatio;
use polycalc::rational::Rational;
use polycalc::term::{Term, Variable};

fn q(n: i64, d: i64) -> Rational {
    Rational::new(n, d)
}

fn whole(n: i64) -> Rational {
    Rational::from_integer(n)
}

fn var(name: &str, degree: i64) -> Variable {
    Variable::new(name, whole(degree))
}

fn term(c: i64, vars: Vec<Variable>) -> Term {
    Term { coefficient: whole(c), variables: vars }
}

fn poly(terms: Vec<Term>) -> Polynomial {
    Polynomial { terms, degree: whole(1) }
}

#[test]
fn linear_root_divides_by_the_cofactor() {
    let p = poly(vec![term(3, vec![var("x", 1), var("y", 1)]), term(2, vec![var("z", 1)])]);
    let roots = p.roots("x").unwrap();
    assert_eq!(roots.len(), 1);
    let mut root = roots[0].clone();
    root.simplify().unwrap();
    let mut expected = PolyRatio {
        numerator: poly(vec![term(-2, vec![var("z", 1)])]),
        denominator: poly(vec![term(3, vec![var("y", 1)])]),
    };
    expected.simplify().unwrap();
    assert_eq!(root.as_string(), "(-2z)/(3y)");
    assert_eq!(root.as_string(), expected.as_string());
    assert_eq!(root.numerator.equals(&expected.numerator), Ok(true));
    assert_eq!(root.denominator.equals(&expected.denominator), Ok(true));
}

#[test]
fn linear_root_of_numbers() {
    let p = poly(vec![term(2, vec![var("x", 1)]), term(-3, vec![])]);
    let roots = p.roots("x").unwrap();
    assert_eq!(roots.len(), 1);
    assert_eq!(roots[0].as_string(), "(3)/(2)");
    let alone = poly(vec![term(2, vec![var("x", 1)])]).roots("x").unwrap();
    assert_eq!(alone[0].as_string(), "0");
}

#[test]
fn quadratic_roots_with_an_exact_square_root() {
    let p = poly(vec![term(1, vec![var("x", 2)]), term(-3, vec![var("x", 1)]), term(2, vec![])]);
    let roots = p.roots("x").unwrap();
    assert_eq!(roots.len(), 2);
    assert_eq!(roots[0].as_string(), "2");
    assert_eq!(roots[1].as_string(), "1");
    let sum = roots[0].add(&roots[1]).unwrap();
    let product = roots[0].mul(&roots[1]).unwrap();
    assert_eq!(sum.as_string(), "3");
    assert_eq!(product.as_string(), "2");
}

#[test]
fn quadratic_roots_add_up_to_minus_b_over_a() {
    let p = poly(vec![
        term(3, vec![var("x", 2)]),
        term(2, vec![var("x", 1)]),
        term(1, vec![var("y", 1)]),
    ]);
    let roots = p.roots("x").unwrap();
    assert_eq!(roots.len(), 2);
    let sum = roots[0].add(&roots[1]).unwrap();
    assert_eq!(sum.as_string(), "(-2)/(3)");
    assert_eq!(sum.numerator.as_string(), "-2");
    assert_eq!(sum.denominator.as_string(), "3");
}

#[test]
fn other_degrees_are_not_supported() {
    let cubic = poly(vec![term(1, vec![var("x", 3)]), term(1, vec![])]);
    assert!(matches!(cubic.roots("x"), Err(AlgebraError::UnsupportedOperation)));
    let constant = poly(vec![term(5, vec![])]);
    assert!(matches!(constant.roots("x"), Err(AlgebraError::UnsupportedOperation)));
    let two_terms = poly(vec![term(1, vec![var("x", 2)]), term(-4, vec![])]);
    assert!(matches!(two_terms.roots("x"), Err(AlgebraError::UnsupportedOperation)));
}

#[test]
fn roots_of_nothing_are_an_invalid_state() {
    assert!(matches!(poly(vec![]).roots("x"), Err(AlgebraError::InvalidState)));
}
