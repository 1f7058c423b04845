use polycalc::error::AlgebraError;
use polycalc::polynomial::Polynomial;
use polycalc::rational::Rational;
use polycalc::term::{Term, Variable};

fn q(n: i64, d: i64) -> Rational {
    Rational::new(n, d)
}

fn whole(n: i64) -> Rational {
    Rational::from_integer(n)
}

fn var(name: &str, degree: i64) -> Variable {
    Variable::new(name, whole(degree))
}

fn term(c: i64, vars: Vec<Variable>) -> Term {
    Term { coefficient: whole(c), variables: vars }
}

fn poly(terms: Vec<Term>) -> Polynomial {
    Polynomial { terms, degree: whole(1) }
}

fn names(t: &Term) -> Vec<String> {
    t.variables.iter().map(|v| format!("{}^{}", v.name, v.degree.text())).collect()
}

#[test]
fn max_degree_is_the_greatest_degree() {
    let t = term(5, vec![var("x", 2), var("y", 3), var("z", 1)]);
    assert_eq!(t.max_degree(), whole(3));
    assert_eq!(term(5, vec![]).max_degree(), whole(0));
    assert_eq!(term(5, vec![var("x", -2), var("y", -3)]).max_degree(), whole(-2));
}

#[test]
fn sort_vars_is_stable() {
    let mut t = term(1, vec![var("y", 1), var("x", 2), var("a", 7), var("x", 1)]);
    t.sort_vars();
    assert_eq!(names(&t), vec!["a^7", "x^2", "x^1", "y^1"]);
    assert_eq!(t.coefficient, whole(1));
}

#[test]
fn factor_merges_equal_names() {
    let mut t = term(3, vec![var("x", 2), var("y", 1), var("x", -2), var("y", 4)]);
    assert_eq!(t.factor(), Ok(()));
    assert_eq!(names(&t), vec!["y^5"]);
    let mut u = term(3, vec![var("b", 1), var("a", 1), var("b", 1)]);
    assert_eq!(u.factor(), Ok(()));
    assert_eq!(names(&u), vec!["b^2", "a^1"]);
}

#[test]
fn factor_reports_overflow_and_changes_nothing() {
    let mut t = term(3, vec![var("x", i64::MAX), var("x", 1)]);
    assert_eq!(t.factor(), Err(AlgebraError::Overflow));
    assert_eq!(names(&t), vec![format!("x^{}", i64::MAX), "x^1".to_string()]);
}

#[test]
fn invert_gives_the_reciprocal() {
    let mut t = Term { coefficient: q(2, 3), variables: vec![var("x", 2), var("y", -1)] };
    assert_eq!(t.invert(), Ok(()));
    assert_eq!(t.coefficient, q(3, 2));
    assert_eq!(names(&t), vec!["x^-2", "y^1"]);
    let mut z = term(0, vec![var("x", 2)]);
    assert_eq!(z.invert(), Err(AlgebraError::DivisionByZero));
    assert_eq!(names(&z), vec!["x^2"]);
}

#[test]
fn pow_takes_exact_roots_only() {
    let t = term(4, vec![var("x", 2)]);
    let r = t.pow(q(1, 2)).unwrap();
    assert_eq!(r.coefficient, whole(2));
    assert_eq!(names(&r), vec!["x^1"]);
    let u = term(13, vec![var("x", 2)]);
    let same = u.pow(q(1, 2)).unwrap();
    assert_eq!(same.coefficient, whole(13));
    assert_eq!(names(&same), vec!["x^2"]);
    assert!(u.try_pow(q(1, 2)).unwrap().is_none());
    let cube = term(-2, vec![var("x", 1), var("y", 2)]).pow(whole(3)).unwrap();
    assert_eq!(cube.coefficient, whole(-8));
    assert_eq!(names(&cube), vec!["x^3", "y^6"]);
}

#[test]
fn product_of_terms() {
    let a = term(2, vec![var("x", 1)]);
    let b = term(3, vec![var("y", 1), var("x", 1)]);
    let p = a.mul(&b).unwrap();
    assert_eq!(p.coefficient, whole(6));
    assert_eq!(names(&p), vec!["x^2", "y^1"]);
    let z = a.mul(&term(0, vec![var("y", 1)])).unwrap();
    assert_eq!(z.coefficient, whole(0));
    assert!(z.variables.is_empty());
}

#[test]
fn quotient_of_terms() {
    let a = term(6, vec![var("x", 2)]);
    let b = term(3, vec![var("x", 1)]);
    let p: Polynomial = a.div(&b).unwrap();
    assert_eq!(p.as_string(), "2x");
    let c = term(1, vec![var("y", 1)]);
    assert_eq!(a.div(&c).unwrap().as_string(), "6x^(2)y^(-1)");
    assert!(matches!(a.div(&term(0, vec![])), Err(AlgebraError::DivisionByZero)));
}

#[test]
fn equality_of_terms_ignores_the_order_of_variables() {
    let a = term(2, vec![var("x", 1), var("y", 2)]);
    let b = term(2, vec![var("y", 2), var("x", 1)]);
    let c = term(2, vec![var("y", 1), var("x", 1)]);
    assert!(a.equals(&b));
    assert!(!a.equals(&c));
    assert!(!a.equals(&term(3, vec![var("x", 1), var("y", 2)])));
}

#[test]
fn product_of_three_terms_in_both_groupings() {
    let x = Term { coefficient: q(2, 3), variables: vec![var("a", 1), var("b", -2)] };
    let y = Term { coefficient: q(3, 4), variables: vec![var("b", 2), var("c", 1)] };
    let z = Term { coefficient: q(-8, 1), variables: vec![var("a", -1), var("c", 2)] };
    let left = x.product(&y).unwrap().product(&z).unwrap();
    let right = x.product(&y.product(&z).unwrap()).unwrap();
    assert_eq!(left.coefficient, whole(-4));
    assert_eq!(names(&left), vec!["c^3"]);
    assert!(left == right);
    assert!(x.product(&y).unwrap() == y.product(&x).unwrap());
}
