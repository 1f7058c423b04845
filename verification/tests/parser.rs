use polycalc::error::AlgebraError;
use polycalc::parser::{DegreeLiteral, Factor, Operator, PolyParser};
use polycalc::polynomial::Polynomial;
use polycalc::rational::Rational;
use polycalc::term::{Term, Variable};

fn q(n: i64, d: i64) -> Rational {
    Rational::new(n, d)
}

fn whole(n: i64) -> Rational {
    Rational::from_integer(n)
}

fn var(name: &str, degree: i64) -> Variable {
    Variable::new(name, whole(degree))
}

fn term(c: i64, vars: Vec<Variable>) -> Term {
    Term { coefficient: whole(c), variables: vars }
}

fn poly(terms: Vec<Term>) -> Polynomial {
    Polynomial { terms, degree: whole(1) }
}

#[test]
fn parse_term_multiplies_the_written_factors() {
    let factors = vec![
        Factor::Sign(true),
        Factor::Number(whole(3)),
        Factor::Fraction(2, -4),
        Factor::Var(var("x", 2)),
        Factor::Var(var("y", 1)),
    ];
    let t = PolyParser::parse_term(&factors).unwrap();
    assert_eq!(t.coefficient, q(3, 2));
    assert_eq!(t.variables.len(), 2);
    assert_eq!(t.variables[0].name, "x");
    assert_eq!(t.variables[1].degree, whole(1));
    let plain = PolyParser::parse_term(&vec![Factor::Sign(false)]).unwrap();
    assert_eq!(plain.coefficient, whole(1));
}

#[test]
fn parse_term_refuses_a_zero_denominator() {
    let factors = vec![Factor::Number(whole(3)), Factor::Fraction(1, 0)];
    assert!(matches!(PolyParser::parse_term(&factors), Err(AlgebraError::DivisionByZero)));
}

#[test]
fn parse_polynomial_keeps_the_terms_as_written() {
    let lines = vec![
        vec![Factor::Var(var("x", 1))],
        vec![Factor::Sign(true), Factor::Number(whole(2)), Factor::Var(var("x", 1))],
        vec![Factor::Number(whole(5))],
    ];
    let p = PolyParser::parse_polynomial(&lines).unwrap();
    assert_eq!(p.terms.len(), 3);
    assert_eq!(p.degree, whole(1));
    assert_eq!(p.as_string(), "x-2x+5");
}

#[test]
fn parse_operation_works_from_the_left() {
    let x_plus_1 = poly(vec![term(1, vec![var("x", 1)]), term(1, vec![])]);
    let x_minus_1 = poly(vec![term(1, vec![var("x", 1)]), term(-1, vec![])]);
    let two = poly(vec![term(2, vec![])]);
    let x = poly(vec![term(1, vec![var("x", 1)])]);
    let chain = vec![
        (Operator::Mul, x_minus_1),
        (Operator::Add, two.clone()),
        (Operator::Sub, two),
        (Operator::Div, x),
    ];
    let r = PolyParser::parse_operation(x_plus_1.clone(), &chain).unwrap();
    assert_eq!(r.as_string(), "(x^(2)-1)/(x)");
    let alone = PolyParser::parse_operation(x_plus_1, &vec![]).unwrap();
    assert_eq!(alone.as_string(), "x+1");
}

#[test]
fn degrees_are_read_from_their_literals() {
    assert_eq!(PolyParser::degree_from_literal(DegreeLiteral::Whole(-3)), Ok(whole(-3)));
    assert_eq!(PolyParser::degree_from_literal(DegreeLiteral::Fraction(6, -8)), Ok(q(-3, 4)));
    assert_eq!(PolyParser::degree_from_literal(DegreeLiteral::Decimal(15, 1)), Ok(q(3, 2)));
    assert_eq!(PolyParser::degree_from_literal(DegreeLiteral::Decimal(-125, 3)), Ok(q(-1, 8)));
    assert_eq!(
        PolyParser::degree_from_literal(DegreeLiteral::Fraction(1, 0)),
        Err(AlgebraError::DivisionByZero)
    );
    assert_eq!(
        PolyParser::degree_from_literal(DegreeLiteral::Decimal(1, 19)),
        Err(AlgebraError::Overflow)
    );
    assert_eq!(
        PolyParser::degree_from_literal(DegreeLiteral::Whole(i64::MIN)),
        Err(AlgebraError::Overflow)
    );
}

#[test]
fn variables_default_to_the_degree_one() {
    let x = PolyParser::variable_from_parts("x", None).unwrap();
    assert_eq!(x.name, "x");
    assert_eq!(x.degree, whole(1));
    let y = PolyParser::variable_from_parts("y", Some(DegreeLiteral::Fraction(3, 4))).unwrap();
    assert_eq!(y.degree, q(3, 4));
}
