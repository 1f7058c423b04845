use polycalc::error::AlgebraError;
use polycalc::polynomial::Polynomial;
use polycalc::rational::Rational;
use polycalc::term::{Term, Variable};

fn q(n: i64, d: i64) -> Rational {
    Rational::new(n, d)
}

fn whole(n: i64) -> Rational {
    Rational::from_integer(n)
}

fn var(name: &str, degree: i64) -> Variable {
    Variable::new(name, whole(degree))
}

fn term(c: i64, vars: Vec<Variable>) -> Term {
    Term { coefficient: whole(c), variables: vars }
}

fn poly(terms: Vec<Term>) -> Polynomial {
    Polynomial { terms, degree: whole(1) }
}

fn simplified(mut p: Polynomial) -> Polynomial {
    p.simplify().unwrap();
    p
}

#[test]
fn simplify_merges_and_sorts() {
    let p = poly(vec![
        term(1, vec![var("x", 1)]),
        term(2, vec![var("y", 1)]),
        term(1, vec![var("x", 1)]),
        term(5, vec![var("z", 3)]),
        term(7, vec![]),
    ]);
    assert_eq!(simplified(p).as_string(), "5z^(3)+2x+2y+7");
}

#[test]
fn simplify_merges_variables_inside_a_term() {
    let p = poly(vec![term(3, vec![var("y", 1), var("x", 1), var("y", 2), var("x", -1)])]);
    assert_eq!(simplified(p).as_string(), "3y^(3)");
}

#[test]
fn simplify_of_nothing_is_the_zero_term() {
    let p = simplified(poly(vec![]));
    assert_eq!(p.terms.len(), 1);
    assert_eq!(p.terms[0].coefficient, whole(0));
    assert!(p.terms[0].variables.is_empty());
    assert_eq!(p.as_string(), "0");
}

#[test]
fn simplify_of_cancelling_terms_is_the_zero_term() {
    let p = simplified(poly(vec![term(4, vec![var("x", 1)]), term(-4, vec![var("x", 1)])]));
    assert_eq!(p.terms.len(), 1);
    assert!(p.terms[0].variables.is_empty());
    assert_eq!(p.as_string(), "0");
}

#[test]
fn simplify_applies_the_outer_exponent_to_one_term() {
    let mut p = Polynomial { terms: vec![term(2, vec![var("x", 1)])], degree: whole(2) };
    p.simplify().unwrap();
    assert_eq!(p.degree, whole(1));
    assert_eq!(p.as_string(), "4x^(2)");
}

#[test]
fn simplify_keeps_an_inexact_root_pending() {
    let mut p = Polynomial { terms: vec![term(13, vec![])], degree: q(1, 2) };
    p.simplify().unwrap();
    assert_eq!(p.degree, q(1, 2));
    assert_eq!(p.as_string(), "(13)^(1/2)");
    let mut s = Polynomial { terms: vec![term(16, vec![var("x", 4)])], degree: q(1, 2) };
    s.simplify().unwrap();
    assert_eq!(s.as_string(), "4x^(2)");
}

#[test]
fn simplify_raises_several_terms_to_a_whole_power() {
    let square = Polynomial {
        terms: vec![term(1, vec![var("x", 1)]), term(1, vec![var("y", 1)])],
        degree: whole(2),
    };
    assert_eq!(simplified(square).as_string(), "x^(2)+y^(2)+2xy");
    let cube = Polynomial {
        terms: vec![term(1, vec![var("x", 1)]), term(1, vec![var("y", 1)])],
        degree: whole(3),
    };
    let c = simplified(cube);
    assert_eq!(c.degree, whole(1));
    assert_eq!(c.as_string(), "x^(3)+y^(3)+3xy^(2)+3x^(2)y");
}

#[test]
fn simplify_leaves_other_exponents_of_several_terms_pending() {
    let p = Polynomial {
        terms: vec![term(1, vec![var("y", 1)]), term(1, vec![var("x", 1)])],
        degree: q(1, 2),
    };
    let s = simplified(p);
    assert_eq!(s.degree, q(1, 2));
    assert_eq!(s.as_string(), "(x+y)^(1/2)");
}

#[test]
fn simplify_twice_changes_nothing() {
    let p = poly(vec![
        term(3, vec![var("y", 2), var("x", 1)]),
        term(-1, vec![var("x", 1), var("y", 2)]),
        term(4, vec![var("a", 1)]),
        term(9, vec![]),
    ]);
    let once = simplified(p);
    let twice = simplified(once.clone());
    assert_eq!(once.as_string(), "2xy^(2)+4a+9");
    assert_eq!(once.as_string(), twice.as_string());
    assert_eq!(once.equals(&twice), Ok(true));
}

#[test]
fn simplify_reports_overflow_and_changes_nothing() {
    let mut p = poly(vec![term(i64::MAX, vec![var("x", 1)]), term(1, vec![var("x", 1)])]);
    assert_eq!(p.simplify(), Err(AlgebraError::Overflow));
    assert_eq!(p.terms.len(), 2);
    assert_eq!(p.terms[0].coefficient, whole(i64::MAX));
}

#[test]
fn sum_with_disjoint_variables_keeps_every_term() {
    let cubed = Polynomial {
        terms: vec![
            term(1, vec![var("x", 1)]),
            term(2, vec![var("y", 1)]),
            term(3, vec![var("z", 1)]),
        ],
        degree: whole(3),
    };
    let other = poly(vec![
        term(1, vec![var("a", 1)]),
        term(2, vec![var("b", 1)]),
        term(3, vec![var("c", 4)]),
    ]);
    let sum = cubed.add(&other).unwrap();
    assert_eq!(sum.terms.len(), 6);
    assert_eq!(sum.degree, whole(1));
    assert_eq!(sum.as_string(), "3c^(4)+a+2b+x+2y+3z");
    assert_eq!(sum.terms[0].coefficient, whole(3));
    assert_eq!(sum.terms[0].variables[0].name, "c");
    assert_eq!(sum.terms[0].variables[0].degree, whole(4));
    let names: Vec<String> = sum.terms.iter().map(|t| t.variables[0].name.clone()).collect();
    assert_eq!(names, vec!["c", "a", "b", "x", "y", "z"]);
    for pair in sum.terms.windows(2) {
        let (u, v) = (&pair[0], &pair[1]);
        assert!(v.max_degree().lt(u.max_degree())
            || (u.max_degree() == v.max_degree() && u.variables[0].name < v.variables[0].name));
    }
}

#[test]
fn sum_is_the_same_in_either_order() {
    let a = poly(vec![term(1, vec![var("x", 2)]), term(2, vec![var("y", 1)]), term(3, vec![])]);
    let b = poly(vec![term(5, vec![var("y", 1)]), term(-1, vec![var("x", 2)]), term(1, vec![var("z", 1)])]);
    let ab = a.add(&b).unwrap();
    let ba = b.add(&a).unwrap();
    assert_eq!(ab.as_string(), "7y+z+3");
    assert_eq!(ab.as_string(), ba.as_string());
}

#[test]
fn sum_is_associative_on_an_example() {
    let a = poly(vec![term(1, vec![var("x", 1)])]);
    let b = poly(vec![term(2, vec![var("x", 1)]), term(1, vec![])]);
    let c = poly(vec![term(-3, vec![var("x", 1)]), term(4, vec![var("y", 1)])]);
    let left = a.add(&b).unwrap().add(&c).unwrap();
    let right = a.add(&b.add(&c).unwrap()).unwrap();
    assert_eq!(left.as_string(), "4y+1");
    assert_eq!(left.as_string(), right.as_string());
}

#[test]
fn difference_negates_the_second() {
    let a = poly(vec![term(1, vec![var("x", 1)]), term(1, vec![])]);
    let b = poly(vec![term(1, vec![var("x", 1)]), term(-2, vec![var("y", 1)])]);
    assert_eq!(a.sub(&b).unwrap().as_string(), "2y+1");
    assert_eq!(a.sub(&a).unwrap().as_string(), "0");
}

#[test]
fn product_is_the_full_cross_product() {
    let a = poly(vec![term(1, vec![var("x", 1)]), term(1, vec![])]);
    let b = poly(vec![term(1, vec![var("x", 1)]), term(-1, vec![])]);
    assert_eq!(a.mul(&b).unwrap().as_string(), "x^(2)-1");
    assert_eq!(b.mul(&a).unwrap().as_string(), "x^(2)-1");
    let c = poly(vec![term(2, vec![var("y", 1)])]);
    let left = a.mul(&b).unwrap().mul(&c).unwrap();
    let right = a.mul(&b.mul(&c).unwrap()).unwrap();
    assert_eq!(left.as_string(), "2x^(2)y-2y");
    assert_eq!(left.as_string(), right.as_string());
}

#[test]
fn product_ignores_outer_exponents() {
    let a = Polynomial { terms: vec![term(1, vec![var("x", 1)]), term(1, vec![])], degree: whole(5) };
    let b = poly(vec![term(2, vec![])]);
    assert_eq!(a.mul(&b).unwrap().as_string(), "2x+2");
}

#[test]
fn degree_and_leading_term() {
    let p = simplified(poly(vec![
        term(1, vec![var("y", 2)]),
        term(3, vec![var("x", 2)]),
        term(2, vec![var("x", 1)]),
    ]));
    assert_eq!(p.as_string(), "3x^(2)+y^(2)+2x");
    assert_eq!(p.degree(), whole(2));
    let lead = p.leading_term();
    assert_eq!(lead.coefficient, whole(1));
    assert_eq!(lead.variables[0].name, "y");
    assert_eq!(poly(vec![]).degree(), whole(0));
    let below = poly(vec![term(4, vec![var("x", -1)]), term(5, vec![var("y", -2)])]).leading_term();
    assert_eq!(below.coefficient, whole(4));
    assert_eq!(below.variables[0].degree, whole(-1));
    let none = poly(vec![]).leading_term();
    assert_eq!(none.coefficient, whole(0));
    assert!(none.variables.is_empty());
}

#[test]
fn sort_terms_orders_by_degree_then_variables() {
    let mut p = poly(vec![
        term(7, vec![]),
        term(2, vec![var("y", 1)]),
        term(1, vec![var("x", 1)]),
        term(3, vec![var("z", 3)]),
        term(4, vec![var("x", 1)]),
    ]);
    p.sort_terms();
    assert_eq!(p.as_string(), "3z^(3)+x+4x+2y+7");
}

#[test]
fn add_like_terms_adds_into_the_first() {
    let mut p = poly(vec![
        term(7, vec![]),
        term(2, vec![var("y", 1)]),
        term(1, vec![]),
        term(-2, vec![var("y", 1)]),
    ]);
    assert_eq!(p.add_like_terms(), Ok(()));
    assert_eq!(p.terms.len(), 2);
    assert_eq!(p.terms[0].coefficient, whole(8));
    assert_eq!(p.terms[1].coefficient, whole(0));
    assert_eq!(p.as_string(), "8");
}

#[test]
fn text_of_polynomials() {
    let p = poly(vec![
        term(1, vec![var("x", 1)]),
        term(-1, vec![var("y", 2)]),
        Term { coefficient: q(3, 4), variables: vec![Variable::new("z", q(1, 2))] },
        term(1, vec![]),
        term(0, vec![var("w", 1)]),
    ]);
    assert_eq!(p.as_string(), "x-1y^(2)+3/4z^(1/2)+1");
    assert_eq!(poly(vec![term(0, vec![var("w", 1)])]).as_string(), "0w");
    assert_eq!(poly(vec![]).as_string(), "");
    let wrapped = Polynomial { terms: vec![term(2, vec![var("x", 1)]), term(1, vec![])], degree: q(-1, 2) };
    assert_eq!(wrapped.as_string(), "(2x+1)^(-1/2)");
}

#[test]
fn evaluate_substitutes_bound_variables() {
    let mut p = poly(vec![term(3, vec![var("x", 2)]), term(1, vec![var("y", 1)]), term(1, vec![var("x", 1), var("y", 1)])]);
    let values = vec![("x".to_string(), whole(2)), ("x".to_string(), whole(100))];
    assert_eq!(p.evaluate(&values), Ok(()));
    assert_eq!(p.as_string(), "3y+12");
    let mut r = poly(vec![term(8, vec![var("x", -2)])]);
    assert_eq!(r.evaluate(&vec![("x".to_string(), q(2, 3))]), Ok(()));
    assert_eq!(r.as_string(), "18");
}

#[test]
fn evaluate_takes_exact_roots_only() {
    let mut p = poly(vec![Term { coefficient: whole(1), variables: vec![Variable::new("x", q(1, 2))] }]);
    assert_eq!(p.evaluate(&vec![("x".to_string(), whole(9))]), Ok(()));
    assert_eq!(p.as_string(), "3");
    let mut s = poly(vec![Term { coefficient: whole(1), variables: vec![Variable::new("x", q(1, 2))] }]);
    assert_eq!(s.evaluate(&vec![("x".to_string(), whole(2))]), Err(AlgebraError::UnsupportedOperation));
    assert_eq!(s.as_string(), "x^(1/2)");
    let mut z = poly(vec![term(1, vec![var("x", -1)])]);
    assert_eq!(z.evaluate(&vec![("x".to_string(), whole(0))]), Err(AlgebraError::DivisionByZero));
}

#[test]
fn make_integer_scales_by_the_common_denominator() {
    let mut p = poly(vec![
        Term { coefficient: q(1, 2), variables: vec![var("x", 1)] },
        Term { coefficient: q(-5, 6), variables: vec![var("y", 1)] },
        Term { coefficient: q(1, 4), variables: vec![] },
    ]);
    assert_eq!(p.make_integer(), Ok(12));
    assert_eq!(p.as_string(), "6x-10y+3");
    let mut whole = poly(vec![term(3, vec![var("x", 1)])]);
    assert_eq!(whole.make_integer(), Ok(1));
    assert_eq!(whole.as_string(), "3x");
}

#[test]
fn factor_takes_out_the_shared_content() {
    let p = poly(vec![term(2, vec![var("x", 2)]), term(4, vec![var("x", 1)])]);
    let (t, rest) = p.factor().unwrap();
    assert_eq!(poly(vec![t.clone()]).as_string(), "2x");
    assert_eq!(rest.as_string(), "x+2");
    let back = poly(vec![t]).mul(&rest).unwrap();
    assert_eq!(back.as_string(), simplified(p).as_string());
}

#[test]
fn factor_with_fractions_and_several_variables() {
    let p = poly(vec![
        Term { coefficient: q(3, 2), variables: vec![var("x", 3), var("y", 1)] },
        Term { coefficient: q(9, 4), variables: vec![var("x", 2)] },
    ]);
    let (t, rest) = p.factor().unwrap();
    assert_eq!(poly(vec![t.clone()]).as_string(), "3x^(2)");
    assert_eq!(rest.as_string(), "1/2xy+3/4");
    let back = poly(vec![t]).mul(&rest).unwrap();
    assert_eq!(back.as_string(), "3/2x^(3)y+9/4x^(2)");
    assert_eq!(back.as_string(), simplified(p).as_string());
}

#[test]
fn factor_without_a_shared_variable_takes_out_nothing() {
    let p = poly(vec![term(4, vec![var("y", 1)]), term(2, vec![var("x", 1)])]);
    let (t, rest) = p.factor().unwrap();
    assert_eq!(t.coefficient, whole(1));
    assert!(t.variables.is_empty());
    assert_eq!(rest.as_string(), "2x+4y");
    assert_eq!(poly(vec![t]).mul(&rest).unwrap().as_string(), "2x+4y");
    let (one, zero) = poly(vec![]).factor().unwrap();
    assert_eq!(one.coefficient, whole(1));
    assert_eq!(zero.as_string(), "0");
}

#[test]
fn factor_with_number_takes_out_the_common_divisor() {
    let p = poly(vec![term(2, vec![var("x", 1)]), term(4, vec![var("y", 1)])]);
    let (t, rest) = p.factor_with_number().unwrap();
    assert_eq!(t.coefficient, whole(2));
    assert!(t.variables.is_empty());
    assert_eq!(rest.as_string(), "x+2y");
    let (nothing, zero) = poly(vec![]).factor_with_number().unwrap();
    assert_eq!(nothing.coefficient, whole(0));
    assert_eq!(zero.as_string(), "0");
    let q = poly(vec![term(6, vec![var("x", 2)]), term(4, vec![var("x", 1)])]);
    let (shared, left) = q.factor_with_number().unwrap();
    assert_eq!(poly(vec![shared]).as_string(), "2x");
    assert_eq!(left.as_string(), "3x+2");
    let (same, again) = q.factor().unwrap();
    assert_eq!(poly(vec![same]).as_string(), "2x");
    assert_eq!(again.as_string(), "3x+2");
}

#[test]
fn first_var_names_the_first_variable() {
    let p = poly(vec![term(3, vec![var("x", 1), var("y", 1)]), term(2, vec![var("z", 1)])]);
    assert_eq!(p.first_var(), Ok(Some("x".to_string())));
    assert_eq!(poly(vec![term(3, vec![])]).first_var(), Ok(None));
    assert_eq!(poly(vec![]).first_var(), Err(AlgebraError::InvalidState));
}

#[test]
fn equality_compares_canonical_forms() {
    let a = poly(vec![term(1, vec![var("x", 1)]), term(2, vec![var("y", 1)])]);
    let b = poly(vec![term(2, vec![var("y", 1)]), term(3, vec![var("x", 1)]), term(-2, vec![var("x", 1)])]);
    let c = poly(vec![term(2, vec![var("y", 1)])]);
    assert_eq!(a.equals(&b), Ok(true));
    assert_eq!(a.equals(&c), Ok(false));
}

#[test]
fn well_formedness_can_be_tested() {
    let good = poly(vec![term(2, vec![var("x", 1)])]);
    assert!(good.is_wf());
    let unreduced = Polynomial {
        terms: vec![Term { coefficient: Rational { numer: 2, denom: 4 }, variables: vec![] }],
        degree: whole(1),
    };
    assert!(!unreduced.is_wf());
    let negative = Polynomial {
        terms: vec![],
        degree: Rational { numer: 1, denom: -1 },
    };
    assert!(!negative.is_wf());
    assert!(!Rational { numer: 1, denom: 0 }.is_wf());
    assert!(!Rational { numer: i64::MIN, denom: 1 }.is_wf());
    assert!(Rational { numer: -7, denom: 3 }.is_wf());
}

#[test]
fn equality_operators() {
    let a = poly(vec![term(1, vec![var("x", 1)]), term(2, vec![var("y", 1)])]);
    let b = poly(vec![term(2, vec![var("y", 1)]), term(1, vec![var("x", 1)])]);
    assert!(a == b);
    assert!(a != poly(vec![term(1, vec![var("x", 1)])]));
    assert!(term(2, vec![var("x", 1), var("y", 2)]) == term(2, vec![var("y", 2), var("x", 1)]));
    assert!(term(2, vec![var("x", 1)]) != term(3, vec![var("x", 1)]));
    assert!(var("x", 1) == var("x", 1));
    assert!(var("x", 1) != var("x", 2));
}

#[test]
fn sum_of_three_is_the_same_in_both_groupings() {
    let a = simplified(poly(vec![term(1, vec![var("x", 2)]), term(5, vec![])]));
    let b = simplified(poly(vec![term(-1, vec![var("x", 2)]), term(1, vec![var("y", 1)])]));
    let c = simplified(poly(vec![term(3, vec![var("x", 2)]), term(-1, vec![var("y", 1)])]));
    let left = a.add(&b).unwrap().add(&c).unwrap();
    let right = a.add(&b.add(&c).unwrap()).unwrap();
    assert_eq!(left.as_string(), "3x^(2)+5");
    assert_eq!(left.as_string(), right.as_string());
    assert!(left == right);
}

#[test]
fn product_distributes_over_a_sum() {
    let a = simplified(poly(vec![term(1, vec![var("x", 1)]), term(2, vec![])]));
    let b = simplified(poly(vec![term(-1, vec![var("x", 1)]), term(1, vec![var("y", 1)])]));
    let c = simplified(poly(vec![term(3, vec![var("x", 1)]), term(1, vec![])]));
    let left = a.add(&b).unwrap().mul(&c).unwrap();
    let right = a.mul(&c).unwrap().add(&b.mul(&c).unwrap()).unwrap();
    assert_eq!(left.as_string(), "6x+3xy+y+2");
    assert_eq!(left.as_string(), right.as_string());
}

#[test]
fn product_of_three_polynomials_in_both_groupings() {
    let a = simplified(poly(vec![term(1, vec![var("x", 1)]), term(1, vec![])]));
    let b = simplified(poly(vec![term(1, vec![var("x", 1)]), term(-1, vec![])]));
    let c = simplified(poly(vec![term(1, vec![var("x", 1)]), term(1, vec![var("y", 1)])]));
    let left = a.mul(&b).unwrap().mul(&c).unwrap();
    let right = a.mul(&b.mul(&c).unwrap()).unwrap();
    assert_eq!(left.as_string(), "x^(3)+x^(2)y-1x-1y");
    assert_eq!(right.as_string(), "x^(3)+x^(2)y-1x-1y");
    assert_eq!(left.equals(&right), Ok(true));
}

#[test]
fn simplify_applies_a_pending_root_once_the_terms_have_merged() {
    let p = Polynomial {
        terms: vec![term(2, vec![var("x", 1)]), term(2, vec![var("x", 1)])],
        degree: q(1, 2),
    };
    let once = simplified(p);
    assert_eq!(once.as_string(), "(4x)^(1/2)");
    let twice = simplified(once);
    assert_eq!(twice.as_string(), "2x^(1/2)");
}
