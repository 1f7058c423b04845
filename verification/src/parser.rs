//! Building polynomials and ratios from the pieces of a parsed line.
//!
//! The text itself is split elsewhere; what arrives here are the factors of
//! each term and the operators between polynomials, in the order in which
//! they were written.

use crate::error::AlgebraError;
use crate::fold::{lemma_try_fold_err, lemma_try_fold_step, lemma_try_map_err, lemma_try_map_step, try_fold, try_map, view_of};
use crate::power::checked_int_pow;
use crate::polynomial::{lemma_wf_push, terms_view, terms_wf, vars_wf_empty, PolyView, Polynomial};
use crate::ratio::{PolyRatio, RatioView};
use crate::rational::Rational;
use crate::term::{vars_view, Term, TermView, VarView, Variable};
use vstd::arithmetic::power::pow;
use vstd::prelude::*;

verus! {

/// A piece of a written term.
#[derive(Debug)]
pub enum Factor {
    /// A sign; `true` for minus.
    Sign(bool),
    /// A number that was written as one literal.
    Number(Rational),
    /// A fraction written as numerator and denominator.
    Fraction(i64, i64),
    /// A variable with its degree.
    Var(Variable),
}

/// What a `Factor` stands for.
pub enum FactorView {
    Sign(bool),
    Number(Rational),
    Fraction(i64, i64),
    Var(VarView),
}

/// A degree as it was written.
#[derive(Clone, Copy, Debug, PartialEq, Eq, Structural)]
pub enum DegreeLiteral {
    /// A whole number.
    Whole(i64),
    /// A numerator and a denominator.
    Fraction(i64, i64),
    /// A decimal number: its digits read as one whole number, and the
    /// count of digits behind the point.
    Decimal(i64, u32),
}

/// An operator between two polynomials.
#[derive(Clone, Copy, Debug, PartialEq, Eq, Structural)]
pub enum Operator {
    Add,
    Sub,
    Mul,
    Div,
}

/// The parser's side of the library: from parsed pieces to values.
#[derive(Clone, Copy, Debug)]
pub struct PolyParser;

impl View for Factor {
    type V = FactorView;

    open spec fn view(&self) -> FactorView {
        match self {
            Factor::Sign(minus) => FactorView::Sign(*minus),
            Factor::Number(q) => FactorView::Number(*q),
            Factor::Fraction(n, d) => FactorView::Fraction(*n, *d),
            Factor::Var(v) => FactorView::Var(v@),
        }
    }
}

impl FactorView {
    /// Every fraction in it is in lowest terms, and the parts of a written
    /// fraction can be negated.
    pub open spec fn wf(self) -> bool {
        match self {
            FactorView::Sign(_) => true,
            FactorView::Number(q) => q.wf(),
            FactorView::Fraction(n, d) => n > i64::MIN && d > i64::MIN,
            FactorView::Var(v) => v.degree.wf(),
        }
    }
}

/// The views of a sequence of factors, in order.
pub open spec fn factors_view(s: Seq<Factor>) -> Seq<FactorView> {
    Seq::new(s.len(), |i: int| s[i]@)
}

/// Every factor is well formed.
pub open spec fn factors_wf(s: Seq<FactorView>) -> bool {
    forall|i: int| 0 <= i < s.len() ==> (#[trigger] s[i]).wf()
}

/// The views of the factor lists of several terms.
pub open spec fn lines_view(s: Seq<Vec<Factor>>) -> Seq<Seq<FactorView>> {
    Seq::new(s.len(), |i: int| factors_view(s[i]@))
}

/// The term so far with one more factor: a minus sign negates the
/// coefficient, a number or fraction multiplies it, a variable is
/// appended. A fraction with the denominator zero is refused.
pub open spec fn with_factor(t: TermView, f: FactorView) -> Result<TermView, AlgebraError> {
    match f {
        FactorView::Sign(minus) => if minus {
            Ok(t.negated())
        } else {
            Ok(t)
        },
        FactorView::Number(q) => t.scaled(q),
        FactorView::Fraction(n, d) => if d == 0 {
            Err(AlgebraError::DivisionByZero)
        } else {
            t.scaled(Rational::spec_new(n, d))
        },
        FactorView::Var(v) => Ok(
            TermView { coefficient: t.coefficient, variables: t.variables.push(v) },
        ),
    }
}

/// `with_factor` as a step.
pub open spec fn taking_factor() -> spec_fn(TermView, FactorView) -> Result<TermView, AlgebraError> {
    |t: TermView, f: FactorView| with_factor(t, f)
}

/// The term that the factors spell: the product of its signs, numbers and
/// fractions, starting from one, times its variables in order.
pub open spec fn term_of(factors: Seq<FactorView>) -> Result<TermView, AlgebraError> {
    try_fold(factors, TermView::constant(Rational::spec_one()), taking_factor())
}

/// `term_of` as a step.
pub open spec fn spelling() -> spec_fn(Seq<FactorView>) -> Result<TermView, AlgebraError> {
    |factors: Seq<FactorView>| term_of(factors)
}

/// The polynomial that the terms spell, as written: not in canonical form,
/// under the outer exponent one.
pub open spec fn polynomial_of(lines: Seq<Seq<FactorView>>) -> Result<PolyView, AlgebraError> {
    match try_map(lines, spelling()) {
        Ok(t) => Ok(PolyView::plain(t)),
        Err(e) => Err(e),
    }
}

/// The degree that a literal stands for. The minimum of `i64` cannot be
/// negated and is refused, and so is a power of ten beyond `i64`; a
/// fraction with the denominator zero stands for nothing.
pub open spec fn degree_of(literal: DegreeLiteral) -> Result<Rational, AlgebraError> {
    match literal {
        DegreeLiteral::Whole(n) => if n == i64::MIN {
            Err(AlgebraError::Overflow)
        } else {
            Ok(Rational::spec_from_integer(n))
        },
        DegreeLiteral::Fraction(n, d) => if d == 0 {
            Err(AlgebraError::DivisionByZero)
        } else if n == i64::MIN || d == i64::MIN {
            Err(AlgebraError::Overflow)
        } else {
            Ok(Rational::spec_new(n, d))
        },
        DegreeLiteral::Decimal(digits, places) => if digits == i64::MIN || pow(
            10,
            places as nat,
        ) > i64::MAX {
            Err(AlgebraError::Overflow)
        } else {
            Ok(Rational::spec_new(digits, pow(10, places as nat) as i64))
        },
    }
}

/// The variable of this name with the written degree; the degree one
/// where none was written.
pub open spec fn variable_of(name: Seq<char>, degree: Option<DegreeLiteral>) -> Result<
    VarView,
    AlgebraError,
> {
    match degree {
        None => Ok(VarView { name, degree: Rational::spec_one() }),
        Some(literal) => match degree_of(literal) {
            Ok(d) => Ok(VarView { name, degree: d }),
            Err(e) => Err(e),
        },
    }
}

/// The views of a chain of operators and polynomials.
pub open spec fn chain_view(s: Seq<(Operator, Polynomial)>) -> Seq<(Operator, PolyView)> {
    Seq::new(s.len(), |i: int| (s[i].0, s[i].1@))
}

/// Every polynomial of the chain is well formed.
pub open spec fn chain_wf(s: Seq<(Operator, PolyView)>) -> bool {
    forall|i: int| 0 <= i < s.len() ==> (#[trigger] s[i]).1.wf()
}

/// The ratio so far combined with the next polynomial, taken over one.
pub open spec fn apply_operator(acc: RatioView, step: (Operator, PolyView)) -> Result<
    RatioView,
    AlgebraError,
> {
    match step.0 {
        Operator::Add => acc.sum(RatioView::from_poly(step.1)),
        Operator::Sub => acc.difference(RatioView::from_poly(step.1)),
        Operator::Mul => acc.product(RatioView::from_poly(step.1)),
        Operator::Div => acc.quotient(RatioView::from_poly(step.1)),
    }
}

/// `apply_operator` as a step.
pub open spec fn applying() -> spec_fn(RatioView, (Operator, PolyView)) -> Result<
    RatioView,
    AlgebraError,
> {
    |acc: RatioView, step: (Operator, PolyView)| apply_operator(acc, step)
}

/// The value of a chain of polynomials joined by operators, worked off
/// from the left, starting with the first over one.
pub open spec fn chain_value(first: PolyView, rest: Seq<(Operator, PolyView)>) -> Result<
    RatioView,
    AlgebraError,
> {
    try_fold(rest, RatioView::from_poly(first), applying())
}

impl PolyParser {
    /// The degree that a literal stands for.
    pub fn degree_from_literal(literal: DegreeLiteral) -> (r: Result<Rational, AlgebraError>)
        ensures
            r == degree_of(literal),
            r matches Ok(d) ==> d.wf(),
    {
        match literal {
            DegreeLiteral::Whole(n) => {
                if n == i64::MIN {
                    Err(AlgebraError::Overflow)
                } else {
                    Ok(Rational::from_integer(n))
                }
            },
            DegreeLiteral::Fraction(n, d) => {
                if d == 0 {
                    Err(AlgebraError::DivisionByZero)
                } else if n == i64::MIN || d == i64::MIN {
                    Err(AlgebraError::Overflow)
                } else {
                    Ok(Rational::new(n, d))
                }
            },
            DegreeLiteral::Decimal(digits, places) => {
                if digits == i64::MIN {
                    return Err(AlgebraError::Overflow);
                }
                proof {
                    vstd::arithmetic::power::lemma_pow_positive(10, places as nat);
                }
                match checked_int_pow(10, places as i64) {
                    Some(den) => Ok(Rational::new(digits, den)),
                    None => Err(AlgebraError::Overflow),
                }
            },
        }
    }

    /// The variable of this name with the written degree; the degree one
    /// where none was written.
    pub fn variable_from_parts(name: &str, degree: Option<DegreeLiteral>) -> (r: Result<
        Variable,
        AlgebraError,
    >)
        ensures
            view_of(r) == variable_of(name@, degree),
            r matches Ok(v) ==> v.wf(),
    {
        match degree {
            None => Ok(Variable::new(name, Rational::one())),
            Some(literal) => match PolyParser::degree_from_literal(literal) {
                Ok(d) => Ok(Variable::new(name, d)),
                Err(e) => Err(e),
            },
        }
    }

    /// The term that the factors spell.
    pub fn parse_term(factors: &Vec<Factor>) -> (r: Result<Term, AlgebraError>)
        requires
            factors_wf(factors_view(factors@)),
        ensures
            view_of(r) == term_of(factors_view(factors@)),
            r matches Ok(t) ==> t.wf(),
    {
        assert(vars_wf_empty());
        let mut t = Term::constant(Rational::one());
        let n: usize = factors.len();
        let mut i: usize = 0;
        let ghost all = factors_view(factors@);
        assert(all.take(0) =~= Seq::<FactorView>::empty());
        while i < n
            invariant
                i <= n,
                n == factors@.len(),
                all == factors_view(factors@),
                factors_wf(all),
                t.wf(),
                try_fold(
                    all.take(i as int),
                    TermView::constant(Rational::spec_one()),
                    taking_factor(),
                ) == Ok::<TermView, AlgebraError>(t@),
            decreases n - i,
        {
            let ghost before = t@;
            proof {
                lemma_try_fold_step(
                    all,
                    TermView::constant(Rational::spec_one()),
                    taking_factor(),
                    i as int,
                );
                assert(all[i as int] == factors@[i as int]@);
                assert(all[i as int].wf());
            }
            let step: Result<Term, AlgebraError> = match &factors[i] {
                Factor::Sign(minus) => {
                    if *minus {
                        Ok(t.negate())
                    } else {
                        Ok(t.clone())
                    }
                },
                Factor::Number(q) => t.scale(*q),
                Factor::Fraction(num, den) => {
                    if *den == 0 {
                        Err(AlgebraError::DivisionByZero)
                    } else {
                        t.scale(Rational::new(*num, *den))
                    }
                },
                Factor::Var(v) => {
                    let mut vars = crate::term::clone_vars(&t.variables);
                    let ghost old_vars = vars_view(vars@);
                    vars.push(v.clone());
                    proof {
                        assert(vars_view(vars@) =~= old_vars.push(v@));
                        assert forall|k: int| 0 <= k < vars_view(vars@).len() implies (
                        #[trigger] vars_view(vars@)[k]).degree.wf() by {
                            if k < old_vars.len() {
                                assert(vars_view(vars@)[k] == old_vars[k]);
                            }
                        }
                    }
                    Ok(Term { coefficient: t.coefficient, variables: vars })
                },
            };
            match step {
                Ok(next) => {
                    t = next;
                },
                Err(e) => {
                    proof {
                        lemma_try_fold_err(
                            all,
                            TermView::constant(Rational::spec_one()),
                            taking_factor(),
                            i + 1,
                        );
                    }
                    return Err(e);
                },
            }
            i += 1;
        }
        assert(all.take(n as int) =~= all);
        Ok(t)
    }

    /// The polynomial that the terms spell, as written.
    pub fn parse_polynomial(lines: &Vec<Vec<Factor>>) -> (r: Result<Polynomial, AlgebraError>)
        requires
            forall|i: int| 0 <= i < lines@.len() ==> factors_wf(#[trigger] lines_view(lines@)[i]),
        ensures
            view_of(r) == polynomial_of(lines_view(lines@)),
            r matches Ok(p) ==> p.wf(),
    {
        let mut out: Vec<Term> = Vec::new();
        let n: usize = lines.len();
        let mut i: usize = 0;
        let ghost all = lines_view(lines@);
        assert(all.take(0) =~= Seq::<Seq<FactorView>>::empty());
        assert(terms_view(out@) =~= Seq::<TermView>::empty());
        while i < n
            invariant
                i <= n,
                n == lines@.len(),
                all == lines_view(lines@),
                forall|k: int| 0 <= k < lines@.len() ==> factors_wf(#[trigger] all[k]),
                terms_wf(terms_view(out@)),
                try_map(all.take(i as int), spelling()) == Ok::<Seq<TermView>, AlgebraError>(
                    terms_view(out@),
                ),
            decreases n - i,
        {
            let ghost before = terms_view(out@);
            proof {
                lemma_try_map_step(all, spelling(), i as int);
                assert(all[i as int] == factors_view(lines@[i as int]@));
                assert(factors_wf(all[i as int]));
            }
            match PolyParser::parse_term(&lines[i]) {
                Ok(t) => {
                    out.push(t);
                    proof {
                        assert(terms_view(out@) =~= before.push(t@));
                        lemma_wf_push(before, t@);
                    }
                },
                Err(e) => {
                    proof {
                        lemma_try_map_err(all, spelling(), i + 1);
                    }
                    return Err(e);
                },
            }
            i += 1;
        }
        assert(all.take(n as int) =~= all);
        Ok(Polynomial::from_terms(out))
    }

    /// The value of a chain of polynomials joined by operators, worked off
    /// from the left.
    pub fn parse_operation(first: Polynomial, rest: &Vec<(Operator, Polynomial)>) -> (r: Result<
        PolyRatio,
        AlgebraError,
    >)
        requires
            first.wf(),
            chain_wf(chain_view(rest@)),
        ensures
            view_of(r) == chain_value(first@, chain_view(rest@)),
            r matches Ok(q) ==> q.wf(),
    {
        let ghost fv = first@;
        let mut acc = PolyRatio::from(first);
        let n: usize = rest.len();
        let mut i: usize = 0;
        let ghost all = chain_view(rest@);
        let ghost start = acc@;
        assert(all.take(0) =~= Seq::<(Operator, PolyView)>::empty());
        while i < n
            invariant
                i <= n,
                n == rest@.len(),
                all == chain_view(rest@),
                chain_wf(all),
                acc.wf(),
                fv == first@,
                start == RatioView::from_poly(fv),
                try_fold(all.take(i as int), start, applying()) == Ok::<RatioView, AlgebraError>(
                    acc@,
                ),
            decreases n - i,
        {
            proof {
                lemma_try_fold_step(all, start, applying(), i as int);
                assert(all[i as int] == (rest@[i as int].0, rest@[i as int].1@));
                assert(all[i as int].1.wf());
            }
            let next = PolyRatio::from(rest[i].1.clone());
            let step: Result<PolyRatio, AlgebraError> = match rest[i].0 {
                Operator::Add => acc.add(&next),
                Operator::Sub => acc.sub(&next),
                Operator::Mul => acc.mul(&next),
                Operator::Div => acc.div(&next),
            };
            match step {
                Ok(value) => {
                    acc = value;
                },
                Err(e) => {
                    proof {
                        lemma_try_fold_err(all, start, applying(), i + 1);
                    }
                    return Err(e);
                },
            }
            i += 1;
        }
        assert(all.take(n as int) =~= all);
        Ok(acc)
    }
}

} // verus!
