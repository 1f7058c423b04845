//! Roots of polynomials of degree one and two in one variable, in closed
//! form.

use crate::error::AlgebraError;
use crate::polynomial::{terms_view, terms_wf, vars_wf_empty, PolyView, Polynomial};
use crate::ratio::{PolyRatio, RatioView};
use crate::rational::{lemma_gcd_with_one, Rational};
use crate::term::{vars_view, vars_wf, Term, TermView, VarView, Variable};
use vstd::prelude::*;

verus! {

/// The variables of another name, in order.
pub open spec fn without_name(vars: Seq<VarView>, name: Seq<char>) -> Seq<VarView>
    decreases vars.len(),
{
    if vars.len() == 0 {
        vars
    } else if vars.last().name != name {
        without_name(vars.drop_last(), name).push(vars.last())
    } else {
        without_name(vars.drop_last(), name)
    }
}

/// What the term multiplies the variable `name` with: the term without
/// that variable.
pub open spec fn cofactor(t: TermView, name: Seq<char>) -> TermView {
    TermView { coefficient: t.coefficient, variables: without_name(t.variables, name) }
}

/// The constant `c` as a ratio.
pub open spec fn constant_ratio(c: Rational) -> RatioView {
    RatioView::from_poly(PolyView::single(TermView::constant(c)))
}

/// The term `t` as a ratio.
pub open spec fn term_ratio(t: TermView) -> RatioView {
    RatioView::from_poly(PolyView::single(t))
}

/// The fraction one half.
pub open spec fn half() -> Rational {
    Rational { numer: 1, denom: 2 }
}

/// The root of `a * x + b`, where `a * x` is the first term and `b` the
/// rest: `-b / a`.
pub open spec fn linear_root(p: PolyView, name: Seq<char>) -> Result<RatioView, AlgebraError> {
    match RatioView::from_poly(PolyView::plain(p.terms.skip(1))).product(
        constant_ratio(Rational::spec_from_integer(-1i64)),
    ) {
        Ok(minus_b) => minus_b.quotient(term_ratio(cofactor(p.terms[0], name))),
        Err(e) => Err(e),
    }
}

/// `b * b - 4 * a * c`.
pub open spec fn discriminant(a: RatioView, b: RatioView, c: RatioView) -> Result<
    RatioView,
    AlgebraError,
> {
    match b.product(b) {
        Ok(bb) => match constant_ratio(Rational::spec_from_integer(4)).product(a) {
            Ok(fa) => match fa.product(c) {
                Ok(fac) => bb.difference(fac),
                Err(e) => Err(e),
            },
            Err(e) => Err(e),
        },
        Err(e) => Err(e),
    }
}

/// The square root of a ratio: both sides under the outer exponent one
/// half, in canonical form. The root is taken where it is exact. Where it
/// is not, the side keeps its terms under the pending exponent one half.
pub open spec fn square_root(r: RatioView) -> Result<RatioView, AlgebraError> {
    (RatioView {
        numerator: PolyView { terms: r.numerator.terms, degree: half() },
        denominator: PolyView { terms: r.denominator.terms, degree: half() },
    }).simplified()
}

/// The two values `(m + s) / t` and `(m - s) / t`. Sums and quotients of
/// ratios are taken of the term lists: an outer exponent that is pending
/// on a side of `s` does not enter them.
pub open spec fn both_signs(m: RatioView, s: RatioView, t: RatioView) -> Result<
    Seq<RatioView>,
    AlgebraError,
> {
    match m.sum(s) {
        Ok(x) => match x.quotient(t) {
            Ok(r1) => match m.difference(s) {
                Ok(y) => match y.quotient(t) {
                    Ok(r2) => Ok(seq![r1, r2]),
                    Err(e) => Err(e),
                },
                Err(e) => Err(e),
            },
            Err(e) => Err(e),
        },
        Err(e) => Err(e),
    }
}

/// The roots of `a * x^2 + b * x + c`, whose three terms stand in this
/// order: `(-b + s) / (2 * a)` and `(-b - s) / (2 * a)`, with `s` the square
/// root of the discriminant where that root is exact. Where it is not, `s`
/// enters with the terms of the discriminant itself, so that the two
/// values are `(-b + d) / (2 * a)` and `(-b - d) / (2 * a)`: their sum is
/// `-b / a`, and neither is a root.
pub open spec fn quadratic_roots(p: PolyView, name: Seq<char>) -> Result<
    Seq<RatioView>,
    AlgebraError,
> {
    let a = term_ratio(cofactor(p.terms[0], name));
    let b = term_ratio(cofactor(p.terms[1], name));
    let c = term_ratio(p.terms[2]);
    match constant_ratio(Rational::spec_from_integer(-1i64)).product(b) {
        Ok(minus_b) => match discriminant(a, b, c) {
            Ok(d) => match square_root(d) {
                Ok(s) => match constant_ratio(Rational::spec_from_integer(2)).product(a) {
                    Ok(two_a) => both_signs(minus_b, s, two_a),
                    Err(e) => Err(e),
                },
                Err(e) => Err(e),
            },
            Err(e) => Err(e),
        },
        Err(e) => Err(e),
    }
}

/// The result with its ratios replaced by their views.
pub open spec fn ratios_view(r: Result<Vec<PolyRatio>, AlgebraError>) -> Result<
    Seq<RatioView>,
    AlgebraError,
> {
    match r {
        Ok(v) => Ok(Seq::new(v@.len(), |i: int| v@[i]@)),
        Err(e) => Err(e),
    }
}

impl PolyView {
    /// The roots of the polynomial in the variable `name`. The polynomial
    /// is taken in canonical form, and its degree decides: one root for
    /// degree one, two for degree two and three terms, none for anything
    /// else. A polynomial without terms has no roots to ask for.
    pub open spec fn roots(self, name: Seq<char>) -> Result<Seq<RatioView>, AlgebraError> {
        if self.terms.len() == 0 {
            Err(AlgebraError::InvalidState)
        } else {
            match self.simplified() {
                Ok(p) => if p.max_degree() == Rational::spec_one() {
                    match linear_root(p, name) {
                        Ok(r) => Ok(seq![r]),
                        Err(e) => Err(e),
                    }
                } else if p.max_degree() == Rational::spec_from_integer(2) && p.terms.len() == 3 {
                    quadratic_roots(p, name)
                } else {
                    Err(AlgebraError::UnsupportedOperation)
                },
                Err(e) => Err(e),
            }
        }
    }
}

/// The constant `c` as a ratio.
pub fn ratio_of_constant(c: Rational) -> (r: PolyRatio)
    requires
        c.wf(),
    ensures
        r@ == constant_ratio(c),
        r.wf(),
{
    assert(vars_wf_empty());
    PolyRatio::from(Polynomial::from_term(Term::constant(c)))
}

/// The term without its variables of the given name, as a ratio.
pub fn ratio_of_cofactor(t: &Term, name: &String) -> (r: PolyRatio)
    requires
        t.wf(),
    ensures
        r@ == term_ratio(cofactor(t@, name@)),
        r.wf(),
{
    let mut out: Vec<Variable> = Vec::new();
    let n: usize = t.variables.len();
    let mut i: usize = 0;
    let ghost all = vars_view(t.variables@);
    assert(all.take(0) =~= Seq::<VarView>::empty());
    assert(vars_view(out@) =~= Seq::<VarView>::empty());
    while i < n
        invariant
            i <= n,
            n == t.variables@.len(),
            all == vars_view(t.variables@),
            vars_wf(all),
            vars_wf(vars_view(out@)),
            vars_view(out@) == without_name(all.take(i as int), name@),
        decreases n - i,
    {
        let ghost before = vars_view(out@);
        proof {
            assert(all.take(i + 1).drop_last() =~= all.take(i as int));
            assert(all[i as int] == t.variables@[i as int]@);
            assert(all[i as int].degree.wf());
        }
        if !(t.variables[i].name == *name) {
            out.push(t.variables[i].clone());
            proof {
                assert(vars_view(out@) =~= before.push(all[i as int]));
                assert forall|k: int| 0 <= k < vars_view(out@).len() implies (
                #[trigger] vars_view(out@)[k]).degree.wf() by {
                    if k < before.len() {
                        assert(vars_view(out@)[k] == before[k]);
                    }
                }
            }
        }
        i += 1;
    }
    assert(all.take(n as int) =~= all);
    PolyRatio::from(Polynomial::from_term(Term { coefficient: t.coefficient, variables: out }))
}

/// The two values `(m + s) / t` and `(m - s) / t`. Sums and quotients of
/// ratios are taken of the term lists: an outer exponent that is pending
/// on a side of `s` does not enter them.
pub fn with_both_signs(m: &PolyRatio, s: &PolyRatio, t: &PolyRatio) -> (r: Result<
    Vec<PolyRatio>,
    AlgebraError,
>)
    requires
        m.wf(),
        s.wf(),
        t.wf(),
    ensures
        ratios_view(r) == both_signs(m@, s@, t@),
        r matches Ok(v) ==> forall|i: int| 0 <= i < v@.len() ==> (#[trigger] v@[i]).wf(),
{
    let r1 = m.add(s)?.div(t)?;
    let r2 = m.sub(s)?.div(t)?;
    let mut out: Vec<PolyRatio> = Vec::new();
    out.push(r1);
    out.push(r2);
    assert(Seq::new(out@.len(), |i: int| out@[i]@) =~= seq![r1@, r2@]);
    Ok(out)
}

impl Polynomial {
    /// The roots of the polynomial in the variable `var`, as ratios: `-b / a`
    /// for `a * var + b`, and the two values of the quadratic formula for
    /// `a * var^2 + b * var + c`. These are roots where the square root of
    /// the discriminant `d` is exact. Where it is not, a ratio cannot hold
    /// the roots, and the two values returned are `(-b + d) / (2 * a)` and
    /// `(-b - d) / (2 * a)`, which add up to `-b / a` as the roots do. Other
    /// degrees are not supported.
    pub fn roots(&self, var: &str) -> (r: Result<Vec<PolyRatio>, AlgebraError>)
        requires
            self.wf(),
        ensures
            ratios_view(r) == self@.roots(var@),
            r matches Ok(v) ==> forall|i: int| 0 <= i < v@.len() ==> (#[trigger] v@[i]).wf(),
    {
        if self.terms.len() == 0 {
            return Err(AlgebraError::InvalidState);
        }
        let name = String::from_str(var);
        let mut p = self.clone();
        p.simplify()?;
        let degree = p.degree();
        let ghost tv = terms_view(p.terms@);
        proof {
            lemma_gcd_with_one(2);
            lemma_gcd_with_one(4);
        }
        if degree == Rational::one() {
            assert(tv[0] == p.terms@[0]@);
            assert(tv[0].wf());
            let mut rest: Vec<Term> = Vec::new();
            let n: usize = p.terms.len();
            let mut i: usize = 1;
            while i < n
                invariant
                    1 <= i <= n,
                    n == p.terms@.len(),
                    tv == terms_view(p.terms@),
                    terms_wf(tv),
                    rest@.len() == i - 1,
                    forall|k: int| 0 <= k < i - 1 ==> (#[trigger] rest@[k])@ == tv[k + 1],
                decreases n - i,
            {
                assert(tv[i as int] == p.terms@[i as int]@);
                rest.push(p.terms[i].clone());
                i += 1;
            }
            proof {
                assert(terms_view(rest@) =~= tv.skip(1));
                assert forall|k: int| 0 <= k < tv.skip(1).len() implies (#[trigger] tv.skip(
                    1,
                )[k]).wf() by {
                    assert(tv.skip(1)[k] == tv[k + 1]);
                }
            }
            let b = PolyRatio::from(Polynomial::from_terms(rest));
            let minus_b = b.mul(&ratio_of_constant(Rational::from_integer(-1)))?;
            let root = minus_b.div(&ratio_of_cofactor(&p.terms[0], &name))?;
            let mut out: Vec<PolyRatio> = Vec::new();
            out.push(root);
            assert(Seq::new(out@.len(), |i: int| out@[i]@) =~= seq![root@]);
            Ok(out)
        } else if degree == Rational::from_integer(2) && p.terms.len() == 3 {
            assert(tv[0] == p.terms@[0]@);
            assert(tv[1] == p.terms@[1]@);
            assert(tv[2] == p.terms@[2]@);
            assert(tv[0].wf() && tv[1].wf() && tv[2].wf());
            let a = ratio_of_cofactor(&p.terms[0], &name);
            let b = ratio_of_cofactor(&p.terms[1], &name);
            let c = PolyRatio::from(Polynomial::from_term(p.terms[2].clone()));
            let minus_b = ratio_of_constant(Rational::from_integer(-1)).mul(&b)?;
            let b_squared = b.mul(&b)?;
            let four_ac = ratio_of_constant(Rational::from_integer(4)).mul(&a)?.mul(&c)?;
            let d = b_squared.sub(&four_ac)?;
            let half = Rational::new(1, 2);
            proof {
                reveal_with_fuel(crate::rational::gcd, 4);
                assert(half == crate::roots::half());
            }
            let mut s = PolyRatio {
                numerator: Polynomial { terms: d.numerator.terms, degree: half },
                denominator: Polynomial { terms: d.denominator.terms, degree: half },
            };
            s.simplify()?;
            let two_a = ratio_of_constant(Rational::from_integer(2)).mul(&a)?;
            with_both_signs(&minus_b, &s, &two_a)
        } else {
            Err(AlgebraError::UnsupportedOperation)
        }
    }
}

} // verus!
