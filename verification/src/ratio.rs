//! Rational functions: a numerator and a denominator polynomial.

use crate::canonical::canonical;
use crate::content::{scale_terms, scaled_terms};
use crate::error::AlgebraError;
use crate::evaluate::{bindings_view, bindings_wf};
use crate::fold::{updates_to, view_of};
use crate::polynomial::{terms_equal, terms_view, terms_wf, vars_wf_empty, PolyView, Polynomial};
use crate::rational::{gcd, integer_gcd, lemma_gcd_with_one, magnitude, Rational};
use crate::term::{vars_view, vars_wf, Term, TermView, VarView, Variable};
use vstd::prelude::*;

verus! {

/// The quotient of two polynomials.
#[derive(Debug)]
pub struct PolyRatio {
    pub numerator: Polynomial,
    pub denominator: Polynomial,
}

/// What a `PolyRatio` stands for.
pub struct RatioView {
    pub numerator: PolyView,
    pub denominator: PolyView,
}

impl View for PolyRatio {
    type V = RatioView;

    open spec fn view(&self) -> RatioView {
        RatioView { numerator: self.numerator@, denominator: self.denominator@ }
    }
}

/// The variables of negative degree, each with its degree negated, in order.
pub open spec fn negatives_of(vars: Seq<VarView>) -> Seq<VarView>
    decreases vars.len(),
{
    if vars.len() == 0 {
        vars
    } else if vars.last().degree.spec_lt(Rational::spec_zero()) {
        negatives_of(vars.drop_last()).push(
            VarView { name: vars.last().name, degree: vars.last().degree.spec_neg() },
        )
    } else {
        negatives_of(vars.drop_last())
    }
}

/// The variables of negative degree of all terms, each with its degree
/// negated, term by term.
pub open spec fn negative_powers(terms: Seq<TermView>) -> Seq<VarView>
    decreases terms.len(),
{
    if terms.len() == 0 {
        Seq::empty()
    } else {
        negative_powers(terms.drop_last()) + negatives_of(terms.last().variables)
    }
}

/// The polynomial of the one term that clears the negative degrees found
/// in `terms`.
pub open spec fn clearing(terms: Seq<TermView>) -> PolyView {
    PolyView::single(
        TermView { coefficient: Rational::spec_one(), variables: negative_powers(terms) },
    )
}

/// The variable that the two contents share, to the lesser of its two
/// degrees: the first variable of each, where both have one of one name.
pub open spec fn shared_power(t1: TermView, t2: TermView) -> Seq<VarView> {
    if t1.variables.len() != 0 && t2.variables.len() != 0 && t1.variables[0].name
        == t2.variables[0].name {
        seq![
            VarView {
                name: t1.variables[0].name,
                degree: t1.variables[0].degree.spec_min(t2.variables[0].degree),
            },
        ]
    } else {
        Seq::empty()
    }
}

/// What the two contents share: the greatest common divisor of the
/// numerators of their coefficients, and `shared_power`.
pub open spec fn shared_term(t1: TermView, t2: TermView) -> TermView {
    TermView {
        coefficient: Rational {
            numer: gcd(
                magnitude(t1.coefficient.numer as int),
                magnitude(t2.coefficient.numer as int),
            ) as i64,
            denom: 1,
        },
        variables: shared_power(t1, t2),
    }
}

impl RatioView {
    /// Every fraction in it is in lowest terms.
    pub open spec fn wf(self) -> bool {
        self.numerator.wf() && self.denominator.wf()
    }

    /// The polynomial one.
    pub open spec fn unit() -> PolyView {
        PolyView::single(TermView::constant(Rational::spec_one()))
    }

    /// The polynomial over one.
    pub open spec fn from_poly(p: PolyView) -> RatioView {
        RatioView { numerator: p, denominator: RatioView::unit() }
    }

    /// Both sides multiplied by `m`.
    pub open spec fn both_times(self, m: PolyView) -> Result<RatioView, AlgebraError> {
        match self.numerator.product(m) {
            Ok(n) => match self.denominator.product(m) {
                Ok(d) => Ok(RatioView { numerator: n, denominator: d }),
                Err(e) => Err(e),
            },
            Err(e) => Err(e),
        }
    }

    /// Both sides multiplied by what clears the negative degrees of the
    /// denominator, then by what clears those left in the numerator.
    pub open spec fn cleared(self) -> Result<RatioView, AlgebraError> {
        match self.both_times(clearing(self.denominator.terms)) {
            Ok(r) => r.both_times(clearing(r.numerator.terms)),
            Err(e) => Err(e),
        }
    }

    /// The ratio with what the contents of both sides share divided out of
    /// both: each side is split into content and rest, put together again,
    /// and multiplied by the inverse of `shared_term`.
    #[verifier::opaque]
    pub open spec fn cancelled(self) -> Result<RatioView, AlgebraError> {
        match self.numerator.numbered_content() {
            Ok(a) => match self.denominator.numbered_content() {
                Ok(b) => match a.1.product(PolyView::single(a.0)) {
                    Ok(n) => match b.1.product(PolyView::single(b.0)) {
                        Ok(d) => match shared_term(a.0, b.0).inverse() {
                            Ok(inv) => (RatioView { numerator: n, denominator: d }).both_times(
                                PolyView::single(inv),
                            ),
                            Err(e) => Err(e),
                        },
                        Err(e) => Err(e),
                    },
                    Err(e) => Err(e),
                },
                Err(e) => Err(e),
            },
            Err(e) => Err(e),
        }
    }

    /// The coefficients of the numerator divided by `an`, those of the
    /// denominator by `ad`.
    pub open spec fn rescaled(self, an: i64, ad: i64) -> Result<RatioView, AlgebraError> {
        match scaled_terms(self.numerator.terms, Rational::spec_new(1, an)) {
            Ok(n) => match scaled_terms(self.denominator.terms, Rational::spec_new(1, ad)) {
                Ok(d) => Ok(
                    RatioView { numerator: PolyView::plain(n), denominator: PolyView::plain(d) },
                ),
                Err(e) => Err(e),
            },
            Err(e) => Err(e),
        }
    }

    /// Both sides in canonical form; one over one where they are then equal
    /// and not zero.
    pub open spec fn settled(self) -> Result<RatioView, AlgebraError> {
        match self.numerator.simplified() {
            Ok(n) => match self.denominator.simplified() {
                Ok(d) => if n.terms == d.terms && !n.is_zero() {
                    Ok(RatioView { numerator: RatioView::unit(), denominator: RatioView::unit() })
                } else {
                    Ok(RatioView { numerator: n, denominator: d })
                },
                Err(e) => Err(e),
            },
            Err(e) => Err(e),
        }
    }

    /// The reduction of a ratio whose sides are in canonical form: the
    /// coefficients of each side made whole, negative degrees cleared, the
    /// shared content cancelled, the coefficients scaled back, and both
    /// sides brought into canonical form.
    #[verifier::opaque]
    pub open spec fn reduced(self) -> Result<RatioView, AlgebraError> {
        match self.numerator.integral() {
            Ok(a) => match self.denominator.integral() {
                Ok(b) => match (RatioView { numerator: a.1, denominator: b.1 }).cleared() {
                    Ok(c) => match c.cancelled() {
                        Ok(k) => match k.rescaled(a.0, b.0) {
                            Ok(s) => s.settled(),
                            Err(e) => Err(e),
                        },
                        Err(e) => Err(e),
                    },
                    Err(e) => Err(e),
                },
                Err(e) => Err(e),
            },
            Err(e) => Err(e),
        }
    }

    /// The canonical form of the ratio: both sides in canonical form, and
    /// reduced. Zero over zero, which shares nothing that could be divided
    /// out, stays as it is.
    #[verifier::opaque]
    pub open spec fn simplified(self) -> Result<RatioView, AlgebraError> {
        match self.numerator.simplified() {
            Ok(n) => match self.denominator.simplified() {
                Ok(d) => if n.is_zero() && d.is_zero() {
                    Ok(RatioView { numerator: n, denominator: d })
                } else {
                    (RatioView { numerator: n, denominator: d }).reduced()
                },
                Err(e) => Err(e),
            },
            Err(e) => Err(e),
        }
    }

    /// The sum by cross-multiplication, in canonical form.
    #[verifier::opaque]
    pub open spec fn sum(self, rhs: RatioView) -> Result<RatioView, AlgebraError> {
        match self.numerator.product(rhs.denominator) {
            Ok(x) => match rhs.numerator.product(self.denominator) {
                Ok(y) => match x.sum(y) {
                    Ok(n) => match self.denominator.product(rhs.denominator) {
                        Ok(d) => (RatioView { numerator: n, denominator: d }).simplified(),
                        Err(e) => Err(e),
                    },
                    Err(e) => Err(e),
                },
                Err(e) => Err(e),
            },
            Err(e) => Err(e),
        }
    }

    /// The difference by cross-multiplication, in canonical form.
    #[verifier::opaque]
    pub open spec fn difference(self, rhs: RatioView) -> Result<RatioView, AlgebraError> {
        match self.numerator.product(rhs.denominator) {
            Ok(x) => match rhs.numerator.product(self.denominator) {
                Ok(y) => match x.difference(y) {
                    Ok(n) => match self.denominator.product(rhs.denominator) {
                        Ok(d) => (RatioView { numerator: n, denominator: d }).simplified(),
                        Err(e) => Err(e),
                    },
                    Err(e) => Err(e),
                },
                Err(e) => Err(e),
            },
            Err(e) => Err(e),
        }
    }

    /// The product, side by side, in canonical form.
    #[verifier::opaque]
    pub open spec fn product(self, rhs: RatioView) -> Result<RatioView, AlgebraError> {
        match self.numerator.product(rhs.numerator) {
            Ok(n) => match self.denominator.product(rhs.denominator) {
                Ok(d) => (RatioView { numerator: n, denominator: d }).simplified(),
                Err(e) => Err(e),
            },
            Err(e) => Err(e),
        }
    }

    /// The quotient, by the product with the other turned over, in
    /// canonical form.
    #[verifier::opaque]
    pub open spec fn quotient(self, rhs: RatioView) -> Result<RatioView, AlgebraError> {
        match self.numerator.product(rhs.denominator) {
            Ok(n) => match self.denominator.product(rhs.numerator) {
                Ok(d) => (RatioView { numerator: n, denominator: d }).simplified(),
                Err(e) => Err(e),
            },
            Err(e) => Err(e),
        }
    }

    /// Both sides with every bound variable replaced by its value.
    pub open spec fn evaluated(self, values: Seq<(Seq<char>, Rational)>) -> Result<
        RatioView,
        AlgebraError,
    > {
        match self.numerator.evaluated(values) {
            Ok(n) => match self.denominator.evaluated(values) {
                Ok(d) => Ok(RatioView { numerator: n, denominator: d }),
                Err(e) => Err(e),
            },
            Err(e) => Err(e),
        }
    }

    /// The text of the ratio: the numerator alone over the denominator one,
    /// a fixed message over the denominator zero, else both in brackets
    /// around `/`.
    pub open spec fn text(self) -> Seq<char> {
        if self.denominator.text() == seq!['1'] {
            self.numerator.text()
        } else if self.denominator.text() == seq!['0'] {
            "ERROR: Division by zero!"@
        } else {
            seq!['('] + self.numerator.text() + seq![')', '/', '('] + self.denominator.text() + seq![
                ')',
            ]
        }
    }
}

/// Appends the variables of negative degree, each with its degree negated.
pub fn push_negatives(vars: &Vec<Variable>, out: &mut Vec<Variable>)
    requires
        vars_wf(vars_view(vars@)),
        vars_wf(vars_view(old(out)@)),
    ensures
        vars_view(final(out)@) == vars_view(old(out)@) + negatives_of(vars_view(vars@)),
        vars_wf(vars_view(final(out)@)),
{
    let n: usize = vars.len();
    let mut i: usize = 0;
    let ghost all = vars_view(vars@);
    let ghost start = vars_view(out@);
    assert(all.take(0) =~= Seq::<VarView>::empty());
    assert(start + negatives_of(all.take(0)) =~= start);
    while i < n
        invariant
            i <= n,
            n == vars@.len(),
            all == vars_view(vars@),
            vars_wf(all),
            vars_wf(vars_view(out@)),
            vars_view(out@) == start + negatives_of(all.take(i as int)),
        decreases n - i,
    {
        let ghost before = vars_view(out@);
        proof {
            assert(all.take(i + 1).drop_last() =~= all.take(i as int));
            assert(all[i as int] == vars@[i as int]@);
            assert(all[i as int].degree.wf());
        }
        if vars[i].degree.lt(Rational::zero()) {
            let v = Variable { name: vars[i].name.clone(), degree: vars[i].degree.neg() };
            out.push(v);
            proof {
                assert(vars_view(out@) =~= before.push(v@));
                assert forall|k: int| 0 <= k < vars_view(out@).len() implies (
                #[trigger] vars_view(out@)[k]).degree.wf() by {
                    if k < before.len() {
                        assert(vars_view(out@)[k] == before[k]);
                    }
                }
            }
        }
        assert(vars_view(out@) =~= start + negatives_of(all.take(i + 1)));
        i += 1;
    }
    assert(all.take(n as int) =~= all);
}

/// The polynomial of the one term that clears the negative degrees found
/// in `terms`.
pub fn clearing_polynomial(terms: &Vec<Term>) -> (r: Polynomial)
    requires
        terms_wf(terms_view(terms@)),
    ensures
        r@ == clearing(terms_view(terms@)),
        r.wf(),
{
    let mut vars: Vec<Variable> = Vec::new();
    let n: usize = terms.len();
    let mut i: usize = 0;
    let ghost all = terms_view(terms@);
    assert(all.take(0) =~= Seq::<TermView>::empty());
    assert(vars_view(vars@) =~= Seq::<VarView>::empty());
    while i < n
        invariant
            i <= n,
            n == terms@.len(),
            all == terms_view(terms@),
            terms_wf(all),
            vars_wf(vars_view(vars@)),
            vars_view(vars@) == negative_powers(all.take(i as int)),
        decreases n - i,
    {
        proof {
            assert(all.take(i + 1).drop_last() =~= all.take(i as int));
            assert(all[i as int] == terms@[i as int]@);
            assert(all[i as int].wf());
        }
        push_negatives(&terms[i].variables, &mut vars);
        i += 1;
    }
    assert(all.take(n as int) =~= all);
    Polynomial::from_term(Term { coefficient: Rational::one(), variables: vars })
}

/// What the two contents share.
pub fn shared_content(t1: &Term, t2: &Term) -> (r: Term)
    requires
        t1.wf(),
        t2.wf(),
    ensures
        r@ == shared_term(t1@, t2@),
        r.wf(),
{
    let g: i64 = integer_gcd(t1.coefficient.numer, t2.coefficient.numer);
    let mut vars: Vec<Variable> = Vec::new();
    assert(vars_view(vars@) =~= Seq::<VarView>::empty());
    if t1.variables.len() != 0 && t2.variables.len() != 0 {
        assert(vars_view(t1.variables@)[0] == t1.variables@[0]@);
        assert(vars_view(t2.variables@)[0] == t2.variables@[0]@);
        assert(vars_view(t1.variables@)[0].degree.wf());
        assert(vars_view(t2.variables@)[0].degree.wf());
        if t1.variables[0].name == t2.variables[0].name {
            let v = Variable {
                name: t1.variables[0].name.clone(),
                degree: t1.variables[0].degree.min(t2.variables[0].degree),
            };
            vars.push(v);
            assert(vars_view(vars@) =~= seq![v@]);
        }
    }
    assert(vars_view(vars@) =~= shared_power(t1@, t2@));
    proof {
        lemma_gcd_with_one(magnitude(g as int));
    }
    Term { coefficient: Rational::from_integer(g), variables: vars }
}

impl Clone for PolyRatio {
    fn clone(&self) -> (r: Self)
        ensures
            r@ == self@,
    {
        PolyRatio { numerator: self.numerator.clone(), denominator: self.denominator.clone() }
    }
}

/// The terms of the polynomial one are in canonical form.
pub proof fn lemma_unit_canonical()
    ensures
        canonical(RatioView::unit().terms),
{
    let u = RatioView::unit().terms;
    assert(u =~= seq![TermView::constant(Rational::spec_one())]);
    assert(u[0].coefficient.numer == 1);
}

impl Polynomial {
    /// The polynomial one.
    pub fn unit() -> (p: Polynomial)
        ensures
            p@ == RatioView::unit(),
            p.wf(),
    {
        assert(vars_wf_empty());
        Polynomial::from_term(Term::constant(Rational::one()))
    }

    /// Whether the terms are the zero term alone.
    pub fn is_zero(&self) -> (b: bool)
        ensures
            b == self@.is_zero(),
    {
        if self.terms.len() != 1 {
            assert(terms_view(self.terms@).len() != 1);
            return false;
        }
        let ghost tv = terms_view(self.terms@);
        assert(tv[0] == self.terms@[0]@);
        let t = &self.terms[0];
        let b = t.coefficient.numer == 0 && t.coefficient.denom == 1 && t.variables.len() == 0;
        proof {
            if b {
                assert(tv[0].variables =~= Seq::<VarView>::empty());
                assert(tv =~= seq![TermView::zero()]);
            } else if tv == seq![TermView::zero()] {
                assert(tv[0] == TermView::zero());
                assert(tv[0].variables.len() == 0);
            }
        }
        b
    }
}

impl PolyRatio {
    pub open spec fn wf(&self) -> bool {
        self@.wf()
    }

    /// Whether every fraction in the ratio is in lowest terms.
    pub fn is_wf(&self) -> (b: bool)
        ensures
            b == self.wf(),
    {
        self.numerator.is_wf() && self.denominator.is_wf()
    }

    /// The polynomial over one.
    pub fn from(p: Polynomial) -> (r: PolyRatio)
        ensures
            r@ == RatioView::from_poly(p@),
            p.wf() ==> r.wf(),
    {
        PolyRatio { numerator: p, denominator: Polynomial::unit() }
    }

    /// Both sides multiplied by `m`.
    pub fn times_both(&self, m: &Polynomial) -> (r: Result<PolyRatio, AlgebraError>)
        requires
            self.wf(),
            m.wf(),
        ensures
            view_of(r) == self@.both_times(m@),
            r matches Ok(q) ==> q.wf(),
    {
        let n = self.numerator.mul(m)?;
        let d = self.denominator.mul(m)?;
        Ok(PolyRatio { numerator: n, denominator: d })
    }

    /// Both sides multiplied by what clears the negative degrees.
    pub fn clear_negative_degrees(&self) -> (r: Result<PolyRatio, AlgebraError>)
        requires
            self.wf(),
        ensures
            view_of(r) == self@.cleared(),
            r matches Ok(q) ==> q.wf(),
    {
        let m1 = clearing_polynomial(&self.denominator.terms);
        let first = self.times_both(&m1)?;
        let m2 = clearing_polynomial(&first.numerator.terms);
        first.times_both(&m2)
    }

    /// The ratio with what the contents of both sides share divided out.
    pub fn cancel_shared_content(&self) -> (r: Result<PolyRatio, AlgebraError>)
        requires
            self.wf(),
        ensures
            view_of(r) == self@.cancelled(),
            r matches Ok(q) ==> q.wf(),
    {
        reveal(RatioView::cancelled);
        let a = self.numerator.factor_with_number()?;
        let b = self.denominator.factor_with_number()?;
        let shared = shared_content(&a.0, &b.0);
        let n = a.1.mul(&Polynomial::from_term(a.0))?;
        let d = b.1.mul(&Polynomial::from_term(b.0))?;
        let mut inv = shared;
        inv.invert()?;
        let whole = PolyRatio { numerator: n, denominator: d };
        whole.times_both(&Polynomial::from_term(inv))
    }

    /// The coefficients of the numerator divided by `an`, those of the
    /// denominator by `ad`.
    pub fn rescale(&self, an: i64, ad: i64) -> (r: Result<PolyRatio, AlgebraError>)
        requires
            self.wf(),
            an >= 1,
            ad >= 1,
        ensures
            view_of(r) == self@.rescaled(an, ad),
            r matches Ok(q) ==> q.wf(),
    {
        let n = scale_terms(&self.numerator.terms, Rational::new(1, an))?;
        let d = scale_terms(&self.denominator.terms, Rational::new(1, ad))?;
        Ok(PolyRatio { numerator: Polynomial::from_terms(n), denominator: Polynomial::from_terms(d) })
    }

    /// Both sides in canonical form; one over one where they are then equal
    /// and not zero.
    pub fn settle(&self) -> (r: Result<PolyRatio, AlgebraError>)
        requires
            self.wf(),
        ensures
            view_of(r) == self@.settled(),
            r matches Ok(q) ==> q.wf(),
            r matches Ok(q) ==> canonical(q@.numerator.terms) && canonical(q@.denominator.terms),
    {
        proof {
            lemma_unit_canonical();
        }
        let mut n = self.numerator.clone();
        n.simplify()?;
        let mut d = self.denominator.clone();
        d.simplify()?;
        if terms_equal(&n.terms, &d.terms) && !n.is_zero() {
            Ok(PolyRatio { numerator: Polynomial::unit(), denominator: Polynomial::unit() })
        } else {
            Ok(PolyRatio { numerator: n, denominator: d })
        }
    }

    /// Brings the ratio into canonical form. Both sides are brought into
    /// canonical form; zero over zero then stays as it is. Otherwise the
    /// coefficients of each side are made whole, negative degrees are
    /// cleared, the content that both sides share is cancelled, the
    /// coefficients are scaled back, and equal sides become one over one.
    /// A zero denominator stays zero: it stands for a failed division, which
    /// is rendered and not raised.
    pub fn simplify(&mut self) -> (r: Result<(), AlgebraError>)
        requires
            old(self).wf(),
        ensures
            updates_to(r, old(self)@, final(self)@, old(self)@.simplified()),
            final(self).wf(),
            r is Ok ==> canonical(final(self)@.numerator.terms) && canonical(
                final(self)@.denominator.terms,
            ),
            r is Ok && old(self)@.denominator.simplified() is Ok && old(
                self,
            )@.denominator.simplified().unwrap().is_zero() ==> final(self)@.denominator.is_zero(),
    {
        proof {
            if old(self)@.simplified() is Ok && old(self)@.denominator.simplified() is Ok && old(
                self,
            )@.denominator.simplified().unwrap().is_zero() {
                crate::sentinel::lemma_zero_denominator_stays(old(self)@);
            }
        }
        reveal(RatioView::simplified);
        reveal(RatioView::reduced);
        let mut n = self.numerator.clone();
        n.simplify()?;
        let mut d = self.denominator.clone();
        d.simplify()?;
        if n.is_zero() && d.is_zero() {
            self.numerator = n;
            self.denominator = d;
            return Ok(());
        }
        let mut whole_n = n.clone();
        let an: i64 = whole_n.make_integer()?;
        let mut whole_d = d.clone();
        let ad: i64 = whole_d.make_integer()?;
        let whole = PolyRatio { numerator: whole_n, denominator: whole_d };
        let cleared = whole.clear_negative_degrees()?;
        let cancelled = cleared.cancel_shared_content()?;
        let scaled = cancelled.rescale(an, ad)?;
        let done = scaled.settle()?;
        *self = done;
        Ok(())
    }

    /// The sum by cross-multiplication, in canonical form.
    pub fn add(&self, rhs: &PolyRatio) -> (r: Result<PolyRatio, AlgebraError>)
        requires
            self.wf(),
            rhs.wf(),
        ensures
            view_of(r) == self@.sum(rhs@),
            r matches Ok(q) ==> q.wf(),
    {
        reveal(RatioView::sum);
        let x = self.numerator.mul(&rhs.denominator)?;
        let y = rhs.numerator.mul(&self.denominator)?;
        let n = x.add(&y)?;
        let d = self.denominator.mul(&rhs.denominator)?;
        let mut out = PolyRatio { numerator: n, denominator: d };
        out.simplify()?;
        Ok(out)
    }

    /// The difference by cross-multiplication, in canonical form.
    pub fn sub(&self, rhs: &PolyRatio) -> (r: Result<PolyRatio, AlgebraError>)
        requires
            self.wf(),
            rhs.wf(),
        ensures
            view_of(r) == self@.difference(rhs@),
            r matches Ok(q) ==> q.wf(),
    {
        reveal(RatioView::difference);
        let x = self.numerator.mul(&rhs.denominator)?;
        let y = rhs.numerator.mul(&self.denominator)?;
        let n = x.sub(&y)?;
        let d = self.denominator.mul(&rhs.denominator)?;
        let mut out = PolyRatio { numerator: n, denominator: d };
        out.simplify()?;
        Ok(out)
    }

    /// The product, side by side, in canonical form.
    pub fn mul(&self, rhs: &PolyRatio) -> (r: Result<PolyRatio, AlgebraError>)
        requires
            self.wf(),
            rhs.wf(),
        ensures
            view_of(r) == self@.product(rhs@),
            r matches Ok(q) ==> q.wf(),
    {
        reveal(RatioView::product);
        let n = self.numerator.mul(&rhs.numerator)?;
        let d = self.denominator.mul(&rhs.denominator)?;
        let mut out = PolyRatio { numerator: n, denominator: d };
        out.simplify()?;
        Ok(out)
    }

    /// The quotient, by the product with the other turned over, in
    /// canonical form.
    pub fn div(&self, rhs: &PolyRatio) -> (r: Result<PolyRatio, AlgebraError>)
        requires
            self.wf(),
            rhs.wf(),
        ensures
            view_of(r) == self@.quotient(rhs@),
            r matches Ok(q) ==> q.wf(),
    {
        reveal(RatioView::quotient);
        let n = self.numerator.mul(&rhs.denominator)?;
        let d = self.denominator.mul(&rhs.numerator)?;
        let mut out = PolyRatio { numerator: n, denominator: d };
        out.simplify()?;
        Ok(out)
    }

    /// Replaces every bound variable by its value on both sides, the
    /// numerator first. Where either side fails, the ratio stays as it is.
    pub fn evaluate(&mut self, values: &Vec<(String, Rational)>) -> (r: Result<(), AlgebraError>)
        requires
            old(self).wf(),
            bindings_wf(bindings_view(values@)),
        ensures
            updates_to(
                r,
                old(self)@,
                final(self)@,
                old(self)@.evaluated(bindings_view(values@)),
            ),
            final(self).wf(),
    {
        let mut n = self.numerator.clone();
        n.evaluate(values)?;
        let mut d = self.denominator.clone();
        d.evaluate(values)?;
        self.numerator = n;
        self.denominator = d;
        Ok(())
    }

    /// The text of the ratio: the numerator alone where the text of the
    /// denominator is `1`, the message `ERROR: Division by zero!` where it
    /// is `0`, else `(numerator)/(denominator)`.
    pub fn as_string(&self) -> (s: String)
        ensures
            s@ == self@.text(),
    {
        let den = self.denominator.as_string();
        proof {
            reveal_strlit("1");
            reveal_strlit("0");
            reveal_strlit("(");
            reveal_strlit(")/(");
            reveal_strlit(")");
            assert("1"@ =~= seq!['1']);
            assert("0"@ =~= seq!['0']);
            assert("("@ =~= seq!['(']);
            assert(")/("@ =~= seq![')', '/', '(']);
            assert(")"@ =~= seq![')']);
        }
        if den == String::from_str("1") {
            self.numerator.as_string()
        } else if den == String::from_str("0") {
            String::from_str("ERROR: Division by zero!")
        } else {
            let num = self.numerator.as_string();
            let mut out = String::from_str("(");
            out.append(num.as_str());
            out.append(")/(");
            out.append(den.as_str());
            out.append(")");
            assert(out@ =~= self@.text());
            out
        }
    }
}

} // verus!
