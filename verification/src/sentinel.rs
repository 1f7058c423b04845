//! The zero denominator: a ratio over zero stands for a failed division,
//! and bringing it into canonical form keeps the zero below.

use crate::associate::{coefficient_of, lemma_coefficient_of_member, lemma_zero_is_zero, lemma_zero_wf};
use crate::canonical::canonical;
use crate::commute::lemma_try_map_items;
use crate::content::{scaled_terms, scaling};
use crate::distribute::lemma_zero_entry;
use crate::error::AlgebraError;
use crate::fixed::{lemma_canonical_simplified, lemma_content_gcd_zero, lemma_content_props, lemma_scaled_wf};
use crate::grouping::lemma_rows_nothing;
use crate::number::lemma_product_pair;
use crate::polynomial::{product_terms, terms_wf, PolyView};
use crate::product::{grid, lemma_product_coefficient};
use crate::ratio::{clearing, negative_powers, negatives_of, shared_term, RatioView};
use crate::rational::{lemma_gcd_symmetric, lemma_gcd_with_one, Rational};
use crate::roundtrip::lemma_common_denominator_positive;
use crate::term::{negated_degrees, vars_wf, TermView, VarView};
use crate::wellformed::{lemma_one_wf, lemma_product_terms_wf, lemma_simplified_wf, lemma_spec_new_wf, lemma_zero_term_wf};
use vstd::prelude::*;

verus! {

/// The zero term alone.
pub open spec fn zero_terms() -> Seq<TermView> {
    seq![TermView::zero()]
}

/// The zero term alone is in canonical form and in lowest terms.
pub proof fn lemma_zero_terms_props()
    ensures
        canonical(zero_terms()),
        terms_wf(zero_terms()),
        PolyView::plain(zero_terms()).wf(),
        PolyView::plain(zero_terms()).is_zero(),
{
    lemma_zero_term_wf();
    lemma_one_wf();
    assert forall|i: int| 0 <= i < zero_terms().len() implies (#[trigger] zero_terms()[i]).wf() by {}
}

/// The product of zero and a list in lowest terms is zero, where it
/// exists.
pub proof fn lemma_zero_times(b: Seq<TermView>)
    requires
        terms_wf(b),
        product_terms(zero_terms(), b) is Ok,
    ensures
        product_terms(zero_terms(), b) == Ok::<Seq<TermView>, AlgebraError>(zero_terms()),
{
    lemma_zero_terms_props();
    let z = zero_terms();
    let p = product_terms(z, b).unwrap();
    crate::exact::lemma_product_exists(z, b);
    let v = p[0].variables;
    lemma_product_coefficient(z, b, v);
    lemma_coefficient_of_member(p, 0);
    let e = grid(z, b, v);
    assert forall|i: int, j: int| 0 <= i < z.len() && 0 <= j < b.len() implies #[trigger] e(i, j)
        == (0int, 1int) by {
        assert(b[j].wf());
        lemma_zero_entry(b[j], v);
    }
    lemma_rows_nothing(e, z.len(), b.len());
    let c = coefficient_of(p, v);
    assert(c == p[0].coefficient);
    assert(c.numer == 0) by (nonlinear_arith)
        requires
            c.numer * 1 == 0 * c.denom,
    ;
    assert(p =~= z);
}

/// Zero with its coefficient multiplied by a fraction in lowest terms is
/// zero, where the product exists.
pub proof fn lemma_zero_scaled(q: Rational)
    requires
        q.wf(),
        scaled_terms(zero_terms(), q) is Ok,
    ensures
        scaled_terms(zero_terms(), q) == Ok::<Seq<TermView>, AlgebraError>(zero_terms()),
{
    lemma_zero_wf();
    let z = zero_terms();
    let r = scaled_terms(z, q).unwrap();
    lemma_try_map_items(z, scaling(q));
    let zero = Rational::spec_zero();
    assert(scaling(q)(z[0]) == z[0].scaled(q));
    lemma_product_pair(zero, q);
    let c = zero.spec_mul(q).unwrap();
    assert(c.numer == 0) by (nonlinear_arith)
        requires
            c.numer * (1 * q.denom) == (0 * q.numer) * c.denom,
            q.denom > 0,
    ;
    lemma_zero_is_zero(c);
    assert(r =~= z);
}

/// The negated negative degrees of variables in lowest terms are in
/// lowest terms.
pub proof fn lemma_negatives_wf(vars: Seq<VarView>)
    requires
        vars_wf(vars),
    ensures
        vars_wf(negatives_of(vars)),
    decreases vars.len(),
{
    if vars.len() > 0 {
        let front = vars.drop_last();
        assert(vars_wf(front)) by {
            assert forall|i: int| 0 <= i < front.len() implies (#[trigger] front[i]).degree.wf() by {
                assert(front[i] == vars[i]);
            }
        }
        lemma_negatives_wf(front);
        assert(vars[vars.len() - 1].degree.wf());
    }
}

/// The negated negative degrees of terms in lowest terms are in lowest
/// terms.
pub proof fn lemma_negative_powers_wf(terms: Seq<TermView>)
    requires
        terms_wf(terms),
    ensures
        vars_wf(negative_powers(terms)),
        clearing(terms).wf(),
    decreases terms.len(),
{
    lemma_one_wf();
    if terms.len() > 0 {
        let front = terms.drop_last();
        assert(terms_wf(front)) by {
            assert forall|i: int| 0 <= i < front.len() implies (#[trigger] front[i]).wf() by {
                assert(front[i] == terms[i]);
            }
        }
        lemma_negative_powers_wf(front);
        assert(terms[terms.len() - 1].wf());
        lemma_negatives_wf(terms.last().variables);
        let a = negative_powers(front);
        let b = negatives_of(terms.last().variables);
        assert forall|i: int| 0 <= i < (a + b).len() implies (#[trigger] (a + b)[i]).degree.wf() by {
            if i < a.len() {
                assert((a + b)[i] == a[i]);
            } else {
                assert((a + b)[i] == b[i - a.len()]);
            }
        }
    }
    let t = TermView { coefficient: Rational::spec_one(), variables: negative_powers(terms) };
    assert(clearing(terms).terms =~= seq![t]);
    assert forall|i: int| 0 <= i < clearing(terms).terms.len() implies (
    #[trigger] clearing(terms).terms[i]).wf() by {}
}

/// The content of zero is zero, and zero is what is left.
pub proof fn lemma_zero_content()
    ensures
        PolyView::plain(zero_terms()).numbered_content() == Ok::<(TermView, PolyView), AlgebraError>(
            (TermView::zero(), PolyView::plain(zero_terms())),
        ),
{
    reveal(PolyView::numbered_content);
    lemma_zero_terms_props();
    let z = PolyView::plain(zero_terms());
    lemma_canonical_simplified(z);
    reveal_with_fuel(crate::content::first_common, 2);
    assert(z.terms[0].variables.len() == 0);
    lemma_content_gcd_zero(z.terms);
}

/// What a content in lowest terms shares with zero has an inverse in
/// lowest terms, where it has one.
pub proof fn lemma_shared_with_zero(t: TermView)
    requires
        t.wf(),
        shared_term(t, TermView::zero()).inverse() is Ok,
    ensures
        shared_term(t, TermView::zero()).inverse().unwrap().wf(),
{
    let s = shared_term(t, TermView::zero());
    let m = crate::rational::magnitude(t.coefficient.numer as int);
    reveal_with_fuel(crate::rational::gcd, 2);
    assert(crate::rational::gcd(m, 0) == m);
    assert(s.variables =~= Seq::<VarView>::empty());
    assert(negated_degrees(s.variables) =~= Seq::<VarView>::empty());
    lemma_gcd_with_one(m);
    lemma_gcd_symmetric(1, m);
}

/// A ratio whose denominator has the canonical form zero keeps the zero
/// below when it is brought into canonical form.
pub proof fn lemma_zero_denominator_stays(r: RatioView)
    requires
        r.wf(),
        r.simplified() is Ok,
        r.denominator.simplified() is Ok,
        r.denominator.simplified().unwrap().is_zero(),
    ensures
        r.simplified().unwrap().denominator.is_zero(),
{
    reveal(RatioView::simplified);
    reveal(RatioView::reduced);
    reveal(RatioView::cancelled);
    let n = r.numerator.simplified().unwrap();
    let d = r.denominator.simplified().unwrap();
    lemma_simplified_wf(r.numerator);
    lemma_simplified_wf(r.denominator);
    lemma_zero_terms_props();
    lemma_one_wf();
    let z = PolyView::plain(zero_terms());
    if !n.is_zero() {
        let a = n.integral().unwrap();
        let b = d.integral().unwrap();
        lemma_common_denominator_positive(n.terms);
        lemma_common_denominator_positive(d.terms);
        lemma_gcd_with_one(a.0 as nat);
        lemma_gcd_with_one(b.0 as nat);
        lemma_scaled_wf(n.terms, Rational::spec_from_integer(a.0));
        assert(d.terms == zero_terms());
        lemma_zero_scaled(Rational::spec_from_integer(b.0));
        assert(b.1.terms == zero_terms());
        let whole = RatioView { numerator: a.1, denominator: b.1 };
        // negative degrees cleared
        let m1 = clearing(b.1.terms);
        lemma_negative_powers_wf(b.1.terms);
        let c1 = whole.both_times(m1).unwrap();
        lemma_zero_times(m1.terms);
        lemma_product_terms_wf(a.1.terms, m1.terms);
        assert(c1.denominator == z);
        let m2 = clearing(c1.numerator.terms);
        lemma_negative_powers_wf(c1.numerator.terms);
        let c = c1.both_times(m2).unwrap();
        lemma_zero_times(m2.terms);
        lemma_product_terms_wf(c1.numerator.terms, m2.terms);
        assert(c.denominator == z);
        assert(whole.cleared() == Ok::<RatioView, AlgebraError>(c));
        // the shared content cancelled
        lemma_zero_content();
        let ta = c.numerator.numbered_content().unwrap();
        crate::exact::lemma_product_exists(c1.numerator.terms, m2.terms);
        lemma_canonical_simplified(c.numerator);
        lemma_content_props(c.numerator);
        assert(terms_wf(seq![TermView::zero()]));
        lemma_zero_times(seq![TermView::zero()]);
        let inv = shared_term(ta.0, TermView::zero()).inverse().unwrap();
        lemma_shared_with_zero(ta.0);
        assert(terms_wf(seq![inv])) by {
            assert forall|i: int| 0 <= i < seq![inv].len() implies (#[trigger] seq![inv][i]).wf() by {}
        }
        lemma_zero_times(seq![inv]);
        let k = c.cancelled().unwrap();
        assert(k.denominator == z);
        // the coefficients scaled back
        lemma_spec_new_wf(1, b.0);
        lemma_zero_scaled(Rational::spec_new(1, b.0));
        let s = k.rescaled(a.0, b.0).unwrap();
        assert(s.denominator == z);
        lemma_canonical_simplified(z);
    }
}

} // verus!
