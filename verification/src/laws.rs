//! What holds of the operations of this library, proved over their models.

use crate::canonical::{all_normal, canonical, coefficients_nonzero, lemma_canonical_fixed, normal_vars, vars_distinct};
use crate::error::AlgebraError;
use crate::invariants::{lemma_canonical_output, lemma_power_terms_props, lemma_product_terms_canonical, lemma_scaled_positive, lemma_wf_positive};
use crate::order::{insert_sorted, insertion_sort, sorted_by};
use crate::ordering::{all_good, positive, positive_terms};
use crate::polynomial::{by_rank, canonical_terms, PolyView};
use crate::term::{by_name, vars_wf, TermView, VarView};
use vstd::prelude::*;

verus! {

/// Insertion keeps the items: what holds of every item before, and of the
/// new one, holds of every item after.
pub proof fn lemma_insert_keeps<T>(
    s: Seq<T>,
    x: T,
    lt: spec_fn(T, T) -> bool,
    good: spec_fn(T) -> bool,
)
    requires
        forall|i: int| 0 <= i < s.len() ==> good(#[trigger] s[i]),
        good(x),
    ensures
        insert_sorted(s, x, lt).len() == s.len() + 1,
        forall|i: int|
            0 <= i < insert_sorted(s, x, lt).len() ==> good(#[trigger] insert_sorted(s, x, lt)[i]),
    decreases s.len(),
{
    if s.len() > 0 && lt(x, s.last()) {
        lemma_insert_keeps(s.drop_last(), x, lt, good);
    }
}

/// Sorting keeps the items: what holds of every item before holds of every
/// item after.
pub proof fn lemma_sort_keeps<T>(s: Seq<T>, lt: spec_fn(T, T) -> bool, good: spec_fn(T) -> bool)
    requires
        forall|i: int| 0 <= i < s.len() ==> good(#[trigger] s[i]),
    ensures
        insertion_sort(s, lt).len() == s.len(),
        forall|i: int|
            0 <= i < insertion_sort(s, lt).len() ==> good(#[trigger] insertion_sort(s, lt)[i]),
    decreases s.len(),
{
    if s.len() > 0 {
        lemma_sort_keeps(s.drop_last(), lt, good);
        lemma_insert_keeps(insertion_sort(s.drop_last(), lt), s.last(), lt, good);
    }
}

/// Sorting variables by name keeps their degrees in lowest terms.
pub proof fn lemma_sort_keeps_wf(vars: Seq<VarView>)
    requires
        vars_wf(vars),
    ensures
        vars_wf(insertion_sort(vars, by_name())),
        insertion_sort(vars, by_name()).len() == vars.len(),
{
    lemma_sort_keeps(vars, by_name(), |v: VarView| v.degree.wf());
}

/// Applying the outer exponent keeps denominators positive.
pub proof fn lemma_raised_positive(p: PolyView)
    requires
        p.wf(),
        p.raised() is Ok,
    ensures
        all_good(p.raised().unwrap().terms, positive_terms()),
{
    lemma_wf_positive(p.terms);
    let r = p.raised().unwrap();
    if p.terms.len() == 1 {
        if p.degree != crate::rational::Rational::spec_one() {
            if p.terms[0].try_power(p.degree) matches Ok(Some(_)) {
                let t = p.terms[0].try_power(p.degree).unwrap().unwrap();
                lemma_scaled_positive(p.terms[0].variables, p.degree);
                assert(r.terms =~= seq![t]);
                assert forall|i: int| 0 <= i < r.terms.len() implies positive_terms()(
                    #[trigger] r.terms[i],
                ) by {
                    assert(r.terms[i] == t);
                }
            }
        }
    } else if p.terms.len() >= 2 && p.degree.denom == 1 && p.degree.numer >= 2 {
        lemma_power_terms_props(p.terms, p.degree.numer as nat);
    }
}

/// The canonical form of a polynomial is canonical: it has a term, every
/// term has its variables sorted by name, one per name and none of degree
/// zero, no two terms have the same variables, no coefficient is zero
/// unless the zero term stands alone, and the terms are sorted.
pub proof fn lemma_simplified_is_canonical(p: PolyView)
    requires
        p.wf(),
        p.simplified() is Ok,
    ensures
        canonical(p.simplified().unwrap().terms),
        p.simplified().unwrap().terms.len() >= 1,
{
    reveal(PolyView::simplified);
    lemma_raised_positive(p);
    lemma_canonical_output(p.raised().unwrap().terms);
}

/// Bringing a polynomial into canonical form a second time changes
/// nothing, provided that the first result leaves no power to apply: its
/// outer exponent is one, or cannot be applied to it.
pub proof fn lemma_simplify_idempotent(p: PolyView)
    requires
        p.wf(),
        p.simplified() is Ok,
        p.simplified().unwrap().raised() == Ok::<PolyView, AlgebraError>(p.simplified().unwrap()),
    ensures
        p.simplified().unwrap().simplified() == p.simplified(),
{
    let q = p.simplified().unwrap();
    lemma_simplified_is_canonical(p);
    lemma_canonical_fixed(q.terms);
    reveal(PolyView::simplified);
}

/// A polynomial without terms has the zero term alone as its canonical
/// form, whatever its outer exponent.
pub proof fn lemma_simplify_of_nothing(degree: crate::rational::Rational)
    ensures
        (PolyView { terms: Seq::empty(), degree }).simplified() == Ok::<PolyView, AlgebraError>(
            PolyView { terms: seq![TermView::zero()], degree },
        ),
{
    reveal(PolyView::simplified);
    reveal(canonical_terms);
    let none = Seq::<TermView>::empty();
    reveal_with_fuel(crate::fold::try_map, 2);
    reveal_with_fuel(crate::fold::try_fold, 2);
    reveal_with_fuel(crate::polynomial::nonzero_terms, 2);
    reveal_with_fuel(insertion_sort, 2);
    reveal_with_fuel(insert_sorted, 2);
    let one = seq![TermView::zero()];
    assert(one.drop_last() =~= none);
    assert(insertion_sort(one, crate::polynomial::by_rank()) =~= one);
}

/// A sum is in canonical form, and bringing it into canonical form again
/// changes nothing.
pub proof fn lemma_sum_is_canonical(a: PolyView, b: PolyView)
    requires
        a.wf(),
        b.wf(),
        a.sum(b) is Ok,
    ensures
        canonical(a.sum(b).unwrap().terms),
        a.sum(b).unwrap().simplified() == a.sum(b),
{
    lemma_wf_positive(a.terms);
    lemma_wf_positive(b.terms);
    let joined = a.terms + b.terms;
    assert forall|i: int| 0 <= i < joined.len() implies positive_terms()(#[trigger] joined[i]) by {
        if i < a.terms.len() {
            assert(joined[i] == a.terms[i]);
            assert(positive_terms()(a.terms[i]));
        } else {
            assert(joined[i] == b.terms[i - a.terms.len()]);
            assert(positive_terms()(b.terms[i - a.terms.len()]));
        }
    }
    lemma_canonical_output(joined);
    lemma_canonical_fixed(a.sum(b).unwrap().terms);
    reveal(PolyView::simplified);
}

/// A product is in canonical form, and bringing it into canonical form
/// again changes nothing.
pub proof fn lemma_product_is_canonical(a: PolyView, b: PolyView)
    requires
        a.wf(),
        b.wf(),
        a.product(b) is Ok,
    ensures
        canonical(a.product(b).unwrap().terms),
        a.product(b).unwrap().simplified() == a.product(b),
{
    lemma_wf_positive(a.terms);
    lemma_wf_positive(b.terms);
    lemma_product_terms_canonical(a.terms, b.terms);
    lemma_canonical_fixed(a.product(b).unwrap().terms);
    reveal(PolyView::simplified);
}

/// Zero over zero stays as it is, and bringing it into canonical form a
/// second time changes nothing, provided that no power is left to apply on
/// either side.
pub proof fn lemma_zero_over_zero_stays(r: crate::ratio::RatioView)
    requires
        r.wf(),
        r.simplified() is Ok,
        r.numerator.simplified() is Ok,
        r.numerator.simplified().unwrap().is_zero(),
        r.denominator.simplified() is Ok,
        r.denominator.simplified().unwrap().is_zero(),
        r.simplified().unwrap().numerator.raised() == Ok::<PolyView, AlgebraError>(
            r.simplified().unwrap().numerator,
        ),
        r.simplified().unwrap().denominator.raised() == Ok::<PolyView, AlgebraError>(
            r.simplified().unwrap().denominator,
        ),
    ensures
        r.simplified().unwrap().numerator.is_zero(),
        r.simplified().unwrap().denominator.is_zero(),
        r.simplified().unwrap().simplified() == r.simplified(),
{
    reveal(crate::ratio::RatioView::simplified);
    lemma_simplify_idempotent(r.numerator);
    lemma_simplify_idempotent(r.denominator);
}

/// Where the long division is entered and comes to its end within the
/// steps it may take, the ratio is the quotient, in canonical form, over
/// one.
pub proof fn lemma_division_gives_quotient(a: PolyView, b: PolyView, steps: nat)
    requires
        a.divided_by(b, steps) is Ok,
        !a.simplified().unwrap().is_zero(),
        !b.simplified().unwrap().is_zero(),
        !a.simplified().unwrap().max_degree().spec_lt(b.simplified().unwrap().max_degree()),
    ensures
        a.divided_by(b, steps).unwrap().denominator == crate::ratio::RatioView::unit(),
        crate::division::long_division(
            PolyView::plain(Seq::empty()),
            a.simplified().unwrap(),
            b.simplified().unwrap(),
            steps,
        ) is Ok,
        Ok::<PolyView, AlgebraError>(a.divided_by(b, steps).unwrap().numerator)
            == crate::division::long_division(
            PolyView::plain(Seq::empty()),
            a.simplified().unwrap(),
            b.simplified().unwrap(),
            steps,
        ).unwrap().simplified(),
{
}

/// The sum of two polynomials that share no list of variables merges
/// nothing: it holds every term of both as it was, as many terms as both
/// have together, sorted with the greater `max_degree` first and then the
/// lesser list of variables. This is stated for terms with their
/// variables in canonical form and coefficients other than zero; the
/// outer exponents of the two do not enter.
pub proof fn lemma_sum_without_merges(a: PolyView, b: PolyView)
    requires
        a.wf(),
        b.wf(),
        a.terms.len() + b.terms.len() >= 1,
        all_normal(a.terms),
        all_normal(b.terms),
        vars_distinct(a.terms),
        vars_distinct(b.terms),
        coefficients_nonzero(a.terms),
        coefficients_nonzero(b.terms),
        forall|i: int, j: int|
            0 <= i < a.terms.len() && 0 <= j < b.terms.len() ==> (#[trigger] a.terms[i]).variables != (
            #[trigger] b.terms[j]).variables,
    ensures
        a.sum(b) is Ok,
        a.sum(b).unwrap().terms == insertion_sort(a.terms + b.terms, by_rank()),
        a.sum(b).unwrap().terms.len() == a.terms.len() + b.terms.len(),
        sorted_by(a.sum(b).unwrap().terms, by_rank()),
        canonical(a.sum(b).unwrap().terms),
        forall|i: int| 0 <= i < a.terms.len() ==> a.sum(b).unwrap().terms.contains(#[trigger] a.terms[i]),
        forall|j: int| 0 <= j < b.terms.len() ==> a.sum(b).unwrap().terms.contains(#[trigger] b.terms[j]),
{
    let s = a.terms + b.terms;
    let n = a.terms.len() as int;
    assert forall|i: int| 0 <= i < s.len() implies normal_vars((#[trigger] s[i]).variables)
        && s[i].coefficient.numer != 0 && s[i].wf() by {
        if i < n {
            assert(s[i] == a.terms[i]);
        } else {
            assert(s[i] == b.terms[i - n]);
        }
    }
    assert forall|i: int, j: int| 0 <= i < j < s.len() implies (#[trigger] s[i]).variables != (
    #[trigger] s[j]).variables by {
        if j < n {
            assert(s[i] == a.terms[i] && s[j] == a.terms[j]);
        } else if i >= n {
            assert(s[i] == b.terms[i - n] && s[j] == b.terms[j - n]);
        } else {
            assert(s[i] == a.terms[i] && s[j] == b.terms[j - n]);
        }
    }
    crate::roundtrip::lemma_canonical_is_sort(s);
    crate::roundtrip::lemma_sort_props(s);
    let out = insertion_sort(s, by_rank());
    assert forall|i: int| 0 <= i < a.terms.len() implies out.contains(#[trigger] a.terms[i]) by {
        assert(s[i] == a.terms[i]);
        assert(s.contains(a.terms[i]));
    }
    assert forall|j: int| 0 <= j < b.terms.len() implies out.contains(#[trigger] b.terms[j]) by {
        assert(s[n + j] == b.terms[j]);
        assert(s.contains(b.terms[j]));
    }
}

} // verus!
