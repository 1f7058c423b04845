//! The sum of three polynomials in canonical form does not depend on how
//! they are grouped, where both groupings exist.

use crate::canonical::{canonical, lemma_like_terms_fixed, lemma_normalize_fixed, vars_distinct};
use crate::commute::{combined, lemma_fold_is_combined, lemma_index_first, lemma_index_none, lemma_joined_props, lemma_sorted_props, lemma_try_fold_append, lemma_try_map_items, lemma_unmatched_holds, matched, matching, unmatched};
use crate::error::AlgebraError;
use crate::fold::try_map;
use crate::invariants::lemma_canonical_output;
use crate::number::{lemma_sum_associative, lemma_sum_value, lemma_sum_zero};
use crate::order::insertion_sort;
use crate::polynomial::{absorbing, by_rank, canonical_terms, index_of_vars, lemma_index_of_vars, like_terms_added, nonzero_terms, or_zero, terms_wf, PolyView};
use crate::rational::Rational;
use crate::term::{vars_wf, TermView, VarView};
use crate::unique::{degrees_wf, lemma_nonzero_holds, lemma_sort_holds, lemma_sorted_unique, same_terms};
use vstd::prelude::*;

verus! {

/// The coefficient of the first term with these variables; zero where
/// there is none.
pub open spec fn coefficient_of(s: Seq<TermView>, v: Seq<VarView>) -> Rational {
    let i = index_of_vars(s, v);
    if i >= 0 {
        s[i].coefficient
    } else {
        Rational::spec_zero()
    }
}

/// In a list with distinct variables, the coefficient found for the
/// variables of a term of the list is the coefficient of that term.
pub proof fn lemma_coefficient_of_member(s: Seq<TermView>, k: int)
    requires
        vars_distinct(s),
        0 <= k < s.len(),
    ensures
        index_of_vars(s, s[k].variables) == k,
        coefficient_of(s, s[k].variables) == s[k].coefficient,
{
    assert forall|m: int| 0 <= m < k implies (#[trigger] s[m]).variables != s[k].variables by {}
    lemma_index_first(s, s[k].variables, k);
}

/// The terms that are left of `b` have distinct variables.
pub proof fn lemma_unmatched_distinct(b: Seq<TermView>, a: Seq<TermView>)
    requires
        vars_distinct(b),
    ensures
        vars_distinct(unmatched(b, a)),
    decreases b.len(),
{
    if b.len() > 0 {
        let f = b.drop_last();
        assert(vars_distinct(f)) by {
            assert forall|i: int, j: int| 0 <= i < j < f.len() implies (#[trigger] f[i]).variables
                != (#[trigger] f[j]).variables by {
                assert(f[i] == b[i]);
                assert(f[j] == b[j]);
            }
        }
        lemma_unmatched_distinct(f, a);
        lemma_unmatched_holds(f, a);
        let u = unmatched(f, a);
        let out = unmatched(b, a);
        assert forall|i: int, j: int| 0 <= i < j < out.len() implies (#[trigger] out[i]).variables
            != (#[trigger] out[j]).variables by {
            assert(out[i] == u[i]);
            if j < u.len() {
                assert(out[j] == u[j]);
            } else {
                assert(f.contains(u[i]));
                let l = choose|l: int| 0 <= l < f.len() && f[l] == u[i];
                assert(b[l] == u[i]);
                assert(b[l].variables != b[b.len() - 1].variables);
            }
        }
    }
}

/// A fraction in lowest terms with the numerator zero is the fraction
/// zero.
pub proof fn lemma_zero_is_zero(q: Rational)
    requires
        q.wf(),
        q.numer == 0,
    ensures
        q == Rational::spec_zero(),
{
    reveal_with_fuel(crate::rational::gcd, 3);
}

/// The fraction zero is in lowest terms.
pub proof fn lemma_zero_wf()
    ensures
        Rational::spec_zero().wf(),
{
    reveal_with_fuel(crate::rational::gcd, 3);
}

/// With the like terms of two lists added, the coefficient found for any
/// variables is the sum of the coefficients found in the two lists.
pub proof fn lemma_combined_coefficient(a: Seq<TermView>, b: Seq<TermView>, v: Seq<VarView>)
    requires
        vars_distinct(a),
        vars_distinct(b),
        terms_wf(a),
        terms_wf(b),
        combined(a, b) is Ok,
    ensures
        coefficient_of(a, v).spec_add(coefficient_of(b, v)) == Ok::<Rational, AlgebraError>(
            coefficient_of(combined(a, b).unwrap(), v),
        ),
        coefficient_of(combined(a, b).unwrap(), v).wf(),
{
    let h = try_map(a, matching(b)).unwrap();
    let u = unmatched(b, a);
    let m = h + u;
    lemma_try_map_items(a, matching(b));
    lemma_unmatched_holds(b, a);
    lemma_unmatched_distinct(b, a);
    lemma_index_of_vars(a, v);
    lemma_index_of_vars(b, v);
    lemma_zero_wf();
    let i = index_of_vars(a, v);
    let j = index_of_vars(b, v);
    assert forall|k: int| 0 <= k < a.len() implies (#[trigger] h[k]).variables
        == a[k].variables by {
        assert(matching(b)(a[k]) == matched(a[k], b));
    }
    if i >= 0 {
        assert(a[i].wf());
        assert forall|k: int| 0 <= k < i implies (#[trigger] m[k]).variables != v by {
            assert(m[k] == h[k]);
            assert(a[k].variables != v);
        }
        assert(m[i] == h[i]);
        lemma_index_first(m, v, i);
        assert(matching(b)(a[i]) == matched(a[i], b));
        if j >= 0 {
            assert(b[j].wf());
            lemma_sum_value(a[i].coefficient, b[j].coefficient);
        } else {
            lemma_sum_zero(a[i].coefficient);
        }
    } else if j >= 0 {
        assert(b[j].wf());
        assert(u.contains(b[j]));
        let l = choose|l: int| 0 <= l < u.len() && u[l] == b[j];
        assert forall|k: int| 0 <= k < h.len() + l implies (#[trigger] m[k]).variables != v by {
            if k < h.len() {
                assert(m[k] == h[k]);
                assert(a[k].variables != v);
            } else {
                assert(m[k] == u[k - h.len()]);
                assert(u[k - h.len()].variables != u[l].variables);
            }
        }
        assert(m[h.len() + l] == u[l]);
        lemma_index_first(m, v, h.len() + l);
        lemma_sum_zero(b[j].coefficient);
    } else {
        assert forall|k: int| 0 <= k < m.len() implies (#[trigger] m[k]).variables != v by {
            if k < h.len() {
                assert(m[k] == h[k]);
                assert(a[k].variables != v);
            } else {
                assert(m[k] == u[k - h.len()]);
                assert(b.contains(u[k - h.len()]));
                let l = choose|l: int| 0 <= l < b.len() && b[l] == u[k - h.len()];
                assert(b[l].variables != v);
            }
        }
        lemma_index_none(m, v);
        lemma_sum_zero(Rational::spec_zero());
    }
}

/// With the like terms of two lists in lowest terms added, every term is
/// in lowest terms.
pub proof fn lemma_combined_wf(a: Seq<TermView>, b: Seq<TermView>)
    requires
        vars_distinct(a),
        vars_distinct(b),
        terms_wf(a),
        terms_wf(b),
        combined(a, b) is Ok,
    ensures
        terms_wf(combined(a, b).unwrap()),
{
    let h = try_map(a, matching(b)).unwrap();
    let u = unmatched(b, a);
    let m = h + u;
    lemma_try_map_items(a, matching(b));
    lemma_unmatched_holds(b, a);
    assert forall|k: int| 0 <= k < m.len() implies (#[trigger] m[k]).wf() by {
        if k < h.len() {
            assert(m[k] == h[k]);
            assert(matching(b)(a[k]) == matched(a[k], b));
            assert(a[k].wf());
            lemma_index_of_vars(b, a[k].variables);
            let j = index_of_vars(b, a[k].variables);
            if j >= 0 {
                assert(b[j].wf());
                lemma_sum_value(a[k].coefficient, b[j].coefficient);
            }
        } else {
            assert(m[k] == u[k - h.len()]);
            assert(b.contains(u[k - h.len()]));
            let l = choose|l: int| 0 <= l < b.len() && b[l] == u[k - h.len()];
            assert(b[l].wf());
        }
    }
}

/// What the last steps of the canonical form do to a list `m` with distinct
/// variables in lowest terms: the coefficient found for any variables
/// stays what it was, and every term stays in lowest terms.
pub proof fn lemma_sorted_coefficient(m: Seq<TermView>, v: Seq<VarView>)
    requires
        vars_distinct(m),
        terms_wf(m),
        vars_distinct(insertion_sort(or_zero(nonzero_terms(m)), by_rank())),
    ensures
        coefficient_of(insertion_sort(or_zero(nonzero_terms(m)), by_rank()), v) == coefficient_of(
            m,
            v,
        ),
{
    let z = nonzero_terms(m);
    let k = or_zero(z);
    let s = insertion_sort(k, by_rank());
    lemma_nonzero_holds(m);
    lemma_sort_holds(k);
    lemma_index_of_vars(m, v);
    lemma_index_of_vars(s, v);
    let i = index_of_vars(m, v);
    let j = index_of_vars(s, v);
    if j >= 0 {
        // the term found in `s` is a term of `m`, or the zero term
        assert(s.contains(s[j]));
        assert(k.contains(s[j]));
        if z.len() == 0 {
            let l = choose|l: int| 0 <= l < k.len() && k[l] == s[j];
            assert(s[j] == TermView::zero());
            if i >= 0 {
                assert(m[i].wf());
                if m[i].coefficient.numer != 0 {
                    assert(m.contains(m[i]));
                    assert(z.contains(m[i]));
                    let n = choose|n: int| 0 <= n < z.len() && z[n] == m[i];
                }
                lemma_zero_is_zero(m[i].coefficient);
            }
        } else {
            assert(z.contains(s[j]));
            assert(m.contains(s[j]));
            let l = choose|l: int| 0 <= l < m.len() && m[l] == s[j];
            lemma_coefficient_of_member(m, l);
        }
    } else if i >= 0 {
        assert(m[i].wf());
        if m[i].coefficient.numer != 0 {
            assert(m.contains(m[i]));
            assert(z.contains(m[i]));
            assert(k.contains(m[i]));
            assert(s.contains(m[i]));
            let l = choose|l: int| 0 <= l < s.len() && s[l] == m[i];
            assert(s[l].variables != v);
        }
        lemma_zero_is_zero(m[i].coefficient);
    }
}

/// Every term that is left after the last steps of the canonical form is
/// in lowest terms, where the terms before were.
pub proof fn lemma_sorted_wf(m: Seq<TermView>)
    requires
        terms_wf(m),
    ensures
        terms_wf(insertion_sort(or_zero(nonzero_terms(m)), by_rank())),
{
    let z = nonzero_terms(m);
    let k = or_zero(z);
    let s = insertion_sort(k, by_rank());
    lemma_nonzero_holds(m);
    lemma_sort_holds(k);
    lemma_zero_wf();
    assert forall|i: int| 0 <= i < s.len() implies (#[trigger] s[i]).wf() by {
        assert(s.contains(s[i]));
        assert(k.contains(s[i]));
        let l = choose|l: int| 0 <= l < k.len() && k[l] == s[i];
        if z.len() == 0 {
            assert(s[i] == TermView::zero());
            assert(crate::polynomial::vars_wf_empty());
        } else {
            assert(z.contains(s[i]));
            assert(m.contains(s[i]));
            let n = choose|n: int| 0 <= n < m.len() && m[n] == s[i];
            assert(m[n].wf());
        }
    }
}

/// The sum of two canonical lists: it is in lowest terms, and the
/// coefficient it has for any variables is the sum of the coefficients of
/// the two.
pub proof fn lemma_sum_coefficient(a: Seq<TermView>, b: Seq<TermView>, v: Seq<VarView>)
    requires
        canonical(a),
        canonical(b),
        terms_wf(a),
        terms_wf(b),
        canonical_terms(a + b) is Ok,
    ensures
        coefficient_of(a, v).spec_add(coefficient_of(b, v)) == Ok::<Rational, AlgebraError>(
            coefficient_of(canonical_terms(a + b).unwrap(), v),
        ),
        terms_wf(canonical_terms(a + b).unwrap()),
        canonical(canonical_terms(a + b).unwrap()),
{
    reveal(canonical_terms);
    lemma_joined_props(a, b);
    lemma_normalize_fixed(a + b);
    lemma_try_fold_append(a, b, Seq::<TermView>::empty(), absorbing());
    lemma_like_terms_fixed(a);
    lemma_fold_is_combined(a, b);
    assert(like_terms_added(a + b) == combined(a, b));
    let m = combined(a, b).unwrap();
    lemma_combined_coefficient(a, b, v);
    lemma_combined_wf(a, b);
    lemma_sorted_props(a + b, m);
    crate::invariants::lemma_like_terms_distinct(a + b);
    lemma_sorted_coefficient(m, v);
    lemma_sorted_wf(m);
    lemma_canonical_output(a + b);
}

/// Two canonical lists that have the same coefficient for all variables
/// hold the same terms.
pub proof fn lemma_same_coefficients(s: Seq<TermView>, t: Seq<TermView>)
    requires
        canonical(s),
        canonical(t),
        forall|v: Seq<VarView>| coefficient_of(s, v) == #[trigger] coefficient_of(t, v),
    ensures
        forall|y: TermView| s.contains(y) ==> #[trigger] t.contains(y),
{
    assert forall|y: TermView| s.contains(y) implies #[trigger] t.contains(y) by {
        let k = choose|k: int| 0 <= k < s.len() && s[k] == y;
        lemma_coefficient_of_member(s, k);
        assert(coefficient_of(s, y.variables) == coefficient_of(t, y.variables));
        lemma_index_of_vars(t, y.variables);
        let i = index_of_vars(t, y.variables);
        if y.coefficient.numer != 0 {
            assert(i >= 0);
            assert(t[i] == y);
        } else {
            assert(s == seq![TermView::zero()]);
            assert(y == TermView::zero());
            if t != seq![TermView::zero()] {
                lemma_coefficient_of_member(t, 0);
                assert(coefficient_of(s, t[0].variables) == coefficient_of(t, t[0].variables));
                lemma_index_of_vars(s, t[0].variables);
                assert(t[0].coefficient.numer != 0);
                assert(false);
            }
            assert(t[0] == y);
        }
    }
}

/// The sum of three polynomials in canonical form is the same in both
/// groupings, where all the sums on the way exist.
pub proof fn lemma_add_associative(a: PolyView, b: PolyView, c: PolyView)
    requires
        a.wf(),
        b.wf(),
        c.wf(),
        canonical(a.terms),
        canonical(b.terms),
        canonical(c.terms),
        a.sum(b) is Ok,
        a.sum(b).unwrap().sum(c) is Ok,
        b.sum(c) is Ok,
        a.sum(b.sum(c).unwrap()) is Ok,
    ensures
        a.sum(b).unwrap().sum(c) == a.sum(b.sum(c).unwrap()),
{
    let ab = canonical_terms(a.terms + b.terms).unwrap();
    let bc = canonical_terms(b.terms + c.terms).unwrap();
    let none = Seq::<VarView>::empty();
    lemma_sum_coefficient(a.terms, b.terms, none);
    lemma_sum_coefficient(b.terms, c.terms, none);
    let l = canonical_terms(ab + c.terms).unwrap();
    let r = canonical_terms(a.terms + bc).unwrap();
    lemma_sum_coefficient(ab, c.terms, none);
    lemma_sum_coefficient(a.terms, bc, none);
    lemma_zero_wf();
    assert forall|v: Seq<VarView>| coefficient_of(l, v) == #[trigger] coefficient_of(r, v) by {
        lemma_sum_coefficient(a.terms, b.terms, v);
        lemma_sum_coefficient(b.terms, c.terms, v);
        lemma_sum_coefficient(ab, c.terms, v);
        lemma_sum_coefficient(a.terms, bc, v);
        lemma_coefficient_wf(a.terms, v);
        lemma_coefficient_wf(b.terms, v);
        lemma_coefficient_wf(c.terms, v);
        lemma_sum_associative(
            coefficient_of(a.terms, v),
            coefficient_of(b.terms, v),
            coefficient_of(c.terms, v),
        );
    }
    assert forall|v: Seq<VarView>| coefficient_of(r, v) == #[trigger] coefficient_of(l, v) by {
        assert(coefficient_of(l, v) == coefficient_of(r, v));
    }
    lemma_same_coefficients(l, r);
    lemma_same_coefficients(r, l);
    assert(same_terms(l, r));
    lemma_terms_degrees_wf(l);
    lemma_terms_degrees_wf(r);
    lemma_sorted_unique(l, r);
}

/// The coefficient found in a list in lowest terms is in lowest terms.
pub proof fn lemma_coefficient_wf(s: Seq<TermView>, v: Seq<VarView>)
    requires
        terms_wf(s),
    ensures
        coefficient_of(s, v).wf(),
{
    lemma_index_of_vars(s, v);
    lemma_zero_wf();
    let i = index_of_vars(s, v);
    if i >= 0 {
        assert(s[i].wf());
    }
}

/// Terms in lowest terms have their degrees in lowest terms.
pub proof fn lemma_terms_degrees_wf(s: Seq<TermView>)
    requires
        terms_wf(s),
    ensures
        degrees_wf(s),
{
    assert forall|i: int| 0 <= i < s.len() implies vars_wf((#[trigger] s[i]).variables) by {
        assert(s[i].wf());
    }
}

} // verus!
