//! Lowest terms are kept: what the models of the operations give is in
//! lowest terms where their arguments are.

use crate::associate::lemma_zero_wf;
use crate::error::AlgebraError;
use crate::fold::try_map;
use crate::invariants::{lemma_nonzero_degrees_keeps, lemma_nonzero_terms_keeps};
use crate::laws::lemma_sort_keeps;
use crate::number::{lemma_lowest_terms, lemma_product_value, lemma_sum_value};
use crate::order::insertion_sort;
use crate::polynomial::{absorb_term, absorbing, append_row, by_rank, canonical_terms, cross_product, index_of_vars, lemma_index_of_vars, like_terms_added, nonzero_terms, normal_term, normalizing, or_zero, power_terms, product_terms, terms_wf, times, PolyView};
use crate::power::{has_root, is_root, root_of, Power};
use crate::rational::{lemma_gcd_with_one, magnitude, Rational};
use crate::term::{absorb, absorb_var, by_name, index_of_name, lemma_index_of_name, merge_names, nonzero_degrees, scale_by, scale_var, scaled_degrees, vars_wf, TermView, VarView};
use vstd::arithmetic::power::{lemma0_pow, lemma_pow_positive, pow};
use vstd::prelude::*;

verus! {

/// A fraction made of two numbers other than the least of `i64`, the
/// second not zero, is in lowest terms.
pub proof fn lemma_spec_new_wf(n: i64, d: i64)
    requires
        d != 0,
        n > i64::MIN,
        d > i64::MIN,
    ensures
        Rational::spec_new(n, d).wf(),
{
    lemma_lowest_terms(n as int, d as int);
}

/// The fraction one is in lowest terms.
pub proof fn lemma_one_wf()
    ensures
        Rational::spec_one().wf(),
{
    lemma_gcd_with_one(1);
}

/// `degree.wf()` as a property of variables.
pub open spec fn lowest_degree() -> spec_fn(VarView) -> bool {
    |v: VarView| v.degree.wf()
}

/// `wf` as a property of terms.
pub open spec fn lowest_term() -> spec_fn(TermView) -> bool {
    |t: TermView| t.wf()
}

/// Merging keeps degrees in lowest terms.
pub proof fn lemma_merge_wf(vars: Seq<VarView>)
    requires
        vars_wf(vars),
        merge_names(vars) is Ok,
    ensures
        vars_wf(merge_names(vars).unwrap()),
    decreases vars.len(),
{
    if vars.len() > 0 {
        let front = vars.drop_last();
        let last = vars.last();
        assert(absorb()(merge_names(front).unwrap(), last) == absorb_var(
            merge_names(front).unwrap(),
            last,
        ));
        assert(vars_wf(front)) by {
            assert forall|i: int| 0 <= i < front.len() implies (#[trigger] front[i]).degree.wf() by {
                assert(front[i] == vars[i]);
            }
        }
        lemma_merge_wf(front);
        let acc = merge_names(front).unwrap();
        let m = merge_names(vars).unwrap();
        lemma_index_of_name(acc, last.name);
        let i = index_of_name(acc, last.name);
        assert(vars[vars.len() - 1].degree.wf());
        if i >= 0 {
            assert(acc[i].degree.wf());
            lemma_sum_value(acc[i].degree, last.degree);
        }
        assert forall|k: int| 0 <= k < m.len() implies (#[trigger] m[k]).degree.wf() by {
            if k < acc.len() && k != i {
                assert(m[k] == acc[k]);
            }
        }
    }
}

/// Sorting and merging a term keeps it in lowest terms.
pub proof fn lemma_normal_term_wf(t: TermView)
    requires
        t.wf(),
        normal_term(t) is Ok,
    ensures
        normal_term(t).unwrap().wf(),
{
    assert forall|i: int| 0 <= i < t.variables.len() implies lowest_degree()(
        #[trigger] t.variables[i],
    ) by {
        assert(t.variables[i].degree.wf());
    }
    lemma_sort_keeps(t.variables, by_name(), lowest_degree());
    let sorted = insertion_sort(t.variables, by_name());
    assert(vars_wf(sorted)) by {
        assert forall|i: int| 0 <= i < sorted.len() implies (#[trigger] sorted[i]).degree.wf() by {
            assert(lowest_degree()(sorted[i]));
        }
    }
    lemma_merge_wf(sorted);
    let merged = merge_names(sorted).unwrap();
    assert forall|i: int| 0 <= i < merged.len() implies lowest_degree()(#[trigger] merged[i]) by {
        assert(merged[i].degree.wf());
    }
    lemma_nonzero_degrees_keeps(merged, lowest_degree());
    let out = nonzero_degrees(merged);
    assert forall|i: int| 0 <= i < out.len() implies (#[trigger] out[i]).degree.wf() by {
        assert(lowest_degree()(out[i]));
    }
}

/// Normalizing every term keeps the terms in lowest terms.
pub proof fn lemma_normalize_wf(terms: Seq<TermView>)
    requires
        terms_wf(terms),
        try_map(terms, normalizing()) is Ok,
    ensures
        terms_wf(try_map(terms, normalizing()).unwrap()),
    decreases terms.len(),
{
    if terms.len() > 0 {
        let front = terms.drop_last();
        assert(terms_wf(front)) by {
            assert forall|i: int| 0 <= i < front.len() implies (#[trigger] front[i]).wf() by {
                assert(front[i] == terms[i]);
            }
        }
        lemma_normalize_wf(front);
        assert(terms[terms.len() - 1].wf());
        assert(normalizing()(terms.last()) == normal_term(terms.last()));
        lemma_normal_term_wf(terms.last());
        let done = try_map(front, normalizing()).unwrap();
        let out = try_map(terms, normalizing()).unwrap();
        assert forall|i: int| 0 <= i < out.len() implies (#[trigger] out[i]).wf() by {
            if i < done.len() {
                assert(out[i] == done[i]);
            }
        }
    }
}

/// Adding like terms keeps the terms in lowest terms.
pub proof fn lemma_like_terms_wf(terms: Seq<TermView>)
    requires
        terms_wf(terms),
        like_terms_added(terms) is Ok,
    ensures
        terms_wf(like_terms_added(terms).unwrap()),
    decreases terms.len(),
{
    if terms.len() > 0 {
        let front = terms.drop_last();
        let last = terms.last();
        assert(absorbing()(like_terms_added(front).unwrap(), last) == absorb_term(
            like_terms_added(front).unwrap(),
            last,
        ));
        assert(terms_wf(front)) by {
            assert forall|i: int| 0 <= i < front.len() implies (#[trigger] front[i]).wf() by {
                assert(front[i] == terms[i]);
            }
        }
        lemma_like_terms_wf(front);
        let acc = like_terms_added(front).unwrap();
        let m = like_terms_added(terms).unwrap();
        lemma_index_of_vars(acc, last.variables);
        let i = index_of_vars(acc, last.variables);
        assert(terms[terms.len() - 1].wf());
        if i >= 0 {
            assert(acc[i].wf());
            lemma_sum_value(acc[i].coefficient, last.coefficient);
        }
        assert forall|k: int| 0 <= k < m.len() implies (#[trigger] m[k]).wf() by {
            if k < acc.len() && k != i {
                assert(m[k] == acc[k]);
            }
        }
    }
}

/// The zero term is in lowest terms.
pub proof fn lemma_zero_term_wf()
    ensures
        TermView::zero().wf(),
{
    lemma_zero_wf();
    assert(crate::polynomial::vars_wf_empty());
}

/// The canonical form of terms in lowest terms is in lowest terms.
pub proof fn lemma_canonical_terms_wf(terms: Seq<TermView>)
    requires
        terms_wf(terms),
        canonical_terms(terms) is Ok,
    ensures
        terms_wf(canonical_terms(terms).unwrap()),
{
    reveal(canonical_terms);
    lemma_normalize_wf(terms);
    let n = try_map(terms, normalizing()).unwrap();
    lemma_like_terms_wf(n);
    let m = like_terms_added(n).unwrap();
    assert forall|j: int| 0 <= j < m.len() implies lowest_term()(#[trigger] m[j]) by {
        assert(m[j].wf());
    }
    lemma_nonzero_terms_keeps(m, lowest_term());
    let z = nonzero_terms(m);
    let k = or_zero(z);
    lemma_zero_term_wf();
    assert forall|j: int| 0 <= j < k.len() implies lowest_term()(#[trigger] k[j]) by {
        if z.len() == 0 {
            assert(k[j] == TermView::zero());
        }
    }
    lemma_sort_keeps(k, by_rank(), lowest_term());
    let out = insertion_sort(k, by_rank());
    assert forall|j: int| 0 <= j < out.len() implies (#[trigger] out[j]).wf() by {
        assert(lowest_term()(out[j]));
    }
}

/// The product of two terms in lowest terms is in lowest terms.
pub proof fn lemma_term_product_wf(a: TermView, b: TermView)
    requires
        a.wf(),
        b.wf(),
        a.product(b) is Ok,
    ensures
        a.product(b).unwrap().wf(),
{
    lemma_product_value(a.coefficient, b.coefficient);
    let c = a.coefficient.spec_mul(b.coefficient).unwrap();
    let joined = TermView { coefficient: c, variables: a.variables + b.variables };
    assert forall|k: int| 0 <= k < joined.variables.len() implies (
    #[trigger] joined.variables[k]).degree.wf() by {
        if k < a.variables.len() {
            assert(joined.variables[k] == a.variables[k]);
        } else {
            assert(joined.variables[k] == b.variables[k - a.variables.len()]);
        }
    }
    assert(a.product(b) == normal_term(joined));
    lemma_normal_term_wf(joined);
}

/// The products of a term with each term of a list are in lowest terms.
pub proof fn lemma_row_wf(t: TermView, b: Seq<TermView>)
    requires
        t.wf(),
        terms_wf(b),
        try_map(b, times(t)) is Ok,
    ensures
        terms_wf(try_map(b, times(t)).unwrap()),
    decreases b.len(),
{
    if b.len() > 0 {
        let front = b.drop_last();
        assert(terms_wf(front)) by {
            assert forall|i: int| 0 <= i < front.len() implies (#[trigger] front[i]).wf() by {
                assert(front[i] == b[i]);
            }
        }
        lemma_row_wf(t, front);
        assert(times(t)(b.last()) == t.product(b.last()));
        assert(b[b.len() - 1].wf());
        lemma_term_product_wf(t, b.last());
        let done = try_map(front, times(t)).unwrap();
        let out = try_map(b, times(t)).unwrap();
        assert forall|i: int| 0 <= i < out.len() implies (#[trigger] out[i]).wf() by {
            if i < done.len() {
                assert(out[i] == done[i]);
            }
        }
    }
}

/// The cross product of two lists in lowest terms is in lowest terms.
pub proof fn lemma_cross_wf(a: Seq<TermView>, b: Seq<TermView>)
    requires
        terms_wf(a),
        terms_wf(b),
        cross_product(a, b) is Ok,
    ensures
        terms_wf(cross_product(a, b).unwrap()),
    decreases a.len(),
{
    if a.len() > 0 {
        let front = a.drop_last();
        assert(terms_wf(front)) by {
            assert forall|i: int| 0 <= i < front.len() implies (#[trigger] front[i]).wf() by {
                assert(front[i] == a[i]);
            }
        }
        let acc = cross_product(front, b).unwrap();
        assert(append_row(b)(acc, a.last()) == match try_map(b, times(a.last())) {
            Ok(row) => Ok::<Seq<TermView>, AlgebraError>(acc + row),
            Err(e) => Err(e),
        });
        lemma_cross_wf(front, b);
        assert(a[a.len() - 1].wf());
        lemma_row_wf(a.last(), b);
        let row = try_map(b, times(a.last())).unwrap();
        let out = cross_product(a, b).unwrap();
        assert forall|i: int| 0 <= i < out.len() implies (#[trigger] out[i]).wf() by {
            if i < acc.len() {
                assert(out[i] == acc[i]);
            } else {
                assert(out[i] == row[i - acc.len()]);
            }
        }
    }
}

/// The product of two lists in lowest terms is in lowest terms.
pub proof fn lemma_product_terms_wf(a: Seq<TermView>, b: Seq<TermView>)
    requires
        terms_wf(a),
        terms_wf(b),
        product_terms(a, b) is Ok,
    ensures
        terms_wf(product_terms(a, b).unwrap()),
{
    reveal(product_terms);
    lemma_cross_wf(a, b);
    lemma_canonical_terms_wf(cross_product(a, b).unwrap());
}

/// A power of a list in lowest terms is in lowest terms.
pub proof fn lemma_power_terms_wf(base: Seq<TermView>, n: nat)
    requires
        terms_wf(base),
        power_terms(base, n) is Ok,
    ensures
        terms_wf(power_terms(base, n).unwrap()),
    decreases n,
{
    if n >= 2 {
        lemma_power_terms_wf(base, (n - 1) as nat);
        lemma_product_terms_wf(power_terms(base, (n - 1) as nat).unwrap(), base);
    }
}

/// A root of a positive number is positive, and so are its powers.
pub proof fn lemma_root_power_positive(m: int, k: nat, e: nat)
    requires
        m > 0,
        k >= 1,
        has_root(m, k),
    ensures
        pow(root_of(m, k), e) >= 1,
{
    let r = root_of(m, k);
    assert(is_root(r, m, k));
    if r == 0 {
        lemma0_pow(k);
    }
    lemma_pow_positive(r, e);
}

/// An exact power of a fraction in lowest terms is in lowest terms.
pub proof fn lemma_pow_wf(c: Rational, q: Rational)
    requires
        c.wf(),
        q.wf(),
        c.spec_pow(q) matches Ok(Power::Exact(_)),
    ensures
        c.spec_pow(q) matches Ok(Power::Exact(x)) && x.wf(),
{
    lemma_one_wf();
    lemma_zero_wf();
    let k = q.denom as nat;
    let e = magnitude(q.numer as int);
    let n = magnitude(c.numer as int) as int;
    let d = c.denom as int;
    if q.numer != 0 && c.numer != 0 {
        lemma_root_power_positive(n, k, e);
        lemma_root_power_positive(d, k, e);
        let pn = pow(root_of(n, k), e);
        let pd = pow(root_of(d, k), e);
        let sn = if c.numer < 0 && e % 2 == 1 {
            0 - pn
        } else {
            pn
        };
        let sd = if c.numer < 0 && e % 2 == 1 {
            0 - pd
        } else {
            pd
        };
        if q.numer > 0 {
            lemma_spec_new_wf(sn as i64, pd as i64);
        } else {
            lemma_spec_new_wf(sd as i64, pn as i64);
        }
    }
}

/// Degrees multiplied by a fraction stay in lowest terms.
pub proof fn lemma_scaled_degrees_wf(vars: Seq<VarView>, q: Rational)
    requires
        vars_wf(vars),
        q.wf(),
        scaled_degrees(vars, q) is Ok,
    ensures
        vars_wf(scaled_degrees(vars, q).unwrap()),
    decreases vars.len(),
{
    if vars.len() > 0 {
        let front = vars.drop_last();
        assert(vars_wf(front)) by {
            assert forall|i: int| 0 <= i < front.len() implies (#[trigger] front[i]).degree.wf() by {
                assert(front[i] == vars[i]);
            }
        }
        lemma_scaled_degrees_wf(front, q);
        assert(scale_by(q)(vars.last()) == scale_var(vars.last(), q));
        assert(vars[vars.len() - 1].degree.wf());
        lemma_product_value(vars.last().degree, q);
        let done = scaled_degrees(front, q).unwrap();
        let out = scaled_degrees(vars, q).unwrap();
        assert forall|k: int| 0 <= k < out.len() implies (#[trigger] out[k]).degree.wf() by {
            if k < done.len() {
                assert(out[k] == done[k]);
            }
        }
    }
}

/// Applying the outer exponent keeps a polynomial in lowest terms.
pub proof fn lemma_raised_wf(p: PolyView)
    requires
        p.wf(),
        p.raised() is Ok,
    ensures
        p.raised().unwrap().wf(),
{
    lemma_one_wf();
    let r = p.raised().unwrap();
    if p.terms.len() == 1 {
        assert(p.terms[0].wf());
        if p.degree != Rational::spec_one() {
            if p.terms[0].try_power(p.degree) matches Ok(Some(_)) {
                let t = p.terms[0].try_power(p.degree).unwrap().unwrap();
                lemma_pow_wf(p.terms[0].coefficient, p.degree);
                lemma_scaled_degrees_wf(p.terms[0].variables, p.degree);
                assert(r.terms =~= seq![t]);
                assert forall|i: int| 0 <= i < r.terms.len() implies (#[trigger] r.terms[i]).wf() by {
                    assert(r.terms[i] == t);
                }
            }
        }
    } else if p.terms.len() >= 2 && p.degree.denom == 1 && p.degree.numer >= 2 {
        lemma_power_terms_wf(p.terms, p.degree.numer as nat);
    }
}

/// The canonical form of a polynomial in lowest terms is in lowest terms.
pub proof fn lemma_simplified_wf(p: PolyView)
    requires
        p.wf(),
        p.simplified() is Ok,
    ensures
        p.simplified().unwrap().wf(),
{
    reveal(PolyView::simplified);
    lemma_raised_wf(p);
    lemma_canonical_terms_wf(p.raised().unwrap().terms);
}

} // verus!
