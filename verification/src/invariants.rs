//! What the canonical form establishes: the proof that every list of terms
//! that comes out of it is canonical.

use crate::canonical::{all_normal, canonical, coefficients_nonzero, names_distinct, normal_vars, vars_distinct};
use crate::error::AlgebraError;
use crate::fold::try_map;
use crate::laws::lemma_sort_keeps;
use crate::order::{insert_sorted, insertion_sort, sorted_by, text_lt};
use crate::ordering::{all_good, insert_pos, lemma_insert_pos, lemma_sort_by_name_sorted, lemma_sort_by_rank_sorted, positive, positive_term, positive_terms, positive_vars};
use crate::polynomial::{absorb_term, absorbing, append_row, by_rank, canonical_terms, cross_product, lemma_index_of_vars, like_terms_added, nonzero_terms, normal_term, normalizing, or_zero, power_terms, product_terms, times};
use crate::term::{absorb, absorb_var, by_name, index_of_name, lemma_index_of_name, merge_names, nonzero_degrees, scale_by, scale_var, scaled_degrees, TermView, VarView};
use vstd::prelude::*;

verus! {

/// Every name of the merged variables is a name of the variables that were
/// merged: what holds of all of those holds of all of these.
pub proof fn lemma_merge_keeps_names(vars: Seq<VarView>, good: spec_fn(Seq<char>) -> bool)
    requires
        merge_names(vars) is Ok,
        forall|j: int| 0 <= j < vars.len() ==> good((#[trigger] vars[j]).name),
    ensures
        forall|k: int|
            0 <= k < merge_names(vars).unwrap().len() ==> good(
                (#[trigger] merge_names(vars).unwrap()[k]).name,
            ),
    decreases vars.len(),
{
    if vars.len() > 0 {
        let front = vars.drop_last();
        assert(absorb()(merge_names(front).unwrap(), vars.last()) == absorb_var(
            merge_names(front).unwrap(),
            vars.last(),
        ));
        assert forall|j: int| 0 <= j < front.len() implies good((#[trigger] front[j]).name) by {
            assert(front[j] == vars[j]);
        }
        lemma_merge_keeps_names(front, good);
        let acc = merge_names(front).unwrap();
        let m = merge_names(vars).unwrap();
        lemma_index_of_name(acc, vars.last().name);
        assert(good(vars[vars.len() - 1].name));
        assert forall|k: int| 0 <= k < m.len() implies good((#[trigger] m[k]).name) by {
            if k < acc.len() {
                assert(m[k].name == acc[k].name);
            }
        }
    }
}

/// Merging variables that are sorted by name gives one variable per name,
/// still sorted, and keeps denominators positive.
pub proof fn lemma_merge_props(vars: Seq<VarView>)
    requires
        sorted_by(vars, by_name()),
        positive_vars(vars),
        merge_names(vars) is Ok,
    ensures
        names_distinct(merge_names(vars).unwrap()),
        sorted_by(merge_names(vars).unwrap(), by_name()),
        positive_vars(merge_names(vars).unwrap()),
    decreases vars.len(),
{
    if vars.len() > 0 {
        let front = vars.drop_last();
        let last = vars.last();
        assert(absorb()(merge_names(front).unwrap(), last) == absorb_var(
            merge_names(front).unwrap(),
            last,
        ));
        assert(sorted_by(front, by_name())) by {
            assert forall|i: int, j: int| 0 <= i < j < front.len() implies !by_name()(
                #[trigger] front[j],
                #[trigger] front[i],
            ) by {
                assert(front[i] == vars[i]);
                assert(front[j] == vars[j]);
            }
        }
        assert(positive_vars(front)) by {
            assert forall|i: int| 0 <= i < front.len() implies positive(
                (#[trigger] front[i]).degree,
            ) by {
                assert(front[i] == vars[i]);
            }
        }
        lemma_merge_props(front);
        let acc = merge_names(front).unwrap();
        let m = merge_names(vars).unwrap();
        lemma_index_of_name(acc, last.name);
        let i = index_of_name(acc, last.name);
        assert(positive(vars[vars.len() - 1].degree));
        if i < 0 {
            let not_after = |n: Seq<char>| !text_lt(last.name, n);
            assert forall|j: int| 0 <= j < front.len() implies not_after(
                (#[trigger] front[j]).name,
            ) by {
                assert(front[j] == vars[j]);
                assert(!by_name()(vars[vars.len() - 1], vars[j]));
            }
            lemma_merge_keeps_names(front, not_after);
            assert forall|a: int, b: int| 0 <= a < b < m.len() implies !by_name()(
                #[trigger] m[b],
                #[trigger] m[a],
            ) by {
                assert(m[a] == acc[a]);
                if b < acc.len() {
                    assert(m[b] == acc[b]);
                } else {
                    assert(not_after(acc[a].name));
                }
            }
            assert forall|a: int, b: int| 0 <= a < b < m.len() implies (#[trigger] m[a]).name != (
            #[trigger] m[b]).name by {
                assert(m[a] == acc[a]);
                if b < acc.len() {
                    assert(m[b] == acc[b]);
                }
            }
            assert forall|k: int| 0 <= k < m.len() implies positive((#[trigger] m[k]).degree) by {
                if k < acc.len() {
                    assert(m[k] == acc[k]);
                }
            }
        } else {
            assert forall|a: int, b: int| 0 <= a < b < m.len() implies !by_name()(
                #[trigger] m[b],
                #[trigger] m[a],
            ) by {
                assert(m[a].name == acc[a].name);
                assert(m[b].name == acc[b].name);
                assert(!by_name()(acc[b], acc[a]));
            }
            assert forall|a: int, b: int| 0 <= a < b < m.len() implies (#[trigger] m[a]).name != (
            #[trigger] m[b]).name by {
                assert(m[a].name == acc[a].name);
                assert(m[b].name == acc[b].name);
            }
            assert forall|k: int| 0 <= k < m.len() implies positive((#[trigger] m[k]).degree) by {
                if k != i {
                    assert(m[k] == acc[k]);
                }
            }
        }
    }
}

/// Every variable that is left after zero degrees are dropped is one of
/// the variables before: what holds of all of those holds of all of these.
pub proof fn lemma_nonzero_degrees_keeps(vars: Seq<VarView>, good: spec_fn(VarView) -> bool)
    requires
        forall|j: int| 0 <= j < vars.len() ==> good(#[trigger] vars[j]),
    ensures
        forall|k: int| 0 <= k < nonzero_degrees(vars).len() ==> good(
            #[trigger] nonzero_degrees(vars)[k],
        ),
    decreases vars.len(),
{
    if vars.len() > 0 {
        let front = vars.drop_last();
        assert forall|j: int| 0 <= j < front.len() implies good(#[trigger] front[j]) by {
            assert(front[j] == vars[j]);
        }
        lemma_nonzero_degrees_keeps(front, good);
        assert(good(vars[vars.len() - 1]));
        let kept = nonzero_degrees(front);
        let out = nonzero_degrees(vars);
        assert forall|k: int| 0 <= k < out.len() implies good(#[trigger] out[k]) by {
            if k < kept.len() {
                assert(out[k] == kept[k]);
            }
        }
    }
}

/// Dropping zero degrees from sorted variables with distinct names gives
/// variables in canonical form.
pub proof fn lemma_nonzero_degrees_props(vars: Seq<VarView>)
    requires
        sorted_by(vars, by_name()),
        names_distinct(vars),
    ensures
        normal_vars(nonzero_degrees(vars)),
    decreases vars.len(),
{
    if vars.len() > 0 {
        let front = vars.drop_last();
        let last = vars.last();
        assert(sorted_by(front, by_name())) by {
            assert forall|i: int, j: int| 0 <= i < j < front.len() implies !by_name()(
                #[trigger] front[j],
                #[trigger] front[i],
            ) by {
                assert(front[i] == vars[i]);
                assert(front[j] == vars[j]);
            }
        }
        assert(names_distinct(front)) by {
            assert forall|i: int, j: int| 0 <= i < j < front.len() implies (#[trigger] front[i]).name
                != (#[trigger] front[j]).name by {
                assert(front[i] == vars[i]);
                assert(front[j] == vars[j]);
            }
        }
        lemma_nonzero_degrees_props(front);
        let kept = nonzero_degrees(front);
        let out = nonzero_degrees(vars);
        if last.degree.numer != 0 {
            let fits_before = |e: VarView| !text_lt(last.name, e.name) && e.name != last.name;
            assert forall|j: int| 0 <= j < front.len() implies fits_before(#[trigger] front[j]) by {
                assert(front[j] == vars[j]);
                assert(!by_name()(vars[vars.len() - 1], vars[j]));
                assert(vars[j].name != vars[vars.len() - 1].name);
            }
            lemma_nonzero_degrees_keeps(front, fits_before);
            assert forall|a: int, b: int| 0 <= a < b < out.len() implies !by_name()(
                #[trigger] out[b],
                #[trigger] out[a],
            ) by {
                assert(out[a] == kept[a]);
                if b < kept.len() {
                    assert(out[b] == kept[b]);
                } else {
                    assert(fits_before(kept[a]));
                }
            }
            assert forall|a: int, b: int| 0 <= a < b < out.len() implies (#[trigger] out[a]).name
                != (#[trigger] out[b]).name by {
                assert(out[a] == kept[a]);
                if b < kept.len() {
                    assert(out[b] == kept[b]);
                } else {
                    assert(fits_before(kept[a]));
                }
            }
            assert forall|k: int| 0 <= k < out.len() implies (#[trigger] out[k]).degree.numer
                != 0 by {
                if k < kept.len() {
                    assert(out[k] == kept[k]);
                }
            }
        }
    }
}

/// `positive` of a variable's degree, as a property of items.
pub open spec fn positive_degree() -> spec_fn(VarView) -> bool {
    |v: VarView| positive(v.degree)
}

/// Sorting and merging a term gives variables in canonical form and keeps
/// denominators positive.
pub proof fn lemma_normal_term_props(t: TermView)
    requires
        positive_vars(t.variables),
        normal_term(t) is Ok,
    ensures
        normal_vars(normal_term(t).unwrap().variables),
        positive_vars(normal_term(t).unwrap().variables),
{
    let sorted = insertion_sort(t.variables, by_name());
    lemma_sort_by_name_sorted(t.variables);
    lemma_sort_keeps(t.variables, by_name(), positive_degree());
    lemma_merge_props(sorted);
    let merged = merge_names(sorted).unwrap();
    lemma_nonzero_degrees_props(merged);
    lemma_nonzero_degrees_keeps(merged, positive_degree());
}

/// Normalizing every term gives terms with variables in canonical form and
/// keeps denominators positive.
pub proof fn lemma_normalize_props(terms: Seq<TermView>)
    requires
        all_good(terms, positive_terms()),
        try_map(terms, normalizing()) is Ok,
    ensures
        all_normal(try_map(terms, normalizing()).unwrap()),
        all_good(try_map(terms, normalizing()).unwrap(), positive_terms()),
    decreases terms.len(),
{
    if terms.len() > 0 {
        let front = terms.drop_last();
        assert(all_good(front, positive_terms())) by {
            assert forall|i: int| 0 <= i < front.len() implies positive_terms()(
                #[trigger] front[i],
            ) by {
                assert(front[i] == terms[i]);
            }
        }
        lemma_normalize_props(front);
        assert(positive_terms()(terms[terms.len() - 1]));
        assert(normalizing()(terms.last()) == normal_term(terms.last()));
        lemma_normal_term_props(terms.last());
        let done = try_map(front, normalizing()).unwrap();
        let out = try_map(terms, normalizing()).unwrap();
        assert forall|i: int| 0 <= i < out.len() implies normal_vars((#[trigger] out[i]).variables)
            && positive_terms()(out[i]) by {
            if i < done.len() {
                assert(out[i] == done[i]);
                assert(positive_terms()(done[i]));
            }
        }
    }
}

/// Every list of variables among the terms with like terms added is one
/// of the lists before: what holds of all of those holds of all of these.
pub proof fn lemma_like_terms_keep_vars(terms: Seq<TermView>, good: spec_fn(Seq<VarView>) -> bool)
    requires
        like_terms_added(terms) is Ok,
        forall|j: int| 0 <= j < terms.len() ==> good((#[trigger] terms[j]).variables),
    ensures
        forall|k: int|
            0 <= k < like_terms_added(terms).unwrap().len() ==> good(
                (#[trigger] like_terms_added(terms).unwrap()[k]).variables,
            ),
    decreases terms.len(),
{
    if terms.len() > 0 {
        let front = terms.drop_last();
        assert(absorbing()(like_terms_added(front).unwrap(), terms.last()) == absorb_term(
            like_terms_added(front).unwrap(),
            terms.last(),
        ));
        assert forall|j: int| 0 <= j < front.len() implies good((#[trigger] front[j]).variables) by {
            assert(front[j] == terms[j]);
        }
        lemma_like_terms_keep_vars(front, good);
        let acc = like_terms_added(front).unwrap();
        let m = like_terms_added(terms).unwrap();
        lemma_index_of_vars(acc, terms.last().variables);
        assert(good(terms[terms.len() - 1].variables));
        assert forall|k: int| 0 <= k < m.len() implies good((#[trigger] m[k]).variables) by {
            if k < acc.len() {
                assert(m[k].variables == acc[k].variables);
            }
        }
    }
}

/// With like terms added, no two terms have the same variables.
pub proof fn lemma_like_terms_distinct(terms: Seq<TermView>)
    requires
        like_terms_added(terms) is Ok,
    ensures
        vars_distinct(like_terms_added(terms).unwrap()),
    decreases terms.len(),
{
    if terms.len() > 0 {
        let front = terms.drop_last();
        assert(absorbing()(like_terms_added(front).unwrap(), terms.last()) == absorb_term(
            like_terms_added(front).unwrap(),
            terms.last(),
        ));
        lemma_like_terms_distinct(front);
        let acc = like_terms_added(front).unwrap();
        let m = like_terms_added(terms).unwrap();
        lemma_index_of_vars(acc, terms.last().variables);
        assert forall|a: int, b: int| 0 <= a < b < m.len() implies (#[trigger] m[a]).variables != (
        #[trigger] m[b]).variables by {
            assert(m[a].variables == acc[a].variables);
            if b < acc.len() {
                assert(m[b].variables == acc[b].variables);
            }
        }
    }
}

/// Every term that is left after zero terms are dropped is one of the
/// terms before: what holds of all of those holds of all of these.
pub proof fn lemma_nonzero_terms_keeps(terms: Seq<TermView>, good: spec_fn(TermView) -> bool)
    requires
        forall|j: int| 0 <= j < terms.len() ==> good(#[trigger] terms[j]),
    ensures
        forall|k: int| 0 <= k < nonzero_terms(terms).len() ==> good(
            #[trigger] nonzero_terms(terms)[k],
        ),
    decreases terms.len(),
{
    if terms.len() > 0 {
        let front = terms.drop_last();
        assert forall|j: int| 0 <= j < front.len() implies good(#[trigger] front[j]) by {
            assert(front[j] == terms[j]);
        }
        lemma_nonzero_terms_keeps(front, good);
        assert(good(terms[terms.len() - 1]));
        let kept = nonzero_terms(front);
        let out = nonzero_terms(terms);
        assert forall|k: int| 0 <= k < out.len() implies good(#[trigger] out[k]) by {
            if k < kept.len() {
                assert(out[k] == kept[k]);
            }
        }
    }
}

/// Dropping zero terms leaves no zero coefficient and keeps the variables
/// of the terms distinct.
pub proof fn lemma_nonzero_terms_props(terms: Seq<TermView>)
    requires
        vars_distinct(terms),
    ensures
        vars_distinct(nonzero_terms(terms)),
        coefficients_nonzero(nonzero_terms(terms)),
    decreases terms.len(),
{
    if terms.len() > 0 {
        let front = terms.drop_last();
        let last = terms.last();
        assert(vars_distinct(front)) by {
            assert forall|i: int, j: int| 0 <= i < j < front.len() implies (
            #[trigger] front[i]).variables != (#[trigger] front[j]).variables by {
                assert(front[i] == terms[i]);
                assert(front[j] == terms[j]);
            }
        }
        lemma_nonzero_terms_props(front);
        let kept = nonzero_terms(front);
        let out = nonzero_terms(terms);
        if last.coefficient.numer != 0 {
            let other = |e: TermView| e.variables != last.variables;
            assert forall|j: int| 0 <= j < front.len() implies other(#[trigger] front[j]) by {
                assert(front[j] == terms[j]);
                assert(terms[j].variables != terms[terms.len() - 1].variables);
            }
            lemma_nonzero_terms_keeps(front, other);
            assert forall|a: int, b: int| 0 <= a < b < out.len() implies (
            #[trigger] out[a]).variables != (#[trigger] out[b]).variables by {
                assert(out[a] == kept[a]);
                if b < kept.len() {
                    assert(out[b] == kept[b]);
                } else {
                    assert(other(kept[a]));
                }
            }
            assert forall|k: int| 0 <= k < out.len() implies (#[trigger] out[k]).coefficient.numer
                != 0 by {
                if k < kept.len() {
                    assert(out[k] == kept[k]);
                }
            }
        }
    }
}

/// Sorting keeps the variables of the terms distinct.
pub proof fn lemma_sort_keeps_distinct(terms: Seq<TermView>)
    requires
        vars_distinct(terms),
    ensures
        vars_distinct(insertion_sort(terms, by_rank())),
    decreases terms.len(),
{
    if terms.len() > 0 {
        let front = terms.drop_last();
        let last = terms.last();
        assert(vars_distinct(front)) by {
            assert forall|i: int, j: int| 0 <= i < j < front.len() implies (
            #[trigger] front[i]).variables != (#[trigger] front[j]).variables by {
                assert(front[i] == terms[i]);
                assert(front[j] == terms[j]);
            }
        }
        lemma_sort_keeps_distinct(front);
        let other = |e: TermView| e.variables != last.variables;
        assert forall|j: int| 0 <= j < front.len() implies other(#[trigger] front[j]) by {
            assert(front[j] == terms[j]);
            assert(terms[j].variables != terms[terms.len() - 1].variables);
        }
        lemma_sort_keeps(front, by_rank(), other);
        let s = insertion_sort(front, by_rank());
        lemma_insert_pos(s, last, by_rank());
        let p = insert_pos(s, last, by_rank());
        let r = s.insert(p, last);
        assert forall|a: int, b: int| 0 <= a < b < r.len() implies (#[trigger] r[a]).variables != (
        #[trigger] r[b]).variables by {
            let a0 = if a < p {
                a
            } else {
                a - 1
            };
            let b0 = if b < p {
                b
            } else {
                b - 1
            };
            if a == p {
                assert(r[b] == s[b0]);
                assert(other(s[b0]));
            } else if b == p {
                assert(r[a] == s[a0]);
                assert(other(s[a0]));
            } else {
                assert(r[a] == s[a0]);
                assert(r[b] == s[b0]);
            }
        }
    }
}

/// `normal_vars` of a term's variables, as a property of items.
pub open spec fn normal() -> spec_fn(TermView) -> bool {
    |t: TermView| normal_vars(t.variables)
}

/// A coefficient other than zero, as a property of items.
pub open spec fn nonzero() -> spec_fn(TermView) -> bool {
    |t: TermView| t.coefficient.numer != 0
}

/// Whatever list of terms with positive denominators is brought into
/// canonical form, the result is canonical, and its denominators are
/// positive.
pub proof fn lemma_canonical_output(terms: Seq<TermView>)
    requires
        all_good(terms, positive_terms()),
        canonical_terms(terms) is Ok,
    ensures
        canonical(canonical_terms(terms).unwrap()),
        all_good(canonical_terms(terms).unwrap(), positive_terms()),
{
    reveal(canonical_terms);
    let n = try_map(terms, normalizing()).unwrap();
    lemma_normalize_props(terms);
    let m = like_terms_added(n).unwrap();
    assert forall|j: int| 0 <= j < n.len() implies normal_vars((#[trigger] n[j]).variables) by {}
    lemma_like_terms_keep_vars(n, |v: Seq<VarView>| normal_vars(v));
    assert forall|j: int| 0 <= j < n.len() implies positive_vars((#[trigger] n[j]).variables) by {
        assert(positive_terms()(n[j]));
    }
    lemma_like_terms_keep_vars(n, |v: Seq<VarView>| positive_vars(v));
    lemma_like_terms_distinct(n);
    let z = nonzero_terms(m);
    lemma_nonzero_terms_props(m);
    assert forall|j: int| 0 <= j < m.len() implies normal()(#[trigger] m[j]) by {}
    lemma_nonzero_terms_keeps(m, normal());
    assert forall|j: int| 0 <= j < m.len() implies positive_terms()(#[trigger] m[j]) by {}
    lemma_nonzero_terms_keeps(m, positive_terms());
    let k = or_zero(z);
    assert(all_good(k, positive_terms()) && all_good(k, normal()) && vars_distinct(k)) by {
        if z.len() == 0 {
            assert(k[0] == TermView::zero());
        }
    }
    let out = insertion_sort(k, by_rank());
    lemma_sort_by_rank_sorted(k);
    lemma_sort_keeps(k, by_rank(), normal());
    lemma_sort_keeps_distinct(k);
    if z.len() == 0 {
        reveal_with_fuel(insertion_sort, 2);
        reveal_with_fuel(insert_sorted, 2);
        assert(k.drop_last() =~= Seq::<TermView>::empty());
        assert(out =~= seq![TermView::zero()]);
    } else {
        assert forall|j: int| 0 <= j < k.len() implies nonzero()(#[trigger] k[j]) by {}
        lemma_sort_keeps(k, by_rank(), nonzero());
        assert(coefficients_nonzero(out)) by {
            assert forall|i: int| 0 <= i < out.len() implies (#[trigger] out[i]).coefficient.numer
                != 0 by {
                assert(nonzero()(out[i]));
            }
        }
    }
    assert(all_normal(out)) by {
        assert forall|i: int| 0 <= i < out.len() implies normal_vars(
            (#[trigger] out[i]).variables,
        ) by {
            assert(normal()(out[i]));
        }
    }
}

/// Terms whose fractions are in lowest terms have positive denominators.
pub proof fn lemma_wf_positive(terms: Seq<TermView>)
    requires
        crate::polynomial::terms_wf(terms),
    ensures
        all_good(terms, positive_terms()),
{
    assert forall|i: int| 0 <= i < terms.len() implies positive_terms()(#[trigger] terms[i]) by {
        let t = terms[i];
        assert(t.wf());
        assert forall|k: int| 0 <= k < t.variables.len() implies positive(
            (#[trigger] t.variables[k]).degree,
        ) by {
            assert(t.variables[k].degree.wf());
        }
    }
}

/// Degrees multiplied by a fraction have positive denominators.
pub proof fn lemma_scaled_positive(vars: Seq<VarView>, q: crate::rational::Rational)
    requires
        scaled_degrees(vars, q) is Ok,
    ensures
        positive_vars(scaled_degrees(vars, q).unwrap()),
    decreases vars.len(),
{
    if vars.len() > 0 {
        let front = vars.drop_last();
        lemma_scaled_positive(front, q);
        assert(scale_by(q)(vars.last()) == scale_var(vars.last(), q));
        let done = scaled_degrees(front, q).unwrap();
        let out = scaled_degrees(vars, q).unwrap();
        assert forall|k: int| 0 <= k < out.len() implies positive((#[trigger] out[k]).degree) by {
            if k < done.len() {
                assert(out[k] == done[k]);
            }
        }
    }
}

/// The product of two terms with positive denominators has positive
/// denominators, and its variables are in canonical form.
pub proof fn lemma_product_props(a: TermView, b: TermView)
    requires
        positive_term(a),
        positive_term(b),
        a.product(b) is Ok,
    ensures
        positive_term(a.product(b).unwrap()),
        normal_vars(a.product(b).unwrap().variables),
{
    let c = a.coefficient.spec_mul(b.coefficient).unwrap();
    let joined = TermView { coefficient: c, variables: a.variables + b.variables };
    assert forall|k: int| 0 <= k < joined.variables.len() implies positive(
        (#[trigger] joined.variables[k]).degree,
    ) by {
        if k < a.variables.len() {
            assert(joined.variables[k] == a.variables[k]);
        } else {
            assert(joined.variables[k] == b.variables[k - a.variables.len()]);
        }
    }
    assert(a.product(b) == normal_term(joined));
    lemma_normal_term_props(joined);
}

/// The products of a term with each term of a list have positive
/// denominators.
pub proof fn lemma_row_positive(t: TermView, b: Seq<TermView>)
    requires
        positive_term(t),
        all_good(b, positive_terms()),
        try_map(b, times(t)) is Ok,
    ensures
        all_good(try_map(b, times(t)).unwrap(), positive_terms()),
    decreases b.len(),
{
    if b.len() > 0 {
        let front = b.drop_last();
        assert(all_good(front, positive_terms())) by {
            assert forall|i: int| 0 <= i < front.len() implies positive_terms()(
                #[trigger] front[i],
            ) by {
                assert(front[i] == b[i]);
            }
        }
        lemma_row_positive(t, front);
        assert(times(t)(b.last()) == t.product(b.last()));
        assert(positive_terms()(b[b.len() - 1]));
        lemma_product_props(t, b.last());
        let done = try_map(front, times(t)).unwrap();
        let out = try_map(b, times(t)).unwrap();
        assert forall|i: int| 0 <= i < out.len() implies positive_terms()(#[trigger] out[i]) by {
            if i < done.len() {
                assert(out[i] == done[i]);
                assert(positive_terms()(done[i]));
            }
        }
    }
}

/// The cross product of two lists with positive denominators has positive
/// denominators.
pub proof fn lemma_cross_positive(a: Seq<TermView>, b: Seq<TermView>)
    requires
        all_good(a, positive_terms()),
        all_good(b, positive_terms()),
        cross_product(a, b) is Ok,
    ensures
        all_good(cross_product(a, b).unwrap(), positive_terms()),
    decreases a.len(),
{
    if a.len() > 0 {
        let front = a.drop_last();
        assert(all_good(front, positive_terms())) by {
            assert forall|i: int| 0 <= i < front.len() implies positive_terms()(
                #[trigger] front[i],
            ) by {
                assert(front[i] == a[i]);
            }
        }
        let acc = cross_product(front, b).unwrap();
        assert(append_row(b)(acc, a.last()) == match try_map(b, times(a.last())) {
            Ok(row) => Ok::<Seq<TermView>, AlgebraError>(acc + row),
            Err(e) => Err(e),
        });
        lemma_cross_positive(front, b);
        assert(positive_terms()(a[a.len() - 1]));
        lemma_row_positive(a.last(), b);
        let row = try_map(b, times(a.last())).unwrap();
        let out = cross_product(a, b).unwrap();
        assert forall|i: int| 0 <= i < out.len() implies positive_terms()(#[trigger] out[i]) by {
            if i < acc.len() {
                assert(out[i] == acc[i]);
                assert(positive_terms()(acc[i]));
            } else {
                assert(out[i] == row[i - acc.len()]);
                assert(positive_terms()(row[i - acc.len()]));
            }
        }
    }
}

/// The product of two lists of terms with positive denominators is
/// canonical, with positive denominators.
pub proof fn lemma_product_terms_canonical(a: Seq<TermView>, b: Seq<TermView>)
    requires
        all_good(a, positive_terms()),
        all_good(b, positive_terms()),
        product_terms(a, b) is Ok,
    ensures
        canonical(product_terms(a, b).unwrap()),
        all_good(product_terms(a, b).unwrap(), positive_terms()),
{
    reveal(product_terms);
    lemma_cross_positive(a, b);
    lemma_canonical_output(cross_product(a, b).unwrap());
}

/// A power of a list of terms with positive denominators has positive
/// denominators, and from the second power on it is canonical.
pub proof fn lemma_power_terms_props(base: Seq<TermView>, n: nat)
    requires
        all_good(base, positive_terms()),
        power_terms(base, n) is Ok,
    ensures
        all_good(power_terms(base, n).unwrap(), positive_terms()),
        n >= 2 ==> canonical(power_terms(base, n).unwrap()),
    decreases n,
{
    if n >= 2 {
        lemma_power_terms_props(base, (n - 1) as nat);
        lemma_product_terms_canonical(power_terms(base, (n - 1) as nat).unwrap(), base);
    }
}

} // verus!
