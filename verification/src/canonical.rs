//! The canonical form of a list of terms, as a property, and the proof that
//! bringing a list into canonical form leaves a canonical list as it is.

use crate::error::AlgebraError;
use crate::fold::try_map;
use crate::order::{lemma_sort_of_sorted, sorted_by};
use crate::polynomial::{absorb_term, absorbing, by_rank, canonical_terms, index_of_vars, lemma_index_of_vars, like_terms_added, nonzero_terms, normal_term, normalizing, or_zero};
use crate::term::{absorb, absorb_var, by_name, index_of_name, lemma_index_of_name, merge_names, nonzero_degrees, TermView, VarView};
use vstd::prelude::*;

verus! {

/// No two variables have the same name.
pub open spec fn names_distinct(vars: Seq<VarView>) -> bool {
    forall|i: int, j: int|
        0 <= i < j < vars.len() ==> (#[trigger] vars[i]).name != (#[trigger] vars[j]).name
}

/// No degree is zero.
pub open spec fn degrees_nonzero(vars: Seq<VarView>) -> bool {
    forall|i: int| 0 <= i < vars.len() ==> (#[trigger] vars[i]).degree.numer != 0
}

/// The variables of a term in canonical form: sorted by name, one variable
/// per name, no degree zero.
pub open spec fn normal_vars(vars: Seq<VarView>) -> bool {
    &&& sorted_by(vars, by_name())
    &&& names_distinct(vars)
    &&& degrees_nonzero(vars)
}

/// Every term has its variables in canonical form.
pub open spec fn all_normal(terms: Seq<TermView>) -> bool {
    forall|i: int| 0 <= i < terms.len() ==> normal_vars((#[trigger] terms[i]).variables)
}

/// No two terms have the same variables.
pub open spec fn vars_distinct(terms: Seq<TermView>) -> bool {
    forall|i: int, j: int|
        0 <= i < j < terms.len() ==> (#[trigger] terms[i]).variables != (
        #[trigger] terms[j]).variables
}

/// No coefficient is zero.
pub open spec fn coefficients_nonzero(terms: Seq<TermView>) -> bool {
    forall|i: int| 0 <= i < terms.len() ==> (#[trigger] terms[i]).coefficient.numer != 0
}

/// The canonical form of a list of terms: at least one term; every term
/// with its variables in canonical form; no two terms with the same
/// variables; no coefficient zero, unless the list is the zero term alone;
/// the terms sorted.
pub open spec fn canonical(terms: Seq<TermView>) -> bool {
    &&& terms.len() >= 1
    &&& all_normal(terms)
    &&& vars_distinct(terms)
    &&& (terms == seq![TermView::zero()] || coefficients_nonzero(terms))
    &&& sorted_by(terms, by_rank())
}

/// Merging leaves variables in canonical form as they are.
pub proof fn lemma_merge_of_normal(vars: Seq<VarView>)
    requires
        names_distinct(vars),
    ensures
        merge_names(vars) == Ok::<Seq<VarView>, AlgebraError>(vars),
    decreases vars.len(),
{
    if vars.len() == 0 {
        assert(vars =~= Seq::<VarView>::empty());
    } else {
        let front = vars.drop_last();
        assert(names_distinct(front)) by {
            assert forall|i: int, j: int| 0 <= i < j < front.len() implies (#[trigger] front[i]).name
                != (#[trigger] front[j]).name by {
                assert(front[i] == vars[i]);
                assert(front[j] == vars[j]);
            }
        }
        lemma_merge_of_normal(front);
        lemma_index_of_name(front, vars.last().name);
        if index_of_name(front, vars.last().name) >= 0 {
            let k = index_of_name(front, vars.last().name);
            assert(front[k] == vars[k]);
            assert(vars[k].name != vars[vars.len() - 1].name);
        }
        assert(absorb()(front, vars.last()) == absorb_var(front, vars.last()));
        assert(front.push(vars.last()) =~= vars);
    }
}

/// Dropping zero degrees leaves variables without zero degrees as they are.
pub proof fn lemma_nonzero_degrees_fixed(vars: Seq<VarView>)
    requires
        degrees_nonzero(vars),
    ensures
        nonzero_degrees(vars) == vars,
    decreases vars.len(),
{
    if vars.len() > 0 {
        let front = vars.drop_last();
        assert(degrees_nonzero(front)) by {
            assert forall|i: int| 0 <= i < front.len() implies (#[trigger] front[i]).degree.numer
                != 0 by {
                assert(front[i] == vars[i]);
            }
        }
        lemma_nonzero_degrees_fixed(front);
        assert(vars[vars.len() - 1].degree.numer != 0);
        assert(front.push(vars.last()) =~= vars);
    }
}

/// Sorting and merging leaves a term with variables in canonical form as
/// it is.
pub proof fn lemma_normal_term_fixed(t: TermView)
    requires
        normal_vars(t.variables),
    ensures
        normal_term(t) == Ok::<TermView, AlgebraError>(t),
{
    lemma_sort_of_sorted(t.variables, by_name());
    lemma_merge_of_normal(t.variables);
    lemma_nonzero_degrees_fixed(t.variables);
}

/// Normalizing every term leaves terms in canonical form as they are.
pub proof fn lemma_normalize_fixed(terms: Seq<TermView>)
    requires
        all_normal(terms),
    ensures
        try_map(terms, normalizing()) == Ok::<Seq<TermView>, AlgebraError>(terms),
    decreases terms.len(),
{
    if terms.len() == 0 {
        assert(terms =~= Seq::<TermView>::empty());
    } else {
        let front = terms.drop_last();
        assert(all_normal(front)) by {
            assert forall|i: int| 0 <= i < front.len() implies normal_vars(
                (#[trigger] front[i]).variables,
            ) by {
                assert(front[i] == terms[i]);
            }
        }
        lemma_normalize_fixed(front);
        assert(normal_vars(terms[terms.len() - 1].variables));
        lemma_normal_term_fixed(terms.last());
        assert(normalizing()(terms.last()) == normal_term(terms.last()));
        assert(front.push(terms.last()) =~= terms);
    }
}

/// Adding like terms leaves terms with distinct variables as they are.
pub proof fn lemma_like_terms_fixed(terms: Seq<TermView>)
    requires
        vars_distinct(terms),
    ensures
        like_terms_added(terms) == Ok::<Seq<TermView>, AlgebraError>(terms),
    decreases terms.len(),
{
    if terms.len() == 0 {
        assert(terms =~= Seq::<TermView>::empty());
    } else {
        let front = terms.drop_last();
        assert(vars_distinct(front)) by {
            assert forall|i: int, j: int| 0 <= i < j < front.len() implies (
            #[trigger] front[i]).variables != (#[trigger] front[j]).variables by {
                assert(front[i] == terms[i]);
                assert(front[j] == terms[j]);
            }
        }
        lemma_like_terms_fixed(front);
        lemma_index_of_vars(front, terms.last().variables);
        if index_of_vars(front, terms.last().variables) >= 0 {
            let k = index_of_vars(front, terms.last().variables);
            assert(front[k] == terms[k]);
            assert(terms[k].variables != terms[terms.len() - 1].variables);
        }
        assert(absorbing()(front, terms.last()) == absorb_term(front, terms.last()));
        assert(front.push(terms.last()) =~= terms);
    }
}

/// Dropping zero terms leaves terms without zero coefficients as they are.
pub proof fn lemma_nonzero_terms_fixed(terms: Seq<TermView>)
    requires
        coefficients_nonzero(terms),
    ensures
        nonzero_terms(terms) == terms,
    decreases terms.len(),
{
    if terms.len() > 0 {
        let front = terms.drop_last();
        assert(coefficients_nonzero(front)) by {
            assert forall|i: int| 0 <= i < front.len() implies (
            #[trigger] front[i]).coefficient.numer != 0 by {
                assert(front[i] == terms[i]);
            }
        }
        lemma_nonzero_terms_fixed(front);
        assert(terms[terms.len() - 1].coefficient.numer != 0);
        assert(front.push(terms.last()) =~= terms);
    }
}

/// Bringing a canonical list of terms into canonical form changes nothing.
pub proof fn lemma_canonical_fixed(terms: Seq<TermView>)
    requires
        canonical(terms),
    ensures
        canonical_terms(terms) == Ok::<Seq<TermView>, AlgebraError>(terms),
{
    reveal(canonical_terms);
    lemma_normalize_fixed(terms);
    lemma_like_terms_fixed(terms);
    if terms == seq![TermView::zero()] {
        reveal_with_fuel(nonzero_terms, 2);
        assert(terms.drop_last() =~= Seq::<TermView>::empty());
        assert(nonzero_terms(terms) =~= Seq::<TermView>::empty());
    } else {
        lemma_nonzero_terms_fixed(terms);
    }
    assert(or_zero(nonzero_terms(terms)) == terms);
    lemma_sort_of_sorted(terms, by_rank());
}

} // verus!
