//! The orders that the canonical form sorts by, and the proof that sorting
//! by them gives a sorted list.

use crate::order::{insert_sorted, insertion_sort, lemma_insert_position, sorted_by, text_lt};
use crate::polynomial::{by_rank, term_before};
use crate::rational::Rational;
use crate::term::{by_name, max_degree_of, var_lt, vars_lt, TermView, VarView};
use vstd::prelude::*;

verus! {

/// Among the items that `good` admits, `lt` never holds both ways.
pub open spec fn asymmetric_on<T>(lt: spec_fn(T, T) -> bool, good: spec_fn(T) -> bool) -> bool {
    forall|a: T, b: T| good(a) && good(b) && #[trigger] lt(a, b) ==> !lt(b, a)
}

/// Among the items that `good` admits, "not less" is transitive.
pub open spec fn negatively_transitive_on<T>(
    lt: spec_fn(T, T) -> bool,
    good: spec_fn(T) -> bool,
) -> bool {
    forall|a: T, b: T, c: T|
        good(a) && good(b) && good(c) && !#[trigger] lt(a, b) && !#[trigger] lt(b, c) ==> !lt(a, c)
}

/// Every item is one that `good` admits.
pub open spec fn all_good<T>(s: Seq<T>, good: spec_fn(T) -> bool) -> bool {
    forall|i: int| 0 <= i < s.len() ==> good(#[trigger] s[i])
}

/// The place at which insertion puts `x`.
pub open spec fn insert_pos<T>(s: Seq<T>, x: T, lt: spec_fn(T, T) -> bool) -> int
    decreases s.len(),
{
    if s.len() > 0 && lt(x, s.last()) {
        insert_pos(s.drop_last(), x, lt)
    } else {
        s.len() as int
    }
}

/// Insertion puts `x` at `insert_pos`: behind an item that it is not less
/// than, before items that it is less than.
pub proof fn lemma_insert_pos<T>(s: Seq<T>, x: T, lt: spec_fn(T, T) -> bool)
    ensures
        0 <= insert_pos(s, x, lt) <= s.len(),
        insert_pos(s, x, lt) > 0 ==> !lt(x, s[insert_pos(s, x, lt) - 1]),
        forall|k: int| insert_pos(s, x, lt) <= k < s.len() ==> lt(x, #[trigger] s[k]),
        insert_sorted(s, x, lt) == s.insert(insert_pos(s, x, lt), x),
    decreases s.len(),
{
    if s.len() > 0 && lt(x, s.last()) {
        let front = s.drop_last();
        lemma_insert_pos(front, x, lt);
        let p = insert_pos(front, x, lt);
        assert forall|k: int| p <= k < s.len() implies lt(x, #[trigger] s[k]) by {
            if k < front.len() {
                assert(front[k] == s[k]);
            }
        }
        if p > 0 {
            assert(front[p - 1] == s[p - 1]);
        }
    }
    lemma_insert_position(s, x, lt, insert_pos(s, x, lt));
}

/// Insertion into a sorted list gives a sorted list.
pub proof fn lemma_insert_sorted<T>(
    s: Seq<T>,
    x: T,
    lt: spec_fn(T, T) -> bool,
    good: spec_fn(T) -> bool,
)
    requires
        sorted_by(s, lt),
        all_good(s, good),
        good(x),
        asymmetric_on(lt, good),
        negatively_transitive_on(lt, good),
    ensures
        sorted_by(insert_sorted(s, x, lt), lt),
        all_good(insert_sorted(s, x, lt), good),
{
    lemma_insert_pos(s, x, lt);
    let p = insert_pos(s, x, lt);
    let r = s.insert(p, x);
    assert forall|i: int, j: int| 0 <= i < j < r.len() implies !lt(
        #[trigger] r[j],
        #[trigger] r[i],
    ) by {
        if j == p {
            assert(r[i] == s[i]);
            assert(!lt(x, s[p - 1]));
            if i < p - 1 {
                assert(!lt(s[p - 1], s[i]));
            }
            assert(!lt(x, s[i]));
        } else if i == p {
            assert(r[j] == s[j - 1]);
            assert(lt(x, s[j - 1]));
        } else {
            let i0 = if i < p {
                i
            } else {
                i - 1
            };
            let j0 = if j < p {
                j
            } else {
                j - 1
            };
            assert(r[i] == s[i0]);
            assert(r[j] == s[j0]);
        }
    }
    assert forall|i: int| 0 <= i < r.len() implies good(#[trigger] r[i]) by {
        if i < p {
            assert(r[i] == s[i]);
        } else if i > p {
            assert(r[i] == s[i - 1]);
        }
    }
}

/// Sorting gives a sorted list.
pub proof fn lemma_sort_sorted<T>(s: Seq<T>, lt: spec_fn(T, T) -> bool, good: spec_fn(T) -> bool)
    requires
        all_good(s, good),
        asymmetric_on(lt, good),
        negatively_transitive_on(lt, good),
    ensures
        sorted_by(insertion_sort(s, lt), lt),
        all_good(insertion_sort(s, lt), good),
    decreases s.len(),
{
    if s.len() > 0 {
        let front = s.drop_last();
        assert(all_good(front, good)) by {
            assert forall|i: int| 0 <= i < front.len() implies good(#[trigger] front[i]) by {
                assert(front[i] == s[i]);
            }
        }
        lemma_sort_sorted(front, lt, good);
        assert(good(s[s.len() - 1]));
        lemma_insert_sorted(insertion_sort(front, lt), s.last(), lt, good);
    }
}

/// No text comes before itself.
pub proof fn lemma_text_irreflexive(a: Seq<char>)
    ensures
        !text_lt(a, a),
    decreases a.len(),
{
    if a.len() > 0 {
        lemma_text_irreflexive(a.skip(1));
    }
}

/// The order of texts is transitive.
pub proof fn lemma_text_transitive(a: Seq<char>, b: Seq<char>, c: Seq<char>)
    requires
        text_lt(a, b),
        text_lt(b, c),
    ensures
        text_lt(a, c),
    decreases a.len(),
{
    if a.len() > 0 && b.len() > 0 && c.len() > 0 {
        if a[0] == b[0] && b[0] == c[0] {
            lemma_text_transitive(a.skip(1), b.skip(1), c.skip(1));
        }
    }
}

/// Of two different texts one comes before the other.
pub proof fn lemma_text_total(a: Seq<char>, b: Seq<char>)
    ensures
        a == b || text_lt(a, b) || text_lt(b, a),
    decreases a.len(),
{
    if a.len() == 0 || b.len() == 0 {
        if a.len() == 0 && b.len() == 0 {
            assert(a =~= b);
        }
    } else if a[0] == b[0] {
        lemma_text_total(a.skip(1), b.skip(1));
        if a.skip(1) == b.skip(1) {
            assert(a =~= seq![a[0]] + a.skip(1));
            assert(b =~= seq![b[0]] + b.skip(1));
        }
    }
}

/// The order of texts never holds both ways.
pub proof fn lemma_text_asymmetric(a: Seq<char>, b: Seq<char>)
    requires
        text_lt(a, b),
    ensures
        !text_lt(b, a),
{
    if text_lt(b, a) {
        lemma_text_transitive(a, b, a);
        lemma_text_irreflexive(a);
    }
}

/// "Not before" is transitive on texts.
pub proof fn lemma_text_negatively_transitive(a: Seq<char>, b: Seq<char>, c: Seq<char>)
    requires
        !text_lt(a, b),
        !text_lt(b, c),
    ensures
        !text_lt(a, c),
{
    if text_lt(a, c) {
        lemma_text_total(a, b);
        lemma_text_total(b, c);
        if a != b && b != c {
            lemma_text_transitive(c, b, a);
            lemma_text_asymmetric(a, c);
        }
    }
}

/// A fraction with a positive denominator.
pub open spec fn positive(q: Rational) -> bool {
    q.denom > 0
}

/// The order of fractions: what follows from two comparisons.
pub proof fn lemma_fraction_order(a: Rational, b: Rational, c: Rational)
    requires
        positive(a),
        positive(b),
        positive(c),
    ensures
        a.spec_lt(b) ==> !b.spec_lt(a),
        !a.spec_lt(b) && !b.spec_lt(c) ==> !a.spec_lt(c),
        a.spec_lt(b) && !c.spec_lt(b) ==> a.spec_lt(c),
        !b.spec_lt(a) && b.spec_lt(c) ==> a.spec_lt(c),
{
    let (an, ad, bn, bd, cn, cd) = (
        a.numer as int,
        a.denom as int,
        b.numer as int,
        b.denom as int,
        c.numer as int,
        c.denom as int,
    );
    assert(!(an * bd < bn * ad) && !(bn * cd < cn * bd) ==> !(an * cd < cn * ad))
        by (nonlinear_arith)
        requires
            ad > 0,
            bd > 0,
            cd > 0,
    {
        if !(an * bd < bn * ad) && !(bn * cd < cn * bd) {
            assert(bn * ad * cd <= an * bd * cd);
            assert(cn * bd * ad <= bn * cd * ad);
            assert(cn * ad * bd <= an * cd * bd);
        }
    }
    assert((an * bd < bn * ad) && !(cn * bd < bn * cd) ==> (an * cd < cn * ad))
        by (nonlinear_arith)
        requires
            ad > 0,
            bd > 0,
            cd > 0,
    {
        if (an * bd < bn * ad) && !(cn * bd < bn * cd) {
            assert(an * bd * cd < bn * ad * cd);
            assert(bn * cd * ad <= cn * bd * ad);
            assert(an * cd * bd < cn * ad * bd);
        }
    }
    assert(!(bn * ad < an * bd) && (bn * cd < cn * bd) ==> (an * cd < cn * ad))
        by (nonlinear_arith)
        requires
            ad > 0,
            bd > 0,
            cd > 0,
    {
        if !(bn * ad < an * bd) && (bn * cd < cn * bd) {
            assert(an * bd * cd <= bn * ad * cd);
            assert(bn * cd * ad < cn * bd * ad);
            assert(an * cd * bd < cn * ad * bd);
        }
    }
}

/// A variable whose degree has a positive denominator.
pub open spec fn positive_var(v: VarView) -> bool {
    positive(v.degree)
}

/// Every degree has a positive denominator.
pub open spec fn positive_vars(vars: Seq<VarView>) -> bool {
    forall|i: int| 0 <= i < vars.len() ==> positive((#[trigger] vars[i]).degree)
}

/// The order of variables never holds both ways.
pub proof fn lemma_var_asymmetric(a: VarView, b: VarView)
    requires
        positive_var(a),
        positive_var(b),
        var_lt(a, b),
    ensures
        !var_lt(b, a),
{
    lemma_fraction_order(a.degree, b.degree, a.degree);
    if text_lt(a.name, b.name) {
        lemma_text_asymmetric(a.name, b.name);
        lemma_text_irreflexive(a.name);
    } else {
        lemma_text_irreflexive(a.name);
    }
}

/// "Not before" is transitive on variables.
pub proof fn lemma_var_negatively_transitive(a: VarView, b: VarView, c: VarView)
    requires
        positive_var(a),
        positive_var(b),
        positive_var(c),
        !var_lt(a, b),
        !var_lt(b, c),
    ensures
        !var_lt(a, c),
{
    lemma_text_negatively_transitive(a.name, b.name, c.name);
    if a.name == c.name {
        lemma_text_total(a.name, b.name);
        lemma_fraction_order(a.degree, b.degree, c.degree);
    }
}

/// The order of variable lists never holds both ways.
pub proof fn lemma_vars_asymmetric(a: Seq<VarView>, b: Seq<VarView>)
    requires
        positive_vars(a),
        positive_vars(b),
        vars_lt(a, b),
    ensures
        !vars_lt(b, a),
    decreases a.len(),
{
    if a.len() > 0 && b.len() > 0 {
        assert(positive(a[0].degree) && positive(b[0].degree));
        if var_lt(a[0], b[0]) {
            lemma_var_asymmetric(a[0], b[0]);
        } else {
            lemma_positive_skip(a);
            lemma_positive_skip(b);
            lemma_vars_asymmetric(a.skip(1), b.skip(1));
        }
    }
}

/// The rest of a list of positive degrees has positive degrees.
pub proof fn lemma_positive_skip(a: Seq<VarView>)
    requires
        positive_vars(a),
        a.len() > 0,
    ensures
        positive_vars(a.skip(1)),
{
    assert forall|i: int| 0 <= i < a.skip(1).len() implies positive(
        (#[trigger] a.skip(1)[i]).degree,
    ) by {
        assert(a.skip(1)[i] == a[i + 1]);
    }
}

/// "Not before" is transitive on variable lists.
pub proof fn lemma_vars_negatively_transitive(a: Seq<VarView>, b: Seq<VarView>, c: Seq<VarView>)
    requires
        positive_vars(a),
        positive_vars(b),
        positive_vars(c),
        !vars_lt(a, b),
        !vars_lt(b, c),
    ensures
        !vars_lt(a, c),
    decreases a.len(),
{
    if a.len() > 0 && b.len() > 0 && c.len() > 0 {
        assert(positive(a[0].degree) && positive(b[0].degree) && positive(c[0].degree));
        lemma_positive_skip(a);
        lemma_positive_skip(b);
        lemma_positive_skip(c);
        lemma_var_negatively_transitive(a[0], b[0], c[0]);
        if !var_lt(c[0], a[0]) {
            if var_lt(b[0], a[0]) {
                lemma_var_negatively_transitive(b[0], c[0], a[0]);
            } else if var_lt(c[0], b[0]) {
                lemma_var_negatively_transitive(c[0], a[0], b[0]);
            } else {
                lemma_vars_negatively_transitive(a.skip(1), b.skip(1), c.skip(1));
            }
        }
    }
}

/// The greatest degree of variables with positive denominators has a
/// positive denominator.
pub proof fn lemma_max_degree_positive(vars: Seq<VarView>)
    requires
        positive_vars(vars),
    ensures
        positive(max_degree_of(vars)),
    decreases vars.len(),
{
    if vars.len() == 1 {
        assert(positive(vars[0].degree));
    } else if vars.len() > 1 {
        let front = vars.drop_last();
        assert(positive_vars(front)) by {
            assert forall|i: int| 0 <= i < front.len() implies positive(
                (#[trigger] front[i]).degree,
            ) by {
                assert(front[i] == vars[i]);
            }
        }
        lemma_max_degree_positive(front);
        assert(positive(vars[vars.len() - 1].degree));
    }
}

/// A term whose degrees have positive denominators.
pub open spec fn positive_term(t: TermView) -> bool {
    positive_vars(t.variables)
}

/// `positive_term` as a property of items.
pub open spec fn positive_terms() -> spec_fn(TermView) -> bool {
    |t: TermView| positive_term(t)
}

/// The property that every variable has.
pub open spec fn any_var() -> spec_fn(VarView) -> bool {
    |v: VarView| true
}

/// The order of terms never holds both ways.
pub proof fn lemma_term_asymmetric(a: TermView, b: TermView)
    requires
        positive_term(a),
        positive_term(b),
        term_before(a, b),
    ensures
        !term_before(b, a),
{
    lemma_max_degree_positive(a.variables);
    lemma_max_degree_positive(b.variables);
    lemma_fraction_order(a.max_degree(), b.max_degree(), a.max_degree());
    lemma_fraction_order(b.max_degree(), a.max_degree(), b.max_degree());
    if vars_lt(a.variables, b.variables) {
        lemma_vars_asymmetric(a.variables, b.variables);
    }
}

/// "Not before" is transitive on terms.
pub proof fn lemma_term_negatively_transitive(a: TermView, b: TermView, c: TermView)
    requires
        positive_term(a),
        positive_term(b),
        positive_term(c),
        !term_before(a, b),
        !term_before(b, c),
    ensures
        !term_before(a, c),
{
    lemma_max_degree_positive(a.variables);
    lemma_max_degree_positive(b.variables);
    lemma_max_degree_positive(c.variables);
    let (ra, rb, rc) = (a.max_degree(), b.max_degree(), c.max_degree());
    lemma_fraction_order(rc, rb, ra);
    lemma_fraction_order(ra, rb, rc);
    lemma_fraction_order(rb, ra, rc);
    lemma_fraction_order(ra, rc, rb);
    if !vars_lt(a.variables, b.variables) && !vars_lt(b.variables, c.variables) {
        lemma_vars_negatively_transitive(a.variables, b.variables, c.variables);
    }
}

/// Sorting variables by name gives a list sorted by name.
pub proof fn lemma_sort_by_name_sorted(vars: Seq<VarView>)
    ensures
        sorted_by(insertion_sort(vars, by_name()), by_name()),
{
    assert(asymmetric_on(by_name(), any_var())) by {
        assert forall|a: VarView, b: VarView|
            any_var()(a) && any_var()(b) && #[trigger] by_name()(a, b) implies !by_name()(b, a) by {
            lemma_text_asymmetric(a.name, b.name);
        }
    }
    assert(negatively_transitive_on(by_name(), any_var())) by {
        assert forall|a: VarView, b: VarView, c: VarView|
            any_var()(a) && any_var()(b) && any_var()(c) && !#[trigger] by_name()(a, b)
                && !#[trigger] by_name()(b, c) implies !by_name()(a, c) by {
            lemma_text_negatively_transitive(a.name, b.name, c.name);
        }
    }
    lemma_sort_sorted(vars, by_name(), any_var());
}

/// Sorting terms whose degrees have positive denominators gives a sorted
/// list of such terms.
pub proof fn lemma_sort_by_rank_sorted(terms: Seq<TermView>)
    requires
        all_good(terms, positive_terms()),
    ensures
        sorted_by(insertion_sort(terms, by_rank()), by_rank()),
        all_good(insertion_sort(terms, by_rank()), positive_terms()),
{
    assert(asymmetric_on(by_rank(), positive_terms())) by {
        assert forall|a: TermView, b: TermView|
            positive_terms()(a) && positive_terms()(b) && #[trigger] by_rank()(a, b) implies !by_rank()(
            b,
            a,
        ) by {
            lemma_term_asymmetric(a, b);
        }
    }
    assert(negatively_transitive_on(by_rank(), positive_terms())) by {
        assert forall|a: TermView, b: TermView, c: TermView|
            positive_terms()(a) && positive_terms()(b) && positive_terms()(c) && !#[trigger] by_rank()(
                a,
                b,
            ) && !#[trigger] by_rank()(b, c) implies !by_rank()(a, c) by {
            lemma_term_negatively_transitive(a, b, c);
        }
    }
    lemma_sort_sorted(terms, by_rank(), positive_terms());
}

} // verus!
