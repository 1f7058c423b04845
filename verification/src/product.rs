//! The product of two terms, and of two polynomials in canonical form,
//! does not depend on their order.

use crate::associate::lemma_zero_wf;
use crate::canonical::normal_vars;
use crate::degrees::{degree_of_name, lemma_merge_degree, lemma_normal_degree, lemma_same_degrees, lemma_sort_sum, lemma_sum_append, lemma_sum_of_distinct, ordered_sum};
use crate::error::AlgebraError;
use crate::invariants::lemma_normal_term_props;
use crate::laws::lemma_sort_keeps;
use crate::number::{lemma_product_commutes, lemma_product_pair, lemma_sum_commutes, lemma_sum_zero};
use crate::order::insertion_sort;
use crate::polynomial::normal_term;
use crate::rational::Rational;
use crate::shift::{lemma_sum_is_degree, lemma_vars_concat_wf};
use crate::term::{absorb, absorb_var, by_name, index_of_name, lemma_index_of_name, merge_names, vars_wf, TermView, VarView};
use crate::unique::lemma_wf_vars_positive;
use crate::wellformed::{lemma_normal_term_wf, lowest_degree};
use crate::associate::{coefficient_of, lemma_same_coefficients, lemma_sorted_coefficient, lemma_sorted_wf, lemma_terms_degrees_wf};
use crate::canonical::{all_normal, canonical, lemma_normalize_fixed};
use crate::commute::lemma_sorted_props;
use crate::fold::{lemma_try_fold_step, lemma_try_map_step, try_map};
use crate::invariants::{lemma_canonical_output, lemma_cross_positive, lemma_like_terms_distinct, lemma_product_props, lemma_wf_positive};
use crate::number::{lemma_same_value_unique, lemma_value_transitive, pair_of, same_value};

use crate::polynomial::{append_row, canonical_terms, cross_product, like_terms_added, product_terms, terms_wf, times, PolyView};
use crate::tally::{exact_sum, lemma_coefficient_sum_value, lemma_exact_sum_append, lemma_exact_sum_positive, lemma_fubini, lemma_like_terms_coefficient, lemma_plus_nothing, lemma_turned_total, row_sum, rows_total, turned};
use crate::unique::{lemma_sorted_unique, same_terms};
use crate::wellformed::{lemma_cross_wf, lemma_like_terms_wf, lemma_one_wf};
use vstd::prelude::*;

verus! {

/// Where merging fails, adding up the degrees of some name fails.
pub proof fn lemma_merge_fails(s: Seq<VarView>) -> (n: Seq<char>)
    requires
        vars_wf(s),
        merge_names(s) is Err,
    ensures
        ordered_sum(Rational::spec_zero(), s, n) is Err,
        merge_names(s) == Err::<Seq<VarView>, AlgebraError>(AlgebraError::Overflow),
    decreases s.len(),
{
    let front = s.drop_last();
    let v = s.last();
    assert(vars_wf(front)) by {
        assert forall|i: int| 0 <= i < front.len() implies (#[trigger] front[i]).degree.wf() by {
            assert(front[i] == s[i]);
        }
    }
    if merge_names(front) is Err {
        lemma_merge_fails(front)
    } else {
        let acc = merge_names(front).unwrap();
        assert(absorb()(acc, v) == absorb_var(acc, v));
        lemma_merge_degree(front, v.name);
        v.name
    }
}

/// Sorting keeps variables in lowest terms.
pub proof fn lemma_sorted_vars_wf(s: Seq<VarView>)
    requires
        vars_wf(s),
    ensures
        vars_wf(insertion_sort(s, by_name())),
{
    assert forall|i: int| 0 <= i < s.len() implies lowest_degree()(#[trigger] s[i]) by {
        assert(s[i].degree.wf());
    }
    lemma_sort_keeps(s, by_name(), lowest_degree());
    let sorted = insertion_sort(s, by_name());
    assert forall|i: int| 0 <= i < sorted.len() implies (#[trigger] sorted[i]).degree.wf() by {
        assert(lowest_degree()(sorted[i]));
    }
}

/// What adding up a name over two lists in canonical form joined gives:
/// the sum of the two degrees, in the order of the lists, where both hold
/// the name, and else the one degree there is.
pub proof fn lemma_joined_sum(u: Seq<VarView>, w: Seq<VarView>, n: Seq<char>)
    requires
        normal_vars(u),
        normal_vars(w),
        vars_wf(u),
        vars_wf(w),
    ensures
        ordered_sum(Rational::spec_zero(), u + w, n) == if index_of_name(w, n) >= 0 {
            degree_of_name(u, n).spec_add(degree_of_name(w, n))
        } else {
            Ok::<Rational, AlgebraError>(degree_of_name(u, n))
        },
{
    lemma_sum_append(Rational::spec_zero(), u, w, n);
    lemma_sum_is_degree(u, n);
    lemma_sum_of_distinct(degree_of_name(u, n), w, n);
}

/// Adding up a name over two lists in canonical form gives the same in
/// either order of the lists.
pub proof fn lemma_joined_sum_commutes(u: Seq<VarView>, w: Seq<VarView>, n: Seq<char>)
    requires
        normal_vars(u),
        normal_vars(w),
        vars_wf(u),
        vars_wf(w),
    ensures
        ordered_sum(Rational::spec_zero(), u + w, n) == ordered_sum(
            Rational::spec_zero(),
            w + u,
            n,
        ),
{
    lemma_joined_sum(u, w, n);
    lemma_joined_sum(w, u, n);
    lemma_index_of_name(u, n);
    lemma_index_of_name(w, n);
    lemma_zero_wf();
    let i = index_of_name(u, n);
    let j = index_of_name(w, n);
    if i >= 0 {
        assert(u[i].degree.wf());
        lemma_sum_zero(u[i].degree);
    }
    if j >= 0 {
        assert(w[j].degree.wf());
        lemma_sum_zero(w[j].degree);
    }
    if i >= 0 && j >= 0 {
        lemma_sum_commutes(u[i].degree, w[j].degree);
    }
}

/// Sorting and merging two lists in canonical form joined gives the same
/// in either order of the lists.
pub proof fn lemma_joined_vars_commute(c: Rational, u: Seq<VarView>, w: Seq<VarView>)
    requires
        c.wf(),
        normal_vars(u),
        normal_vars(w),
        vars_wf(u),
        vars_wf(w),
    ensures
        normal_term(TermView { coefficient: c, variables: u + w }) == normal_term(
            TermView { coefficient: c, variables: w + u },
        ),
{
    let ab = TermView { coefficient: c, variables: u + w };
    let ba = TermView { coefficient: c, variables: w + u };
    lemma_vars_concat_wf(u, w);
    lemma_vars_concat_wf(w, u);
    lemma_sorted_vars_wf(u + w);
    lemma_sorted_vars_wf(w + u);
    let sab = insertion_sort(u + w, by_name());
    let sba = insertion_sort(w + u, by_name());
    if normal_term(ab) is Err {
        let n = lemma_merge_fails(sab);
        lemma_sort_sum(Rational::spec_zero(), u + w, n);
        lemma_joined_sum_commutes(u, w, n);
        lemma_sort_sum(Rational::spec_zero(), w + u, n);
        if merge_names(sba) is Ok {
            lemma_merge_degree(sba, n);
        }
        let n2 = lemma_merge_fails(sba);
    } else if normal_term(ba) is Err {
        let n = lemma_merge_fails(sba);
        lemma_sort_sum(Rational::spec_zero(), w + u, n);
        lemma_joined_sum_commutes(u, w, n);
        lemma_sort_sum(Rational::spec_zero(), u + w, n);
        lemma_merge_degree(sab, n);
    } else {
        let x = normal_term(ab).unwrap();
        let y = normal_term(ba).unwrap();
        lemma_wf_vars_positive(u + w);
        lemma_wf_vars_positive(w + u);
        lemma_normal_term_props(ab);
        lemma_normal_term_props(ba);
        assert forall|n: Seq<char>| degree_of_name(x.variables, n) == #[trigger] degree_of_name(
            y.variables,
            n,
        ) by {
            lemma_normal_degree(ab, n);
            lemma_normal_degree(ba, n);
            lemma_joined_sum_commutes(u, w, n);
        }
        lemma_same_degrees(x.variables, y.variables);
    }
}

/// The product of two terms in canonical form is the same in either
/// order: the same term, or the same failure.
pub proof fn lemma_term_product_commutes(a: TermView, b: TermView)
    requires
        a.wf(),
        b.wf(),
        normal_vars(a.variables),
        normal_vars(b.variables),
    ensures
        a.product(b) == b.product(a),
{
    lemma_product_commutes(a.coefficient, b.coefficient);
    if a.coefficient.spec_mul(b.coefficient) is Ok {
        lemma_product_pair(a.coefficient, b.coefficient);
        lemma_joined_vars_commute(
            a.coefficient.spec_mul(b.coefficient).unwrap(),
            a.variables,
            b.variables,
        );
    }
}

/// What the product of two terms adds to the coefficient of the variables
/// `v`: its coefficient where its variables are `v`, else nothing.
pub open spec fn entry(t: TermView, u: TermView, v: Seq<VarView>) -> (int, int) {
    match t.product(u) {
        Ok(p) => if p.variables == v {
            pair_of(p.coefficient)
        } else {
            (0, 1)
        },
        Err(_) => (0, 1),
    }
}

/// The entries of all products of a term of `a` and a term of `b`.
pub open spec fn grid(a: Seq<TermView>, b: Seq<TermView>, v: Seq<VarView>) -> spec_fn(
    int,
    int,
) -> (int, int) {
    |i: int, j: int| entry(a[i], b[j], v)
}

/// The exact sum over the products of one term with the first `m` terms
/// of `b` is the sum of that row of the grid.
pub proof fn lemma_row_exact(a: Seq<TermView>, b: Seq<TermView>, v: Seq<VarView>, i: int, m: int)
    requires
        0 <= i < a.len(),
        0 <= m <= b.len(),
        try_map(b.take(m), times(a[i])) is Ok,
    ensures
        exact_sum(try_map(b.take(m), times(a[i])).unwrap(), v) == row_sum(
            grid(a, b, v),
            i,
            m as nat,
        ),
    decreases m,
{
    if m > 0 {
        lemma_try_map_step(b, times(a[i]), m - 1);
        lemma_row_exact(a, b, v, i, m - 1);
        let front = try_map(b.take(m - 1), times(a[i])).unwrap();
        let x = a[i].product(b[m - 1]).unwrap();
        assert(times(a[i])(b[m - 1]) == a[i].product(b[m - 1]));
        let out = try_map(b.take(m), times(a[i])).unwrap();
        assert(out == front.push(x));
        assert(out.drop_last() =~= front);
        assert(grid(a, b, v)(i, m - 1) == entry(a[i], b[m - 1], v));
        lemma_plus_nothing(row_sum(grid(a, b, v), i, (m - 1) as nat));
    } else {
        assert(b.take(0) =~= Seq::<TermView>::empty());
    }
}

/// The exact sum over the cross product of the first `n` terms of `a`
/// with `b` is the sum of those rows of the grid.
pub proof fn lemma_cross_exact(a: Seq<TermView>, b: Seq<TermView>, v: Seq<VarView>, n: int)
    requires
        0 <= n <= a.len(),
        cross_product(a.take(n), b) is Ok,
    ensures
        exact_sum(cross_product(a.take(n), b).unwrap(), v) == rows_total(
            grid(a, b, v),
            n as nat,
            b.len(),
        ),
    decreases n,
{
    if n > 0 {
        lemma_try_fold_step(a, Seq::<TermView>::empty(), append_row(b), n - 1);
        let acc = cross_product(a.take(n - 1), b).unwrap();
        assert(append_row(b)(acc, a[n - 1]) == match try_map(b, times(a[n - 1])) {
            Ok(row) => Ok::<Seq<TermView>, AlgebraError>(acc + row),
            Err(e) => Err(e),
        });
        lemma_cross_exact(a, b, v, n - 1);
        let row = try_map(b, times(a[n - 1])).unwrap();
        assert(b.take(b.len() as int) =~= b);
        lemma_row_exact(a, b, v, n - 1, b.len() as int);
        lemma_exact_sum_append(acc, row, v);
    } else {
        assert(a.take(0) =~= Seq::<TermView>::empty());
    }
}

/// The products of a term in lowest terms with each term of a list have
/// their variables in canonical form.
pub proof fn lemma_row_normal(t: TermView, b: Seq<TermView>)
    requires
        t.wf(),
        terms_wf(b),
        try_map(b, times(t)) is Ok,
    ensures
        all_normal(try_map(b, times(t)).unwrap()),
    decreases b.len(),
{
    if b.len() > 0 {
        let front = b.drop_last();
        assert(terms_wf(front)) by {
            assert forall|i: int| 0 <= i < front.len() implies (#[trigger] front[i]).wf() by {
                assert(front[i] == b[i]);
            }
        }
        lemma_row_normal(t, front);
        assert(times(t)(b.last()) == t.product(b.last()));
        assert(b[b.len() - 1].wf());
        lemma_wf_vars_positive(t.variables);
        lemma_wf_vars_positive(b.last().variables);
        lemma_product_props(t, b.last());
        let done = try_map(front, times(t)).unwrap();
        let out = try_map(b, times(t)).unwrap();
        assert forall|i: int| 0 <= i < out.len() implies normal_vars((#[trigger] out[i]).variables) by {
            if i < done.len() {
                assert(out[i] == done[i]);
            }
        }
    }
}

/// The cross product of two lists in lowest terms has its variables in
/// canonical form.
pub proof fn lemma_cross_normal(a: Seq<TermView>, b: Seq<TermView>)
    requires
        terms_wf(a),
        terms_wf(b),
        cross_product(a, b) is Ok,
    ensures
        all_normal(cross_product(a, b).unwrap()),
    decreases a.len(),
{
    if a.len() > 0 {
        let front = a.drop_last();
        assert(terms_wf(front)) by {
            assert forall|i: int| 0 <= i < front.len() implies (#[trigger] front[i]).wf() by {
                assert(front[i] == a[i]);
            }
        }
        let acc = cross_product(front, b).unwrap();
        assert(append_row(b)(acc, a.last()) == match try_map(b, times(a.last())) {
            Ok(row) => Ok::<Seq<TermView>, AlgebraError>(acc + row),
            Err(e) => Err(e),
        });
        lemma_cross_normal(front, b);
        assert(a[a.len() - 1].wf());
        lemma_row_normal(a.last(), b);
        let row = try_map(b, times(a.last())).unwrap();
        let out = cross_product(a, b).unwrap();
        assert forall|i: int| 0 <= i < out.len() implies normal_vars((#[trigger] out[i]).variables) by {
            if i < acc.len() {
                assert(out[i] == acc[i]);
            } else {
                assert(out[i] == row[i - acc.len()]);
            }
        }
    }
}

/// The coefficient that the product of two lists in lowest terms has for
/// the variables `v` has the value of the grid of their products added up;
/// and the product is canonical and in lowest terms.
pub proof fn lemma_product_coefficient(a: Seq<TermView>, b: Seq<TermView>, v: Seq<VarView>)
    requires
        terms_wf(a),
        terms_wf(b),
        product_terms(a, b) is Ok,
    ensures
        coefficient_of(product_terms(a, b).unwrap(), v).wf(),
        same_value(
            pair_of(coefficient_of(product_terms(a, b).unwrap(), v)),
            rows_total(grid(a, b, v), a.len(), b.len()),
        ),
        rows_total(grid(a, b, v), a.len(), b.len()).1 > 0,
        canonical(product_terms(a, b).unwrap()),
        terms_wf(product_terms(a, b).unwrap()),
{
    reveal(product_terms);
    reveal(canonical_terms);
    let c = cross_product(a, b).unwrap();
    lemma_cross_wf(a, b);
    lemma_cross_normal(a, b);
    lemma_wf_positive(a);
    lemma_wf_positive(b);
    lemma_cross_positive(a, b);
    lemma_normalize_fixed(c);
    let m = like_terms_added(c).unwrap();
    lemma_like_terms_coefficient(c, v);
    lemma_coefficient_sum_value(c, v);
    lemma_exact_sum_positive(c, v);
    assert(a.take(a.len() as int) =~= a);
    lemma_cross_exact(a, b, v, a.len() as int);
    lemma_like_terms_distinct(c);
    lemma_like_terms_wf(c);
    lemma_terms_degrees_wf(c);
    lemma_sorted_props(c, m);
    lemma_sorted_coefficient(m, v);
    lemma_sorted_wf(m);
    lemma_canonical_output(c);
}

/// Two grids with the same entries add up to the same.
pub proof fn lemma_rows_total_same(
    e1: spec_fn(int, int) -> (int, int),
    e2: spec_fn(int, int) -> (int, int),
    n: nat,
    m: nat,
)
    requires
        forall|i: int, j: int| 0 <= i < n && 0 <= j < m ==> #[trigger] e1(i, j) == e2(i, j),
    ensures
        rows_total(e1, n, m) == rows_total(e2, n, m),
    decreases n,
{
    if n > 0 {
        lemma_rows_total_same(e1, e2, (n - 1) as nat, m);
        lemma_row_sum_same(e1, e2, n - 1, n, m, m);
    }
}

/// Two rows with the same entries add up to the same.
pub proof fn lemma_row_sum_same(
    e1: spec_fn(int, int) -> (int, int),
    e2: spec_fn(int, int) -> (int, int),
    i: int,
    n: nat,
    m: nat,
    k: nat,
)
    requires
        0 <= i < n,
        k <= m,
        forall|i: int, j: int| 0 <= i < n && 0 <= j < m ==> #[trigger] e1(i, j) == e2(i, j),
    ensures
        row_sum(e1, i, k) == row_sum(e2, i, k),
    decreases k,
{
    if k > 0 {
        lemma_row_sum_same(e1, e2, i, n, m, (k - 1) as nat);
        assert(e1(i, k - 1) == e2(i, k - 1));
    }
}

/// The grid of the products of `b` with `a` is the grid of the products
/// of `a` with `b` turned over.
pub proof fn lemma_grid_turned(a: Seq<TermView>, b: Seq<TermView>, v: Seq<VarView>)
    requires
        terms_wf(a),
        terms_wf(b),
        all_normal(a),
        all_normal(b),
    ensures
        rows_total(grid(b, a, v), b.len(), a.len()) == rows_total(
            turned(grid(a, b, v)),
            b.len(),
            a.len(),
        ),
{
    let e1 = grid(b, a, v);
    let e2 = turned(grid(a, b, v));
    assert forall|j: int, i: int| 0 <= j < b.len() && 0 <= i < a.len() implies #[trigger] e1(j, i)
        == e2(j, i) by {
        assert(a[i].wf() && b[j].wf());
        lemma_term_product_commutes(a[i], b[j]);
        assert(e1(j, i) == entry(b[j], a[i], v));
        assert(e2(j, i) == grid(a, b, v)(i, j));
        assert(grid(a, b, v)(i, j) == entry(a[i], b[j], v));
    }
    lemma_rows_total_same(e1, e2, b.len(), a.len());
}

/// The product of two canonical lists is the same in either order, where
/// both products exist.
pub proof fn lemma_product_terms_commute(a: Seq<TermView>, b: Seq<TermView>)
    requires
        canonical(a),
        canonical(b),
        terms_wf(a),
        terms_wf(b),
        product_terms(a, b) is Ok,
        product_terms(b, a) is Ok,
    ensures
        product_terms(a, b) == product_terms(b, a),
{
    let p = product_terms(a, b).unwrap();
    let q = product_terms(b, a).unwrap();
    let none = Seq::<VarView>::empty();
    lemma_product_coefficient(a, b, none);
    lemma_product_coefficient(b, a, none);
    assert forall|v: Seq<VarView>| coefficient_of(p, v) == #[trigger] coefficient_of(q, v) by {
        lemma_product_coefficient(a, b, v);
        lemma_product_coefficient(b, a, v);
        lemma_fubini(grid(a, b, v), a.len(), b.len());
        lemma_turned_total(grid(a, b, v), a.len(), b.len());
        lemma_grid_turned(a, b, v);
        let total = rows_total(grid(a, b, v), a.len(), b.len());
        assert(rows_total(grid(b, a, v), b.len(), a.len()) == total);
        assert(same_value(total, pair_of(coefficient_of(q, v))));
        lemma_value_transitive(
            pair_of(coefficient_of(p, v)),
            total,
            pair_of(coefficient_of(q, v)),
        );
        lemma_same_value_unique(coefficient_of(p, v), coefficient_of(q, v));
    }
    assert forall|v: Seq<VarView>| coefficient_of(q, v) == #[trigger] coefficient_of(p, v) by {
        assert(coefficient_of(p, v) == coefficient_of(q, v));
    }
    lemma_same_coefficients(p, q);
    lemma_same_coefficients(q, p);
    assert(same_terms(p, q));
    lemma_terms_degrees_wf(p);
    lemma_terms_degrees_wf(q);
    lemma_sorted_unique(p, q);
}

/// The product of two polynomials in canonical form is the same in either
/// order, where both products exist.
pub proof fn lemma_mul_commutative(a: PolyView, b: PolyView)
    requires
        a.wf(),
        b.wf(),
        canonical(a.terms),
        canonical(b.terms),
        a.product(b) is Ok,
        b.product(a) is Ok,
    ensures
        a.product(b) == b.product(a),
{
    lemma_product_terms_commute(a.terms, b.terms);
}

/// The degree that the product of two lists of variables in canonical form
/// gives to a name: the sum of the two degrees where both hold the name,
/// else the one degree there is.
pub proof fn lemma_merged_degree(u: Seq<VarView>, w: Seq<VarView>, n: Seq<char>)
    requires
        normal_vars(u),
        normal_vars(w),
        vars_wf(u),
        vars_wf(w),
        crate::distribute::merged_vars(u, w) is Ok,
    ensures
        Ok::<Rational, AlgebraError>(
            degree_of_name(crate::distribute::merged_vars(u, w).unwrap(), n),
        ) == if index_of_name(w, n) >= 0 {
            degree_of_name(u, n).spec_add(degree_of_name(w, n))
        } else {
            Ok::<Rational, AlgebraError>(degree_of_name(u, n))
        },
        normal_vars(crate::distribute::merged_vars(u, w).unwrap()),
        vars_wf(crate::distribute::merged_vars(u, w).unwrap()),
        degree_of_name(u, n).wf(),
        degree_of_name(w, n).wf(),
        index_of_name(w, n) < 0 ==> degree_of_name(w, n) == Rational::spec_zero(),
        index_of_name(w, n) >= 0 ==> degree_of_name(w, n).numer != 0,
{
    lemma_one_wf();
    let t = TermView { coefficient: Rational::spec_one(), variables: u + w };
    lemma_vars_concat_wf(u, w);
    lemma_wf_vars_positive(u + w);
    lemma_normal_term_props(t);
    lemma_normal_term_wf(t);
    lemma_normal_degree(t, n);
    lemma_joined_sum(u, w, n);
    lemma_sum_is_degree(u, n);
    lemma_sum_is_degree(w, n);
    lemma_index_of_name(w, n);
}

} // verus!
