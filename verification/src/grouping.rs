//! The product of three polynomials does not depend on the grouping.
//!
//! Both groupings are held against the sum over all triples of terms, one
//! of each polynomial, whose degrees add up to those of the variables in
//! question. The degrees are added as pairs of integers, so that nothing
//! depends on which sums of degrees fit the machine.

use crate::associate::{coefficient_of, lemma_coefficient_of_member, lemma_same_coefficients, lemma_terms_degrees_wf};
use crate::canonical::{all_normal, canonical, normal_vars};
use crate::degrees::{degree_of_name, lemma_same_degrees};
use crate::distribute::{all_products, all_term_products, column, columns, lemma_column_nothing, lemma_column_of, lemma_column_single, lemma_columns_total, lemma_product_vars, lemma_zero_entry, merged_vars};
use crate::error::AlgebraError;
use crate::exact::{lemma_product_exists, lemma_products_turned};
use crate::layers::{layer, layers_total, lemma_layers_are_sheets, lemma_nothing_scaled, lemma_pairs_positive, lemma_rows_scaled, lemma_sheets_value, positive_grid, scaled_grid, sheet, sheets_total};
use crate::number::{lemma_plus_compatible, lemma_plus_compatible_both, lemma_product_pair, lemma_same_value_unique, lemma_sum_pair, lemma_times_compatible, lemma_value_symmetric, lemma_value_transitive, pair_of, plus_pair, same_value, times_pair};
use crate::polynomial::{PolyView, index_of_vars, lemma_index_of_vars, product_terms, terms_wf};
use crate::product::{entry, grid, lemma_grid_turned, lemma_merged_degree, lemma_product_coefficient, lemma_rows_total_same};
use crate::tally::{lemma_fubini, lemma_plus_associates, lemma_plus_commutes, lemma_turned_total, row_sum, rows_total};
use crate::term::{TermView, VarView, index_of_name, vars_wf};
use crate::unique::{lemma_sorted_unique, same_terms};
use crate::wellformed::lemma_term_product_wf;
use vstd::prelude::*;

verus! {

/// The degree that the variables give to the name, as a pair.
pub open spec fn degree_pair(u: Seq<VarView>, n: Seq<char>) -> (int, int) {
    pair_of(degree_of_name(u, n))
}

/// The degrees that two lists of variables give to the name, added.
pub open spec fn degree_of_two(w: Seq<VarView>, y: Seq<VarView>, n: Seq<char>) -> (int, int) {
    plus_pair(degree_pair(w, n), degree_pair(y, n))
}

/// The degrees that three lists of variables give to the name, added.
pub open spec fn degree_of_three(
    u: Seq<VarView>,
    x: Seq<VarView>,
    y: Seq<VarView>,
    n: Seq<char>,
) -> (int, int) {
    plus_pair(plus_pair(degree_pair(u, n), degree_pair(x, n)), degree_pair(y, n))
}

/// The variables `v` give every name the value of the degrees that `w`
/// and `y` give it, added.
pub open spec fn two_give(w: Seq<VarView>, y: Seq<VarView>, v: Seq<VarView>) -> bool {
    forall|n: Seq<char>| same_value(#[trigger] degree_of_two(w, y, n), degree_pair(v, n))
}

/// The variables `v` give every name the value of the degrees that `u`,
/// `x` and `y` give it, added.
pub open spec fn three_give(
    u: Seq<VarView>,
    x: Seq<VarView>,
    y: Seq<VarView>,
    v: Seq<VarView>,
) -> bool {
    forall|n: Seq<char>| same_value(#[trigger] degree_of_three(u, x, y, n), degree_pair(v, n))
}

/// Two sums of pairs with a common second pair have the same value only
/// where the first pairs have.
pub proof fn lemma_plus_cancel(a: (int, int), b: (int, int), c: (int, int))
    requires
        a.1 > 0,
        b.1 > 0,
        c.1 > 0,
        same_value(plus_pair(a, c), plus_pair(b, c)),
    ensures
        same_value(a, b),
{
    let (a0, a1, b0, b1, c0, c1) = (a.0, a.1, b.0, b.1, c.0, c.1);
    assert((a0 * c1 + c0 * a1) * (b1 * c1) == (b0 * c1 + c0 * b1) * (a1 * c1));
    vstd::arithmetic::mul::lemma_mul_is_distributive_add_other_way(b1 * c1, a0 * c1, c0 * a1);
    vstd::arithmetic::mul::lemma_mul_is_distributive_add_other_way(a1 * c1, b0 * c1, c0 * b1);
    assert((a0 * c1) * (b1 * c1) == (a0 * b1) * (c1 * c1)) by (nonlinear_arith);
    assert((c0 * a1) * (b1 * c1) == (c0 * c1) * (a1 * b1)) by (nonlinear_arith);
    assert((b0 * c1) * (a1 * c1) == (b0 * a1) * (c1 * c1)) by (nonlinear_arith);
    assert((c0 * b1) * (a1 * c1) == (c0 * c1) * (a1 * b1)) by (nonlinear_arith);
    assert((a0 * b1) * (c1 * c1) == (b0 * a1) * (c1 * c1));
    assert(c1 * c1 > 0) by (nonlinear_arith)
        requires
            c1 > 0,
    ;
    assert(a0 * b1 == b0 * a1) by (nonlinear_arith)
        requires
            (a0 * b1) * (c1 * c1) == (b0 * a1) * (c1 * c1),
            c1 * c1 > 0,
    ;
}

/// The degree that the product of two lists of variables in canonical
/// form gives to a name has the value of the two degrees added.
pub proof fn lemma_merged_value(u: Seq<VarView>, w: Seq<VarView>, n: Seq<char>)
    requires
        normal_vars(u),
        normal_vars(w),
        vars_wf(u),
        vars_wf(w),
        merged_vars(u, w) is Ok,
    ensures
        same_value(degree_pair(merged_vars(u, w).unwrap(), n), degree_of_two(u, w, n)),
        degree_pair(merged_vars(u, w).unwrap(), n).1 > 0,
        degree_pair(u, n).1 > 0,
        degree_pair(w, n).1 > 0,
        degree_of_two(u, w, n).1 > 0,
        normal_vars(merged_vars(u, w).unwrap()),
        vars_wf(merged_vars(u, w).unwrap()),
{
    lemma_merged_degree(u, w, n);
    let m = merged_vars(u, w).unwrap();
    lemma_degree_wf(m, n);
    let (du, dw) = (degree_of_name(u, n), degree_of_name(w, n));
    assert(du.denom * dw.denom > 0) by (nonlinear_arith)
        requires
            du.denom > 0,
            dw.denom > 0,
    ;
    if index_of_name(w, n) >= 0 {
        lemma_sum_pair(du, dw);
    } else {
        assert(degree_of_two(u, w, n) == (du.numer * 1 + 0 * du.denom, du.denom * 1));
    }
}

/// The degree that variables in lowest terms give to a name is in lowest
/// terms.
pub proof fn lemma_degree_wf(u: Seq<VarView>, n: Seq<char>)
    requires
        vars_wf(u),
    ensures
        degree_of_name(u, n).wf(),
        degree_pair(u, n).1 > 0,
{
    crate::associate::lemma_zero_wf();
    crate::term::lemma_index_of_name(u, n);
    let i = index_of_name(u, n);
    if i >= 0 {
        assert(u[i].degree.wf());
    }
}

/// Three lists give the variables `v` where the product of the first two
/// and the third give them, and only there.
pub proof fn lemma_three_by_two(u: Seq<VarView>, x: Seq<VarView>, y: Seq<VarView>, v: Seq<VarView>)
    requires
        normal_vars(u),
        normal_vars(x),
        vars_wf(u),
        vars_wf(x),
        vars_wf(y),
        merged_vars(u, x) is Ok,
    ensures
        three_give(u, x, y, v) <==> two_give(merged_vars(u, x).unwrap(), y, v),
{
    let w = merged_vars(u, x).unwrap();
    assert forall|n: Seq<char>|
        same_value(#[trigger] degree_of_three(u, x, y, n), degree_of_two(w, y, n))
        && degree_of_three(u, x, y, n).1 > 0 && degree_of_two(w, y, n).1 > 0 by {
        lemma_merged_value(u, x, n);
        lemma_degree_wf(y, n);
        lemma_plus_compatible(degree_pair(w, n), degree_of_two(u, x, n), degree_pair(y, n));
        lemma_value_symmetric(degree_of_two(w, y, n), degree_of_three(u, x, y, n));
        let (a, b, c) = (degree_of_two(u, x, n).1, degree_pair(y, n).1, degree_pair(w, n).1);
        assert(a * b > 0 && c * b > 0) by (nonlinear_arith)
            requires
                a > 0,
                b > 0,
                c > 0,
        ;
    }
    if three_give(u, x, y, v) {
        assert forall|n: Seq<char>|
            same_value(#[trigger] degree_of_two(w, y, n), degree_pair(v, n)) by {
            let t = degree_of_three(u, x, y, n);
            assert(same_value(t, degree_pair(v, n)));
            lemma_value_symmetric(t, degree_of_two(w, y, n));
            lemma_value_transitive(degree_of_two(w, y, n), t, degree_pair(v, n));
        }
    }
    if two_give(w, y, v) {
        assert forall|n: Seq<char>|
            same_value(#[trigger] degree_of_three(u, x, y, n), degree_pair(v, n)) by {
            let t = degree_of_two(w, y, n);
            assert(same_value(t, degree_pair(v, n)));
            assert(same_value(degree_of_three(u, x, y, n), t));
            lemma_value_transitive(degree_of_three(u, x, y, n), t, degree_pair(v, n));
        }
    }
}

/// Two lists of variables in canonical form that give the same variables
/// together with a third list are the same list.
pub proof fn lemma_two_give_one(w1: Seq<VarView>, w2: Seq<VarView>, y: Seq<VarView>, v: Seq<VarView>)
    requires
        normal_vars(w1),
        normal_vars(w2),
        vars_wf(w1),
        vars_wf(w2),
        vars_wf(y),
        vars_wf(v),
        two_give(w1, y, v),
        two_give(w2, y, v),
    ensures
        w1 == w2,
{
    assert forall|n: Seq<char>| degree_of_name(w1, n) == #[trigger] degree_of_name(w2, n) by {
        lemma_degree_wf(w1, n);
        lemma_degree_wf(w2, n);
        lemma_degree_wf(y, n);
        lemma_degree_wf(v, n);
        let (s1, s2) = (degree_of_two(w1, y, n), degree_of_two(w2, y, n));
        assert(same_value(s1, degree_pair(v, n)));
        assert(same_value(s2, degree_pair(v, n)));
        lemma_value_symmetric(s2, degree_pair(v, n));
        lemma_value_transitive(s1, degree_pair(v, n), s2);
        lemma_plus_cancel(degree_pair(w1, n), degree_pair(w2, n), degree_pair(y, n));
        lemma_same_value_unique(degree_of_name(w1, n), degree_of_name(w2, n));
    }
    lemma_same_degrees(w1, w2);
}

/// The product of two lists of variables in canonical form is given by
/// the two lists.
pub proof fn lemma_merged_gives(w: Seq<VarView>, y: Seq<VarView>)
    requires
        normal_vars(w),
        normal_vars(y),
        vars_wf(w),
        vars_wf(y),
        merged_vars(w, y) is Ok,
    ensures
        two_give(w, y, merged_vars(w, y).unwrap()),
{
    let m = merged_vars(w, y).unwrap();
    assert forall|n: Seq<char>| same_value(#[trigger] degree_of_two(w, y, n), degree_pair(m, n)) by {
        lemma_merged_value(w, y, n);
        lemma_value_symmetric(degree_pair(m, n), degree_of_two(w, y, n));
    }
}

/// Variables in canonical form that two lists give are the product of the
/// two lists, where that product exists.
pub proof fn lemma_given_is_merged(w: Seq<VarView>, y: Seq<VarView>, v: Seq<VarView>)
    requires
        normal_vars(w),
        normal_vars(y),
        normal_vars(v),
        vars_wf(w),
        vars_wf(y),
        vars_wf(v),
        merged_vars(w, y) is Ok,
        two_give(w, y, v),
    ensures
        merged_vars(w, y) == Ok::<Seq<VarView>, AlgebraError>(v),
{
    let m = merged_vars(w, y).unwrap();
    lemma_merged_value(w, y, Seq::<char>::empty());
    assert forall|n: Seq<char>| degree_of_name(m, n) == #[trigger] degree_of_name(v, n) by {
        lemma_merged_value(w, y, n);
        lemma_degree_wf(v, n);
        assert(same_value(degree_of_two(w, y, n), degree_pair(v, n)));
        lemma_value_transitive(degree_pair(m, n), degree_of_two(w, y, n), degree_pair(v, n));
        lemma_degree_wf(m, n);
        lemma_same_value_unique(degree_of_name(m, n), degree_of_name(v, n));
    }
    lemma_same_degrees(m, v);
}

/// What three lists give does not depend on which of them comes last.
pub proof fn lemma_three_turned(u: Seq<VarView>, x: Seq<VarView>, y: Seq<VarView>, v: Seq<VarView>)
    ensures
        three_give(u, x, y, v) <==> three_give(x, y, u, v),
{
    assert forall|n: Seq<char>| #[trigger]
        degree_of_three(u, x, y, n) == degree_of_three(x, y, u, n) by {
        let (a, b, c) = (degree_pair(u, n), degree_pair(x, n), degree_pair(y, n));
        lemma_plus_associates(a, b, c);
        lemma_plus_commutes(a, plus_pair(b, c));
    }
    if three_give(u, x, y, v) {
        assert forall|n: Seq<char>|
            same_value(#[trigger] degree_of_three(x, y, u, n), degree_pair(v, n)) by {
            assert(degree_of_three(u, x, y, n) == degree_of_three(x, y, u, n));
        }
    }
    if three_give(x, y, u, v) {
        assert forall|n: Seq<char>|
            same_value(#[trigger] degree_of_three(u, x, y, n), degree_pair(v, n)) by {
            assert(degree_of_three(u, x, y, n) == degree_of_three(x, y, u, n));
        }
    }
}

/// What the product of two terms adds to the coefficient of the variables
/// `v` once it is multiplied by the variables `y`: its coefficient where
/// the three lists of variables give `v`, else nothing.
pub open spec fn triple_entry(t: TermView, u: TermView, y: Seq<VarView>, v: Seq<VarView>) -> (
    int,
    int,
) {
    if three_give(t.variables, u.variables, y, v) {
        match t.product(u) {
            Ok(p) => pair_of(p.coefficient),
            Err(_) => (0, 1),
        }
    } else {
        (0, 1)
    }
}

/// The triple entries of all products of a term of `a` and a term of `b`.
pub open spec fn triple_grid(
    a: Seq<TermView>,
    b: Seq<TermView>,
    y: Seq<VarView>,
    v: Seq<VarView>,
) -> spec_fn(int, int) -> (int, int) {
    |i: int, j: int| triple_entry(a[i], b[j], y, v)
}

/// Where `w` and `y` give `v`, the product of two terms adds to `v`, once
/// multiplied by `y`, what it adds to `w`.
pub proof fn lemma_triple_is_entry(
    t: TermView,
    u: TermView,
    w: Seq<VarView>,
    y: Seq<VarView>,
    v: Seq<VarView>,
)
    requires
        t.wf(),
        u.wf(),
        normal_vars(t.variables),
        normal_vars(u.variables),
        t.product(u) is Ok,
        normal_vars(w),
        vars_wf(w),
        vars_wf(y),
        vars_wf(v),
        two_give(w, y, v),
    ensures
        triple_entry(t, u, y, v) == entry(t, u, w),
{
    lemma_product_vars(t, u);
    let m = merged_vars(t.variables, u.variables).unwrap();
    lemma_merged_value(t.variables, u.variables, Seq::<char>::empty());
    lemma_three_by_two(t.variables, u.variables, y, v);
    if two_give(m, y, v) {
        lemma_two_give_one(m, w, y, v);
    }
}

/// A grid of entries that are all nothing adds up to nothing.
pub proof fn lemma_rows_nothing(e: spec_fn(int, int) -> (int, int), n: nat, m: nat)
    requires
        forall|i: int, j: int| 0 <= i < n && 0 <= j < m ==> #[trigger] e(i, j) == (0int, 1int),
    ensures
        rows_total(e, n, m) == (0int, 1int),
    decreases n,
{
    if n > 0 {
        lemma_rows_nothing(e, (n - 1) as nat, m);
        lemma_row_nothing(e, n - 1, n, m, m);
    }
}

/// A row of entries that are all nothing adds up to nothing.
pub proof fn lemma_row_nothing(e: spec_fn(int, int) -> (int, int), i: int, n: nat, m: nat, k: nat)
    requires
        0 <= i < n,
        k <= m,
        forall|i: int, j: int| 0 <= i < n && 0 <= j < m ==> #[trigger] e(i, j) == (0int, 1int),
    ensures
        row_sum(e, i, k) == (0int, 1int),
    decreases k,
{
    if k > 0 {
        lemma_row_nothing(e, i, n, m, (k - 1) as nat);
        assert(e(i, k - 1) == (0int, 1int));
    }
}

/// Where `w` and `y` give `v`, the triple grid adds up to what the grid
/// of the products adds to `w`.
pub proof fn lemma_triple_grid_total(
    a: Seq<TermView>,
    b: Seq<TermView>,
    w: Seq<VarView>,
    y: Seq<VarView>,
    v: Seq<VarView>,
)
    requires
        terms_wf(a),
        terms_wf(b),
        all_normal(a),
        all_normal(b),
        all_term_products(a, b),
        normal_vars(w),
        vars_wf(w),
        vars_wf(y),
        vars_wf(v),
        two_give(w, y, v),
    ensures
        rows_total(triple_grid(a, b, y, v), a.len(), b.len()) == rows_total(
            grid(a, b, w),
            a.len(),
            b.len(),
        ),
{
    let e1 = triple_grid(a, b, y, v);
    let e2 = grid(a, b, w);
    assert forall|i: int, j: int| 0 <= i < a.len() && 0 <= j < b.len() implies #[trigger] e1(i, j)
        == e2(i, j) by {
        assert(all_products(a, b[j]));
        assert(a[i].product(b[j]) is Ok);
        assert(a[i].wf() && b[j].wf());
        lemma_triple_is_entry(a[i], b[j], w, y, v);
        assert(e1(i, j) == triple_entry(a[i], b[j], y, v));
        assert(e2(i, j) == entry(a[i], b[j], w));
    }
    lemma_rows_total_same(e1, e2, a.len(), b.len());
}

/// `lemma_column_value` where variables `w` are known that give `v`
/// together with those of `y`.
pub proof fn lemma_column_with(
    a: Seq<TermView>,
    b: Seq<TermView>,
    y: TermView,
    v: Seq<VarView>,
    w: Seq<VarView>,
)
    requires
        terms_wf(a),
        terms_wf(b),
        all_normal(a),
        all_normal(b),
        product_terms(a, b) is Ok,
        y.wf(),
        normal_vars(y.variables),
        all_products(product_terms(a, b).unwrap(), y),
        normal_vars(v),
        vars_wf(v),
        normal_vars(w),
        vars_wf(w),
        two_give(w, y.variables, v),
    ensures
        same_value(
            column(product_terms(a, b).unwrap(), y, v),
            times_pair(
                rows_total(triple_grid(a, b, y.variables, v), a.len(), b.len()),
                pair_of(y.coefficient),
            ),
        ),
        column(product_terms(a, b).unwrap(), y, v).1 > 0,
        rows_total(triple_grid(a, b, y.variables, v), a.len(), b.len()).1 > 0,
{
    let p = product_terms(a, b).unwrap();
    lemma_product_exists(a, b);
    let yv = y.variables;
    let yc = pair_of(y.coefficient);
    lemma_triple_grid_total(a, b, w, yv, v);
    lemma_product_coefficient(a, b, w);
    let total = rows_total(grid(a, b, w), a.len(), b.len());
    let c = pair_of(coefficient_of(p, w));
    lemma_index_of_vars(p, w);
    let k = index_of_vars(p, w);
    if k >= 0 {
        assert(p[k].product(y) is Ok);
        lemma_product_vars(p[k], y);
        lemma_given_is_merged(w, yv, v);
        lemma_column_of(p, y, v, w);
        lemma_times_compatible(c, total, yc);
        lemma_value_transitive(column(p, y, v), times_pair(c, yc), times_pair(total, yc));
        assert(same_value(column(p, y, v), times_pair(total, yc)));
    } else {
        lemma_column_lost(p, y, v, w);
        assert(c == (0int, 1int));
        assert(total.0 == 0) by (nonlinear_arith)
            requires
                0 * total.1 == total.0 * 1,
        ;
        assert(times_pair(total, yc).0 == 0) by (nonlinear_arith)
            requires
                times_pair(total, yc).0 == total.0 * yc.0,
                total.0 == 0,
        ;
        assert(same_value(column(p, y, v), times_pair(total, yc)));
    }
    assert(rows_total(triple_grid(a, b, yv, v), a.len(), b.len()) == total);
}

/// Where `w` and the variables of `y` give `v` and no term of `p` has the
/// variables `w`, the terms of `p` times `y` add nothing to `v`.
pub proof fn lemma_column_lost(p: Seq<TermView>, y: TermView, v: Seq<VarView>, w: Seq<VarView>)
    requires
        terms_wf(p),
        all_normal(p),
        y.wf(),
        normal_vars(y.variables),
        vars_wf(v),
        normal_vars(w),
        vars_wf(w),
        two_give(w, y.variables, v),
        index_of_vars(p, w) < 0,
    ensures
        column(p, y, v) == (0int, 1int),
{
    let yv = y.variables;
    lemma_index_of_vars(p, w);
    assert forall|m: int| 0 <= m < p.len() implies merged_vars((#[trigger] p[m]).variables, yv)
        != Ok::<Seq<VarView>, AlgebraError>(v) by {
        if merged_vars(p[m].variables, yv) == Ok::<Seq<VarView>, AlgebraError>(v) {
            assert(p[m].wf());
            assert(normal_vars(p[m].variables));
            lemma_merged_gives(p[m].variables, yv);
            lemma_two_give_one(p[m].variables, w, yv, v);
            assert(false);
        }
    }
    lemma_column_nothing(p, y, v);
}

/// Where no product of a term of `a` and a term of `b` gives `v` together
/// with `y`, no term of the product of `a` and `b` does, unless its
/// coefficient is zero.
pub proof fn lemma_term_unmatched(
    a: Seq<TermView>,
    b: Seq<TermView>,
    y: Seq<VarView>,
    v: Seq<VarView>,
    m: int,
)
    requires
        terms_wf(a),
        terms_wf(b),
        all_normal(a),
        all_normal(b),
        product_terms(a, b) is Ok,
        normal_vars(y),
        vars_wf(y),
        vars_wf(v),
        forall|i: int, j: int|
            0 <= i < a.len() && 0 <= j < b.len() ==> !three_give(
                (#[trigger] a[i]).variables,
                (#[trigger] b[j]).variables,
                y,
                v,
            ),
        0 <= m < product_terms(a, b).unwrap().len(),
        product_terms(a, b).unwrap()[m].coefficient.numer != 0,
    ensures
        merged_vars(product_terms(a, b).unwrap()[m].variables, y) != Ok::<
            Seq<VarView>,
            AlgebraError,
        >(v),
{
    let p = product_terms(a, b).unwrap();
    lemma_product_exists(a, b);
    let w = p[m].variables;
    assert(p[m].wf() && normal_vars(w));
    if merged_vars(w, y) == Ok::<Seq<VarView>, AlgebraError>(v) {
        lemma_merged_gives(w, y);
        lemma_coefficient_of_member(p, m);
        lemma_product_coefficient(a, b, w);
        lemma_triple_grid_total(a, b, w, y, v);
        let g = triple_grid(a, b, y, v);
        assert forall|i: int, j: int| 0 <= i < a.len() && 0 <= j < b.len() implies #[trigger] g(
            i,
            j,
        ) == (0int, 1int) by {
            assert(!three_give(a[i].variables, b[j].variables, y, v));
        }
        lemma_rows_nothing(g, a.len(), b.len());
        assert(false);
    }
}

/// `lemma_column_value` where no product of a term of `a` and a term of
/// `b` gives `v` together with `y`.
pub proof fn lemma_column_without(a: Seq<TermView>, b: Seq<TermView>, y: TermView, v: Seq<VarView>)
    requires
        terms_wf(a),
        terms_wf(b),
        all_normal(a),
        all_normal(b),
        product_terms(a, b) is Ok,
        y.wf(),
        normal_vars(y.variables),
        vars_wf(v),
        forall|i: int, j: int|
            0 <= i < a.len() && 0 <= j < b.len() ==> !three_give(
                (#[trigger] a[i]).variables,
                (#[trigger] b[j]).variables,
                y.variables,
                v,
            ),
    ensures
        column(product_terms(a, b).unwrap(), y, v) == (0int, 1int),
        rows_total(triple_grid(a, b, y.variables, v), a.len(), b.len()) == (0int, 1int),
{
    let p = product_terms(a, b).unwrap();
    lemma_product_exists(a, b);
    let yv = y.variables;
    let g = triple_grid(a, b, yv, v);
    assert forall|i: int, j: int| 0 <= i < a.len() && 0 <= j < b.len() implies #[trigger] g(i, j)
        == (0int, 1int) by {
        assert(!three_give(a[i].variables, b[j].variables, yv, v));
    }
    lemma_rows_nothing(g, a.len(), b.len());
    assert forall|m: int| 0 <= m < p.len() && m != -1 implies entry(#[trigger] p[m], y, v) == (
        0int,
        1int,
    ) by {
        if p[m].coefficient.numer == 0 {
            assert(p == seq![TermView::zero()]);
            lemma_zero_entry(y, v);
        } else {
            lemma_product_vars(p[m], y);
            lemma_term_unmatched(a, b, yv, v, m);
        }
    }
    lemma_column_single(p, y, v, -1);
}

/// What the terms of a product of two lists add, once multiplied by the
/// term `y`, to the coefficient of the variables `v`: the value of the
/// triple grid added up, times the coefficient of `y`.
pub proof fn lemma_column_value(a: Seq<TermView>, b: Seq<TermView>, y: TermView, v: Seq<VarView>)
    requires
        terms_wf(a),
        terms_wf(b),
        all_normal(a),
        all_normal(b),
        product_terms(a, b) is Ok,
        y.wf(),
        normal_vars(y.variables),
        all_products(product_terms(a, b).unwrap(), y),
        normal_vars(v),
        vars_wf(v),
    ensures
        same_value(
            column(product_terms(a, b).unwrap(), y, v),
            times_pair(
                rows_total(triple_grid(a, b, y.variables, v), a.len(), b.len()),
                pair_of(y.coefficient),
            ),
        ),
        column(product_terms(a, b).unwrap(), y, v).1 > 0,
        rows_total(triple_grid(a, b, y.variables, v), a.len(), b.len()).1 > 0,
{
    let yv = y.variables;
    if exists|i: int, j: int|
        0 <= i < a.len() && 0 <= j < b.len() && three_give(
            (#[trigger] a[i]).variables,
            (#[trigger] b[j]).variables,
            yv,
            v,
        ) {
        let (i0, j0) = choose|i: int, j: int|
            0 <= i < a.len() && 0 <= j < b.len() && three_give(
                (#[trigger] a[i]).variables,
                (#[trigger] b[j]).variables,
                yv,
                v,
            );
        lemma_product_exists(a, b);
        assert(all_products(a, b[j0]));
        assert(a[i0].product(b[j0]) is Ok);
        assert(a[i0].wf() && b[j0].wf());
        lemma_product_vars(a[i0], b[j0]);
        let w = merged_vars(a[i0].variables, b[j0].variables).unwrap();
        lemma_merged_value(a[i0].variables, b[j0].variables, Seq::<char>::empty());
        lemma_three_by_two(a[i0].variables, b[j0].variables, yv, v);
        lemma_column_with(a, b, y, v, w);
    } else {
        lemma_column_without(a, b, y, v);
    }
}

/// What the triple of the terms `i` of `a`, `j` of `b` and `k` of `c` adds
/// to the coefficient of `v` in the product of `a` and `b`, times `c`.
pub open spec fn left_block(
    a: Seq<TermView>,
    b: Seq<TermView>,
    c: Seq<TermView>,
    v: Seq<VarView>,
) -> spec_fn(int, int, int) -> (int, int) {
    |i: int, j: int, k: int|
        times_pair(triple_entry(a[i], b[j], c[k].variables, v), pair_of(c[k].coefficient))
}

/// What the triple of the terms `i` of `a`, `j` of `b` and `k` of `c` adds
/// to the coefficient of `v` in `a` times the product of `b` and `c`.
pub open spec fn right_block(
    a: Seq<TermView>,
    b: Seq<TermView>,
    c: Seq<TermView>,
    v: Seq<VarView>,
) -> spec_fn(int, int, int) -> (int, int) {
    |i: int, j: int, k: int|
        times_pair(triple_entry(b[j], c[k], a[i].variables, v), pair_of(a[i].coefficient))
}

/// A triple entry of terms in lowest terms has a positive denominator.
pub proof fn lemma_triple_positive(t: TermView, u: TermView, y: Seq<VarView>, v: Seq<VarView>)
    requires
        t.wf(),
        u.wf(),
    ensures
        triple_entry(t, u, y, v).1 > 0,
{
    if t.product(u) is Ok {
        lemma_term_product_wf(t, u);
    }
}

/// The product of three pairs does not depend on which of them comes
/// last.
pub proof fn lemma_times_turned(a: (int, int), b: (int, int), c: (int, int))
    ensures
        times_pair(times_pair(a, b), c) == times_pair(times_pair(b, c), a),
{
    assert((a.0 * b.0) * c.0 == (b.0 * c.0) * a.0) by (nonlinear_arith);
    assert((a.1 * b.1) * c.1 == (b.1 * c.1) * a.1) by (nonlinear_arith);
}

/// A triple of terms adds the same value in both groupings.
pub proof fn lemma_blocks_same(
    a: Seq<TermView>,
    b: Seq<TermView>,
    c: Seq<TermView>,
    v: Seq<VarView>,
    i: int,
    j: int,
    k: int,
)
    requires
        0 <= i < a.len(),
        0 <= j < b.len(),
        0 <= k < c.len(),
        a[i].wf(),
        b[j].wf(),
        c[k].wf(),
        a[i].product(b[j]) is Ok,
        b[j].product(c[k]) is Ok,
    ensures
        same_value(left_block(a, b, c, v)(i, j, k), right_block(a, b, c, v)(i, j, k)),
        left_block(a, b, c, v)(i, j, k).1 > 0,
        right_block(a, b, c, v)(i, j, k).1 > 0,
{
    let (x, y, z) = (a[i], b[j], c[k]);
    let (xc, yc, zc) = (pair_of(x.coefficient), pair_of(y.coefficient), pair_of(z.coefficient));
    let left = left_block(a, b, c, v)(i, j, k);
    let right = right_block(a, b, c, v)(i, j, k);
    assert(left == times_pair(triple_entry(x, y, z.variables, v), zc));
    assert(right == times_pair(triple_entry(y, z, x.variables, v), xc));
    lemma_triple_positive(x, y, z.variables, v);
    lemma_triple_positive(y, z, x.variables, v);
    lemma_pairs_positive(triple_entry(x, y, z.variables, v), zc);
    lemma_pairs_positive(triple_entry(y, z, x.variables, v), xc);
    lemma_three_turned(x.variables, y.variables, z.variables, v);
    if three_give(x.variables, y.variables, z.variables, v) {
        let xy = x.product(y).unwrap();
        let yz = y.product(z).unwrap();
        lemma_product_vars(x, y);
        lemma_product_vars(y, z);
        lemma_product_pair(x.coefficient, y.coefficient);
        lemma_product_pair(y.coefficient, z.coefficient);
        lemma_times_compatible(pair_of(xy.coefficient), times_pair(xc, yc), zc);
        lemma_times_compatible(pair_of(yz.coefficient), times_pair(yc, zc), xc);
        lemma_times_turned(xc, yc, zc);
        let middle = times_pair(times_pair(xc, yc), zc);
        lemma_pairs_positive(xc, yc);
        lemma_pairs_positive(times_pair(xc, yc), zc);
        lemma_value_symmetric(right, middle);
        lemma_value_transitive(left, middle, right);
    } else {
        lemma_nothing_scaled(zc);
        lemma_nothing_scaled(xc);
    }
}

/// The columns of the product of `a` and `b` against the first `m` terms
/// of `c` add up to the value of the first `m` layers of the left block.
pub proof fn lemma_left_columns(
    a: Seq<TermView>,
    b: Seq<TermView>,
    c: Seq<TermView>,
    v: Seq<VarView>,
    m: nat,
)
    requires
        terms_wf(a),
        terms_wf(b),
        terms_wf(c),
        all_normal(a),
        all_normal(b),
        all_normal(c),
        product_terms(a, b) is Ok,
        all_term_products(product_terms(a, b).unwrap(), c),
        normal_vars(v),
        vars_wf(v),
        m <= c.len(),
    ensures
        same_value(
            columns(product_terms(a, b).unwrap(), c, v, m),
            layers_total(left_block(a, b, c, v), a.len(), b.len(), m),
        ),
        columns(product_terms(a, b).unwrap(), c, v, m).1 > 0,
        layers_total(left_block(a, b, c, v), a.len(), b.len(), m).1 > 0,
    decreases m,
{
    let p = product_terms(a, b).unwrap();
    let f = left_block(a, b, c, v);
    if m > 0 {
        let k = (m - 1) as nat;
        lemma_left_columns(a, b, c, v, k);
        let y = c[k as int];
        let yc = pair_of(y.coefficient);
        assert(y.wf() && normal_vars(y.variables));
        assert(all_products(p, y));
        lemma_column_value(a, b, y, v);
        let tg = triple_grid(a, b, y.variables, v);
        assert(positive_grid(tg, a.len(), b.len())) by {
            assert forall|i: int, j: int| 0 <= i < a.len() && 0 <= j < b.len() implies (
            #[trigger] tg(i, j)).1 > 0 by {
                assert(a[i].wf() && b[j].wf());
                lemma_triple_positive(a[i], b[j], y.variables, v);
            }
        }
        lemma_rows_scaled(tg, yc, a.len(), b.len());
        let sg = scaled_grid(tg, yc);
        let lay = layer(f, k as int);
        assert forall|i: int, j: int| 0 <= i < a.len() && 0 <= j < b.len() implies #[trigger] sg(
            i,
            j,
        ) == lay(i, j) by {
            assert(sg(i, j) == times_pair(tg(i, j), yc));
            assert(lay(i, j) == f(i, j, k as int));
        }
        lemma_rows_total_same(sg, lay, a.len(), b.len());
        lemma_pairs_positive(rows_total(tg, a.len(), b.len()), yc);
        lemma_value_transitive(
            column(p, y, v),
            times_pair(rows_total(tg, a.len(), b.len()), yc),
            rows_total(lay, a.len(), b.len()),
        );
        lemma_plus_compatible_both(
            columns(p, c, v, k),
            layers_total(f, a.len(), b.len(), k),
            column(p, y, v),
            rows_total(lay, a.len(), b.len()),
        );
        lemma_pairs_positive(columns(p, c, v, k), column(p, y, v));
        lemma_pairs_positive(layers_total(f, a.len(), b.len(), k), rows_total(lay, a.len(), b.len()));
    }
}

/// The columns of the product of `b` and `c` against the first `m` terms
/// of `a` add up to the value of the first `m` sheets of the right block.
pub proof fn lemma_right_columns(
    a: Seq<TermView>,
    b: Seq<TermView>,
    c: Seq<TermView>,
    v: Seq<VarView>,
    m: nat,
)
    requires
        terms_wf(a),
        terms_wf(b),
        terms_wf(c),
        all_normal(a),
        all_normal(b),
        all_normal(c),
        product_terms(b, c) is Ok,
        all_term_products(product_terms(b, c).unwrap(), a),
        normal_vars(v),
        vars_wf(v),
        m <= a.len(),
    ensures
        same_value(
            columns(product_terms(b, c).unwrap(), a, v, m),
            sheets_total(right_block(a, b, c, v), m, b.len(), c.len()),
        ),
        columns(product_terms(b, c).unwrap(), a, v, m).1 > 0,
        sheets_total(right_block(a, b, c, v), m, b.len(), c.len()).1 > 0,
    decreases m,
{
    let q = product_terms(b, c).unwrap();
    let f = right_block(a, b, c, v);
    if m > 0 {
        let i = (m - 1) as nat;
        lemma_right_columns(a, b, c, v, i);
        let y = a[i as int];
        let yc = pair_of(y.coefficient);
        assert(y.wf() && normal_vars(y.variables));
        assert(all_products(q, y));
        lemma_column_value(b, c, y, v);
        let tg = triple_grid(b, c, y.variables, v);
        assert(positive_grid(tg, b.len(), c.len())) by {
            assert forall|j: int, k: int| 0 <= j < b.len() && 0 <= k < c.len() implies (
            #[trigger] tg(j, k)).1 > 0 by {
                assert(b[j].wf() && c[k].wf());
                lemma_triple_positive(b[j], c[k], y.variables, v);
            }
        }
        lemma_rows_scaled(tg, yc, b.len(), c.len());
        let sg = scaled_grid(tg, yc);
        let sh = sheet(f, i as int);
        assert forall|j: int, k: int| 0 <= j < b.len() && 0 <= k < c.len() implies #[trigger] sg(
            j,
            k,
        ) == sh(j, k) by {
            assert(sg(j, k) == times_pair(tg(j, k), yc));
            assert(sh(j, k) == f(i as int, j, k));
        }
        lemma_rows_total_same(sg, sh, b.len(), c.len());
        lemma_pairs_positive(rows_total(tg, b.len(), c.len()), yc);
        lemma_value_transitive(
            column(q, y, v),
            times_pair(rows_total(tg, b.len(), c.len()), yc),
            rows_total(sh, b.len(), c.len()),
        );
        lemma_plus_compatible_both(
            columns(q, a, v, i),
            sheets_total(f, i, b.len(), c.len()),
            column(q, y, v),
            rows_total(sh, b.len(), c.len()),
        );
        lemma_pairs_positive(columns(q, a, v, i), column(q, y, v));
        lemma_pairs_positive(sheets_total(f, i, b.len(), c.len()), rows_total(sh, b.len(), c.len()));
    }
}

/// The coefficient that the product of three canonical lists has for the
/// variables `v` is the same in both groupings.
pub proof fn lemma_grouped_coefficient(
    a: Seq<TermView>,
    b: Seq<TermView>,
    c: Seq<TermView>,
    v: Seq<VarView>,
)
    requires
        canonical(a),
        canonical(b),
        canonical(c),
        terms_wf(a),
        terms_wf(b),
        terms_wf(c),
        product_terms(a, b) is Ok,
        product_terms(product_terms(a, b).unwrap(), c) is Ok,
        product_terms(b, c) is Ok,
        product_terms(a, product_terms(b, c).unwrap()) is Ok,
        normal_vars(v),
        vars_wf(v),
    ensures
        coefficient_of(product_terms(product_terms(a, b).unwrap(), c).unwrap(), v)
            == coefficient_of(product_terms(a, product_terms(b, c).unwrap()).unwrap(), v),
{
    let p = product_terms(a, b).unwrap();
    let q = product_terms(b, c).unwrap();
    let left = product_terms(p, c).unwrap();
    let right = product_terms(a, q).unwrap();
    lemma_product_exists(a, b);
    lemma_product_exists(b, c);
    lemma_product_exists(p, c);
    lemma_product_exists(a, q);
    lemma_products_turned(q, a);
    let (n1, n2, n3) = (a.len(), b.len(), c.len());
    // the left grouping, column by column
    lemma_product_coefficient(p, c, v);
    lemma_fubini(grid(p, c, v), p.len(), n3);
    lemma_columns_total(p, c, v, n3);
    lemma_left_columns(a, b, c, v, n3);
    let lb = left_block(a, b, c, v);
    let rb = right_block(a, b, c, v);
    lemma_layers_are_sheets(lb, n1, n2, n3);
    // the two blocks, entry by entry
    assert forall|i: int, j: int, k: int|
        0 <= i < n1 && 0 <= j < n2 && 0 <= k < n3 implies (#[trigger] lb(i, j, k)).1 > 0
        && same_value(lb(i, j, k), rb(i, j, k)) by {
        assert(a[i].wf() && b[j].wf() && c[k].wf());
        assert(all_products(a, b[j]));
        assert(all_products(b, c[k]));
        lemma_blocks_same(a, b, c, v, i, j, k);
    }
    assert forall|i: int, j: int, k: int|
        0 <= i < n1 && 0 <= j < n2 && 0 <= k < n3 implies (#[trigger] rb(i, j, k)).1 > 0 by {
        assert(a[i].wf() && b[j].wf() && c[k].wf());
        assert(all_products(a, b[j]));
        assert(all_products(b, c[k]));
        lemma_blocks_same(a, b, c, v, i, j, k);
    }
    lemma_sheets_value(lb, rb, n1, n2, n3);
    // the right grouping, column by column
    lemma_right_columns(a, b, c, v, n1);
    lemma_columns_total(q, a, v, n1);
    lemma_turned_total(grid(q, a, v), q.len(), n1);
    lemma_grid_turned(q, a, v);
    lemma_product_coefficient(a, q, v);
    let x1 = pair_of(coefficient_of(left, v));
    let x2 = columns(p, c, v, n3);
    let x3 = sheets_total(lb, n1, n2, n3);
    let x4 = sheets_total(rb, n1, n2, n3);
    let x5 = columns(q, a, v, n1);
    let x6 = pair_of(coefficient_of(right, v));
    assert(same_value(x1, x2));
    assert(same_value(x2, x3));
    assert(same_value(x3, x4));
    assert(same_value(x5, x4));
    assert(same_value(x6, x5));
    lemma_value_transitive(x1, x2, x3);
    lemma_value_transitive(x1, x3, x4);
    lemma_value_symmetric(x5, x4);
    lemma_value_transitive(x1, x4, x5);
    lemma_value_symmetric(x6, x5);
    lemma_value_transitive(x1, x5, x6);
    lemma_same_value_unique(coefficient_of(left, v), coefficient_of(right, v));
}

/// The product of three canonical lists in lowest terms is the same in
/// both groupings, where the products exist in both.
pub proof fn lemma_product_terms_associate(a: Seq<TermView>, b: Seq<TermView>, c: Seq<TermView>)
    requires
        canonical(a),
        canonical(b),
        canonical(c),
        terms_wf(a),
        terms_wf(b),
        terms_wf(c),
        product_terms(a, b) is Ok,
        product_terms(product_terms(a, b).unwrap(), c) is Ok,
        product_terms(b, c) is Ok,
        product_terms(a, product_terms(b, c).unwrap()) is Ok,
    ensures
        product_terms(product_terms(a, b).unwrap(), c) == product_terms(
            a,
            product_terms(b, c).unwrap(),
        ),
{
    let p = product_terms(a, b).unwrap();
    let q = product_terms(b, c).unwrap();
    let left = product_terms(p, c).unwrap();
    let right = product_terms(a, q).unwrap();
    lemma_product_exists(a, b);
    lemma_product_exists(b, c);
    lemma_product_exists(p, c);
    lemma_product_exists(a, q);
    assert forall|v: Seq<VarView>| coefficient_of(left, v) == #[trigger] coefficient_of(right, v) by {
        if normal_vars(v) && vars_wf(v) {
            lemma_grouped_coefficient(a, b, c, v);
        } else {
            lemma_index_of_vars(left, v);
            lemma_index_of_vars(right, v);
            let i = index_of_vars(left, v);
            let j = index_of_vars(right, v);
            if i >= 0 {
                assert(left[i].wf() && normal_vars(left[i].variables));
            }
            if j >= 0 {
                assert(right[j].wf() && normal_vars(right[j].variables));
            }
        }
    }
    assert forall|v: Seq<VarView>| coefficient_of(right, v) == #[trigger] coefficient_of(left, v) by {
        assert(coefficient_of(left, v) == coefficient_of(right, v));
    }
    lemma_same_coefficients(left, right);
    lemma_same_coefficients(right, left);
    assert(same_terms(left, right));
    lemma_terms_degrees_wf(left);
    lemma_terms_degrees_wf(right);
    lemma_sorted_unique(left, right);
}

/// The product of three polynomials in canonical form is the same in both
/// groupings, where the products exist in both.
pub proof fn lemma_mul_associative(a: PolyView, b: PolyView, c: PolyView)
    requires
        a.wf(),
        b.wf(),
        c.wf(),
        canonical(a.terms),
        canonical(b.terms),
        canonical(c.terms),
        a.product(b) is Ok,
        a.product(b).unwrap().product(c) is Ok,
        b.product(c) is Ok,
        a.product(b.product(c).unwrap()) is Ok,
    ensures
        a.product(b).unwrap().product(c) == a.product(b.product(c).unwrap()),
{
    lemma_product_terms_associate(a.terms, b.terms, c.terms);
}

} // verus!
