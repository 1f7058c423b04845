//! The product of a sum with a polynomial, seen column by column: what
//! each term of the second contributes to a coefficient of the product.

use crate::associate::{coefficient_of, lemma_coefficient_wf, lemma_sum_coefficient, lemma_zero_wf};
use crate::canonical::canonical;
use crate::number::{lemma_pairs_positive, lemma_plus_compatible_both, lemma_sum_pair, lemma_times_compatible, lemma_times_distributes, lemma_value_symmetric, lemma_value_transitive};
use crate::polynomial::canonical_terms;
use crate::product::grid;
use crate::tally::{cols_total, lemma_plus_swap};
use crate::canonical::{all_normal, normal_vars, vars_distinct};
use crate::degrees::{degree_of_name, lemma_normal_degree, lemma_same_degrees};
use crate::error::AlgebraError;
use crate::number::{lemma_add_cancel, lemma_product_pair, pair_of, plus_pair, same_value, times_pair};
use crate::polynomial::{index_of_vars, lemma_index_of_vars, normal_term, terms_wf};
use crate::product::{entry, lemma_joined_sum};
use crate::rational::Rational;
use crate::shift::{lemma_sum_is_degree, lemma_vars_concat_wf};
use crate::tally::{col_sum, lemma_plus_nothing};
use crate::term::{index_of_name, vars_wf, TermView, VarView};
use crate::wellformed::lemma_one_wf;
use vstd::prelude::*;

verus! {

/// The variables of the product of two terms with these variables.
pub open spec fn merged_vars(u: Seq<VarView>, w: Seq<VarView>) -> Result<
    Seq<VarView>,
    AlgebraError,
> {
    match normal_term(TermView { coefficient: Rational::spec_one(), variables: u + w }) {
        Ok(t) => Ok(t.variables),
        Err(e) => Err(e),
    }
}

/// The product of two terms is the product of their coefficients with the
/// variables of the product, which do not depend on the coefficients.
pub proof fn lemma_product_vars(a: TermView, b: TermView)
    ensures
        a.product(b) == match a.coefficient.spec_mul(b.coefficient) {
            Ok(c) => match merged_vars(a.variables, b.variables) {
                Ok(m) => Ok::<TermView, AlgebraError>(TermView { coefficient: c, variables: m }),
                Err(e) => Err(e),
            },
            Err(e) => Err(e),
        },
{
}

/// Two lists of variables in canonical form that give the same variables
/// when multiplied with a third are the same list.
pub proof fn lemma_merged_injective(u1: Seq<VarView>, u2: Seq<VarView>, w: Seq<VarView>)
    requires
        normal_vars(u1),
        normal_vars(u2),
        normal_vars(w),
        vars_wf(u1),
        vars_wf(u2),
        vars_wf(w),
        merged_vars(u1, w) is Ok,
        merged_vars(u1, w) == merged_vars(u2, w),
    ensures
        u1 == u2,
{
    lemma_one_wf();
    lemma_zero_wf();
    let one = Rational::spec_one();
    let t1 = TermView { coefficient: one, variables: u1 + w };
    let t2 = TermView { coefficient: one, variables: u2 + w };
    lemma_vars_concat_wf(u1, w);
    lemma_vars_concat_wf(u2, w);
    assert forall|n: Seq<char>| degree_of_name(u1, n) == #[trigger] degree_of_name(u2, n) by {
        lemma_normal_degree(t1, n);
        lemma_normal_degree(t2, n);
        lemma_joined_sum(u1, w, n);
        lemma_joined_sum(u2, w, n);
        lemma_sum_is_degree(u1, n);
        lemma_sum_is_degree(u2, n);
        lemma_sum_is_degree(w, n);
        if index_of_name(w, n) >= 0 {
            lemma_add_cancel(degree_of_name(u1, n), degree_of_name(u2, n), degree_of_name(w, n));
        }
    }
    lemma_same_degrees(u1, u2);
}

/// What the products of the terms of `s` with the term `y` add to the
/// coefficient of the variables `v`.
pub open spec fn column(s: Seq<TermView>, y: TermView, v: Seq<VarView>) -> (int, int)
    decreases s.len(),
{
    if s.len() == 0 {
        (0, 1)
    } else {
        plus_pair(column(s.drop_last(), y, v), entry(s.last(), y, v))
    }
}

/// A column of the grid of products is `column`.
pub proof fn lemma_column_is_col_sum(s: Seq<TermView>, b: Seq<TermView>, v: Seq<VarView>, n: int, j: int)
    requires
        0 <= n <= s.len(),
        0 <= j < b.len(),
    ensures
        col_sum(crate::product::grid(s, b, v), n as nat, j) == column(s.take(n), b[j], v),
    decreases n,
{
    if n > 0 {
        lemma_column_is_col_sum(s, b, v, n - 1, j);
        assert(s.take(n).drop_last() =~= s.take(n - 1));
        assert(s.take(n).last() == s[n - 1]);
        assert(crate::product::grid(s, b, v)(n - 1, j) == entry(s[n - 1], b[j], v));
    } else {
        assert(s.take(0) =~= Seq::<TermView>::empty());
    }
}

/// A column in which every term but one adds nothing is what that one term
/// adds; a column in which every term adds nothing is nothing.
pub proof fn lemma_column_single(s: Seq<TermView>, y: TermView, v: Seq<VarView>, k: int)
    requires
        forall|i: int| 0 <= i < s.len() && i != k ==> entry(#[trigger] s[i], y, v) == (0int, 1int),
    ensures
        0 <= k < s.len() ==> column(s, y, v) == entry(s[k], y, v),
        !(0 <= k < s.len()) ==> column(s, y, v) == (0int, 1int),
    decreases s.len(),
{
    if s.len() > 0 {
        let front = s.drop_last();
        assert forall|i: int| 0 <= i < front.len() && i != k implies entry(
            #[trigger] front[i],
            y,
            v,
        ) == (0int, 1int) by {
            assert(front[i] == s[i]);
        }
        lemma_column_single(front, y, v, k);
        lemma_plus_nothing(entry(s.last(), y, v));
        lemma_plus_nothing(column(front, y, v));
        if k == s.len() - 1 {
        } else {
            assert(entry(s[s.len() - 1], y, v) == (0int, 1int));
            if 0 <= k < front.len() {
                assert(front[k] == s[k]);
            }
        }
    }
}

/// The terms of `s` all have a product with `y`.
pub open spec fn all_products(s: Seq<TermView>, y: TermView) -> bool {
    forall|i: int| 0 <= i < s.len() ==> (#[trigger] s[i]).product(y) is Ok
}

/// Where the variables `w` times those of `y` are `v`, the column of `y` is
/// the coefficient that `s` has for `w` times the coefficient of `y`, in
/// value.
pub proof fn lemma_column_of(s: Seq<TermView>, y: TermView, v: Seq<VarView>, w: Seq<VarView>)
    requires
        all_normal(s),
        vars_distinct(s),
        terms_wf(s),
        y.wf(),
        normal_vars(y.variables),
        all_products(s, y),
        normal_vars(w),
        vars_wf(w),
        merged_vars(w, y.variables) == Ok::<Seq<VarView>, AlgebraError>(v),
    ensures
        same_value(
            column(s, y, v),
            times_pair(pair_of(coefficient_of(s, w)), pair_of(y.coefficient)),
        ),
        column(s, y, v).1 > 0,
        times_pair(pair_of(coefficient_of(s, w)), pair_of(y.coefficient)).1 > 0,
{
    lemma_index_of_vars(s, w);
    let k = index_of_vars(s, w);
    assert forall|i: int| 0 <= i < s.len() && i != k implies entry(#[trigger] s[i], y, v) == (
        0int,
        1int,
    ) by {
        lemma_product_vars(s[i], y);
        assert(s[i].wf());
        if s[i].product(y).unwrap().variables == v {
            lemma_merged_injective(s[i].variables, w, y.variables);
            if k >= 0 {
                assert(s[i].variables != s[k].variables);
            }
        }
    }
    lemma_column_single(s, y, v, k);
    if k >= 0 {
        assert(s[k].wf());
        lemma_product_vars(s[k], y);
        lemma_product_pair(s[k].coefficient, y.coefficient);
    } else {
        assert(y.coefficient.denom * 1 > 0);
    }
}

/// Where the variables of no term of `s` times those of `y` are `v`, the
/// column of `y` is nothing.
pub proof fn lemma_column_nothing(s: Seq<TermView>, y: TermView, v: Seq<VarView>)
    requires
        forall|i: int|
            0 <= i < s.len() ==> merged_vars((#[trigger] s[i]).variables, y.variables) != Ok::<
                Seq<VarView>,
                AlgebraError,
            >(v),
    ensures
        column(s, y, v) == (0int, 1int),
{
    assert forall|i: int| 0 <= i < s.len() && i != -1 implies entry(#[trigger] s[i], y, v) == (
        0int,
        1int,
    ) by {
        lemma_product_vars(s[i], y);
    }
    lemma_column_single(s, y, v, -1);
}

/// The zero term adds nothing to any column.
pub proof fn lemma_zero_entry(y: TermView, v: Seq<VarView>)
    requires
        y.wf(),
    ensures
        entry(TermView::zero(), y, v) == (0int, 1int),
{
    lemma_zero_wf();
    let z = TermView::zero();
    if z.product(y) is Ok {
        lemma_product_pair(z.coefficient, y.coefficient);
        let c = z.coefficient.spec_mul(y.coefficient).unwrap();
        assert(c.numer == 0) by (nonlinear_arith)
            requires
                c.numer * (1 * y.coefficient.denom) == (0 * y.coefficient.numer) * c.denom,
                y.coefficient.denom > 0,
        ;
        crate::associate::lemma_zero_is_zero(c);
    }
}

/// Every term of the sum of two canonical lists has the variables of a
/// term of one of the two, unless it is the zero term.
pub proof fn lemma_sum_vars_from(q: Seq<TermView>, t: Seq<TermView>, good: spec_fn(Seq<VarView>) -> bool)
    requires
        canonical(q),
        canonical(t),
        terms_wf(q),
        terms_wf(t),
        canonical_terms(q + t) is Ok,
        forall|i: int| 0 <= i < q.len() ==> good((#[trigger] q[i]).variables),
        forall|i: int| 0 <= i < t.len() ==> good((#[trigger] t[i]).variables),
    ensures
        forall|i: int|
            0 <= i < canonical_terms(q + t).unwrap().len() ==> good(
                (#[trigger] canonical_terms(q + t).unwrap()[i]).variables,
            ) || canonical_terms(q + t).unwrap()[i] == TermView::zero(),
{
    reveal(canonical_terms);
    let s = q + t;
    crate::commute::lemma_joined_props(q, t);
    crate::canonical::lemma_normalize_fixed(s);
    assert forall|i: int| 0 <= i < s.len() implies good((#[trigger] s[i]).variables) by {
        if i < q.len() {
            assert(s[i] == q[i]);
        } else {
            assert(s[i] == t[i - q.len()]);
        }
    }
    crate::invariants::lemma_like_terms_keep_vars(s, good);
    let m = crate::polynomial::like_terms_added(s).unwrap();
    let ok = |x: TermView| good(x.variables) || x == TermView::zero();
    assert forall|i: int| 0 <= i < m.len() implies ok(#[trigger] m[i]) by {}
    crate::invariants::lemma_nonzero_terms_keeps(m, ok);
    let z = crate::polynomial::nonzero_terms(m);
    let k = crate::polynomial::or_zero(z);
    assert forall|i: int| 0 <= i < k.len() implies ok(#[trigger] k[i]) by {
        if z.len() == 0 {
            assert(k[i] == TermView::zero());
        }
    }
    crate::laws::lemma_sort_keeps(k, crate::polynomial::by_rank(), ok);
    let out = canonical_terms(q + t).unwrap();
    assert forall|i: int| 0 <= i < out.len() implies good((#[trigger] out[i]).variables) || out[i]
        == TermView::zero() by {
        assert(ok(out[i]));
    }
}

/// What the sum of two canonical lists adds to a column is, in value, what
/// the two lists add to it.
pub proof fn lemma_column_distributes(q: Seq<TermView>, t: Seq<TermView>, y: TermView, v: Seq<VarView>)
    requires
        canonical(q),
        canonical(t),
        terms_wf(q),
        terms_wf(t),
        canonical_terms(q + t) is Ok,
        y.wf(),
        normal_vars(y.variables),
        all_products(q, y),
        all_products(t, y),
        all_products(canonical_terms(q + t).unwrap(), y),
    ensures
        same_value(
            column(canonical_terms(q + t).unwrap(), y, v),
            plus_pair(column(q, y, v), column(t, y, v)),
        ),
        column(canonical_terms(q + t).unwrap(), y, v).1 > 0,
        column(q, y, v).1 > 0,
        column(t, y, v).1 > 0,
{
    let s = canonical_terms(q + t).unwrap();
    let yes = |vs: Seq<VarView>| merged_vars(vs, y.variables) == Ok::<Seq<VarView>, AlgebraError>(v);
    let no = |vs: Seq<VarView>| merged_vars(vs, y.variables) != Ok::<Seq<VarView>, AlgebraError>(v);
    let none = Seq::<VarView>::empty();
    lemma_sum_coefficient(q, t, none);
    let in_q = exists|i: int| 0 <= i < q.len() && yes((#[trigger] q[i]).variables);
    let in_t = exists|i: int| 0 <= i < t.len() && yes((#[trigger] t[i]).variables);
    if in_q || in_t {
        let w = if in_q {
            let i = choose|i: int| 0 <= i < q.len() && yes((#[trigger] q[i]).variables);
            assert(q[i].wf());
            q[i].variables
        } else {
            let i = choose|i: int| 0 <= i < t.len() && yes((#[trigger] t[i]).variables);
            assert(t[i].wf());
            t[i].variables
        };
        assert(normal_vars(w) && vars_wf(w) && yes(w));
        lemma_column_of(q, y, v, w);
        lemma_column_of(t, y, v, w);
        lemma_column_of(s, y, v, w);
        lemma_sum_coefficient(q, t, w);
        lemma_coefficient_wf(q, w);
        lemma_coefficient_wf(t, w);
        let (cq, ct, cs) = (
            pair_of(coefficient_of(q, w)),
            pair_of(coefficient_of(t, w)),
            pair_of(coefficient_of(s, w)),
        );
        let b = pair_of(y.coefficient);
        lemma_sum_pair(coefficient_of(q, w), coefficient_of(t, w));
        // the column of the sum has the value of (cq + ct) * b
        lemma_times_compatible(cs, plus_pair(cq, ct), b);
        lemma_pairs_positive(cs, b);
        lemma_value_transitive(column(s, y, v), times_pair(cs, b), times_pair(plus_pair(cq, ct), b));
        lemma_times_distributes(cq, ct, b);
        lemma_pairs_positive(plus_pair(cq, ct), b);
        lemma_value_transitive(
            column(s, y, v),
            times_pair(plus_pair(cq, ct), b),
            plus_pair(times_pair(cq, b), times_pair(ct, b)),
        );
        // and that is the value of the two columns added
        lemma_value_symmetric(column(q, y, v), times_pair(cq, b));
        lemma_value_symmetric(column(t, y, v), times_pair(ct, b));
        lemma_pairs_positive(cq, b);
        lemma_pairs_positive(ct, b);
        lemma_plus_compatible_both(
            times_pair(cq, b),
            column(q, y, v),
            times_pair(ct, b),
            column(t, y, v),
        );
        lemma_pairs_positive(times_pair(cq, b), times_pair(ct, b));
        lemma_value_transitive(
            column(s, y, v),
            plus_pair(times_pair(cq, b), times_pair(ct, b)),
            plus_pair(column(q, y, v), column(t, y, v)),
        );
    } else {
        assert forall|i: int| 0 <= i < q.len() implies no((#[trigger] q[i]).variables) by {
            assert(!yes(q[i].variables));
        }
        assert forall|i: int| 0 <= i < t.len() implies no((#[trigger] t[i]).variables) by {
            assert(!yes(t[i].variables));
        }
        lemma_column_nothing(q, y, v);
        lemma_column_nothing(t, y, v);
        lemma_sum_vars_from(q, t, no);
        assert forall|i: int| 0 <= i < s.len() && i != -1 implies entry(#[trigger] s[i], y, v) == (
            0int,
            1int,
        ) by {
            if s[i] == TermView::zero() {
                lemma_zero_entry(y, v);
            } else {
                assert(no(s[i].variables));
                lemma_product_vars(s[i], y);
            }
        }
        lemma_column_single(s, y, v, -1);
    }
}

/// The columns of the first `m` terms of `b`, added up.
pub open spec fn columns(s: Seq<TermView>, b: Seq<TermView>, v: Seq<VarView>, m: nat) -> (int, int)
    decreases m,
{
    if m == 0 {
        (0, 1)
    } else {
        plus_pair(columns(s, b, v, (m - 1) as nat), column(s, b[m - 1], v))
    }
}

/// The grid of products added up column by column is `columns`.
pub proof fn lemma_columns_total(s: Seq<TermView>, b: Seq<TermView>, v: Seq<VarView>, m: nat)
    requires
        m <= b.len(),
    ensures
        cols_total(grid(s, b, v), s.len(), m) == columns(s, b, v, m),
    decreases m,
{
    if m > 0 {
        lemma_columns_total(s, b, v, (m - 1) as nat);
        lemma_column_is_col_sum(s, b, v, s.len() as int, m - 1);
        assert(s.take(s.len() as int) =~= s);
    }
}

/// Every term of `s` has a product with every term of `b`.
pub open spec fn all_term_products(s: Seq<TermView>, b: Seq<TermView>) -> bool {
    forall|j: int| 0 <= j < b.len() ==> all_products(s, #[trigger] b[j])
}

/// What the sum of two canonical lists adds to the columns of `b` is, in
/// value, what the two lists add to them.
pub proof fn lemma_columns_distribute(
    q: Seq<TermView>,
    t: Seq<TermView>,
    b: Seq<TermView>,
    v: Seq<VarView>,
    m: nat,
)
    requires
        canonical(q),
        canonical(t),
        terms_wf(q),
        terms_wf(t),
        canonical_terms(q + t) is Ok,
        terms_wf(b),
        all_normal(b),
        all_term_products(q, b),
        all_term_products(t, b),
        all_term_products(canonical_terms(q + t).unwrap(), b),
        m <= b.len(),
    ensures
        same_value(
            columns(canonical_terms(q + t).unwrap(), b, v, m),
            plus_pair(columns(q, b, v, m), columns(t, b, v, m)),
        ),
        columns(canonical_terms(q + t).unwrap(), b, v, m).1 > 0,
        columns(q, b, v, m).1 > 0,
        columns(t, b, v, m).1 > 0,
    decreases m,
{
    let s = canonical_terms(q + t).unwrap();
    if m > 0 {
        let k = (m - 1) as nat;
        lemma_columns_distribute(q, t, b, v, k);
        let y = b[m - 1];
        assert(y.wf());
        assert(all_products(q, y) && all_products(t, y) && all_products(s, y));
        lemma_column_distributes(q, t, y, v);
        let (sq, st, ss) = (columns(q, b, v, k), columns(t, b, v, k), columns(s, b, v, k));
        let (cq, ct, cs) = (column(q, y, v), column(t, y, v), column(s, y, v));
        lemma_pairs_positive(sq, st);
        lemma_pairs_positive(cq, ct);
        lemma_plus_compatible_both(ss, plus_pair(sq, st), cs, plus_pair(cq, ct));
        lemma_plus_swap(sq, st, cq, ct);
        lemma_pairs_positive(ss, cs);
        lemma_pairs_positive(sq, cq);
        lemma_pairs_positive(st, ct);
        assert(columns(s, b, v, m) == plus_pair(ss, cs));
        assert(columns(q, b, v, m) == plus_pair(sq, cq));
        assert(columns(t, b, v, m) == plus_pair(st, ct));
        assert(plus_pair(plus_pair(sq, st), plus_pair(cq, ct)) == plus_pair(
            plus_pair(sq, cq),
            plus_pair(st, ct),
        ));
    } else {
        assert(plus_pair((0int, 1int), (0int, 1int)) == (0int, 1int));
    }
}

} // verus!
