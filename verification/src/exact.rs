//! Exact division: where the long division leaves nothing, the quotient
//! times the divisor is the dividend.

use crate::associate::{coefficient_of, lemma_coefficient_wf, lemma_same_coefficients, lemma_sum_coefficient, lemma_terms_degrees_wf, lemma_zero_wf};
use crate::canonical::{all_normal, canonical, lemma_canonical_fixed, normal_vars, vars_distinct};
use crate::commute::lemma_try_map_items;
use crate::distribute::{all_products, all_term_products, columns, lemma_columns_distribute, lemma_columns_total};
use crate::division::{division_step, long_division};
use crate::error::AlgebraError;
use crate::fold::try_map;
use crate::laws::lemma_simplified_is_canonical;
use crate::number::{lemma_lowest_terms, lemma_pairs_positive, lemma_plus_compatible_both, lemma_raw_denominators, lemma_same_value_unique, lemma_sum_pair, lemma_value_symmetric, lemma_value_transitive, pair_of, plus_pair, same_value};
use crate::polynomial::{append_row, by_rank, canonical_terms, cross_product, leading_from, lemma_index_of_vars, negated_terms, product_terms, terms_wf, times, PolyView};
use crate::product::{grid, lemma_grid_turned, lemma_product_coefficient, lemma_term_product_commutes};
use crate::rational::{gcd, magnitude, Rational};
use crate::tally::{lemma_fubini, lemma_turned_total};
use crate::term::{vars_wf, TermView, VarView};
use crate::unique::{lemma_sorted_unique, same_terms};
use crate::wellformed::{lemma_normal_term_wf, lemma_one_wf, lemma_simplified_wf, lemma_zero_term_wf};
use vstd::prelude::*;

verus! {

/// Where a cross product exists, every term product in it exists.
pub proof fn lemma_cross_items(a: Seq<TermView>, b: Seq<TermView>)
    requires
        cross_product(a, b) is Ok,
    ensures
        all_term_products(a, b),
    decreases a.len(),
{
    if a.len() > 0 {
        let front = a.drop_last();
        let acc = cross_product(front, b).unwrap();
        assert(append_row(b)(acc, a.last()) == match try_map(b, times(a.last())) {
            Ok(row) => Ok::<Seq<TermView>, AlgebraError>(acc + row),
            Err(e) => Err(e),
        });
        lemma_cross_items(front, b);
        lemma_try_map_items(b, times(a.last()));
        assert forall|j: int| 0 <= j < b.len() implies all_products(a, #[trigger] b[j]) by {
            assert(all_products(front, b[j]));
            assert(times(a.last())(b[j]) == a.last().product(b[j]));
            assert forall|i: int| 0 <= i < a.len() implies (#[trigger] a[i]).product(b[j]) is Ok by {
                if i < front.len() {
                    assert(front[i] == a[i]);
                }
            }
        }
    } else {
        assert forall|j: int| 0 <= j < b.len() implies all_products(a, #[trigger] b[j]) by {}
    }
}

/// Where every term of `b` has a product with every term of `t`, every
/// term of `t` has a product with every term of `b`.
pub proof fn lemma_products_turned(t: Seq<TermView>, b: Seq<TermView>)
    requires
        terms_wf(t),
        terms_wf(b),
        all_normal(t),
        all_normal(b),
        all_term_products(b, t),
    ensures
        all_term_products(t, b),
{
    assert forall|j: int| 0 <= j < b.len() implies all_products(t, #[trigger] b[j]) by {
        assert forall|i: int| 0 <= i < t.len() implies (#[trigger] t[i]).product(b[j]) is Ok by {
            assert(all_products(b, t[i]));
            assert(b[j].product(t[i]) is Ok);
            assert(t[i].wf() && b[j].wf());
            lemma_term_product_commutes(t[i], b[j]);
        }
    }
}

/// Negating every coefficient of a canonical list in lowest terms gives
/// such a list, with every coefficient negated.
pub proof fn lemma_negated_props(s: Seq<TermView>)
    requires
        canonical(s),
        terms_wf(s),
    ensures
        canonical(negated_terms(s)),
        terms_wf(negated_terms(s)),
        forall|v: Seq<VarView>|
            #[trigger] coefficient_of(negated_terms(s), v) == coefficient_of(s, v).spec_neg(),
{
    let n = negated_terms(s);
    lemma_zero_wf();
    assert forall|i: int| 0 <= i < n.len() implies (#[trigger] n[i]).variables == s[i].variables
        && n[i].wf() && normal_vars(n[i].variables) by {
        assert(s[i].wf());
    }
    assert(vars_distinct(n)) by {
        assert forall|i: int, j: int| 0 <= i < j < n.len() implies (#[trigger] n[i]).variables != (
        #[trigger] n[j]).variables by {
            assert(n[i].variables == s[i].variables);
            assert(n[j].variables == s[j].variables);
        }
    }
    assert(crate::order::sorted_by(n, by_rank())) by {
        assert forall|i: int, j: int| 0 <= i < j < n.len() implies !by_rank()(
            #[trigger] n[j],
            #[trigger] n[i],
        ) by {
            assert(!by_rank()(s[j], s[i]));
            assert(n[i].variables == s[i].variables);
            assert(n[j].variables == s[j].variables);
        }
    }
    if s == seq![TermView::zero()] {
        assert(n =~= seq![TermView::zero()]);
    } else {
        assert forall|i: int| 0 <= i < n.len() implies (#[trigger] n[i]).coefficient.numer != 0 by {
            assert(s[i].coefficient.numer != 0);
        }
    }
    assert forall|v: Seq<VarView>| #[trigger] coefficient_of(n, v) == coefficient_of(
        s,
        v,
    ).spec_neg() by {
        crate::tally::lemma_same_variables(n, s, v);
        lemma_index_of_vars(s, v);
    }
}

/// The leading term of a canonical list in lowest terms is in lowest
/// terms, with its variables in canonical form.
pub proof fn lemma_leading_props(s: Seq<TermView>)
    requires
        all_normal(s),
        terms_wf(s),
    ensures
        leading_from(s).1.wf(),
        normal_vars(leading_from(s).1.variables),
    decreases s.len(),
{
    lemma_zero_term_wf();
    if s.len() > 0 {
        let front = s.drop_last();
        assert(all_normal(front) && terms_wf(front)) by {
            assert forall|i: int| 0 <= i < front.len() implies normal_vars(
                (#[trigger] front[i]).variables,
            ) && front[i].wf() by {
                assert(front[i] == s[i]);
            }
        }
        lemma_leading_props(front);
        assert(s[s.len() - 1].wf());
    }
}

/// The quotient of two fractions in lowest terms, where it exists, is in
/// lowest terms.
pub proof fn lemma_quotient_wf(a: Rational, b: Rational)
    requires
        a.wf(),
        b.wf(),
        a.spec_div(b) is Ok,
    ensures
        a.spec_div(b).unwrap().wf(),
{
    lemma_raw_denominators(a, b);
    let (an, ad, bn, bd) = (a.numer as int, a.denom as int, b.numer as int, b.denom as int);
    let g1 = gcd(magnitude(an), magnitude(bn)) as int;
    let g2 = gcd(ad as nat, bd as nat) as int;
    if ad == bd {
        lemma_lowest_terms(an, bn);
    } else if an == bn {
        lemma_lowest_terms(bd, ad);
    } else {
        lemma_lowest_terms((an / g1) * (bd / g2), (ad / g2) * (bn / g1));
    }
}

/// The quotient of two terms in lowest terms, as a polynomial, is
/// canonical, in lowest terms, and under the outer exponent one.
pub proof fn lemma_over_props(x: TermView, y: TermView)
    requires
        x.wf(),
        y.wf(),
        x.over(y) is Ok,
    ensures
        canonical(x.over(y).unwrap().terms),
        x.over(y).unwrap().wf(),
        x.over(y).unwrap().degree == Rational::spec_one(),
{
    lemma_quotient_wf(x.coefficient, y.coefficient);
    let c = x.coefficient.spec_div(y.coefficient).unwrap();
    let neg = crate::term::negated_degrees(y.variables);
    assert(vars_wf(neg)) by {
        assert forall|i: int| 0 <= i < neg.len() implies (#[trigger] neg[i]).degree.wf() by {
            assert(y.variables[i].degree.wf());
        }
    }
    crate::shift::lemma_vars_concat_wf(neg, x.variables);
    let joined = TermView { coefficient: c, variables: neg + x.variables };
    assert(x.ratio(y) == crate::polynomial::normal_term(joined));
    lemma_normal_term_wf(joined);
    let t = x.ratio(y).unwrap();
    let p = PolyView::single(t);
    lemma_one_wf();
    assert(p.wf()) by {
        assert forall|i: int| 0 <= i < p.terms.len() implies (#[trigger] p.terms[i]).wf() by {
            assert(p.terms[i] == t);
        }
    }
    lemma_simplified_is_canonical(p);
    lemma_simplified_wf(p);
    reveal(PolyView::simplified);
}

/// What the product of a list with `b` has as a coefficient is, in value,
/// what the columns of `b` add up to.
pub proof fn lemma_product_columns(s: Seq<TermView>, b: Seq<TermView>, v: Seq<VarView>)
    requires
        terms_wf(s),
        terms_wf(b),
        product_terms(s, b) is Ok,
    ensures
        same_value(pair_of(coefficient_of(product_terms(s, b).unwrap(), v)), columns(s, b, v, b.len())),
        columns(s, b, v, b.len()).1 > 0,
        coefficient_of(product_terms(s, b).unwrap(), v).wf(),
{
    lemma_product_coefficient(s, b, v);
    lemma_fubini(grid(s, b, v), s.len(), b.len());
    lemma_columns_total(s, b, v, b.len());
}

/// What the product of `b` with a list has as a coefficient is, in value,
/// what the columns of `b` add up to for that list.
pub proof fn lemma_turned_product_columns(b: Seq<TermView>, t: Seq<TermView>, v: Seq<VarView>)
    requires
        terms_wf(t),
        terms_wf(b),
        all_normal(t),
        all_normal(b),
        product_terms(b, t) is Ok,
    ensures
        same_value(pair_of(coefficient_of(product_terms(b, t).unwrap(), v)), columns(t, b, v, b.len())),
        columns(t, b, v, b.len()).1 > 0,
        coefficient_of(product_terms(b, t).unwrap(), v).wf(),
{
    lemma_product_coefficient(b, t, v);
    lemma_grid_turned(t, b, v);
    lemma_turned_total(grid(t, b, v), t.len(), b.len());
    lemma_columns_total(t, b, v, b.len());
}

/// A sum from which what was added is taken away again has the value that
/// it had: `(a + x) + (r - y)` is `a + r` where `x` and `y` have the same
/// value.
pub proof fn lemma_pairs_cancel(a: (int, int), x: (int, int), r: (int, int), y: (int, int))
    requires
        a.1 > 0,
        x.1 > 0,
        r.1 > 0,
        y.1 > 0,
        same_value(x, y),
    ensures
        same_value(
            plus_pair(plus_pair(a, x), plus_pair(r, (0 - y.0, y.1))),
            plus_pair(a, r),
        ),
{
    let ny = (0 - y.0, y.1);
    let nx = (0 - x.0, x.1);
    // x - y has the value of nothing
    assert(same_value(ny, nx)) by (nonlinear_arith)
        requires
            x.0 * y.1 == y.0 * x.1,
            ny == (0 - y.0, y.1),
            nx == (0 - x.0, x.1),
    ;
    let zero = (0int, 1int);
    assert(same_value(plus_pair(x, nx), zero)) by (nonlinear_arith)
        requires
            nx == (0 - x.0, x.1),
            zero == (0int, 1int),
    ;
    lemma_pairs_positive(x, nx);
    crate::number::lemma_plus_compatible(ny, nx, x);
    lemma_pairs_positive(x, ny);
    lemma_value_transitive(plus_pair(x, ny), plus_pair(x, nx), zero);
    // regroup: (a + x) + (r + ny) == (a + r) + (x + ny)
    crate::tally::lemma_plus_swap(a, x, r, ny);
    lemma_pairs_positive(a, r);
    lemma_plus_compatible_both(plus_pair(a, r), plus_pair(a, r), plus_pair(x, ny), zero);
    crate::tally::lemma_plus_nothing(plus_pair(a, r));
}

/// The division comes to its end with nothing left, and every quotient on
/// the way has a product with the divisor.
pub open spec fn exact_division(q: PolyView, r: PolyView, b: PolyView, fuel: nat) -> bool
    decreases fuel,
{
    q.product(b) is Ok && (r.is_zero() || (!r.max_degree().spec_lt(b.max_degree()) && fuel > 0
        && division_step((q, r), b) is Ok && exact_division(
        division_step((q, r), b).unwrap().0,
        division_step((q, r), b).unwrap().1,
        b,
        (fuel - 1) as nat,
    )))
}

/// The dividend is, coefficient by coefficient and in value, the quotient
/// so far times the divisor plus what is left.
pub open spec fn balance(a: Seq<TermView>, q: Seq<TermView>, r: Seq<TermView>, b: Seq<TermView>) -> bool {
    forall|v: Seq<VarView>|
        same_value(
            pair_of(coefficient_of(a, v)),
            plus_pair(#[trigger] columns(q, b, v, b.len()), pair_of(coefficient_of(r, v))),
        )
}

/// No terms add nothing to any column.
pub proof fn lemma_columns_empty(b: Seq<TermView>, v: Seq<VarView>, m: nat)
    requires
        m <= b.len(),
    ensures
        columns(Seq::<TermView>::empty(), b, v, m) == (0int, 1int),
    decreases m,
{
    if m > 0 {
        lemma_columns_empty(b, v, (m - 1) as nat);
    }
}

/// Where a product of two lists exists, every term product in it exists,
/// and the product is canonical and in lowest terms.
pub proof fn lemma_product_exists(s: Seq<TermView>, b: Seq<TermView>)
    requires
        terms_wf(s),
        terms_wf(b),
        product_terms(s, b) is Ok,
    ensures
        all_term_products(s, b),
        canonical(product_terms(s, b).unwrap()),
        terms_wf(product_terms(s, b).unwrap()),
{
    reveal(product_terms);
    lemma_cross_items(s, b);
    lemma_product_coefficient(s, b, Seq::<VarView>::empty());
}

/// One step of the division keeps the balance: quotient and remainder
/// stay canonical and in lowest terms, and the dividend stays the quotient
/// times the divisor plus the remainder.
pub proof fn lemma_step_balance(a: Seq<TermView>, q: PolyView, r: PolyView, b: PolyView)
    requires
        q.wf(),
        r.wf(),
        b.wf(),
        canonical(q.terms) || q.terms.len() == 0,
        canonical(r.terms),
        canonical(b.terms),
        balance(a, q.terms, r.terms, b.terms),
        all_term_products(q.terms, b.terms),
        division_step((q, r), b) is Ok,
        division_step((q, r), b).unwrap().0.product(b) is Ok,
    ensures
        division_step((q, r), b).unwrap().0.wf(),
        division_step((q, r), b).unwrap().1.wf(),
        canonical(division_step((q, r), b).unwrap().0.terms),
        canonical(division_step((q, r), b).unwrap().1.terms),
        balance(
            a,
            division_step((q, r), b).unwrap().0.terms,
            division_step((q, r), b).unwrap().1.terms,
            b.terms,
        ),
        all_term_products(division_step((q, r), b).unwrap().0.terms, b.terms),
{
    let step = division_step((q, r), b).unwrap();
    let lead_r = r.leading_term();
    let lead_b = b.leading_term();
    lemma_leading_props(r.terms);
    lemma_leading_props(b.terms);
    let t = lead_r.over(lead_b).unwrap();
    lemma_over_props(lead_r, lead_b);
    lemma_one_wf();
    let none = Seq::<VarView>::empty();
    // the new quotient
    let q2 = canonical_terms(q.terms + t.terms).unwrap();
    assert(step.0.terms == q2);
    if q.terms.len() == 0 {
        assert(q.terms + t.terms =~= t.terms);
        lemma_canonical_fixed(t.terms);
    } else {
        lemma_sum_coefficient(q.terms, t.terms, none);
    }
    // what is taken from the remainder
    let dt = product_terms(b.terms, t.terms).unwrap();
    lemma_product_exists(b.terms, t.terms);
    lemma_products_turned(t.terms, b.terms);
    let neg = negated_terms(dt);
    lemma_negated_props(dt);
    let r2 = canonical_terms(r.terms + neg).unwrap();
    assert(step.1.terms == r2);
    lemma_sum_coefficient(r.terms, neg, none);
    lemma_product_exists(q2, b.terms);
    assert forall|v: Seq<VarView>|
        same_value(
            pair_of(coefficient_of(a, v)),
            plus_pair(#[trigger] columns(q2, b.terms, v, b.terms.len()), pair_of(coefficient_of(r2, v))),
        ) by {
        let m = b.terms.len();
        let ca = columns(q.terms, b.terms, v, m);
        let cx = columns(t.terms, b.terms, v, m);
        let c2 = columns(q2, b.terms, v, m);
        let pr = pair_of(coefficient_of(r.terms, v));
        let py = pair_of(coefficient_of(dt, v));
        let pn = pair_of(coefficient_of(neg, v));
        let p_rest = pair_of(coefficient_of(r2, v));
        // the columns of the new quotient
        if q.terms.len() == 0 {
            assert(q.terms =~= Seq::<TermView>::empty());
            lemma_columns_empty(b.terms, v, m);
            crate::tally::lemma_plus_nothing(cx);
            lemma_turned_product_columns(b.terms, t.terms, v);
            assert(q2 == t.terms);
            assert(c2 == cx);
            assert(plus_pair(ca, cx) == cx);
        } else {
            lemma_columns_distribute(q.terms, t.terms, b.terms, v, m);
        }
        assert(same_value(c2, plus_pair(ca, cx)) && ca.1 > 0 && cx.1 > 0 && c2.1 > 0);
        // what is taken away has the value of the columns of the new term
        lemma_turned_product_columns(b.terms, t.terms, v);
        lemma_value_symmetric(py, cx);
        assert(pn == (0 - py.0, py.1));
        // the new remainder
        lemma_sum_coefficient(r.terms, neg, v);
        lemma_coefficient_wf(r.terms, v);
        lemma_coefficient_wf(neg, v);
        lemma_sum_pair(coefficient_of(r.terms, v), coefficient_of(neg, v));
        assert(same_value(p_rest, plus_pair(pr, pn)));
        lemma_pairs_positive(pr, pn);
        lemma_pairs_positive(ca, cx);
        lemma_plus_compatible_both(c2, plus_pair(ca, cx), p_rest, plus_pair(pr, pn));
        lemma_pairs_cancel(ca, cx, pr, py);
        lemma_pairs_positive(plus_pair(ca, cx), plus_pair(pr, pn));
        lemma_value_transitive(
            plus_pair(c2, p_rest),
            plus_pair(plus_pair(ca, cx), plus_pair(pr, pn)),
            plus_pair(ca, pr),
        );
        lemma_value_symmetric(pair_of(coefficient_of(a, v)), plus_pair(ca, pr));
        lemma_pairs_positive(ca, pr);
        lemma_value_transitive(plus_pair(c2, p_rest), plus_pair(ca, pr), pair_of(coefficient_of(a, v)));
    }
}

/// Where the division leaves nothing and the balance holds, the quotient
/// times the divisor is the dividend.
pub proof fn lemma_exact_division(a: Seq<TermView>, q: PolyView, r: PolyView, b: PolyView, fuel: nat)
    requires
        q.wf(),
        r.wf(),
        b.wf(),
        terms_wf(a),
        canonical(a),
        canonical(q.terms) || q.terms.len() == 0,
        canonical(r.terms),
        canonical(b.terms),
        balance(a, q.terms, r.terms, b.terms),
        exact_division(q, r, b, fuel),
    ensures
        long_division(q, r, b, fuel) is Ok,
        product_terms(long_division(q, r, b, fuel).unwrap().terms, b.terms) == Ok::<
            Seq<TermView>,
            AlgebraError,
        >(a),
    decreases fuel,
{
    lemma_product_exists(q.terms, b.terms);
    if r.is_zero() {
        let p = product_terms(q.terms, b.terms).unwrap();
        assert forall|v: Seq<VarView>| coefficient_of(p, v) == #[trigger] coefficient_of(a, v) by {
            lemma_product_columns(q.terms, b.terms, v);
            lemma_index_of_vars(r.terms, v);
            assert(coefficient_of(r.terms, v) == Rational::spec_zero());
            let c = columns(q.terms, b.terms, v, b.terms.len());
            assert(plus_pair(c, pair_of(coefficient_of(r.terms, v))) == c) by {
                crate::tally::lemma_plus_nothing(c);
            }
            lemma_value_transitive(pair_of(coefficient_of(p, v)), c, pair_of(coefficient_of(a, v)));
            lemma_coefficient_wf(a, v);
            lemma_same_value_unique(coefficient_of(p, v), coefficient_of(a, v));
        }
        assert forall|v: Seq<VarView>| coefficient_of(a, v) == #[trigger] coefficient_of(p, v) by {
            assert(coefficient_of(p, v) == coefficient_of(a, v));
        }
        lemma_same_coefficients(p, a);
        lemma_same_coefficients(a, p);
        assert(same_terms(p, a));
        lemma_terms_degrees_wf(p);
        lemma_terms_degrees_wf(a);
        lemma_sorted_unique(p, a);
    } else {
        let step = division_step((q, r), b).unwrap();
        assert(exact_division(step.0, step.1, b, (fuel - 1) as nat));
        assert(step.0.product(b) is Ok);
        lemma_step_balance(a, q, r, b);
        lemma_exact_division(a, step.0, step.1, b, (fuel - 1) as nat);
    }
}

/// Where the long division of one canonical polynomial by another leaves
/// nothing, the quotient times the divisor is the dividend. This is stated
/// for divisions in which every quotient on the way has a product with the
/// divisor.
pub proof fn lemma_division_consistency(a: PolyView, b: PolyView, fuel: nat)
    requires
        a.wf(),
        b.wf(),
        canonical(a.terms),
        canonical(b.terms),
        exact_division(PolyView::plain(Seq::empty()), a, b, fuel),
    ensures
        long_division(PolyView::plain(Seq::empty()), a, b, fuel) is Ok,
        long_division(PolyView::plain(Seq::empty()), a, b, fuel).unwrap().product(b) == Ok::<
            PolyView,
            AlgebraError,
        >(PolyView::plain(a.terms)),
{
    let start = PolyView::plain(Seq::<TermView>::empty());
    lemma_one_wf();
    assert(start.wf());
    assert(all_term_products(start.terms, b.terms)) by {
        assert forall|j: int| 0 <= j < b.terms.len() implies all_products(
            start.terms,
            #[trigger] b.terms[j],
        ) by {}
    }
    assert(balance(a.terms, start.terms, a.terms, b.terms)) by {
        assert forall|v: Seq<VarView>|
            same_value(
                pair_of(coefficient_of(a.terms, v)),
                plus_pair(
                    #[trigger] columns(start.terms, b.terms, v, b.terms.len()),
                    pair_of(coefficient_of(a.terms, v)),
                ),
            ) by {
            lemma_columns_empty(b.terms, v, b.terms.len());
            crate::tally::lemma_plus_nothing(pair_of(coefficient_of(a.terms, v)));
        }
    }
    lemma_exact_division(a.terms, start, a, b, fuel);
}

} // verus!
