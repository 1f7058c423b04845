//! Taking the content out of a polynomial and multiplying it back in gives
//! the polynomial again.

use crate::canonical::{all_normal, canonical, coefficients_nonzero, lemma_canonical_fixed, lemma_like_terms_fixed, lemma_nonzero_terms_fixed, lemma_normal_term_fixed, lemma_normalize_fixed, normal_vars, vars_distinct};
use crate::commute::{lemma_try_map_build, lemma_try_map_items};
use crate::content::{common_denominator, content_gcd, content_term, degree_in, first_common, holds_name, least_degree, lemma_first_common, scaled_terms, scaling, widen_denominator, widening};
use crate::error::AlgebraError;
use crate::fold::{try_fold, try_map};
use crate::invariants::{lemma_product_props, lemma_sort_keeps_distinct, lemma_wf_positive};
use crate::laws::{lemma_simplified_is_canonical, lemma_sort_keeps};
use crate::number::{lemma_coefficient_chain, lemma_gcd_divides, lemma_product_nonzero, lemma_product_pair, lemma_scale_and_back};
use crate::order::insertion_sort;
use crate::ordering::{lemma_sort_by_rank_sorted, positive_terms};
use crate::polynomial::{append_row, by_rank, canonical_terms, cross_product, product_terms, terms_wf, times, PolyView};
use crate::rational::{gcd, lemma_gcd_bounds, lemma_gcd_with_one, magnitude, Rational};
use crate::shift::{lemma_power_round_trip, lemma_shift_injective, power_of};
use crate::term::{index_of_name, lemma_index_of_name, negated_degrees, TermView};
use crate::unique::{lemma_sort_holds, lemma_sorted_unique, same_terms};
use crate::wellformed::{lemma_one_wf, lemma_simplified_wf, lemma_term_product_wf, lowest_term};
use vstd::prelude::*;

verus! {

/// The greatest common divisor of the numerators is zero only where every
/// numerator is zero; otherwise it is at least one and at most the
/// magnitude of each numerator that is not zero.
pub proof fn lemma_content_gcd_bounds(terms: Seq<TermView>)
    ensures
        content_gcd(terms) == 0 ==> forall|j: int|
            0 <= j < terms.len() ==> (#[trigger] terms[j]).coefficient.numer == 0,
        forall|j: int|
            0 <= j < terms.len() && (#[trigger] terms[j]).coefficient.numer != 0 ==> 1
                <= content_gcd(terms) <= magnitude(terms[j].coefficient.numer as int),
    decreases terms.len(),
{
    if terms.len() > 0 {
        let front = terms.drop_last();
        lemma_content_gcd_bounds(front);
        let x = content_gcd(front);
        let y = magnitude(terms.last().coefficient.numer as int);
        if x > 0 || y > 0 {
            lemma_gcd_bounds(x, y);
        }
        assert forall|j: int| 0 <= j < terms.len() implies (content_gcd(terms) == 0 ==> (
        #[trigger] terms[j]).coefficient.numer == 0) && (terms[j].coefficient.numer != 0 ==> 1
            <= content_gcd(terms) <= magnitude(terms[j].coefficient.numer as int)) by {
            if j < front.len() {
                assert(front[j] == terms[j]);
            }
        }
    }
}

/// The greatest common divisor of the numerators of terms in lowest terms
/// is a value of `i64`.
pub proof fn lemma_content_gcd_fits(terms: Seq<TermView>)
    requires
        terms_wf(terms),
    ensures
        content_gcd(terms) <= i64::MAX,
    decreases terms.len(),
{
    if terms.len() > 0 {
        let front = terms.drop_last();
        assert(terms_wf(front)) by {
            assert forall|i: int| 0 <= i < front.len() implies (#[trigger] front[i]).wf() by {
                assert(front[i] == terms[i]);
            }
        }
        lemma_content_gcd_fits(front);
        let x = content_gcd(front);
        assert(terms[terms.len() - 1].wf());
        let y = magnitude(terms.last().coefficient.numer as int);
        if x > 0 || y > 0 {
            lemma_gcd_bounds(x, y);
        }
    }
}

/// The zero term times the zero term, in canonical form, is the zero term.
pub proof fn lemma_zero_times_zero()
    ensures
        product_terms(seq![TermView::zero()], seq![TermView::zero()]) == Ok::<
            Seq<TermView>,
            AlgebraError,
        >(seq![TermView::zero()]),
{
    reveal(product_terms);
    reveal_with_fuel(gcd, 3);
    let z = TermView::zero();
    let zero = Rational::spec_zero();
    assert(0int / 1 == 0);
    assert(1int / 1 == 1);
    assert(gcd(0, 1) == 1 && gcd(1, 0) == 1);
    assert((0int / 1) * (0int / 1) == 0 && (1int / 1) * (1int / 1) == 1) by (nonlinear_arith)
        requires
            0int / 1 == 0,
            1int / 1 == 1,
    ;
    assert(crate::rational::lowest_terms(0, 1) == (0int, 1int));
    assert(crate::rational::raw_product(zero, zero) == Some((0int, 1int)));
    assert(zero.spec_mul(zero) == Ok::<Rational, AlgebraError>(zero));
    assert(z.variables + z.variables =~= z.variables);
    assert(crate::canonical::normal_vars(z.variables));
    lemma_normal_term_fixed(z);
    assert(z.product(z) == Ok::<TermView, AlgebraError>(z));
    let one = seq![z];
    assert(times(z)(z) == z.product(z));
    lemma_try_map_build(one, times(z), one);
    reveal_with_fuel(try_fold, 2);
    assert(one.drop_last() =~= Seq::<TermView>::empty());
    assert(append_row(one)(Seq::<TermView>::empty(), z) == Ok::<Seq<TermView>, AlgebraError>(
        Seq::<TermView>::empty() + one,
    ));
    assert(Seq::<TermView>::empty() + one =~= one);
    assert(cross_product(one, one) == Ok::<Seq<TermView>, AlgebraError>(one));
    assert(canonical(one)) by {
        assert(one[0] == z);
    }
    lemma_canonical_fixed(one);
}

/// A canonical list of terms divided by a whole number from one on and
/// multiplied by it again is the list itself, where the products exist.
pub proof fn lemma_scaled_back(terms: Seq<TermView>, g: i64)
    requires
        canonical(terms),
        terms_wf(terms),
        g >= 1,
        scaled_terms(terms, Rational::spec_new(1, g)) is Ok,
        product_terms(
            seq![TermView::constant(Rational::spec_from_integer(g))],
            scaled_terms(terms, Rational::spec_new(1, g)).unwrap(),
        ) is Ok,
    ensures
        product_terms(
            seq![TermView::constant(Rational::spec_from_integer(g))],
            scaled_terms(terms, Rational::spec_new(1, g)).unwrap(),
        ) == Ok::<Seq<TermView>, AlgebraError>(terms),
{
    reveal(product_terms);
    let inv = Rational::spec_new(1, g);
    let whole = Rational::spec_from_integer(g);
    let t = TermView::constant(whole);
    let r = scaled_terms(terms, inv).unwrap();
    lemma_try_map_items(terms, scaling(inv));
    let one = seq![t];
    reveal_with_fuel(try_fold, 2);
    assert(one.drop_last() =~= Seq::<TermView>::empty());
    assert(append_row(r)(Seq::<TermView>::empty(), t) == match try_map(r, times(t)) {
        Ok(row) => Ok::<Seq<TermView>, AlgebraError>(Seq::<TermView>::empty() + row),
        Err(e) => Err(e),
    });
    let row = try_map(r, times(t)).unwrap();
    lemma_try_map_items(r, times(t));
    assert forall|j: int| 0 <= j < terms.len() implies #[trigger] row[j] == terms[j] by {
        assert(scaling(inv)(terms[j]) == terms[j].scaled(inv));
        assert(times(t)(r[j]) == t.product(r[j]));
        assert(terms[j].wf());
        lemma_scale_and_back(terms[j].coefficient, g);
        assert(t.variables + r[j].variables =~= terms[j].variables);
        assert(crate::canonical::normal_vars(terms[j].variables));
        lemma_normal_term_fixed(terms[j]);
    }
    assert(row =~= terms);
    assert(Seq::<TermView>::empty() + row =~= row);
    lemma_canonical_fixed(terms);
}

/// Where no variable is shared by all terms, the content is a whole
/// number, and multiplying it back in gives the canonical form of the
/// polynomial again. This holds where that canonical form has the outer
/// exponent one, and where the product exists.
pub proof fn lemma_number_content_round_trip(p: PolyView)
    requires
        p.wf(),
        p.simplified() is Ok,
        p.simplified().unwrap().degree == Rational::spec_one(),
        first_common(
            p.simplified().unwrap().terms[0].variables,
            p.simplified().unwrap().terms,
        ) < 0,
        p.numbered_content() is Ok,
        PolyView::single(p.numbered_content().unwrap().0).product(p.numbered_content().unwrap().1) is Ok,
    ensures
        PolyView::single(p.numbered_content().unwrap().0).product(p.numbered_content().unwrap().1) == p.simplified(),
{
    reveal(PolyView::numbered_content);
    let q = p.simplified().unwrap();
    lemma_simplified_is_canonical(p);
    lemma_simplified_wf(p);
    lemma_content_gcd_bounds(q.terms);
    let g = content_gcd(q.terms);
    if g == 0 {
        assert(q.terms[0].coefficient.numer == 0);
        assert(q.terms == seq![TermView::zero()]);
        lemma_zero_times_zero();
    } else {
        lemma_content_gcd_fits(q.terms);
        assert(g as i64 == g);
        lemma_scaled_back(q.terms, g as i64);
    }
}

/// The cross product of a list with one term: the products of each term
/// of the list with that term, in order.
pub proof fn lemma_cross_single(a: Seq<TermView>, u: TermView)
    requires
        cross_product(a, seq![u]) is Ok,
    ensures
        cross_product(a, seq![u]).unwrap().len() == a.len(),
        forall|j: int|
            0 <= j < a.len() ==> (#[trigger] a[j]).product(u) == Ok::<TermView, AlgebraError>(
                cross_product(a, seq![u]).unwrap()[j],
            ),
    decreases a.len(),
{
    if a.len() > 0 {
        let front = a.drop_last();
        let last = a.last();
        let one = seq![u];
        let acc = cross_product(front, one).unwrap();
        assert(append_row(one)(acc, last) == match try_map(one, times(last)) {
            Ok(row) => Ok::<Seq<TermView>, AlgebraError>(acc + row),
            Err(e) => Err(e),
        });
        lemma_cross_single(front, u);
        let row = try_map(one, times(last)).unwrap();
        lemma_try_map_items(one, times(last));
        assert(times(last)(one[0]) == last.product(u));
        let out = cross_product(a, one).unwrap();
        assert(out == acc + row);
        assert forall|j: int| 0 <= j < a.len() implies (#[trigger] a[j]).product(u) == Ok::<
            TermView,
            AlgebraError,
        >(out[j]) by {
            if j < front.len() {
                assert(front[j] == a[j]);
                assert(out[j] == acc[j]);
            } else {
                assert(out[j] == row[0]);
            }
        }
    }
}

/// The cross product of one term with a list: the products of that term
/// with each term of the list, in order.
pub proof fn lemma_single_cross(t: TermView, b: Seq<TermView>)
    ensures
        cross_product(seq![t], b) == try_map(b, times(t)),
{
    let one = seq![t];
    reveal_with_fuel(try_fold, 2);
    assert(one.drop_last() =~= Seq::<TermView>::empty());
    assert(append_row(b)(Seq::<TermView>::empty(), t) == match try_map(b, times(t)) {
        Ok(row) => Ok::<Seq<TermView>, AlgebraError>(Seq::<TermView>::empty() + row),
        Err(e) => Err(e),
    });
    if try_map(b, times(t)) is Ok {
        let row = try_map(b, times(t)).unwrap();
        assert(Seq::<TermView>::empty() + row =~= row);
    }
}

/// The canonical form of a list of terms with variables in canonical
/// form, distinct from term to term, and no coefficient zero, is the list
/// sorted.
pub proof fn lemma_canonical_is_sort(s: Seq<TermView>)
    requires
        s.len() >= 1,
        all_normal(s),
        vars_distinct(s),
        coefficients_nonzero(s),
    ensures
        canonical_terms(s) == Ok::<Seq<TermView>, AlgebraError>(insertion_sort(s, by_rank())),
{
    reveal(canonical_terms);
    lemma_normalize_fixed(s);
    lemma_like_terms_fixed(s);
    lemma_nonzero_terms_fixed(s);
}

/// What a list keeps when it is sorted: its length, variables in canonical
/// form and distinct from term to term, coefficients other than zero, and
/// lowest terms; and it holds the terms that it held.
pub proof fn lemma_sort_props(s: Seq<TermView>)
    requires
        all_normal(s),
        vars_distinct(s),
        coefficients_nonzero(s),
        terms_wf(s),
    ensures
        insertion_sort(s, by_rank()).len() == s.len(),
        all_normal(insertion_sort(s, by_rank())),
        vars_distinct(insertion_sort(s, by_rank())),
        coefficients_nonzero(insertion_sort(s, by_rank())),
        terms_wf(insertion_sort(s, by_rank())),
        same_terms(insertion_sort(s, by_rank()), s),
        crate::order::sorted_by(insertion_sort(s, by_rank()), by_rank()),
{
    let out = insertion_sort(s, by_rank());
    let normal = |t: TermView| normal_vars(t.variables);
    let nonzero = |t: TermView| t.coefficient.numer != 0;
    assert forall|i: int| 0 <= i < s.len() implies normal(#[trigger] s[i]) && nonzero(s[i])
        && lowest_term()(s[i]) by {
        assert(s[i].wf());
    }
    lemma_sort_keeps(s, by_rank(), normal);
    lemma_sort_keeps(s, by_rank(), nonzero);
    lemma_sort_keeps(s, by_rank(), lowest_term());
    lemma_sort_keeps_distinct(s);
    lemma_sort_holds(s);
    lemma_wf_positive(s);
    lemma_sort_by_rank_sorted(s);
    assert forall|i: int| 0 <= i < out.len() implies normal_vars((#[trigger] out[i]).variables)
        && out[i].coefficient.numer != 0 && out[i].wf() by {
        assert(normal(out[i]));
        assert(nonzero(out[i]));
        assert(lowest_term()(out[i]));
    }
}

/// What a list keeps when every coefficient is multiplied by a fraction
/// other than zero: its length, its variables, coefficients other than
/// zero, and lowest terms.
pub proof fn lemma_scaled_props(s: Seq<TermView>, a: Rational)
    requires
        all_normal(s),
        vars_distinct(s),
        coefficients_nonzero(s),
        terms_wf(s),
        a.wf(),
        a.numer != 0,
        scaled_terms(s, a) is Ok,
    ensures
        scaled_terms(s, a).unwrap().len() == s.len(),
        forall|j: int|
            0 <= j < s.len() ==> (#[trigger] s[j]).scaled(a) == Ok::<TermView, AlgebraError>(
                scaled_terms(s, a).unwrap()[j],
            ),
        all_normal(scaled_terms(s, a).unwrap()),
        vars_distinct(scaled_terms(s, a).unwrap()),
        coefficients_nonzero(scaled_terms(s, a).unwrap()),
        terms_wf(scaled_terms(s, a).unwrap()),
{
    let r = scaled_terms(s, a).unwrap();
    lemma_try_map_items(s, scaling(a));
    assert forall|j: int| 0 <= j < s.len() implies (#[trigger] s[j]).scaled(a) == Ok::<
        TermView,
        AlgebraError,
    >(r[j]) && r[j].variables == s[j].variables && r[j].coefficient.numer != 0 && r[j].wf() by {
        assert(scaling(a)(s[j]) == s[j].scaled(a));
        assert(s[j].wf());
        lemma_product_pair(s[j].coefficient, a);
        lemma_product_nonzero(s[j].coefficient, a);
    }
    assert forall|i: int| 0 <= i < r.len() implies normal_vars((#[trigger] r[i]).variables)
        && r[i].coefficient.numer != 0 && r[i].wf() by {
        assert(r[i].variables == s[i].variables);
    }
    assert forall|i: int, j: int| 0 <= i < j < r.len() implies (#[trigger] r[i]).variables != (
    #[trigger] r[j]).variables by {
        assert(r[i].variables == s[i].variables);
        assert(r[j].variables == s[j].variables);
    }
}

/// What a list whose terms all hold `x` keeps when every term is
/// multiplied by a coefficient other than zero and a power of `x`: its
/// length, variables in canonical form and distinct from term to term,
/// coefficients other than zero, and lowest terms.
pub proof fn lemma_divided_props(s: Seq<TermView>, ci: Rational, x: Seq<char>, z: Rational)
    requires
        all_normal(s),
        vars_distinct(s),
        coefficients_nonzero(s),
        terms_wf(s),
        holds_name(s, x),
        ci.wf(),
        ci.numer != 0,
        z.wf(),
        cross_product(s, seq![TermView { coefficient: ci, variables: power_of(x, z) }]) is Ok,
    ensures
        cross_product(
            s,
            seq![TermView { coefficient: ci, variables: power_of(x, z) }],
        ).unwrap().len() == s.len(),
        forall|j: int|
            0 <= j < s.len() ==> (#[trigger] s[j]).product(
                TermView { coefficient: ci, variables: power_of(x, z) },
            ) == Ok::<TermView, AlgebraError>(
                cross_product(
                    s,
                    seq![TermView { coefficient: ci, variables: power_of(x, z) }],
                ).unwrap()[j],
            ),
        all_normal(
            cross_product(s, seq![TermView { coefficient: ci, variables: power_of(x, z) }]).unwrap(),
        ),
        vars_distinct(
            cross_product(s, seq![TermView { coefficient: ci, variables: power_of(x, z) }]).unwrap(),
        ),
        coefficients_nonzero(
            cross_product(s, seq![TermView { coefficient: ci, variables: power_of(x, z) }]).unwrap(),
        ),
        terms_wf(
            cross_product(s, seq![TermView { coefficient: ci, variables: power_of(x, z) }]).unwrap(),
        ),
{
    let inv = TermView { coefficient: ci, variables: power_of(x, z) };
    let c = cross_product(s, seq![inv]).unwrap();
    lemma_cross_single(s, inv);
    lemma_wf_positive(s);
    crate::shift::lemma_power_wf(x, z);
    assert(inv.wf());
    crate::unique::lemma_wf_vars_positive(inv.variables);
    assert forall|j: int| 0 <= j < s.len() implies normal_vars((#[trigger] c[j]).variables)
        && c[j].coefficient.numer != 0 && c[j].wf() by {
        assert(s[j].product(inv) == Ok::<TermView, AlgebraError>(c[j]));
        assert(s[j].wf());
        assert(positive_terms()(s[j]));
        lemma_product_props(s[j], inv);
        lemma_term_product_wf(s[j], inv);
        lemma_product_nonzero(s[j].coefficient, ci);
    }
    assert forall|i: int, j: int| 0 <= i < j < c.len() implies (#[trigger] c[i]).variables != (
    #[trigger] c[j]).variables by {
        if c[i].variables == c[j].variables {
            assert(s[i].product(inv) == Ok::<TermView, AlgebraError>(c[i]));
            assert(s[j].product(inv) == Ok::<TermView, AlgebraError>(c[j]));
            assert(s[i].wf() && s[j].wf());
            lemma_product_pair(s[i].coefficient, ci);
            lemma_product_pair(s[j].coefficient, ci);
            lemma_shift_injective(
                s[i].coefficient.spec_mul(ci).unwrap(),
                s[j].coefficient.spec_mul(ci).unwrap(),
                s[i].variables,
                s[j].variables,
                x,
                z,
            );
            assert(s[i].variables != s[j].variables);
        }
    }
}

/// The least common multiple of the denominators of terms in lowest terms
/// is at least one.
pub proof fn lemma_common_denominator_positive(terms: Seq<TermView>)
    requires
        terms_wf(terms),
        common_denominator(terms) is Ok,
    ensures
        common_denominator(terms).unwrap() >= 1,
    decreases terms.len(),
{
    if terms.len() > 0 {
        let front = terms.drop_last();
        assert(terms_wf(front)) by {
            assert forall|i: int| 0 <= i < front.len() implies (#[trigger] front[i]).wf() by {
                assert(front[i] == terms[i]);
            }
        }
        let l = common_denominator(front).unwrap();
        assert(widening()(l, terms.last()) == widen_denominator(l, terms.last()));
        lemma_common_denominator_positive(front);
        assert(terms[terms.len() - 1].wf());
        let d = terms.last().coefficient.denom;
        lemma_gcd_divides(l as nat, d as nat);
        let g = gcd(l as nat, d as nat) as int;
        assert(l * (d as int / g) >= 1) by (nonlinear_arith)
            requires
                d == g * (d as int / g),
                l >= 1,
                d >= 1,
                g >= 1,
        ;
    }
}

/// The least degree of a variable among terms in lowest terms is in lowest
/// terms.
pub proof fn lemma_least_degree_wf(terms: Seq<TermView>, x: Seq<char>)
    requires
        terms_wf(terms),
    ensures
        least_degree(terms, x).wf(),
    decreases terms.len(),
{
    crate::associate::lemma_zero_wf();
    if terms.len() == 1 {
        lemma_degree_in_wf(terms[0], x);
    } else if terms.len() > 1 {
        let front = terms.drop_last();
        assert(terms_wf(front)) by {
            assert forall|i: int| 0 <= i < front.len() implies (#[trigger] front[i]).wf() by {
                assert(front[i] == terms[i]);
            }
        }
        lemma_least_degree_wf(front, x);
        lemma_degree_in_wf(terms[terms.len() - 1], x);
    }
}

/// The degree of a variable in a term in lowest terms is in lowest terms.
pub proof fn lemma_degree_in_wf(t: TermView, x: Seq<char>)
    requires
        t.wf(),
    ensures
        degree_in(t, x).wf(),
{
    crate::associate::lemma_zero_wf();
    lemma_index_of_name(t.variables, x);
    let i = index_of_name(t.variables, x);
    if i >= 0 {
        assert(t.variables[i].degree.wf());
    }
}

/// The round trip of one term that holds `x`: made whole by `adjust`,
/// divided by `g` and a power of `x`, scaled back, and multiplied by `g`
/// and that power again, it is the term itself, where every step exists.
pub proof fn lemma_term_back(y: TermView, adjust: i64, g: i64, x: Seq<char>, m: Rational)
    requires
        y.wf(),
        normal_vars(y.variables),
        index_of_name(y.variables, x) >= 0,
        adjust >= 1,
        g >= 1,
        m.wf(),
        y.scaled(Rational::spec_from_integer(adjust)) is Ok,
        y.scaled(Rational::spec_from_integer(adjust)).unwrap().product(
            TermView {
                coefficient: Rational { numer: 1, denom: g },
                variables: power_of(x, m.spec_neg()),
            },
        ) is Ok,
        y.scaled(Rational::spec_from_integer(adjust)).unwrap().product(
            TermView {
                coefficient: Rational { numer: 1, denom: g },
                variables: power_of(x, m.spec_neg()),
            },
        ).unwrap().scaled(Rational { numer: 1, denom: adjust }) is Ok,
        (TermView { coefficient: Rational::spec_from_integer(g), variables: power_of(x, m) }).product(
            y.scaled(Rational::spec_from_integer(adjust)).unwrap().product(
                TermView {
                    coefficient: Rational { numer: 1, denom: g },
                    variables: power_of(x, m.spec_neg()),
                },
            ).unwrap().scaled(Rational { numer: 1, denom: adjust }).unwrap(),
        ) is Ok,
    ensures
        (TermView { coefficient: Rational::spec_from_integer(g), variables: power_of(x, m) }).product(
            y.scaled(Rational::spec_from_integer(adjust)).unwrap().product(
                TermView {
                    coefficient: Rational { numer: 1, denom: g },
                    variables: power_of(x, m.spec_neg()),
                },
            ).unwrap().scaled(Rational { numer: 1, denom: adjust }).unwrap(),
        ) == Ok::<TermView, AlgebraError>(y),
{
    let a = Rational::spec_from_integer(adjust);
    let ig = Rational { numer: 1, denom: g };
    let ia = Rational { numer: 1, denom: adjust };
    let wg = Rational::spec_from_integer(g);
    let z = m.spec_neg();
    let inv = TermView { coefficient: ig, variables: power_of(x, z) };
    let t = TermView { coefficient: wg, variables: power_of(x, m) };
    lemma_gcd_with_one(adjust as nat);
    lemma_gcd_with_one(g as nat);
    let y1 = y.scaled(a).unwrap();
    lemma_product_pair(y.coefficient, a);
    let k1 = y1.coefficient.spec_mul(ig).unwrap();
    lemma_product_pair(y1.coefficient, ig);
    let y2 = y1.product(inv).unwrap();
    assert(y2.coefficient == k1);
    let y3 = y2.scaled(ia).unwrap();
    lemma_product_pair(y2.coefficient, ia);
    let k2 = wg.spec_mul(y3.coefficient).unwrap();
    lemma_product_pair(wg, y3.coefficient);
    let y4 = t.product(y3).unwrap();
    assert(y4.coefficient == k2);
    lemma_coefficient_chain(y.coefficient, adjust, g);
    lemma_power_round_trip(k1, k2, y.variables, x, m);
}

/// The round trip of the terms: a canonical list whose terms all hold `x`,
/// made whole by `adjust`, divided by `g` and a power of `x`, scaled back,
/// and multiplied by `g` and that power again, is the list itself, where
/// every step exists.
pub proof fn lemma_terms_round_trip(q: Seq<TermView>, adjust: i64, g: i64, x: Seq<char>, m: Rational)
    requires
        canonical(q),
        coefficients_nonzero(q),
        terms_wf(q),
        holds_name(q, x),
        adjust >= 1,
        g >= 1,
        m.wf(),
        scaled_terms(q, Rational::spec_from_integer(adjust)) is Ok,
        product_terms(
            scaled_terms(q, Rational::spec_from_integer(adjust)).unwrap(),
            seq![
                TermView {
                    coefficient: Rational { numer: 1, denom: g },
                    variables: power_of(x, m.spec_neg()),
                },
            ],
        ) is Ok,
        scaled_terms(
            product_terms(
                scaled_terms(q, Rational::spec_from_integer(adjust)).unwrap(),
                seq![
                    TermView {
                        coefficient: Rational { numer: 1, denom: g },
                        variables: power_of(x, m.spec_neg()),
                    },
                ],
            ).unwrap(),
            Rational { numer: 1, denom: adjust },
        ) is Ok,
        canonical_terms(
            scaled_terms(
                product_terms(
                    scaled_terms(q, Rational::spec_from_integer(adjust)).unwrap(),
                    seq![
                        TermView {
                            coefficient: Rational { numer: 1, denom: g },
                            variables: power_of(x, m.spec_neg()),
                        },
                    ],
                ).unwrap(),
                Rational { numer: 1, denom: adjust },
            ).unwrap(),
        ) is Ok,
        product_terms(
            seq![
                TermView { coefficient: Rational::spec_from_integer(g), variables: power_of(x, m) },
            ],
            canonical_terms(
                scaled_terms(
                    product_terms(
                        scaled_terms(q, Rational::spec_from_integer(adjust)).unwrap(),
                        seq![
                            TermView {
                                coefficient: Rational { numer: 1, denom: g },
                                variables: power_of(x, m.spec_neg()),
                            },
                        ],
                    ).unwrap(),
                    Rational { numer: 1, denom: adjust },
                ).unwrap(),
            ).unwrap(),
        ) is Ok,
    ensures
        product_terms(
            seq![
                TermView { coefficient: Rational::spec_from_integer(g), variables: power_of(x, m) },
            ],
            canonical_terms(
                scaled_terms(
                    product_terms(
                        scaled_terms(q, Rational::spec_from_integer(adjust)).unwrap(),
                        seq![
                            TermView {
                                coefficient: Rational { numer: 1, denom: g },
                                variables: power_of(x, m.spec_neg()),
                            },
                        ],
                    ).unwrap(),
                    Rational { numer: 1, denom: adjust },
                ).unwrap(),
            ).unwrap(),
        ) == Ok::<Seq<TermView>, AlgebraError>(q),
{
    reveal(product_terms);
    let a = Rational::spec_from_integer(adjust);
    let ig = Rational { numer: 1, denom: g };
    let ia = Rational { numer: 1, denom: adjust };
    let wg = Rational::spec_from_integer(g);
    let z = m.spec_neg();
    let inv = TermView { coefficient: ig, variables: power_of(x, z) };
    let t = TermView { coefficient: wg, variables: power_of(x, m) };
    lemma_gcd_with_one(adjust as nat);
    lemma_gcd_with_one(g as nat);
    assert(a.wf() && ig.wf() && ia.wf() && wg.wf() && z.wf());
    // made whole
    let l1 = scaled_terms(q, a).unwrap();
    lemma_scaled_props(q, a);
    assert(holds_name(l1, x)) by {
        assert forall|i: int| 0 <= i < l1.len() implies index_of_name(
            (#[trigger] l1[i]).variables,
            x,
        ) >= 0 by {
            assert(q[i].scaled(a) == Ok::<TermView, AlgebraError>(l1[i]));
        }
    }
    // divided
    let c1 = cross_product(l1, seq![inv]).unwrap();
    lemma_divided_props(l1, ig, x, z);
    lemma_canonical_is_sort(c1);
    let r1 = insertion_sort(c1, by_rank());
    lemma_sort_props(c1);
    // scaled back
    let r2 = scaled_terms(r1, ia).unwrap();
    lemma_scaled_props(r1, ia);
    lemma_canonical_is_sort(r2);
    let r3 = insertion_sort(r2, by_rank());
    lemma_sort_props(r2);
    // multiplied back
    lemma_single_cross(t, r3);
    let c2 = try_map(r3, times(t)).unwrap();
    lemma_try_map_items(r3, times(t));
    // every term of `q`, carried through, comes back
    assert forall|j: int| 0 <= j < q.len() implies c2.contains(#[trigger] q[j]) by {
        assert(q[j].scaled(a) == Ok::<TermView, AlgebraError>(l1[j]));
        assert(l1[j].product(inv) == Ok::<TermView, AlgebraError>(c1[j]));
        assert(c1.contains(c1[j]));
        assert(r1.contains(c1[j]));
        let l = choose|l: int| 0 <= l < r1.len() && r1[l] == c1[j];
        assert(r1[l].scaled(ia) == Ok::<TermView, AlgebraError>(r2[l]));
        assert(r2.contains(r2[l]));
        assert(r3.contains(r2[l]));
        let i = choose|i: int| 0 <= i < r3.len() && r3[i] == r2[l];
        assert(times(t)(r3[i]) == t.product(r3[i]));
        lemma_term_back(q[j], adjust, g, x, m);
        assert(c2[i] == q[j]);
    }
    // every term that comes back is a term of `q`, carried through
    let carried = |y: TermView|
        y.scaled(a).unwrap().product(inv).unwrap().scaled(ia).unwrap();
    let from_q = |i: int|
        exists|j: int| 0 <= j < q.len() && #[trigger] q[j] == c2[i] && r3[i] == carried(q[j]);
    assert forall|i: int| 0 <= i < c2.len() implies #[trigger] from_q(i) by {
        assert(times(t)(r3[i]) == t.product(r3[i]));
        assert(r3.contains(r3[i]));
        assert(r2.contains(r3[i]));
        let l = choose|l: int| 0 <= l < r2.len() && r2[l] == r3[i];
        assert(r1[l].scaled(ia) == Ok::<TermView, AlgebraError>(r2[l]));
        assert(r1.contains(r1[l]));
        assert(c1.contains(r1[l]));
        let j = choose|j: int| 0 <= j < c1.len() && c1[j] == r1[l];
        assert(l1[j].product(inv) == Ok::<TermView, AlgebraError>(c1[j]));
        assert(q[j].scaled(a) == Ok::<TermView, AlgebraError>(l1[j]));
        lemma_term_back(q[j], adjust, g, x, m);
        assert(q[j] == c2[i] && r3[i] == carried(q[j]));
    }
    // what came back has distinct variables
    assert(vars_distinct(c2)) by {
        assert forall|i: int, i2: int| 0 <= i < i2 < c2.len() implies (#[trigger] c2[i]).variables
            != (#[trigger] c2[i2]).variables by {
            if c2[i].variables == c2[i2].variables {
                assert(from_q(i) && from_q(i2));
                let j = choose|j: int|
                    0 <= j < q.len() && #[trigger] q[j] == c2[i] && r3[i] == carried(q[j]);
                let j2 = choose|j2: int|
                    0 <= j2 < q.len() && #[trigger] q[j2] == c2[i2] && r3[i2] == carried(q[j2]);
                assert(j == j2);
                assert(r3[i].variables != r3[i2].variables);
                assert(false);
            }
        }
    }
    assert(all_normal(c2) && coefficients_nonzero(c2) && terms_wf(c2)) by {
        assert forall|i: int| 0 <= i < c2.len() implies normal_vars((#[trigger] c2[i]).variables)
            && c2[i].coefficient.numer != 0 && c2[i].wf() by {
            assert(from_q(i));
            let j = choose|j: int|
                0 <= j < q.len() && #[trigger] q[j] == c2[i] && r3[i] == carried(q[j]);
            assert(q[j].wf());
        }
    }
    lemma_try_map_items(r3, times(t));
    lemma_canonical_is_sort(c2);
    lemma_sort_props(c2);
    let out = insertion_sort(c2, by_rank());
    assert(same_terms(out, q)) by {
        assert forall|y: TermView| out.contains(y) <==> q.contains(y) by {
            if out.contains(y) {
                assert(c2.contains(y));
                let i = choose|i: int| 0 <= i < c2.len() && c2[i] == y;
                assert(from_q(i));
                let j = choose|j: int|
                    0 <= j < q.len() && #[trigger] q[j] == c2[i] && r3[i] == carried(q[j]);
                assert(q[j] == y);
            }
            if q.contains(y) {
                let j = choose|j: int| 0 <= j < q.len() && q[j] == y;
                assert(c2.contains(q[j]));
                assert(out.contains(y));
            }
        }
    }
    crate::associate::lemma_terms_degrees_wf(out);
    crate::associate::lemma_terms_degrees_wf(q);
    lemma_sorted_unique(out, q);
}

/// The negated degrees of one variable are that variable to the negated
/// degree.
pub proof fn lemma_negated_power(x: Seq<char>, m: Rational)
    ensures
        negated_degrees(power_of(x, m)) == power_of(x, m.spec_neg()),
{
    assert(negated_degrees(power_of(x, m)) =~= power_of(x, m.spec_neg()));
}

/// Where a variable is shared by all terms, multiplying the content back
/// in gives the canonical form of the polynomial again. This holds where
/// that canonical form has the outer exponent one, and where the product
/// exists.
pub proof fn lemma_variable_content_round_trip(p: PolyView)
    requires
        p.wf(),
        p.simplified() is Ok,
        p.simplified().unwrap().degree == Rational::spec_one(),
        first_common(
            p.simplified().unwrap().terms[0].variables,
            p.simplified().unwrap().terms,
        ) >= 0,
        p.numbered_content() is Ok,
        PolyView::single(p.numbered_content().unwrap().0).product(p.numbered_content().unwrap().1) is Ok,
    ensures
        PolyView::single(p.numbered_content().unwrap().0).product(p.numbered_content().unwrap().1) == p.simplified(),
{
    reveal(PolyView::numbered_content);
    reveal(PolyView::without);
    let q = p.simplified().unwrap();
    lemma_simplified_is_canonical(p);
    lemma_simplified_wf(p);
    lemma_first_common(q.terms[0].variables, q.terms);
    let k = first_common(q.terms[0].variables, q.terms);
    let x = q.terms[0].variables[k].name;
    assert(holds_name(q.terms, x));
    // no term of `q` is the zero term, which holds no variable
    assert(coefficients_nonzero(q.terms)) by {
        if q.terms == seq![TermView::zero()] {
            lemma_index_of_name(q.terms[0].variables, x);
            assert(false);
        }
    }
    let whole = q.integral().unwrap();
    let adjust = whole.0;
    lemma_common_denominator_positive(q.terms);
    let a = Rational::spec_from_integer(adjust);
    lemma_gcd_with_one(adjust as nat);
    lemma_scaled_props(q.terms, a);
    let ps = whole.1.terms;
    lemma_content_gcd_fits(ps);
    let g = content_gcd(ps);
    let m = least_degree(ps, x);
    lemma_least_degree_wf(ps, x);
    let t = content_term(g, x, m);
    assert(g >= 1);
    assert(t.inverse().unwrap() == (TermView {
        coefficient: Rational { numer: 1, denom: g as i64 },
        variables: power_of(x, m.spec_neg()),
    })) by {
        lemma_negated_power(x, m);
    }
    assert(t == (TermView {
        coefficient: Rational::spec_from_integer(g as i64),
        variables: power_of(x, m),
    }));
    assert(Rational::spec_new(1, adjust) == (Rational { numer: 1, denom: adjust })) by {
        lemma_gcd_with_one(adjust as nat);
        assert(1int / 1 == 1);
        assert(adjust as int / 1 == adjust);
    }
    lemma_terms_round_trip(q.terms, adjust, g as i64, x, m);
}

/// Taking the content out of a polynomial as a ratio cancels it, and
/// multiplying it back in, gives the canonical form of the polynomial. This
/// holds where that canonical form has the outer exponent one, and where
/// the product exists.
pub proof fn lemma_numbered_round_trip(p: PolyView)
    requires
        p.wf(),
        p.simplified() is Ok,
        p.simplified().unwrap().degree == Rational::spec_one(),
        p.numbered_content() is Ok,
        PolyView::single(p.numbered_content().unwrap().0).product(p.numbered_content().unwrap().1) is Ok,
    ensures
        PolyView::single(p.numbered_content().unwrap().0).product(p.numbered_content().unwrap().1) == p.simplified(),
{
    let q = p.simplified().unwrap();
    lemma_simplified_is_canonical(p);
    if first_common(q.terms[0].variables, q.terms) < 0 {
        lemma_number_content_round_trip(p);
    } else {
        lemma_variable_content_round_trip(p);
    }
}

/// Taking the content out of a polynomial and multiplying it back in gives
/// the canonical form of the polynomial. This holds where that canonical
/// form has the outer exponent one, and where the product exists.
pub proof fn lemma_factor_round_trip(p: PolyView)
    requires
        p.wf(),
        p.simplified() is Ok,
        p.simplified().unwrap().degree == Rational::spec_one(),
        p.content() is Ok,
        PolyView::single(p.content().unwrap().0).product(p.content().unwrap().1) is Ok,
    ensures
        PolyView::single(p.content().unwrap().0).product(p.content().unwrap().1) == p.simplified(),
{
    let q = p.simplified().unwrap();
    lemma_simplified_is_canonical(p);
    lemma_simplified_wf(p);
    if first_common(q.terms[0].variables, q.terms) < 0 {
        let unit = crate::ratio::RatioView::unit();
        lemma_one_wf();
        crate::fixed::lemma_times_unit(q.terms);
        assert(unit.terms =~= seq![TermView::constant(Rational::spec_one())]);
        assert(terms_wf(unit.terms)) by {
            assert forall|i: int| 0 <= i < unit.terms.len() implies (#[trigger] unit.terms[i]).wf() by {
                assert(crate::polynomial::vars_wf_empty());
            }
        }
        assert(canonical(unit.terms));
        crate::product::lemma_product_terms_commute(unit.terms, q.terms);
    } else {
        lemma_numbered_round_trip(p);
    }
}

} // verus!
