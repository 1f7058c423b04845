//! Ratios at rest: a ratio in which nothing is left to clear or to cancel
//! is left as it is when it is brought into canonical form.

use crate::canonical::{all_normal, canonical, coefficients_nonzero, lemma_canonical_fixed, lemma_like_terms_fixed, lemma_normal_term_fixed, lemma_normalize_fixed, normal_vars, vars_distinct};
use crate::commute::{lemma_try_map_build, lemma_try_map_items};
use crate::content::{content_gcd, content_term, degree_in, first_common, holds_name, least_degree, lemma_first_common, scaled_terms, scaling};
use crate::distribute::{all_products, lemma_merged_injective, lemma_product_vars};
use crate::error::AlgebraError;
use crate::exact::{lemma_product_exists, lemma_products_turned};
use crate::fold::try_map;
use crate::invariants::{lemma_canonical_output, lemma_wf_positive};
use crate::laws::lemma_simplified_is_canonical;
use crate::number::{lemma_product_pair, lemma_product_value, lemma_same_value_unique, lemma_times_compatible, lemma_value_transitive, pair_of, same_value, times_pair};
use crate::polynomial::{PolyView, append_row, by_rank, canonical_terms, cross_product, product_terms, terms_wf, times};
use crate::product::{lemma_mul_commutative, lemma_row_normal, lemma_term_product_commutes};
use crate::ratio::{RatioView, clearing, negative_powers, shared_term};
use crate::rational::{Rational, lemma_gcd_symmetric, lemma_gcd_with_one};
use crate::roundtrip::{lemma_common_denominator_positive, lemma_content_gcd_bounds, lemma_content_gcd_fits, lemma_numbered_round_trip, lemma_least_degree_wf, lemma_scaled_props, lemma_single_cross};
use crate::term::{TermView, VarView, index_of_name, lemma_index_of_name, negated_degrees};
use crate::wellformed::{lemma_canonical_terms_wf, lemma_one_wf, lemma_product_terms_wf, lemma_simplified_wf};
use vstd::prelude::*;

verus! {

/// Multiplying a fraction in lowest terms by one changes nothing.
pub proof fn lemma_product_one(c: Rational)
    requires
        c.wf(),
    ensures
        c.spec_mul(Rational::spec_one()) == Ok::<Rational, AlgebraError>(c),
        Rational::spec_one().spec_mul(c) == Ok::<Rational, AlgebraError>(c),
{
    let one = Rational::spec_one();
    let (cn, cd) = (c.numer as int, c.denom as int);
    lemma_gcd_with_one(crate::rational::magnitude(cn));
    lemma_gcd_with_one(cd as nat);
    assert(cn / 1 == cn && cd / 1 == cd && 1int / 1 == 1);
    assert((cn / 1) * (1int / 1) == cn && (cd / 1) * (1int / 1) == cd && (1int / 1) * (cn / 1)
        == cn && (1int / 1) * (cd / 1) == cd) by (nonlinear_arith)
        requires
            cn / 1 == cn,
            cd / 1 == cd,
            1int / 1 == 1,
    ;
    assert(crate::rational::lowest_terms(cn, cd) == (cn, cd));
    assert(crate::rational::raw_product(c, one) == Some((cn, cd)));
    assert(crate::rational::raw_product(one, c) == Some((cn, cd)));
}

/// A cross product with one term that succeeds on every term is the list
/// of those products.
pub proof fn lemma_cross_single_build(a: Seq<TermView>, u: TermView, out: Seq<TermView>)
    requires
        out.len() == a.len(),
        forall|j: int| 0 <= j < a.len() ==> (#[trigger] a[j]).product(u) == Ok::<TermView, AlgebraError>(out[j]),
    ensures
        cross_product(a, seq![u]) == Ok::<Seq<TermView>, AlgebraError>(out),
    decreases a.len(),
{
    let one = seq![u];
    if a.len() == 0 {
        assert(out =~= Seq::<TermView>::empty());
    } else {
        let front = a.drop_last();
        let done = out.drop_last();
        assert forall|j: int| 0 <= j < front.len() implies (#[trigger] front[j]).product(u) == Ok::<
            TermView,
            AlgebraError,
        >(done[j]) by {
            assert(front[j] == a[j]);
            assert(done[j] == out[j]);
        }
        lemma_cross_single_build(front, u, done);
        let last = a.last();
        assert(append_row(one)(done, last) == match try_map(one, times(last)) {
            Ok(row) => Ok::<Seq<TermView>, AlgebraError>(done + row),
            Err(e) => Err(e),
        });
        let row = seq![out.last()];
        assert(times(last)(one[0]) == last.product(u));
        assert(a[a.len() - 1].product(u) == Ok::<TermView, AlgebraError>(out[a.len() - 1]));
        lemma_try_map_build(one, times(last), row);
        assert(done + row =~= out);
    }
}

/// Multiplying a canonical list in lowest terms by the polynomial one
/// changes nothing.
pub proof fn lemma_times_unit(s: Seq<TermView>)
    requires
        canonical(s),
        terms_wf(s),
    ensures
        product_terms(s, RatioView::unit().terms) == Ok::<Seq<TermView>, AlgebraError>(s),
{
    reveal(product_terms);
    let u = TermView::constant(Rational::spec_one());
    assert(RatioView::unit().terms =~= seq![u]);
    assert forall|j: int| 0 <= j < s.len() implies (#[trigger] s[j]).product(u) == Ok::<
        TermView,
        AlgebraError,
    >(s[j]) by {
        assert(s[j].wf());
        lemma_product_one(s[j].coefficient);
        assert(s[j].variables + u.variables =~= s[j].variables);
        lemma_normal_term_fixed(s[j]);
    }
    lemma_cross_single_build(s, u, s);
    lemma_canonical_fixed(s);
}

/// A polynomial with canonical terms under the outer exponent one is its
/// own canonical form.
pub proof fn lemma_canonical_simplified(p: PolyView)
    requires
        canonical(p.terms),
        p.degree == Rational::spec_one(),
    ensures
        p.simplified() == Ok::<PolyView, AlgebraError>(p),
{
    reveal(PolyView::simplified);
    lemma_canonical_fixed(p.terms);
}

/// A canonical list without zero coefficients stays canonical when every
/// coefficient is multiplied by a fraction other than zero.
pub proof fn lemma_scaled_canonical(s: Seq<TermView>, a: Rational)
    requires
        canonical(s),
        coefficients_nonzero(s),
        terms_wf(s),
        a.wf(),
        a.numer != 0,
        scaled_terms(s, a) is Ok,
    ensures
        canonical(scaled_terms(s, a).unwrap()),
        coefficients_nonzero(scaled_terms(s, a).unwrap()),
        terms_wf(scaled_terms(s, a).unwrap()),
{
    let r = scaled_terms(s, a).unwrap();
    lemma_scaled_props(s, a);
    assert(crate::order::sorted_by(r, by_rank())) by {
        assert forall|i: int, j: int| 0 <= i < j < r.len() implies !by_rank()(
            #[trigger] r[j],
            #[trigger] r[i],
        ) by {
            assert(s[i].scaled(a) == Ok::<TermView, AlgebraError>(r[i]));
            assert(s[j].scaled(a) == Ok::<TermView, AlgebraError>(r[j]));
            assert(!by_rank()(s[j], s[i]));
        }
    }
}

/// A fraction made whole by `adjust` and scaled back by it is the fraction
/// itself, where both products exist.
pub proof fn lemma_whole_and_back(c: Rational, adjust: i64)
    requires
        c.wf(),
        adjust >= 1,
        c.spec_mul(Rational::spec_from_integer(adjust)) is Ok,
        c.spec_mul(Rational::spec_from_integer(adjust)).unwrap().spec_mul(
            Rational { numer: 1, denom: adjust },
        ) is Ok,
    ensures
        c.spec_mul(Rational::spec_from_integer(adjust)).unwrap().spec_mul(
            Rational { numer: 1, denom: adjust },
        ) == Ok::<Rational, AlgebraError>(c),
{
    let a = Rational::spec_from_integer(adjust);
    let ia = Rational { numer: 1, denom: adjust };
    lemma_gcd_with_one(adjust as nat);
    let c1 = c.spec_mul(a).unwrap();
    lemma_product_pair(c, a);
    let c2 = c1.spec_mul(ia).unwrap();
    lemma_product_pair(c1, ia);
    let t1 = times_pair(pair_of(c), pair_of(a));
    lemma_times_compatible(pair_of(c1), t1, pair_of(ia));
    let t2 = times_pair(t1, pair_of(ia));
    assert(t1.1 * adjust > 0) by (nonlinear_arith)
        requires
            t1.1 > 0,
            adjust >= 1,
    ;
    lemma_value_transitive(pair_of(c2), times_pair(pair_of(c1), pair_of(ia)), t2);
    let (cn, cd, k) = (c.numer as int, c.denom as int, adjust as int);
    assert(t2 == ((cn * k) * 1, (cd * 1) * k));
    assert(same_value(t2, pair_of(c))) by (nonlinear_arith)
        requires
            t2 == ((cn * k) * 1, (cd * 1) * k),
            pair_of(c) == (cn, cd),
    ;
    lemma_value_transitive(pair_of(c2), t2, pair_of(c));
    lemma_same_value_unique(c2, c);
}

/// A canonical list made whole by `adjust` and scaled back by it is the
/// list itself, where both scalings exist.
pub proof fn lemma_scaled_back_list(s: Seq<TermView>, adjust: i64)
    requires
        terms_wf(s),
        adjust >= 1,
        scaled_terms(s, Rational::spec_from_integer(adjust)) is Ok,
        scaled_terms(
            scaled_terms(s, Rational::spec_from_integer(adjust)).unwrap(),
            Rational { numer: 1, denom: adjust },
        ) is Ok,
    ensures
        scaled_terms(
            scaled_terms(s, Rational::spec_from_integer(adjust)).unwrap(),
            Rational { numer: 1, denom: adjust },
        ) == Ok::<Seq<TermView>, AlgebraError>(s),
{
    let a = Rational::spec_from_integer(adjust);
    let ia = Rational { numer: 1, denom: adjust };
    let r = scaled_terms(s, a).unwrap();
    let back = scaled_terms(r, ia).unwrap();
    lemma_try_map_items(s, scaling(a));
    lemma_try_map_items(r, scaling(ia));
    assert forall|j: int| 0 <= j < s.len() implies #[trigger] back[j] == s[j] by {
        assert(scaling(a)(s[j]) == s[j].scaled(a));
        assert(scaling(ia)(r[j]) == r[j].scaled(ia));
        assert(s[j].wf());
        lemma_whole_and_back(s[j].coefficient, adjust);
    }
    assert(back =~= s);
}

/// A map that succeeds on every item succeeds.
pub proof fn lemma_try_map_all_ok<A, B>(s: Seq<A>, f: spec_fn(A) -> Result<B, AlgebraError>)
    requires
        forall|k: int| 0 <= k < s.len() ==> f(#[trigger] s[k]) is Ok,
    ensures
        try_map(s, f) is Ok,
    decreases s.len(),
{
    if s.len() > 0 {
        let front = s.drop_last();
        assert forall|k: int| 0 <= k < front.len() implies f(#[trigger] front[k]) is Ok by {
            assert(front[k] == s[k]);
        }
        lemma_try_map_all_ok(front, f);
        assert(f(s[s.len() - 1]) is Ok);
    }
}

/// The product of one term with a canonical list exists where the product
/// of the list with that term exists.
pub proof fn lemma_single_product_exists(t: TermView, rest: Seq<TermView>)
    requires
        t.wf(),
        normal_vars(t.variables),
        canonical(rest),
        terms_wf(rest),
        product_terms(rest, seq![t]) is Ok,
    ensures
        product_terms(seq![t], rest) is Ok,
{
    reveal(product_terms);
    reveal(canonical_terms);
    let one = seq![t];
    assert(terms_wf(one) && all_normal(one)) by {
        assert forall|i: int| 0 <= i < one.len() implies (#[trigger] one[i]).wf() && normal_vars(
            one[i].variables,
        ) by {
            assert(one[i] == t);
        }
    }
    lemma_product_exists(rest, one);
    lemma_products_turned(one, rest);
    assert forall|k: int| 0 <= k < rest.len() implies times(t)(#[trigger] rest[k]) is Ok by {
        assert(all_products(one, rest[k]));
        assert(one[0].product(rest[k]) is Ok);
        assert(times(t)(rest[k]) == t.product(rest[k]));
    }
    lemma_try_map_all_ok(rest, times(t));
    lemma_single_cross(t, rest);
    let c = cross_product(one, rest).unwrap();
    lemma_try_map_items(rest, times(t));
    lemma_row_normal(t, rest);
    assert(vars_distinct(c)) by {
        assert forall|i: int, j: int| 0 <= i < j < c.len() implies (#[trigger] c[i]).variables != (
        #[trigger] c[j]).variables by {
            assert(times(t)(rest[i]) == t.product(rest[i]));
            assert(times(t)(rest[j]) == t.product(rest[j]));
            assert(rest[i].wf() && rest[j].wf());
            lemma_term_product_commutes(t, rest[i]);
            lemma_term_product_commutes(t, rest[j]);
            lemma_product_vars(rest[i], t);
            lemma_product_vars(rest[j], t);
            if c[i].variables == c[j].variables {
                lemma_merged_injective(rest[i].variables, rest[j].variables, t.variables);
                assert(rest[i].variables != rest[j].variables);
            }
        }
    }
    lemma_normalize_fixed(c);
    lemma_like_terms_fixed(c);
}

/// The least degree of a variable that every term holds, among terms with
/// variables in canonical form, is not zero.
pub proof fn lemma_least_degree_nonzero(terms: Seq<TermView>, x: Seq<char>)
    requires
        terms.len() >= 1,
        holds_name(terms, x),
        all_normal(terms),
    ensures
        least_degree(terms, x).numer != 0,
    decreases terms.len(),
{
    let last = terms[terms.len() - 1];
    assert(degree_in(last, x).numer != 0) by {
        lemma_index_of_name(last.variables, x);
        assert(index_of_name(last.variables, x) >= 0);
        assert(normal_vars(last.variables));
    }
    if terms.len() > 1 {
        let front = terms.drop_last();
        assert(holds_name(front, x) && all_normal(front)) by {
            assert forall|i: int| 0 <= i < front.len() implies index_of_name(
                (#[trigger] front[i]).variables,
                x,
            ) >= 0 && normal_vars(front[i].variables) by {
                assert(front[i] == terms[i]);
            }
        }
        lemma_least_degree_nonzero(front, x);
    }
}

/// Multiplying every coefficient by a fraction in lowest terms keeps a
/// list in lowest terms.
pub proof fn lemma_scaled_wf(s: Seq<TermView>, a: Rational)
    requires
        terms_wf(s),
        a.wf(),
        scaled_terms(s, a) is Ok,
    ensures
        terms_wf(scaled_terms(s, a).unwrap()),
{
    let r = scaled_terms(s, a).unwrap();
    lemma_try_map_items(s, scaling(a));
    assert forall|j: int| 0 <= j < r.len() implies (#[trigger] r[j]).wf() by {
        assert(scaling(a)(s[j]) == s[j].scaled(a));
        assert(s[j].wf());
        lemma_product_value(s[j].coefficient, a);
    }
}

/// What the content of a polynomial in lowest terms is made of: a term in
/// lowest terms with its variables in canonical form, and a rest in
/// canonical form and in lowest terms.
pub proof fn lemma_content_props(p: PolyView)
    requires
        p.wf(),
        p.simplified() is Ok,
        p.numbered_content() is Ok,
    ensures
        p.numbered_content().unwrap().0.wf(),
        normal_vars(p.numbered_content().unwrap().0.variables),
        canonical(seq![p.numbered_content().unwrap().0]),
        p.numbered_content().unwrap().1.wf(),
        canonical(p.numbered_content().unwrap().1.terms),
{
    reveal(PolyView::numbered_content);
    reveal(PolyView::without);
    let q = p.simplified().unwrap();
    lemma_simplified_is_canonical(p);
    lemma_simplified_wf(p);
    lemma_one_wf();
    let t = p.numbered_content().unwrap().0;
    let rest = p.numbered_content().unwrap().1;
    let k = first_common(q.terms[0].variables, q.terms);
    if k < 0 {
        lemma_content_gcd_bounds(q.terms);
        lemma_content_gcd_fits(q.terms);
        let g = content_gcd(q.terms);
        lemma_gcd_with_one(g);
        assert(t.variables =~= Seq::<VarView>::empty());
        if g == 0 {
            assert(t == TermView::zero());
        } else {
            assert(coefficients_nonzero(q.terms)) by {
                if q.terms == seq![TermView::zero()] {
                    assert(q.terms[0].coefficient.numer == 0);
                    assert(forall|j: int|
                        0 <= j < q.terms.len() ==> (#[trigger] q.terms[j]).coefficient.numer == 0);
                    lemma_content_gcd_zero(q.terms);
                }
            }
            let a = Rational::spec_new(1, g as i64);
            assert(a == (Rational { numer: 1, denom: g as i64 })) by {
                assert(1int / 1 == 1);
                assert(g as int / 1 == g);
            }
            lemma_scaled_canonical(q.terms, a);
        }
    } else {
        lemma_first_common(q.terms[0].variables, q.terms);
        let x = q.terms[0].variables[k].name;
        assert(holds_name(q.terms, x));
        assert(coefficients_nonzero(q.terms)) by {
            if q.terms == seq![TermView::zero()] {
                lemma_index_of_name(q.terms[0].variables, x);
                assert(false);
            }
        }
        let whole = q.integral().unwrap();
        let adjust = whole.0;
        lemma_common_denominator_positive(q.terms);
        lemma_gcd_with_one(adjust as nat);
        lemma_scaled_props(q.terms, Rational::spec_from_integer(adjust));
        let ps = whole.1.terms;
        assert(holds_name(ps, x)) by {
            assert forall|i: int| 0 <= i < ps.len() implies index_of_name(
                (#[trigger] ps[i]).variables,
                x,
            ) >= 0 by {
                assert(q.terms[i].scaled(Rational::spec_from_integer(adjust)) == Ok::<
                    TermView,
                    AlgebraError,
                >(ps[i]));
                assert(index_of_name(q.terms[i].variables, x) >= 0);
            }
        }
        lemma_content_gcd_bounds(ps);
        lemma_content_gcd_fits(ps);
        let g = content_gcd(ps);
        assert(g >= 1) by {
            assert(ps[0].coefficient.numer != 0);
        }
        lemma_gcd_with_one(g);
        let m = least_degree(ps, x);
        lemma_least_degree_wf(ps, x);
        lemma_least_degree_nonzero(ps, x);
        assert(t == content_term(g, x, m));
        assert(t.wf());
        assert(normal_vars(t.variables));
        let inv = t.inverse().unwrap();
        assert(inv.wf()) by {
            lemma_gcd_symmetric(1, g);
            assert(m.spec_neg().wf());
            assert(inv.variables[0].degree == m.spec_neg());
        }
        let one = seq![inv];
        assert(terms_wf(one));
        lemma_product_terms_wf(ps, one);
        let r1 = product_terms(ps, one).unwrap();
        let back = Rational::spec_new(1, adjust);
        assert(back == (Rational { numer: 1, denom: adjust })) by {
            assert(1int / 1 == 1);
            assert(adjust as int / 1 == adjust);
        }
        lemma_gcd_symmetric(1, adjust as nat);
        lemma_scaled_wf(r1, back);
        let r2 = scaled_terms(r1, back).unwrap();
        lemma_canonical_terms_wf(r2);
        lemma_wf_positive(r2);
        lemma_canonical_output(r2);
    }
}

/// The greatest common divisor of numerators that are all zero is zero.
pub proof fn lemma_content_gcd_zero(terms: Seq<TermView>)
    requires
        forall|j: int| 0 <= j < terms.len() ==> (#[trigger] terms[j]).coefficient.numer == 0,
    ensures
        content_gcd(terms) == 0,
    decreases terms.len(),
{
    if terms.len() > 0 {
        let front = terms.drop_last();
        assert forall|j: int| 0 <= j < front.len() implies (
        #[trigger] front[j]).coefficient.numer == 0 by {
            assert(front[j] == terms[j]);
        }
        lemma_content_gcd_zero(front);
        assert(terms[terms.len() - 1].coefficient.numer == 0);
    }
}

/// Two lists whose terms have the same variables, one by one, have the
/// same negative powers.
pub proof fn lemma_negative_powers_same(a: Seq<TermView>, b: Seq<TermView>)
    requires
        a.len() == b.len(),
        forall|j: int| 0 <= j < a.len() ==> (#[trigger] a[j]).variables == b[j].variables,
    ensures
        negative_powers(a) == negative_powers(b),
    decreases a.len(),
{
    if a.len() > 0 {
        assert forall|j: int| 0 <= j < a.drop_last().len() implies (
        #[trigger] a.drop_last()[j]).variables == b.drop_last()[j].variables by {
            assert(a.drop_last()[j] == a[j]);
            assert(b.drop_last()[j] == b[j]);
        }
        lemma_negative_powers_same(a.drop_last(), b.drop_last());
        assert(a[a.len() - 1].variables == b[a.len() - 1].variables);
    }
}

impl RatioView {
    /// Nothing is left to clear or to cancel: no variable has a negative
    /// degree, and the contents of the two sides, taken once their
    /// coefficients are made whole, share no more than the number one.
    pub open spec fn nothing_shared(self) -> bool {
        let n = self.numerator;
        let d = self.denominator;
        &&& negative_powers(n.terms).len() == 0 && negative_powers(d.terms).len() == 0
        &&& n.integral() is Ok && d.integral() is Ok
        &&& n.integral().unwrap().1.numbered_content() is Ok
        &&& d.integral().unwrap().1.numbered_content() is Ok
        &&& shared_term(
            n.integral().unwrap().1.numbered_content().unwrap().0,
            d.integral().unwrap().1.numbered_content().unwrap().0,
        ) == TermView::constant(Rational::spec_one())
    }

    /// Two sides that differ and share nothing. Either may be zero.
    pub open spec fn apart(self) -> bool {
        self.numerator.terms != self.denominator.terms && self.nothing_shared()
    }

    /// A ratio at rest: both sides are in canonical form under the outer
    /// exponent one and in lowest terms, and the ratio is zero over zero,
    /// or one over one, or its sides are `apart`.
    pub open spec fn at_rest(self) -> bool {
        let n = self.numerator;
        let d = self.denominator;
        &&& self.wf()
        &&& canonical(n.terms) && canonical(d.terms)
        &&& n.degree == Rational::spec_one() && d.degree == Rational::spec_one()
        &&& ((n.is_zero() && d.is_zero()) || (n == RatioView::unit() && d == RatioView::unit())
            || self.apart())
    }
}

/// A side of a ratio at rest, made whole: it is canonical, in lowest terms
/// and without negative degrees, multiplying it by the polynomial one
/// leaves it as it is, and scaling it back gives the side again, where that
/// scaling exists.
pub proof fn lemma_whole_side(n: PolyView)
    requires
        n.wf(),
        canonical(n.terms),
        n.degree == Rational::spec_one(),
        negative_powers(n.terms).len() == 0,
        n.integral() is Ok,
    ensures
        n.integral().unwrap().0 >= 1,
        n.integral().unwrap().1.wf(),
        canonical(n.integral().unwrap().1.terms),
        n.integral().unwrap().1.degree == Rational::spec_one(),
        clearing(n.integral().unwrap().1.terms) == RatioView::unit(),
        n.integral().unwrap().1.product(RatioView::unit()) == Ok::<PolyView, AlgebraError>(
            n.integral().unwrap().1,
        ),
        n.integral().unwrap().1.simplified() == Ok::<PolyView, AlgebraError>(
            n.integral().unwrap().1,
        ),
        scaled_terms(
            n.integral().unwrap().1.terms,
            Rational::spec_new(1, n.integral().unwrap().0),
        ) is Ok ==> scaled_terms(
            n.integral().unwrap().1.terms,
            Rational::spec_new(1, n.integral().unwrap().0),
        ) == Ok::<Seq<TermView>, AlgebraError>(n.terms),
{
    let adjust = n.integral().unwrap().0;
    let whole = n.integral().unwrap().1;
    lemma_common_denominator_positive(n.terms);
    lemma_gcd_with_one(adjust as nat);
    let a = Rational::spec_from_integer(adjust);
    if n.is_zero() {
        // zero times a whole number is zero
        lemma_try_map_items(n.terms, scaling(a));
        let zero = Rational::spec_zero();
        assert(scaling(a)(n.terms[0]) == n.terms[0].scaled(a));
        assert(n.terms[0].wf());
        lemma_product_pair(zero, a);
        let c = zero.spec_mul(a).unwrap();
        assert(c.numer == 0) by (nonlinear_arith)
            requires
                c.numer * (1 * 1) == (0 * adjust) * c.denom,
        ;
        crate::associate::lemma_zero_is_zero(c);
        assert(whole.terms =~= n.terms);
    } else {
        lemma_scaled_canonical(n.terms, a);
        lemma_scaled_props(n.terms, a);
        assert forall|j: int| 0 <= j < whole.terms.len() implies (
        #[trigger] whole.terms[j]).variables == n.terms[j].variables by {
            assert(n.terms[j].scaled(a) == Ok::<TermView, AlgebraError>(whole.terms[j]));
        }
    }
    lemma_negative_powers_same(whole.terms, n.terms);
    assert(negative_powers(whole.terms) =~= Seq::<VarView>::empty());
    lemma_times_unit(whole.terms);
    lemma_canonical_simplified(whole);
    let back = Rational::spec_new(1, adjust);
    assert(back == (Rational { numer: 1, denom: adjust })) by {
        assert(1int / 1 == 1);
        assert(adjust as int / 1 == adjust);
    }
    if scaled_terms(whole.terms, back) is Ok {
        lemma_scaled_back_list(n.terms, adjust);
    }
}

/// The rest of a polynomial in canonical form times its content is the
/// polynomial again, where that product exists.
pub proof fn lemma_rest_times_content(p: PolyView)
    requires
        p.wf(),
        canonical(p.terms),
        p.degree == Rational::spec_one(),
        p.numbered_content() is Ok,
        p.numbered_content().unwrap().1.product(PolyView::single(p.numbered_content().unwrap().0)) is Ok,
    ensures
        p.numbered_content().unwrap().1.product(PolyView::single(p.numbered_content().unwrap().0)) == Ok::<
            PolyView,
            AlgebraError,
        >(p),
{
    lemma_canonical_simplified(p);
    lemma_content_props(p);
    lemma_one_wf();
    let t = p.numbered_content().unwrap().0;
    let rest = p.numbered_content().unwrap().1;
    assert(PolyView::single(t).terms == seq![t]);
    lemma_single_product_exists(t, rest.terms);
    lemma_numbered_round_trip(p);
    assert(terms_wf(seq![t])) by {
        assert forall|i: int| 0 <= i < seq![t].len() implies (#[trigger] seq![t][i]).wf() by {}
    }
    lemma_mul_commutative(rest, PolyView::single(t));
}

/// One over one shares nothing.
pub proof fn lemma_unit_shares_nothing()
    ensures
        (RatioView { numerator: RatioView::unit(), denominator: RatioView::unit() }).nothing_shared(),
        RatioView::unit().wf(),
        canonical(RatioView::unit().terms),
        !RatioView::unit().is_zero(),
{
    reveal(PolyView::numbered_content);
    let unit = RatioView::unit();
    let one = Rational::spec_one();
    let u = TermView::constant(one);
    let none = Seq::<TermView>::empty();
    lemma_one_wf();
    crate::ratio::lemma_unit_canonical();
    assert(unit.terms =~= seq![u]);
    assert(unit.terms.drop_last() =~= none);
    assert(u.wf()) by {
        assert(crate::polynomial::vars_wf_empty());
    }
    assert(u.coefficient.numer == 1);
    // no negative degrees
    reveal_with_fuel(negative_powers, 2);
    reveal_with_fuel(crate::ratio::negatives_of, 2);
    assert(negative_powers(unit.terms) =~= Seq::<VarView>::empty());
    // the least common denominator is one
    reveal_with_fuel(crate::fold::try_fold, 2);
    lemma_gcd_with_one(1);
    assert(crate::rational::lcm(1, 1) == 1) by {
        assert(1int / 1 == 1);
        assert(1int * 1 == 1);
    }
    assert(crate::content::widening()(1i64, u) == crate::content::widen_denominator(1i64, u));
    assert(crate::content::common_denominator(unit.terms) == Ok::<i64, AlgebraError>(1i64));
    // multiplied by one, the terms are the same
    lemma_product_one(one);
    assert(scaling(one)(u) == u.scaled(one));
    lemma_try_map_build(unit.terms, scaling(one), unit.terms);
    assert(Rational::spec_from_integer(1) == one);
    assert(unit.integral() == Ok::<(i64, PolyView), AlgebraError>((1i64, unit)));
    // the content is one
    lemma_canonical_simplified(unit);
    reveal_with_fuel(first_common, 2);
    reveal_with_fuel(content_gcd, 2);
    assert(content_gcd(unit.terms) == 1);
    assert(Rational::spec_new(1, 1) == one) by {
        assert(1int / 1 == 1);
    }
    assert(unit.numbered_content() == Ok::<(TermView, PolyView), AlgebraError>((u, unit)));
    assert(crate::ratio::shared_power(u, u) =~= Seq::<VarView>::empty());
    assert(shared_term(u, u) == u);
}

/// The reduction of a ratio that shares nothing, with both sides in
/// canonical form under the outer exponent one, comes back to the ratio
/// itself before its sides are compared, where the canonical form exists.
pub proof fn lemma_reduction_at_rest(s: RatioView)
    requires
        s.wf(),
        canonical(s.numerator.terms),
        canonical(s.denominator.terms),
        s.numerator.degree == Rational::spec_one(),
        s.denominator.degree == Rational::spec_one(),
        s.nothing_shared(),
        !(s.numerator.is_zero() && s.denominator.is_zero()),
        s.simplified() is Ok,
    ensures
        s.simplified() == s.settled(),
        s.numerator.simplified() == Ok::<PolyView, AlgebraError>(s.numerator),
        s.denominator.simplified() == Ok::<PolyView, AlgebraError>(s.denominator),
{
    reveal(RatioView::simplified);
    reveal(RatioView::reduced);
    reveal(RatioView::cancelled);
    let n = s.numerator;
    let d = s.denominator;
    lemma_canonical_simplified(n);
    lemma_canonical_simplified(d);
    lemma_whole_side(n);
    lemma_whole_side(d);
    let a = n.integral().unwrap();
    let b = d.integral().unwrap();
    let whole = RatioView { numerator: a.1, denominator: b.1 };
    let unit = RatioView::unit();
    assert(whole.both_times(unit) == Ok::<RatioView, AlgebraError>(whole));
    assert(whole.cleared() == Ok::<RatioView, AlgebraError>(whole));
    let ta = a.1.numbered_content().unwrap();
    let tb = b.1.numbered_content().unwrap();
    assert(whole.cancelled() is Ok);
    lemma_rest_times_content(a.1);
    lemma_rest_times_content(b.1);
    let shared = shared_term(ta.0, tb.0);
    assert(shared.inverse() == Ok::<TermView, AlgebraError>(TermView::constant(Rational::spec_one())))
        by {
        assert(negated_degrees(Seq::<VarView>::empty()) =~= Seq::<VarView>::empty());
    }
    assert(whole.cancelled() == Ok::<RatioView, AlgebraError>(whole));
    assert(whole.rescaled(a.0, b.0) is Ok);
    assert(whole.rescaled(a.0, b.0) == Ok::<RatioView, AlgebraError>(s));
}

/// A ratio at rest is its own canonical form, where that form exists:
/// zero over zero, one over one, and every ratio whose sides are apart,
/// a zero numerator or a zero denominator among them.
pub proof fn lemma_ratio_at_rest(s: RatioView)
    requires
        s.at_rest(),
        s.simplified() is Ok,
    ensures
        s.simplified() == Ok::<RatioView, AlgebraError>(s),
{
    let n = s.numerator;
    let d = s.denominator;
    lemma_canonical_simplified(n);
    lemma_canonical_simplified(d);
    if n.is_zero() && d.is_zero() {
        reveal(RatioView::simplified);
    } else if n == RatioView::unit() && d == RatioView::unit() {
        lemma_unit_shares_nothing();
        lemma_reduction_at_rest(s);
    } else {
        lemma_reduction_at_rest(s);
    }
}

} // verus!
