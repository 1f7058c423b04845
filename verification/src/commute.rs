//! The sum of two polynomials in canonical form does not depend on their
//! order.

use crate::canonical::{all_normal, canonical, lemma_like_terms_fixed, lemma_normalize_fixed, vars_distinct};
use crate::error::AlgebraError;
use crate::fold::{try_fold, try_map};
use crate::invariants::{lemma_like_terms_distinct, lemma_like_terms_keep_vars, lemma_nonzero_terms_keeps, lemma_nonzero_terms_props, lemma_sort_keeps_distinct, lemma_wf_positive};
use crate::laws::lemma_sort_keeps;
use crate::number::lemma_sum_commutes;
use crate::order::insertion_sort;
use crate::ordering::{all_good, lemma_sort_by_rank_sorted, positive_terms};
use crate::polynomial::{absorb_term, absorbing, by_rank, canonical_terms, index_of_vars, lemma_index_of_vars, like_terms_added, nonzero_terms, or_zero, terms_wf, PolyView};
use crate::term::{vars_wf, TermView, VarView};
use crate::unique::{degrees_wf, lemma_kept_same, lemma_sort_holds, lemma_sorted_unique, lemma_wf_vars_positive, same_terms};
use vstd::prelude::*;

verus! {

/// Folding over two lists joined is folding over the second from where
/// the first ended.
pub proof fn lemma_try_fold_append<A, B>(
    s: Seq<A>,
    t: Seq<A>,
    init: B,
    f: spec_fn(B, A) -> Result<B, AlgebraError>,
)
    ensures
        try_fold(s + t, init, f) == match try_fold(s, init, f) {
            Ok(x) => try_fold(t, x, f),
            Err(e) => Err(e),
        },
    decreases t.len(),
{
    if t.len() == 0 {
        assert(s + t =~= s);
    } else {
        assert((s + t).drop_last() =~= s + t.drop_last());
        assert((s + t).last() == t.last());
        lemma_try_fold_append(s, t.drop_last(), init, f);
    }
}

/// What a successful map gives, item by item.
pub proof fn lemma_try_map_items<A, B>(s: Seq<A>, f: spec_fn(A) -> Result<B, AlgebraError>)
    requires
        try_map(s, f) is Ok,
    ensures
        try_map(s, f).unwrap().len() == s.len(),
        forall|k: int|
            0 <= k < s.len() ==> f(#[trigger] s[k]) == Ok::<B, AlgebraError>(
                try_map(s, f).unwrap()[k],
            ),
    decreases s.len(),
{
    if s.len() > 0 {
        let front = s.drop_last();
        lemma_try_map_items(front, f);
        let done = try_map(front, f).unwrap();
        let out = try_map(s, f).unwrap();
        assert forall|k: int| 0 <= k < s.len() implies f(#[trigger] s[k]) == Ok::<B, AlgebraError>(
            out[k],
        ) by {
            if k < front.len() {
                assert(front[k] == s[k]);
                assert(out[k] == done[k]);
            }
        }
    }
}

/// A map that succeeds on every item succeeds, and gives those results.
pub proof fn lemma_try_map_build<A, B>(
    s: Seq<A>,
    f: spec_fn(A) -> Result<B, AlgebraError>,
    out: Seq<B>,
)
    requires
        out.len() == s.len(),
        forall|k: int| 0 <= k < s.len() ==> f(#[trigger] s[k]) == Ok::<B, AlgebraError>(out[k]),
    ensures
        try_map(s, f) == Ok::<Seq<B>, AlgebraError>(out),
    decreases s.len(),
{
    if s.len() == 0 {
        assert(out =~= Seq::<B>::empty());
    } else {
        let front = s.drop_last();
        let done = out.drop_last();
        assert forall|k: int| 0 <= k < front.len() implies f(#[trigger] front[k]) == Ok::<
            B,
            AlgebraError,
        >(done[k]) by {
            assert(front[k] == s[k]);
            assert(done[k] == out[k]);
        }
        lemma_try_map_build(front, f, done);
        assert(f(s[s.len() - 1]) == Ok::<B, AlgebraError>(out[s.len() - 1]));
        assert(done.push(out.last()) =~= out);
    }
}

/// A map fails where it fails on an item.
pub proof fn lemma_try_map_fails<A, B>(s: Seq<A>, f: spec_fn(A) -> Result<B, AlgebraError>, k: int)
    requires
        0 <= k < s.len(),
        f(s[k]) is Err,
    ensures
        try_map(s, f) is Err,
    decreases s.len(),
{
    if k < s.len() - 1 {
        assert(s.drop_last()[k] == s[k]);
        lemma_try_map_fails(s.drop_last(), f, k);
    }
}

/// A map that fails fails on an item.
pub proof fn lemma_try_map_failure<A, B>(s: Seq<A>, f: spec_fn(A) -> Result<B, AlgebraError>) -> (k:
    int)
    requires
        try_map(s, f) is Err,
    ensures
        0 <= k < s.len(),
        f(s[k]) is Err,
        try_map(s, f) == Err::<Seq<B>, AlgebraError>(f(s[k])->Err_0),
    decreases s.len(),
{
    if try_map(s.drop_last(), f) is Err {
        let k = lemma_try_map_failure(s.drop_last(), f);
        assert(s.drop_last()[k] == s[k]);
        k
    } else {
        s.len() - 1
    }
}

/// The first position with these variables is the one before which no
/// term has them.
pub proof fn lemma_index_first(s: Seq<TermView>, v: Seq<VarView>, k: int)
    requires
        0 <= k < s.len(),
        s[k].variables == v,
        forall|m: int| 0 <= m < k ==> (#[trigger] s[m]).variables != v,
    ensures
        index_of_vars(s, v) == k,
{
    lemma_index_of_vars(s, v);
    let i = index_of_vars(s, v);
    if i >= 0 && i < k {
        assert(s[i].variables != v);
    }
}

/// Where no term has these variables, none is found.
pub proof fn lemma_index_none(s: Seq<TermView>, v: Seq<VarView>)
    requires
        forall|m: int| 0 <= m < s.len() ==> (#[trigger] s[m]).variables != v,
    ensures
        index_of_vars(s, v) == -1,
{
    lemma_index_of_vars(s, v);
    let i = index_of_vars(s, v);
    if i >= 0 {
        assert(s[i].variables != v);
    }
}

/// A term of the first list with the coefficient of its like term in the
/// second added to it.
pub open spec fn matched(a: TermView, b: Seq<TermView>) -> Result<TermView, AlgebraError> {
    let j = index_of_vars(b, a.variables);
    if j < 0 {
        Ok(a)
    } else {
        match a.coefficient.spec_add(b[j].coefficient) {
            Ok(c) => Ok(TermView { coefficient: c, variables: a.variables }),
            Err(e) => Err(e),
        }
    }
}

/// `matched` as a step.
pub open spec fn matching(b: Seq<TermView>) -> spec_fn(TermView) -> Result<TermView, AlgebraError> {
    |a: TermView| matched(a, b)
}

/// The terms of `b` that have no like term in `a`, in order.
pub open spec fn unmatched(b: Seq<TermView>, a: Seq<TermView>) -> Seq<TermView>
    decreases b.len(),
{
    if b.len() == 0 {
        b
    } else if index_of_vars(a, b.last().variables) < 0 {
        unmatched(b.drop_last(), a).push(b.last())
    } else {
        unmatched(b.drop_last(), a)
    }
}

/// The like terms of two lists added: every term of the first with its
/// like term of the second, then the terms of the second that are left.
pub open spec fn combined(a: Seq<TermView>, b: Seq<TermView>) -> Result<
    Seq<TermView>,
    AlgebraError,
> {
    match try_map(a, matching(b)) {
        Ok(h) => Ok(h + unmatched(b, a)),
        Err(e) => Err(e),
    }
}

/// The terms that are left of `b` are terms of `b` without a like term in
/// `a`, and every such term is left.
pub proof fn lemma_unmatched_holds(b: Seq<TermView>, a: Seq<TermView>)
    ensures
        forall|k: int|
            0 <= k < unmatched(b, a).len() ==> b.contains(#[trigger] unmatched(b, a)[k])
                && index_of_vars(a, unmatched(b, a)[k].variables) < 0,
        forall|j: int|
            0 <= j < b.len() && index_of_vars(a, (#[trigger] b[j]).variables) < 0 ==> unmatched(
                b,
                a,
            ).contains(b[j]),
    decreases b.len(),
{
    if b.len() > 0 {
        let f = b.drop_last();
        lemma_unmatched_holds(f, a);
        let u = unmatched(f, a);
        let out = unmatched(b, a);
        assert forall|k: int| 0 <= k < out.len() implies b.contains(#[trigger] out[k])
            && index_of_vars(a, out[k].variables) < 0 by {
            if k < u.len() {
                assert(out[k] == u[k]);
                assert(f.contains(u[k]));
                let l = choose|l: int| 0 <= l < f.len() && f[l] == u[k];
                assert(b[l] == u[k]);
            } else {
                assert(out[k] == b[b.len() - 1]);
            }
        }
        assert forall|j: int|
            0 <= j < b.len() && index_of_vars(a, (#[trigger] b[j]).variables) < 0 implies out.contains(
            b[j],
        ) by {
            if j < f.len() {
                assert(f[j] == b[j]);
                assert(u.contains(f[j]));
                let l = choose|l: int| 0 <= l < u.len() && u[l] == f[j];
                assert(out[l] == b[j]);
            } else {
                assert(out[out.len() - 1] == b[j]);
            }
        }
    }
}

/// A failed sum of fractions is an overflow.
pub proof fn lemma_matched_error(a: TermView, b: Seq<TermView>)
    requires
        matched(a, b) is Err,
    ensures
        matched(a, b) == Err::<TermView, AlgebraError>(AlgebraError::Overflow),
{
}

/// Adding the like terms of `b` into `a`, term by term, gives `combined`.
pub proof fn lemma_fold_is_combined(a: Seq<TermView>, b: Seq<TermView>)
    requires
        vars_distinct(a),
        vars_distinct(b),
    ensures
        try_fold(b, a, absorbing()) == combined(a, b),
    decreases b.len(),
{
    if b.len() == 0 {
        assert forall|k: int| 0 <= k < a.len() implies matching(b)(#[trigger] a[k]) == Ok::<
            TermView,
            AlgebraError,
        >(a[k]) by {
            lemma_index_of_vars(b, a[k].variables);
        }
        lemma_try_map_build(a, matching(b), a);
        assert(a + unmatched(b, a) =~= a);
    } else {
        let f = b.drop_last();
        let x = b.last();
        assert(vars_distinct(f)) by {
            assert forall|i: int, j: int| 0 <= i < j < f.len() implies (#[trigger] f[i]).variables
                != (#[trigger] f[j]).variables by {
                assert(f[i] == b[i]);
                assert(f[j] == b[j]);
            }
        }
        lemma_fold_is_combined(a, f);
        // no term of `f` has the variables of `x`
        assert forall|m: int| 0 <= m < f.len() implies (#[trigger] f[m]).variables
            != x.variables by {
            assert(f[m] == b[m]);
            assert(b[m].variables != b[b.len() - 1].variables);
        }
        lemma_index_of_vars(a, x.variables);
        let i = index_of_vars(a, x.variables);
        // how the match of each term of `a` in `b` relates to its match in `f`
        assert forall|k: int| 0 <= k < a.len() && k != i implies matched(#[trigger] a[k], b)
            == matched(a[k], f) by {
            lemma_index_of_vars(f, a[k].variables);
            if i >= 0 {
                assert(a[k].variables != a[i].variables);
            }
            assert(a[k].variables != x.variables);
            let j = index_of_vars(f, a[k].variables);
            if j >= 0 {
                assert(f[j] == b[j]);
            }
        }
        if i >= 0 {
            lemma_index_none(f, a[i].variables);
            assert(matched(a[i], f) == Ok::<TermView, AlgebraError>(a[i]));
            assert(index_of_vars(b, a[i].variables) == b.len() - 1);
        }
        if try_fold(f, a, absorbing()) is Err {
            let k = lemma_try_map_failure(a, matching(f));
            assert(matching(f)(a[k]) == matched(a[k], f));
            assert(k != i);
            assert(matching(b)(a[k]) == matched(a[k], b));
            lemma_try_map_fails(a, matching(b), k);
            let k2 = lemma_try_map_failure(a, matching(b));
            assert(matching(b)(a[k2]) == matched(a[k2], b));
            lemma_matched_error(a[k], f);
            lemma_matched_error(a[k2], b);
        } else {
            let h = try_map(a, matching(f)).unwrap();
            let u = unmatched(f, a);
            let acc = h + u;
            lemma_try_map_items(a, matching(f));
            lemma_unmatched_holds(f, a);
            assert forall|k: int| 0 <= k < a.len() implies (#[trigger] h[k]).variables
                == a[k].variables by {
                assert(matching(f)(a[k]) == matched(a[k], f));
            }
            assert(absorbing()(acc, x) == absorb_term(acc, x));
            // the variables of `x` are found in `acc` where they are found in `a`
            if i >= 0 {
                assert forall|m: int| 0 <= m < i implies (#[trigger] acc[m]).variables
                    != x.variables by {
                    assert(acc[m] == h[m]);
                    assert(a[m].variables != x.variables);
                }
                assert(acc[i] == h[i]);
                lemma_index_first(acc, x.variables, i);
                assert(matching(f)(a[i]) == matched(a[i], f));
                assert(h[i] == a[i]);
                if a[i].coefficient.spec_add(x.coefficient) is Ok {
                    let c = a[i].coefficient.spec_add(x.coefficient).unwrap();
                    let t = TermView { coefficient: c, variables: a[i].variables };
                    let h2 = h.update(i, t);
                    assert forall|k: int| 0 <= k < a.len() implies matching(b)(#[trigger] a[k])
                        == Ok::<TermView, AlgebraError>(h2[k]) by {
                        assert(matching(b)(a[k]) == matched(a[k], b));
                        assert(matching(f)(a[k]) == matched(a[k], f));
                    }
                    lemma_try_map_build(a, matching(b), h2);
                    assert(acc.update(i, t) =~= h2 + u);
                } else {
                    assert(matching(b)(a[i]) == matched(a[i], b));
                    lemma_try_map_fails(a, matching(b), i);
                    let k2 = lemma_try_map_failure(a, matching(b));
                    assert(matching(b)(a[k2]) == matched(a[k2], b));
                    lemma_matched_error(a[k2], b);
                }
            } else {
                assert forall|m: int| 0 <= m < acc.len() implies (#[trigger] acc[m]).variables
                    != x.variables by {
                    if m < h.len() {
                        assert(acc[m] == h[m]);
                        assert(a[m].variables != x.variables);
                    } else {
                        assert(acc[m] == u[m - h.len()]);
                        assert(f.contains(u[m - h.len()]));
                        let l = choose|l: int| 0 <= l < f.len() && f[l] == u[m - h.len()];
                        assert(f[l].variables != x.variables);
                    }
                }
                lemma_index_none(acc, x.variables);
                assert forall|k: int| 0 <= k < a.len() implies matching(b)(#[trigger] a[k])
                    == Ok::<TermView, AlgebraError>(h[k]) by {
                    assert(matching(b)(a[k]) == matched(a[k], b));
                    assert(matching(f)(a[k]) == matched(a[k], f));
                }
                lemma_try_map_build(a, matching(b), h);
                assert(acc.push(x) =~= h + u.push(x));
            }
        }
    }
}

/// Every term that `combined(a, b)` holds, `combined(b, a)` holds too.
pub proof fn lemma_combined_holds(a: Seq<TermView>, b: Seq<TermView>)
    requires
        vars_distinct(a),
        vars_distinct(b),
        terms_wf(a),
        terms_wf(b),
        combined(a, b) is Ok,
        combined(b, a) is Ok,
    ensures
        forall|y: TermView|
            combined(a, b).unwrap().contains(y) ==> #[trigger] combined(b, a).unwrap().contains(y),
{
    let h = try_map(a, matching(b)).unwrap();
    let u = unmatched(b, a);
    let h2 = try_map(b, matching(a)).unwrap();
    let u2 = unmatched(a, b);
    let r = h + u;
    let r2 = h2 + u2;
    lemma_try_map_items(a, matching(b));
    lemma_try_map_items(b, matching(a));
    lemma_unmatched_holds(b, a);
    lemma_unmatched_holds(a, b);
    assert forall|y: TermView| r.contains(y) implies #[trigger] r2.contains(y) by {
        let k = choose|k: int| 0 <= k < r.len() && r[k] == y;
        if k < h.len() {
            assert(r[k] == h[k]);
            assert(matching(b)(a[k]) == matched(a[k], b));
            lemma_index_of_vars(b, a[k].variables);
            let j = index_of_vars(b, a[k].variables);
            if j < 0 {
                assert(y == a[k]);
                assert(u2.contains(a[k]));
                let l = choose|l: int| 0 <= l < u2.len() && u2[l] == a[k];
                assert(r2[h2.len() + l] == y);
            } else {
                assert(matching(a)(b[j]) == matched(b[j], a));
                assert forall|m: int| 0 <= m < k implies (#[trigger] a[m]).variables
                    != b[j].variables by {
                    assert(a[m].variables != a[k].variables);
                }
                lemma_index_first(a, b[j].variables, k);
                assert(a[k].wf() && b[j].wf());
                lemma_sum_commutes(a[k].coefficient, b[j].coefficient);
                assert(h2[j] == y);
                assert(r2[j] == y);
            }
        } else {
            let l = k - h.len();
            assert(r[k] == u[l]);
            assert(b.contains(u[l]));
            let j = choose|j: int| 0 <= j < b.len() && b[j] == u[l];
            assert(matching(a)(b[j]) == matched(b[j], a));
            assert(h2[j] == y);
            assert(r2[j] == y);
        }
    }
}

/// `combined(a, b)` fails where `combined(b, a)` fails.
pub proof fn lemma_combined_fails(a: Seq<TermView>, b: Seq<TermView>)
    requires
        vars_distinct(a),
        vars_distinct(b),
        terms_wf(a),
        terms_wf(b),
        combined(b, a) is Err,
    ensures
        combined(a, b) == Err::<Seq<TermView>, AlgebraError>(AlgebraError::Overflow),
        combined(b, a) == Err::<Seq<TermView>, AlgebraError>(AlgebraError::Overflow),
{
    let j = lemma_try_map_failure(b, matching(a));
    assert(matching(a)(b[j]) == matched(b[j], a));
    lemma_matched_error(b[j], a);
    lemma_index_of_vars(a, b[j].variables);
    let k = index_of_vars(a, b[j].variables);
    assert forall|m: int| 0 <= m < j implies (#[trigger] b[m]).variables != a[k].variables by {
        assert(b[m].variables != b[j].variables);
    }
    lemma_index_first(b, a[k].variables, j);
    assert(a[k].wf() && b[j].wf());
    lemma_sum_commutes(a[k].coefficient, b[j].coefficient);
    assert(matching(b)(a[k]) == matched(a[k], b));
    lemma_try_map_fails(a, matching(b), k);
    let k2 = lemma_try_map_failure(a, matching(b));
    assert(matching(b)(a[k2]) == matched(a[k2], b));
    lemma_matched_error(a[k2], b);
}

/// Two lists joined, where every term of each has its variables in
/// canonical form and its degrees in lowest terms, are such a list.
pub proof fn lemma_joined_props(a: Seq<TermView>, b: Seq<TermView>)
    requires
        all_normal(a),
        all_normal(b),
        terms_wf(a),
        terms_wf(b),
    ensures
        all_normal(a + b),
        degrees_wf(a + b),
        all_good(a + b, positive_terms()),
{
    lemma_wf_positive(a);
    lemma_wf_positive(b);
    let s = a + b;
    assert forall|i: int| 0 <= i < s.len() implies crate::canonical::normal_vars(
        (#[trigger] s[i]).variables,
    ) && vars_wf(s[i].variables) && positive_terms()(s[i]) by {
        if i < a.len() {
            assert(s[i] == a[i]);
            assert(a[i].wf());
            assert(positive_terms()(a[i]));
        } else {
            assert(s[i] == b[i - a.len()]);
            assert(b[i - a.len()].wf());
            assert(positive_terms()(b[i - a.len()]));
        }
    }
}

/// `vars_wf` of a term's variables, as a property of items.
pub open spec fn lowest() -> spec_fn(TermView) -> bool {
    |t: TermView| vars_wf(t.variables)
}

/// The canonical form of two canonical lists joined is the same in either
/// order.
pub proof fn lemma_canonical_terms_commute(a: Seq<TermView>, b: Seq<TermView>)
    requires
        canonical(a),
        canonical(b),
        terms_wf(a),
        terms_wf(b),
    ensures
        canonical_terms(a + b) == canonical_terms(b + a),
{
    reveal(canonical_terms);
    lemma_joined_props(a, b);
    lemma_joined_props(b, a);
    lemma_normalize_fixed(a + b);
    lemma_normalize_fixed(b + a);
    lemma_try_fold_append(a, b, Seq::<TermView>::empty(), absorbing());
    lemma_try_fold_append(b, a, Seq::<TermView>::empty(), absorbing());
    lemma_like_terms_fixed(a);
    lemma_like_terms_fixed(b);
    lemma_fold_is_combined(a, b);
    lemma_fold_is_combined(b, a);
    assert(like_terms_added(a + b) == combined(a, b));
    assert(like_terms_added(b + a) == combined(b, a));
    if combined(a, b) is Err {
        lemma_combined_fails(b, a);
    } else if combined(b, a) is Err {
        lemma_combined_fails(a, b);
    } else {
        let m = combined(a, b).unwrap();
        let m2 = combined(b, a).unwrap();
        lemma_combined_holds(a, b);
        lemma_combined_holds(b, a);
        assert(same_terms(m, m2));
        lemma_kept_same(m, m2);
        let k = or_zero(nonzero_terms(m));
        let k2 = or_zero(nonzero_terms(m2));
        lemma_sorted_props(a + b, m);
        lemma_sorted_props(b + a, m2);
        lemma_sort_holds(k);
        lemma_sort_holds(k2);
        lemma_sorted_unique(insertion_sort(k, by_rank()), insertion_sort(k2, by_rank()));
    }
}

/// What the last steps of the canonical form give for a list `m` that is
/// `s` with like terms added: a sorted list with distinct variables whose
/// degrees are in lowest terms.
pub proof fn lemma_sorted_props(s: Seq<TermView>, m: Seq<TermView>)
    requires
        degrees_wf(s),
        all_good(s, positive_terms()),
        like_terms_added(s) == Ok::<Seq<TermView>, AlgebraError>(m),
    ensures
        crate::order::sorted_by(
            insertion_sort(or_zero(nonzero_terms(m)), by_rank()),
            by_rank(),
        ),
        vars_distinct(insertion_sort(or_zero(nonzero_terms(m)), by_rank())),
        degrees_wf(insertion_sort(or_zero(nonzero_terms(m)), by_rank())),
{
    assert forall|j: int| 0 <= j < s.len() implies vars_wf((#[trigger] s[j]).variables) by {}
    lemma_like_terms_keep_vars(s, |v: Seq<VarView>| vars_wf(v));
    lemma_like_terms_distinct(s);
    lemma_nonzero_terms_props(m);
    assert forall|j: int| 0 <= j < m.len() implies lowest()(#[trigger] m[j]) by {}
    lemma_nonzero_terms_keeps(m, lowest());
    let z = nonzero_terms(m);
    let k = or_zero(z);
    assert(vars_distinct(k) && all_good(k, lowest()) && all_good(k, positive_terms())) by {
        if z.len() == 0 {
            assert(k[0] == TermView::zero());
        }
        assert forall|i: int| 0 <= i < k.len() implies positive_terms()(#[trigger] k[i]) by {
            assert(lowest()(k[i]));
            lemma_wf_vars_positive(k[i].variables);
        }
    }
    lemma_sort_by_rank_sorted(k);
    lemma_sort_keeps_distinct(k);
    lemma_sort_keeps(k, by_rank(), lowest());
    let out = insertion_sort(k, by_rank());
    assert forall|i: int| 0 <= i < out.len() implies vars_wf((#[trigger] out[i]).variables) by {
        assert(lowest()(out[i]));
    }
}

/// The sum of two polynomials in canonical form is the same in either
/// order: the same polynomial, or the same failure.
pub proof fn lemma_add_commutative(a: PolyView, b: PolyView)
    requires
        a.wf(),
        b.wf(),
        canonical(a.terms),
        canonical(b.terms),
    ensures
        a.sum(b) == b.sum(a),
{
    lemma_canonical_terms_commute(a.terms, b.terms);
}

} // verus!
