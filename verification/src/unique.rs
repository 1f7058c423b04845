//! The canonical form is unique: two canonical lists that hold the same
//! terms are the same list.

use crate::canonical::vars_distinct;
use crate::number::lemma_fraction_total;
use crate::order::{insert_sorted, insertion_sort, sorted_by};
use crate::ordering::{insert_pos, lemma_insert_pos, lemma_text_total, positive_vars};
use crate::polynomial::{by_rank, nonzero_terms, or_zero, term_before};
use crate::term::{var_lt, vars_lt, vars_wf, TermView, VarView};
use vstd::prelude::*;

verus! {

/// Of two different variables with degrees in lowest terms one comes
/// before the other.
pub proof fn lemma_var_total(a: VarView, b: VarView)
    requires
        a.degree.wf(),
        b.degree.wf(),
    ensures
        a == b || var_lt(a, b) || var_lt(b, a),
{
    lemma_text_total(a.name, b.name);
    lemma_fraction_total(a.degree, b.degree);
}

/// The rest of a list of variables in lowest terms is in lowest terms.
pub proof fn lemma_wf_skip(a: Seq<VarView>)
    requires
        vars_wf(a),
        a.len() > 0,
    ensures
        vars_wf(a.skip(1)),
        a[0].degree.wf(),
{
    assert forall|i: int| 0 <= i < a.skip(1).len() implies (#[trigger] a.skip(1)[i]).degree.wf() by {
        assert(a.skip(1)[i] == a[i + 1]);
    }
}

/// Of two different lists of variables in lowest terms one comes before
/// the other.
pub proof fn lemma_vars_total(a: Seq<VarView>, b: Seq<VarView>)
    requires
        vars_wf(a),
        vars_wf(b),
    ensures
        a == b || vars_lt(a, b) || vars_lt(b, a),
    decreases a.len(),
{
    if a.len() == 0 || b.len() == 0 {
        if a.len() == 0 && b.len() == 0 {
            assert(a =~= b);
        }
    } else {
        lemma_wf_skip(a);
        lemma_wf_skip(b);
        lemma_var_total(a[0], b[0]);
        if a[0] == b[0] {
            lemma_vars_total(a.skip(1), b.skip(1));
            if a.skip(1) == b.skip(1) {
                assert(a =~= seq![a[0]] + a.skip(1));
                assert(b =~= seq![b[0]] + b.skip(1));
            }
        }
    }
}

/// Variables in lowest terms have positive denominators.
pub proof fn lemma_wf_vars_positive(a: Seq<VarView>)
    requires
        vars_wf(a),
    ensures
        positive_vars(a),
{
    assert forall|i: int| 0 <= i < a.len() implies crate::ordering::positive(
        (#[trigger] a[i]).degree,
    ) by {
        assert(a[i].degree.wf());
    }
}

/// Of two terms with different variables in lowest terms one comes before
/// the other.
pub proof fn lemma_term_total(a: TermView, b: TermView)
    requires
        vars_wf(a.variables),
        vars_wf(b.variables),
    ensures
        a.variables == b.variables || term_before(a, b) || term_before(b, a),
{
    lemma_vars_total(a.variables, b.variables);
}

/// Every term has its degrees in lowest terms.
pub open spec fn degrees_wf(terms: Seq<TermView>) -> bool {
    forall|i: int| 0 <= i < terms.len() ==> vars_wf((#[trigger] terms[i]).variables)
}

/// The two lists hold the same terms.
pub open spec fn same_terms(s: Seq<TermView>, t: Seq<TermView>) -> bool {
    forall|x: TermView| #![trigger s.contains(x)] #![trigger t.contains(x)] s.contains(x) <==> t.contains(x)
}

/// A list without its last term: what it keeps of being sorted, of
/// distinct variables and of lowest terms.
pub proof fn lemma_drop_last_keeps(s: Seq<TermView>)
    requires
        s.len() > 0,
        sorted_by(s, by_rank()),
        vars_distinct(s),
        degrees_wf(s),
    ensures
        sorted_by(s.drop_last(), by_rank()),
        vars_distinct(s.drop_last()),
        degrees_wf(s.drop_last()),
{
    let f = s.drop_last();
    assert forall|i: int, j: int| 0 <= i < j < f.len() implies !by_rank()(
        #[trigger] f[j],
        #[trigger] f[i],
    ) by {
        assert(f[i] == s[i]);
        assert(f[j] == s[j]);
    }
    assert forall|i: int, j: int| 0 <= i < j < f.len() implies (#[trigger] f[i]).variables != (
    #[trigger] f[j]).variables by {
        assert(f[i] == s[i]);
        assert(f[j] == s[j]);
    }
    assert forall|i: int| 0 <= i < f.len() implies vars_wf((#[trigger] f[i]).variables) by {
        assert(f[i] == s[i]);
    }
}

/// Two sorted lists of terms with distinct variables in lowest terms that
/// hold the same terms are the same list.
pub proof fn lemma_sorted_unique(s: Seq<TermView>, t: Seq<TermView>)
    requires
        sorted_by(s, by_rank()),
        sorted_by(t, by_rank()),
        vars_distinct(s),
        vars_distinct(t),
        degrees_wf(s),
        degrees_wf(t),
        same_terms(s, t),
    ensures
        s == t,
    decreases s.len(),
{
    if s.len() == 0 {
        if t.len() > 0 {
            assert(t.contains(t[0]));
            assert(s.contains(t[0]));
        }
        assert(s =~= t);
    } else if t.len() == 0 {
        assert(s.contains(s[0]));
        assert(t.contains(s[0]));
    } else {
        let m = s.last();
        let y = t.last();
        assert(s.contains(m));
        assert(t.contains(m));
        assert(t.contains(y));
        assert(s.contains(y));
        let j = choose|j: int| 0 <= j < t.len() && t[j] == m;
        let i = choose|i: int| 0 <= i < s.len() && s[i] == y;
        if m.variables != y.variables {
            assert(j < t.len() - 1);
            assert(i < s.len() - 1);
            assert(!by_rank()(t[t.len() - 1], t[j]));
            assert(!by_rank()(s[s.len() - 1], s[i]));
            assert(vars_wf(s[s.len() - 1].variables));
            assert(vars_wf(t[t.len() - 1].variables));
            lemma_term_total(m, y);
            assert(false);
        }
        assert(j == t.len() - 1) by {
            if j < t.len() - 1 {
                assert(t[j].variables != t[t.len() - 1].variables);
            }
        }
        assert(m == y);
        let sf = s.drop_last();
        let tf = t.drop_last();
        lemma_drop_last_keeps(s);
        lemma_drop_last_keeps(t);
        assert forall|x: TermView| sf.contains(x) <==> tf.contains(x) by {
            if sf.contains(x) {
                let k = choose|k: int| 0 <= k < sf.len() && sf[k] == x;
                assert(s[k] == x);
                assert(s.contains(x));
                assert(t.contains(x));
                let l = choose|l: int| 0 <= l < t.len() && t[l] == x;
                assert(s[k].variables != s[s.len() - 1].variables);
                assert(l < t.len() - 1);
                assert(tf[l] == x);
            }
            if tf.contains(x) {
                let k = choose|k: int| 0 <= k < tf.len() && tf[k] == x;
                assert(t[k] == x);
                assert(t.contains(x));
                assert(s.contains(x));
                let l = choose|l: int| 0 <= l < s.len() && s[l] == x;
                assert(t[k].variables != t[t.len() - 1].variables);
                assert(l < s.len() - 1);
                assert(sf[l] == x);
            }
        }
        lemma_sorted_unique(sf, tf);
        assert(s =~= sf.push(m));
        assert(t =~= tf.push(y));
    }
}

/// Insertion adds the new term to the terms that the list holds.
pub proof fn lemma_insert_holds(s: Seq<TermView>, x: TermView)
    ensures
        forall|y: TermView|
            #![trigger insert_sorted(s, x, by_rank()).contains(y)]
            #![trigger s.contains(y)]
            insert_sorted(s, x, by_rank()).contains(y) <==> (s.contains(y) || y == x),
        insert_sorted(s, x, by_rank()).contains(x),
{
    lemma_insert_pos(s, x, by_rank());
    let p = insert_pos(s, x, by_rank());
    let r = s.insert(p, x);
    assert forall|y: TermView| r.contains(y) <==> (s.contains(y) || y == x) by {
        if r.contains(y) {
            let k = choose|k: int| 0 <= k < r.len() && r[k] == y;
            if k < p {
                assert(s[k] == y);
            } else if k > p {
                assert(s[k - 1] == y);
            }
        }
        if s.contains(y) {
            let k = choose|k: int| 0 <= k < s.len() && s[k] == y;
            if k < p {
                assert(r[k] == y);
            } else {
                assert(r[k + 1] == y);
            }
        }
        if y == x {
            assert(r[p] == y);
        }
    }
    assert(r[p] == x);
}

/// Sorting changes nothing about which terms the list holds.
pub proof fn lemma_sort_holds(s: Seq<TermView>)
    ensures
        same_terms(insertion_sort(s, by_rank()), s),
    decreases s.len(),
{
    if s.len() > 0 {
        let f = s.drop_last();
        lemma_sort_holds(f);
        lemma_insert_holds(insertion_sort(f, by_rank()), s.last());
        assert forall|y: TermView| insertion_sort(s, by_rank()).contains(y) <==> s.contains(y) by {
            if f.contains(y) {
                let k = choose|k: int| 0 <= k < f.len() && f[k] == y;
                assert(s[k] == y);
            }
            if s.contains(y) {
                let k = choose|k: int| 0 <= k < s.len() && s[k] == y;
                if k < s.len() - 1 {
                    assert(f[k] == y);
                }
            }
            if y == s.last() {
                assert(s[s.len() - 1] == y);
            }
        }
    }
}

/// What is left after zero terms are dropped holds the terms of the list
/// whose coefficient is not zero.
pub proof fn lemma_nonzero_holds(s: Seq<TermView>)
    ensures
        forall|y: TermView|
            #![trigger nonzero_terms(s).contains(y)]
            #![trigger s.contains(y)]
            nonzero_terms(s).contains(y) <==> (s.contains(y) && y.coefficient.numer != 0),
    decreases s.len(),
{
    if s.len() > 0 {
        let f = s.drop_last();
        lemma_nonzero_holds(f);
        let kept = nonzero_terms(f);
        let out = nonzero_terms(s);
        assert forall|y: TermView| out.contains(y) <==> (s.contains(y) && y.coefficient.numer
            != 0) by {
            if out.contains(y) {
                let k = choose|k: int| 0 <= k < out.len() && out[k] == y;
                if k < kept.len() {
                    assert(kept[k] == y);
                    assert(kept.contains(y));
                    let l = choose|l: int| 0 <= l < f.len() && f[l] == y;
                    assert(s[l] == y);
                } else {
                    assert(s[s.len() - 1] == y);
                }
            }
            if s.contains(y) && y.coefficient.numer != 0 {
                let k = choose|k: int| 0 <= k < s.len() && s[k] == y;
                if k < s.len() - 1 {
                    assert(f[k] == y);
                    assert(f.contains(y));
                    let l = choose|l: int| 0 <= l < kept.len() && kept[l] == y;
                    assert(out[l] == y);
                } else {
                    assert(out[out.len() - 1] == y);
                }
            }
        }
    } else {
        assert forall|y: TermView| !nonzero_terms(s).contains(y) && !s.contains(y) by {}
    }
}

/// Two lists that hold the same terms hold the same terms after zero
/// terms are dropped and the zero term stands in for nothing.
pub proof fn lemma_kept_same(s: Seq<TermView>, t: Seq<TermView>)
    requires
        same_terms(s, t),
    ensures
        same_terms(or_zero(nonzero_terms(s)), or_zero(nonzero_terms(t))),
{
    lemma_nonzero_holds(s);
    lemma_nonzero_holds(t);
    let a = nonzero_terms(s);
    let b = nonzero_terms(t);
    assert(same_terms(a, b));
    if a.len() == 0 {
        if b.len() > 0 {
            assert(b.contains(b[0]));
            assert(a.contains(b[0]));
        }
    } else if b.len() == 0 {
        assert(a.contains(a[0]));
        assert(b.contains(a[0]));
    }
}

} // verus!
