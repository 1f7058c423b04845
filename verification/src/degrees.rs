//! The degree that a list of variables gives to each name, and what
//! sorting and merging do to it.

use crate::associate::{lemma_zero_is_zero, lemma_zero_wf};
use crate::canonical::{names_distinct, normal_vars};
use crate::error::AlgebraError;
use crate::number::lemma_sum_zero;
use crate::order::{insert_sorted, insertion_sort, sorted_by};
use crate::ordering::lemma_text_total;
use crate::polynomial::normal_term;
use crate::rational::Rational;
use crate::term::{absorb, absorb_var, by_name, index_of_name, lemma_index_of_name, merge_names, nonzero_degrees, vars_wf, TermView, VarView};
use crate::wellformed::{lemma_merge_wf, lowest_degree};
use vstd::prelude::*;

verus! {

/// The degree of the first variable of this name; zero where there is
/// none.
pub open spec fn degree_of_name(vars: Seq<VarView>, n: Seq<char>) -> Rational {
    let i = index_of_name(vars, n);
    if i >= 0 {
        vars[i].degree
    } else {
        Rational::spec_zero()
    }
}

/// The degrees of the variables of this name added to `init`, from left to
/// right.
pub open spec fn ordered_sum(init: Rational, s: Seq<VarView>, n: Seq<char>) -> Result<
    Rational,
    AlgebraError,
>
    decreases s.len(),
{
    if s.len() == 0 {
        Ok(init)
    } else {
        match ordered_sum(init, s.drop_last(), n) {
            Ok(x) => if s.last().name == n {
                x.spec_add(s.last().degree)
            } else {
                Ok(x)
            },
            Err(e) => Err(e),
        }
    }
}

/// The first position with this name is the one before which no variable
/// has it.
pub proof fn lemma_name_first(s: Seq<VarView>, n: Seq<char>, k: int)
    requires
        0 <= k < s.len(),
        s[k].name == n,
        forall|m: int| 0 <= m < k ==> (#[trigger] s[m]).name != n,
    ensures
        index_of_name(s, n) == k,
{
    lemma_index_of_name(s, n);
    let i = index_of_name(s, n);
    if i >= 0 && i < k {
        assert(s[i].name != n);
    }
}

/// Where no variable has this name, none is found.
pub proof fn lemma_name_none(s: Seq<VarView>, n: Seq<char>)
    requires
        forall|m: int| 0 <= m < s.len() ==> (#[trigger] s[m]).name != n,
    ensures
        index_of_name(s, n) == -1,
{
    lemma_index_of_name(s, n);
    let i = index_of_name(s, n);
    if i >= 0 {
        assert(s[i].name != n);
    }
}

/// Two lists with the same names in the same places find every name at
/// the same place.
pub proof fn lemma_same_names(s: Seq<VarView>, t: Seq<VarView>, n: Seq<char>)
    requires
        s.len() == t.len(),
        forall|m: int| 0 <= m < s.len() ==> (#[trigger] s[m]).name == t[m].name,
    ensures
        index_of_name(s, n) == index_of_name(t, n),
{
    lemma_index_of_name(s, n);
    lemma_index_of_name(t, n);
    let i = index_of_name(s, n);
    if i >= 0 {
        assert forall|m: int| 0 <= m < i implies (#[trigger] t[m]).name != n by {
            assert(s[m].name != n);
        }
        assert(s[i].name == t[i].name);
        lemma_name_first(t, n, i);
    } else {
        assert forall|m: int| 0 <= m < t.len() implies (#[trigger] t[m]).name != n by {
            assert(s[m].name != n);
        }
        lemma_name_none(t, n);
    }
}

/// What merging gives: one variable per name, in lowest terms, and for
/// every name the degrees of that name added from left to right.
pub proof fn lemma_merge_degree(s: Seq<VarView>, n: Seq<char>)
    requires
        vars_wf(s),
        merge_names(s) is Ok,
    ensures
        names_distinct(merge_names(s).unwrap()),
        vars_wf(merge_names(s).unwrap()),
        ordered_sum(Rational::spec_zero(), s, n) == Ok::<Rational, AlgebraError>(
            degree_of_name(merge_names(s).unwrap(), n),
        ),
    decreases s.len(),
{
    lemma_merge_wf(s);
    lemma_zero_wf();
    if s.len() == 0 {
        lemma_index_of_name(merge_names(s).unwrap(), n);
    } else {
        let front = s.drop_last();
        let v = s.last();
        assert(absorb()(merge_names(front).unwrap(), v) == absorb_var(
            merge_names(front).unwrap(),
            v,
        ));
        assert(vars_wf(front)) by {
            assert forall|i: int| 0 <= i < front.len() implies (#[trigger] front[i]).degree.wf() by {
                assert(front[i] == s[i]);
            }
        }
        lemma_merge_degree(front, n);
        let acc = merge_names(front).unwrap();
        let ms = merge_names(s).unwrap();
        lemma_index_of_name(acc, v.name);
        lemma_index_of_name(acc, n);
        let i = index_of_name(acc, v.name);
        assert(s[s.len() - 1].degree.wf());
        if i >= 0 {
            assert forall|m: int| 0 <= m < acc.len() implies (#[trigger] ms[m]).name
                == acc[m].name by {}
            lemma_same_names(ms, acc, n);
            assert forall|a: int, b: int| 0 <= a < b < ms.len() implies (#[trigger] ms[a]).name != (
            #[trigger] ms[b]).name by {
                assert(ms[a].name == acc[a].name);
                assert(ms[b].name == acc[b].name);
            }
            let j = index_of_name(acc, n);
            if j >= 0 && j != i {
                assert(ms[j] == acc[j]);
                assert(acc[j].name != acc[i].name);
            }
        } else {
            assert(ms =~= acc.push(v));
            assert forall|a: int, b: int| 0 <= a < b < ms.len() implies (#[trigger] ms[a]).name != (
            #[trigger] ms[b]).name by {
                assert(ms[a] == acc[a]);
                if b < acc.len() {
                    assert(ms[b] == acc[b]);
                }
            }
            if v.name == n {
                assert forall|m: int| 0 <= m < acc.len() implies (#[trigger] ms[m]).name != n by {
                    assert(ms[m] == acc[m]);
                }
                lemma_name_first(ms, n, acc.len() as int);
                lemma_sum_zero(v.degree);
            } else {
                let j = index_of_name(acc, n);
                if j >= 0 {
                    assert forall|m: int| 0 <= m < j implies (#[trigger] ms[m]).name != n by {
                        assert(ms[m] == acc[m]);
                    }
                    assert(ms[j] == acc[j]);
                    lemma_name_first(ms, n, j);
                } else {
                    assert forall|m: int| 0 <= m < ms.len() implies (#[trigger] ms[m]).name
                        != n by {
                        if m < acc.len() {
                            assert(ms[m] == acc[m]);
                        }
                    }
                    lemma_name_none(ms, n);
                }
            }
        }
    }
}

/// Insertion by name leaves the order of variables of one name as it is:
/// their degrees add up as if the new variable stood last.
pub proof fn lemma_insert_sum(init: Rational, s: Seq<VarView>, v: VarView, n: Seq<char>)
    ensures
        ordered_sum(init, insert_sorted(s, v, by_name()), n) == ordered_sum(init, s.push(v), n),
    decreases s.len(),
{
    assert(s.push(v).drop_last() =~= s);
    if s.len() > 0 && by_name()(v, s.last()) {
        let front = s.drop_last();
        let last = s.last();
        lemma_insert_sum(init, front, v, n);
        crate::ordering::lemma_text_irreflexive(v.name);
        assert(v.name != last.name);
        let ins = insert_sorted(front, v, by_name());
        let moved = ins.push(last);
        assert(insert_sorted(s, v, by_name()) == moved);
        assert(moved.drop_last() =~= ins);
        assert(moved.last() == last);
        assert(front.push(v).drop_last() =~= front);
        assert(front.push(v).last() == v);
        assert(s.push(v).last() == v);
        assert(ordered_sum(init, moved, n) == match ordered_sum(init, ins, n) {
            Ok(x) => if last.name == n {
                x.spec_add(last.degree)
            } else {
                Ok(x)
            },
            Err(e) => Err(e),
        });
        assert(ordered_sum(init, front.push(v), n) == match ordered_sum(init, front, n) {
            Ok(x) => if v.name == n {
                x.spec_add(v.degree)
            } else {
                Ok(x)
            },
            Err(e) => Err(e),
        });
        assert(ordered_sum(init, s.push(v), n) == match ordered_sum(init, s, n) {
            Ok(x) => if v.name == n {
                x.spec_add(v.degree)
            } else {
                Ok(x)
            },
            Err(e) => Err(e),
        });
    }
}

/// Sorting by name leaves the order of variables of one name as it is.
pub proof fn lemma_sort_sum(init: Rational, s: Seq<VarView>, n: Seq<char>)
    ensures
        ordered_sum(init, insertion_sort(s, by_name()), n) == ordered_sum(init, s, n),
    decreases s.len(),
{
    if s.len() > 0 {
        let front = s.drop_last();
        lemma_sort_sum(init, front, n);
        lemma_insert_sum(init, insertion_sort(front, by_name()), s.last(), n);
        assert(insertion_sort(front, by_name()).push(s.last()).drop_last() =~= insertion_sort(
            front,
            by_name(),
        ));
    }
}

/// What is left after zero degrees are dropped holds the variables whose
/// degree is not zero.
pub proof fn lemma_nonzero_degrees_holds(s: Seq<VarView>)
    ensures
        forall|y: VarView|
            #![trigger nonzero_degrees(s).contains(y)]
            #![trigger s.contains(y)]
            nonzero_degrees(s).contains(y) <==> (s.contains(y) && y.degree.numer != 0),
    decreases s.len(),
{
    if s.len() > 0 {
        let f = s.drop_last();
        lemma_nonzero_degrees_holds(f);
        let kept = nonzero_degrees(f);
        let out = nonzero_degrees(s);
        assert forall|y: VarView| out.contains(y) <==> (s.contains(y) && y.degree.numer != 0) by {
            if out.contains(y) {
                let k = choose|k: int| 0 <= k < out.len() && out[k] == y;
                if k < kept.len() {
                    assert(kept[k] == y);
                    assert(kept.contains(y));
                    let l = choose|l: int| 0 <= l < f.len() && f[l] == y;
                    assert(s[l] == y);
                } else {
                    assert(s[s.len() - 1] == y);
                }
            }
            if s.contains(y) && y.degree.numer != 0 {
                let k = choose|k: int| 0 <= k < s.len() && s[k] == y;
                if k < s.len() - 1 {
                    assert(f[k] == y);
                    assert(f.contains(y));
                    let l = choose|l: int| 0 <= l < kept.len() && kept[l] == y;
                    assert(out[l] == y);
                } else {
                    assert(out[out.len() - 1] == y);
                }
            }
        }
    } else {
        assert forall|y: VarView| !nonzero_degrees(s).contains(y) && !s.contains(y) by {}
    }
}

/// In a list with distinct names, the degree found for the name of a
/// variable of the list is the degree of that variable.
pub proof fn lemma_degree_of_member(s: Seq<VarView>, k: int)
    requires
        names_distinct(s),
        0 <= k < s.len(),
    ensures
        index_of_name(s, s[k].name) == k,
        degree_of_name(s, s[k].name) == s[k].degree,
{
    assert forall|m: int| 0 <= m < k implies (#[trigger] s[m]).name != s[k].name by {}
    lemma_name_first(s, s[k].name, k);
}

/// Dropping zero degrees keeps the names distinct.
pub proof fn lemma_nonzero_degrees_distinct(s: Seq<VarView>)
    requires
        names_distinct(s),
    ensures
        names_distinct(nonzero_degrees(s)),
    decreases s.len(),
{
    if s.len() > 0 {
        let f = s.drop_last();
        assert(names_distinct(f)) by {
            assert forall|i: int, j: int| 0 <= i < j < f.len() implies (#[trigger] f[i]).name != (
            #[trigger] f[j]).name by {
                assert(f[i] == s[i]);
                assert(f[j] == s[j]);
            }
        }
        lemma_nonzero_degrees_distinct(f);
        lemma_nonzero_degrees_holds(f);
        let kept = nonzero_degrees(f);
        let out = nonzero_degrees(s);
        assert forall|i: int, j: int| 0 <= i < j < out.len() implies (#[trigger] out[i]).name != (
        #[trigger] out[j]).name by {
            assert(out[i] == kept[i]);
            if j < kept.len() {
                assert(out[j] == kept[j]);
            } else {
                assert(kept.contains(kept[i]));
                assert(f.contains(kept[i]));
                let l = choose|l: int| 0 <= l < f.len() && f[l] == kept[i];
                assert(s[l] == kept[i]);
                assert(s[l].name != s[s.len() - 1].name);
            }
        }
    }
}

/// Dropping zero degrees changes no degree that a list with distinct names
/// in lowest terms gives to a name.
pub proof fn lemma_nonzero_degree(s: Seq<VarView>, n: Seq<char>)
    requires
        names_distinct(s),
        vars_wf(s),
    ensures
        degree_of_name(nonzero_degrees(s), n) == degree_of_name(s, n),
{
    let z = nonzero_degrees(s);
    lemma_nonzero_degrees_holds(s);
    lemma_nonzero_degrees_distinct(s);
    lemma_index_of_name(s, n);
    lemma_index_of_name(z, n);
    let i = index_of_name(s, n);
    let j = index_of_name(z, n);
    if j >= 0 {
        assert(z.contains(z[j]));
        assert(s.contains(z[j]));
        let l = choose|l: int| 0 <= l < s.len() && s[l] == z[j];
        lemma_degree_of_member(s, l);
    } else if i >= 0 {
        assert(s[i].degree.wf());
        if s[i].degree.numer != 0 {
            assert(s.contains(s[i]));
            assert(z.contains(s[i]));
            let l = choose|l: int| 0 <= l < z.len() && z[l] == s[i];
            assert(z[l].name != n);
        }
        lemma_zero_is_zero(s[i].degree);
    }
}

/// What sorting and merging a term gives: for every name the degrees of
/// that name, added from left to right.
pub proof fn lemma_normal_degree(t: TermView, n: Seq<char>)
    requires
        t.wf(),
        normal_term(t) is Ok,
    ensures
        ordered_sum(Rational::spec_zero(), t.variables, n) == Ok::<Rational, AlgebraError>(
            degree_of_name(normal_term(t).unwrap().variables, n),
        ),
{
    let sorted = insertion_sort(t.variables, by_name());
    assert forall|i: int| 0 <= i < t.variables.len() implies lowest_degree()(
        #[trigger] t.variables[i],
    ) by {
        assert(t.variables[i].degree.wf());
    }
    crate::laws::lemma_sort_keeps(t.variables, by_name(), lowest_degree());
    assert(vars_wf(sorted)) by {
        assert forall|i: int| 0 <= i < sorted.len() implies (#[trigger] sorted[i]).degree.wf() by {
            assert(lowest_degree()(sorted[i]));
        }
    }
    lemma_sort_sum(Rational::spec_zero(), t.variables, n);
    lemma_merge_degree(sorted, n);
    lemma_nonzero_degree(merge_names(sorted).unwrap(), n);
}

/// A list without its last variable: what it keeps of being sorted and of
/// distinct names.
pub proof fn lemma_vars_drop_last(s: Seq<VarView>)
    requires
        s.len() > 0,
        sorted_by(s, by_name()),
        names_distinct(s),
    ensures
        sorted_by(s.drop_last(), by_name()),
        names_distinct(s.drop_last()),
{
    let f = s.drop_last();
    assert forall|i: int, j: int| 0 <= i < j < f.len() implies !by_name()(
        #[trigger] f[j],
        #[trigger] f[i],
    ) by {
        assert(f[i] == s[i]);
        assert(f[j] == s[j]);
    }
    assert forall|i: int, j: int| 0 <= i < j < f.len() implies (#[trigger] f[i]).name != (
    #[trigger] f[j]).name by {
        assert(f[i] == s[i]);
        assert(f[j] == s[j]);
    }
}

/// The two lists hold the same variables.
pub open spec fn same_vars(s: Seq<VarView>, t: Seq<VarView>) -> bool {
    forall|x: VarView|
        #![trigger s.contains(x)]
        #![trigger t.contains(x)]
        s.contains(x) <==> t.contains(x)
}

/// Two lists of variables, sorted by name and with distinct names, that
/// hold the same variables are the same list.
pub proof fn lemma_vars_sorted_unique(s: Seq<VarView>, t: Seq<VarView>)
    requires
        sorted_by(s, by_name()),
        sorted_by(t, by_name()),
        names_distinct(s),
        names_distinct(t),
        same_vars(s, t),
    ensures
        s == t,
    decreases s.len(),
{
    if s.len() == 0 {
        if t.len() > 0 {
            assert(t.contains(t[0]));
            assert(s.contains(t[0]));
        }
        assert(s =~= t);
    } else if t.len() == 0 {
        assert(s.contains(s[0]));
        assert(t.contains(s[0]));
    } else {
        let m = s.last();
        let y = t.last();
        assert(s.contains(m));
        assert(t.contains(m));
        assert(t.contains(y));
        assert(s.contains(y));
        let j = choose|j: int| 0 <= j < t.len() && t[j] == m;
        let i = choose|i: int| 0 <= i < s.len() && s[i] == y;
        if m.name != y.name {
            assert(j < t.len() - 1);
            assert(i < s.len() - 1);
            assert(!by_name()(t[t.len() - 1], t[j]));
            assert(!by_name()(s[s.len() - 1], s[i]));
            lemma_text_total(m.name, y.name);
            assert(false);
        }
        assert(j == t.len() - 1) by {
            if j < t.len() - 1 {
                assert(t[j].name != t[t.len() - 1].name);
            }
        }
        assert(m == y);
        let sf = s.drop_last();
        let tf = t.drop_last();
        lemma_vars_drop_last(s);
        lemma_vars_drop_last(t);
        assert forall|x: VarView| sf.contains(x) <==> tf.contains(x) by {
            if sf.contains(x) {
                let k = choose|k: int| 0 <= k < sf.len() && sf[k] == x;
                assert(s[k] == x);
                assert(s.contains(x));
                assert(t.contains(x));
                let l = choose|l: int| 0 <= l < t.len() && t[l] == x;
                assert(s[k].name != s[s.len() - 1].name);
                assert(l < t.len() - 1);
                assert(tf[l] == x);
            }
            if tf.contains(x) {
                let k = choose|k: int| 0 <= k < tf.len() && tf[k] == x;
                assert(t[k] == x);
                assert(t.contains(x));
                assert(s.contains(x));
                let l = choose|l: int| 0 <= l < s.len() && s[l] == x;
                assert(t[k].name != t[t.len() - 1].name);
                assert(l < s.len() - 1);
                assert(sf[l] == x);
            }
        }
        lemma_vars_sorted_unique(sf, tf);
        assert(s =~= sf.push(m));
        assert(t =~= tf.push(y));
    }
}

/// Every variable of the first list is one of the second, where both are
/// in canonical form and give every name the same degree.
pub proof fn lemma_same_degrees_hold(u: Seq<VarView>, w: Seq<VarView>)
    requires
        normal_vars(u),
        normal_vars(w),
        forall|n: Seq<char>| degree_of_name(u, n) == #[trigger] degree_of_name(w, n),
    ensures
        forall|y: VarView| u.contains(y) ==> #[trigger] w.contains(y),
{
    assert forall|y: VarView| u.contains(y) implies #[trigger] w.contains(y) by {
        let k = choose|k: int| 0 <= k < u.len() && u[k] == y;
        lemma_degree_of_member(u, k);
        assert(degree_of_name(u, y.name) == degree_of_name(w, y.name));
        lemma_index_of_name(w, y.name);
        let i = index_of_name(w, y.name);
        assert(u[k].degree.numer != 0);
        assert(i >= 0);
        assert(w[i] == y);
    }
}

/// Two lists of variables in canonical form that give every name the same
/// degree are the same list.
pub proof fn lemma_same_degrees(u: Seq<VarView>, w: Seq<VarView>)
    requires
        normal_vars(u),
        normal_vars(w),
        forall|n: Seq<char>| degree_of_name(u, n) == #[trigger] degree_of_name(w, n),
    ensures
        u == w,
{
    lemma_same_degrees_hold(u, w);
    assert forall|n: Seq<char>| degree_of_name(w, n) == #[trigger] degree_of_name(u, n) by {
        assert(degree_of_name(u, n) == degree_of_name(w, n));
    }
    lemma_same_degrees_hold(w, u);
    lemma_vars_sorted_unique(u, w);
}

/// Adding up over two lists joined is adding up over the second from
/// where the first ended.
pub proof fn lemma_sum_append(init: Rational, a: Seq<VarView>, b: Seq<VarView>, n: Seq<char>)
    ensures
        ordered_sum(init, a + b, n) == match ordered_sum(init, a, n) {
            Ok(x) => ordered_sum(x, b, n),
            Err(e) => Err(e),
        },
    decreases b.len(),
{
    if b.len() == 0 {
        assert(a + b =~= a);
    } else {
        assert((a + b).drop_last() =~= a + b.drop_last());
        assert((a + b).last() == b.last());
        lemma_sum_append(init, a, b.drop_last(), n);
    }
}

/// Over a list with distinct names, adding up a name adds the degree of
/// its one variable, if there is one.
pub proof fn lemma_sum_of_distinct(init: Rational, u: Seq<VarView>, n: Seq<char>)
    requires
        names_distinct(u),
    ensures
        ordered_sum(init, u, n) == if index_of_name(u, n) >= 0 {
            init.spec_add(u[index_of_name(u, n)].degree)
        } else {
            Ok::<Rational, AlgebraError>(init)
        },
    decreases u.len(),
{
    lemma_index_of_name(u, n);
    if u.len() > 0 {
        let f = u.drop_last();
        assert(names_distinct(f)) by {
            assert forall|i: int, j: int| 0 <= i < j < f.len() implies (#[trigger] f[i]).name != (
            #[trigger] f[j]).name by {
                assert(f[i] == u[i]);
                assert(f[j] == u[j]);
            }
        }
        lemma_sum_of_distinct(init, f, n);
        lemma_index_of_name(f, n);
        let i = index_of_name(f, n);
        if i >= 0 {
            assert(f[i] == u[i]);
            assert(u[i].name != u[u.len() - 1].name);
        }
    }
}

} // verus!
