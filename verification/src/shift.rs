//! Multiplying a term by a power of one variable: what it does to the
//! degrees, and that it can be undone.

use crate::associate::lemma_zero_wf;
use crate::canonical::normal_vars;
use crate::degrees::{degree_of_name, lemma_normal_degree, lemma_same_degrees, lemma_sum_append, lemma_sum_of_distinct, ordered_sum};
use crate::error::AlgebraError;
use crate::invariants::lemma_normal_term_props;
use crate::number::{lemma_add_back, lemma_add_cancel, lemma_sum_zero};
use crate::polynomial::normal_term;
use crate::rational::Rational;
use crate::term::{index_of_name, lemma_index_of_name, vars_wf, TermView, VarView};
use crate::unique::lemma_wf_vars_positive;
use crate::wellformed::lemma_normal_term_wf;
use vstd::prelude::*;

verus! {

/// The one variable `x` to the degree `e`.
pub open spec fn power_of(x: Seq<char>, e: Rational) -> Seq<VarView> {
    seq![VarView { name: x, degree: e }]
}

/// Adding up over one variable adds its degree where the name is its own.
pub proof fn lemma_sum_single(init: Rational, x: Seq<char>, e: Rational, n: Seq<char>)
    ensures
        ordered_sum(init, power_of(x, e), n) == if n == x {
            init.spec_add(e)
        } else {
            Ok::<Rational, AlgebraError>(init)
        },
{
    reveal_with_fuel(ordered_sum, 2);
    assert(power_of(x, e).drop_last() =~= Seq::<VarView>::empty());
}

/// Two lists of variables in lowest terms joined are in lowest terms.
pub proof fn lemma_vars_concat_wf(a: Seq<VarView>, b: Seq<VarView>)
    requires
        vars_wf(a),
        vars_wf(b),
    ensures
        vars_wf(a + b),
{
    assert forall|k: int| 0 <= k < (a + b).len() implies (#[trigger] (a + b)[k]).degree.wf() by {
        if k < a.len() {
            assert((a + b)[k] == a[k]);
        } else {
            assert((a + b)[k] == b[k - a.len()]);
        }
    }
}

/// One variable in lowest terms is a list in lowest terms.
pub proof fn lemma_power_wf(x: Seq<char>, e: Rational)
    requires
        e.wf(),
    ensures
        vars_wf(power_of(x, e)),
{
    assert forall|k: int| 0 <= k < power_of(x, e).len() implies (#[trigger] power_of(
        x,
        e,
    )[k]).degree.wf() by {}
}

/// The degree that a list with distinct names gives to a name, as what
/// adding up from zero gives.
pub proof fn lemma_sum_is_degree(vars: Seq<VarView>, n: Seq<char>)
    requires
        normal_vars(vars),
        vars_wf(vars),
    ensures
        ordered_sum(Rational::spec_zero(), vars, n) == Ok::<Rational, AlgebraError>(
            degree_of_name(vars, n),
        ),
        degree_of_name(vars, n).wf(),
{
    lemma_sum_of_distinct(Rational::spec_zero(), vars, n);
    lemma_index_of_name(vars, n);
    lemma_zero_wf();
    let i = index_of_name(vars, n);
    if i >= 0 {
        assert(vars[i].degree.wf());
        lemma_sum_zero(vars[i].degree);
    }
}

/// A term in canonical form with one more variable behind: after sorting
/// and merging, the degree of that variable's name is the old one plus the
/// new, and every other degree is as it was.
pub proof fn lemma_append_power(c: Rational, vars: Seq<VarView>, x: Seq<char>, e: Rational, n: Seq<char>)
    requires
        c.wf(),
        normal_vars(vars),
        vars_wf(vars),
        e.wf(),
        normal_term(TermView { coefficient: c, variables: vars + power_of(x, e) }) is Ok,
    ensures
        Ok::<Rational, AlgebraError>(
            degree_of_name(
                normal_term(
                    TermView { coefficient: c, variables: vars + power_of(x, e) },
                ).unwrap().variables,
                n,
            ),
        ) == if n == x {
            degree_of_name(vars, x).spec_add(e)
        } else {
            Ok::<Rational, AlgebraError>(degree_of_name(vars, n))
        },
        normal_vars(
            normal_term(TermView { coefficient: c, variables: vars + power_of(x, e) }).unwrap().variables,
        ),
        vars_wf(
            normal_term(TermView { coefficient: c, variables: vars + power_of(x, e) }).unwrap().variables,
        ),
{
    let t = TermView { coefficient: c, variables: vars + power_of(x, e) };
    lemma_power_wf(x, e);
    lemma_vars_concat_wf(vars, power_of(x, e));
    lemma_wf_vars_positive(t.variables);
    lemma_normal_term_props(t);
    lemma_normal_term_wf(t);
    lemma_normal_degree(t, n);
    lemma_sum_append(Rational::spec_zero(), vars, power_of(x, e), n);
    lemma_sum_is_degree(vars, n);
    lemma_sum_single(degree_of_name(vars, n), x, e, n);
}

/// A term in canonical form with one more variable in front: after
/// sorting and merging, the degree of that variable's name is the new one
/// plus the old, and every other degree is as it was.
pub proof fn lemma_prepend_power(c: Rational, x: Seq<char>, e: Rational, vars: Seq<VarView>, n: Seq<char>)
    requires
        c.wf(),
        normal_vars(vars),
        vars_wf(vars),
        e.wf(),
        normal_term(TermView { coefficient: c, variables: power_of(x, e) + vars }) is Ok,
    ensures
        Ok::<Rational, AlgebraError>(
            degree_of_name(
                normal_term(
                    TermView { coefficient: c, variables: power_of(x, e) + vars },
                ).unwrap().variables,
                n,
            ),
        ) == if n != x {
            Ok::<Rational, AlgebraError>(degree_of_name(vars, n))
        } else if index_of_name(vars, x) >= 0 {
            e.spec_add(degree_of_name(vars, x))
        } else {
            Ok::<Rational, AlgebraError>(e)
        },
        normal_vars(
            normal_term(TermView { coefficient: c, variables: power_of(x, e) + vars }).unwrap().variables,
        ),
        vars_wf(
            normal_term(TermView { coefficient: c, variables: power_of(x, e) + vars }).unwrap().variables,
        ),
{
    let t = TermView { coefficient: c, variables: power_of(x, e) + vars };
    lemma_power_wf(x, e);
    lemma_vars_concat_wf(power_of(x, e), vars);
    lemma_wf_vars_positive(t.variables);
    lemma_normal_term_props(t);
    lemma_normal_term_wf(t);
    lemma_normal_degree(t, n);
    lemma_sum_append(Rational::spec_zero(), power_of(x, e), vars, n);
    lemma_sum_single(Rational::spec_zero(), x, e, n);
    lemma_sum_zero(e);
    lemma_zero_wf();
    let start = if n == x {
        e
    } else {
        Rational::spec_zero()
    };
    lemma_sum_of_distinct(start, vars, n);
    lemma_index_of_name(vars, n);
    let i = index_of_name(vars, n);
    if i >= 0 && n != x {
        assert(vars[i].degree.wf());
        lemma_sum_zero(vars[i].degree);
    }
}

/// Dividing a term by a power of a variable that it holds and multiplying
/// by that power again gives the variables that it had.
pub proof fn lemma_power_round_trip(
    c1: Rational,
    c2: Rational,
    vars: Seq<VarView>,
    x: Seq<char>,
    m: Rational,
)
    requires
        c1.wf(),
        c2.wf(),
        normal_vars(vars),
        vars_wf(vars),
        m.wf(),
        index_of_name(vars, x) >= 0,
        normal_term(TermView { coefficient: c1, variables: vars + power_of(x, m.spec_neg()) }) is Ok,
        normal_term(
            TermView {
                coefficient: c2,
                variables: power_of(x, m) + normal_term(
                    TermView { coefficient: c1, variables: vars + power_of(x, m.spec_neg()) },
                ).unwrap().variables,
            },
        ) is Ok,
    ensures
        normal_term(
            TermView {
                coefficient: c2,
                variables: power_of(x, m) + normal_term(
                    TermView { coefficient: c1, variables: vars + power_of(x, m.spec_neg()) },
                ).unwrap().variables,
            },
        ).unwrap().variables == vars,
{
    let z = m.spec_neg();
    let w = normal_term(TermView { coefficient: c1, variables: vars + power_of(x, z) }).unwrap().variables;
    let back = normal_term(TermView { coefficient: c2, variables: power_of(x, m) + w }).unwrap().variables;
    lemma_index_of_name(vars, x);
    let d = degree_of_name(vars, x);
    assert(d.wf()) by {
        assert(vars[index_of_name(vars, x)].degree.wf());
    }
    lemma_append_power(c1, vars, x, z, x);
    lemma_add_back(d, m);
    lemma_prepend_power(c2, x, m, w, x);
    assert(degree_of_name(back, x) == d) by {
        lemma_index_of_name(w, x);
        if index_of_name(w, x) < 0 {
            assert(degree_of_name(w, x) == Rational::spec_zero());
        }
    }
    assert forall|n: Seq<char>| degree_of_name(back, n) == #[trigger] degree_of_name(vars, n) by {
        if n != x {
            lemma_append_power(c1, vars, x, z, n);
            lemma_prepend_power(c2, x, m, w, n);
        }
    }
    lemma_same_degrees(back, vars);
}

/// Two lists of variables in canonical form that hold `x` and give the
/// same list when divided by a power of `x` are the same list.
pub proof fn lemma_shift_injective(
    c1: Rational,
    c2: Rational,
    u1: Seq<VarView>,
    u2: Seq<VarView>,
    x: Seq<char>,
    z: Rational,
)
    requires
        c1.wf(),
        c2.wf(),
        normal_vars(u1),
        normal_vars(u2),
        vars_wf(u1),
        vars_wf(u2),
        z.wf(),
        normal_term(TermView { coefficient: c1, variables: u1 + power_of(x, z) }) is Ok,
        normal_term(TermView { coefficient: c2, variables: u2 + power_of(x, z) }) is Ok,
        normal_term(TermView { coefficient: c1, variables: u1 + power_of(x, z) }).unwrap().variables
            == normal_term(
            TermView { coefficient: c2, variables: u2 + power_of(x, z) },
        ).unwrap().variables,
    ensures
        u1 == u2,
{
    assert forall|n: Seq<char>| degree_of_name(u1, n) == #[trigger] degree_of_name(u2, n) by {
        lemma_append_power(c1, u1, x, z, n);
        lemma_append_power(c2, u2, x, z, n);
        if n == x {
            lemma_sum_is_degree(u1, x);
            lemma_sum_is_degree(u2, x);
            lemma_add_cancel(degree_of_name(u1, x), degree_of_name(u2, x), z);
        }
    }
    lemma_same_degrees(u1, u2);
}

} // verus!
