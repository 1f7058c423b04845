//! Substituting values for variables.

use crate::error::AlgebraError;
use crate::fold::{lemma_try_fold_err, lemma_try_fold_step, lemma_try_map_err, lemma_try_map_step, try_fold, try_map, updates_to};
use crate::polynomial::{lemma_wf_push, terms_view, terms_wf, PolyView, Polynomial};
use crate::power::Power;
use crate::rational::Rational;
use crate::term::{vars_view, vars_wf, Term, TermView, VarView, Variable};
use vstd::prelude::*;

verus! {

/// What a list of bindings stands for: names with their values.
pub open spec fn bindings_view(s: Seq<(String, Rational)>) -> Seq<(Seq<char>, Rational)> {
    Seq::new(s.len(), |i: int| (s[i].0@, s[i].1))
}

/// Every value is a fraction in lowest terms.
pub open spec fn bindings_wf(values: Seq<(Seq<char>, Rational)>) -> bool {
    forall|i: int| 0 <= i < values.len() ==> (#[trigger] values[i]).1.wf()
}

/// The value of the first binding of this name.
pub open spec fn lookup(values: Seq<(Seq<char>, Rational)>, name: Seq<char>) -> Option<Rational>
    decreases values.len(),
{
    if values.len() == 0 {
        None
    } else {
        match lookup(values.drop_last(), name) {
            Some(x) => Some(x),
            None => if values.last().0 == name {
                Some(values.last().1)
            } else {
                None
            },
        }
    }
}

/// The variable `v` taken into the term built so far: where its name is
/// bound, the coefficient is multiplied by the value to the degree of `v`,
/// which has to be an exact fraction, and `v` stays with the degree zero;
/// where it is not bound, `v` stays as it is.
pub open spec fn substitute_var(
    state: TermView,
    v: VarView,
    values: Seq<(Seq<char>, Rational)>,
) -> Result<TermView, AlgebraError> {
    match lookup(values, v.name) {
        None => Ok(TermView { coefficient: state.coefficient, variables: state.variables.push(v) }),
        Some(x) => match x.spec_pow(v.degree) {
            Ok(Power::Exact(p)) => match state.coefficient.spec_mul(p) {
                Ok(c) => Ok(
                    TermView {
                        coefficient: c,
                        variables: state.variables.push(
                            VarView { name: v.name, degree: Rational::spec_zero() },
                        ),
                    },
                ),
                Err(e) => Err(e),
            },
            Ok(Power::Inexact) => Err(AlgebraError::UnsupportedOperation),
            Err(e) => Err(e),
        },
    }
}

/// `substitute_var` as a step.
pub open spec fn substituting(values: Seq<(Seq<char>, Rational)>) -> spec_fn(
    TermView,
    VarView,
) -> Result<TermView, AlgebraError> {
    |state: TermView, v: VarView| substitute_var(state, v, values)
}

/// The term with every bound variable replaced by its value, from left to
/// right.
pub open spec fn substituted(t: TermView, values: Seq<(Seq<char>, Rational)>) -> Result<
    TermView,
    AlgebraError,
> {
    try_fold(t.variables, TermView::constant(t.coefficient), substituting(values))
}

/// `substituted` as a step.
pub open spec fn evaluating(values: Seq<(Seq<char>, Rational)>) -> spec_fn(TermView) -> Result<
    TermView,
    AlgebraError,
> {
    |t: TermView| substituted(t, values)
}

impl PolyView {
    /// The polynomial with every bound variable replaced by its value, in
    /// canonical form.
    pub open spec fn evaluated(self, values: Seq<(Seq<char>, Rational)>) -> Result<
        PolyView,
        AlgebraError,
    > {
        match try_map(self.terms, evaluating(values)) {
            Ok(t) => (PolyView { terms: t, degree: self.degree }).simplified(),
            Err(e) => Err(e),
        }
    }
}

/// The value of the first binding of this name.
pub fn find_value(values: &Vec<(String, Rational)>, name: &String) -> (r: Option<Rational>)
    requires
        bindings_wf(bindings_view(values@)),
    ensures
        r == lookup(bindings_view(values@), name@),
        r matches Some(x) ==> x.wf(),
{
    let n: usize = values.len();
    let mut i: usize = 0;
    let ghost all = bindings_view(values@);
    assert(all.take(0) =~= Seq::<(Seq<char>, Rational)>::empty());
    while i < n
        invariant
            i <= n,
            n == values@.len(),
            all == bindings_view(values@),
            bindings_wf(all),
            lookup(all.take(i as int), name@) is None,
        decreases n - i,
    {
        assert(all.take(i + 1).drop_last() =~= all.take(i as int));
        assert(all[i as int] == (values@[i as int].0@, values@[i as int].1));
        assert(all[i as int].1.wf());
        if values[i].0 == *name {
            proof {
                lemma_lookup_prefix(all, name@, i + 1);
            }
            return Some(values[i].1);
        }
        i += 1;
    }
    assert(all.take(n as int) =~= all);
    None
}

/// A binding found in a prefix is the one found in the whole.
pub proof fn lemma_lookup_prefix(values: Seq<(Seq<char>, Rational)>, name: Seq<char>, i: int)
    requires
        0 <= i <= values.len(),
        lookup(values.take(i), name) is Some,
    ensures
        lookup(values, name) == lookup(values.take(i), name),
    decreases values.len() - i,
{
    if i < values.len() {
        assert(values.take(i + 1).drop_last() =~= values.take(i));
        lemma_lookup_prefix(values, name, i + 1);
    } else {
        assert(values.take(i) =~= values);
    }
}

impl Term {
    /// The term with every bound variable replaced by its value. A value to
    /// a degree that gives no exact fraction is not taken.
    pub fn substitute(&self, values: &Vec<(String, Rational)>) -> (r: Result<Term, AlgebraError>)
        requires
            self.wf(),
            bindings_wf(bindings_view(values@)),
        ensures
            crate::fold::view_of(r) == substituted(self@, bindings_view(values@)),
            r matches Ok(t) ==> t.wf(),
    {
        let mut c: Rational = self.coefficient;
        let mut out: Vec<Variable> = Vec::new();
        let n: usize = self.variables.len();
        let mut i: usize = 0;
        let ghost all = vars_view(self.variables@);
        let ghost vals = bindings_view(values@);
        assert(all.take(0) =~= Seq::<VarView>::empty());
        assert(vars_view(out@) =~= Seq::<VarView>::empty());
        while i < n
            invariant
                i <= n,
                n == self.variables@.len(),
                all == vars_view(self.variables@),
                vals == bindings_view(values@),
                bindings_wf(vals),
                self.wf(),
                c.wf(),
                vars_wf(vars_view(out@)),
                try_fold(
                    all.take(i as int),
                    TermView::constant(self.coefficient),
                    substituting(vals),
                ) == Ok::<TermView, AlgebraError>(
                    TermView { coefficient: c, variables: vars_view(out@) },
                ),
            decreases n - i,
        {
            let ghost before = vars_view(out@);
            proof {
                lemma_try_fold_step(
                    all,
                    TermView::constant(self.coefficient),
                    substituting(vals),
                    i as int,
                );
                assert(all[i as int] == self.variables@[i as int]@);
                assert(all[i as int].degree.wf());
            }
            let v = &self.variables[i];
            let kept: Variable = match find_value(values, &v.name) {
                None => v.clone(),
                Some(x) => {
                    match x.checked_pow(v.degree) {
                        Ok(Power::Exact(p)) => match c.checked_mul(p) {
                            Ok(next) => {
                                c = next;
                                Variable { name: v.name.clone(), degree: Rational::zero() }
                            },
                            Err(e) => {
                                proof {
                                    lemma_try_fold_err(
                                        all,
                                        TermView::constant(self.coefficient),
                                        substituting(vals),
                                        i + 1,
                                    );
                                }
                                return Err(e);
                            },
                        },
                        Ok(Power::Inexact) => {
                            proof {
                                lemma_try_fold_err(
                                    all,
                                    TermView::constant(self.coefficient),
                                    substituting(vals),
                                    i + 1,
                                );
                            }
                            return Err(AlgebraError::UnsupportedOperation);
                        },
                        Err(e) => {
                            proof {
                                lemma_try_fold_err(
                                    all,
                                    TermView::constant(self.coefficient),
                                    substituting(vals),
                                    i + 1,
                                );
                            }
                            return Err(e);
                        },
                    }
                },
            };
            out.push(kept);
            proof {
                assert(vars_view(out@) =~= before.push(kept@));
                assert forall|k: int| 0 <= k < vars_view(out@).len() implies (
                #[trigger] vars_view(out@)[k]).degree.wf() by {
                    if k < before.len() {
                        assert(vars_view(out@)[k] == before[k]);
                    }
                }
            }
            i += 1;
        }
        assert(all.take(n as int) =~= all);
        Ok(Term { coefficient: c, variables: out })
    }
}

impl Polynomial {
    /// Replaces every variable that `values` binds by its value and brings
    /// the polynomial into canonical form. The first binding of a name
    /// counts. A value to a degree that gives no exact fraction is not
    /// taken: the polynomial then stays as it is.
    pub fn evaluate(&mut self, values: &Vec<(String, Rational)>) -> (r: Result<(), AlgebraError>)
        requires
            old(self).wf(),
            bindings_wf(bindings_view(values@)),
        ensures
            updates_to(
                r,
                old(self)@,
                final(self)@,
                old(self)@.evaluated(bindings_view(values@)),
            ),
            final(self).wf(),
            r is Ok ==> final(self)@.terms.len() >= 1,
    {
        let mut out: Vec<Term> = Vec::new();
        let n: usize = self.terms.len();
        let mut i: usize = 0;
        let ghost all = terms_view(self.terms@);
        let ghost vals = bindings_view(values@);
        assert(all.take(0) =~= Seq::<TermView>::empty());
        assert(terms_view(out@) =~= Seq::<TermView>::empty());
        while i < n
            invariant
                i <= n,
                n == self.terms@.len(),
                all == terms_view(self.terms@),
                vals == bindings_view(values@),
                bindings_wf(vals),
                *self == *old(self),
                self.wf(),
                terms_wf(all),
                terms_wf(terms_view(out@)),
                try_map(all.take(i as int), evaluating(vals)) == Ok::<Seq<TermView>, AlgebraError>(
                    terms_view(out@),
                ),
            decreases n - i,
        {
            let ghost before = terms_view(out@);
            proof {
                lemma_try_map_step(all, evaluating(vals), i as int);
                assert(all[i as int] == self.terms@[i as int]@);
                assert(all[i as int].wf());
            }
            match self.terms[i].substitute(values) {
                Ok(t) => {
                    out.push(t);
                    proof {
                        assert(terms_view(out@) =~= before.push(t@));
                        lemma_wf_push(before, t@);
                    }
                },
                Err(e) => {
                    proof {
                        lemma_try_map_err(all, evaluating(vals), i + 1);
                    }
                    return Err(e);
                },
            }
            i += 1;
        }
        assert(all.take(n as int) =~= all);
        let mut next = Polynomial { terms: out, degree: self.degree };
        match next.simplify() {
            Ok(()) => {
                *self = next;
                Ok(())
            },
            Err(e) => Err(e),
        }
    }
}

} // verus!
