//! The content of a polynomial: the whole-number factor and the power of
//! one variable that all its terms share.

use crate::error::AlgebraError;
use crate::fold::{lemma_try_fold_err, lemma_try_fold_step, lemma_try_map_err, lemma_try_map_step, try_fold, try_map, yields};
use crate::polynomial::{canonical_terms, canonicalize, lemma_wf_push, multiply_terms, product_terms, terms_result, terms_view, terms_wf, vars_wf_empty, PolyView, Polynomial};
use crate::rational::{fits, gcd, integer_gcd, integer_lcm, lcm, lemma_gcd_bounds, lemma_gcd_with_one, magnitude, Rational};
use crate::term::{find_name, index_of_name, vars_view, Term, TermView, VarView, Variable};
use vstd::prelude::*;

verus! {

/// The common denominator so far, widened to take in the coefficient
/// of `t`.
pub open spec fn widen_denominator(l: i64, t: TermView) -> Result<i64, AlgebraError> {
    if fits(lcm(l as int, t.coefficient.denom as int)) {
        Ok(lcm(l as int, t.coefficient.denom as int) as i64)
    } else {
        Err(AlgebraError::Overflow)
    }
}

/// `widen_denominator` as a step.
pub open spec fn widening() -> spec_fn(i64, TermView) -> Result<i64, AlgebraError> {
    |l: i64, t: TermView| widen_denominator(l, t)
}

/// The least common multiple of the denominators of all coefficients.
pub open spec fn common_denominator(terms: Seq<TermView>) -> Result<i64, AlgebraError> {
    try_fold(terms, 1i64, widening())
}

/// Multiplying a term's coefficient by `q`, as a step.
pub open spec fn scaling(q: Rational) -> spec_fn(TermView) -> Result<TermView, AlgebraError> {
    |t: TermView| t.scaled(q)
}

/// Every coefficient multiplied by `q`.
pub open spec fn scaled_terms(terms: Seq<TermView>, q: Rational) -> Result<
    Seq<TermView>,
    AlgebraError,
> {
    try_map(terms, scaling(q))
}

/// Whether every term has a variable of this name.
pub open spec fn holds_name(terms: Seq<TermView>, name: Seq<char>) -> bool {
    forall|i: int| 0 <= i < terms.len() ==> index_of_name((#[trigger] terms[i]).variables, name) >= 0
}

/// The first of the candidates whose name every term holds, or -1.
pub open spec fn first_common(candidates: Seq<VarView>, terms: Seq<TermView>) -> int
    decreases candidates.len(),
{
    if candidates.len() == 0 {
        -1
    } else {
        let i = first_common(candidates.drop_last(), terms);
        if i >= 0 {
            i
        } else if holds_name(terms, candidates.last().name) {
            candidates.len() - 1
        } else {
            -1
        }
    }
}

/// The degree of the first variable of this name in the term; zero where
/// there is none.
pub open spec fn degree_in(t: TermView, name: Seq<char>) -> Rational {
    let i = index_of_name(t.variables, name);
    if i >= 0 {
        t.variables[i].degree
    } else {
        Rational::spec_zero()
    }
}

/// The degree of the variable in the first term, lowered by every later
/// term in which its degree is positive and less.
pub open spec fn least_degree(terms: Seq<TermView>, name: Seq<char>) -> Rational
    decreases terms.len(),
{
    if terms.len() == 0 {
        Rational::spec_zero()
    } else if terms.len() == 1 {
        degree_in(terms[0], name)
    } else {
        let m = least_degree(terms.drop_last(), name);
        let d = degree_in(terms.last(), name);
        if d.spec_lt(m) && Rational::spec_zero().spec_lt(d) {
            d
        } else {
            m
        }
    }
}

/// The greatest common divisor of the numerators of all coefficients.
pub open spec fn content_gcd(terms: Seq<TermView>) -> nat
    decreases terms.len(),
{
    if terms.len() == 0 {
        0
    } else {
        gcd(content_gcd(terms.drop_last()), magnitude(terms.last().coefficient.numer as int))
    }
}

/// The term `g * name^degree`.
pub open spec fn content_term(g: nat, name: Seq<char>, degree: Rational) -> TermView {
    TermView {
        coefficient: Rational { numer: g as i64, denom: 1 },
        variables: seq![VarView { name, degree }],
    }
}

/// The result with its term and polynomial replaced by their views.
pub open spec fn pair_view(r: Result<(Term, Polynomial), AlgebraError>) -> Result<
    (TermView, PolyView),
    AlgebraError,
> {
    match r {
        Ok(p) => Ok((p.0@, p.1@)),
        Err(e) => Err(e),
    }
}

impl PolyView {
    /// The polynomial with every coefficient multiplied by the least common
    /// multiple of the denominators, and that multiple.
    pub open spec fn integral(self) -> Result<(i64, PolyView), AlgebraError> {
        match common_denominator(self.terms) {
            Ok(l) => match scaled_terms(self.terms, Rational::spec_from_integer(l)) {
                Ok(t) => Ok((l, PolyView { terms: t, degree: self.degree })),
                Err(e) => Err(e),
            },
            Err(e) => Err(e),
        }
    }

    /// What is left of a polynomial with whole coefficients `scaled` (the
    /// `adjust`-fold of the one in question) when `t` is divided out: the
    /// product with the inverse of `t`, the scaling undone, in canonical
    /// form.
    #[verifier::opaque]
    pub open spec fn without(scaled: PolyView, t: TermView, adjust: i64) -> Result<
        PolyView,
        AlgebraError,
    > {
        match t.inverse() {
            Ok(inv) => match product_terms(scaled.terms, seq![inv]) {
                Ok(r1) => match scaled_terms(r1, Rational::spec_new(1, adjust)) {
                    Ok(r2) => match canonical_terms(r2) {
                        Ok(r3) => Ok(PolyView::plain(r3)),
                        Err(e) => Err(e),
                    },
                    Err(e) => Err(e),
                },
                Err(e) => Err(e),
            },
            Err(e) => Err(e),
        }
    }

    /// The greatest common divisor of the numerators as the content, and
    /// the polynomial with its coefficients divided by it. For the zero
    /// polynomial the content is zero and the polynomial is left as it is.
    pub open spec fn without_number(q: PolyView) -> Result<(TermView, PolyView), AlgebraError> {
        let g = content_gcd(q.terms);
        let t = TermView::constant(Rational { numer: g as i64, denom: 1 });
        if g == 0 {
            Ok((t, q))
        } else {
            match scaled_terms(q.terms, Rational::spec_new(1, g as i64)) {
                Ok(rest) => Ok((t, PolyView { terms: rest, degree: q.degree })),
                Err(e) => Err(e),
            }
        }
    }

    /// The content of the polynomial and what is left without it. The
    /// polynomial is taken in canonical form. Where no variable of its first
    /// term occurs in every term, the content is one and the polynomial is
    /// left as it is. Otherwise the content is the greatest common divisor
    /// of the numerators, taken once the coefficients are made whole, times
    /// the first such variable to its least degree.
    pub open spec fn content(self) -> Result<(TermView, PolyView), AlgebraError> {
        match self.simplified() {
            Ok(q) => if first_common(q.terms[0].variables, q.terms) < 0 {
                Ok((TermView::constant(Rational::spec_one()), q))
            } else {
                self.numbered_content()
            },
            Err(e) => Err(e),
        }
    }

    /// The content as a ratio cancels it: as `content`, but where no
    /// variable of the first term occurs in every term, the content is the
    /// greatest common divisor of the numerators, and the rest is the
    /// polynomial with its coefficients divided by it.
    #[verifier::opaque]
    pub open spec fn numbered_content(self) -> Result<(TermView, PolyView), AlgebraError> {
        match self.simplified() {
            Ok(q) => {
                let k = first_common(q.terms[0].variables, q.terms);
                if k < 0 {
                    PolyView::without_number(q)
                } else {
                    match q.integral() {
                        Ok(p) => {
                            let name = q.terms[0].variables[k].name;
                            let t = content_term(
                                content_gcd(p.1.terms),
                                name,
                                least_degree(p.1.terms, name),
                            );
                            match PolyView::without(p.1, t, p.0) {
                                Ok(rest) => Ok((t, rest)),
                                Err(e) => Err(e),
                            }
                        },
                        Err(e) => Err(e),
                    }
                }
            },
            Err(e) => Err(e),
        }
    }
}

/// What `first_common` finds: the first candidate that every term holds, or
/// -1 where there is none.
pub proof fn lemma_first_common(candidates: Seq<VarView>, terms: Seq<TermView>)
    ensures
        -1 <= first_common(candidates, terms) < candidates.len(),
        first_common(candidates, terms) >= 0 ==> holds_name(
            terms,
            candidates[first_common(candidates, terms)].name,
        ),
        forall|k: int|
            0 <= k < candidates.len() && (k < first_common(candidates, terms) || first_common(
                candidates,
                terms,
            ) < 0) ==> !holds_name(terms, (#[trigger] candidates[k]).name),
    decreases candidates.len(),
{
    if candidates.len() > 0 {
        lemma_first_common(candidates.drop_last(), terms);
        assert forall|k: int|
            0 <= k < candidates.len() && (k < first_common(candidates, terms) || first_common(
                candidates,
                terms,
            ) < 0) implies !holds_name(terms, (#[trigger] candidates[k]).name) by {
            if k < candidates.len() - 1 {
                assert(candidates.drop_last()[k] == candidates[k]);
            }
        }
    }
}

/// Every coefficient multiplied by `q`.
pub fn scale_terms(terms: &Vec<Term>, q: Rational) -> (r: Result<Vec<Term>, AlgebraError>)
    requires
        terms_wf(terms_view(terms@)),
        q.wf(),
    ensures
        terms_result(r) == scaled_terms(terms_view(terms@), q),
        r matches Ok(v) ==> terms_wf(terms_view(v@)),
{
    let mut out: Vec<Term> = Vec::new();
    let n: usize = terms.len();
    let mut i: usize = 0;
    let ghost all = terms_view(terms@);
    assert(all.take(0) =~= Seq::<TermView>::empty());
    assert(terms_view(out@) =~= Seq::<TermView>::empty());
    while i < n
        invariant
            i <= n,
            n == terms@.len(),
            all == terms_view(terms@),
            q.wf(),
            terms_wf(all),
            terms_wf(terms_view(out@)),
            try_map(all.take(i as int), scaling(q)) == Ok::<Seq<TermView>, AlgebraError>(
                terms_view(out@),
            ),
        decreases n - i,
    {
        let ghost before = terms_view(out@);
        proof {
            lemma_try_map_step(all, scaling(q), i as int);
            assert(all[i as int] == terms@[i as int]@);
            assert(all[i as int].wf());
        }
        match terms[i].scale(q) {
            Ok(t) => {
                out.push(t);
                proof {
                    assert(terms_view(out@) =~= before.push(t@));
                    lemma_wf_push(before, t@);
                }
            },
            Err(e) => {
                proof {
                    lemma_try_map_err(all, scaling(q), i + 1);
                }
                return Err(e);
            },
        }
        i += 1;
    }
    assert(all.take(n as int) =~= all);
    Ok(out)
}

/// The least common multiple of the denominators of all coefficients.
pub fn denominator_lcm(terms: &Vec<Term>) -> (r: Result<i64, AlgebraError>)
    requires
        terms_wf(terms_view(terms@)),
    ensures
        r == common_denominator(terms_view(terms@)),
        r matches Ok(l) ==> l >= 1,
{
    let mut l: i64 = 1;
    let n: usize = terms.len();
    let mut i: usize = 0;
    let ghost all = terms_view(terms@);
    assert(all.take(0) =~= Seq::<TermView>::empty());
    while i < n
        invariant
            i <= n,
            n == terms@.len(),
            all == terms_view(terms@),
            terms_wf(all),
            l >= 1,
            try_fold(all.take(i as int), 1i64, widening()) == Ok::<i64, AlgebraError>(l),
        decreases n - i,
    {
        proof {
            lemma_try_fold_step(all, 1i64, widening(), i as int);
            assert(all[i as int] == terms@[i as int]@);
            assert(all[i as int].wf());
        }
        let d: i64 = terms[i].coefficient.denom;
        let g: i64 = integer_gcd(l, d);
        proof {
            lemma_gcd_bounds(l as nat, d as nat);
        }
        let q: i64 = d / g;
        assert(q >= 1) by (nonlinear_arith)
            requires
                q == d as int / g as int,
                1 <= g <= d,
        ;
        match l.checked_mul(q) {
            Some(_) => {
                assert(l * q >= 1) by (nonlinear_arith)
                    requires
                        l >= 1,
                        q >= 1,
                ;
                l = integer_lcm(l, d);
            },
            None => {
                proof {
                    lemma_try_fold_err(all, 1i64, widening(), i + 1);
                }
                return Err(AlgebraError::Overflow);
            },
        }
        i += 1;
    }
    assert(all.take(n as int) =~= all);
    Ok(l)
}

/// Whether every term has a variable of this name.
pub fn every_term_holds(terms: &Vec<Term>, name: &String) -> (r: bool)
    ensures
        r == holds_name(terms_view(terms@), name@),
{
    let n: usize = terms.len();
    let mut i: usize = 0;
    let ghost all = terms_view(terms@);
    while i < n
        invariant
            i <= n,
            n == terms@.len(),
            all == terms_view(terms@),
            forall|k: int| 0 <= k < i ==> index_of_name((#[trigger] all[k]).variables, name@) >= 0,
        decreases n - i,
    {
        assert(all[i as int] == terms@[i as int]@);
        match find_name(&terms[i].variables, name) {
            Some(_) => {},
            None => {
                return false;
            },
        }
        i += 1;
    }
    true
}

/// The first of the candidates whose name every term holds.
pub fn find_common(candidates: &Vec<Variable>, terms: &Vec<Term>) -> (r: Option<usize>)
    ensures
        r matches Some(k) ==> k < candidates@.len() && first_common(
            vars_view(candidates@),
            terms_view(terms@),
        ) == k,
        r is None ==> first_common(vars_view(candidates@), terms_view(terms@)) == -1,
{
    let n: usize = candidates.len();
    let mut j: usize = 0;
    let ghost all = vars_view(candidates@);
    let ghost tv = terms_view(terms@);
    while j < n
        invariant
            j <= n,
            n == candidates@.len(),
            all == vars_view(candidates@),
            tv == terms_view(terms@),
            forall|k: int| 0 <= k < j ==> !holds_name(tv, (#[trigger] all[k]).name),
        decreases n - j,
    {
        assert(all[j as int] == candidates@[j as int]@);
        if every_term_holds(terms, &candidates[j].name) {
            proof {
                lemma_first_common(all, tv);
            }
            return Some(j);
        }
        j += 1;
    }
    proof {
        lemma_first_common(all, tv);
    }
    None
}

/// The degree of the first variable of this name in the term; zero where
/// there is none.
pub fn degree_in_term(t: &Term, name: &String) -> (r: Rational)
    requires
        t.wf(),
    ensures
        r == degree_in(t@, name@),
        r.wf(),
{
    match find_name(&t.variables, name) {
        Some(i) => {
            assert(vars_view(t.variables@)[i as int] == t.variables@[i as int]@);
            assert(vars_view(t.variables@)[i as int].degree.wf());
            t.variables[i].degree
        },
        None => Rational::zero(),
    }
}

/// The degree of the variable in the first term, lowered by every later
/// term in which its degree is positive and less.
pub fn least_degree_of(terms: &Vec<Term>, name: &String) -> (r: Rational)
    requires
        terms_wf(terms_view(terms@)),
    ensures
        r == least_degree(terms_view(terms@), name@),
        r.wf(),
{
    let n: usize = terms.len();
    if n == 0 {
        return Rational::zero();
    }
    let ghost all = terms_view(terms@);
    assert(all[0] == terms@[0]@);
    assert(all[0].wf());
    let mut m: Rational = degree_in_term(&terms[0], name);
    let mut i: usize = 1;
    assert(all.take(1).len() == 1);
    while i < n
        invariant
            1 <= i <= n,
            n == terms@.len(),
            all == terms_view(terms@),
            terms_wf(all),
            m.wf(),
            m == least_degree(all.take(i as int), name@),
        decreases n - i,
    {
        assert(all.take(i + 1).drop_last() =~= all.take(i as int));
        assert(all[i as int] == terms@[i as int]@);
        assert(all[i as int].wf());
        let d = degree_in_term(&terms[i], name);
        if d.lt(m) && Rational::zero().lt(d) {
            m = d;
        }
        i += 1;
    }
    assert(all.take(n as int) =~= all);
    m
}

/// The greatest common divisor of the numerators of all coefficients.
pub fn gcd_of_numerators(terms: &Vec<Term>) -> (r: i64)
    requires
        terms_wf(terms_view(terms@)),
    ensures
        r == content_gcd(terms_view(terms@)),
        r >= 0,
{
    let mut g: i64 = 0;
    let n: usize = terms.len();
    let mut i: usize = 0;
    let ghost all = terms_view(terms@);
    assert(all.take(0) =~= Seq::<TermView>::empty());
    while i < n
        invariant
            i <= n,
            n == terms@.len(),
            all == terms_view(terms@),
            terms_wf(all),
            g >= 0,
            g == content_gcd(all.take(i as int)),
        decreases n - i,
    {
        assert(all.take(i + 1).drop_last() =~= all.take(i as int));
        assert(all[i as int] == terms@[i as int]@);
        assert(all[i as int].wf());
        g = integer_gcd(g, terms[i].coefficient.numer);
        i += 1;
    }
    assert(all.take(n as int) =~= all);
    g
}

impl Polynomial {
    /// Multiplies every coefficient by the least common multiple of the
    /// denominators, so that all become whole, and returns that multiple.
    pub fn make_integer(&mut self) -> (r: Result<i64, AlgebraError>)
        requires
            old(self).wf(),
        ensures
            yields(r, old(self)@, final(self)@, old(self)@.integral()),
            final(self).wf(),
            r matches Ok(l) ==> l >= 1,
    {
        let l: i64 = match denominator_lcm(&self.terms) {
            Ok(l) => l,
            Err(e) => {
                return Err(e);
            },
        };
        match scale_terms(&self.terms, Rational::from_integer(l)) {
            Ok(t) => {
                self.terms = t;
                Ok(l)
            },
            Err(e) => Err(e),
        }
    }

    /// What is left of `scaled` when `t` is divided out and the scaling by
    /// `adjust` is undone.
    pub fn divide_out(scaled: &Polynomial, t: &Term, adjust: i64) -> (r: Result<
        Polynomial,
        AlgebraError,
    >)
        requires
            scaled.wf(),
            t.wf(),
            adjust >= 1,
        ensures
            crate::fold::view_of(r) == PolyView::without(scaled@, t@, adjust),
            r matches Ok(p) ==> p.wf() && p@.terms.len() >= 1,
    {
        reveal(PolyView::without);
        let mut inv = t.clone();
        match inv.invert() {
            Ok(()) => {},
            Err(e) => {
                return Err(e);
            },
        }
        let mut by: Vec<Term> = Vec::new();
        by.push(inv);
        proof {
            assert(terms_view(by@) =~= seq![inv@]);
            lemma_wf_push(Seq::<TermView>::empty(), inv@);
        }
        let r1 = match multiply_terms(&scaled.terms, &by) {
            Ok(v) => v,
            Err(e) => {
                return Err(e);
            },
        };
        let r2 = match scale_terms(&r1, Rational::new(1, adjust)) {
            Ok(v) => v,
            Err(e) => {
                return Err(e);
            },
        };
        match canonicalize(&r2) {
            Ok(v) => Ok(Polynomial { terms: v, degree: Rational::one() }),
            Err(e) => Err(e),
        }
    }

    /// The content of the polynomial and what is left without it, so that
    /// their product is the polynomial again. Only a whole-number factor and
    /// the power of one variable are taken out: the first variable of the
    /// first term that occurs in every term. Where there is none, the
    /// content is one and the rest is the polynomial in canonical form.
    pub fn factor(&self) -> (r: Result<(Term, Polynomial), AlgebraError>)
        requires
            self.wf(),
        ensures
            pair_view(r) == self@.content(),
            r matches Ok(p) ==> p.0.wf() && p.1.wf() && p.1@.terms.len() >= 1,
    {
        let mut q = self.clone();
        match q.simplify() {
            Ok(()) => {},
            Err(e) => {
                return Err(e);
            },
        }
        assert(q@.terms[0] == q.terms@[0]@);
        match find_common(&q.terms[0].variables, &q.terms) {
            Some(_) => self.factor_with_number(),
            None => {
                assert(vars_wf_empty());
                proof {
                    lemma_gcd_with_one(1);
                }
                Ok((Term::constant(Rational::one()), q))
            },
        }
    }

    /// The content as a ratio cancels it, and what is left without it: as
    /// `factor`, but where no variable is shared by all terms the content is
    /// the greatest common divisor of the numerators.
    pub fn factor_with_number(&self) -> (r: Result<(Term, Polynomial), AlgebraError>)
        requires
            self.wf(),
        ensures
            pair_view(r) == self@.numbered_content(),
            r matches Ok(p) ==> p.0.wf() && p.1.wf() && p.1@.terms.len() >= 1,
    {
        reveal(PolyView::numbered_content);
        let mut q = self.clone();
        match q.simplify() {
            Ok(()) => {},
            Err(e) => {
                return Err(e);
            },
        }
        let ghost qv = q@;
        assert(qv.terms[0] == q.terms@[0]@);
        let k: usize = match find_common(&q.terms[0].variables, &q.terms) {
            Some(k) => k,
            None => {
                assert(vars_wf_empty());
                let g: i64 = gcd_of_numerators(&q.terms);
                proof {
                    lemma_gcd_with_one(g as nat);
                }
                let t = Term::constant(Rational::from_integer(g));
                if g == 0 {
                    return Ok((t, q));
                }
                return match scale_terms(&q.terms, Rational::new(1, g)) {
                    Ok(rest) => Ok((t, Polynomial { terms: rest, degree: q.degree })),
                    Err(e) => Err(e),
                };
            },
        };
        let name: String = q.terms[0].variables[k].name.clone();
        assert(qv.terms[0].variables[k as int] == q.terms@[0].variables@[k as int]@);
        let mut p = q.clone();
        let adjust: i64 = match p.make_integer() {
            Ok(l) => l,
            Err(e) => {
                return Err(e);
            },
        };
        let g: i64 = gcd_of_numerators(&p.terms);
        let m: Rational = least_degree_of(&p.terms, &name);
        let mut vars: Vec<Variable> = Vec::new();
        vars.push(Variable { name, degree: m });
        let t = Term { coefficient: Rational::from_integer(g), variables: vars };
        proof {
            assert(vars_view(t.variables@) =~= seq![VarView { name: name@, degree: m }]);
            assert(t@ == content_term(g as nat, name@, m));
            assert forall|i: int| 0 <= i < t@.variables.len() implies (
            #[trigger] t@.variables[i]).degree.wf() by {}
        }
        match Polynomial::divide_out(&p, &t, adjust) {
            Ok(rest) => Ok((t, rest)),
            Err(e) => Err(e),
        }
    }
}

} // verus!
