//! Polynomials: a list of terms under one outer exponent, and their
//! canonical form.

use crate::canonical::canonical;
use crate::error::AlgebraError;
use crate::fold::{lemma_try_fold_err, lemma_try_fold_step, lemma_try_map_err, lemma_try_map_step, try_fold, try_map, updates_to, view_of};
use crate::laws::lemma_sort_keeps_wf;
use crate::order::{insertion_sort, lemma_insert_position};
use crate::rational::Rational;
use crate::term::{variables_lt, vars_equal, vars_lt, vars_view, Term, TermView, VarView};
use vstd::prelude::*;

verus! {

/// A sum of terms raised, as a whole, to the power `degree`.
#[derive(Debug)]
pub struct Polynomial {
    pub terms: Vec<Term>,
    pub degree: Rational,
}

/// What a `Polynomial` stands for.
pub struct PolyView {
    pub terms: Seq<TermView>,
    pub degree: Rational,
}

/// The views of a sequence of terms, in order.
pub open spec fn terms_view(s: Seq<Term>) -> Seq<TermView> {
    Seq::new(s.len(), |i: int| s[i]@)
}

impl View for Polynomial {
    type V = PolyView;

    open spec fn view(&self) -> PolyView {
        PolyView { terms: terms_view(self.terms@), degree: self.degree }
    }
}

/// Every term has its coefficient and degrees in lowest terms.
pub open spec fn terms_wf(terms: Seq<TermView>) -> bool {
    forall|i: int| 0 <= i < terms.len() ==> (#[trigger] terms[i]).wf()
}

/// The greatest `max_degree` among the terms; zero where there is none.
pub open spec fn degree_of(terms: Seq<TermView>) -> Rational
    decreases terms.len(),
{
    if terms.len() == 0 {
        Rational::spec_zero()
    } else if terms.len() == 1 {
        terms[0].max_degree()
    } else {
        degree_of(terms.drop_last()).spec_max(terms.last().max_degree())
    }
}

/// The greatest `max_degree` among the terms, with the last term that has
/// it; zero and the zero term where there is no term.
pub open spec fn leading_from(terms: Seq<TermView>) -> (Rational, TermView)
    decreases terms.len(),
{
    if terms.len() == 0 {
        (Rational::spec_zero(), TermView::zero())
    } else if terms.len() == 1 {
        (terms[0].max_degree(), terms[0])
    } else {
        let before = leading_from(terms.drop_last());
        let d = terms.last().max_degree();
        if d.spec_lt(before.0) {
            before
        } else {
            (d, terms.last())
        }
    }
}

/// The first position whose term has exactly these variables, or -1.
pub open spec fn index_of_vars(terms: Seq<TermView>, vars: Seq<VarView>) -> int
    decreases terms.len(),
{
    if terms.len() == 0 {
        -1
    } else {
        let i = index_of_vars(terms.drop_last(), vars);
        if i >= 0 {
            i
        } else if terms.last().variables == vars {
            terms.len() - 1
        } else {
            -1
        }
    }
}

/// `t` taken into `acc`: its coefficient is added to the first term with the
/// same variables, or it is appended where there is none.
pub open spec fn absorb_term(acc: Seq<TermView>, t: TermView) -> Result<
    Seq<TermView>,
    AlgebraError,
> {
    let i = index_of_vars(acc, t.variables);
    if i < 0 {
        Ok(acc.push(t))
    } else {
        match acc[i].coefficient.spec_add(t.coefficient) {
            Ok(c) => Ok(acc.update(i, TermView { coefficient: c, variables: acc[i].variables })),
            Err(e) => Err(e),
        }
    }
}

/// `absorb_term` as a step.
pub open spec fn absorbing() -> spec_fn(Seq<TermView>, TermView) -> Result<
    Seq<TermView>,
    AlgebraError,
> {
    |acc: Seq<TermView>, t: TermView| absorb_term(acc, t)
}

/// One term per list of variables, in order of first occurrence, with the
/// coefficients of like terms added from left to right.
pub open spec fn like_terms_added(terms: Seq<TermView>) -> Result<Seq<TermView>, AlgebraError> {
    try_fold(terms, Seq::<TermView>::empty(), absorbing())
}

/// The terms whose coefficient is not zero, in order.
pub open spec fn nonzero_terms(terms: Seq<TermView>) -> Seq<TermView>
    decreases terms.len(),
{
    if terms.len() == 0 {
        terms
    } else if terms.last().coefficient.numer != 0 {
        nonzero_terms(terms.drop_last()).push(terms.last())
    } else {
        nonzero_terms(terms.drop_last())
    }
}

/// The terms, or the zero term alone where there is none.
pub open spec fn or_zero(terms: Seq<TermView>) -> Seq<TermView> {
    if terms.len() == 0 {
        seq![TermView::zero()]
    } else {
        terms
    }
}

/// The order of terms: the greater `max_degree` first, then the lesser list
/// of variables.
pub open spec fn term_before(a: TermView, b: TermView) -> bool {
    b.max_degree().spec_lt(a.max_degree()) || (!a.max_degree().spec_lt(b.max_degree()) && vars_lt(
        a.variables,
        b.variables,
    ))
}

/// `term_before` as an order to sort by.
pub open spec fn by_rank() -> spec_fn(TermView, TermView) -> bool {
    |a: TermView, b: TermView| term_before(a, b)
}

/// A term with its variables sorted and merged.
pub open spec fn normal_term(t: TermView) -> Result<TermView, AlgebraError> {
    t.sorted().merged()
}

/// `normal_term` as a step.
pub open spec fn normalizing() -> spec_fn(TermView) -> Result<TermView, AlgebraError> {
    |t: TermView| normal_term(t)
}

/// The canonical form of a list of terms: every term with its variables
/// sorted and merged, like terms added, zero terms removed (the zero term
/// alone where nothing is left), and the terms sorted by `term_before`.
#[verifier::opaque]
pub open spec fn canonical_terms(terms: Seq<TermView>) -> Result<Seq<TermView>, AlgebraError> {
    match try_map(terms, normalizing()) {
        Ok(n) => match like_terms_added(n) {
            Ok(m) => Ok(insertion_sort(or_zero(nonzero_terms(m)), by_rank())),
            Err(e) => Err(e),
        },
        Err(e) => Err(e),
    }
}

/// `t` times a term, as a step.
pub open spec fn times(t: TermView) -> spec_fn(TermView) -> Result<TermView, AlgebraError> {
    |u: TermView| t.product(u)
}

/// The products of `t` with each term of `b`, appended to `acc`.
pub open spec fn append_row(b: Seq<TermView>) -> spec_fn(Seq<TermView>, TermView) -> Result<
    Seq<TermView>,
    AlgebraError,
> {
    |acc: Seq<TermView>, t: TermView|
        match try_map(b, times(t)) {
            Ok(row) => Ok(acc + row),
            Err(e) => Err(e),
        }
}

/// Every term of `a` times every term of `b`, row by row.
pub open spec fn cross_product(a: Seq<TermView>, b: Seq<TermView>) -> Result<
    Seq<TermView>,
    AlgebraError,
> {
    try_fold(a, Seq::<TermView>::empty(), append_row(b))
}

/// The canonical form of the cross product.
#[verifier::opaque]
pub open spec fn product_terms(a: Seq<TermView>, b: Seq<TermView>) -> Result<
    Seq<TermView>,
    AlgebraError,
> {
    match cross_product(a, b) {
        Ok(c) => canonical_terms(c),
        Err(e) => Err(e),
    }
}

/// `base` multiplied by itself to the `n`-th power, `n >= 1`: `n - 1`
/// products with `base`, from the left.
pub open spec fn power_terms(base: Seq<TermView>, n: nat) -> Result<Seq<TermView>, AlgebraError>
    decreases n,
{
    if n <= 1 {
        Ok(base)
    } else {
        match power_terms(base, (n - 1) as nat) {
            Ok(p) => product_terms(p, base),
            Err(e) => Err(e),
        }
    }
}

/// Every coefficient negated.
pub open spec fn negated_terms(terms: Seq<TermView>) -> Seq<TermView> {
    Seq::new(terms.len(), |i: int| terms[i].negated())
}

/// The result with its terms replaced by their views.
pub open spec fn terms_result(r: Result<Vec<Term>, AlgebraError>) -> Result<
    Seq<TermView>,
    AlgebraError,
> {
    match r {
        Ok(v) => Ok(terms_view(v@)),
        Err(e) => Err(e),
    }
}

impl PolyView {
    /// Every fraction in it is in lowest terms.
    pub open spec fn wf(self) -> bool {
        terms_wf(self.terms) && self.degree.wf()
    }

    /// The polynomial of these terms under the outer exponent one.
    pub open spec fn plain(terms: Seq<TermView>) -> PolyView {
        PolyView { terms, degree: Rational::spec_one() }
    }

    /// The polynomial of the one term `t`.
    pub open spec fn single(t: TermView) -> PolyView {
        PolyView::plain(seq![t])
    }

    /// The greatest `max_degree` among the terms; zero where there is none.
    pub open spec fn max_degree(self) -> Rational {
        degree_of(self.terms)
    }

    /// The last of the terms of greatest `max_degree`; the zero term where
    /// there is no term.
    pub open spec fn leading_term(self) -> TermView {
        leading_from(self.terms).1
    }

    /// Whether the terms are the zero term alone.
    pub open spec fn is_zero(self) -> bool {
        self.terms == seq![TermView::zero()]
    }

    /// The outer exponent applied where it can be: to a single term whose
    /// power is exact, and to several terms where it is an integer from two
    /// on, by repeated multiplication. The exponent is then one. In every
    /// other case the polynomial stays as it is, its exponent pending.
    pub open spec fn raised(self) -> Result<PolyView, AlgebraError> {
        if self.terms.len() == 1 {
            if self.degree == Rational::spec_one() {
                Ok(self)
            } else {
                match self.terms[0].try_power(self.degree) {
                    Ok(Some(t)) => Ok(PolyView::single(t)),
                    Ok(None) => Ok(self),
                    Err(e) => Err(e),
                }
            }
        } else if self.terms.len() >= 2 && self.degree.denom == 1 && self.degree.numer >= 2 {
            match power_terms(self.terms, self.degree.numer as nat) {
                Ok(t) => Ok(PolyView::plain(t)),
                Err(e) => Err(e),
            }
        } else {
            Ok(self)
        }
    }

    /// The canonical form: the outer exponent applied where it can be, then
    /// the terms brought into canonical form.
    #[verifier::opaque]
    pub open spec fn simplified(self) -> Result<PolyView, AlgebraError> {
        match self.raised() {
            Ok(q) => match canonical_terms(q.terms) {
                Ok(t) => Ok(PolyView { terms: t, degree: q.degree }),
                Err(e) => Err(e),
            },
            Err(e) => Err(e),
        }
    }

    /// The sum: the terms of both in canonical form, whatever the outer
    /// exponents were.
    pub open spec fn sum(self, rhs: PolyView) -> Result<PolyView, AlgebraError> {
        match canonical_terms(self.terms + rhs.terms) {
            Ok(t) => Ok(PolyView::plain(t)),
            Err(e) => Err(e),
        }
    }

    /// The difference: the sum with the negated terms of `rhs`.
    pub open spec fn difference(self, rhs: PolyView) -> Result<PolyView, AlgebraError> {
        self.sum(PolyView { terms: negated_terms(rhs.terms), degree: rhs.degree })
    }

    /// The product: the cross product of the terms in canonical form,
    /// whatever the outer exponents were.
    pub open spec fn product(self, rhs: PolyView) -> Result<PolyView, AlgebraError> {
        match product_terms(self.terms, rhs.terms) {
            Ok(t) => Ok(PolyView::plain(t)),
            Err(e) => Err(e),
        }
    }
}

/// What `index_of_vars` finds: the first position of these variables, or -1
/// where no term has them.
pub proof fn lemma_index_of_vars(terms: Seq<TermView>, vars: Seq<VarView>)
    ensures
        -1 <= index_of_vars(terms, vars) < terms.len(),
        index_of_vars(terms, vars) >= 0 ==> terms[index_of_vars(terms, vars)].variables == vars,
        forall|k: int|
            0 <= k < terms.len() && (k < index_of_vars(terms, vars) || index_of_vars(terms, vars)
                < 0) ==> (#[trigger] terms[k]).variables != vars,
    decreases terms.len(),
{
    if terms.len() > 0 {
        lemma_index_of_vars(terms.drop_last(), vars);
        assert forall|k: int|
            0 <= k < terms.len() && (k < index_of_vars(terms, vars) || index_of_vars(terms, vars)
                < 0) implies (#[trigger] terms[k]).variables != vars by {
            if k < terms.len() - 1 {
                assert(terms.drop_last()[k] == terms[k]);
            }
        }
    }
}

/// Appending a term in lowest terms keeps the list so.
pub proof fn lemma_wf_push(s: Seq<TermView>, t: TermView)
    requires
        terms_wf(s),
        t.wf(),
    ensures
        terms_wf(s.push(t)),
{
    assert forall|i: int| 0 <= i < s.push(t).len() implies (#[trigger] s.push(t)[i]).wf() by {
        if i < s.len() {
            assert(s.push(t)[i] == s[i]);
        }
    }
}

/// Replacing a term by one in lowest terms keeps the list so.
pub proof fn lemma_wf_update(s: Seq<TermView>, i: int, t: TermView)
    requires
        terms_wf(s),
        t.wf(),
        0 <= i < s.len(),
    ensures
        terms_wf(s.update(i, t)),
{
    assert forall|k: int| 0 <= k < s.update(i, t).len() implies (#[trigger] s.update(i, t)[k]).wf() by {
        if k != i {
            assert(s.update(i, t)[k] == s[k]);
        }
    }
}

/// Two lists in lowest terms joined are in lowest terms.
pub proof fn lemma_wf_concat(a: Seq<TermView>, b: Seq<TermView>)
    requires
        terms_wf(a),
        terms_wf(b),
    ensures
        terms_wf(a + b),
{
    assert forall|i: int| 0 <= i < (a + b).len() implies (#[trigger] (a + b)[i]).wf() by {
        if i < a.len() {
            assert((a + b)[i] == a[i]);
        } else {
            assert((a + b)[i] == b[i - a.len()]);
        }
    }
}

/// A copy of the terms.
pub fn clone_terms(terms: &Vec<Term>) -> (r: Vec<Term>)
    ensures
        terms_view(r@) == terms_view(terms@),
        r@.len() == terms@.len(),
{
    let mut out: Vec<Term> = Vec::new();
    let n: usize = terms.len();
    let mut i: usize = 0;
    while i < n
        invariant
            i <= n,
            n == terms@.len(),
            out@.len() == i,
            forall|k: int| 0 <= k < i ==> (#[trigger] out@[k])@ == terms@[k]@,
        decreases n - i,
    {
        out.push(terms[i].clone());
        i += 1;
    }
    assert(terms_view(out@) =~= terms_view(terms@));
    out
}

/// Whether `a` comes before `b` in the order of terms.
pub fn term_lt(a: &Term, b: &Term) -> (r: bool)
    requires
        a.wf(),
        b.wf(),
    ensures
        r == term_before(a@, b@),
{
    let da = a.max_degree();
    let db = b.max_degree();
    if db.lt(da) {
        true
    } else if da.lt(db) {
        false
    } else {
        variables_lt(&a.variables, &b.variables)
    }
}

/// Every term with its variables sorted by name and merged.
pub fn normalize_terms(terms: &Vec<Term>) -> (r: Result<Vec<Term>, AlgebraError>)
    requires
        terms_wf(terms_view(terms@)),
    ensures
        terms_result(r) == try_map(terms_view(terms@), normalizing()),
        r matches Ok(v) ==> terms_wf(terms_view(v@)),
{
    let mut out: Vec<Term> = Vec::new();
    let n: usize = terms.len();
    let mut i: usize = 0;
    let ghost all = terms_view(terms@);
    assert(all.take(0) =~= Seq::<TermView>::empty());
    assert(terms_view(out@) =~= Seq::<TermView>::empty());
    while i < n
        invariant
            i <= n,
            n == terms@.len(),
            all == terms_view(terms@),
            terms_wf(all),
            terms_wf(terms_view(out@)),
            try_map(all.take(i as int), normalizing()) == Ok::<Seq<TermView>, AlgebraError>(
                terms_view(out@),
            ),
        decreases n - i,
    {
        let ghost before = terms_view(out@);
        proof {
            lemma_try_map_step(all, normalizing(), i as int);
            assert(all[i as int] == terms@[i as int]@);
            assert(all[i as int].wf());
        }
        let mut t = terms[i].clone();
        t.sort_vars();
        proof {
            lemma_sort_keeps_wf(all[i as int].variables);
        }
        match t.factor() {
            Ok(()) => {
                out.push(t);
                proof {
                    assert(terms_view(out@) =~= before.push(t@));
                    lemma_wf_push(before, t@);
                }
            },
            Err(e) => {
                proof {
                    lemma_try_map_err(all, normalizing(), i + 1);
                }
                return Err(e);
            },
        }
        i += 1;
    }
    assert(all.take(n as int) =~= all);
    Ok(out)
}

/// The first position in `terms` whose term has the variables `vars`.
pub fn find_vars(terms: &Vec<Term>, vars: &Vec<crate::term::Variable>) -> (r: Option<usize>)
    ensures
        r matches Some(i) ==> i < terms@.len() && index_of_vars(
            terms_view(terms@),
            vars_view(vars@),
        ) == i,
        r is None ==> index_of_vars(terms_view(terms@), vars_view(vars@)) == -1,
{
    let n: usize = terms.len();
    let mut j: usize = 0;
    let ghost all = terms_view(terms@);
    while j < n
        invariant
            j <= n,
            n == terms@.len(),
            all == terms_view(terms@),
            forall|k: int| 0 <= k < j ==> (#[trigger] all[k]).variables != vars_view(vars@),
        decreases n - j,
    {
        assert(all[j as int] == terms@[j as int]@);
        if vars_equal(&terms[j].variables, vars) {
            proof {
                lemma_index_of_vars(all, vars_view(vars@));
            }
            return Some(j);
        }
        j += 1;
    }
    proof {
        lemma_index_of_vars(all, vars_view(vars@));
    }
    None
}

/// One term per list of variables, with the coefficients of like terms
/// added.
pub fn add_like(terms: &Vec<Term>) -> (r: Result<Vec<Term>, AlgebraError>)
    requires
        terms_wf(terms_view(terms@)),
    ensures
        terms_result(r) == like_terms_added(terms_view(terms@)),
        r matches Ok(v) ==> terms_wf(terms_view(v@)),
{
    let mut acc: Vec<Term> = Vec::new();
    let n: usize = terms.len();
    let mut i: usize = 0;
    let ghost all = terms_view(terms@);
    assert(all.take(0) =~= Seq::<TermView>::empty());
    assert(terms_view(acc@) =~= Seq::<TermView>::empty());
    while i < n
        invariant
            i <= n,
            n == terms@.len(),
            all == terms_view(terms@),
            terms_wf(all),
            terms_wf(terms_view(acc@)),
            try_fold(all.take(i as int), Seq::<TermView>::empty(), absorbing()) == Ok::<
                Seq<TermView>,
                AlgebraError,
            >(terms_view(acc@)),
        decreases n - i,
    {
        let ghost before = terms_view(acc@);
        proof {
            lemma_try_fold_step(all, Seq::<TermView>::empty(), absorbing(), i as int);
            assert(all[i as int] == terms@[i as int]@);
            assert(all[i as int].wf());
        }
        match find_vars(&acc, &terms[i].variables) {
            Some(j) => {
                assert(before[j as int] == acc@[j as int]@);
                assert(before[j as int].wf());
                match acc[j].coefficient.checked_add(terms[i].coefficient) {
                    Ok(c) => {
                        let t = Term { coefficient: c, variables: crate::term::clone_vars(&acc[j].variables) };
                        acc.set(j, t);
                        proof {
                            assert(terms_view(acc@) =~= before.update(j as int, t@));
                            lemma_wf_update(before, j as int, t@);
                        }
                    },
                    Err(e) => {
                        proof {
                            lemma_try_fold_err(
                                all,
                                Seq::<TermView>::empty(),
                                absorbing(),
                                i + 1,
                            );
                        }
                        return Err(e);
                    },
                }
            },
            None => {
                acc.push(terms[i].clone());
                proof {
                    assert(terms_view(acc@) =~= before.push(all[i as int]));
                    lemma_wf_push(before, all[i as int]);
                }
            },
        }
        i += 1;
    }
    assert(all.take(n as int) =~= all);
    Ok(acc)
}

/// The terms whose coefficient is not zero, or the zero term alone where
/// there is none.
pub fn drop_zero_terms(terms: &Vec<Term>) -> (r: Vec<Term>)
    requires
        terms_wf(terms_view(terms@)),
    ensures
        terms_view(r@) == or_zero(nonzero_terms(terms_view(terms@))),
        terms_wf(terms_view(r@)),
        r@.len() >= 1,
{
    let mut out: Vec<Term> = Vec::new();
    let n: usize = terms.len();
    let mut i: usize = 0;
    let ghost all = terms_view(terms@);
    assert(all.take(0) =~= Seq::<TermView>::empty());
    assert(terms_view(out@) =~= Seq::<TermView>::empty());
    while i < n
        invariant
            i <= n,
            n == terms@.len(),
            all == terms_view(terms@),
            terms_wf(all),
            terms_wf(terms_view(out@)),
            terms_view(out@) == nonzero_terms(all.take(i as int)),
        decreases n - i,
    {
        let ghost before = terms_view(out@);
        proof {
            assert(all.take(i + 1).drop_last() =~= all.take(i as int));
            assert(all[i as int] == terms@[i as int]@);
            assert(all[i as int].wf());
        }
        if terms[i].coefficient.numer != 0 {
            out.push(terms[i].clone());
            proof {
                assert(terms_view(out@) =~= before.push(all[i as int]));
                lemma_wf_push(before, all[i as int]);
            }
        }
        i += 1;
    }
    assert(all.take(n as int) =~= all);
    if out.len() == 0 {
        out.push(Term::constant(Rational::zero()));
        assert(terms_view(out@) =~= seq![TermView::zero()]);
        assert(terms_wf(terms_view(out@))) by {
            assert(vars_wf_empty());
        }
    }
    out
}

/// The empty list of variables is in lowest terms.
pub open spec fn vars_wf_empty() -> bool {
    crate::term::vars_wf(Seq::<VarView>::empty())
}

/// The terms sorted by `term_before`, like terms in their old order.
pub fn sort_term_list(terms: &Vec<Term>) -> (r: Vec<Term>)
    requires
        terms_wf(terms_view(terms@)),
    ensures
        terms_view(r@) == insertion_sort(terms_view(terms@), by_rank()),
        terms_wf(terms_view(r@)),
        r@.len() == terms@.len(),
{
    let mut out: Vec<Term> = Vec::new();
    let n: usize = terms.len();
    let mut i: usize = 0;
    let ghost all = terms_view(terms@);
    assert(all.take(0) =~= Seq::<TermView>::empty());
    assert(terms_view(out@) =~= Seq::<TermView>::empty());
    while i < n
        invariant
            i <= n,
            n == terms@.len(),
            all == terms_view(terms@),
            terms_wf(all),
            terms_wf(terms_view(out@)),
            out@.len() == i,
            terms_view(out@) == insertion_sort(all.take(i as int), by_rank()),
        decreases n - i,
    {
        let t = terms[i].clone();
        proof {
            assert(all[i as int] == terms@[i as int]@);
            assert(all[i as int].wf());
        }
        let mut j: usize = out.len();
        proof {
            assert forall|k: int| 0 <= k < out@.len() implies (#[trigger] out@[k]).wf() by {
                assert(terms_view(out@)[k] == out@[k]@);
            }
        }
        while j > 0 && term_lt(&t, &out[j - 1])
            invariant
                j <= out.len(),
                t.wf(),
                forall|k: int| 0 <= k < out@.len() ==> (#[trigger] out@[k]).wf(),
                forall|k: int| j <= k < out.len() ==> term_before(t@, (#[trigger] out@[k])@),
            decreases j,
        {
            j -= 1;
        }
        proof {
            let placed = terms_view(out@);
            assert forall|k: int| j <= k < placed.len() implies by_rank()(
                t@,
                #[trigger] placed[k],
            ) by {
                assert(placed[k] == out@[k]@);
            }
            if j > 0 {
                assert(placed[j - 1] == out@[j - 1]@);
            }
            lemma_insert_position(placed, t@, by_rank(), j as int);
            assert(all.take(i + 1).drop_last() =~= all.take(i as int));
            assert(all.take(i + 1).last() == t@);
            assert(terms_view(out@.insert(j as int, t)) =~= placed.insert(j as int, t@));
            assert forall|k: int| 0 <= k < placed.insert(j as int, t@).len() implies (
            #[trigger] placed.insert(j as int, t@)[k]).wf() by {
                if k < j {
                    assert(placed.insert(j as int, t@)[k] == placed[k]);
                } else if k > j {
                    assert(placed.insert(j as int, t@)[k] == placed[k - 1]);
                }
            }
        }
        out.insert(j, t);
        i += 1;
    }
    assert(all.take(n as int) =~= all);
    out
}

/// The canonical form of a list of terms.
pub fn canonicalize(terms: &Vec<Term>) -> (r: Result<Vec<Term>, AlgebraError>)
    requires
        terms_wf(terms_view(terms@)),
    ensures
        terms_result(r) == canonical_terms(terms_view(terms@)),
        r matches Ok(v) ==> terms_wf(terms_view(v@)) && v@.len() >= 1,
        r matches Ok(v) ==> canonical(terms_view(v@)),
{
    proof {
        if canonical_terms(terms_view(terms@)) is Ok {
            crate::invariants::lemma_wf_positive(terms_view(terms@));
            crate::invariants::lemma_canonical_output(terms_view(terms@));
        }
    }
    reveal(canonical_terms);
    let normal = match normalize_terms(terms) {
        Ok(v) => v,
        Err(e) => {
            return Err(e);
        },
    };
    let merged = match add_like(&normal) {
        Ok(v) => v,
        Err(e) => {
            return Err(e);
        },
    };
    let kept = drop_zero_terms(&merged);
    Ok(sort_term_list(&kept))
}

/// An error on the way to a power is the error of every higher power.
pub proof fn lemma_power_err(base: Seq<TermView>, i: nat, n: nat)
    requires
        1 <= i <= n,
        power_terms(base, i) is Err,
    ensures
        power_terms(base, n) == power_terms(base, i),
    decreases n - i,
{
    if i < n {
        lemma_power_err(base, i, (n - 1) as nat);
    }
}

/// The products of `t` with each term of `b`, in order.
pub fn product_row(t: &Term, b: &Vec<Term>) -> (r: Result<Vec<Term>, AlgebraError>)
    requires
        t.wf(),
        terms_wf(terms_view(b@)),
    ensures
        terms_result(r) == try_map(terms_view(b@), times(t@)),
        r matches Ok(v) ==> terms_wf(terms_view(v@)),
{
    let mut out: Vec<Term> = Vec::new();
    let n: usize = b.len();
    let mut i: usize = 0;
    let ghost all = terms_view(b@);
    assert(all.take(0) =~= Seq::<TermView>::empty());
    assert(terms_view(out@) =~= Seq::<TermView>::empty());
    while i < n
        invariant
            i <= n,
            n == b@.len(),
            all == terms_view(b@),
            t.wf(),
            terms_wf(all),
            terms_wf(terms_view(out@)),
            try_map(all.take(i as int), times(t@)) == Ok::<Seq<TermView>, AlgebraError>(
                terms_view(out@),
            ),
        decreases n - i,
    {
        let ghost before = terms_view(out@);
        proof {
            lemma_try_map_step(all, times(t@), i as int);
            assert(all[i as int] == b@[i as int]@);
            assert(all[i as int].wf());
        }
        match t.product(&b[i]) {
            Ok(p) => {
                out.push(p);
                proof {
                    assert(terms_view(out@) =~= before.push(p@));
                    lemma_wf_push(before, p@);
                }
            },
            Err(e) => {
                proof {
                    lemma_try_map_err(all, times(t@), i + 1);
                }
                return Err(e);
            },
        }
        i += 1;
    }
    assert(all.take(n as int) =~= all);
    Ok(out)
}

/// Every term of `a` times every term of `b`, row by row.
pub fn cross_terms(a: &Vec<Term>, b: &Vec<Term>) -> (r: Result<Vec<Term>, AlgebraError>)
    requires
        terms_wf(terms_view(a@)),
        terms_wf(terms_view(b@)),
    ensures
        terms_result(r) == cross_product(terms_view(a@), terms_view(b@)),
        r matches Ok(v) ==> terms_wf(terms_view(v@)),
{
    let mut out: Vec<Term> = Vec::new();
    let n: usize = a.len();
    let mut i: usize = 0;
    let ghost all = terms_view(a@);
    let ghost vb = terms_view(b@);
    assert(all.take(0) =~= Seq::<TermView>::empty());
    assert(terms_view(out@) =~= Seq::<TermView>::empty());
    while i < n
        invariant
            i <= n,
            n == a@.len(),
            all == terms_view(a@),
            vb == terms_view(b@),
            terms_wf(all),
            terms_wf(vb),
            terms_wf(terms_view(out@)),
            try_fold(all.take(i as int), Seq::<TermView>::empty(), append_row(vb)) == Ok::<
                Seq<TermView>,
                AlgebraError,
            >(terms_view(out@)),
        decreases n - i,
    {
        let ghost before = terms_view(out@);
        proof {
            lemma_try_fold_step(all, Seq::<TermView>::empty(), append_row(vb), i as int);
            assert(all[i as int] == a@[i as int]@);
            assert(all[i as int].wf());
        }
        match product_row(&a[i], b) {
            Ok(mut row) => {
                let ghost rv = terms_view(row@);
                out.append(&mut row);
                proof {
                    assert(terms_view(out@) =~= before + rv);
                    lemma_wf_concat(before, rv);
                }
            },
            Err(e) => {
                proof {
                    lemma_try_fold_err(all, Seq::<TermView>::empty(), append_row(vb), i + 1);
                }
                return Err(e);
            },
        }
        i += 1;
    }
    assert(all.take(n as int) =~= all);
    Ok(out)
}

/// The canonical form of the cross product.
pub fn multiply_terms(a: &Vec<Term>, b: &Vec<Term>) -> (r: Result<Vec<Term>, AlgebraError>)
    requires
        terms_wf(terms_view(a@)),
        terms_wf(terms_view(b@)),
    ensures
        terms_result(r) == product_terms(terms_view(a@), terms_view(b@)),
        r matches Ok(v) ==> terms_wf(terms_view(v@)) && v@.len() >= 1,
        r matches Ok(v) ==> canonical(terms_view(v@)),
{
    reveal(product_terms);
    match cross_terms(a, b) {
        Ok(c) => canonicalize(&c),
        Err(e) => Err(e),
    }
}

/// `base` to the `n`-th power by `n - 1` products with `base`.
pub fn power_term_list(base: &Vec<Term>, n: i64) -> (r: Result<Vec<Term>, AlgebraError>)
    requires
        terms_wf(terms_view(base@)),
        n >= 1,
    ensures
        terms_result(r) == power_terms(terms_view(base@), n as nat),
        r matches Ok(v) ==> terms_wf(terms_view(v@)),
{
    let mut acc: Vec<Term> = clone_terms(base);
    let mut i: i64 = 1;
    let ghost vb = terms_view(base@);
    while i < n
        invariant
            1 <= i <= n,
            vb == terms_view(base@),
            terms_wf(vb),
            terms_wf(terms_view(acc@)),
            power_terms(vb, i as nat) == Ok::<Seq<TermView>, AlgebraError>(terms_view(acc@)),
        decreases n - i,
    {
        assert(power_terms(vb, (i + 1) as nat) == product_terms(terms_view(acc@), vb));
        match multiply_terms(&acc, base) {
            Ok(next) => {
                acc = next;
            },
            Err(e) => {
                proof {
                    lemma_power_err(vb, (i + 1) as nat, n as nat);
                }
                return Err(e);
            },
        }
        i += 1;
    }
    Ok(acc)
}

impl Clone for Polynomial {
    fn clone(&self) -> (r: Self)
        ensures
            r@ == self@,
    {
        Polynomial { terms: clone_terms(&self.terms), degree: self.degree }
    }
}

impl Polynomial {
    pub open spec fn wf(&self) -> bool {
        self@.wf()
    }

    /// Whether every fraction in the polynomial is in lowest terms.
    pub fn is_wf(&self) -> (b: bool)
        ensures
            b == self.wf(),
    {
        if !self.degree.is_wf() {
            return false;
        }
        let n: usize = self.terms.len();
        let mut i: usize = 0;
        while i < n
            invariant
                i <= n,
                n == self.terms@.len(),
                forall|k: int| 0 <= k < i ==> (#[trigger] terms_view(self.terms@)[k]).wf(),
            decreases n - i,
        {
            assert(terms_view(self.terms@)[i as int] == self.terms@[i as int]@);
            if !self.terms[i].is_wf() {
                return false;
            }
            i += 1;
        }
        true
    }

    /// The polynomial of these terms under the outer exponent one.
    pub fn from_terms(terms: Vec<Term>) -> (p: Polynomial)
        ensures
            p@ == PolyView::plain(terms_view(terms@)),
            terms_wf(terms_view(terms@)) ==> p.wf(),
    {
        Polynomial { terms, degree: Rational::one() }
    }

    /// The polynomial of the one term `t`.
    pub fn from_term(t: Term) -> (p: Polynomial)
        ensures
            p@ == PolyView::single(t@),
            t.wf() ==> p.wf(),
    {
        let mut terms: Vec<Term> = Vec::new();
        terms.push(t);
        assert(terms_view(terms@) =~= seq![t@]);
        Polynomial { terms, degree: Rational::one() }
    }

    /// The greatest `max_degree` among the terms; zero where there is none.
    pub fn degree(&self) -> (r: Rational)
        requires
            self.wf(),
        ensures
            r == self@.max_degree(),
            r.wf(),
    {
        let n: usize = self.terms.len();
        if n == 0 {
            return Rational::zero();
        }
        let ghost all = terms_view(self.terms@);
        assert(all[0] == self.terms@[0]@);
        assert(all[0].wf());
        let mut best: Rational = self.terms[0].max_degree();
        let mut i: usize = 1;
        assert(all.take(1).len() == 1);
        while i < n
            invariant
                1 <= i <= n,
                n == self.terms@.len(),
                all == terms_view(self.terms@),
                terms_wf(all),
                best.wf(),
                best == degree_of(all.take(i as int)),
            decreases n - i,
        {
            assert(all.take(i + 1).drop_last() =~= all.take(i as int));
            assert(all[i as int] == self.terms@[i as int]@);
            assert(all[i as int].wf());
            best = best.max(self.terms[i].max_degree());
            i += 1;
        }
        assert(all.take(n as int) =~= all);
        best
    }

    /// The leading term: the last of the terms of greatest `max_degree`;
    /// the zero term where there is no term.
    pub fn leading_term(&self) -> (r: Term)
        requires
            self.wf(),
        ensures
            r@ == self@.leading_term(),
            r.wf(),
    {
        let n: usize = self.terms.len();
        let ghost all = terms_view(self.terms@);
        if n == 0 {
            assert(vars_wf_empty());
            return Term::constant(Rational::zero());
        }
        assert(all[0] == self.terms@[0]@);
        assert(all[0].wf());
        let mut best: Rational = self.terms[0].max_degree();
        let mut lead: Term = self.terms[0].clone();
        let mut i: usize = 1;
        assert(all.take(1).len() == 1);
        while i < n
            invariant
                1 <= i <= n,
                n == self.terms@.len(),
                all == terms_view(self.terms@),
                terms_wf(all),
                best.wf(),
                lead.wf(),
                (best, lead@) == leading_from(all.take(i as int)),
            decreases n - i,
        {
            assert(all.take(i + 1).drop_last() =~= all.take(i as int));
            assert(all[i as int] == self.terms@[i as int]@);
            assert(all[i as int].wf());
            let d = self.terms[i].max_degree();
            if !d.lt(best) {
                best = d;
                lead = self.terms[i].clone();
            }
            i += 1;
        }
        assert(all.take(n as int) =~= all);
        lead
    }

    /// Sorts the terms: the greater `max_degree` first, then the lesser list
    /// of variables; terms that neither comes before the other keep their
    /// order.
    pub fn sort_terms(&mut self)
        requires
            old(self).wf(),
        ensures
            final(self)@.terms == insertion_sort(old(self)@.terms, by_rank()),
            final(self)@.degree == old(self)@.degree,
            final(self).wf(),
    {
        self.terms = sort_term_list(&self.terms);
    }

    /// Adds the coefficients of terms with the same list of variables into
    /// the first of them.
    pub fn add_like_terms(&mut self) -> (r: Result<(), AlgebraError>)
        requires
            old(self).wf(),
        ensures
            updates_to(r, old(self)@.terms, final(self)@.terms, like_terms_added(old(self)@.terms)),
            final(self)@.degree == old(self)@.degree,
            final(self).wf(),
    {
        match add_like(&self.terms) {
            Ok(t) => {
                self.terms = t;
                Ok(())
            },
            Err(e) => Err(e),
        }
    }

    /// Brings the polynomial into canonical form: the outer exponent is
    /// applied where it can be, then the terms are normalized, merged,
    /// cleared of zeros and sorted. The result always has a term.
    pub fn simplify(&mut self) -> (r: Result<(), AlgebraError>)
        requires
            old(self).wf(),
        ensures
            updates_to(r, old(self)@, final(self)@, old(self)@.simplified()),
            final(self).wf(),
            r is Ok ==> final(self)@.terms.len() >= 1,
            r is Ok ==> canonical(final(self)@.terms),
    {
        reveal(PolyView::simplified);
        let n: usize = self.terms.len();
        let ghost all = terms_view(self.terms@);
        let mut raised: Vec<Term> = Vec::new();
        let mut exponent: Rational = self.degree;
        if n == 1 {
            assert(all[0] == self.terms@[0]@);
            assert(all[0].wf());
            if self.degree.is_one() {
                raised = clone_terms(&self.terms);
            } else {
                match self.terms[0].try_pow(self.degree) {
                    Ok(Some(t)) => {
                        raised.push(t);
                        exponent = Rational::one();
                        proof {
                            assert(terms_view(raised@) =~= seq![t@]);
                            lemma_wf_push(Seq::<TermView>::empty(), t@);
                        }
                    },
                    Ok(None) => {
                        raised = clone_terms(&self.terms);
                    },
                    Err(e) => {
                        return Err(e);
                    },
                }
            }
        } else if n >= 2 && self.degree.denom == 1 && self.degree.numer >= 2 {
            match power_term_list(&self.terms, self.degree.numer) {
                Ok(t) => {
                    raised = t;
                    exponent = Rational::one();
                },
                Err(e) => {
                    return Err(e);
                },
            }
        } else {
            raised = clone_terms(&self.terms);
        }
        assert(self@.raised() == Ok::<PolyView, AlgebraError>(
            PolyView { terms: terms_view(raised@), degree: exponent },
        ));
        match canonicalize(&raised) {
            Ok(t) => {
                self.terms = t;
                self.degree = exponent;
                Ok(())
            },
            Err(e) => Err(e),
        }
    }

    /// The sum of the term lists of two polynomials, in canonical form and
    /// under the outer exponent one. An outer exponent that is pending on
    /// an operand is not applied and does not enter the sum.
    pub fn add(&self, rhs: &Polynomial) -> (r: Result<Polynomial, AlgebraError>)
        requires
            self.wf(),
            rhs.wf(),
        ensures
            view_of(r) == self@.sum(rhs@),
            r matches Ok(p) ==> p.wf() && p@.terms.len() >= 1,
            r matches Ok(p) ==> canonical(p@.terms),
    {
        let mut all = clone_terms(&self.terms);
        let mut more = clone_terms(&rhs.terms);
        let ghost left = terms_view(all@);
        let ghost right = terms_view(more@);
        all.append(&mut more);
        proof {
            assert(terms_view(all@) =~= left + right);
            lemma_wf_concat(left, right);
        }
        match canonicalize(&all) {
            Ok(t) => Ok(Polynomial { terms: t, degree: Rational::one() }),
            Err(e) => Err(e),
        }
    }

    /// The polynomial with every coefficient negated.
    pub fn negate(&self) -> (r: Polynomial)
        requires
            self.wf(),
        ensures
            r@ == (PolyView { terms: negated_terms(self@.terms), degree: self@.degree }),
            r.wf(),
    {
        let mut out: Vec<Term> = Vec::new();
        let n: usize = self.terms.len();
        let mut i: usize = 0;
        let ghost all = terms_view(self.terms@);
        while i < n
            invariant
                i <= n,
                n == self.terms@.len(),
                all == terms_view(self.terms@),
                terms_wf(all),
                out@.len() == i,
                forall|k: int|
                    0 <= k < i ==> (#[trigger] out@[k])@ == all[k].negated() && out@[k].wf(),
            decreases n - i,
        {
            assert(all[i as int] == self.terms@[i as int]@);
            assert(all[i as int].wf());
            out.push(self.terms[i].negate());
            i += 1;
        }
        assert(terms_view(out@) =~= negated_terms(all));
        Polynomial { terms: out, degree: self.degree }
    }

    /// The difference of the term lists of two polynomials, in canonical
    /// form and under the outer exponent one. An outer exponent that is
    /// pending on an operand does not enter it.
    pub fn sub(&self, rhs: &Polynomial) -> (r: Result<Polynomial, AlgebraError>)
        requires
            self.wf(),
            rhs.wf(),
        ensures
            view_of(r) == self@.difference(rhs@),
            r matches Ok(p) ==> p.wf() && p@.terms.len() >= 1,
            r matches Ok(p) ==> canonical(p@.terms),
    {
        let minus = rhs.negate();
        self.add(&minus)
    }

    /// The cross product of the term lists of two polynomials, in canonical
    /// form and under the outer exponent one. An outer exponent that is
    /// pending on an operand is not applied and does not enter the product.
    pub fn mul(&self, rhs: &Polynomial) -> (r: Result<Polynomial, AlgebraError>)
        requires
            self.wf(),
            rhs.wf(),
        ensures
            view_of(r) == self@.product(rhs@),
            r matches Ok(p) ==> p.wf() && p@.terms.len() >= 1,
            r matches Ok(p) ==> canonical(p@.terms),
    {
        match multiply_terms(&self.terms, &rhs.terms) {
            Ok(t) => Ok(Polynomial { terms: t, degree: Rational::one() }),
            Err(e) => Err(e),
        }
    }
}

impl TermView {
    /// The product of two terms as a term in canonical form: the product of
    /// the parts, passed through the canonical form of a polynomial of one
    /// term (so a zero product loses its variables).
    pub open spec fn times(self, rhs: TermView) -> Result<TermView, AlgebraError> {
        match self.product(rhs) {
            Ok(t) => match PolyView::single(t).simplified() {
                Ok(p) => Ok(p.terms[0]),
                Err(e) => Err(e),
            },
            Err(e) => Err(e),
        }
    }

    /// The quotient of two terms before the canonical form: the coefficients
    /// divided, the negated variables of the divisor followed by those of
    /// the dividend, sorted and merged.
    pub open spec fn ratio(self, rhs: TermView) -> Result<TermView, AlgebraError> {
        match self.coefficient.spec_div(rhs.coefficient) {
            Ok(c) => (TermView {
                coefficient: c,
                variables: crate::term::negated_degrees(rhs.variables) + self.variables,
            }).sorted().merged(),
            Err(e) => Err(e),
        }
    }

    /// The quotient of two terms as a polynomial in canonical form.
    pub open spec fn over(self, rhs: TermView) -> Result<PolyView, AlgebraError> {
        match self.ratio(rhs) {
            Ok(t) => PolyView::single(t).simplified(),
            Err(e) => Err(e),
        }
    }
}

impl Term {
    /// The product of two terms, in canonical form.
    pub fn mul(&self, rhs: &Term) -> (r: Result<Term, AlgebraError>)
        requires
            self.wf(),
            rhs.wf(),
        ensures
            view_of(r) == self@.times(rhs@),
            r matches Ok(t) ==> t.wf(),
    {
        let t = match self.product(rhs) {
            Ok(t) => t,
            Err(e) => {
                return Err(e);
            },
        };
        let mut p = Polynomial::from_term(t);
        match p.simplify() {
            Ok(()) => {
                assert(terms_view(p.terms@)[0] == p.terms@[0]@);
                Ok(p.terms[0].clone())
            },
            Err(e) => Err(e),
        }
    }

    /// The quotient of two terms, as a polynomial in canonical form. A
    /// divisor with the coefficient zero has none.
    pub fn div(&self, rhs: &Term) -> (r: Result<Polynomial, AlgebraError>)
        requires
            self.wf(),
            rhs.wf(),
        ensures
            view_of(r) == self@.over(rhs@),
            r matches Ok(p) ==> p.wf() && p@.terms.len() >= 1,
    {
        let c = match self.coefficient.checked_div(rhs.coefficient) {
            Ok(c) => c,
            Err(e) => {
                return Err(e);
            },
        };
        let mut vars: Vec<crate::term::Variable> = Vec::new();
        let n: usize = rhs.variables.len();
        let mut i: usize = 0;
        let ghost rv = vars_view(rhs.variables@);
        while i < n
            invariant
                i <= n,
                n == rhs.variables@.len(),
                rv == vars_view(rhs.variables@),
                rhs.wf(),
                vars@.len() == i,
                forall|k: int|
                    0 <= k < i ==> (#[trigger] vars@[k])@ == (VarView {
                        name: rv[k].name,
                        degree: rv[k].degree.spec_neg(),
                    }) && vars@[k].degree.wf(),
            decreases n - i,
        {
            assert(rv[i as int] == rhs.variables@[i as int]@);
            assert(rv[i as int].degree.wf());
            vars.push(
                crate::term::Variable {
                    name: rhs.variables[i].name.clone(),
                    degree: rhs.variables[i].degree.neg(),
                },
            );
            i += 1;
        }
        let ghost left = vars_view(vars@);
        assert(left =~= crate::term::negated_degrees(rv));
        let mut more = crate::term::clone_vars(&self.variables);
        let ghost right = vars_view(more@);
        vars.append(&mut more);
        proof {
            assert(vars_view(vars@) =~= left + right);
            assert forall|k: int| 0 <= k < (left + right).len() implies (#[trigger] (left
                + right)[k]).degree.wf() by {
                if k < left.len() {
                    assert((left + right)[k] == left[k]);
                    assert(left[k] == vars@[k]@);
                } else {
                    assert((left + right)[k] == right[k - left.len()]);
                }
            }
        }
        let mut t = Term { coefficient: c, variables: vars };
        t.sort_vars();
        proof {
            lemma_sort_keeps_wf(left + right);
        }
        match t.factor() {
            Ok(()) => {},
            Err(e) => {
                return Err(e);
            },
        }
        let mut p = Polynomial::from_term(t);
        match p.simplify() {
            Ok(()) => Ok(p),
            Err(e) => Err(e),
        }
    }
}

/// The result with its name, if any, replaced by its text.
pub open spec fn name_view(r: Result<Option<String>, AlgebraError>) -> Result<
    Option<Seq<char>>,
    AlgebraError,
> {
    match r {
        Ok(Some(s)) => Ok(Some(s@)),
        Ok(None) => Ok(None),
        Err(e) => Err(e),
    }
}

impl PolyView {
    /// The name of the first variable of the first term; `None` where that
    /// term has no variable. A polynomial without terms has no first term.
    pub open spec fn first_name(self) -> Result<Option<Seq<char>>, AlgebraError> {
        if self.terms.len() == 0 {
            Err(AlgebraError::InvalidState)
        } else if self.terms[0].variables.len() == 0 {
            Ok(None)
        } else {
            Ok(Some(self.terms[0].variables[0].name))
        }
    }

    /// Whether the two polynomials have the same terms once both are in
    /// canonical form.
    pub open spec fn same(self, rhs: PolyView) -> Result<bool, AlgebraError> {
        match self.simplified() {
            Ok(a) => match rhs.simplified() {
                Ok(b) => Ok(a.terms == b.terms),
                Err(e) => Err(e),
            },
            Err(e) => Err(e),
        }
    }
}

/// Whether the two lists hold the same terms in the same order.
pub fn terms_equal(a: &Vec<Term>, b: &Vec<Term>) -> (r: bool)
    ensures
        r == (terms_view(a@) == terms_view(b@)),
{
    let n: usize = a.len();
    if n != b.len() {
        assert(terms_view(a@).len() != terms_view(b@).len());
        return false;
    }
    let mut i: usize = 0;
    while i < n
        invariant
            i <= n,
            n == a@.len(),
            n == b@.len(),
            forall|k: int| 0 <= k < i ==> terms_view(a@)[k] == terms_view(b@)[k],
        decreases n - i,
    {
        assert(terms_view(a@)[i as int] == a@[i as int]@);
        assert(terms_view(b@)[i as int] == b@[i as int]@);
        if a[i].coefficient != b[i].coefficient || !vars_equal(&a[i].variables, &b[i].variables) {
            return false;
        }
        i += 1;
    }
    assert(terms_view(a@) =~= terms_view(b@));
    true
}

impl Term {
    /// Whether the two terms have the same coefficient and, once sorted by
    /// name, the same variables.
    pub fn equals(&self, rhs: &Term) -> (r: bool)
        ensures
            r == (self@.sorted() == rhs@.sorted()),
    {
        let mut a = self.clone();
        a.sort_vars();
        let mut b = rhs.clone();
        b.sort_vars();
        a.coefficient == b.coefficient && vars_equal(&a.variables, &b.variables)
    }
}

impl Polynomial {
    /// The name of the first variable of the first term.
    pub fn first_var(&self) -> (r: Result<Option<String>, AlgebraError>)
        ensures
            name_view(r) == self@.first_name(),
    {
        if self.terms.len() == 0 {
            return Err(AlgebraError::InvalidState);
        }
        assert(terms_view(self.terms@)[0] == self.terms@[0]@);
        if self.terms[0].variables.len() == 0 {
            Ok(None)
        } else {
            assert(vars_view(self.terms@[0].variables@)[0] == self.terms@[0].variables@[0]@);
            Ok(Some(self.terms[0].variables[0].name.clone()))
        }
    }

    /// Whether the two polynomials have the same terms once both are in
    /// canonical form.
    pub fn equals(&self, rhs: &Polynomial) -> (r: Result<bool, AlgebraError>)
        requires
            self.wf(),
            rhs.wf(),
        ensures
            r == self@.same(rhs@),
    {
        let mut a = self.clone();
        match a.simplify() {
            Ok(()) => {},
            Err(e) => {
                return Err(e);
            },
        }
        let mut b = rhs.clone();
        match b.simplify() {
            Ok(()) => {},
            Err(e) => {
                return Err(e);
            },
        }
        Ok(terms_equal(&a.terms, &b.terms))
    }
}

impl PartialEq for Term {
    fn eq(&self, other: &Self) -> (r: bool) {
        self.equals(other)
    }
}

impl vstd::std_specs::cmp::PartialEqSpecImpl for Term {
    open spec fn obeys_eq_spec() -> bool {
        true
    }

    open spec fn eq_spec(&self, other: &Self) -> bool {
        self@.sorted() == other@.sorted()
    }
}

impl PartialEq for Polynomial {
    fn eq(&self, other: &Self) -> (r: bool) {
        if self.is_wf() && other.is_wf() {
            match self.equals(other) {
                Ok(b) => b,
                Err(_) => false,
            }
        } else {
            false
        }
    }
}

impl vstd::std_specs::cmp::PartialEqSpecImpl for Polynomial {
    open spec fn obeys_eq_spec() -> bool {
        true
    }

    open spec fn eq_spec(&self, other: &Self) -> bool {
        self@.wf() && other@.wf() && self@.same(other@) == Ok::<bool, AlgebraError>(true)
    }
}

} // verus!
