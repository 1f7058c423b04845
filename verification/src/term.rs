//! Variables and terms: a coefficient times named variables raised to
//! fractional degrees.

use crate::error::AlgebraError;
use crate::fold::{lemma_try_fold_err, lemma_try_fold_step, lemma_try_map_err, lemma_try_map_step, try_fold, try_map, updates_to, view_of};
use crate::order::{insertion_sort, lemma_insert_position, name_lt, text_lt};
use crate::power::Power;
use crate::rational::Rational;
use vstd::prelude::*;

verus! {

/// A named variable raised to a degree.
#[derive(Debug)]
pub struct Variable {
    pub name: String,
    pub degree: Rational,
}

/// What a `Variable` stands for.
pub struct VarView {
    pub name: Seq<char>,
    pub degree: Rational,
}

/// A coefficient times a product of variables.
#[derive(Debug)]
pub struct Term {
    pub coefficient: Rational,
    pub variables: Vec<Variable>,
}

/// What a `Term` stands for.
pub struct TermView {
    pub coefficient: Rational,
    pub variables: Seq<VarView>,
}

impl View for Variable {
    type V = VarView;

    open spec fn view(&self) -> VarView {
        VarView { name: self.name@, degree: self.degree }
    }
}

/// The views of a sequence of variables, in order.
pub open spec fn vars_view(s: Seq<Variable>) -> Seq<VarView> {
    Seq::new(s.len(), |i: int| s[i]@)
}

impl View for Term {
    type V = TermView;

    open spec fn view(&self) -> TermView {
        TermView { coefficient: self.coefficient, variables: vars_view(self.variables@) }
    }
}

/// The order of variables by name alone.
pub open spec fn by_name() -> spec_fn(VarView, VarView) -> bool {
    |a: VarView, b: VarView| text_lt(a.name, b.name)
}

/// Every degree is a fraction in lowest terms.
pub open spec fn vars_wf(vars: Seq<VarView>) -> bool {
    forall|i: int| 0 <= i < vars.len() ==> (#[trigger] vars[i]).degree.wf()
}

/// The greatest degree among the variables; zero where there is none.
pub open spec fn max_degree_of(vars: Seq<VarView>) -> Rational
    decreases vars.len(),
{
    if vars.len() == 0 {
        Rational::spec_zero()
    } else if vars.len() == 1 {
        vars[0].degree
    } else {
        max_degree_of(vars.drop_last()).spec_max(vars.last().degree)
    }
}

/// The first position that holds `name`, or -1.
pub open spec fn index_of_name(vars: Seq<VarView>, name: Seq<char>) -> int
    decreases vars.len(),
{
    if vars.len() == 0 {
        -1
    } else {
        let i = index_of_name(vars.drop_last(), name);
        if i >= 0 {
            i
        } else if vars.last().name == name {
            vars.len() - 1
        } else {
            -1
        }
    }
}

/// `v` taken into `acc`: its degree is added to the first variable of its
/// name, or it is appended where there is none.
pub open spec fn absorb_var(acc: Seq<VarView>, v: VarView) -> Result<Seq<VarView>, AlgebraError> {
    let i = index_of_name(acc, v.name);
    if i < 0 {
        Ok(acc.push(v))
    } else {
        match acc[i].degree.spec_add(v.degree) {
            Ok(d) => Ok(acc.update(i, VarView { name: acc[i].name, degree: d })),
            Err(e) => Err(e),
        }
    }
}

/// `absorb_var` as a step.
pub open spec fn absorb() -> spec_fn(Seq<VarView>, VarView) -> Result<Seq<VarView>, AlgebraError> {
    |acc: Seq<VarView>, v: VarView| absorb_var(acc, v)
}

/// One variable per name, in order of first occurrence, with the degrees of
/// equal names added from left to right.
pub open spec fn merge_names(vars: Seq<VarView>) -> Result<Seq<VarView>, AlgebraError> {
    try_fold(vars, Seq::<VarView>::empty(), absorb())
}

/// The variables whose degree is not zero, in order.
pub open spec fn nonzero_degrees(vars: Seq<VarView>) -> Seq<VarView>
    decreases vars.len(),
{
    if vars.len() == 0 {
        vars
    } else if vars.last().degree.numer != 0 {
        nonzero_degrees(vars.drop_last()).push(vars.last())
    } else {
        nonzero_degrees(vars.drop_last())
    }
}

/// Every degree negated.
pub open spec fn negated_degrees(vars: Seq<VarView>) -> Seq<VarView> {
    Seq::new(vars.len(), |i: int| VarView { name: vars[i].name, degree: vars[i].degree.spec_neg() })
}

/// The variable with its degree multiplied by `q`.
pub open spec fn scale_var(v: VarView, q: Rational) -> Result<VarView, AlgebraError> {
    match v.degree.spec_mul(q) {
        Ok(d) => Ok(VarView { name: v.name, degree: d }),
        Err(e) => Err(e),
    }
}

/// `scale_var` by `q` as a step.
pub open spec fn scale_by(q: Rational) -> spec_fn(VarView) -> Result<VarView, AlgebraError> {
    |v: VarView| scale_var(v, q)
}

/// Every degree multiplied by `q`, from left to right.
pub open spec fn scaled_degrees(vars: Seq<VarView>, q: Rational) -> Result<
    Seq<VarView>,
    AlgebraError,
> {
    try_map(vars, scale_by(q))
}

/// The order of variables: by name, then by degree.
pub open spec fn var_lt(a: VarView, b: VarView) -> bool {
    text_lt(a.name, b.name) || (a.name == b.name && a.degree.spec_lt(b.degree))
}

/// Lexicographic order of variable lists; a proper prefix comes first.
pub open spec fn vars_lt(a: Seq<VarView>, b: Seq<VarView>) -> bool
    decreases a.len(),
{
    if b.len() == 0 {
        false
    } else if a.len() == 0 {
        true
    } else if var_lt(a[0], b[0]) {
        true
    } else if var_lt(b[0], a[0]) {
        false
    } else {
        vars_lt(a.skip(1), b.skip(1))
    }
}

/// The result with its term, if any, replaced by its view.
pub open spec fn option_view(r: Result<Option<Term>, AlgebraError>) -> Result<
    Option<TermView>,
    AlgebraError,
> {
    match r {
        Ok(Some(t)) => Ok(Some(t@)),
        Ok(None) => Ok(None),
        Err(e) => Err(e),
    }
}

/// The result with its variables replaced by their views.
pub open spec fn vars_result(r: Result<Vec<Variable>, AlgebraError>) -> Result<
    Seq<VarView>,
    AlgebraError,
> {
    match r {
        Ok(v) => Ok(vars_view(v@)),
        Err(e) => Err(e),
    }
}

/// What `index_of_name` finds: the first position of the name, or -1 where
/// the name does not occur.
pub proof fn lemma_index_of_name(vars: Seq<VarView>, name: Seq<char>)
    ensures
        -1 <= index_of_name(vars, name) < vars.len(),
        index_of_name(vars, name) >= 0 ==> vars[index_of_name(vars, name)].name == name,
        forall|k: int|
            0 <= k < vars.len() && (k < index_of_name(vars, name) || index_of_name(vars, name) < 0)
                ==> (#[trigger] vars[k]).name != name,
    decreases vars.len(),
{
    if vars.len() > 0 {
        lemma_index_of_name(vars.drop_last(), name);
        assert forall|k: int|
            0 <= k < vars.len() && (k < index_of_name(vars, name) || index_of_name(vars, name)
                < 0) implies (#[trigger] vars[k]).name != name by {
            if k < vars.len() - 1 {
                assert(vars.drop_last()[k] == vars[k]);
            }
        }
    }
}

impl VarView {
    pub open spec fn wf(self) -> bool {
        self.degree.wf()
    }
}

impl TermView {
    /// The coefficient and every degree are fractions in lowest terms.
    pub open spec fn wf(self) -> bool {
        self.coefficient.wf() && vars_wf(self.variables)
    }

    /// The greatest degree among the variables; zero where there is none.
    pub open spec fn max_degree(self) -> Rational {
        max_degree_of(self.variables)
    }

    /// The variables sorted by name, equal names in their old order.
    pub open spec fn sorted(self) -> TermView {
        TermView {
            coefficient: self.coefficient,
            variables: insertion_sort(self.variables, by_name()),
        }
    }

    /// Equal names merged into one variable by adding their degrees, and
    /// variables of degree zero dropped.
    pub open spec fn merged(self) -> Result<TermView, AlgebraError> {
        match merge_names(self.variables) {
            Ok(m) => Ok(TermView { coefficient: self.coefficient, variables: nonzero_degrees(m) }),
            Err(e) => Err(e),
        }
    }

    /// The reciprocal: the coefficient inverted and every degree negated.
    pub open spec fn inverse(self) -> Result<TermView, AlgebraError> {
        match self.coefficient.spec_recip() {
            Ok(c) => Ok(TermView { coefficient: c, variables: negated_degrees(self.variables) }),
            Err(e) => Err(e),
        }
    }

    /// The term to the power `q` where the power of the coefficient is an
    /// exact fraction: that power, and every degree times `q`. `None` where
    /// it is not.
    pub open spec fn try_power(self, q: Rational) -> Result<Option<TermView>, AlgebraError> {
        match self.coefficient.spec_pow(q) {
            Ok(Power::Exact(c)) => match scaled_degrees(self.variables, q) {
                Ok(v) => Ok(Some(TermView { coefficient: c, variables: v })),
                Err(e) => Err(e),
            },
            Ok(Power::Inexact) => Ok(None),
            Err(e) => Err(e),
        }
    }

    /// The term to the power `q`, or the term itself where the power of its
    /// coefficient is no exact fraction.
    pub open spec fn power(self, q: Rational) -> Result<TermView, AlgebraError> {
        match self.try_power(q) {
            Ok(Some(t)) => Ok(t),
            Ok(None) => Ok(self),
            Err(e) => Err(e),
        }
    }

    /// The product of two terms: the coefficients multiplied, the variables of
    /// both sorted by name and merged.
    pub open spec fn product(self, rhs: TermView) -> Result<TermView, AlgebraError> {
        match self.coefficient.spec_mul(rhs.coefficient) {
            Ok(c) => (TermView { coefficient: c, variables: self.variables + rhs.variables }).sorted().merged(),
            Err(e) => Err(e),
        }
    }

    /// The term with its coefficient negated.
    pub open spec fn negated(self) -> TermView {
        TermView { coefficient: self.coefficient.spec_neg(), variables: self.variables }
    }

    /// The term with its coefficient multiplied by `q`.
    pub open spec fn scaled(self, q: Rational) -> Result<TermView, AlgebraError> {
        match self.coefficient.spec_mul(q) {
            Ok(c) => Ok(TermView { coefficient: c, variables: self.variables }),
            Err(e) => Err(e),
        }
    }

    /// The term of coefficient zero without variables.
    pub open spec fn zero() -> TermView {
        TermView { coefficient: Rational::spec_zero(), variables: Seq::empty() }
    }

    /// The term of coefficient `c` without variables.
    pub open spec fn constant(c: Rational) -> TermView {
        TermView { coefficient: c, variables: Seq::empty() }
    }
}

impl Variable {
    pub open spec fn wf(&self) -> bool {
        self.degree.wf()
    }

    /// A variable of the given name and degree.
    pub fn new(name: &str, degree: Rational) -> (v: Variable)
        ensures
            v@ == (VarView { name: name@, degree: degree }),
    {
        Variable { name: String::from_str(name), degree }
    }
}

impl Clone for Variable {
    fn clone(&self) -> (r: Self)
        ensures
            r == *self,
    {
        Variable { name: self.name.clone(), degree: self.degree }
    }
}

/// A copy of the variables.
pub fn clone_vars(vars: &Vec<Variable>) -> (r: Vec<Variable>)
    ensures
        vars_view(r@) == vars_view(vars@),
        r@.len() == vars@.len(),
{
    let mut out: Vec<Variable> = Vec::new();
    let n: usize = vars.len();
    let mut i: usize = 0;
    while i < n
        invariant
            i <= n,
            n == vars.len(),
            out@.len() == i,
            forall|k: int| 0 <= k < i ==> out@[k] == vars@[k],
        decreases n - i,
    {
        out.push(vars[i].clone());
        i += 1;
    }
    assert(vars_view(out@) =~= vars_view(vars@));
    out
}

impl Clone for Term {
    fn clone(&self) -> (r: Self)
        ensures
            r@ == self@,
    {
        Term { coefficient: self.coefficient, variables: clone_vars(&self.variables) }
    }
}

impl Term {
    pub open spec fn wf(&self) -> bool {
        self@.wf()
    }

    /// The greatest degree among the variables; zero where there is none.
    pub fn max_degree(&self) -> (r: Rational)
        requires
            self.wf(),
        ensures
            r == self@.max_degree(),
            r.wf(),
    {
        let n: usize = self.variables.len();
        if n == 0 {
            return Rational::zero();
        }
        assert(vars_view(self.variables@)[0] == self.variables@[0]@);
        let mut best: Rational = self.variables[0].degree;
        let mut i: usize = 1;
        assert(vars_view(self.variables@).take(1).len() == 1);
        while i < n
            invariant
                1 <= i <= n,
                n == self.variables.len(),
                self.wf(),
                best.wf(),
                best == max_degree_of(vars_view(self.variables@).take(i as int)),
            decreases n - i,
        {
            let ghost all = vars_view(self.variables@);
            assert(all.take(i + 1).drop_last() =~= all.take(i as int));
            assert(all[i as int] == self.variables@[i as int]@);
            best = best.max(self.variables[i].degree);
            i += 1;
        }
        assert(vars_view(self.variables@).take(n as int) =~= vars_view(self.variables@));
        best
    }

    /// Sorts the variables by name; variables of one name keep their order.
    pub fn sort_vars(&mut self)
        ensures
            final(self)@ == old(self)@.sorted(),
    {
        let mut out: Vec<Variable> = Vec::new();
        let n: usize = self.variables.len();
        let mut i: usize = 0;
        let ghost all = vars_view(self.variables@);
        assert(all.take(0) =~= Seq::<VarView>::empty());
        while i < n
            invariant
                i <= n,
                n == self.variables.len(),
                all == vars_view(self.variables@),
                *self == *old(self),
                vars_view(out@) == insertion_sort(all.take(i as int), by_name()),
            decreases n - i,
        {
            let v = self.variables[i].clone();
            let mut j: usize = out.len();
            while j > 0 && name_lt(&v.name, &out[j - 1].name)
                invariant
                    j <= out.len(),
                    forall|k: int| j <= k < out.len() ==> text_lt(v.name@, (#[trigger] out@[k]).name@),
                decreases j,
            {
                j -= 1;
            }
            proof {
                let placed = vars_view(out@);
                assert forall|k: int| j <= k < placed.len() implies by_name()(
                    v@,
                    #[trigger] placed[k],
                ) by {
                    assert(placed[k] == out@[k]@);
                }
                if j > 0 {
                    assert(placed[j - 1] == out@[j - 1]@);
                }
                lemma_insert_position(placed, v@, by_name(), j as int);
                assert(all.take(i + 1).drop_last() =~= all.take(i as int));
                assert(all.take(i + 1).last() == v@);
                assert(vars_view(out@.insert(j as int, v)) =~= placed.insert(j as int, v@));
            }
            out.insert(j, v);
            i += 1;
        }
        assert(all.take(n as int) =~= all);
        self.variables = out;
    }
}

/// The first position in `vars` that holds `name`.
pub fn find_name(vars: &Vec<Variable>, name: &String) -> (r: Option<usize>)
    ensures
        r matches Some(i) ==> i < vars@.len() && index_of_name(vars_view(vars@), name@) == i,
        r is None ==> index_of_name(vars_view(vars@), name@) == -1,
{
    let n: usize = vars.len();
    let mut j: usize = 0;
    let ghost all = vars_view(vars@);
    while j < n
        invariant
            j <= n,
            n == vars@.len(),
            all == vars_view(vars@),
            forall|k: int| 0 <= k < j ==> (#[trigger] all[k]).name != name@,
        decreases n - j,
    {
        assert(all[j as int] == vars@[j as int]@);
        if vars[j].name == *name {
            proof {
                lemma_index_of_name(all, name@);
            }
            return Some(j);
        }
        j += 1;
    }
    proof {
        lemma_index_of_name(all, name@);
    }
    None
}

/// One variable per name, with the degrees of equal names added.
pub fn merge_var_names(vars: &Vec<Variable>) -> (r: Result<Vec<Variable>, AlgebraError>)
    requires
        vars_wf(vars_view(vars@)),
    ensures
        vars_result(r) == merge_names(vars_view(vars@)),
        r matches Ok(v) ==> vars_wf(vars_view(v@)),
{
    let mut acc: Vec<Variable> = Vec::new();
    let n: usize = vars.len();
    let mut i: usize = 0;
    let ghost all = vars_view(vars@);
    assert(all.take(0) =~= Seq::<VarView>::empty());
    assert(vars_view(acc@) =~= Seq::<VarView>::empty());
    while i < n
        invariant
            i <= n,
            n == vars@.len(),
            all == vars_view(vars@),
            vars_wf(all),
            vars_wf(vars_view(acc@)),
            try_fold(all.take(i as int), Seq::<VarView>::empty(), absorb()) == Ok::<
                Seq<VarView>,
                AlgebraError,
            >(vars_view(acc@)),
        decreases n - i,
    {
        let ghost before = vars_view(acc@);
        proof {
            lemma_try_fold_step(all, Seq::<VarView>::empty(), absorb(), i as int);
            assert(all[i as int] == vars@[i as int]@);
            assert(all[i as int].degree.wf());
        }
        match find_name(&acc, &vars[i].name) {
            Some(j) => {
                assert(before[j as int] == acc@[j as int]@);
                assert(before[j as int].degree.wf());
                match acc[j].degree.checked_add(vars[i].degree) {
                    Ok(d) => {
                        let name = acc[j].name.clone();
                        acc.set(j, Variable { name, degree: d });
                        proof {
                            assert(vars_view(acc@) =~= before.update(
                                j as int,
                                VarView { name: before[j as int].name, degree: d },
                            ));
                            assert forall|k: int| 0 <= k < vars_view(acc@).len() implies (
                            #[trigger] vars_view(acc@)[k]).degree.wf() by {
                                if k != j {
                                    assert(vars_view(acc@)[k] == before[k]);
                                }
                            }
                        }
                    },
                    Err(e) => {
                        proof {
                            lemma_try_fold_err(all, Seq::<VarView>::empty(), absorb(), i + 1);
                        }
                        return Err(e);
                    },
                }
            },
            None => {
                acc.push(vars[i].clone());
                proof {
                    assert(vars_view(acc@) =~= before.push(all[i as int]));
                    assert forall|k: int| 0 <= k < vars_view(acc@).len() implies (
                    #[trigger] vars_view(acc@)[k]).degree.wf() by {
                        if k < before.len() {
                            assert(vars_view(acc@)[k] == before[k]);
                        }
                    }
                }
            },
        }
        i += 1;
    }
    assert(all.take(n as int) =~= all);
    Ok(acc)
}

/// The variables whose degree is not zero.
pub fn drop_zero_degrees(vars: &Vec<Variable>) -> (r: Vec<Variable>)
    ensures
        vars_view(r@) == nonzero_degrees(vars_view(vars@)),
        vars_wf(vars_view(vars@)) ==> vars_wf(vars_view(r@)),
{
    let mut out: Vec<Variable> = Vec::new();
    let n: usize = vars.len();
    let mut i: usize = 0;
    let ghost all = vars_view(vars@);
    assert(all.take(0) =~= Seq::<VarView>::empty());
    assert(vars_view(out@) =~= Seq::<VarView>::empty());
    while i < n
        invariant
            i <= n,
            n == vars@.len(),
            all == vars_view(vars@),
            vars_view(out@) == nonzero_degrees(all.take(i as int)),
            vars_wf(all) ==> vars_wf(vars_view(out@)),
        decreases n - i,
    {
        let ghost before = vars_view(out@);
        proof {
            assert(all.take(i + 1).drop_last() =~= all.take(i as int));
            assert(all[i as int] == vars@[i as int]@);
        }
        if vars[i].degree.numer != 0 {
            out.push(vars[i].clone());
            proof {
                assert(vars_view(out@) =~= before.push(all[i as int]));
                if vars_wf(all) {
                    assert forall|k: int| 0 <= k < vars_view(out@).len() implies (
                    #[trigger] vars_view(out@)[k]).degree.wf() by {
                        if k < before.len() {
                            assert(vars_view(out@)[k] == before[k]);
                        }
                    }
                }
            }
        }
        i += 1;
    }
    assert(all.take(n as int) =~= all);
    out
}

/// Whether the two lists hold the same variables in the same order.
pub fn vars_equal(a: &Vec<Variable>, b: &Vec<Variable>) -> (r: bool)
    ensures
        r == (vars_view(a@) == vars_view(b@)),
{
    let n: usize = a.len();
    if n != b.len() {
        assert(vars_view(a@).len() != vars_view(b@).len());
        return false;
    }
    let mut i: usize = 0;
    while i < n
        invariant
            i <= n,
            n == a@.len(),
            n == b@.len(),
            forall|k: int| 0 <= k < i ==> vars_view(a@)[k] == vars_view(b@)[k],
        decreases n - i,
    {
        assert(vars_view(a@)[i as int] == a@[i as int]@);
        assert(vars_view(b@)[i as int] == b@[i as int]@);
        if !(a[i].name == b[i].name) || a[i].degree != b[i].degree {
            return false;
        }
        i += 1;
    }
    assert(vars_view(a@) =~= vars_view(b@));
    true
}

/// Whether `a` comes before `b` in the order of variables.
pub fn variable_lt(a: &Variable, b: &Variable) -> (r: bool)
    requires
        a.wf(),
        b.wf(),
    ensures
        r == var_lt(a@, b@),
{
    if name_lt(&a.name, &b.name) {
        true
    } else if a.name == b.name {
        a.degree.lt(b.degree)
    } else {
        false
    }
}

/// Whether `a` comes before `b` in the lexicographic order of variable lists.
pub fn variables_lt(a: &Vec<Variable>, b: &Vec<Variable>) -> (r: bool)
    requires
        vars_wf(vars_view(a@)),
        vars_wf(vars_view(b@)),
    ensures
        r == vars_lt(vars_view(a@), vars_view(b@)),
{
    let ghost va = vars_view(a@);
    let ghost vb = vars_view(b@);
    let mut i: usize = 0;
    assert(va.skip(0) =~= va);
    assert(vb.skip(0) =~= vb);
    loop
        invariant
            i <= a@.len(),
            i <= b@.len(),
            va == vars_view(a@),
            vb == vars_view(b@),
            vars_wf(va),
            vars_wf(vb),
            vars_lt(va, vb) == vars_lt(va.skip(i as int), vb.skip(i as int)),
        decreases a@.len() - i,
    {
        if i >= b.len() {
            return false;
        }
        if i >= a.len() {
            return true;
        }
        proof {
            assert(va[i as int] == a@[i as int]@);
            assert(vb[i as int] == b@[i as int]@);
            assert(va[i as int].degree.wf());
            assert(vb[i as int].degree.wf());
            assert(va.skip(i as int)[0] == va[i as int]);
            assert(vb.skip(i as int)[0] == vb[i as int]);
            assert(va.skip(i as int).skip(1) =~= va.skip(i + 1));
            assert(vb.skip(i as int).skip(1) =~= vb.skip(i + 1));
        }
        if variable_lt(&a[i], &b[i]) {
            return true;
        }
        if variable_lt(&b[i], &a[i]) {
            return false;
        }
        i += 1;
    }
}

/// Whether every degree is a fraction in lowest terms.
pub fn vars_are_wf(vars: &Vec<Variable>) -> (b: bool)
    ensures
        b == vars_wf(vars_view(vars@)),
{
    let n: usize = vars.len();
    let mut i: usize = 0;
    while i < n
        invariant
            i <= n,
            n == vars@.len(),
            forall|k: int| 0 <= k < i ==> (#[trigger] vars_view(vars@)[k]).degree.wf(),
        decreases n - i,
    {
        assert(vars_view(vars@)[i as int] == vars@[i as int]@);
        if !vars[i].degree.is_wf() {
            return false;
        }
        i += 1;
    }
    true
}

impl Term {
    /// Whether the coefficient and every degree are fractions in lowest
    /// terms.
    pub fn is_wf(&self) -> (b: bool)
        ensures
            b == self.wf(),
    {
        self.coefficient.is_wf() && vars_are_wf(&self.variables)
    }

    /// The term with the given coefficient and no variables.
    pub fn constant(c: Rational) -> (t: Term)
        ensures
            t@ == TermView::constant(c),
    {
        let t = Term { coefficient: c, variables: Vec::new() };
        assert(t@.variables =~= Seq::<VarView>::empty());
        t
    }

    /// Merges the variables of equal name by adding their degrees, in order
    /// of first occurrence, and drops the variables of degree zero.
    pub fn factor(&mut self) -> (r: Result<(), AlgebraError>)
        requires
            old(self).wf(),
        ensures
            updates_to(r, old(self)@, final(self)@, old(self)@.merged()),
            final(self).wf(),
    {
        match merge_var_names(&self.variables) {
            Ok(m) => {
                self.variables = drop_zero_degrees(&m);
                Ok(())
            },
            Err(e) => Err(e),
        }
    }

    /// Turns the term into its reciprocal: the coefficient is inverted and
    /// every degree negated. A zero coefficient has none.
    pub fn invert(&mut self) -> (r: Result<(), AlgebraError>)
        requires
            old(self).wf(),
        ensures
            updates_to(r, old(self)@, final(self)@, old(self)@.inverse()),
            final(self).wf(),
    {
        let c = match self.coefficient.recip() {
            Ok(c) => c,
            Err(e) => {
                return Err(e);
            },
        };
        let mut out: Vec<Variable> = Vec::new();
        let n: usize = self.variables.len();
        let mut i: usize = 0;
        let ghost all = vars_view(self.variables@);
        while i < n
            invariant
                i <= n,
                n == self.variables@.len(),
                all == vars_view(self.variables@),
                *self == *old(self),
                self.wf(),
                out@.len() == i,
                forall|k: int|
                    0 <= k < i ==> (#[trigger] out@[k])@ == (VarView {
                        name: all[k].name,
                        degree: all[k].degree.spec_neg(),
                    }) && out@[k].degree.wf(),
            decreases n - i,
        {
            assert(all[i as int] == self.variables@[i as int]@);
            assert(all[i as int].degree.wf());
            let v = Variable {
                name: self.variables[i].name.clone(),
                degree: self.variables[i].degree.neg(),
            };
            out.push(v);
            i += 1;
        }
        assert(vars_view(out@) =~= negated_degrees(all));
        self.coefficient = c;
        self.variables = out;
        Ok(())
    }

    /// The term to the power `q` where the power of the coefficient is an
    /// exact fraction: `None` where it is not.
    pub fn try_pow(&self, q: Rational) -> (r: Result<Option<Term>, AlgebraError>)
        requires
            self.wf(),
            q.wf(),
        ensures
            option_view(r) == self@.try_power(q),
            r matches Ok(Some(t)) ==> t.wf(),
    {
        let c = match self.coefficient.checked_pow(q) {
            Ok(Power::Exact(c)) => c,
            Ok(Power::Inexact) => {
                return Ok(None);
            },
            Err(e) => {
                return Err(e);
            },
        };
        let mut out: Vec<Variable> = Vec::new();
        let n: usize = self.variables.len();
        let mut i: usize = 0;
        let ghost all = vars_view(self.variables@);
        assert(all.take(0) =~= Seq::<VarView>::empty());
        assert(vars_view(out@) =~= Seq::<VarView>::empty());
        while i < n
            invariant
                i <= n,
                n == self.variables@.len(),
                all == vars_view(self.variables@),
                self.wf(),
                q.wf(),
                self.coefficient.spec_pow(q) == Ok::<Power, AlgebraError>(Power::Exact(c)),
                vars_wf(vars_view(out@)),
                try_map(all.take(i as int), scale_by(q)) == Ok::<Seq<VarView>, AlgebraError>(
                    vars_view(out@),
                ),
            decreases n - i,
        {
            let ghost before = vars_view(out@);
            proof {
                lemma_try_map_step(all, scale_by(q), i as int);
                assert(all[i as int] == self.variables@[i as int]@);
                assert(all[i as int].degree.wf());
            }
            match self.variables[i].degree.checked_mul(q) {
                Ok(d) => {
                    out.push(Variable { name: self.variables[i].name.clone(), degree: d });
                    proof {
                        assert(vars_view(out@) =~= before.push(
                            VarView { name: all[i as int].name, degree: d },
                        ));
                        assert forall|k: int| 0 <= k < vars_view(out@).len() implies (
                        #[trigger] vars_view(out@)[k]).degree.wf() by {
                            if k < before.len() {
                                assert(vars_view(out@)[k] == before[k]);
                            }
                        }
                    }
                },
                Err(e) => {
                    proof {
                        lemma_try_map_err(all, scale_by(q), i + 1);
                    }
                    return Err(e);
                },
            }
            i += 1;
        }
        assert(all.take(n as int) =~= all);
        Ok(Some(Term { coefficient: c, variables: out }))
    }

    /// The term to the power `q`: the coefficient to that power and every
    /// degree times `q`. Where the power of the coefficient is no exact
    /// fraction, the term is returned as it is.
    pub fn pow(&self, q: Rational) -> (r: Result<Term, AlgebraError>)
        requires
            self.wf(),
            q.wf(),
        ensures
            view_of(r) == self@.power(q),
            r matches Ok(t) ==> t.wf(),
    {
        match self.try_pow(q) {
            Ok(Some(t)) => Ok(t),
            Ok(None) => Ok(self.clone()),
            Err(e) => Err(e),
        }
    }

    /// The product of two terms, with the variables of both sorted by name
    /// and merged.
    pub fn product(&self, rhs: &Term) -> (r: Result<Term, AlgebraError>)
        requires
            self.wf(),
            rhs.wf(),
        ensures
            view_of(r) == self@.product(rhs@),
            r matches Ok(t) ==> t.wf(),
    {
        let c = match self.coefficient.checked_mul(rhs.coefficient) {
            Ok(c) => c,
            Err(e) => {
                return Err(e);
            },
        };
        let mut vars = clone_vars(&self.variables);
        let mut more = clone_vars(&rhs.variables);
        let ghost left = vars_view(vars@);
        let ghost right = vars_view(more@);
        vars.append(&mut more);
        proof {
            assert(vars_view(vars@) =~= left + right);
            assert forall|k: int| 0 <= k < (left + right).len() implies (#[trigger] (left
                + right)[k]).degree.wf() by {
                if k < left.len() {
                    assert((left + right)[k] == left[k]);
                } else {
                    assert((left + right)[k] == right[k - left.len()]);
                }
            }
        }
        let mut t = Term { coefficient: c, variables: vars };
        t.sort_vars();
        proof {
            crate::laws::lemma_sort_keeps_wf(left + right);
        }
        match t.factor() {
            Ok(()) => Ok(t),
            Err(e) => Err(e),
        }
    }

    /// The term with its coefficient negated.
    pub fn negate(&self) -> (r: Term)
        requires
            self.wf(),
        ensures
            r@ == self@.negated(),
            r.wf(),
    {
        Term { coefficient: self.coefficient.neg(), variables: clone_vars(&self.variables) }
    }

    /// The term with its coefficient multiplied by `q`.
    pub fn scale(&self, q: Rational) -> (r: Result<Term, AlgebraError>)
        requires
            self.wf(),
            q.wf(),
        ensures
            view_of(r) == self@.scaled(q),
            r matches Ok(t) ==> t.wf(),
    {
        match self.coefficient.checked_mul(q) {
            Ok(c) => Ok(Term { coefficient: c, variables: clone_vars(&self.variables) }),
            Err(e) => Err(e),
        }
    }
}

impl PartialEq for Variable {
    fn eq(&self, other: &Self) -> (r: bool) {
        self.name == other.name && self.degree == other.degree
    }
}

impl vstd::std_specs::cmp::PartialEqSpecImpl for Variable {
    open spec fn obeys_eq_spec() -> bool {
        true
    }

    open spec fn eq_spec(&self, other: &Self) -> bool {
        self@ == other@
    }
}

} // verus!
