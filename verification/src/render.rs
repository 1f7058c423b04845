//! The text of terms and polynomials.

use crate::polynomial::{terms_view, PolyView, Polynomial};
use crate::rational::Rational;
use crate::term::{vars_view, Term, TermView, VarView, Variable};
use vstd::prelude::*;

verus! {

/// The text of a variable: its name, and its degree in `^(..)` where that
/// is not one.
pub open spec fn var_text(v: VarView) -> Seq<char> {
    if v.degree == Rational::spec_one() {
        v.name
    } else {
        v.name + seq!['^', '('] + v.degree.spec_text() + seq![')']
    }
}

/// The texts of the variables, one after the other.
pub open spec fn vars_text(vars: Seq<VarView>) -> Seq<char>
    decreases vars.len(),
{
    if vars.len() == 0 {
        Seq::empty()
    } else {
        vars_text(vars.drop_last()) + var_text(vars.last())
    }
}

/// The sign that joins a term to what stands before it: `+` for a positive
/// coefficient of a term that is not the first.
pub open spec fn joint(t: TermView, first: bool) -> Seq<char> {
    if !first && t.coefficient.numer > 0 {
        seq!['+']
    } else {
        Seq::empty()
    }
}

/// The coefficient as it is printed: left out where it is one and variables
/// follow.
pub open spec fn shown_coefficient(t: TermView) -> Seq<char> {
    if t.variables.len() == 0 || t.coefficient != Rational::spec_one() {
        t.coefficient.spec_text()
    } else {
        Seq::empty()
    }
}

/// The text of one term of a polynomial. A term with the coefficient zero
/// is left out unless it stands alone.
pub open spec fn term_text(t: TermView, first: bool, alone: bool) -> Seq<char> {
    if t.coefficient.numer == 0 && !alone {
        Seq::empty()
    } else {
        joint(t, first) + shown_coefficient(t) + vars_text(t.variables)
    }
}

/// The text of the first `upto` terms.
pub open spec fn terms_text(terms: Seq<TermView>, upto: int) -> Seq<char>
    decreases upto,
{
    if upto <= 0 {
        Seq::empty()
    } else {
        terms_text(terms, upto - 1) + term_text(terms[upto - 1], upto == 1, terms.len() == 1)
    }
}

impl PolyView {
    /// The text of the polynomial: its terms, and around them `(..)^(..)`
    /// with the outer exponent where that is not one.
    pub open spec fn text(self) -> Seq<char> {
        let body = terms_text(self.terms, self.terms.len() as int);
        if self.degree == Rational::spec_one() {
            body
        } else {
            seq!['('] + body + seq![')', '^', '('] + self.degree.spec_text() + seq![')']
        }
    }
}

/// Appends the text of the variables to `out`.
pub fn render_variables(vars: &Vec<Variable>, out: &mut String)
    ensures
        final(out)@ == old(out)@ + vars_text(vars_view(vars@)),
{
    let n: usize = vars.len();
    let mut i: usize = 0;
    let ghost all = vars_view(vars@);
    let ghost start = out@;
    assert(all.take(0) =~= Seq::<VarView>::empty());
    assert(start + vars_text(all.take(0)) =~= start);
    while i < n
        invariant
            i <= n,
            n == vars@.len(),
            all == vars_view(vars@),
            out@ == start + vars_text(all.take(i as int)),
        decreases n - i,
    {
        proof {
            assert(all.take(i + 1).drop_last() =~= all.take(i as int));
            assert(all[i as int] == vars@[i as int]@);
            reveal_strlit("^(");
            reveal_strlit(")");
            assert("^("@ =~= seq!['^', '(']);
            assert(")"@ =~= seq![')']);
        }
        let ghost before = out@;
        out.append(vars[i].name.as_str());
        if !vars[i].degree.is_one() {
            let d = vars[i].degree.text();
            out.append("^(");
            out.append(d.as_str());
            out.append(")");
            assert(out@ =~= before + var_text(all[i as int]));
        }
        assert(out@ =~= start + vars_text(all.take(i + 1)));
        i += 1;
    }
    assert(all.take(n as int) =~= all);
}

/// Appends the text of a term of a polynomial to `out`.
pub fn render_term(t: &Term, first: bool, alone: bool, out: &mut String)
    ensures
        final(out)@ == old(out)@ + term_text(t@, first, alone),
{
    let ghost start = out@;
    if t.coefficient.numer == 0 && !alone {
        assert(start + term_text(t@, first, alone) =~= start);
        return ;
    }
    proof {
        reveal_strlit("+");
        assert("+"@ =~= seq!['+']);
    }
    if !first && t.coefficient.numer > 0 {
        out.append("+");
    }
    assert(out@ =~= start + joint(t@, first));
    if t.variables.len() == 0 || !t.coefficient.is_one() {
        let c = t.coefficient.text();
        out.append(c.as_str());
    }
    assert(out@ =~= start + joint(t@, first) + shown_coefficient(t@));
    render_variables(&t.variables, out);
    assert(out@ =~= start + term_text(t@, first, alone));
}

impl Polynomial {
    /// The text of the polynomial, term by term: a `+` before a positive
    /// coefficient that does not stand first, the coefficient unless it is
    /// one and variables follow, each variable with its degree in `^(..)`
    /// unless that is one. Zero terms are left out unless the term stands
    /// alone. An outer exponent other than one is put around the whole.
    pub fn as_string(&self) -> (s: String)
        ensures
            s@ == self@.text(),
    {
        let mut body = String::new();
        let n: usize = self.terms.len();
        let mut i: usize = 0;
        let ghost all = terms_view(self.terms@);
        while i < n
            invariant
                i <= n,
                n == self.terms@.len(),
                all == terms_view(self.terms@),
                body@ == terms_text(all, i as int),
            decreases n - i,
        {
            assert(all[i as int] == self.terms@[i as int]@);
            render_term(&self.terms[i], i == 0, n == 1, &mut body);
            i += 1;
        }
        if self.degree.is_one() {
            body
        } else {
            proof {
                reveal_strlit("(");
                reveal_strlit(")^(");
                reveal_strlit(")");
                assert("("@ =~= seq!['(']);
                assert(")^("@ =~= seq![')', '^', '(']);
                assert(")"@ =~= seq![')']);
            }
            let d = self.degree.text();
            let mut out = String::from_str("(");
            out.append(body.as_str());
            out.append(")^(");
            out.append(d.as_str());
            out.append(")");
            assert(out@ =~= self@.text());
            out
        }
    }
}

} // verus!
