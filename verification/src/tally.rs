//! Exact sums of coefficients: the coefficient that adding like terms
//! gives, as a sum that does not depend on the order of the terms.

use crate::associate::{coefficient_of, lemma_zero_wf};

use crate::commute::{lemma_index_first, lemma_index_none};
use crate::error::AlgebraError;
use crate::number::{lemma_plus_compatible, lemma_sum_pair, lemma_sum_zero, lemma_value_transitive, pair_of, plus_pair, same_value};
use crate::polynomial::{absorb_term, absorbing, index_of_vars, lemma_index_of_vars, like_terms_added, terms_wf};
use crate::rational::Rational;
use crate::term::{TermView, VarView};
use crate::wellformed::lemma_like_terms_wf;
use vstd::prelude::*;

verus! {

/// The sum of two pairs does not depend on their order.
pub proof fn lemma_plus_commutes(a: (int, int), b: (int, int))
    ensures
        plus_pair(a, b) == plus_pair(b, a),
{
    assert(a.1 * b.1 == b.1 * a.1) by (nonlinear_arith);
}

/// The sum of three pairs does not depend on their grouping.
pub proof fn lemma_plus_associates(a: (int, int), b: (int, int), c: (int, int))
    ensures
        plus_pair(plus_pair(a, b), c) == plus_pair(a, plus_pair(b, c)),
{
    let (a0, a1, b0, b1, c0, c1) = (a.0, a.1, b.0, b.1, c.0, c.1);
    assert((a1 * b1) * c1 == a1 * (b1 * c1)) by (nonlinear_arith);
    vstd::arithmetic::mul::lemma_mul_is_distributive_add_other_way(c1, a0 * b1, b0 * a1);
    vstd::arithmetic::mul::lemma_mul_is_distributive_add_other_way(a1, b0 * c1, c0 * b1);
    assert((a0 * b1) * c1 == a0 * (b1 * c1)) by (nonlinear_arith);
    assert((b0 * a1) * c1 == (b0 * c1) * a1) by (nonlinear_arith);
    assert(c0 * (a1 * b1) == (c0 * b1) * a1) by (nonlinear_arith);
}

/// Adding the pair of zero changes nothing.
pub proof fn lemma_plus_nothing(a: (int, int))
    ensures
        plus_pair((0int, 1int), a) == a,
        plus_pair(a, (0int, 1int)) == a,
{
}

/// Two sums of two pairs added are the sums of the first and of the second
/// pairs added.
pub proof fn lemma_plus_swap(a: (int, int), b: (int, int), x: (int, int), y: (int, int))
    ensures
        plus_pair(plus_pair(a, b), plus_pair(x, y)) == plus_pair(
            plus_pair(a, x),
            plus_pair(b, y),
        ),
{
    lemma_plus_associates(plus_pair(a, b), x, y);
    lemma_plus_associates(a, b, x);
    lemma_plus_commutes(b, x);
    lemma_plus_associates(a, x, b);
    lemma_plus_associates(plus_pair(a, x), b, y);
}

/// The entries of one row of a grid, added up to column `m`.
pub open spec fn row_sum(e: spec_fn(int, int) -> (int, int), i: int, m: nat) -> (int, int)
    decreases m,
{
    if m == 0 {
        (0, 1)
    } else {
        plus_pair(row_sum(e, i, (m - 1) as nat), e(i, m - 1))
    }
}

/// The entries of one column of a grid, added up to row `n`.
pub open spec fn col_sum(e: spec_fn(int, int) -> (int, int), n: nat, j: int) -> (int, int)
    decreases n,
{
    if n == 0 {
        (0, 1)
    } else {
        plus_pair(col_sum(e, (n - 1) as nat, j), e(n - 1, j))
    }
}

/// The grid added up row by row.
pub open spec fn rows_total(e: spec_fn(int, int) -> (int, int), n: nat, m: nat) -> (int, int)
    decreases n,
{
    if n == 0 {
        (0, 1)
    } else {
        plus_pair(rows_total(e, (n - 1) as nat, m), row_sum(e, n - 1, m))
    }
}

/// The grid added up column by column.
pub open spec fn cols_total(e: spec_fn(int, int) -> (int, int), n: nat, m: nat) -> (int, int)
    decreases m,
{
    if m == 0 {
        (0, 1)
    } else {
        plus_pair(cols_total(e, n, (m - 1) as nat), col_sum(e, n, m - 1))
    }
}

/// One more row, added up column by column, adds the sum of that row.
pub proof fn lemma_cols_total_step(e: spec_fn(int, int) -> (int, int), n: nat, m: nat)
    ensures
        cols_total(e, n + 1, m) == plus_pair(cols_total(e, n, m), row_sum(e, n as int, m)),
    decreases m,
{
    if m > 0 {
        let k = (m - 1) as nat;
        lemma_cols_total_step(e, n, k);
        assert(col_sum(e, n + 1, k as int) == plus_pair(col_sum(e, n, k as int), e(n as int, k as int)));
        lemma_plus_swap(
            cols_total(e, n, k),
            row_sum(e, n as int, k),
            col_sum(e, n, k as int),
            e(n as int, k as int),
        );
    }
}

/// A grid without rows adds up to nothing.
pub proof fn lemma_cols_total_empty(e: spec_fn(int, int) -> (int, int), m: nat)
    ensures
        cols_total(e, 0, m) == (0int, 1int),
    decreases m,
{
    if m > 0 {
        lemma_cols_total_empty(e, (m - 1) as nat);
    }
}

/// A grid adds up to the same row by row and column by column.
pub proof fn lemma_fubini(e: spec_fn(int, int) -> (int, int), n: nat, m: nat)
    ensures
        rows_total(e, n, m) == cols_total(e, n, m),
    decreases n,
{
    if n == 0 {
        lemma_cols_total_empty(e, m);
    } else {
        lemma_fubini(e, (n - 1) as nat, m);
        lemma_cols_total_step(e, (n - 1) as nat, m);
    }
}

/// The grid turned over.
pub open spec fn turned(e: spec_fn(int, int) -> (int, int)) -> spec_fn(int, int) -> (int, int) {
    |j: int, i: int| e(i, j)
}

/// A row of the grid turned over is a column of the grid.
pub proof fn lemma_turned_row(e: spec_fn(int, int) -> (int, int), j: int, n: nat)
    ensures
        row_sum(turned(e), j, n) == col_sum(e, n, j),
    decreases n,
{
    if n > 0 {
        lemma_turned_row(e, j, (n - 1) as nat);
    }
}

/// The grid turned over adds up row by row to what the grid adds up to
/// column by column.
pub proof fn lemma_turned_total(e: spec_fn(int, int) -> (int, int), n: nat, m: nat)
    ensures
        rows_total(turned(e), m, n) == cols_total(e, n, m),
    decreases m,
{
    if m > 0 {
        lemma_turned_total(e, n, (m - 1) as nat);
        lemma_turned_row(e, m - 1, n);
    }
}

/// The coefficients of the terms with these variables added to `init`,
/// from left to right.
pub open spec fn coefficient_sum(init: Rational, s: Seq<TermView>, v: Seq<VarView>) -> Result<
    Rational,
    AlgebraError,
>
    decreases s.len(),
{
    if s.len() == 0 {
        Ok(init)
    } else {
        match coefficient_sum(init, s.drop_last(), v) {
            Ok(x) => if s.last().variables == v {
                x.spec_add(s.last().coefficient)
            } else {
                Ok(x)
            },
            Err(e) => Err(e),
        }
    }
}

/// The coefficients of the terms with these variables added exactly, as a
/// pair that is not reduced.
pub open spec fn exact_sum(s: Seq<TermView>, v: Seq<VarView>) -> (int, int)
    decreases s.len(),
{
    if s.len() == 0 {
        (0, 1)
    } else if s.last().variables == v {
        plus_pair(exact_sum(s.drop_last(), v), pair_of(s.last().coefficient))
    } else {
        exact_sum(s.drop_last(), v)
    }
}

/// Two lists with the same variables in the same places find all
/// variables at the same place.
pub proof fn lemma_same_variables(s: Seq<TermView>, t: Seq<TermView>, v: Seq<VarView>)
    requires
        s.len() == t.len(),
        forall|m: int| 0 <= m < s.len() ==> (#[trigger] s[m]).variables == t[m].variables,
    ensures
        index_of_vars(s, v) == index_of_vars(t, v),
{
    lemma_index_of_vars(s, v);
    lemma_index_of_vars(t, v);
    let i = index_of_vars(s, v);
    if i >= 0 {
        assert forall|m: int| 0 <= m < i implies (#[trigger] t[m]).variables != v by {
            assert(s[m].variables != v);
        }
        assert(s[i].variables == t[i].variables);
        lemma_index_first(t, v, i);
    } else {
        assert forall|m: int| 0 <= m < t.len() implies (#[trigger] t[m]).variables != v by {
            assert(s[m].variables != v);
        }
        lemma_index_none(t, v);
    }
}

/// What adding like terms gives: for all variables the coefficients of the
/// terms with those variables, added from left to right.
pub proof fn lemma_like_terms_coefficient(s: Seq<TermView>, v: Seq<VarView>)
    requires
        terms_wf(s),
        like_terms_added(s) is Ok,
    ensures
        coefficient_sum(Rational::spec_zero(), s, v) == Ok::<Rational, AlgebraError>(
            coefficient_of(like_terms_added(s).unwrap(), v),
        ),
    decreases s.len(),
{
    lemma_like_terms_wf(s);
    lemma_zero_wf();
    if s.len() == 0 {
        lemma_index_of_vars(like_terms_added(s).unwrap(), v);
    } else {
        let front = s.drop_last();
        let x = s.last();
        assert(absorbing()(like_terms_added(front).unwrap(), x) == absorb_term(
            like_terms_added(front).unwrap(),
            x,
        ));
        assert(terms_wf(front)) by {
            assert forall|i: int| 0 <= i < front.len() implies (#[trigger] front[i]).wf() by {
                assert(front[i] == s[i]);
            }
        }
        lemma_like_terms_coefficient(front, v);
        let acc = like_terms_added(front).unwrap();
        let ms = like_terms_added(s).unwrap();
        lemma_index_of_vars(acc, x.variables);
        lemma_index_of_vars(acc, v);
        let i = index_of_vars(acc, x.variables);
        assert(s[s.len() - 1].wf());
        if i >= 0 {
            assert forall|m: int| 0 <= m < acc.len() implies (#[trigger] ms[m]).variables
                == acc[m].variables by {}
            lemma_same_variables(ms, acc, v);
            let j = index_of_vars(acc, v);
            if j >= 0 && j != i {
                assert(ms[j] == acc[j]);
            }
        } else {
            assert(ms =~= acc.push(x));
            if x.variables == v {
                assert forall|m: int| 0 <= m < acc.len() implies (#[trigger] ms[m]).variables
                    != v by {
                    assert(ms[m] == acc[m]);
                }
                lemma_index_first(ms, v, acc.len() as int);
                lemma_sum_zero(x.coefficient);
            } else {
                let j = index_of_vars(acc, v);
                if j >= 0 {
                    assert forall|m: int| 0 <= m < j implies (#[trigger] ms[m]).variables != v by {
                        assert(ms[m] == acc[m]);
                    }
                    assert(ms[j] == acc[j]);
                    lemma_index_first(ms, v, j);
                } else {
                    assert forall|m: int| 0 <= m < ms.len() implies (#[trigger] ms[m]).variables
                        != v by {
                        if m < acc.len() {
                            assert(ms[m] == acc[m]);
                        }
                    }
                    lemma_index_none(ms, v);
                }
            }
        }
    }
}

/// The exact sum over terms in lowest terms has a positive denominator.
pub proof fn lemma_exact_sum_positive(s: Seq<TermView>, v: Seq<VarView>)
    requires
        terms_wf(s),
    ensures
        exact_sum(s, v).1 > 0,
    decreases s.len(),
{
    if s.len() > 0 {
        let front = s.drop_last();
        assert(terms_wf(front)) by {
            assert forall|i: int| 0 <= i < front.len() implies (#[trigger] front[i]).wf() by {
                assert(front[i] == s[i]);
            }
        }
        lemma_exact_sum_positive(front, v);
        assert(s[s.len() - 1].wf());
        let a = exact_sum(front, v).1;
        let b = s.last().coefficient.denom as int;
        assert(a * b > 0) by (nonlinear_arith)
            requires
                a > 0,
                b > 0,
        ;
    }
}

/// The exact sum over two lists joined is the sum of the two exact sums.
pub proof fn lemma_exact_sum_append(s: Seq<TermView>, t: Seq<TermView>, v: Seq<VarView>)
    ensures
        exact_sum(s + t, v) == plus_pair(exact_sum(s, v), exact_sum(t, v)),
    decreases t.len(),
{
    if t.len() == 0 {
        assert(s + t =~= s);
        lemma_plus_nothing(exact_sum(s, v));
    } else {
        assert((s + t).drop_last() =~= s + t.drop_last());
        assert((s + t).last() == t.last());
        lemma_exact_sum_append(s, t.drop_last(), v);
        lemma_plus_associates(
            exact_sum(s, v),
            exact_sum(t.drop_last(), v),
            pair_of(t.last().coefficient),
        );
    }
}

/// The coefficients added from left to right, where that exists, have
/// the value of the exact sum.
pub proof fn lemma_coefficient_sum_value(s: Seq<TermView>, v: Seq<VarView>)
    requires
        terms_wf(s),
        coefficient_sum(Rational::spec_zero(), s, v) is Ok,
    ensures
        coefficient_sum(Rational::spec_zero(), s, v).unwrap().wf(),
        same_value(
            pair_of(coefficient_sum(Rational::spec_zero(), s, v).unwrap()),
            exact_sum(s, v),
        ),
    decreases s.len(),
{
    lemma_zero_wf();
    if s.len() > 0 {
        let front = s.drop_last();
        let last = s.last();
        assert(terms_wf(front)) by {
            assert forall|i: int| 0 <= i < front.len() implies (#[trigger] front[i]).wf() by {
                assert(front[i] == s[i]);
            }
        }
        lemma_coefficient_sum_value(front, v);
        lemma_exact_sum_positive(front, v);
        assert(s[s.len() - 1].wf());
        if last.variables == v {
            let x = coefficient_sum(Rational::spec_zero(), front, v).unwrap();
            lemma_sum_pair(x, last.coefficient);
            lemma_plus_compatible(pair_of(x), exact_sum(front, v), pair_of(last.coefficient));
            lemma_value_transitive(
                pair_of(x.spec_add(last.coefficient).unwrap()),
                plus_pair(pair_of(x), pair_of(last.coefficient)),
                exact_sum(s, v),
            );
        }
    }
}

} // verus!
