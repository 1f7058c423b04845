//! Long division of polynomials.

use crate::error::AlgebraError;
use crate::fold::view_of;
use crate::polynomial::{PolyView, Polynomial};
use crate::ratio::{PolyRatio, RatioView};
use crate::rational::Rational;
use crate::term::{Term, TermView};
use vstd::prelude::*;

verus! {

/// The division has come to its end: nothing is left, or what is left is of
/// lower degree than the divisor.
pub open spec fn division_done(remainder: PolyView, divisor: PolyView) -> bool {
    remainder.is_zero() || remainder.max_degree().spec_lt(divisor.max_degree())
}

/// One step of the division on quotient and remainder: the leading term of
/// the remainder over that of the divisor is added to the quotient, and
/// its product with the divisor is taken from the remainder.
pub open spec fn division_step(state: (PolyView, PolyView), divisor: PolyView) -> Result<
    (PolyView, PolyView),
    AlgebraError,
> {
    match state.1.leading_term().over(divisor.leading_term()) {
        Ok(t) => match state.0.sum(t) {
            Ok(q) => match divisor.product(t) {
                Ok(dt) => match state.1.difference(dt) {
                    Ok(r) => Ok((q, r)),
                    Err(e) => Err(e),
                },
                Err(e) => Err(e),
            },
            Err(e) => Err(e),
        },
        Err(e) => Err(e),
    }
}

/// The quotient after as many steps as it takes, at most `fuel`; a
/// division that needs more is not supported.
pub open spec fn long_division(
    quotient: PolyView,
    remainder: PolyView,
    divisor: PolyView,
    fuel: nat,
) -> Result<PolyView, AlgebraError>
    decreases fuel,
{
    if division_done(remainder, divisor) {
        Ok(quotient)
    } else if fuel == 0 {
        Err(AlgebraError::UnsupportedOperation)
    } else {
        match division_step((quotient, remainder), divisor) {
            Ok(s) => long_division(s.0, s.1, divisor, (fuel - 1) as nat),
            Err(e) => Err(e),
        }
    }
}

impl PolyView {
    /// The quotient of two polynomials as a ratio. Both are taken in
    /// canonical form. A zero dividend gives zero over one. A zero divisor,
    /// or a dividend of lower degree than the divisor, gives the ratio of
    /// the two as they are. Otherwise the quotient of the long division,
    /// in canonical form, over one; what the division leaves is dropped. A
    /// division that has not come to its end after `steps` steps is not
    /// supported.
    pub open spec fn divided_by(self, rhs: PolyView, steps: nat) -> Result<
        RatioView,
        AlgebraError,
    > {
        match self.simplified() {
            Ok(a) => match rhs.simplified() {
                Ok(b) => if a.is_zero() {
                    Ok(RatioView::from_poly(PolyView::single(TermView::zero())))
                } else if b.is_zero() || a.max_degree().spec_lt(b.max_degree()) {
                    Ok(RatioView { numerator: a, denominator: b })
                } else {
                    match long_division(PolyView::plain(Seq::empty()), a, b, steps) {
                        Ok(q) => match q.simplified() {
                            Ok(done) => Ok(RatioView::from_poly(done)),
                            Err(e) => Err(e),
                        },
                        Err(e) => Err(e),
                    }
                },
                Err(e) => Err(e),
            },
            Err(e) => Err(e),
        }
    }
}

impl Polynomial {
    /// The quotient of two polynomials by long division, as a ratio over
    /// one. The quotient is exact where the divisor divides the dividend;
    /// otherwise what is left over is dropped. A zero divisor gives the
    /// ratio over zero, which stands for the failed division. The caller
    /// says how many steps the division may take: one that would take more
    /// returns `UnsupportedOperation`.
    pub fn div(&self, rhs: &Polynomial, steps: u64) -> (r: Result<PolyRatio, AlgebraError>)
        requires
            self.wf(),
            rhs.wf(),
        ensures
            view_of(r) == self@.divided_by(rhs@, steps as nat),
            r matches Ok(q) ==> q.wf(),
    {
        let mut a = self.clone();
        a.simplify()?;
        let mut b = rhs.clone();
        b.simplify()?;
        if a.is_zero() {
            proof {
                assert(crate::polynomial::vars_wf_empty());
            }
            return Ok(PolyRatio::from(Polynomial::from_term(Term::constant(Rational::zero()))));
        }
        if b.is_zero() || a.degree().lt(b.degree()) {
            return Ok(PolyRatio { numerator: a, denominator: b });
        }
        let mut quotient = Polynomial::from_terms(Vec::new());
        assert(quotient@.terms =~= Seq::<TermView>::empty());
        let mut remainder = a;
        let mut fuel: u64 = steps;
        let ghost goal = long_division(PolyView::plain(Seq::empty()), remainder@, b@, steps as nat);
        loop
            invariant
                quotient.wf(),
                remainder.wf(),
                b.wf(),
                goal == long_division(quotient@, remainder@, b@, fuel as nat),
                goal matches Err(e) ==> self@.divided_by(rhs@, steps as nat) == Err::<
                    RatioView,
                    AlgebraError,
                >(e),
            ensures
                goal == Ok::<PolyView, AlgebraError>(quotient@),
                quotient.wf(),
            decreases fuel,
        {
            if remainder.is_zero() || remainder.degree().lt(b.degree()) {
                break ;
            }
            if fuel == 0 {
                return Err(AlgebraError::UnsupportedOperation);
            }
            let t = remainder.leading_term().div(&b.leading_term())?;
            let q = quotient.add(&t)?;
            let dt = b.mul(&t)?;
            let rest = remainder.sub(&dt)?;
            quotient = q;
            remainder = rest;
            fuel -= 1;
        }
        quotient.simplify()?;
        Ok(PolyRatio::from(quotient))
    }
}

} // verus!
