//! Exact powers of fractions with fractional exponents.
//!
//! A power is taken only where its value is again a fraction: the root is
//! looked for among the integers, never approximated.

use crate::error::AlgebraError;
use crate::rational::Rational;
use vstd::arithmetic::power::{lemma0_pow, lemma1_pow, lemma_pow0, lemma_pow1, lemma_pow_increases, lemma_pow_positive, pow};
use vstd::prelude::*;

verus! {

/// `r` is the `k`-th root of `m` among the natural numbers.
pub open spec fn is_root(r: int, m: int, k: nat) -> bool {
    r >= 0 && pow(r, k) == m
}

/// `m` is a perfect `k`-th power.
pub open spec fn has_root(m: int, k: nat) -> bool {
    exists|r: int| is_root(r, m, k)
}

/// The `k`-th root of a perfect `k`-th power.
pub open spec fn root_of(m: int, k: nat) -> int {
    choose|r: int| is_root(r, m, k)
}

/// What a power of a fraction comes to.
#[derive(Clone, Copy, Debug, PartialEq, Eq)]
pub enum Power {
    /// The power is this fraction.
    Exact(Rational),
    /// The power is no fraction (or the base is negative and the exponent
    /// no integer).
    Inexact,
}

/// Powers grow with a nonnegative base.
pub proof fn lemma_pow_base_strict(x: int, y: int, k: nat)
    requires
        0 <= x < y,
        k >= 1,
    ensures
        0 <= pow(x, k) < pow(y, k),
    decreases k,
{
    reveal(pow);
    if k == 1 {
        lemma_pow1(x);
        lemma_pow1(y);
    } else {
        lemma_pow_base_strict(x, y, (k - 1) as nat);
        let a = pow(x, (k - 1) as nat);
        let b = pow(y, (k - 1) as nat);
        assert(0 <= x * a && x * a < y * b) by (nonlinear_arith)
            requires
                0 <= x < y,
                0 <= a < b,
        ;
    }
}

/// A number has at most one `k`-th root for `k >= 1`.
pub proof fn lemma_root_unique(x: int, y: int, m: int, k: nat)
    requires
        k >= 1,
        is_root(x, m, k),
        is_root(y, m, k),
    ensures
        x == y,
{
    if x < y {
        lemma_pow_base_strict(x, y, k);
    } else if y < x {
        lemma_pow_base_strict(y, x, k);
    }
}

/// A root that was found is the root.
pub proof fn lemma_root_found(x: int, m: int, k: nat)
    requires
        k >= 1,
        is_root(x, m, k),
    ensures
        has_root(m, k),
        root_of(m, k) == x,
{
    lemma_root_unique(x, root_of(m, k), m, k);
}

/// Between two neighbours whose powers lie on both sides of `m` there is no
/// root of `m`.
pub proof fn lemma_no_root_between(lo: int, m: int, k: nat)
    requires
        k >= 1,
        0 <= lo,
        pow(lo, k) < m,
        m < pow(lo + 1, k),
    ensures
        !has_root(m, k),
{
    if has_root(m, k) {
        let r = root_of(m, k);
        if r <= lo {
            if r < lo {
                lemma_pow_base_strict(r, lo, k);
            }
        } else {
            if lo + 1 < r {
                lemma_pow_base_strict(lo + 1, r, k);
            }
        }
    }
}

/// `base` to the `k`, where that fits in `i64`.
pub fn checked_int_pow(base: i64, k: i64) -> (r: Option<i64>)
    requires
        base >= 0,
        k >= 0,
    ensures
        r matches Some(x) ==> x == pow(base as int, k as nat),
        r is None ==> pow(base as int, k as nat) > i64::MAX,
{
    if k == 0 {
        proof {
            lemma_pow0(base as int);
        }
        return Some(1);
    }
    if base == 0 {
        proof {
            lemma0_pow(k as nat);
        }
        return Some(0);
    }
    if base == 1 {
        proof {
            lemma1_pow(k as nat);
        }
        return Some(1);
    }
    let mut acc: i64 = 1;
    let mut i: i64 = 0;
    proof {
        lemma_pow0(base as int);
    }
    while i < k
        invariant
            0 <= i <= k,
            base >= 2,
            acc == pow(base as int, i as nat),
            acc >= 1,
        decreases k - i,
    {
        proof {
            reveal(pow);
            assert(pow(base as int, (i + 1) as nat) == base * pow(base as int, i as nat));
            assert(acc * base >= 1) by (nonlinear_arith)
                requires
                    acc >= 1,
                    base >= 2,
            ;
        }
        match acc.checked_mul(base) {
            Some(next) => {
                assert(next == base * acc) by (nonlinear_arith)
                    requires
                        next == acc * base,
                ;
                acc = next;
            },
            None => {
                proof {
                    assert(base * acc == acc * base) by (nonlinear_arith);
                    lemma_pow_increases(base as nat, (i + 1) as nat, k as nat);
                }
                return None;
            },
        }
        i += 1;
    }
    Some(acc)
}

/// The `k`-th root of `m` where `m` is a perfect `k`-th power.
pub fn integer_root(m: i64, k: i64) -> (r: Option<i64>)
    requires
        m >= 0,
        k >= 1,
    ensures
        r matches Some(x) ==> is_root(x as int, m as int, k as nat),
        r is None ==> !has_root(m as int, k as nat),
{
    if m <= 1 {
        proof {
            if m == 0 {
                lemma0_pow(k as nat);
            } else {
                lemma1_pow(k as nat);
            }
        }
        return Some(m);
    }
    if k == 1 {
        proof {
            lemma_pow1(m as int);
        }
        return Some(m);
    }
    let mut lo: i64 = 1;
    let mut hi: i64 = m;
    proof {
        lemma1_pow(k as nat);
        lemma_pow1(m as int);
        vstd::arithmetic::power::lemma_pow_strictly_increases(m as nat, 1, k as nat);
    }
    while hi - lo > 1
        invariant
            1 <= lo < hi <= m,
            k >= 2,
            pow(lo as int, k as nat) < m,
            m < pow(hi as int, k as nat),
        decreases hi - lo,
    {
        let mid: i64 = lo + (hi - lo) / 2;
        match checked_int_pow(mid, k) {
            Some(p) => {
                if p == m {
                    return Some(mid);
                } else if p < m {
                    lo = mid;
                } else {
                    hi = mid;
                }
            },
            None => {
                hi = mid;
            },
        }
    }
    proof {
        lemma_no_root_between(lo as int, m as int, k as nat);
    }
    None
}

impl Rational {
    /// `self` to the power `q`. A zero exponent gives one. A zero base gives
    /// zero for a positive exponent and has no negative power. Otherwise the
    /// power is exact where numerator and denominator are perfect powers of
    /// the exponent's denominator (a negative base only with that being one);
    /// the roots are then raised to the exponent's numerator, and turned over
    /// where it is negative.
    pub open spec fn spec_pow(self, q: Rational) -> Result<Power, AlgebraError> {
        let k = q.denom as nat;
        let e = crate::rational::magnitude(q.numer as int);
        let n = crate::rational::magnitude(self.numer as int) as int;
        let d = self.denom as int;
        if q.numer == 0 {
            Ok(Power::Exact(Rational::spec_one()))
        } else if self.numer == 0 {
            if q.numer < 0 {
                Err(AlgebraError::DivisionByZero)
            } else {
                Ok(Power::Exact(Rational::spec_zero()))
            }
        } else if q.denom > 1 && self.numer < 0 {
            Ok(Power::Inexact)
        } else if !has_root(n, k) || !has_root(d, k) {
            Ok(Power::Inexact)
        } else {
            let pn = pow(root_of(n, k), e);
            let pd = pow(root_of(d, k), e);
            if pn > i64::MAX || pd > i64::MAX {
                Err(AlgebraError::Overflow)
            } else {
                let sn = if self.numer < 0 && e % 2 == 1 {
                    0 - pn
                } else {
                    pn
                };
                let sd = if self.numer < 0 && e % 2 == 1 {
                    0 - pd
                } else {
                    pd
                };
                if q.numer > 0 {
                    Ok(Power::Exact(Rational::spec_new(sn as i64, pd as i64)))
                } else {
                    Ok(Power::Exact(Rational::spec_new(sd as i64, pn as i64)))
                }
            }
        }
    }

    /// `self` to the power `q`, exactly or not at all.
    pub fn checked_pow(self, q: Rational) -> (r: Result<Power, AlgebraError>)
        requires
            self.wf(),
            q.wf(),
        ensures
            r == self.spec_pow(q),
            r matches Ok(Power::Exact(x)) ==> x.wf(),
    {
        if q.numer == 0 {
            return Ok(Power::Exact(Rational::one()));
        }
        if self.numer == 0 {
            if q.numer < 0 {
                return Err(AlgebraError::DivisionByZero);
            } else {
                return Ok(Power::Exact(Rational::zero()));
            }
        }
        if q.denom > 1 && self.numer < 0 {
            return Ok(Power::Inexact);
        }
        let negative: bool = self.numer < 0;
        let n: i64 = if negative {
            0 - self.numer
        } else {
            self.numer
        };
        let e: i64 = if q.numer < 0 {
            0 - q.numer
        } else {
            q.numer
        };
        let rn: i64 = match integer_root(n, q.denom) {
            Some(x) => x,
            None => {
                return Ok(Power::Inexact);
            },
        };
        let rd: i64 = match integer_root(self.denom, q.denom) {
            Some(x) => x,
            None => {
                return Ok(Power::Inexact);
            },
        };
        proof {
            lemma_root_found(rn as int, n as int, q.denom as nat);
            lemma_root_found(rd as int, self.denom as int, q.denom as nat);
            if rn == 0 {
                lemma0_pow(q.denom as nat);
            }
            if rd == 0 {
                lemma0_pow(q.denom as nat);
            }
            lemma_pow_positive(rn as int, e as nat);
            lemma_pow_positive(rd as int, e as nat);
        }
        let pn: i64 = match checked_int_pow(rn, e) {
            Some(x) => x,
            None => {
                return Err(AlgebraError::Overflow);
            },
        };
        let pd: i64 = match checked_int_pow(rd, e) {
            Some(x) => x,
            None => {
                return Err(AlgebraError::Overflow);
            },
        };
        let flip: bool = negative && e % 2 == 1;
        if q.numer > 0 {
            let sn: i64 = if flip {
                0 - pn
            } else {
                pn
            };
            Ok(Power::Exact(Rational::new(sn, pd)))
        } else {
            let sd: i64 = if flip {
                0 - pd
            } else {
                pd
            };
            Ok(Power::Exact(Rational::new(sd, pn)))
        }
    }
}

} // verus!
