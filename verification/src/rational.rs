//! Fractions of 64-bit integers in lowest terms.
//!
//! The arithmetic itself is done by the `num` crate; this module states, over
//! unbounded integers, what each of those calls returns and when it returns
//! nothing, and builds the library's checked operations on them.

use crate::error::AlgebraError;
use num::rational::Ratio;
use vstd::prelude::*;

verus! {

/// Greatest common divisor by Euclid's recursion; `gcd(a, 0) == a`.
pub open spec fn gcd(a: nat, b: nat) -> nat
    decreases b,
{
    if b == 0 {
        a
    } else {
        gcd(b, a % b)
    }
}

/// Absolute value as a natural number.
pub open spec fn magnitude(x: int) -> nat {
    if x < 0 {
        (-x) as nat
    } else {
        x as nat
    }
}

/// Whether `x` is a value of `i64`.
pub open spec fn fits(x: int) -> bool {
    i64::MIN <= x <= i64::MAX
}

/// The fraction `n / d` (`d != 0`) in lowest terms with a positive denominator,
/// as a pair of unbounded integers.
pub open spec fn lowest_terms(n: int, d: int) -> (int, int) {
    let g = gcd(magnitude(n), magnitude(d)) as int;
    if d > 0 {
        (n / g, d / g)
    } else {
        ((0 - n) / g, (0 - d) / g)
    }
}

/// A fraction `numer / denom`.
#[derive(Clone, Copy, Debug, PartialEq, Eq, Structural)]
pub struct Rational {
    pub numer: i64,
    pub denom: i64,
}

/// The sum as `num` computes it: over the least common multiple `l` of the
/// denominators, where `l`, both scaled numerators and their sum have to fit
/// in `i64`.
pub open spec fn raw_sum(a: Rational, b: Rational) -> Option<(int, int)> {
    let (an, ad, bn, bd) = (a.numer as int, a.denom as int, b.numer as int, b.denom as int);
    let g = gcd(ad as nat, bd as nat) as int;
    let l = (ad / g) * bd;
    let x = (l / ad) * an;
    let y = (l / bd) * bn;
    if fits(l) && fits(x) && fits(y) && fits(x + y) {
        Some(lowest_terms(x + y, l))
    } else {
        None
    }
}

/// The product as `num` computes it: common factors are cancelled crosswise
/// first, and the two remaining products have to fit in `i64`.
pub open spec fn raw_product(a: Rational, b: Rational) -> Option<(int, int)> {
    let (an, ad, bn, bd) = (a.numer as int, a.denom as int, b.numer as int, b.denom as int);
    let g1 = gcd(magnitude(an), bd as nat) as int;
    let g2 = gcd(ad as nat, magnitude(bn)) as int;
    let n = (an / g1) * (bn / g2);
    let d = (ad / g2) * (bd / g1);
    if fits(n) && fits(d) {
        Some(lowest_terms(n, d))
    } else {
        None
    }
}

/// The quotient by a nonzero `b` as `num` computes it: equal denominators or
/// equal numerators cancel outright, otherwise common factors are cancelled
/// first and the two remaining products have to fit in `i64`.
pub open spec fn raw_quotient(a: Rational, b: Rational) -> Option<(int, int)> {
    let (an, ad, bn, bd) = (a.numer as int, a.denom as int, b.numer as int, b.denom as int);
    let g1 = gcd(magnitude(an), magnitude(bn)) as int;
    let g2 = gcd(ad as nat, bd as nat) as int;
    let n = if ad == bd {
        an
    } else if an == bn {
        bd
    } else {
        (an / g1) * (bd / g2)
    };
    let d = if ad == bd {
        bn
    } else if an == bn {
        ad
    } else {
        (ad / g2) * (bn / g1)
    };
    if fits(n) && fits(d) {
        Some(lowest_terms(n, d))
    } else {
        None
    }
}

/// A pair of machine integers as a pair of unbounded ones.
pub open spec fn widen(p: (i64, i64)) -> (int, int) {
    (p.0 as int, p.1 as int)
}

/// The ten decimal digits.
pub open spec fn digit(d: int) -> char {
    seq!['0', '1', '2', '3', '4', '5', '6', '7', '8', '9'][d]
}

/// A natural number in decimal, without leading zeros.
pub open spec fn decimal_digits(n: nat) -> Seq<char>
    decreases n,
{
    if n < 10 {
        seq![digit(n as int)]
    } else {
        decimal_digits(n / 10).push(digit((n % 10) as int))
    }
}

/// An integer in decimal, with `-` in front of a negative one.
pub open spec fn decimal(n: int) -> Seq<char> {
    if n < 0 {
        seq!['-'] + decimal_digits((-n) as nat)
    } else {
        decimal_digits(n as nat)
    }
}

impl Rational {
    /// Lowest terms, a positive denominator, and a numerator that can be negated.
    pub open spec fn wf(self) -> bool {
        &&& self.denom > 0
        &&& self.numer > i64::MIN
        &&& gcd(magnitude(self.numer as int), self.denom as nat) == 1
    }

    /// The pair as a `Rational`, where numerator and denominator are in the
    /// range that `wf` admits.
    pub open spec fn from_pair(p: (int, int)) -> Result<Rational, AlgebraError> {
        if i64::MIN < p.0 <= i64::MAX && 0 < p.1 <= i64::MAX {
            Ok(Rational { numer: p.0 as i64, denom: p.1 as i64 })
        } else {
            Err(AlgebraError::Overflow)
        }
    }

    pub open spec fn spec_zero() -> Rational {
        Rational { numer: 0, denom: 1 }
    }

    pub open spec fn spec_one() -> Rational {
        Rational { numer: 1, denom: 1 }
    }

    pub open spec fn spec_from_integer(n: i64) -> Rational {
        Rational { numer: n, denom: 1 }
    }

    pub open spec fn spec_is_zero(self) -> bool {
        self.numer == 0
    }

    pub open spec fn spec_is_integer(self) -> bool {
        self.denom == 1
    }

    /// `self < rhs` as fractions with positive denominators.
    pub open spec fn spec_lt(self, rhs: Rational) -> bool {
        self.numer * rhs.denom < rhs.numer * self.denom
    }

    /// The greater of the two; `self` where they are equal.
    pub open spec fn spec_max(self, rhs: Rational) -> Rational {
        if self.spec_lt(rhs) {
            rhs
        } else {
            self
        }
    }

    /// The lesser of the two; `self` where they are equal.
    pub open spec fn spec_min(self, rhs: Rational) -> Rational {
        if rhs.spec_lt(self) {
            rhs
        } else {
            self
        }
    }

    /// The fraction `numer / denom` in lowest terms; its parts are in range
    /// where neither argument is `i64::MIN`.
    pub open spec fn spec_new(numer: i64, denom: i64) -> Rational {
        let p = lowest_terms(numer as int, denom as int);
        Rational { numer: p.0 as i64, denom: p.1 as i64 }
    }

    /// The exact sum, or `Overflow` where `raw_sum` gives up or the result is
    /// out of range.
    pub open spec fn spec_add(self, rhs: Rational) -> Result<Rational, AlgebraError> {
        match raw_sum(self, rhs) {
            Some(p) => Rational::from_pair(p),
            None => Err(AlgebraError::Overflow),
        }
    }

    /// The exact product, or `Overflow` where `raw_product` gives up or the
    /// result is out of range.
    pub open spec fn spec_mul(self, rhs: Rational) -> Result<Rational, AlgebraError> {
        match raw_product(self, rhs) {
            Some(p) => Rational::from_pair(p),
            None => Err(AlgebraError::Overflow),
        }
    }

    /// The exact quotient; `DivisionByZero` for a zero divisor, `Overflow` where
    /// `raw_quotient` gives up or the result is out of range.
    pub open spec fn spec_div(self, rhs: Rational) -> Result<Rational, AlgebraError> {
        if rhs.numer == 0 {
            Err(AlgebraError::DivisionByZero)
        } else {
            match raw_quotient(self, rhs) {
                Some(p) => Rational::from_pair(p),
                None => Err(AlgebraError::Overflow),
            }
        }
    }

    /// `-self`.
    pub open spec fn spec_neg(self) -> Rational {
        Rational { numer: (0 - self.numer) as i64, denom: self.denom }
    }

    /// The reciprocal; `DivisionByZero` for zero.
    pub open spec fn spec_recip(self) -> Result<Rational, AlgebraError> {
        if self.numer == 0 {
            Err(AlgebraError::DivisionByZero)
        } else if self.numer > 0 {
            Ok(Rational { numer: self.denom, denom: self.numer })
        } else {
            Ok(Rational { numer: (0 - self.denom) as i64, denom: (0 - self.numer) as i64 })
        }
    }

    /// The text of the fraction: the numerator alone for an integer, else
    /// numerator, `/`, denominator.
    pub open spec fn spec_text(self) -> Seq<char> {
        if self.denom == 1 {
            decimal(self.numer as int)
        } else {
            decimal(self.numer as int) + seq!['/'] + decimal(self.denom as int)
        }
    }
}

/// `gcd` does not depend on the order of its arguments.
pub proof fn lemma_gcd_symmetric(a: nat, b: nat)
    ensures
        gcd(a, b) == gcd(b, a),
{
    reveal_with_fuel(gcd, 3);
    if a == 0 || b == 0 {
    } else if a < b {
        assert(a % b == a) by {
            vstd::arithmetic::div_mod::lemma_small_mod(a, b);
        }
    } else if b < a {
        assert(b % a == b) by {
            vstd::arithmetic::div_mod::lemma_small_mod(b, a);
        }
    }
}

/// The greatest common divisor of two numbers, not both zero, is at least one
/// and at most each of them that is not zero.
pub proof fn lemma_gcd_bounds(a: nat, b: nat)
    requires
        a > 0 || b > 0,
    ensures
        gcd(a, b) >= 1,
        a > 0 ==> gcd(a, b) <= a,
        b > 0 ==> gcd(a, b) <= b,
    decreases b,
{
    if b != 0 {
        lemma_gcd_bounds(b, a % b);
        if a % b == 0 && a > 0 {
            if a < b {
                vstd::arithmetic::div_mod::lemma_small_mod(a, b);
            }
        }
        if a % b > 0 {
            vstd::arithmetic::div_mod::lemma_mod_decreases(a, b);
        }
    }
}

/// The least common multiple of two positive numbers, as `num_integer`
/// computes it.
pub open spec fn lcm(a: int, b: int) -> int {
    a * (b / (gcd(a as nat, b as nat) as int))
}

/// Every number is coprime to one.
pub proof fn lemma_gcd_with_one(a: nat)
    ensures
        gcd(a, 1) == 1,
        gcd(1, a) == 1,
{
    reveal_with_fuel(gcd, 3);
    lemma_gcd_symmetric(a, 1);
}

/// `num::rational::Ratio::<i64>::new`: the fraction in lowest terms with a
/// positive denominator. Neither argument is `i64::MIN`, so that no negation
/// inside the call can overflow, and the denominator is not zero.
#[verifier::external_body]
fn ratio_new(numer: i64, denom: i64) -> (r: Rational)
    requires
        denom != 0,
        numer > i64::MIN,
        denom > i64::MIN,
    ensures
        r == Rational::spec_new(numer, denom),
{
    let q = Ratio::new(numer, denom);
    Rational { numer: *q.numer(), denom: *q.denom() }
}

/// `CheckedAdd::checked_add` of `num` on two fractions in lowest terms: `None`
/// exactly where one of its checked integer steps overflows, else the sum in
/// lowest terms with a positive denominator.
#[verifier::external_body]
fn ratio_checked_add(a: Rational, b: Rational) -> (r: Option<(i64, i64)>)
    requires
        a.wf(),
        b.wf(),
    ensures
        r is Some <==> raw_sum(a, b) is Some,
        r matches Some(p) ==> raw_sum(a, b) == Some(widen(p)),
{
    let x = Ratio::new_raw(a.numer, a.denom);
    let y = Ratio::new_raw(b.numer, b.denom);
    match num::CheckedAdd::checked_add(&x, &y) {
        Some(z) => Some((*z.numer(), *z.denom())),
        None => None,
    }
}

/// `CheckedMul::checked_mul` of `num` on two fractions in lowest terms: `None`
/// exactly where one of its two checked products overflows, else the product
/// in lowest terms with a positive denominator.
#[verifier::external_body]
fn ratio_checked_mul(a: Rational, b: Rational) -> (r: Option<(i64, i64)>)
    requires
        a.wf(),
        b.wf(),
    ensures
        r is Some <==> raw_product(a, b) is Some,
        r matches Some(p) ==> raw_product(a, b) == Some(widen(p)),
{
    let x = Ratio::new_raw(a.numer, a.denom);
    let y = Ratio::new_raw(b.numer, b.denom);
    match num::CheckedMul::checked_mul(&x, &y) {
        Some(z) => Some((*z.numer(), *z.denom())),
        None => None,
    }
}

/// `CheckedDiv::checked_div` of `num` on two fractions in lowest terms, the
/// second not zero: a result is the quotient in lowest terms with a positive
/// denominator; there is none where a checked product overflows or where the
/// quotient in lowest terms has a part outside the range of `Rational`.
#[verifier::external_body]
fn ratio_checked_div(a: Rational, b: Rational) -> (r: Option<(i64, i64)>)
    requires
        a.wf(),
        b.wf(),
        b.numer != 0,
    ensures
        r matches Some(p) ==> raw_quotient(a, b) == Some(widen(p)),
        r is None ==> a.spec_div(b) is Err,
{
    let x = Ratio::new_raw(a.numer, a.denom);
    let y = Ratio::new_raw(b.numer, b.denom);
    match num::CheckedDiv::checked_div(&x, &y) {
        Some(z) => Some((*z.numer(), *z.denom())),
        None => None,
    }
}

/// The `<` of `num` on two fractions with positive denominators: the order of
/// the fractions they stand for.
#[verifier::external_body]
fn ratio_lt(a: Rational, b: Rational) -> (r: bool)
    requires
        a.denom > 0,
        b.denom > 0,
    ensures
        r == a.spec_lt(b),
{
    Ratio::new_raw(a.numer, a.denom) < Ratio::new_raw(b.numer, b.denom)
}

/// The `Display` text of `num` for a fraction: the numerator alone where the
/// denominator is one, else numerator, `/`, denominator, each in decimal.
#[verifier::external_body]
fn ratio_text(a: Rational) -> (s: String)
    ensures
        s@ == a.spec_text(),
{
    Ratio::new_raw(a.numer, a.denom).to_string()
}

/// `num_integer::gcd` on two integers other than `i64::MIN`: the greatest
/// common divisor of their absolute values.
#[verifier::external_body]
pub(crate) fn integer_gcd(a: i64, b: i64) -> (r: i64)
    requires
        a > i64::MIN,
        b > i64::MIN,
    ensures
        r == gcd(magnitude(a as int), magnitude(b as int)),
{
    num_integer::gcd(a, b)
}

/// `num_integer::lcm` on two positive integers whose least common multiple
/// fits in `i64`: that multiple, `a * (b / gcd(a, b))`.
#[verifier::external_body]
pub(crate) fn integer_lcm(a: i64, b: i64) -> (r: i64)
    requires
        a > 0,
        b > 0,
        fits(lcm(a as int, b as int)),
    ensures
        r == lcm(a as int, b as int),
{
    num_integer::lcm(a, b)
}

impl Rational {
    /// The fraction `numer / denom` in lowest terms. A zero denominator is left
    /// out, and `i64::MIN`, which has no negation.
    pub fn new(numer: i64, denom: i64) -> (r: Rational)
        requires
            denom != 0,
            numer > i64::MIN,
            denom > i64::MIN,
        ensures
            r == Rational::spec_new(numer, denom),
            r.wf(),
    {
        proof {
            crate::number::lemma_lowest_terms(numer as int, denom as int);
        }
        ratio_new(numer, denom)
    }

    /// Whether the fraction is in lowest terms with a positive denominator
    /// and a numerator that can be negated.
    pub fn is_wf(&self) -> (b: bool)
        ensures
            b == self.wf(),
    {
        self.denom > 0 && self.numer > i64::MIN && integer_gcd(self.numer, self.denom) == 1
    }

    /// The integer `n` as a fraction.
    pub fn from_integer(n: i64) -> (r: Rational)
        requires
            n > i64::MIN,
        ensures
            r == Rational::spec_from_integer(n),
            r.wf(),
    {
        proof {
            lemma_gcd_with_one(magnitude(n as int));
        }
        Rational { numer: n, denom: 1 }
    }

    pub fn zero() -> (r: Rational)
        ensures
            r == Rational::spec_zero(),
            r.wf(),
    {
        Rational::from_integer(0)
    }

    pub fn one() -> (r: Rational)
        ensures
            r == Rational::spec_one(),
            r.wf(),
    {
        Rational::from_integer(1)
    }

    pub fn numer(&self) -> (n: i64)
        ensures
            n == self.numer,
    {
        self.numer
    }

    pub fn denom(&self) -> (d: i64)
        ensures
            d == self.denom,
    {
        self.denom
    }

    pub fn is_zero(&self) -> (b: bool)
        ensures
            b == self.spec_is_zero(),
    {
        self.numer == 0
    }

    pub fn is_one(&self) -> (b: bool)
        ensures
            b == (*self == Rational::spec_one()),
    {
        self.numer == 1 && self.denom == 1
    }

    pub fn is_integer(&self) -> (b: bool)
        ensures
            b == self.spec_is_integer(),
    {
        self.denom == 1
    }

    /// The exact sum.
    pub fn checked_add(self, rhs: Rational) -> (r: Result<Rational, AlgebraError>)
        requires
            self.wf(),
            rhs.wf(),
        ensures
            r == self.spec_add(rhs),
            r matches Ok(q) ==> q.wf(),
    {
        proof {
            crate::number::lemma_raw_denominators(self, rhs);
            if raw_sum(self, rhs) matches Some(p) {
                let g = gcd(self.denom as nat, rhs.denom as nat) as int;
                let l = (self.denom as int / g) * rhs.denom;
                let x = (l / (self.denom as int)) * self.numer;
                let y = (l / (rhs.denom as int)) * rhs.numer;
                crate::number::lemma_lowest_terms(x + y, l);
            }
        }
        match ratio_checked_add(self, rhs) {
            Some(p) => {
                if p.0 == i64::MIN {
                    Err(AlgebraError::Overflow)
                } else {
                    Ok(Rational { numer: p.0, denom: p.1 })
                }
            },
            None => Err(AlgebraError::Overflow),
        }
    }

    /// The exact product.
    pub fn checked_mul(self, rhs: Rational) -> (r: Result<Rational, AlgebraError>)
        requires
            self.wf(),
            rhs.wf(),
        ensures
            r == self.spec_mul(rhs),
            r matches Ok(q) ==> q.wf(),
    {
        proof {
            crate::number::lemma_raw_denominators(self, rhs);
            if raw_product(self, rhs) matches Some(p) {
                let g1 = gcd(magnitude(self.numer as int), rhs.denom as nat) as int;
                let g2 = gcd(self.denom as nat, magnitude(rhs.numer as int)) as int;
                crate::number::lemma_lowest_terms(
                    (self.numer as int / g1) * (rhs.numer as int / g2),
                    (self.denom as int / g2) * (rhs.denom as int / g1),
                );
            }
        }
        match ratio_checked_mul(self, rhs) {
            Some(p) => {
                if p.0 == i64::MIN {
                    Err(AlgebraError::Overflow)
                } else {
                    Ok(Rational { numer: p.0, denom: p.1 })
                }
            },
            None => Err(AlgebraError::Overflow),
        }
    }

    /// The exact quotient.
    pub fn checked_div(self, rhs: Rational) -> (r: Result<Rational, AlgebraError>)
        requires
            self.wf(),
            rhs.wf(),
        ensures
            r == self.spec_div(rhs),
            r matches Ok(q) ==> q.wf(),
    {
        if rhs.numer == 0 {
            return Err(AlgebraError::DivisionByZero);
        }
        proof {
            crate::number::lemma_raw_denominators(self, rhs);
            let (an, ad, bn, bd) = (
                self.numer as int,
                self.denom as int,
                rhs.numer as int,
                rhs.denom as int,
            );
            let g1 = gcd(magnitude(an), magnitude(bn)) as int;
            let g2 = gcd(ad as nat, bd as nat) as int;
            if ad == bd {
                crate::number::lemma_lowest_terms(an, bn);
            } else if an == bn {
                crate::number::lemma_lowest_terms(bd, ad);
            } else {
                crate::number::lemma_lowest_terms((an / g1) * (bd / g2), (ad / g2) * (bn / g1));
            }
        }
        match ratio_checked_div(self, rhs) {
            Some(p) => {
                if p.0 == i64::MIN {
                    Err(AlgebraError::Overflow)
                } else {
                    Ok(Rational { numer: p.0, denom: p.1 })
                }
            },
            None => Err(AlgebraError::Overflow),
        }
    }

    /// `-self`.
    pub fn neg(self) -> (r: Rational)
        requires
            self.wf(),
        ensures
            r == self.spec_neg(),
            r.wf(),
    {
        Rational { numer: 0 - self.numer, denom: self.denom }
    }

    /// The reciprocal.
    pub fn recip(self) -> (r: Result<Rational, AlgebraError>)
        requires
            self.wf(),
        ensures
            r == self.spec_recip(),
            r matches Ok(q) ==> q.wf(),
    {
        proof {
            lemma_gcd_symmetric(magnitude(self.numer as int), self.denom as nat);
        }
        if self.numer == 0 {
            Err(AlgebraError::DivisionByZero)
        } else if self.numer > 0 {
            Ok(Rational { numer: self.denom, denom: self.numer })
        } else {
            Ok(Rational { numer: 0 - self.denom, denom: 0 - self.numer })
        }
    }

    /// `self < rhs`.
    pub fn lt(self, rhs: Rational) -> (b: bool)
        requires
            self.wf(),
            rhs.wf(),
        ensures
            b == self.spec_lt(rhs),
    {
        ratio_lt(self, rhs)
    }

    /// The greater of the two.
    pub fn max(self, rhs: Rational) -> (r: Rational)
        requires
            self.wf(),
            rhs.wf(),
        ensures
            r == self.spec_max(rhs),
    {
        if ratio_lt(self, rhs) {
            rhs
        } else {
            self
        }
    }

    /// The lesser of the two.
    pub fn min(self, rhs: Rational) -> (r: Rational)
        requires
            self.wf(),
            rhs.wf(),
        ensures
            r == self.spec_min(rhs),
    {
        if ratio_lt(rhs, self) {
            rhs
        } else {
            self
        }
    }

    /// The text of the fraction, as `spec_text` spells it.
    pub fn text(&self) -> (s: String)
        ensures
            s@ == self.spec_text(),
    {
        ratio_text(*self)
    }
}

} // verus!
