//! Facts about greatest common divisors and fractions in lowest terms.

use crate::rational::{gcd, lemma_gcd_bounds, lemma_gcd_symmetric, lowest_terms, magnitude, raw_product, raw_sum, Rational};
use crate::error::AlgebraError;
use crate::rational::lemma_gcd_with_one;
use vstd::arithmetic::div_mod::{lemma_add_mod_noop, lemma_div_by_self, lemma_fundamental_div_mod, lemma_fundamental_div_mod_converse, lemma_mod_multiples_basic, lemma_mod_self_0, lemma_mul_mod_noop_left, lemma_small_mod};
use vstd::prelude::*;

verus! {

/// The greatest common divisor divides both numbers.
pub proof fn lemma_gcd_divides(a: nat, b: nat)
    requires
        a > 0 || b > 0,
    ensures
        gcd(a, b) >= 1,
        a % gcd(a, b) == 0,
        b % gcd(a, b) == 0,
        a == gcd(a, b) * (a / gcd(a, b)),
        b == gcd(a, b) * (b / gcd(a, b)),
    decreases b,
{
    lemma_gcd_bounds(a, b);
    let g = gcd(a, b) as int;
    lemma_small_mod(0, g as nat);
    if b == 0 {
        lemma_mod_self_0(a as int);
    } else {
        lemma_gcd_divides(b, a % b);
        lemma_fundamental_div_mod(a as int, b as int);
        let q = (a / b) as int;
        let r = (a % b) as int;
        lemma_mul_mod_noop_left(b as int, q, g);
        assert((b as int * q) % g == 0) by {
            assert(((b as int % g) * q) % g == 0) by {
                assert((b as int % g) * q == 0) by (nonlinear_arith)
                    requires
                        b as int % g == 0,
                ;
                lemma_small_mod(0, g as nat);
            }
        }
        lemma_add_mod_noop(b as int * q, r, g);
        assert(a as int == b as int * q + r);
    }
    lemma_fundamental_div_mod(a as int, g);
    lemma_fundamental_div_mod(b as int, g);
}

/// The greatest common divisor is a combination of the two numbers with
/// whole coefficients.
pub proof fn lemma_bezout(a: nat, b: nat) -> (r: (int, int))
    ensures
        r.0 * a + r.1 * b == gcd(a, b),
    decreases b,
{
    if b == 0 {
        (1, 0)
    } else {
        let (u, v) = lemma_bezout(b, a % b);
        lemma_fundamental_div_mod(a as int, b as int);
        let q = (a / b) as int;
        let m = (a % b) as int;
        assert(v * a + (u - v * q) * b == u * b + v * m) by (nonlinear_arith)
            requires
                a == b * q + m,
        ;
        (v, u - v * q)
    }
}

/// Two numbers divided by their greatest common divisor have no common
/// divisor left.
pub proof fn lemma_coprime_quotients(n: nat, d: nat)
    requires
        d > 0,
    ensures
        gcd(n, d) >= 1,
        gcd(n / gcd(n, d), d / gcd(n, d)) == 1,
        n == gcd(n, d) * (n / gcd(n, d)),
        d == gcd(n, d) * (d / gcd(n, d)),
        d / gcd(n, d) >= 1,
{
    let g = gcd(n, d);
    lemma_gcd_divides(n, d);
    let n1 = n / g;
    let d1 = d / g;
    assert(d1 >= 1) by (nonlinear_arith)
        requires
            d == g * d1,
            d > 0,
            g >= 1,
    ;
    let (u, v) = lemma_bezout(n, d);
    assert(u * n1 + v * d1 == 1) by (nonlinear_arith)
        requires
            u * n + v * d == g,
            n == g * n1,
            d == g * d1,
            g >= 1,
    ;
    let c = gcd(n1, d1);
    lemma_gcd_divides(n1, d1);
    let x = n1 / c;
    let y = d1 / c;
    assert(c == 1) by (nonlinear_arith)
        requires
            u * n1 + v * d1 == 1,
            n1 == c * x,
            d1 == c * y,
            c >= 1,
    {
        assert(c * (u * x + v * y) == 1);
    }
}

/// A number coprime to `y` that gives a multiple of `y` when multiplied by
/// `z`: then `z` is a multiple of `y`.
pub proof fn lemma_euclid(x: nat, y: nat, z: nat)
    requires
        y > 0,
        gcd(x, y) == 1,
        (x * z) % y == 0,
    ensures
        z % y == 0,
{
    let (u, v) = lemma_bezout(x, y);
    lemma_fundamental_div_mod((x * z) as int, y as int);
    let m = ((x * z) / y) as int;
    assert(z == (u * m + v * z) * y) by (nonlinear_arith)
        requires
            u * x + v * y == 1,
            x * z == y * m,
    {
        assert(z == (u * x + v * y) * z);
        assert(u * x * z == u * (x * z));
    }
    lemma_mod_multiples_basic(u * m + v * z, y as int);
}

/// Two positive numbers that divide each other are equal.
pub proof fn lemma_divide_each_other(x: nat, y: nat)
    requires
        x > 0,
        y > 0,
        x % y == 0,
        y % x == 0,
    ensures
        x == y,
{
    if x < y {
        lemma_small_mod(x, y);
    } else if y < x {
        lemma_small_mod(y, x);
    }
}

/// Two fractions in lowest terms of the same value are the same fraction.
pub proof fn lemma_reduced_unique(a: Rational, b: Rational)
    requires
        a.wf(),
        b.wf(),
        a.numer * b.denom == b.numer * a.denom,
    ensures
        a == b,
{
    let an = magnitude(a.numer as int);
    let bn = magnitude(b.numer as int);
    let ad = a.denom as nat;
    let bd = b.denom as nat;
    let (x, y) = (a.numer as int, b.numer as int);
    assert(an * bd == bn * ad && (x < 0 <==> y < 0)) by (nonlinear_arith)
        requires
            x * bd == y * ad,
            ad > 0,
            bd > 0,
            an == if x < 0 {
                -x
            } else {
                x
            },
            bn == if y < 0 {
                -y
            } else {
                y
            },
    ;
    lemma_mod_multiples_basic(bn as int, ad as int);
    lemma_euclid(an, ad, bd);
    lemma_mod_multiples_basic(an as int, bd as int);
    assert(bn * ad == ad * bn) by (nonlinear_arith);
    assert(an * bd == bd * an) by (nonlinear_arith);
    assert((bn * ad) % bd == 0);
    lemma_euclid(bn, bd, ad);
    lemma_divide_each_other(ad, bd);
    assert(an == bn) by (nonlinear_arith)
        requires
            an * bd == bn * ad,
            ad == bd,
            bd > 0,
    ;
}

/// Of two different fractions in lowest terms one is less than the other.
pub proof fn lemma_fraction_total(a: Rational, b: Rational)
    requires
        a.wf(),
        b.wf(),
    ensures
        a == b || a.spec_lt(b) || b.spec_lt(a),
{
    if !a.spec_lt(b) && !b.spec_lt(a) {
        assert(b.numer * a.denom == a.numer * b.denom) by (nonlinear_arith)
            requires
                !(a.numer * b.denom < b.numer * a.denom),
                !(b.numer * a.denom < a.numer * b.denom),
        ;
        lemma_reduced_unique(a, b);
    }
}

/// A fraction brought into lowest terms has a positive denominator, no
/// common divisor left, and the value it had.
pub proof fn lemma_lowest_terms(n: int, d: int)
    requires
        d != 0,
    ensures
        lowest_terms(n, d).1 > 0,
        gcd(magnitude(lowest_terms(n, d).0), lowest_terms(n, d).1 as nat) == 1,
        lowest_terms(n, d).0 * d == n * lowest_terms(n, d).1,
        magnitude(lowest_terms(n, d).0) <= magnitude(n),
        lowest_terms(n, d).1 <= magnitude(d),
{
    let mn = magnitude(n);
    let md = magnitude(d);
    let g = gcd(mn, md) as int;
    lemma_coprime_quotients(mn, md);
    let n1 = (mn / (g as nat)) as int;
    let d1 = (md / (g as nat)) as int;
    let sn = if d > 0 {
        n
    } else {
        0 - n
    };
    let sd = if d > 0 {
        d
    } else {
        0 - d
    };
    assert(sd == md);
    let k = if sn < 0 {
        0 - n1
    } else {
        n1
    };
    assert(sn == g * k + 0) by (nonlinear_arith)
        requires
            mn == g * n1,
            mn == if sn < 0 {
                -sn
            } else {
                sn
            },
            k == if sn < 0 {
                0 - n1
            } else {
                n1
            },
    ;
    lemma_fundamental_div_mod_converse(sn, g, k, 0);
    assert(lowest_terms(n, d) == (k, d1));
    assert(magnitude(k) == n1);
    assert(n1 <= mn && d1 <= md) by (nonlinear_arith)
        requires
            mn == g * n1,
            md == g * d1,
            g >= 1,
            n1 >= 0,
            d1 >= 0,
    ;
    assert(k * d == n * d1) by (nonlinear_arith)
        requires
            sn == g * k,
            sd == g * d1,
            g >= 1,
            (sn == n && sd == d) || (sn == 0 - n && sd == 0 - d),
    {
        assert(k * sd == sn * d1);
    }
}

/// The sum of two fractions, as the model computes it, does not depend on
/// their order.
pub proof fn lemma_sum_commutes(a: Rational, b: Rational)
    requires
        a.denom > 0,
        b.denom > 0,
    ensures
        a.spec_add(b) == b.spec_add(a),
{
    let (an, ad, bn, bd) = (a.numer as int, a.denom as int, b.numer as int, b.denom as int);
    let g = gcd(ad as nat, bd as nat) as int;
    lemma_gcd_symmetric(ad as nat, bd as nat);
    lemma_gcd_divides(ad as nat, bd as nat);
    let a1 = ad / g;
    let b1 = bd / g;
    let l = a1 * bd;
    let l2 = b1 * ad;
    assert(l == l2) by (nonlinear_arith)
        requires
            l == a1 * bd,
            l2 == b1 * ad,
            ad == g * a1,
            bd == g * b1,
    ;
    assert(raw_sum(a, b) == raw_sum(b, a));
}

/// The denominators that the model of the sum, the product and the
/// quotient bring into lowest terms are not zero.
pub proof fn lemma_raw_denominators(a: Rational, b: Rational)
    requires
        a.denom > 0,
        b.denom > 0,
    ensures
        ({
            let g = gcd(a.denom as nat, b.denom as nat) as int;
            (a.denom as int / g) * b.denom > 0
        }),
        ({
            let g1 = gcd(magnitude(a.numer as int), b.denom as nat) as int;
            let g2 = gcd(a.denom as nat, magnitude(b.numer as int)) as int;
            (a.denom as int / g2) * (b.denom as int / g1) > 0
        }),
        b.numer != 0 ==> ({
            let g1 = gcd(magnitude(a.numer as int), magnitude(b.numer as int)) as int;
            let g2 = gcd(a.denom as nat, b.denom as nat) as int;
            (a.denom as int / g2) * (b.numer as int / g1) != 0
        }),
{
    let (an, ad, bn, bd) = (a.numer as int, a.denom as int, b.numer as int, b.denom as int);
    lemma_gcd_divides(ad as nat, bd as nat);
    let g = gcd(ad as nat, bd as nat) as int;
    assert((ad / g) * bd > 0) by (nonlinear_arith)
        requires
            ad == g * (ad / g),
            ad > 0,
            bd > 0,
            g >= 1,
    ;
    lemma_gcd_divides(magnitude(an), bd as nat);
    lemma_gcd_divides(ad as nat, magnitude(bn));
    let g1 = gcd(magnitude(an), bd as nat) as int;
    let g2 = gcd(ad as nat, magnitude(bn)) as int;
    assert((ad / g2) * (bd / g1) > 0) by (nonlinear_arith)
        requires
            ad == g2 * (ad / g2),
            bd == g1 * (bd / g1),
            ad > 0,
            bd > 0,
            g1 >= 1,
            g2 >= 1,
    ;
    if bn != 0 {
        let h = gcd(magnitude(an), magnitude(bn)) as int;
        lemma_gcd_divides(magnitude(an), magnitude(bn));
        let m = magnitude(bn) as int;
        let k = m / h;
        let sk = if bn < 0 {
            0 - k
        } else {
            k
        };
        assert(bn == h * sk + 0 && sk != 0) by (nonlinear_arith)
            requires
                m == h * k,
                m > 0,
                h >= 1,
                m == if bn < 0 {
                    -bn
                } else {
                    bn
                },
                sk == if bn < 0 {
                    0 - k
                } else {
                    k
                },
        ;
        lemma_fundamental_div_mod_converse(bn, h, sk, 0);
        assert((ad / g) * (bn / h) != 0) by (nonlinear_arith)
            requires
                ad == g * (ad / g),
                ad > 0,
                g >= 1,
                bn / h != 0,
        ;
    }
}

/// The sum that the model gives is a fraction in lowest terms whose value
/// is the sum of the two values.
pub proof fn lemma_sum_value(a: Rational, b: Rational)
    requires
        a.denom > 0,
        b.denom > 0,
        a.spec_add(b) is Ok,
    ensures
        a.spec_add(b).unwrap().wf(),
        a.spec_add(b).unwrap().numer * (a.denom * b.denom) == (a.numer * b.denom + b.numer
            * a.denom) * a.spec_add(b).unwrap().denom,
{
    let (an, ad, bn, bd) = (a.numer as int, a.denom as int, b.numer as int, b.denom as int);
    let g = gcd(ad as nat, bd as nat) as int;
    lemma_gcd_divides(ad as nat, bd as nat);
    let a1 = ad / g;
    let b1 = bd / g;
    let l = a1 * bd;
    assert(l == ad * b1 + 0 && l == bd * a1 + 0 && l > 0) by (nonlinear_arith)
        requires
            l == a1 * bd,
            ad == g * a1,
            bd == g * b1,
            ad > 0,
            bd > 0,
            g >= 1,
    ;
    lemma_fundamental_div_mod_converse(l, ad, b1, 0);
    lemma_fundamental_div_mod_converse(l, bd, a1, 0);
    let x = (l / ad) * an;
    let y = (l / bd) * bn;
    lemma_lowest_terms(x + y, l);
    let p = lowest_terms(x + y, l);
    let c = a.spec_add(b).unwrap();
    assert(c.numer == p.0 && c.denom == p.1);
    assert(p.0 * (ad * bd) == (an * bd + bn * ad) * p.1) by (nonlinear_arith)
        requires
            p.0 * l == (x + y) * p.1,
            x == b1 * an,
            y == a1 * bn,
            l == a1 * bd,
            ad == g * a1,
            bd == g * b1,
    {
        assert(ad * bd == g * l);
        assert(an * bd + bn * ad == g * (x + y));
        assert(p.0 * (g * l) == g * (p.0 * l));
        assert(g * ((x + y) * p.1) == (g * (x + y)) * p.1);
    }
}

/// Adding zero changes nothing.
pub proof fn lemma_sum_zero(a: Rational)
    requires
        a.wf(),
    ensures
        a.spec_add(Rational::spec_zero()) == Ok::<Rational, AlgebraError>(a),
        Rational::spec_zero().spec_add(a) == Ok::<Rational, AlgebraError>(a),
{
    let z = Rational::spec_zero();
    let (an, ad) = (a.numer as int, a.denom as int);
    lemma_gcd_with_one(ad as nat);
    lemma_div_by_self(ad);
    assert(ad / 1 == ad);
    assert(1int / 1 == 1);
    assert((ad / 1) * 1 == ad) by (nonlinear_arith)
        requires
            ad / 1 == ad,
    ;
    assert((1int / 1) * ad == ad) by (nonlinear_arith)
        requires
            1int / 1 == 1,
    ;
    assert((ad / ad) * an == an) by (nonlinear_arith)
        requires
            ad / ad == 1,
    ;
    assert((ad / 1) * 0 == 0) by (nonlinear_arith);
    assert(an / 1 == an);
    assert(lowest_terms(an, ad) == (an, ad));
    assert(raw_sum(a, z) == Some((an, ad)));
    assert(raw_sum(z, a) == Some((an, ad)));
}

/// A positive factor on both sides of an equation can be dropped.
pub proof fn lemma_cancel(k: int, x: int, y: int)
    requires
        k > 0,
        k * x == k * y,
    ensures
        x == y,
{
    assert(x == y) by (nonlinear_arith)
        requires
            k > 0,
            k * x == k * y,
    ;
}

/// The value of a sum of a sum: where `s` has the value of `x + y` and `t`
/// the value of `s + z`, `t` has the value of the three over their common
/// denominator.
pub proof fn lemma_two_sums(
    xn: int,
    xd: int,
    yn: int,
    yd: int,
    sn: int,
    sd: int,
    zn: int,
    zd: int,
    tn: int,
    td: int,
)
    requires
        sd > 0,
        sn * (xd * yd) == (xn * yd + yn * xd) * sd,
        tn * (sd * zd) == (sn * zd + zn * sd) * td,
    ensures
        tn * (xd * yd * zd) == (xn * yd * zd + yn * xd * zd + zn * xd * yd) * td,
{
    let p = xd * yd;
    let u = xn * yd + yn * xd;
    let w = u * zd + zn * p;
    assert((sn * zd + zn * sd) * p == sd * w) by (nonlinear_arith)
        requires
            sn * p == u * sd,
            w == u * zd + zn * p,
    {
        assert((sn * zd + zn * sd) * p == (sn * p) * zd + zn * sd * p);
        assert((u * sd) * zd + zn * sd * p == sd * (u * zd + zn * p));
    }
    assert(sd * (tn * (p * zd)) == sd * (w * td)) by (nonlinear_arith)
        requires
            tn * (sd * zd) == (sn * zd + zn * sd) * td,
            (sn * zd + zn * sd) * p == sd * w,
    {
        assert(sd * (tn * (p * zd)) == (tn * (sd * zd)) * p);
        assert(((sn * zd + zn * sd) * td) * p == ((sn * zd + zn * sd) * p) * td);
        assert((sd * w) * td == sd * (w * td));
    }
    lemma_cancel(sd, tn * (p * zd), w * td);
    assert(w == xn * yd * zd + yn * xd * zd + zn * xd * yd) by (nonlinear_arith)
        requires
            w == u * zd + zn * p,
            u == xn * yd + yn * xd,
            p == xd * yd,
    ;
    assert(p * zd == xd * yd * zd);
}

/// Where the sums of three fractions exist in both groupings, they are
/// equal.
pub proof fn lemma_sum_associative(a: Rational, b: Rational, c: Rational)
    requires
        a.wf(),
        b.wf(),
        c.wf(),
        a.spec_add(b) is Ok,
        a.spec_add(b).unwrap().spec_add(c) is Ok,
        b.spec_add(c) is Ok,
        a.spec_add(b.spec_add(c).unwrap()) is Ok,
    ensures
        a.spec_add(b).unwrap().spec_add(c) == a.spec_add(b.spec_add(c).unwrap()),
{
    let ab = a.spec_add(b).unwrap();
    let bc = b.spec_add(c).unwrap();
    lemma_sum_value(a, b);
    lemma_sum_value(b, c);
    lemma_sum_value(ab, c);
    lemma_sum_value(a, bc);
    let l = ab.spec_add(c).unwrap();
    let r = a.spec_add(bc).unwrap();
    let (an, ad, bn, bd, cn, cd) = (
        a.numer as int,
        a.denom as int,
        b.numer as int,
        b.denom as int,
        c.numer as int,
        c.denom as int,
    );
    let (abn, abd, bcn, bcd) = (ab.numer as int, ab.denom as int, bc.numer as int, bc.denom as int);
    let (ln, ld, rn, rd) = (l.numer as int, l.denom as int, r.numer as int, r.denom as int);
    lemma_two_sums(an, ad, bn, bd, abn, abd, cn, cd, ln, ld);
    assert(bcn * ad + an * bcd == an * bcd + bcn * ad);
    assert(bcd * ad == ad * bcd) by (nonlinear_arith);
    lemma_two_sums(bn, bd, cn, cd, bcn, bcd, an, ad, rn, rd);
    let t = an * bd * cd + bn * ad * cd + cn * ad * bd;
    let d = ad * bd * cd;
    assert(bd * cd * ad == d && bn * cd * ad + cn * bd * ad + an * bd * cd == t)
        by (nonlinear_arith)
        requires
            t == an * bd * cd + bn * ad * cd + cn * ad * bd,
            d == ad * bd * cd,
    ;
    assert(d > 0) by (nonlinear_arith)
        requires
            d == ad * bd * cd,
            ad > 0,
            bd > 0,
            cd > 0,
    ;
    assert(d * (ln * rd) == d * (rn * ld)) by (nonlinear_arith)
        requires
            ln * d == t * ld,
            rn * d == t * rd,
    {
        assert(d * (ln * rd) == (ln * d) * rd);
        assert(d * (rn * ld) == (rn * d) * ld);
        assert((t * ld) * rd == (t * rd) * ld);
    }
    lemma_cancel(d, ln * rd, rn * ld);
    lemma_reduced_unique(l, r);
}

/// A number whose magnitude is a multiple of `g` is `g` times its quotient
/// by `g`.
pub proof fn lemma_exact_division(n: int, g: int)
    requires
        g >= 1,
        (magnitude(n) as int) % g == 0,
    ensures
        n == g * (n / g),
{
    let m = magnitude(n) as int;
    lemma_fundamental_div_mod(m, g);
    let k = m / g;
    let sk = if n < 0 {
        0 - k
    } else {
        k
    };
    assert(n == g * sk + 0) by (nonlinear_arith)
        requires
            m == g * k,
            m == if n < 0 {
                -n
            } else {
                n
            },
            sk == if n < 0 {
                0 - k
            } else {
                k
            },
    ;
    lemma_fundamental_div_mod_converse(n, g, sk, 0);
}

/// The product that the model gives is a fraction in lowest terms whose
/// value is the product of the two values.
pub proof fn lemma_product_value(a: Rational, b: Rational)
    requires
        a.denom > 0,
        b.denom > 0,
        a.spec_mul(b) is Ok,
    ensures
        a.spec_mul(b).unwrap().wf(),
        a.spec_mul(b).unwrap().numer * (a.denom * b.denom) == (a.numer * b.numer) * a.spec_mul(
            b,
        ).unwrap().denom,
{
    let (an, ad, bn, bd) = (a.numer as int, a.denom as int, b.numer as int, b.denom as int);
    let g1 = gcd(magnitude(an), bd as nat) as int;
    let g2 = gcd(ad as nat, magnitude(bn)) as int;
    lemma_gcd_divides(magnitude(an), bd as nat);
    lemma_gcd_divides(ad as nat, magnitude(bn));
    lemma_exact_division(an, g1);
    lemma_exact_division(bn, g2);
    lemma_raw_denominators(a, b);
    let n = (an / g1) * (bn / g2);
    let d = (ad / g2) * (bd / g1);
    lemma_lowest_terms(n, d);
    let p = lowest_terms(n, d);
    let c = a.spec_mul(b).unwrap();
    assert(c.numer == p.0 && c.denom == p.1);
    let (a1, b2, a2, b1) = (an / g1, bn / g2, ad / g2, bd / g1);
    assert(p.0 * (ad * bd) == (an * bn) * p.1) by (nonlinear_arith)
        requires
            p.0 * d == n * p.1,
            n == a1 * b2,
            d == a2 * b1,
            an == g1 * a1,
            bn == g2 * b2,
            ad == g2 * a2,
            bd == g1 * b1,
    {
        assert(ad * bd == (g1 * g2) * d);
        assert(an * bn == (g1 * g2) * n);
        assert(p.0 * ((g1 * g2) * d) == (g1 * g2) * (p.0 * d));
        assert((g1 * g2) * (n * p.1) == ((g1 * g2) * n) * p.1);
    }
}

/// The product of two fractions, as the model computes it, does not depend
/// on their order.
pub proof fn lemma_product_commutes(a: Rational, b: Rational)
    requires
        a.denom > 0,
        b.denom > 0,
    ensures
        a.spec_mul(b) == b.spec_mul(a),
{
    let (an, ad, bn, bd) = (a.numer as int, a.denom as int, b.numer as int, b.denom as int);
    lemma_gcd_symmetric(magnitude(an), bd as nat);
    lemma_gcd_symmetric(ad as nat, magnitude(bn));
    let g1 = gcd(magnitude(an), bd as nat) as int;
    let g2 = gcd(ad as nat, magnitude(bn)) as int;
    assert((an / g1) * (bn / g2) == (bn / g2) * (an / g1)) by (nonlinear_arith);
    assert((ad / g2) * (bd / g1) == (bd / g1) * (ad / g2)) by (nonlinear_arith);
    assert(raw_product(a, b) == raw_product(b, a));
}

/// Dividing a fraction by a whole number and multiplying the result by
/// that number gives the fraction again, where both products exist.
pub proof fn lemma_scale_and_back(c: Rational, g: i64)
    requires
        c.wf(),
        g >= 1,
        c.spec_mul(Rational::spec_new(1, g)) is Ok,
        Rational::spec_from_integer(g).spec_mul(
            c.spec_mul(Rational::spec_new(1, g)).unwrap(),
        ) is Ok,
    ensures
        Rational::spec_new(1, g) == (Rational { numer: 1, denom: g }),
        Rational::spec_from_integer(g).spec_mul(c.spec_mul(Rational::spec_new(1, g)).unwrap())
            == Ok::<Rational, AlgebraError>(c),
{
    let inv = Rational::spec_new(1, g);
    lemma_gcd_with_one(g as nat);
    assert(inv == (Rational { numer: 1, denom: g })) by {
        assert(1int / 1 == 1);
        assert(g as int / 1 == g);
    }
    let whole = Rational::spec_from_integer(g);
    let c1 = c.spec_mul(inv).unwrap();
    lemma_product_value(c, inv);
    lemma_product_value(whole, c1);
    let c2 = whole.spec_mul(c1).unwrap();
    let (cn, cd, xn, xd, yn, yd) = (
        c.numer as int,
        c.denom as int,
        c1.numer as int,
        c1.denom as int,
        c2.numer as int,
        c2.denom as int,
    );
    let k = g as int;
    assert(yn * cd == cn * yd) by (nonlinear_arith)
        requires
            xn * (cd * k) == (cn * 1) * xd,
            yn * (1 * xd) == (k * xn) * yd,
            k >= 1,
            cd > 0,
            xd > 0,
            yd > 0,
    {
        assert(yn * xd * cd == k * xn * yd * cd);
        assert(k * xn * cd == cn * xd);
        assert(yn * xd * cd == cn * xd * yd);
        assert(xd * (yn * cd) == xd * (cn * yd));
    }
    lemma_reduced_unique(c2, c);
}

/// The product of two fractions other than zero is not zero.
pub proof fn lemma_product_nonzero(a: Rational, b: Rational)
    requires
        a.denom > 0,
        b.denom > 0,
        a.numer != 0,
        b.numer != 0,
        a.spec_mul(b) is Ok,
    ensures
        a.spec_mul(b).unwrap().numer != 0,
{
    lemma_product_value(a, b);
    let c = a.spec_mul(b).unwrap();
    let (an, ad, bn, bd, cn, cd) = (
        a.numer as int,
        a.denom as int,
        b.numer as int,
        b.denom as int,
        c.numer as int,
        c.denom as int,
    );
    assert(cn != 0) by (nonlinear_arith)
        requires
            cn * (ad * bd) == (an * bn) * cd,
            an != 0,
            bn != 0,
            cd > 0,
    ;
}

/// The two pairs, read as fractions, have the same value.
pub open spec fn same_value(a: (int, int), b: (int, int)) -> bool {
    a.0 * b.1 == b.0 * a.1
}

/// Numerator and denominator of a fraction.
pub open spec fn pair_of(q: Rational) -> (int, int) {
    (q.numer as int, q.denom as int)
}

/// The product of two fractions given as pairs, not reduced.
pub open spec fn times_pair(a: (int, int), b: (int, int)) -> (int, int) {
    (a.0 * b.0, a.1 * b.1)
}

/// The sum of two fractions given as pairs, not reduced.
pub open spec fn plus_pair(a: (int, int), b: (int, int)) -> (int, int) {
    (a.0 * b.1 + b.0 * a.1, a.1 * b.1)
}

/// Having the same value is transitive.
pub proof fn lemma_value_transitive(a: (int, int), b: (int, int), c: (int, int))
    requires
        b.1 > 0,
        same_value(a, b),
        same_value(b, c),
    ensures
        same_value(a, c),
{
    let (a0, a1, b0, b1, c0, c1) = (a.0, a.1, b.0, b.1, c.0, c.1);
    assert(b1 * (a0 * c1) == b1 * (c0 * a1)) by (nonlinear_arith)
        requires
            a0 * b1 == b0 * a1,
            b0 * c1 == c0 * b1,
    {
        assert(b1 * (a0 * c1) == (a0 * b1) * c1);
        assert((b0 * a1) * c1 == (b0 * c1) * a1);
        assert((c0 * b1) * a1 == b1 * (c0 * a1));
    }
    lemma_cancel(b1, a0 * c1, c0 * a1);
}

/// Products of pairs with the same value have the same value.
pub proof fn lemma_times_compatible(a: (int, int), a2: (int, int), b: (int, int))
    requires
        same_value(a, a2),
    ensures
        same_value(times_pair(a, b), times_pair(a2, b)),
        same_value(times_pair(b, a), times_pair(b, a2)),
{
    let (x0, x1, y0, y1, b0, b1) = (a.0, a.1, a2.0, a2.1, b.0, b.1);
    assert((x0 * b0) * (y1 * b1) == (y0 * b0) * (x1 * b1)) by (nonlinear_arith)
        requires
            x0 * y1 == y0 * x1,
    {
        assert((x0 * b0) * (y1 * b1) == (x0 * y1) * (b0 * b1));
        assert((y0 * b0) * (x1 * b1) == (y0 * x1) * (b0 * b1));
    }
    assert((b0 * x0) * (b1 * y1) == (b0 * y0) * (b1 * x1)) by (nonlinear_arith)
        requires
            (x0 * b0) * (y1 * b1) == (y0 * b0) * (x1 * b1),
    ;
}

/// Sums of pairs with the same value have the same value.
pub proof fn lemma_plus_compatible(a: (int, int), a2: (int, int), b: (int, int))
    requires
        same_value(a, a2),
    ensures
        same_value(plus_pair(a, b), plus_pair(a2, b)),
        same_value(plus_pair(b, a), plus_pair(b, a2)),
{
    let (x0, x1, y0, y1, b0, b1) = (a.0, a.1, a2.0, a2.1, b.0, b.1);
    let lhs = (x0 * b1 + b0 * x1) * (y1 * b1);
    let rhs = (y0 * b1 + b0 * y1) * (x1 * b1);
    let shared = b0 * x1 * y1 * b1;
    vstd::arithmetic::mul::lemma_mul_is_distributive_add_other_way(y1 * b1, x0 * b1, b0 * x1);
    vstd::arithmetic::mul::lemma_mul_is_distributive_add_other_way(x1 * b1, y0 * b1, b0 * y1);
    assert((x0 * b1) * (y1 * b1) == (x0 * y1) * (b1 * b1)) by (nonlinear_arith);
    assert((y0 * b1) * (x1 * b1) == (y0 * x1) * (b1 * b1)) by (nonlinear_arith);
    assert((b0 * x1) * (y1 * b1) == shared) by (nonlinear_arith)
        requires
            shared == b0 * x1 * y1 * b1,
    ;
    assert((b0 * y1) * (x1 * b1) == shared) by (nonlinear_arith)
        requires
            shared == b0 * x1 * y1 * b1,
    ;
    assert(lhs == rhs);
    assert((b0 * x1 + x0 * b1) * (b1 * y1) == lhs) by (nonlinear_arith)
        requires
            lhs == (x0 * b1 + b0 * x1) * (y1 * b1),
    ;
    assert((b0 * y1 + y0 * b1) * (b1 * x1) == rhs) by (nonlinear_arith)
        requires
            rhs == (y0 * b1 + b0 * y1) * (x1 * b1),
    ;
}

/// The product that the model gives has the value of the product of the
/// pairs.
pub proof fn lemma_product_pair(a: Rational, b: Rational)
    requires
        a.denom > 0,
        b.denom > 0,
        a.spec_mul(b) is Ok,
    ensures
        a.spec_mul(b).unwrap().wf(),
        same_value(pair_of(a.spec_mul(b).unwrap()), times_pair(pair_of(a), pair_of(b))),
        times_pair(pair_of(a), pair_of(b)).1 > 0,
{
    lemma_product_value(a, b);
    assert(a.denom * b.denom > 0) by (nonlinear_arith)
        requires
            a.denom > 0,
            b.denom > 0,
    ;
}

/// The sum that the model gives has the value of the sum of the pairs.
pub proof fn lemma_sum_pair(a: Rational, b: Rational)
    requires
        a.denom > 0,
        b.denom > 0,
        a.spec_add(b) is Ok,
    ensures
        a.spec_add(b).unwrap().wf(),
        same_value(pair_of(a.spec_add(b).unwrap()), plus_pair(pair_of(a), pair_of(b))),
        plus_pair(pair_of(a), pair_of(b)).1 > 0,
{
    lemma_sum_value(a, b);
    assert(a.denom * b.denom > 0) by (nonlinear_arith)
        requires
            a.denom > 0,
            b.denom > 0,
    ;
}

/// Two fractions in lowest terms whose pairs have the same value are the
/// same fraction.
pub proof fn lemma_same_value_unique(a: Rational, b: Rational)
    requires
        a.wf(),
        b.wf(),
        same_value(pair_of(a), pair_of(b)),
    ensures
        a == b,
{
    lemma_reduced_unique(a, b);
}

/// A coefficient made whole by `adjust`, divided by `g`, scaled back by
/// `adjust` and multiplied by `g` again is the coefficient itself, where
/// the four products exist.
pub proof fn lemma_coefficient_chain(c: Rational, adjust: i64, g: i64)
    requires
        c.wf(),
        adjust >= 1,
        g >= 1,
        c.spec_mul(Rational::spec_from_integer(adjust)) is Ok,
        c.spec_mul(Rational::spec_from_integer(adjust)).unwrap().spec_mul(
            Rational { numer: 1, denom: g },
        ) is Ok,
        c.spec_mul(Rational::spec_from_integer(adjust)).unwrap().spec_mul(
            Rational { numer: 1, denom: g },
        ).unwrap().spec_mul(Rational { numer: 1, denom: adjust }) is Ok,
        Rational::spec_from_integer(g).spec_mul(
            c.spec_mul(Rational::spec_from_integer(adjust)).unwrap().spec_mul(
                Rational { numer: 1, denom: g },
            ).unwrap().spec_mul(Rational { numer: 1, denom: adjust }).unwrap(),
        ) is Ok,
    ensures
        Rational::spec_from_integer(g).spec_mul(
            c.spec_mul(Rational::spec_from_integer(adjust)).unwrap().spec_mul(
                Rational { numer: 1, denom: g },
            ).unwrap().spec_mul(Rational { numer: 1, denom: adjust }).unwrap(),
        ) == Ok::<Rational, AlgebraError>(c),
{
    let a = Rational::spec_from_integer(adjust);
    let ig = Rational { numer: 1, denom: g };
    let ia = Rational { numer: 1, denom: adjust };
    let wg = Rational::spec_from_integer(g);
    let c1 = c.spec_mul(a).unwrap();
    lemma_product_pair(c, a);
    let c2 = c1.spec_mul(ig).unwrap();
    lemma_product_pair(c1, ig);
    let c3 = c2.spec_mul(ia).unwrap();
    lemma_product_pair(c2, ia);
    let c4 = wg.spec_mul(c3).unwrap();
    lemma_product_pair(wg, c3);
    let t1 = times_pair(pair_of(c), pair_of(a));
    lemma_times_compatible(pair_of(c1), t1, pair_of(ig));
    let t2 = times_pair(t1, pair_of(ig));
    assert(t1.1 * g > 0) by (nonlinear_arith)
        requires
            t1.1 > 0,
            g >= 1,
    ;
    lemma_value_transitive(pair_of(c2), times_pair(pair_of(c1), pair_of(ig)), t2);
    lemma_times_compatible(pair_of(c2), t2, pair_of(ia));
    let t3 = times_pair(t2, pair_of(ia));
    assert(t2.1 * adjust > 0) by (nonlinear_arith)
        requires
            t2.1 > 0,
            adjust >= 1,
    ;
    lemma_value_transitive(pair_of(c3), times_pair(pair_of(c2), pair_of(ia)), t3);
    lemma_times_compatible(pair_of(c3), t3, pair_of(wg));
    let t4 = times_pair(pair_of(wg), t3);
    assert(1 * t3.1 > 0);
    lemma_value_transitive(pair_of(c4), times_pair(pair_of(wg), pair_of(c3)), t4);
    let (cn, cd, k, h) = (c.numer as int, c.denom as int, adjust as int, g as int);
    assert(t4.0 == h * (((cn * k) * 1) * 1));
    assert(t4.1 == 1 * (((cd * 1) * h) * k));
    assert(same_value(t4, pair_of(c))) by (nonlinear_arith)
        requires
            t4.0 == h * (((cn * k) * 1) * 1),
            t4.1 == 1 * (((cd * 1) * h) * k),
            pair_of(c) == (cn, cd),
    ;
    lemma_value_transitive(pair_of(c4), t4, pair_of(c));
    lemma_same_value_unique(c4, c);
}

/// Taking `m` away from `d` and adding it again gives `d`; and where
/// nothing is left after taking `m` away, `d` is `m`.
pub proof fn lemma_add_back(d: Rational, m: Rational)
    requires
        d.wf(),
        m.wf(),
        d.spec_add(m.spec_neg()) is Ok,
    ensures
        m.spec_add(d.spec_add(m.spec_neg()).unwrap()) is Ok ==> m.spec_add(
            d.spec_add(m.spec_neg()).unwrap(),
        ) == Ok::<Rational, AlgebraError>(d),
        d.spec_add(m.spec_neg()).unwrap().numer == 0 ==> d == m,
{
    let z = m.spec_neg();
    let e = d.spec_add(z).unwrap();
    lemma_sum_pair(d, z);
    let (dn, dd, mn, md, en, ed) = (
        d.numer as int,
        d.denom as int,
        m.numer as int,
        m.denom as int,
        e.numer as int,
        e.denom as int,
    );
    assert(pair_of(z) == (0 - mn, md));
    let t1 = plus_pair(pair_of(d), pair_of(z));
    assert(t1 == (dn * md + (0 - mn) * dd, dd * md));
    if en == 0 {
        assert(dn * md == mn * dd) by (nonlinear_arith)
            requires
                en * (dd * md) == (dn * md + (0 - mn) * dd) * ed,
                en == 0,
                ed > 0,
        ;
        lemma_reduced_unique(d, m);
    }
    if m.spec_add(e) is Ok {
        let s = m.spec_add(e).unwrap();
        lemma_sum_pair(m, e);
        lemma_plus_compatible(pair_of(e), t1, pair_of(m));
        let t2 = plus_pair(pair_of(m), t1);
        lemma_value_transitive(pair_of(s), plus_pair(pair_of(m), pair_of(e)), t2);
        assert(t2 == (mn * (dd * md) + (dn * md + (0 - mn) * dd) * md, md * (dd * md)));
        assert(same_value(t2, pair_of(d))) by (nonlinear_arith)
            requires
                t2 == (mn * (dd * md) + (dn * md + (0 - mn) * dd) * md, md * (dd * md)),
                pair_of(d) == (dn, dd),
        {
            assert(mn * (dd * md) + (dn * md + (0 - mn) * dd) * md == dn * md * md);
            assert((dn * md * md) * dd == dn * (md * (dd * md)));
        }
        assert(md * (dd * md) > 0) by (nonlinear_arith)
            requires
                md > 0,
                dd > 0,
        ;
        lemma_value_transitive(pair_of(s), t2, pair_of(d));
        lemma_same_value_unique(s, d);
    }
}

/// Two fractions that give the same sum with a third are the same.
pub proof fn lemma_add_cancel(a: Rational, b: Rational, z: Rational)
    requires
        a.wf(),
        b.wf(),
        z.denom > 0,
        a.spec_add(z) is Ok,
        a.spec_add(z) == b.spec_add(z),
    ensures
        a == b,
{
    let e = a.spec_add(z).unwrap();
    lemma_sum_pair(a, z);
    lemma_sum_pair(b, z);
    let ta = plus_pair(pair_of(a), pair_of(z));
    let tb = plus_pair(pair_of(b), pair_of(z));
    assert(same_value(ta, pair_of(e)));
    lemma_value_transitive(ta, pair_of(e), tb);
    let (an, ad, bn, bd, zn, zd) = (
        a.numer as int,
        a.denom as int,
        b.numer as int,
        b.denom as int,
        z.numer as int,
        z.denom as int,
    );
    let lhs = (an * zd + zn * ad) * (bd * zd);
    let rhs = (bn * zd + zn * bd) * (ad * zd);
    assert(lhs == rhs);
    let shared = zn * ad * bd * zd;
    vstd::arithmetic::mul::lemma_mul_is_distributive_add_other_way(bd * zd, an * zd, zn * ad);
    vstd::arithmetic::mul::lemma_mul_is_distributive_add_other_way(ad * zd, bn * zd, zn * bd);
    assert((an * zd) * (bd * zd) == (zd * zd) * (an * bd)) by (nonlinear_arith);
    assert((bn * zd) * (ad * zd) == (zd * zd) * (bn * ad)) by (nonlinear_arith);
    assert((zn * ad) * (bd * zd) == shared) by (nonlinear_arith)
        requires
            shared == zn * ad * bd * zd,
    ;
    assert((zn * bd) * (ad * zd) == shared) by (nonlinear_arith)
        requires
            shared == zn * ad * bd * zd,
    ;
    assert((zd * zd) * (an * bd) == (zd * zd) * (bn * ad));
    assert(zd * zd > 0) by (nonlinear_arith)
        requires
            zd > 0,
    ;
    lemma_cancel(zd * zd, an * bd, bn * ad);
    lemma_reduced_unique(a, b);
}

/// Having the same value does not depend on the order of the two pairs.
pub proof fn lemma_value_symmetric(a: (int, int), b: (int, int))
    requires
        same_value(a, b),
    ensures
        same_value(b, a),
{
}

/// The sum and the product of two pairs with positive denominators have
/// positive denominators.
pub proof fn lemma_pairs_positive(a: (int, int), b: (int, int))
    requires
        a.1 > 0,
        b.1 > 0,
    ensures
        plus_pair(a, b).1 > 0,
        times_pair(a, b).1 > 0,
{
    assert(a.1 * b.1 > 0) by (nonlinear_arith)
        requires
            a.1 > 0,
            b.1 > 0,
    ;
}

/// Sums of pairs with the same values have the same value.
pub proof fn lemma_plus_compatible_both(
    a: (int, int),
    a2: (int, int),
    b: (int, int),
    b2: (int, int),
)
    requires
        a.1 > 0,
        a2.1 > 0,
        b.1 > 0,
        b2.1 > 0,
        same_value(a, a2),
        same_value(b, b2),
    ensures
        same_value(plus_pair(a, b), plus_pair(a2, b2)),
{
    lemma_plus_compatible(a, a2, b);
    lemma_plus_compatible(b, b2, a2);
    lemma_pairs_positive(a2, b);
    lemma_value_transitive(plus_pair(a, b), plus_pair(a2, b), plus_pair(a2, b2));
}

/// The product of a sum of pairs with a pair has the value of the sum of
/// the products.
pub proof fn lemma_times_distributes(a: (int, int), b: (int, int), c: (int, int))
    ensures
        same_value(
            times_pair(plus_pair(a, b), c),
            plus_pair(times_pair(a, c), times_pair(b, c)),
        ),
{
    let (a0, a1, b0, b1, c0, c1) = (a.0, a.1, b.0, b.1, c.0, c.1);
    let lhs_n = (a0 * b1 + b0 * a1) * c0;
    let lhs_d = (a1 * b1) * c1;
    let rhs_n = (a0 * c0) * (b1 * c1) + (b0 * c0) * (a1 * c1);
    let rhs_d = (a1 * c1) * (b1 * c1);
    assert(times_pair(plus_pair(a, b), c) == (lhs_n, lhs_d));
    assert(plus_pair(times_pair(a, c), times_pair(b, c)) == (rhs_n, rhs_d));
    vstd::arithmetic::mul::lemma_mul_is_distributive_add_other_way(c0, a0 * b1, b0 * a1);
    assert(rhs_n == lhs_n * c1) by (nonlinear_arith)
        requires
            lhs_n == (a0 * b1) * c0 + (b0 * a1) * c0,
            rhs_n == (a0 * c0) * (b1 * c1) + (b0 * c0) * (a1 * c1),
    {
        assert((a0 * c0) * (b1 * c1) == ((a0 * b1) * c0) * c1);
        assert((b0 * c0) * (a1 * c1) == ((b0 * a1) * c0) * c1);
    }
    assert(rhs_d == lhs_d * c1) by (nonlinear_arith)
        requires
            lhs_d == (a1 * b1) * c1,
            rhs_d == (a1 * c1) * (b1 * c1),
    ;
    assert(lhs_n * rhs_d == rhs_n * lhs_d) by (nonlinear_arith)
        requires
            rhs_n == lhs_n * c1,
            rhs_d == lhs_d * c1,
    ;
}

} // verus!
