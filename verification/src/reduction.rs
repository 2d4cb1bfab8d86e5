//! Lowest terms of a fraction.

use crate::division::{
    divides, lemma_divides_quotient, lemma_multiple_divisible, magnitude,
};
use crate::gcd::{gcd_divides_both, gcd_is_greatest, gcd_of, gcd_scales, gcd_zero_iff};
use vstd::arithmetic::mul::lemma_mul_equality_converse;
use vstd::prelude::*;

verus! {

/// The pair `(p, q)` in lowest terms with the sign on the numerator: both
/// divided by their greatest common divisor, and both negated where that
/// leaves a negative denominator. Only `(0, 0)` has no lowest terms.
pub open spec fn lowest_terms(p: int, q: int) -> (int, int) {
    let d = gcd_of(p, q);
    if q < 0 {
        (-(p / d), -(q / d))
    } else {
        (p / d, q / d)
    }
}

proof fn lemma_unit_factor(d: int, g: int, k: int)
    by (nonlinear_arith)
    requires
        d > 0,
        g > 0,
        d == (d * g) * k,
    ensures
        g == 1,
{
    assert(d * (g * k) == d * 1);
    assert(g * k == 1);
}

/// What the lowest terms of a pair other than `(0, 0)` are: the greatest
/// common divisor times them gives the pair back up to a common sign, so
/// they stand for the same fraction; their denominator is not negative, and
/// zero only where `q` is; they have no common divisor but one; and they are
/// no larger in magnitude than `p` and `q`.
pub proof fn lowest_terms_reduce(p: int, q: int)
    requires
        p != 0 || q != 0,
    ensures
        gcd_of(p, q) > 0,
        q >= 0 ==> p == gcd_of(p, q) * lowest_terms(p, q).0 && q == gcd_of(p, q) * lowest_terms(
            p,
            q,
        ).1,
        q < 0 ==> p == -(gcd_of(p, q) * lowest_terms(p, q).0) && q == -(gcd_of(p, q)
            * lowest_terms(p, q).1),
        lowest_terms(p, q).0 * q == p * lowest_terms(p, q).1,
        lowest_terms(p, q).1 >= 0,
        lowest_terms(p, q).1 == 0 <==> q == 0,
        gcd_of(lowest_terms(p, q).0, lowest_terms(p, q).1) == 1,
        magnitude(lowest_terms(p, q).0) <= magnitude(p),
        magnitude(lowest_terms(p, q).1) <= magnitude(q),
{
    let d = gcd_of(p, q);
    let (n, m) = lowest_terms(p, q);
    gcd_zero_iff(p, q);
    gcd_divides_both(p, q);
    lemma_divides_quotient(d, p);
    lemma_divides_quotient(d, q);
    let u = p / d;
    let v = q / d;
    assert(d * (-u) == -(d * u)) by (nonlinear_arith);
    assert(d * (-v) == -(d * v)) by (nonlinear_arith);
    assert(n * q == p * m) by (nonlinear_arith)
        requires
            (p == d * n && q == d * m) || (p == -(d * n) && q == -(d * m)),
    ;
    assert(m >= 0 && (m == 0 <==> q == 0)) by (nonlinear_arith)
        requires
            d > 0,
            (q >= 0 && q == d * m) || (q < 0 && q == -(d * m)),
    ;
    assert(magnitude(n) <= magnitude(p)) by (nonlinear_arith)
        requires
            d > 0,
            p == d * n || p == -(d * n),
    ;
    assert(magnitude(m) <= magnitude(q)) by (nonlinear_arith)
        requires
            d > 0,
            q == d * m || q == -(d * m),
    ;
    // A common divisor of the lowest terms, taken times `d`, divides `p` and
    // `q`, hence `d`: it is one.
    let g = gcd_of(n, m);
    assert(n != 0 || m != 0) by (nonlinear_arith)
        requires
            p != 0 || q != 0,
            p == d * n || p == -(d * n),
            q == d * m || q == -(d * m),
    ;
    gcd_zero_iff(n, m);
    gcd_divides_both(n, m);
    lemma_divides_quotient(g, n);
    lemma_divides_quotient(g, m);
    let s: int = if q < 0 {
        -1
    } else {
        1
    };
    let a = n / g;
    let b = m / g;
    let x = s * a;
    let y = s * b;
    assert(p == (d * g) * x) by (nonlinear_arith)
        requires
            p == s * (d * n),
            n == g * a,
            x == s * a,
    ;
    assert(q == (d * g) * y) by (nonlinear_arith)
        requires
            q == s * (d * m),
            m == g * b,
            y == s * b,
    ;
    assert(d * g > 0) by (nonlinear_arith)
        requires
            d > 0,
            g > 0,
    ;
    lemma_multiple_divisible(d * g, x);
    lemma_multiple_divisible(d * g, y);
    gcd_is_greatest(p, q);
    assert(divides(d * g, d));
    lemma_divides_quotient(d * g, d);
    lemma_unit_factor(d, g, d / (d * g));
}

/// A pair without a common divisor and with a denominator that is not
/// negative is its own lowest terms.
pub proof fn lowest_terms_of_reduced(p: int, q: int)
    requires
        gcd_of(p, q) == 1,
        q >= 0,
    ensures
        lowest_terms(p, q) == (p, q),
{
}

/// Both terms of a fraction times the same nonzero factor: the lowest
/// terms stay as they are.
pub proof fn lowest_terms_of_multiple(k: int, p: int, q: int)
    requires
        k != 0,
        q != 0,
    ensures
        lowest_terms(k * p, k * q) == lowest_terms(p, q),
{
    let d = gcd_of(p, q);
    let w = magnitude(k);
    let (n, m) = lowest_terms(p, q);
    let (n2, m2) = lowest_terms(k * p, k * q);
    let e: int = if q > 0 {
        1
    } else {
        -1
    };
    let f: int = if k > 0 {
        1
    } else {
        -1
    };
    assert(k * q != 0 && (k * q > 0 <==> e * f == 1)) by (nonlinear_arith)
        requires
            k != 0,
            q != 0,
            e == 1 <==> q > 0,
            f == 1 <==> k > 0,
            e == 1 || e == -1,
            f == 1 || f == -1,
    ;
    gcd_scales(k, p, q);
    lowest_terms_reduce(p, q);
    lowest_terms_reduce(k * p, k * q);
    let x = (k * d) * e;
    assert(x != 0) by (nonlinear_arith)
        requires
            k != 0,
            d > 0,
            e == 1 || e == -1,
            x == (k * d) * e,
    ;
    assert(x * n == x * n2) by (nonlinear_arith)
        requires
            e == 1 || e == -1,
            f == 1 || f == -1,
            w == f * k,
            x == (k * d) * e,
            p == e * (d * n),
            k * p == (e * f) * ((w * d) * n2),
    ;
    assert(x * m == x * m2) by (nonlinear_arith)
        requires
            e == 1 || e == -1,
            f == 1 || f == -1,
            w == f * k,
            x == (k * d) * e,
            q == e * (d * m),
            k * q == (e * f) * ((w * d) * m2),
    ;
    lemma_mul_equality_converse(x, n, n2);
    lemma_mul_equality_converse(x, m, m2);
}

/// Two pairs that are cross-multiplication-equal have the same lowest
/// terms, and so the same expansion.
pub proof fn lowest_terms_of_equal_fractions(p: int, q: int, r: int, s: int)
    requires
        q != 0,
        s != 0,
        p * s == r * q,
    ensures
        lowest_terms(p, q) == lowest_terms(r, s),
{
    lowest_terms_of_multiple(s, p, q);
    lowest_terms_of_multiple(q, r, s);
    assert(s * p == q * r && s * q == q * s) by (nonlinear_arith)
        requires
            p * s == r * q,
    ;
}

} // verus!
