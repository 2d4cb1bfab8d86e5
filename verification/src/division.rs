//! Integer division as the machine does it, and divisibility.
//!
//! Signed machine division rounds the quotient toward zero and gives the
//! remainder the sign of the dividend. [`trunc_div`] and [`trunc_rem`] say
//! so over the mathematical integers, and the lemmas here relate them to
//! Euclidean division.

use vstd::prelude::*;

verus! {

/// Absolute value of an integer.
pub open spec fn magnitude(x: int) -> int {
    if x < 0 {
        -x
    } else {
        x
    }
}

/// Whether a number and its negation both fit a signed 32-bit integer.
pub open spec fn fits(x: int) -> bool {
    -(i32::MAX as int) <= x <= i32::MAX as int
}

/// Quotient of `a` by `b` rounded toward zero: the quotient that signed
/// machine division computes.
pub open spec fn trunc_div(a: int, b: int) -> int {
    if a >= 0 {
        a / b
    } else {
        -((-a) / b)
    }
}

/// Remainder of `a` by `b` that belongs to [`trunc_div`]. It is zero or
/// carries the sign of the dividend `a`.
pub open spec fn trunc_rem(a: int, b: int) -> int {
    if a >= 0 {
        a % b
    } else {
        -((-a) % b)
    }
}

/// `d` divides `n`. Zero divides only zero.
pub open spec fn divides(d: int, n: int) -> bool {
    if d == 0 {
        n == 0
    } else {
        n % d == 0
    }
}

/// Euclidean division by any nonzero divisor: quotient and remainder
/// recompose the dividend, and the remainder lies in `0 .. |b|`.
pub proof fn lemma_euclidean_division(a: int, b: int)
    by (nonlinear_arith)
    requires
        b != 0,
    ensures
        a == b * (a / b) + a % b,
        0 <= a % b < magnitude(b),
{
}

/// A multiple of `b` that is smaller in magnitude than `b` is zero.
proof fn lemma_small_multiple(b: int, k: int)
    requires
        magnitude(b * k) < magnitude(b),
    ensures
        k == 0,
{
    if k >= 1 {
        assert(magnitude(b * k) >= magnitude(b)) by (nonlinear_arith)
            requires
                k >= 1,
        ;
    } else if k <= -1 {
        assert(magnitude(b * k) >= magnitude(b)) by (nonlinear_arith)
            requires
                k <= -1,
        ;
    }
}

/// Negating the divisor negates the Euclidean quotient and keeps the
/// remainder.
pub proof fn lemma_euclidean_negated_divisor(a: int, b: int)
    requires
        b != 0,
    ensures
        a / (-b) == -(a / b),
        a % (-b) == a % b,
{
    lemma_euclidean_division(a, b);
    lemma_euclidean_division(a, -b);
    let q = a / b;
    let r = a % b;
    let q2 = a / (-b);
    let r2 = a % (-b);
    assert(b * (q + q2) == r2 - r) by (nonlinear_arith)
        requires
            a == b * q + r,
            a == (-b) * q2 + r2,
    ;
    lemma_small_multiple(b, q + q2);
}

/// A multiple of `d` divided by `d` leaves no remainder and gives back the
/// other factor.
pub proof fn lemma_multiple_divisible(d: int, m: int)
    requires
        d != 0,
    ensures
        (d * m) % d == 0,
        (d * m) / d == m,
{
    let x = d * m;
    lemma_euclidean_division(x, d);
    let q = x / d;
    let r = x % d;
    assert(d * (m - q) == r) by (nonlinear_arith)
        requires
            x == d * m,
            x == d * q + r,
    ;
    lemma_small_multiple(d, m - q);
    assert(d * 0 == 0);
}

/// A number divisible by `d` is `d` times its quotient, whatever the sign of
/// either.
pub proof fn lemma_divides_quotient(d: int, n: int)
    requires
        divides(d, n),
    ensures
        n == d * (n / d),
{
    if d != 0 {
        lemma_euclidean_division(n, d);
    }
}

/// Whatever `d` divides, it divides every integer combination of.
pub proof fn lemma_divides_combination(d: int, x: int, y: int, k: int)
    requires
        divides(d, x),
        divides(d, y),
    ensures
        divides(d, x * k + y),
{
    if d == 0 {
        assert(0 * k + 0 == 0) by (nonlinear_arith);
    } else {
        lemma_euclidean_division(x, d);
        lemma_euclidean_division(y, d);
        let u = x / d;
        let v = y / d;
        let m = u * k + v;
        assert(x * k + y == d * m) by (nonlinear_arith)
            requires
                x == d * u,
                y == d * v,
                m == u * k + v,
        ;
        lemma_multiple_divisible(d, m);
    }
}

/// Divisibility does not depend on the sign of the dividend.
pub proof fn lemma_divides_magnitude(d: int, n: int)
    ensures
        divides(d, n) <==> divides(d, magnitude(n)),
{
    if divides(d, n) {
        lemma_divides_combination(d, n, 0, -1);
    }
    if divides(d, -n) {
        lemma_divides_combination(d, -n, 0, -1);
    }
}

/// The truncating quotient and remainder recompose the dividend; the
/// quotient is no larger in magnitude than the dividend; the remainder is
/// smaller in magnitude than the divisor and never opposes the dividend in
/// sign, and the multiple of the divisor that was taken away lies between
/// zero and the dividend.
pub proof fn lemma_trunc_division(a: int, b: int)
    requires
        b != 0,
    ensures
        a == b * trunc_div(a, b) + trunc_rem(a, b),
        magnitude(trunc_div(a, b)) <= magnitude(a),
        magnitude(trunc_rem(a, b)) < magnitude(b),
        a >= 0 ==> 0 <= trunc_rem(a, b) <= a && 0 <= b * trunc_div(a, b) <= a,
        a <= 0 ==> a <= trunc_rem(a, b) <= 0 && a <= b * trunc_div(a, b) <= 0,
{
    let m = magnitude(a);
    let q = m / b;
    let r = m % b;
    lemma_euclidean_division(m, b);
    if b * q < 0 {
        lemma_small_multiple(b, q);
        assert(b * 0 == 0);
    }
    assert(magnitude(q) <= b * q) by (nonlinear_arith)
        requires
            b != 0,
            0 <= b * q,
    ;
    if a < 0 {
        assert(b * (-q) == -(b * q)) by (nonlinear_arith);
    }
}

/// Truncating division is odd in the dividend and in the divisor; the
/// remainder is odd in the dividend and even in the divisor.
pub proof fn lemma_trunc_negation(a: int, b: int)
    requires
        b != 0,
    ensures
        trunc_div(-a, b) == -trunc_div(a, b),
        trunc_rem(-a, b) == -trunc_rem(a, b),
        trunc_div(a, -b) == -trunc_div(a, b),
        trunc_rem(a, -b) == trunc_rem(a, b),
{
    lemma_euclidean_negated_divisor(magnitude(a), b);
}

/// Truncating division by a positive divisor of the dividend is exact
/// division.
pub proof fn lemma_exact_division(x: int, d: int)
    requires
        d > 0,
        divides(d, x),
    ensures
        trunc_div(x, d) == x / d,
{
    if x < 0 {
        lemma_divides_quotient(d, x);
        let u = x / d;
        assert(d * (-u) == -(d * u)) by (nonlinear_arith);
        lemma_multiple_divisible(d, -u);
    }
}

} // verus!
