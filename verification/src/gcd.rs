//! The greatest common divisor: its definition, the laws that make it
//! the greatest common divisor, and the function that computes it.

use crate::division::{
    divides, lemma_divides_combination, lemma_divides_magnitude, lemma_divides_quotient,
    lemma_euclidean_division, lemma_multiple_divisible, magnitude,
};
use vstd::arithmetic::div_mod::{lemma_small_mod, lemma_truncate_middle};
use vstd::prelude::*;

verus! {

/// Greatest common divisor of two natural numbers, by Euclid's recurrence.
pub open spec fn gcd_nat(a: nat, b: nat) -> nat
    decreases b,
{
    if b == 0 {
        a
    } else {
        gcd_nat(b, a % b)
    }
}

/// Greatest common divisor of two integers: that of their magnitudes. It is
/// never negative, and zero only for `gcd_of(0, 0)`.
pub open spec fn gcd_of(a: int, b: int) -> int {
    gcd_nat(magnitude(a) as nat, magnitude(b) as nat) as int
}

/// `g` is the greatest common divisor of `a` and `b`: a non-negative common
/// divisor that every common divisor divides.
pub open spec fn is_gcd(g: int, a: int, b: int) -> bool {
    &&& g >= 0
    &&& divides(g, a)
    &&& divides(g, b)
    &&& forall|d: int| divides(d, a) && divides(d, b) ==> #[trigger] divides(d, g)
}

proof fn lemma_gcd_nat_divides(a: nat, b: nat)
    ensures
        divides(gcd_nat(a, b) as int, a as int),
        divides(gcd_nat(a, b) as int, b as int),
    decreases b,
{
    if b != 0 {
        let g = gcd_nat(b, a % b) as int;
        lemma_gcd_nat_divides(b, a % b);
        lemma_euclidean_division(a as int, b as int);
        let q = a as int / b as int;
        let r = a as int % b as int;
        lemma_divides_combination(g, b as int, r, q);
    } else if a != 0 {
        lemma_multiple_divisible(a as int, 1);
        lemma_multiple_divisible(a as int, 0);
    }
}

proof fn lemma_gcd_nat_greatest(a: nat, b: nat, d: int)
    requires
        divides(d, a as int),
        divides(d, b as int),
    ensures
        divides(d, gcd_nat(a, b) as int),
    decreases b,
{
    if b != 0 {
        lemma_euclidean_division(a as int, b as int);
        let q = a as int / b as int;
        let r = a as int % b as int;
        lemma_divides_combination(d, b as int, a as int, -q);
        assert(b * (-q) + a == r) by (nonlinear_arith)
            requires
                a == b * q + r,
        ;
        lemma_gcd_nat_greatest(b, a % b, d);
    }
}

proof fn lemma_gcd_nat_symmetric(a: nat, b: nat)
    ensures
        gcd_nat(a, b) == gcd_nat(b, a),
{
    reveal_with_fuel(gcd_nat, 2);
    if a < b {
        lemma_small_mod(a, b);
    } else if b < a {
        lemma_small_mod(b, a);
    }
}

proof fn lemma_gcd_nat_zero(a: nat, b: nat)
    ensures
        gcd_nat(a, b) == 0 <==> a == 0 && b == 0,
    decreases b,
{
    if b != 0 {
        lemma_gcd_nat_zero(b, a % b);
    }
}

proof fn lemma_gcd_nat_scales(k: nat, a: nat, b: nat)
    ensures
        gcd_nat(k * a, k * b) == k * gcd_nat(a, b),
    decreases b,
{
    if k == 0 {
        assert(k * a == 0 && k * b == 0 && k * gcd_nat(a, b) == 0) by (nonlinear_arith)
            requires
                k == 0,
        ;
    } else if b == 0 {
        assert(k * b == 0) by (nonlinear_arith)
            requires
                b == 0,
        ;
    } else {
        lemma_truncate_middle(a as int, k as int, b as int);
        lemma_gcd_nat_scales(k, b, a % b);
        assert((k * a) % (k * b) == k * (a % b));
    }
}

/// A common factor of the arguments comes out of the greatest common
/// divisor with its magnitude.
pub proof fn gcd_scales(k: int, a: int, b: int)
    ensures
        gcd_of(k * a, k * b) == magnitude(k) * gcd_of(a, b),
{
    assert(magnitude(k * a) == magnitude(k) * magnitude(a)) by (nonlinear_arith);
    assert(magnitude(k * b) == magnitude(k) * magnitude(b)) by (nonlinear_arith);
    lemma_gcd_nat_scales(magnitude(k) as nat, magnitude(a) as nat, magnitude(b) as nat);
}

/// The order of the arguments does not matter.
pub proof fn gcd_symmetric(a: int, b: int)
    ensures
        gcd_of(a, b) == gcd_of(b, a),
{
    lemma_gcd_nat_symmetric(magnitude(a) as nat, magnitude(b) as nat);
}

/// The greatest common divisor of a number and zero is the number's
/// magnitude: the number itself where it is not negative.
pub proof fn gcd_with_zero(a: int)
    ensures
        gcd_of(a, 0) == magnitude(a),
        gcd_of(0, a) == magnitude(a),
        a >= 0 ==> gcd_of(a, 0) == a,
{
    gcd_symmetric(a, 0);
}

/// The greatest common divisor divides both arguments.
pub proof fn gcd_divides_both(a: int, b: int)
    ensures
        divides(gcd_of(a, b), a),
        divides(gcd_of(a, b), b),
{
    lemma_gcd_nat_divides(magnitude(a) as nat, magnitude(b) as nat);
    lemma_divides_magnitude(gcd_of(a, b), a);
    lemma_divides_magnitude(gcd_of(a, b), b);
}

/// The greatest common divisor vanishes for `(0, 0)` and for no other pair.
pub proof fn gcd_zero_iff(a: int, b: int)
    ensures
        gcd_of(a, b) >= 0,
        gcd_of(a, b) == 0 <==> a == 0 && b == 0,
{
    lemma_gcd_nat_zero(magnitude(a) as nat, magnitude(b) as nat);
}

/// `gcd_of(a, b)` is the greatest common divisor in the order of
/// divisibility.
pub proof fn gcd_is_greatest(a: int, b: int)
    ensures
        is_gcd(gcd_of(a, b), a, b),
{
    gcd_divides_both(a, b);
    assert forall|d: int| divides(d, a) && divides(d, b) implies #[trigger] divides(
        d,
        gcd_of(a, b),
    ) by {
        lemma_divides_magnitude(d, a);
        lemma_divides_magnitude(d, b);
        lemma_gcd_nat_greatest(magnitude(a) as nat, magnitude(b) as nat, d);
    }
}

/// Two numbers each of which divides the other agree in magnitude.
proof fn lemma_divides_antisymmetric(x: int, y: int)
    requires
        x >= 0,
        y >= 0,
        divides(x, y),
        divides(y, x),
    ensures
        x == y,
{
    if x != 0 && y != 0 {
        lemma_divides_quotient(x, y);
        lemma_divides_quotient(y, x);
        let u = y / x;
        let v = x / y;
        assert(x == y) by (nonlinear_arith)
            requires
                x > 0,
                y > 0,
                y == x * u,
                x == y * v,
        ;
    }
}

/// There is only one greatest common divisor.
pub proof fn gcd_unique(g: int, a: int, b: int)
    requires
        is_gcd(g, a, b),
    ensures
        g == gcd_of(a, b),
{
    gcd_is_greatest(a, b);
    gcd_zero_iff(a, b);
    let h = gcd_of(a, b);
    assert(divides(g, h));
    assert(divides(h, g));
    lemma_divides_antisymmetric(g, h);
}

/// A nonzero number bounds the greatest common divisor it takes part in.
pub proof fn gcd_bounded(a: int, b: int)
    ensures
        a != 0 ==> gcd_of(a, b) <= magnitude(a),
        b != 0 ==> gcd_of(a, b) <= magnitude(b),
{
    gcd_divides_both(a, b);
    gcd_zero_iff(a, b);
    let g = gcd_of(a, b);
    lemma_divides_magnitude(g, a);
    lemma_divides_magnitude(g, b);
    if a != 0 {
        lemma_divides_quotient(g, magnitude(a));
        let k = magnitude(a) / g;
        assert(g <= magnitude(a)) by (nonlinear_arith)
            requires
                g > 0,
                magnitude(a) > 0,
                magnitude(a) == g * k,
        ;
    }
    if b != 0 {
        lemma_divides_quotient(g, magnitude(b));
        let k = magnitude(b) / g;
        assert(g <= magnitude(b)) by (nonlinear_arith)
            requires
                g > 0,
                magnitude(b) > 0,
                magnitude(b) == g * k,
        ;
    }
}

/// Magnitude of a 32-bit integer, which the unsigned type always holds.
pub(crate) fn unsigned_magnitude(x: i32) -> (m: u32)
    ensures
        m == magnitude(x as int),
{
    if x >= 0 {
        x as u32
    } else {
        (-(x as i64)) as u32
    }
}

/// Greatest common divisor of two unsigned numbers by Euclid's algorithm.
pub(crate) fn gcd_unsigned(a: u32, b: u32) -> (g: u32)
    ensures
        g == gcd_nat(a as nat, b as nat),
{
    let mut x: u32 = a;
    let mut y: u32 = b;
    while y != 0
        invariant
            gcd_nat(x as nat, y as nat) == gcd_nat(a as nat, b as nat),
        decreases y,
    {
        let r: u32 = x % y;
        x = y;
        y = r;
    }
    x
}

/// Greatest common divisor of the magnitudes of `n` and `m`.
///
/// The result is never negative, and zero only when both arguments are zero.
/// The three pairs made of `0` and `i32::MIN` other than `(0, 0)` have the
/// greatest common divisor 2^31, which the result type cannot hold; every
/// other pair is accepted.
pub fn gcd(n: i32, m: i32) -> (g: i32)
    requires
        n != i32::MIN || (m != 0 && m != i32::MIN),
        m != i32::MIN || n != 0,
    ensures
        g == gcd_of(n as int, m as int),
        is_gcd(g as int, n as int, m as int),
        g == 0 <==> n == 0 && m == 0,
{
    proof {
        gcd_is_greatest(n as int, m as int);
        gcd_zero_iff(n as int, m as int);
        gcd_bounded(n as int, m as int);
    }
    let g: u32 = gcd_unsigned(unsigned_magnitude(n), unsigned_magnitude(m));
    g as i32
}

} // verus!
