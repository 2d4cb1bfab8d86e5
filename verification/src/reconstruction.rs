//! Folding coefficients back into a fraction, and the laws that tie the
//! fold to the expansion: each undoes the other.

use crate::division::{
    fits, lemma_euclidean_negated_divisor, lemma_trunc_division, magnitude, trunc_div,
    trunc_rem,
};
use crate::expansion::{expansion, expansion_empty_iff, expansion_unfolds, is_canonical};
use crate::gcd::{gcd_nat, gcd_of};
use crate::reduction::{lowest_terms, lowest_terms_of_equal_fractions, lowest_terms_reduce};
use vstd::arithmetic::div_mod::lemma_fundamental_div_mod_converse;
use vstd::prelude::*;

verus! {

/// The pair `(numerator, denominator)` that a coefficient sequence folds to.
///
/// The empty sequence gives `(0, 1)`. A single coefficient `a` gives
/// `(a, 1)`. A longer sequence takes the pair `(n, d)` of everything after
/// its first coefficient `a` and gives `(a * n + d, n)`.
pub open spec fn rational_of(c: Seq<int>) -> (int, int)
    decreases c.len(),
{
    if c.len() == 0 {
        (0, 1)
    } else if c.len() == 1 {
        (c[0], 1)
    } else {
        let (n, d) = rational_of(c.skip(1));
        (c[0] * n + d, n)
    }
}

/// The last nonzero term of the remainder sequence that starts with `p`
/// and `q`: the greatest common divisor of the two with a sign.
pub open spec fn last_divisor(p: int, q: int) -> int
    decreases magnitude(q),
    via last_divisor_terminates
{
    if q == 0 {
        p
    } else {
        last_divisor(q, trunc_rem(p, q))
    }
}

#[via_fn]
proof fn last_divisor_terminates(p: int, q: int) {
    if q != 0 {
        lemma_trunc_division(p, q);
    }
}

/// One step of the remainder sequence keeps the greatest common divisor.
pub proof fn gcd_of_remainder(p: int, q: int)
    requires
        q != 0,
    ensures
        gcd_of(q, trunc_rem(p, q)) == gcd_of(p, q),
{
    let a = magnitude(p);
    let b = magnitude(q);
    lemma_euclidean_negated_divisor(a, q);
    assert(magnitude(trunc_rem(p, q)) == a % b);
    assert(gcd_nat(a as nat, b as nat) == gcd_nat(b as nat, (a as nat) % (b as nat)));
}

/// The last divisor is the greatest common divisor up to its sign, and it
/// is positive where neither argument is negative.
pub proof fn last_divisor_is_gcd(p: int, q: int)
    ensures
        magnitude(last_divisor(p, q)) == gcd_of(p, q),
        p >= 0 && q >= 0 ==> last_divisor(p, q) == gcd_of(p, q),
    decreases magnitude(q),
{
    if q != 0 {
        lemma_trunc_division(p, q);
        gcd_of_remainder(p, q);
        last_divisor_is_gcd(q, trunc_rem(p, q));
    }
}

/// Folding the expansion of `p / q` gives `p` and `q` divided by their last
/// divisor.
pub proof fn reconstruction_scales(p: int, q: int)
    requires
        q != 0,
    ensures
        last_divisor(p, q) != 0,
        p == last_divisor(p, q) * rational_of(expansion(p, q)).0,
        q == last_divisor(p, q) * rational_of(expansion(p, q)).1,
    decreases magnitude(q),
{
    let a = trunc_div(p, q);
    let r = trunc_rem(p, q);
    let g = last_divisor(p, q);
    let c = expansion(p, q);
    lemma_trunc_division(p, q);
    expansion_unfolds(p, q);
    expansion_empty_iff(q, r);
    if r == 0 {
        assert(c.len() == 1);
        assert(last_divisor(q, r) == q);
        assert(q * a == g * a);
        assert(q == g * 1) by (nonlinear_arith)
            requires
                g == q,
        ;
    } else {
        reconstruction_scales(q, r);
        let (n, d) = rational_of(expansion(q, r));
        assert(rational_of(c) == (a * n + d, n));
        assert(p == g * (a * n + d)) by (nonlinear_arith)
            requires
                p == q * a + r,
                q == g * n,
                r == g * d,
        ;
    }
}

/// Expanding a fraction and folding the coefficients gives the fraction
/// back: the pair that comes out is cross-multiplication-equal to the pair
/// that went in. It is the lowest terms of that pair, exactly where their
/// numerator is not negative and with both signs turned otherwise; so it has
/// the same lowest terms, and expanding it once more gives the same
/// coefficients.
pub proof fn round_trip(p: int, q: int)
    requires
        q != 0,
    ensures
        ({
            let (n, m) = lowest_terms(p, q);
            let (x, y) = rational_of(expansion(n, m));
            &&& p * y == x * q
            &&& (x == n && y == m) || (x == -n && y == -m)
            &&& n >= 0 ==> x == n && y == m
            &&& y != 0
            &&& lowest_terms(x, y) == (n, m)
        }),
{
    let (n, m) = lowest_terms(p, q);
    let (x, y) = rational_of(expansion(n, m));
    let g = last_divisor(n, m);
    lowest_terms_reduce(p, q);
    reconstruction_scales(n, m);
    last_divisor_is_gcd(n, m);
    assert(g == 1 || g == -1);
    assert(1 * x == x && 1 * y == y && (-1) * x == -x && (-1) * y == -y);
    assert(p * y == x * q) by (nonlinear_arith)
        requires
            n * q == p * m,
            (x == n && y == m) || (x == -n && y == -m),
    ;
    lowest_terms_of_equal_fractions(x, y, p, q);
}

/// Folding the expansion of a pair whose terms fit never leaves the range:
/// at every position the pair folded so far fits, and so does the product
/// that the next step forms.
pub proof fn reconstruction_fits(p: int, q: int, i: int)
    requires
        fits(p),
        fits(q),
        0 <= i < expansion(p, q).len(),
    ensures
        fits(rational_of(expansion(p, q).skip(i)).0),
        fits(rational_of(expansion(p, q).skip(i)).1),
        i + 1 < expansion(p, q).len() ==> fits(
            expansion(p, q)[i] * rational_of(expansion(p, q).skip(i + 1)).0,
        ),
    decreases i,
{
    let c = expansion(p, q);
    expansion_empty_iff(p, q);
    let a = trunc_div(p, q);
    let r = trunc_rem(p, q);
    let rest = expansion(q, r);
    lemma_trunc_division(p, q);
    expansion_unfolds(p, q);
    if i == 0 {
        assert(c.skip(0) =~= c);
        reconstruction_scales(p, q);
        let g = last_divisor(p, q);
        let (n, d) = rational_of(c);
        assert(magnitude(n) <= magnitude(p) && magnitude(d) <= magnitude(q))
            by (nonlinear_arith)
            requires
                g != 0,
                p == g * n,
                q == g * d,
        ;
        if 1 < c.len() {
            expansion_empty_iff(q, r);
            reconstruction_scales(q, r);
            let h = last_divisor(q, r);
            let n1 = rational_of(rest).0;
            assert(magnitude(a * n1) <= magnitude(p)) by (nonlinear_arith)
                requires
                    h != 0,
                    q == h * n1,
                    magnitude(q * a) <= magnitude(p),
            ;
        }
    } else {
        reconstruction_fits(q, r, i - 1);
        assert(c.skip(i) =~= rest.skip(i - 1));
        assert(c.skip(i + 1) =~= rest.skip(i));
        assert(c[i] == rest[i - 1]);
    }
}

/// A sequence that continues `first` as `(first * n + d, n)` is the
/// expansion of that pair, if its tail is the expansion of `(n, d)` and
/// `0 <= d < n`.
proof fn lemma_expansion_of_step(c: Seq<int>, n: int, d: int)
    requires
        c.len() >= 1,
        c[0] >= 0,
        0 <= d < n,
        expansion(n, d) == c.skip(1),
    ensures
        expansion(c[0] * n + d, n) == c,
{
    let a = c[0];
    let x = a * n + d;
    assert(0 <= a * n) by (nonlinear_arith)
        requires
            a >= 0,
            n > 0,
    ;
    lemma_fundamental_div_mod_converse(x, n, a, d);
    assert(expansion(x, n) =~= c);
}

proof fn lemma_descending_is_expansion(c: Seq<int>)
    requires
        c.len() >= 1,
        forall|i: int| 0 <= i < c.len() ==> c[i] >= 1,
        c[c.len() - 1] >= 2,
    ensures
        rational_of(c).0 > rational_of(c).1 >= 1,
        expansion(rational_of(c).0, rational_of(c).1) == c,
    decreases c.len(),
{
    if c.len() == 1 {
        assert(c.skip(1) =~= expansion(1, 0));
        lemma_expansion_of_step(c, 1, 0);
        assert(c[0] * 1 + 0 == c[0]);
    } else {
        let rest = c.skip(1);
        lemma_descending_is_expansion(rest);
        let (n, d) = rational_of(rest);
        lemma_expansion_of_step(c, n, d);
        assert(c[0] * n + d > n) by (nonlinear_arith)
            requires
                c[0] >= 1,
                n > d >= 1,
        ;
    }
}

/// A canonical sequence is the expansion of the fraction it folds to, and
/// that fraction is in lowest terms. So no two canonical sequences fold to
/// the same pair: within the canonical form the expansion of a fraction is
/// the only sequence that stands for it.
pub proof fn canonical_is_expansion(c: Seq<int>)
    requires
        is_canonical(c),
    ensures
        rational_of(c).0 >= 0,
        rational_of(c).1 >= 1,
        gcd_of(rational_of(c).0, rational_of(c).1) == 1,
        lowest_terms(rational_of(c).0, rational_of(c).1) == rational_of(c),
        expansion(rational_of(c).0, rational_of(c).1) == c,
{
    let (n, d) = rational_of(c);
    if c.len() == 1 {
        assert(c.skip(1) =~= expansion(1, 0));
        lemma_expansion_of_step(c, 1, 0);
        assert(c[0] * 1 + 0 == c[0]);
    } else {
        let rest = c.skip(1);
        assert(rest[rest.len() - 1] == c[c.len() - 1]);
        lemma_descending_is_expansion(rest);
        let (n1, d1) = rational_of(rest);
        lemma_expansion_of_step(c, n1, d1);
        assert(c[0] * n1 >= 0) by (nonlinear_arith)
            requires
                c[0] >= 0,
                n1 >= 0,
        ;
    }
    reconstruction_scales(n, d);
    last_divisor_is_gcd(n, d);
    let g = last_divisor(n, d);
    assert(g == 1) by (nonlinear_arith)
        requires
            d >= 1,
            d == g * d,
    ;
    assert(n / 1 == n && d / 1 == d);
}

/// The expansion of a fraction is the only canonical sequence that stands
/// for it: a canonical sequence that folds to a pair
/// cross-multiplication-equal to `(p, q)` is the expansion of the lowest
/// terms of `(p, q)`.
pub proof fn expansion_is_unique(c: Seq<int>, p: int, q: int)
    requires
        is_canonical(c),
        q != 0,
        rational_of(c).0 * q == p * rational_of(c).1,
    ensures
        c == expansion(lowest_terms(p, q).0, lowest_terms(p, q).1),
{
    let (n, d) = rational_of(c);
    canonical_is_expansion(c);
    lowest_terms_of_equal_fractions(n, d, p, q);
}

} // verus!
