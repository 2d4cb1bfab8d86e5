//! Convergents of a coefficient sequence: the fractions that its
//! prefixes stand for.

use crate::division::{fits, lemma_trunc_division, magnitude, trunc_div, trunc_rem};
use crate::expansion::{
    expansion, expansion_by_magnitudes, expansion_by_remainders, expansion_empty_iff,
    expansion_is_canonical, expansion_unfolds, negated, remainder,
};
use crate::reconstruction::{rational_of, round_trip};
use crate::reduction::{lowest_terms, lowest_terms_reduce};
use vstd::prelude::*;

verus! {

/// The `n`-th convergent `(h, k)` of a coefficient sequence, for `n` from
/// `-2` up to the last index.
///
/// The two seeds are `(0, 1)` at `-2` and `(1, 0)` at `-1`. From there on
/// each convergent is the coefficient at its index times the convergent
/// before it, plus the one before that, numerators and denominators alike.
pub open spec fn convergent(c: Seq<int>, n: int) -> (int, int)
    decreases n + 2,
{
    if n <= -2 {
        (0, 1)
    } else if n == -1 {
        (1, 0)
    } else {
        let (h1, k1) = convergent(c, n - 1);
        let (h2, k2) = convergent(c, n - 2);
        (c[n] * h1 + h2, c[n] * k1 + k2)
    }
}

/// The fold of [`rational_of`] started from an arbitrary pair `(x, y)` in
/// place of `(1, 0)`.
spec fn folded_from(c: Seq<int>, x: int, y: int) -> (int, int)
    decreases c.len(),
{
    if c.len() == 0 {
        (x, y)
    } else {
        let (u, v) = folded_from(c.skip(1), x, y);
        (c[0] * u + v, u)
    }
}

proof fn lemma_rational_of_is_folded(c: Seq<int>)
    requires
        c.len() >= 1,
    ensures
        rational_of(c) == folded_from(c, 1, 0),
    decreases c.len(),
{
    if c.len() == 1 {
        assert(folded_from(c.skip(1), 1, 0) == (1int, 0int));
        assert(c[0] * 1 + 0 == c[0]);
    } else {
        lemma_rational_of_is_folded(c.skip(1));
    }
}

proof fn lemma_folded_push(c: Seq<int>, b: int, x: int, y: int)
    ensures
        folded_from(c.push(b), x, y) == folded_from(c, b * x + y, x),
    decreases c.len(),
{
    let e = c.push(b);
    if c.len() == 0 {
        assert(e.skip(1).len() == 0);
        assert(folded_from(e.skip(1), x, y) == (x, y));
    } else {
        assert(e.skip(1) =~= c.skip(1).push(b));
        lemma_folded_push(c.skip(1), b, x, y);
    }
}

proof fn lemma_folded_linear(c: Seq<int>, x: int, y: int)
    ensures
        folded_from(c, x, y).0 == x * folded_from(c, 1, 0).0 + y * folded_from(c, 0, 1).0,
        folded_from(c, x, y).1 == x * folded_from(c, 1, 0).1 + y * folded_from(c, 0, 1).1,
    decreases c.len(),
{
    if c.len() == 0 {
        assert(x * 1 + y * 0 == x && x * 0 + y * 1 == y) by (nonlinear_arith);
    } else {
        let a = c[0];
        let (u, v) = folded_from(c.skip(1), x, y);
        let (u1, v1) = folded_from(c.skip(1), 1, 0);
        let (u2, v2) = folded_from(c.skip(1), 0, 1);
        lemma_folded_linear(c.skip(1), x, y);
        assert(a * (x * u1 + y * u2) == a * (x * u1) + a * (y * u2)) by (nonlinear_arith);
        assert(a * (x * u1) == x * (a * u1)) by (nonlinear_arith);
        assert(a * (y * u2) == y * (a * u2)) by (nonlinear_arith);
        assert(x * (a * u1 + v1) == x * (a * u1) + x * v1) by (nonlinear_arith);
        assert(y * (a * u2 + v2) == y * (a * u2) + y * v2) by (nonlinear_arith);
    }
}

proof fn lemma_convergent_is_folded(c: Seq<int>, i: int)
    requires
        -1 <= i < c.len(),
    ensures
        convergent(c, i) == folded_from(c.take(i + 1), 1, 0),
        convergent(c, i - 1) == folded_from(c.take(i + 1), 0, 1),
    decreases i + 1,
{
    if i >= 0 {
        let front = c.take(i);
        let b = c[i];
        lemma_convergent_is_folded(c, i - 1);
        assert(c.take(i + 1) =~= front.push(b));
        lemma_folded_push(front, b, 1, 0);
        lemma_folded_push(front, b, 0, 1);
        lemma_folded_linear(front, b, 1);
        assert(b * 1 + 0 == b && b * 0 + 1 == 1) by (nonlinear_arith);
        let (h1, k1) = convergent(c, i - 1);
        let (h2, k2) = convergent(c, i - 2);
        assert(1 * h2 == h2 && 1 * k2 == k2);
    }
}

/// Each convergent is what the coefficients up to its index fold to.
pub proof fn convergent_is_prefix_value(c: Seq<int>, i: int)
    requires
        0 <= i < c.len(),
    ensures
        convergent(c, i) == rational_of(c.take(i + 1)),
{
    lemma_convergent_is_folded(c, i);
    lemma_rational_of_is_folded(c.take(i + 1));
}

/// The last convergent of a sequence is what the whole sequence folds to.
pub proof fn last_convergent_is_value(c: Seq<int>)
    requires
        c.len() > 0,
    ensures
        convergent(c, c.len() - 1) == rational_of(c),
{
    convergent_is_prefix_value(c, c.len() - 1);
    assert(c.take(c.len() as int) =~= c);
}

proof fn lemma_prefix_value_bounds(p: int, q: int, j: int)
    requires
        p >= 0,
        q >= 0,
        1 <= j <= expansion(p, q).len(),
    ensures
        0 <= rational_of(expansion(p, q).take(j)).0 <= p,
        0 <= rational_of(expansion(p, q).take(j)).1 <= q,
    decreases j,
{
    let c = expansion(p, q);
    expansion_empty_iff(p, q);
    lemma_trunc_division(p, q);
    expansion_unfolds(p, q);
    let a = trunc_div(p, q);
    let r = trunc_rem(p, q);
    let rest = expansion(q, r);
    assert(0 <= a <= p) by (nonlinear_arith)
        requires
            q > 0,
            0 <= q * a <= p,
    ;
    if j == 1 {
        assert(c.take(1).len() == 1);
        assert(c.take(1)[0] == a);
    } else {
        lemma_prefix_value_bounds(q, r, j - 1);
        assert(c.take(j).skip(1) =~= rest.take(j - 1));
        let (n, d) = rational_of(rest.take(j - 1));
        assert(c.take(j)[0] == a);
        assert(rational_of(c.take(j)) == (a * n + d, n));
        assert(0 <= a * n + d <= p) by (nonlinear_arith)
            requires
                a >= 0,
                0 <= n <= q,
                0 <= d <= r,
                p == q * a + r,
        ;
    }
}

proof fn lemma_convergents_bounded(p: int, q: int, i: int)
    requires
        p >= 0,
        q >= 0,
        0 <= i < expansion(p, q).len(),
    ensures
        0 <= convergent(expansion(p, q), i - 1).0,
        0 <= convergent(expansion(p, q), i - 1).1,
        0 <= convergent(expansion(p, q), i).0 <= p,
        0 <= convergent(expansion(p, q), i).1 <= q,
        0 <= expansion(p, q)[i] * convergent(expansion(p, q), i - 1).0 <= p,
        0 <= expansion(p, q)[i] * convergent(expansion(p, q), i - 1).1 <= q,
{
    let c = expansion(p, q);
    let a = c[i];
    expansion_empty_iff(p, q);
    expansion_is_canonical(p, q);
    convergent_is_prefix_value(c, i);
    lemma_prefix_value_bounds(p, q, i + 1);
    if i >= 1 {
        convergent_is_prefix_value(c, i - 1);
        lemma_prefix_value_bounds(p, q, i);
    }
    if i >= 2 {
        convergent_is_prefix_value(c, i - 2);
        lemma_prefix_value_bounds(p, q, i - 1);
    }
    let (h1, k1) = convergent(c, i - 1);
    let (h2, k2) = convergent(c, i - 2);
    assert(h1 >= 0 && k1 >= 0 && h2 >= 0 && k2 >= 0);
    assert(a * h1 >= 0 && a * k1 >= 0) by (nonlinear_arith)
        requires
            a >= 0,
            h1 >= 0,
            k1 >= 0,
    ;
}

/// Neighbouring convergents differ by as little as two fractions can: the
/// cross product `h(i) * k(i - 1) - h(i - 1) * k(i)` is `-1` at even `i`
/// and `1` at odd `i`, whatever the coefficients are.
pub proof fn convergents_are_adjacent(c: Seq<int>, i: int)
    requires
        -1 <= i < c.len(),
    ensures
        convergent(c, i).0 * convergent(c, i - 1).1 - convergent(c, i - 1).0 * convergent(
            c,
            i,
        ).1 == if i % 2 == 0 {
            -1int
        } else {
            1int
        },
    decreases i + 1,
{
    if i >= 0 {
        convergents_are_adjacent(c, i - 1);
        let a = c[i];
        let (h1, k1) = convergent(c, i - 1);
        let (h2, k2) = convergent(c, i - 2);
        assert((a * h1 + h2) * k1 - h1 * (a * k1 + k2) == -(h1 * k2 - h2 * k1))
            by (nonlinear_arith);
    }
}

proof fn lemma_convergents_recompose(p: int, q: int, i: int)
    requires
        -1 <= i < expansion(p, q).len(),
    ensures
        p == convergent(expansion(p, q), i).0 * remainder(p, q, (i + 1) as nat) + convergent(
            expansion(p, q),
            i - 1,
        ).0 * remainder(p, q, (i + 2) as nat),
        q == convergent(expansion(p, q), i).1 * remainder(p, q, (i + 1) as nat) + convergent(
            expansion(p, q),
            i - 1,
        ).1 * remainder(p, q, (i + 2) as nat),
    decreases i + 1,
{
    let c = expansion(p, q);
    if i == -1 {
        assert(1 * p + 0 * q == p && 0 * p + 1 * q == q);
    } else {
        lemma_convergents_recompose(p, q, i - 1);
        expansion_by_remainders(p, q, i as nat);
        let a = c[i];
        let (h1, k1) = convergent(c, i - 1);
        let (h2, k2) = convergent(c, i - 2);
        let x = remainder(p, q, i as nat);
        let y = remainder(p, q, (i + 1) as nat);
        let z = remainder(p, q, (i + 2) as nat);
        assert(h1 * x + h2 * y == (a * h1 + h2) * y + h1 * z) by (nonlinear_arith)
            requires
                x == a * y + z,
        ;
        assert(k1 * x + k2 * y == (a * k1 + k2) * y + k1 * z) by (nonlinear_arith)
            requires
                x == a * y + z,
        ;
    }
}

/// How far each convergent `(h, k)` is from the fraction `p / q`: the
/// cross difference `p * k - h * q` is the remainder two places after the
/// index of the convergent, with its sign turned at odd indices. The
/// remainders fall in magnitude, so every convergent is closer than the one
/// before it, and only the last is the fraction itself. Where the fraction
/// is not negative, the convergents at even indices are not above it and
/// those at odd indices not below.
pub proof fn convergent_error(p: int, q: int, i: int)
    requires
        0 <= i < expansion(p, q).len(),
    ensures
        ({
            let (h, k) = convergent(expansion(p, q), i);
            let (h1, k1) = convergent(expansion(p, q), i - 1);
            let x = remainder(p, q, (i + 2) as nat);
            &&& p * k - h * q == if i % 2 == 0 {
                x
            } else {
                -x
            }
            &&& x == 0 <==> i == expansion(p, q).len() - 1
            &&& i >= 1 ==> magnitude(p * k - h * q) < magnitude(p * k1 - h1 * q)
            &&& p >= 0 && q >= 0 && i % 2 == 0 ==> h * q <= p * k
            &&& p >= 0 && q >= 0 && i % 2 != 0 ==> h * q >= p * k
        }),
    decreases i,
{
    let c = expansion(p, q);
    let (h, k) = convergent(c, i);
    let (h1, k1) = convergent(c, i - 1);
    let y = remainder(p, q, (i + 1) as nat);
    let x = remainder(p, q, (i + 2) as nat);
    lemma_convergents_recompose(p, q, i);
    convergents_are_adjacent(c, i);
    expansion_by_remainders(p, q, i as nat);
    let d = h * k1 - h1 * k;
    assert(p * k - h * q == -(d * x)) by (nonlinear_arith)
        requires
            p == h * y + h1 * x,
            q == k * y + k1 * x,
            d == h * k1 - h1 * k,
    ;
    assert(1 * x == x && (-1) * x == -x);
    if i >= 1 {
        convergent_error(p, q, i - 1);
    }
}

proof fn lemma_denominator_positive(p: int, q: int, i: int)
    requires
        p >= 0,
        q > 0,
        0 <= i < expansion(p, q).len(),
    ensures
        convergent(expansion(p, q), i).1 >= 1,
    decreases i,
{
    let c = expansion(p, q);
    expansion_is_canonical(p, q);
    reveal_with_fuel(convergent, 3);
    let a = c[i];
    if i == 0 {
        assert(a * 0 + 1 == 1);
    } else {
        lemma_denominator_positive(p, q, i - 1);
        if i >= 2 {
            lemma_denominator_positive(p, q, i - 2);
        }
        let k1 = convergent(c, i - 1).1;
        assert(a * k1 >= 1) by (nonlinear_arith)
            requires
                a >= 1,
                k1 >= 1,
        ;
    }
}

/// How a product compares with one of its factors, by the signs of both.
proof fn lemma_scaled(u: int, e: int)
    by (nonlinear_arith)
    ensures
        u >= 1 && e >= 0 ==> u * e >= e,
        u >= 1 && e <= 0 ==> u * e <= e,
        u <= -1 && e >= 0 ==> u * e <= -e,
        u <= -1 && e <= 0 ==> u * e >= -e,
        u == 0 ==> u * e == 0,
{
}

/// `(x * s - y * t) * w` multiplied out.
proof fn lemma_difference_times(x: int, s: int, y: int, t: int, w: int)
    ensures
        (x * s - y * t) * w == x * (s * w) - y * (t * w),
{
    assert((x * s - y * t) * w == (x * s) * w - (y * t) * w) by (nonlinear_arith);
    assert((x * s) * w == x * (s * w)) by (nonlinear_arith);
    assert((y * t) * w == y * (t * w)) by (nonlinear_arith);
}

/// Two neighbouring convergents span every pair of integers: what `(a, b)`
/// is in terms of `(h, k)` and `(h1, k1)` whose cross product is a unit.
proof fn lemma_spanned(h: int, k: int, h1: int, k1: int, a: int, b: int) -> (uv: (int, int))
    requires
        h1 * k - h * k1 == 1 || h1 * k - h * k1 == -1,
    ensures
        a == uv.0 * h + uv.1 * h1,
        b == uv.0 * k + uv.1 * k1,
{
    let d = h1 * k - h * k1;
    let x = b * h1 - a * k1;
    let y = a * k - b * h;
    lemma_difference_times(b, h1, a, k1, h);
    lemma_difference_times(a, k, b, h, h1);
    lemma_difference_times(b, h1, a, k1, k);
    lemma_difference_times(a, k, b, h, k1);
    assert(h1 * h == h * h1 && k1 * h == h * k1 && k * h1 == h1 * k && k1 * k == k * k1)
        by (nonlinear_arith);
    assert(a * (h1 * k) - a * (h * k1) == a * d) by (nonlinear_arith)
        requires
            d == h1 * k - h * k1,
    ;
    assert(b * (h1 * k) - b * (h * k1) == b * d) by (nonlinear_arith)
        requires
            d == h1 * k - h * k1,
    ;
    assert(x * h + y * h1 == a * d);
    assert(x * k + y * k1 == b * d);
    if d == 1 {
        assert(a * d == a && b * d == b);
        (x, y)
    } else {
        assert(a * d == -a && b * d == -b);
        assert((-x) * h == -(x * h) && (-y) * h1 == -(y * h1)) by (nonlinear_arith);
        assert((-x) * k == -(x * k) && (-y) * k1 == -(y * k1)) by (nonlinear_arith);
        (-x, -y)
    }
}

/// The cross difference of a combination of two pairs is the same
/// combination of their cross differences.
proof fn lemma_combined_difference(
    p: int,
    q: int,
    h: int,
    k: int,
    h1: int,
    k1: int,
    u: int,
    v: int,
)
    ensures
        p * (u * k + v * k1) - (u * h + v * h1) * q == u * (p * k - h * q) + v * (p * k1 - h1
            * q),
{
    assert(p * (u * k + v * k1) == p * (u * k) + p * (v * k1)) by (nonlinear_arith);
    assert((u * h + v * h1) * q == (u * h) * q + (v * h1) * q) by (nonlinear_arith);
    assert(p * (u * k) == u * (p * k)) by (nonlinear_arith);
    assert(p * (v * k1) == v * (p * k1)) by (nonlinear_arith);
    assert((u * h) * q == u * (h * q)) by (nonlinear_arith);
    assert((v * h1) * q == v * (h1 * q)) by (nonlinear_arith);
    assert(u * (p * k - h * q) == u * (p * k) - u * (h * q)) by (nonlinear_arith);
    assert(v * (p * k1 - h1 * q) == v * (p * k1) - v * (h1 * q)) by (nonlinear_arith);
}

/// A convergent is the best approximation among the fractions with a
/// smaller denominator than the next convergent: no fraction `a / b` with
/// `1 <= b` below that denominator has a smaller cross difference from
/// `p / q` than the convergent itself.
pub proof fn convergent_is_best_approximation(p: int, q: int, i: int, a: int, b: int)
    requires
        p >= 0,
        q > 0,
        0 <= i,
        i + 1 < expansion(p, q).len(),
        1 <= b < convergent(expansion(p, q), i + 1).1,
    ensures
        magnitude(p * convergent(expansion(p, q), i).1 - convergent(expansion(p, q), i).0 * q)
            <= magnitude(p * b - a * q),
{
    let c = expansion(p, q);
    let (h, k) = convergent(c, i);
    let (h1, k1) = convergent(c, i + 1);
    let e = p * k - h * q;
    let e1 = p * k1 - h1 * q;
    let t = p * b - a * q;
    convergents_are_adjacent(c, i + 1);
    convergent_error(p, q, i);
    convergent_error(p, q, i + 1);
    expansion_by_remainders(p, q, i as nat);
    expansion_by_remainders(p, q, (i + 1) as nat);
    lemma_denominator_positive(p, q, i);
    let (u, v) = lemma_spanned(h, k, h1, k1, a, b);
    lemma_combined_difference(p, q, h, k, h1, k1, u, v);
    assert(t == u * e + v * e1);
    lemma_scaled(v, k1);
    lemma_scaled(u, k);
    lemma_scaled(u, e);
    lemma_scaled(v, e1);
    if v == 0 {
        assert(u >= 1);
    } else if v >= 1 {
        assert(u <= -1);
    } else {
        assert(u >= 1);
    }
}

/// Negating every coefficient changes the convergents in sign only: the
/// numerators at even indices and the denominators at odd ones.
pub proof fn convergent_of_negated(c: Seq<int>, i: int)
    requires
        -2 <= i < c.len(),
    ensures
        convergent(negated(c), i) == if i % 2 == 0 {
            (-convergent(c, i).0, convergent(c, i).1)
        } else {
            (convergent(c, i).0, -convergent(c, i).1)
        },
    decreases i + 2,
{
    if i >= 0 {
        convergent_of_negated(c, i - 1);
        convergent_of_negated(c, i - 2);
        let a = c[i];
        let (h1, k1) = convergent(c, i - 1);
        let (h2, k2) = convergent(c, i - 2);
        assert(negated(c)[i] == -a);
        assert((-a) * h1 == -(a * h1) && (-a) * (-h1) == a * h1) by (nonlinear_arith);
        assert((-a) * k1 == -(a * k1) && (-a) * (-k1) == a * k1) by (nonlinear_arith);
    }
}

/// The convergents of the expansion of a pair whose terms fit never leave
/// the range, nor do the products that the recurrence forms on its way to
/// them.
pub proof fn convergents_fit(p: int, q: int, i: int)
    requires
        fits(p),
        fits(q),
        0 <= i < expansion(p, q).len(),
    ensures
        fits(convergent(expansion(p, q), i).0),
        fits(convergent(expansion(p, q), i).1),
        fits(expansion(p, q)[i] * convergent(expansion(p, q), i - 1).0),
        fits(expansion(p, q)[i] * convergent(expansion(p, q), i - 1).1),
{
    let c = expansion(p, q);
    let a = magnitude(p);
    let b = magnitude(q);
    let e = expansion(a, b);
    expansion_by_magnitudes(p, q);
    lemma_convergents_bounded(a, b, i);
    if c != e {
        convergent_of_negated(e, i);
        convergent_of_negated(e, i - 1);
        let x = e[i];
        let (h1, k1) = convergent(e, i - 1);
        assert(c[i] == -x);
        assert((-x) * h1 == -(x * h1) && (-x) * (-h1) == x * h1) by (nonlinear_arith);
        assert((-x) * k1 == -(x * k1) && (-x) * (-k1) == x * k1) by (nonlinear_arith);
    }
}

/// The last convergent of the expansion of a fraction is that fraction:
/// it is cross-multiplication-equal to the pair that was expanded and to its
/// lowest terms, which it equals up to a common sign, and it is the pair
/// that the expansion folds to.
pub proof fn last_convergent_is_fraction(p: int, q: int)
    requires
        q != 0,
    ensures
        ({
            let (n, m) = lowest_terms(p, q);
            let c = expansion(n, m);
            let (h, k) = convergent(c, c.len() - 1);
            &&& c.len() > 0
            &&& h * q == p * k
            &&& h * m == n * k
            &&& (h == n && k == m) || (h == -n && k == -m)
            &&& (h, k) == rational_of(c)
        }),
{
    let (n, m) = lowest_terms(p, q);
    let c = expansion(n, m);
    let (h, k) = convergent(c, c.len() - 1);
    lowest_terms_reduce(p, q);
    expansion_empty_iff(n, m);
    round_trip(p, q);
    last_convergent_is_value(c);
    assert(h * m == n * k) by (nonlinear_arith)
        requires
            (h == n && k == m) || (h == -n && k == -m),
    ;
}

} // verus!
