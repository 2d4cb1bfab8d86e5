//! The expansion of a fraction into the coefficients of its continued
//! fraction, and what holds of every expansion.

use crate::division::{
    lemma_trunc_division, lemma_trunc_negation, magnitude, trunc_div, trunc_rem,
};
use vstd::arithmetic::power2::{lemma2_to64, lemma_pow2_unfold, pow2};
use vstd::prelude::*;

verus! {

/// Coefficients of the continued fraction of `p / q`, first term first.
///
/// Each step takes the truncating quotient of the current pair and goes on
/// with the divisor and the remainder, until the divisor is zero. A zero
/// denominator therefore has the empty expansion. Because the quotient is
/// rounded toward zero, a negative fraction gets the coefficients of its
/// magnitude, each negated (see [`expansion_of_negation`]).
pub open spec fn expansion(p: int, q: int) -> Seq<int>
    decreases magnitude(q),
    via expansion_terminates
{
    if q == 0 {
        Seq::empty()
    } else {
        seq![trunc_div(p, q)] + expansion(q, trunc_rem(p, q))
    }
}

#[via_fn]
proof fn expansion_terminates(p: int, q: int) {
    if q != 0 {
        lemma_trunc_division(p, q);
    }
}

/// A coefficient sequence in canonical form that stands for a number
/// which is not negative: the first coefficient is not negative, those after
/// it are positive, and where there are several the last is at least two.
pub open spec fn is_canonical(c: Seq<int>) -> bool {
    &&& c.len() >= 1
    &&& c[0] >= 0
    &&& forall|i: int| 1 <= i < c.len() ==> c[i] >= 1
    &&& c.len() > 1 ==> c[c.len() - 1] >= 2
}

/// Negation of every term of a sequence.
pub open spec fn negated(c: Seq<int>) -> Seq<int> {
    Seq::new(c.len(), |i: int| -c[i])
}

/// The expansion of a pair with nonzero denominator starts with the
/// truncating quotient and goes on with the expansion of divisor and
/// remainder.
pub proof fn expansion_unfolds(p: int, q: int)
    requires
        q != 0,
    ensures
        expansion(p, q).len() == 1 + expansion(q, trunc_rem(p, q)).len(),
        expansion(p, q)[0] == trunc_div(p, q),
        expansion(p, q).skip(1) == expansion(q, trunc_rem(p, q)),
{
    let rest = expansion(q, trunc_rem(p, q));
    assert((seq![trunc_div(p, q)] + rest).skip(1) =~= rest);
}

/// Only a zero denominator has the empty expansion.
pub proof fn expansion_empty_iff(p: int, q: int)
    ensures
        expansion(p, q).len() == 0 <==> q == 0,
{
    if q != 0 {
        expansion_unfolds(p, q);
    }
}

/// Negating the numerator or the denominator negates every coefficient.
pub proof fn expansion_of_negation(p: int, q: int)
    ensures
        expansion(-p, q) == negated(expansion(p, q)),
        expansion(p, -q) == negated(expansion(p, q)),
    decreases magnitude(q),
{
    if q == 0 {
        assert(expansion(p, q) =~= negated(expansion(p, q)));
    } else {
        let r = trunc_rem(p, q);
        lemma_trunc_division(p, q);
        lemma_trunc_negation(p, q);
        expansion_unfolds(p, q);
        expansion_unfolds(-p, q);
        expansion_unfolds(p, -q);
        expansion_of_negation(q, r);
        assert(expansion(-p, q) =~= negated(expansion(p, q)));
        assert(expansion(p, -q) =~= negated(expansion(p, q)));
    }
}

/// The expansion of a fraction is that of its magnitude, with every
/// coefficient negated where the fraction is negative.
pub proof fn expansion_by_magnitudes(p: int, q: int)
    ensures
        expansion(p, q) == if (p < 0) == (q < 0) {
            expansion(magnitude(p), magnitude(q))
        } else {
            negated(expansion(magnitude(p), magnitude(q)))
        },
{
    let a = magnitude(p);
    let b = magnitude(q);
    expansion_of_negation(a, b);
    expansion_of_negation(a, -b);
    assert(negated(negated(expansion(a, b))) =~= expansion(a, b));
}

proof fn lemma_descending_expansion(x: int, y: int, i: int)
    requires
        x > y > 0,
        0 <= i < expansion(x, y).len(),
    ensures
        expansion(x, y)[i] >= 1,
        i == expansion(x, y).len() - 1 ==> expansion(x, y)[i] >= 2,
    decreases i,
{
    let a = trunc_div(x, y);
    let r = trunc_rem(x, y);
    lemma_trunc_division(x, y);
    expansion_unfolds(x, y);
    expansion_empty_iff(y, r);
    if i == 0 {
        assert(a >= 1 && (r == 0 ==> a >= 2)) by (nonlinear_arith)
            requires
                x > y > 0,
                x == y * a + r,
                0 <= r < y,
        ;
    } else {
        lemma_descending_expansion(y, r, i - 1);
        assert(expansion(x, y)[i] == expansion(y, r)[i - 1]);
    }
}

/// The expansion of a fraction that is not negative is in canonical form.
/// That of a negative fraction is such a sequence negated (see
/// [`expansion_by_magnitudes`]).
pub proof fn expansion_is_canonical(p: int, q: int)
    requires
        p >= 0,
        q > 0,
    ensures
        is_canonical(expansion(p, q)),
{
    let c = expansion(p, q);
    let a = trunc_div(p, q);
    let r = trunc_rem(p, q);
    lemma_trunc_division(p, q);
    expansion_unfolds(p, q);
    expansion_empty_iff(q, r);
    assert(a >= 0) by (nonlinear_arith)
        requires
            q > 0,
            0 <= q * a,
    ;
    assert forall|i: int| 1 <= i < c.len() implies c[i] >= 1 && (i == c.len() - 1 ==> c[i]
        >= 2) by {
        lemma_descending_expansion(q, r, i - 1);
        assert(c[i] == expansion(q, r)[i - 1]);
    }
}

/// The expansion is short: every two steps halve the divisor, so a
/// denominator below `2^k` in magnitude has at most `2 * k` coefficients.
pub proof fn expansion_length_bounded(p: int, q: int, k: nat)
    requires
        magnitude(q) < pow2(k),
    ensures
        expansion(p, q).len() <= 2 * k,
    decreases k,
{
    expansion_empty_iff(p, q);
    if q != 0 {
        lemma2_to64();
        lemma_pow2_unfold(k);
        let r = trunc_rem(p, q);
        lemma_trunc_division(p, q);
        expansion_unfolds(p, q);
        expansion_empty_iff(q, r);
        if r != 0 {
            let a = trunc_div(q, r);
            let s = trunc_rem(q, r);
            lemma_trunc_division(q, r);
            expansion_unfolds(q, r);
            assert(r * 0 == 0);
            assert(magnitude(r * a) >= magnitude(r)) by (nonlinear_arith)
                requires
                    a != 0,
            ;
            assert(2 * magnitude(s) < magnitude(q));
            expansion_length_bounded(r, s, (k - 1) as nat);
        }
    }
}

/// The remainder sequence of `p` and `q`: the two themselves, and then each
/// term the truncating remainder of the two before it. It means something
/// up to the first zero, which ends the expansion.
pub open spec fn remainder(p: int, q: int, i: nat) -> int
    decreases i,
{
    if i == 0 {
        p
    } else if i == 1 {
        q
    } else {
        trunc_rem(remainder(p, q, (i - 2) as nat), remainder(p, q, (i - 1) as nat))
    }
}

/// The remainder sequence of divisor and remainder is that of the pair,
/// one step on.
pub proof fn remainder_shifts(p: int, q: int, i: nat)
    ensures
        remainder(q, trunc_rem(p, q), i) == remainder(p, q, i + 1),
    decreases i,
{
    reveal_with_fuel(remainder, 3);
    if i >= 2 {
        remainder_shifts(p, q, (i - 2) as nat);
        remainder_shifts(p, q, (i - 1) as nat);
    }
}

/// Each coefficient is the truncating quotient of two neighbours in the
/// remainder sequence, whose magnitudes fall from the second term on; the
/// divisor at the last coefficient is the last term that is not zero. No
/// term is negative where neither `p` nor `q` is.
pub proof fn expansion_by_remainders(p: int, q: int, i: nat)
    requires
        i < expansion(p, q).len(),
    ensures
        remainder(p, q, i + 1) != 0,
        expansion(p, q)[i as int] == trunc_div(remainder(p, q, i), remainder(p, q, i + 1)),
        remainder(p, q, i) == expansion(p, q)[i as int] * remainder(p, q, i + 1) + remainder(
            p,
            q,
            i + 2,
        ),
        magnitude(remainder(p, q, i + 2)) < magnitude(remainder(p, q, i + 1)),
        i == expansion(p, q).len() - 1 <==> remainder(p, q, i + 2) == 0,
        p >= 0 && q >= 0 ==> remainder(p, q, i) >= 0 && remainder(p, q, i + 2) >= 0,
    decreases i,
{
    let r = trunc_rem(p, q);
    expansion_empty_iff(p, q);
    expansion_unfolds(p, q);
    expansion_empty_iff(q, r);
    lemma_trunc_division(p, q);
    if i == 0 {
        reveal_with_fuel(remainder, 3);
        assert(remainder(p, q, 2) == r);
        assert(q * trunc_div(p, q) == trunc_div(p, q) * q) by (nonlinear_arith);
    } else {
        let j = (i - 1) as nat;
        expansion_by_remainders(q, r, j);
        remainder_shifts(p, q, j);
        remainder_shifts(p, q, j + 1);
        remainder_shifts(p, q, j + 2);
        assert(expansion(p, q)[i as int] == expansion(q, r)[j as int]);
    }
}

} // verus!
