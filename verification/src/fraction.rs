//! The continued fraction of a rational number as a value.

use crate::convergents::{
    convergent, convergent_is_prefix_value, convergents_fit, last_convergent_is_value,
};
use crate::division::{fits, lemma_exact_division, lemma_trunc_division, magnitude};
use crate::expansion::{expansion, expansion_length_bounded, expansion_unfolds};
use crate::gcd::{gcd_divides_both, gcd_of, gcd_unsigned, unsigned_magnitude};
use crate::reconstruction::{rational_of, reconstruction_fits, round_trip};
use crate::reduction::{lowest_terms, lowest_terms_of_reduced, lowest_terms_reduce};
use vstd::arithmetic::power2::lemma2_to64;
use vstd::prelude::*;

verus! {

/// Why a pair of integers has no continued fraction here.
#[derive(Debug, Clone, Copy, PartialEq, Eq, Structural)]
pub enum Error {
    /// Numerator and denominator are both zero: the pair stands for no
    /// number and has no lowest terms.
    DegenerateRational,
    /// In lowest terms, with the sign on the numerator, the numerator or the
    /// denominator has a magnitude above `i32::MAX`.
    Overflow,
}

/// Continued fraction of a rational number: the coefficients
/// `[a0; a1, a2, ...]` with `p / q = a0 + 1 / (a1 + 1 / (a2 + ...))`.
///
/// A value is made from a pair of integers once and only read afterwards.
pub struct ContinuedFraction {
    coefficients: Vec<i32>,
}

/// The terms of a sequence of machine integers as mathematical integers.
pub open spec fn integers(s: Seq<i32>) -> Seq<int> {
    s.map_values(|a: i32| a as int)
}

/// `c` is the expansion of the fraction `p / q`, which is in lowest terms
/// with a denominator that is not negative, and whose terms fit.
pub open spec fn is_expansion_of(c: Seq<int>, p: int, q: int) -> bool {
    &&& fits(p)
    &&& fits(q)
    &&& q >= 0
    &&& gcd_of(p, q) == 1
    &&& c == expansion(p, q)
}

/// `c` is the expansion of some fraction in lowest terms that fits: what
/// the coefficients of every [`ContinuedFraction`] are.
pub open spec fn is_reduced_expansion(c: Seq<int>) -> bool {
    exists|p: int, q: int| is_expansion_of(c, p, q)
}

/// Folding `c` from position `j` stays in range, the next product included.
spec fn fold_fits_at(c: Seq<int>, j: int) -> bool {
    &&& fits(rational_of(c.skip(j)).0)
    &&& fits(rational_of(c.skip(j)).1)
    &&& j + 1 < c.len() ==> fits(c[j] * rational_of(c.skip(j + 1)).0)
}

/// The convergent of `c` at `j` stays in range, the two products on the way
/// to it included.
spec fn convergent_fits_at(c: Seq<int>, j: int) -> bool {
    &&& fits(convergent(c, j).0)
    &&& fits(convergent(c, j).1)
    &&& fits(c[j] * convergent(c, j - 1).0)
    &&& fits(c[j] * convergent(c, j - 1).1)
}

impl View for ContinuedFraction {
    type V = Seq<int>;

    /// The coefficients, first term first.
    closed spec fn view(&self) -> Seq<int> {
        integers(self.coefficients@)
    }
}

impl ContinuedFraction {
    /// The coefficients are the expansion of a fraction in lowest terms
    /// whose numerator and denominator fit, so that nothing computed from
    /// them leaves the range of the machine integers.
    #[verifier::type_invariant]
    spec fn well_formed(&self) -> bool {
        is_reduced_expansion(integers(self.coefficients@))
    }

    /// Expands the fraction `p / q`.
    ///
    /// The pair is first brought to lowest terms with the sign on the
    /// numerator. The coefficients are then the truncating quotients of the
    /// remainder sequence, first term first; a zero denominator gives none.
    ///
    /// `(0, 0)` is refused as degenerate. A pair is refused for overflow
    /// where its lowest terms do not fit, which needs a term equal to
    /// `i32::MIN`; every other pair is expanded, into at most 62
    /// coefficients.
    pub fn from_rational(p: i32, q: i32) -> (result: Result<ContinuedFraction, Error>)
        ensures
            match result {
                Ok(cf) => ({
                    let (n, m) = lowest_terms(p as int, q as int);
                    &&& p != 0 || q != 0
                    &&& is_expansion_of(cf@, n, m)
                    &&& cf@.len() <= 62
                }),
                Err(Error::DegenerateRational) => p == 0 && q == 0,
                Err(Error::Overflow) => ({
                    let (n, m) = lowest_terms(p as int, q as int);
                    &&& p != 0 || q != 0
                    &&& !fits(n) || !fits(m)
                }),
            },
            p != i32::MIN && q != i32::MIN && (p != 0 || q != 0) ==> result is Ok,
    {
        if p == 0 && q == 0 {
            return Err(Error::DegenerateRational);
        }
        let d: i64 = gcd_unsigned(unsigned_magnitude(p), unsigned_magnitude(q)) as i64;
        proof {
            lowest_terms_reduce(p as int, q as int);
            gcd_divides_both(p as int, q as int);
            lemma_exact_division(p as int, d as int);
            lemma_exact_division(q as int, d as int);
        }
        let mut n: i64 = p as i64 / d;
        let mut m: i64 = q as i64 / d;
        if m < 0 {
            n = -n;
            m = -m;
        }
        assert((n as int, m as int) == lowest_terms(p as int, q as int));
        if n < -(i32::MAX as i64) || n > i32::MAX as i64 || m > i32::MAX as i64 {
            return Err(Error::Overflow);
        }
        proof {
            lemma2_to64();
            expansion_length_bounded(n as int, m as int, 31);
        }
        let mut a: i32 = n as i32;
        let mut b: i32 = m as i32;
        let mut coefficients: Vec<i32> = Vec::new();
        assert(integers(coefficients@) + expansion(a as int, b as int) =~= expansion(
            n as int,
            m as int,
        ));
        while b != 0
            invariant
                fits(n as int),
                fits(m as int),
                m >= 0,
                gcd_of(n as int, m as int) == 1,
                fits(a as int),
                fits(b as int),
                integers(coefficients@) + expansion(a as int, b as int) == expansion(
                    n as int,
                    m as int,
                ),
            decreases magnitude(b as int),
        {
            proof {
                lemma_trunc_division(a as int, b as int);
                expansion_unfolds(a as int, b as int);
            }
            let ghost before = integers(coefficients@);
            let quotient: i32 = a / b;
            let remainder: i32 = a % b;
            coefficients.push(quotient);
            proof {
                let rest = expansion(b as int, remainder as int);
                assert(expansion(a as int, b as int) == seq![quotient as int] + rest);
                assert(integers(coefficients@) =~= before.push(quotient as int));
                assert(before.push(quotient as int) + rest =~= before + (seq![quotient as int]
                    + rest));
            }
            a = b;
            b = remainder;
        }
        proof {
            assert(integers(coefficients@) =~= expansion(n as int, m as int));
            assert(is_expansion_of(integers(coefficients@), n as int, m as int));
            assert(is_reduced_expansion(integers(coefficients@)));
        }
        Ok(ContinuedFraction { coefficients })
    }

    /// Folds the coefficients back into a fraction `(numerator,
    /// denominator)`; no coefficients give `(0, 1)`.
    ///
    /// The result is cross-multiplication-equal to the fraction that was
    /// expanded. It is not always that fraction in lowest terms: both of its
    /// terms may come out with their signs turned.
    pub fn to_rational(&self) -> (result: (i32, i32))
        ensures
            (result.0 as int, result.1 as int) == rational_of(self@),
            forall|p: int, q: int| #[trigger]
                is_expansion_of(self@, p, q) && q != 0 ==> p * result.1 == result.0 * q,
    {
        proof {
            assert forall|p: int, q: int| #[trigger]
                is_expansion_of(self@, p, q) && q != 0 implies p * rational_of(self@).1
                == rational_of(self@).0 * q by {
                lowest_terms_of_reduced(p, q);
                round_trip(p, q);
            }
        }
        let len: usize = self.coefficients.len();
        if len == 0 {
            return (0, 1);
        }
        proof {
            use_type_invariant(self);
            let (p, q) = choose|p: int, q: int| is_expansion_of(self@, p, q);
            assert forall|j: int| 0 <= j < self@.len() implies fold_fits_at(self@, j) by {
                reconstruction_fits(p, q, j);
            }
        }
        let mut i: usize = len - 1;
        let mut num: i32 = self.coefficients[i];
        let mut den: i32 = 1;
        assert(self@.skip(i as int).len() == 1);
        while i > 0
            invariant
                len == self.coefficients.len(),
                self@ == integers(self.coefficients@),
                0 <= i < len,
                (num as int, den as int) == rational_of(self@.skip(i as int)),
                forall|j: int| 0 <= j < self@.len() ==> fold_fits_at(self@, j),
            decreases i,
        {
            i -= 1;
            let coef: i32 = self.coefficients[i];
            proof {
                assert(fold_fits_at(self@, i as int));
                assert(self@.skip(i as int).skip(1) =~= self@.skip(i + 1));
                assert(self@.skip(i as int)[0] == coef);
            }
            let next: i32 = coef * num + den;
            den = num;
            num = next;
        }
        assert(self@.skip(0) =~= self@);
        (num, den)
    }

    /// The coefficients `[a0; a1, a2, ...]`, first term first. They are
    /// always the expansion of a fraction in lowest terms.
    pub fn coefficients(&self) -> (result: &[i32])
        ensures
            integers(result@) == self@,
            is_reduced_expansion(integers(result@)),
    {
        proof {
            use_type_invariant(self);
        }
        self.coefficients.as_slice()
    }

    /// The convergents `(h, k)`, one for each coefficient and in the same
    /// order: the fractions `h / k` that the coefficients up to each index
    /// stand for. The last one is what [`Self::to_rational`] returns.
    pub fn convergents(&self) -> (result: Vec<(i32, i32)>)
        ensures
            result@.len() == self@.len(),
            forall|j: int|
                0 <= j < result@.len() ==> (result@[j].0 as int, result@[j].1 as int)
                    == #[trigger] convergent(self@, j),
            forall|j: int|
                0 <= j < result@.len() ==> (result@[j].0 as int, result@[j].1 as int)
                    == rational_of(#[trigger] self@.take(j + 1)),
            result@.len() > 0 ==> (result@.last().0 as int, result@.last().1 as int)
                == rational_of(self@),
    {
        proof {
            use_type_invariant(self);
            assert forall|j: int| 0 <= j < self@.len() implies convergent(self@, j)
                == rational_of(#[trigger] self@.take(j + 1)) by {
                convergent_is_prefix_value(self@, j);
            }
            if self@.len() > 0 {
                last_convergent_is_value(self@);
            }
            let (p, q) = choose|p: int, q: int| is_expansion_of(self@, p, q);
            assert forall|j: int| 0 <= j < self@.len() implies convergent_fits_at(self@, j) by {
                convergents_fit(p, q, j);
            }
        }
        let len: usize = self.coefficients.len();
        let mut result: Vec<(i32, i32)> = Vec::new();
        let mut h_2: i32 = 0;
        let mut k_2: i32 = 1;
        let mut h_1: i32 = 1;
        let mut k_1: i32 = 0;
        let mut i: usize = 0;
        while i < len
            invariant
                len == self.coefficients.len(),
                self@ == integers(self.coefficients@),
                0 <= i <= len,
                result@.len() == i,
                (h_1 as int, k_1 as int) == convergent(self@, i - 1),
                (h_2 as int, k_2 as int) == convergent(self@, i - 2),
                forall|j: int|
                    0 <= j < i ==> (result@[j].0 as int, result@[j].1 as int)
                        == #[trigger] convergent(self@, j),
                forall|j: int| 0 <= j < self@.len() ==> convergent_fits_at(self@, j),
            decreases len - i,
        {
            let a: i32 = self.coefficients[i];
            proof {
                assert(convergent_fits_at(self@, i as int));
                assert(self@[i as int] == a);
            }
            let h: i32 = a * h_1 + h_2;
            let k: i32 = a * k_1 + k_2;
            result.push((h, k));
            h_2 = h_1;
            k_2 = k_1;
            h_1 = h;
            k_1 = k;
            i += 1;
        }
        result
    }
}

} // verus!
