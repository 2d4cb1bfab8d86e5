//! Continued fractions of rational numbers.
//!
//! A pair of integers `(p, q)` is reduced to lowest terms, expanded into
//! the coefficients `[a0; a1, a2, ...]` of its continued fraction by the
//! Euclidean algorithm, and can be folded back into a fraction or read as
//! the sequence of its convergents.
//!
//! The executable items are [`gcd`] and [`ContinuedFraction`]. Their
//! contracts are stated over the mathematical model in the modules
//! [`gcd`](mod@gcd), [`reduction`], [`expansion`], [`reconstruction`] and
//! [`convergents`], which also hold the laws proved of that model: the
//! greatest common divisor is the greatest common divisor; equal fractions
//! have the same lowest terms; the expansion is the one canonical sequence
//! that folds back to its fraction; the last convergent is that fraction, and
//! every convergent is a best approximation of it.

pub mod convergents;
pub mod division;
pub mod expansion;
pub mod fraction;
pub mod gcd;
pub mod reconstruction;
pub mod reduction;

pub use crate::fraction::{ContinuedFraction, Error};
pub use crate::gcd::gcd;
