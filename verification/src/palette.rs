//! From a score to a colour, by way of the Cool gradient of `colorous`.
//!
//! The gradient is sampled at a position given by two integers: sample `i`
//! of `n` evenly spaced samples, the first at the start of the gradient and
//! the last at its end. A score `i / d` is therefore shown as sample `i` of
//! `d + 1`.

use crate::score::Score;
use vstd::prelude::*;

verus! {

/// A colour, as red, green and blue.
#[derive(Clone, Copy, Debug, PartialEq, Eq)]
pub struct Rgb {
    pub r: u8,
    pub g: u8,
    pub b: u8,
}

/// The fraction `numerator / denominator`, with both halved until the
/// denominator is below `limit`.
pub open spec fn reduced(numerator: nat, denominator: nat, limit: nat) -> (nat, nat)
    decreases denominator,
{
    if denominator < limit || limit < 2 {
        (numerator, denominator)
    } else {
        reduced(numerator / 2, denominator / 2, limit)
    }
}

/// The sample of the gradient that stands for `score`: for the fraction
/// `i / d`, sample `i` of `d + 1`. The fraction is that of the score,
/// reduced until `d + 1` is a machine integer.
pub open spec fn sample_spec(score: Score) -> (nat, nat) {
    let (i, d) = reduced(score.numerator as nat, score.denominator as nat, usize::MAX as nat);
    (i, d + 1)
}

/// Halving keeps a fraction between zero and one, and its denominator
/// positive.
pub proof fn lemma_reduced_in_range(numerator: nat, denominator: nat, limit: nat)
    requires
        numerator <= denominator,
        denominator >= 1,
    ensures
        reduced(numerator, denominator, limit).0 <= reduced(numerator, denominator, limit).1,
        reduced(numerator, denominator, limit).1 >= 1,
        limit >= 2 ==> reduced(numerator, denominator, limit).1 < limit,
        denominator < limit ==> reduced(numerator, denominator, limit) == (numerator, denominator),
    decreases denominator,
{
    if !(denominator < limit || limit < 2) {
        lemma_reduced_in_range(numerator / 2, denominator / 2, limit);
    }
}

/// Computes the sample of the gradient that stands for `score`.
pub fn gradient_sample(score: Score) -> (sample: (usize, usize))
    requires
        score.wf(),
    ensures
        (sample.0 as nat, sample.1 as nat) == sample_spec(score),
        sample.0 < sample.1,
{
    let mut numerator: u128 = score.numerator;
    let mut denominator: u128 = score.denominator;
    let limit: u128 = usize::MAX as u128;
    while denominator >= limit
        invariant
            limit == usize::MAX,
            0 <= numerator <= denominator,
            denominator >= 1,
            reduced(numerator as nat, denominator as nat, usize::MAX as nat) == reduced(
                score.numerator as nat,
                score.denominator as nat,
                usize::MAX as nat,
            ),
        decreases denominator,
    {
        numerator = numerator / 2;
        denominator = denominator / 2;
    }
    (numerator as usize, (denominator + 1) as usize)
}

/// Calls `colorous::Gradient::eval_rational` on `colorous::COOL` and takes
/// the colour apart.
///
/// Trusted: nothing is claimed of the colour. With `n == 0` the call would
/// panic, which `i < n` excludes.
#[verifier::external_body]
fn cool_rational(i: usize, n: usize) -> (rgb: (u8, u8, u8))
    requires
        i < n,
{
    colorous::COOL.eval_rational(i, n).as_tuple()
}

/// The colour in which a run of the given score is shown: what the gradient
/// gives for the sample of [`gradient_sample`], put together by
/// [`Rgb::from_tuple`]. The gradient computes with sines and cosines in
/// floating point, whose precision is not fixed, so no colour is promised.
pub fn color_of(score: Score) -> (rgb: Rgb)
    requires
        score.wf(),
{
    let (i, n) = gradient_sample(score);
    let parts = cool_rational(i, n);
    Rgb::from_tuple(parts)
}

impl Rgb {
    /// The colour with the given red, green and blue.
    pub fn from_tuple(parts: (u8, u8, u8)) -> (rgb: Rgb)
        ensures
            rgb.r == parts.0,
            rgb.g == parts.1,
            rgb.b == parts.2,
    {
        Rgb { r: parts.0, g: parts.1, b: parts.2 }
    }
}

} // verus!
