//! The score of a resolved run: how novel it looks, as an exact fraction.
//!
//! With `normalized_age = min(age, window_size - 1) / window_size`, the
//! score of a run is `1 / max(1, run_length / (1 - normalized_age))`. A
//! short run that was seen a moment ago scores close to one; a long run, or
//! one last seen far back, scores close to zero.
//!
//! A run that does not occur in the window at all has no age. It is scored
//! as if its age were zero: the score then depends on its length alone.
//!
//! The score is kept as a fraction of two integers, so that it is exact:
//! writing `a` for `min(age, window_size - 1)`, the formula above is
//! `(window_size - a) / max(window_size - a, run_length * window_size)`.

use crate::engine::age_view;
use vstd::prelude::*;

verus! {

/// The age that enters the score: the run's age, or zero if it has none,
/// capped below the size of the window.
pub open spec fn effective_age(age: Option<nat>, window_size: nat) -> nat {
    let a = match age {
        Some(a) => a,
        None => 0,
    };
    if a < window_size {
        a
    } else {
        (window_size - 1) as nat
    }
}

/// The numerator of the score: `window_size * (1 - normalized_age)`.
pub open spec fn score_numerator(age: Option<nat>, window_size: nat) -> nat {
    (window_size - effective_age(age, window_size)) as nat
}

/// The denominator of the score.
pub open spec fn score_denominator(run_length: nat, age: Option<nat>, window_size: nat) -> nat {
    let n = score_numerator(age, window_size);
    if run_length * window_size > n {
        run_length * window_size
    } else {
        n
    }
}

/// A fraction between zero and one.
#[derive(Clone, Copy, Debug, PartialEq, Eq)]
pub struct Score {
    pub numerator: u128,
    pub denominator: u128,
}

impl Score {
    /// The fraction is well defined and lies between zero and one.
    pub open spec fn wf(&self) -> bool {
        0 <= self.numerator <= self.denominator && self.denominator > 0
    }

    /// The score zero.
    pub fn zero() -> (s: Score)
        ensures
            s.wf(),
            s.numerator == 0,
            s.denominator == 1,
    {
        Score { numerator: 0, denominator: 1 }
    }
}

/// The score of a run of `run_length` bytes that was last seen `age` bytes
/// ago, in a window of `window_size` bytes.
pub fn score(run_length: usize, age: Option<usize>, window_size: usize) -> (s: Score)
    requires
        window_size > 0,
    ensures
        s.numerator == score_numerator(age_view(age), window_size as nat),
        s.denominator == score_denominator(
            run_length as nat,
            age_view(age),
            window_size as nat,
        ),
        s.wf(),
        s.numerator > 0,
{
    let a: usize = match age {
        Some(a) => a,
        None => 0,
    };
    let capped: usize = if a < window_size {
        a
    } else {
        window_size - 1
    };
    let numerator: u128 = (window_size - capped) as u128;
    assert(run_length * window_size <= u128::MAX) by (nonlinear_arith)
        requires
            run_length <= 0xffff_ffff_ffff_ffff,
            window_size <= 0xffff_ffff_ffff_ffff,
            u128::MAX == 0xffff_ffff_ffff_ffff_ffff_ffff_ffff_ffff,
    ;
    let product: u128 = (run_length as u128) * (window_size as u128);
    let denominator: u128 = if product > numerator {
        product
    } else {
        numerator
    };
    Score { numerator, denominator }
}

/// The score lies in the unit interval and is never zero. For a run of at
/// least one byte it is `(1 - normalized_age) / run_length`; for the empty
/// run it is one.
pub proof fn lemma_score_range(run_length: nat, age: Option<nat>, window_size: nat)
    requires
        window_size >= 1,
    ensures
        0 < score_numerator(age, window_size) <= window_size,
        score_numerator(age, window_size) <= score_denominator(run_length, age, window_size),
        run_length >= 1 ==> score_denominator(run_length, age, window_size) == run_length
            * window_size,
        run_length == 0 ==> score_denominator(run_length, age, window_size) == score_numerator(
            age,
            window_size,
        ),
{
    if run_length >= 1 {
        assert(run_length * window_size >= window_size) by (nonlinear_arith)
            requires
                run_length >= 1,
        ;
    } else {
        assert(run_length * window_size == 0) by (nonlinear_arith)
            requires
                run_length == 0,
        ;
    }
}

/// A run scores no higher than a shorter run of the same age, and no
/// higher than a run of the same length that was seen more recently. The
/// fractions are compared by cross-multiplication.
pub proof fn lemma_score_monotone(
    run_length: nat,
    longer: nat,
    age: Option<nat>,
    older: nat,
    window_size: nat,
)
    requires
        window_size >= 1,
        run_length <= longer,
        effective_age(age, window_size) <= older,
    ensures
        score_numerator(age, window_size) * score_denominator(run_length, age, window_size)
            <= score_numerator(age, window_size) * score_denominator(longer, age, window_size),
        score_numerator(Some(older), window_size) * score_denominator(
            run_length,
            age,
            window_size,
        ) <= score_numerator(age, window_size) * score_denominator(
            run_length,
            Some(older),
            window_size,
        ),
{
    let near = score_numerator(age, window_size);
    let far = score_numerator(Some(older), window_size);
    let product = run_length * window_size;
    lemma_score_range(run_length, age, window_size);
    lemma_score_range(run_length, Some(older), window_size);
    lemma_score_range(longer, age, window_size);
    assert(run_length * window_size <= longer * window_size) by (nonlinear_arith)
        requires
            run_length <= longer,
    ;
    assert(near * score_denominator(run_length, age, window_size) <= near * score_denominator(
        longer,
        age,
        window_size,
    )) by (nonlinear_arith)
        requires
            score_denominator(run_length, age, window_size) <= score_denominator(
                longer,
                age,
                window_size,
            ),
    ;
    assert(far <= near);
    if run_length >= 1 {
        assert(far * product <= near * product) by (nonlinear_arith)
            requires
                far <= near,
        ;
    } else {
        assert(far * near == near * far) by (nonlinear_arith);
    }
}

} // verus!
