//! How a score changes after a round.
//!
//! A validator of the winning group gains, one of a losing group loses, and
//! where no group won every validator loses the less the larger the share
//! of its group was. Every new score lies between `MIN_CONFIDENCE` and
//! `MAX_CONFIDENCE`, whatever the old score and the share were.

use crate::credibility::{
    MAX_CONFIDENCE, MIDDLE_CONFIDENCE, MIN_CONFIDENCE, PRECISION, RANGE,
};
use vstd::prelude::*;

verus! {

/// The step of a validator that submitted the accepted message.
pub const SUCCESS_STEP: u32 = 100;

/// The step of a validator that submitted another message than the accepted.
pub const DO_EVIL_STEP: u32 = 200;

/// The step of a validator in a round that accepted no message.
pub const EXCEPTION_STEP: u32 = 100;

/// The part that a validator played in a round.
#[derive(Debug, Clone, Copy, PartialEq, Eq, Structural)]
pub enum Standing {
    /// It submitted the accepted message.
    Trusted,
    /// It submitted another message than the accepted one.
    Untrusted,
    /// No message was accepted.
    Exception,
}

/// The score nearest to `score` that a validator can hold.
pub open spec fn clamp_score(score: int) -> int {
    if score < MIN_CONFIDENCE {
        MIN_CONFIDENCE as int
    } else if score > MAX_CONFIDENCE {
        MAX_CONFIDENCE as int
    } else {
        score
    }
}

/// The score after a round on the winning side: below the middle the gain
/// grows with the distance from the minimum, from the middle on it shrinks
/// with the distance to the maximum.
pub open spec fn trusted_score(score: int) -> int {
    if score < MIDDLE_CONFIDENCE {
        clamp_score(score + SUCCESS_STEP * (score - MIN_CONFIDENCE) / (RANGE as int))
    } else {
        clamp_score(score + SUCCESS_STEP * (MAX_CONFIDENCE - score) / (RANGE as int))
    }
}

/// The score after a round on a losing side: the loss grows with the
/// distance from the minimum.
pub open spec fn untrusted_score(score: int) -> int {
    clamp_score(score - DO_EVIL_STEP * (score - MIN_CONFIDENCE) / (RANGE as int))
}

/// The share of a group as it enters the penalty: a share above the whole
/// counts as the whole.
pub open spec fn capped_share(weight: int) -> int {
    if weight > PRECISION {
        PRECISION as int
    } else {
        weight
    }
}

/// The score after a round without a winner: the loss is that part of the
/// step which the share of the validator's group leaves of the whole. Each
/// division rounds down before the next operation.
pub open spec fn exception_score(score: int, weight: int) -> int {
    clamp_score(
        score - EXCEPTION_STEP * (score - MIN_CONFIDENCE) / (RANGE as int) * (PRECISION
            - capped_share(weight)) / (PRECISION as int),
    )
}

/// The score that follows `score` for a validator with `standing`, in a
/// group with share `weight` (which counts for `Exception` only).
pub open spec fn next_score(standing: Standing, score: int, weight: int) -> int {
    match standing {
        Standing::Trusted => trusted_score(score),
        Standing::Untrusted => untrusted_score(score),
        Standing::Exception => exception_score(score, weight),
    }
}

/// The new score of a validator that submitted the accepted message.
pub fn trusted_step(score: u32) -> (next: u32)
    ensures
        next == trusted_score(score as int),
        MIN_CONFIDENCE <= next <= MAX_CONFIDENCE,
        score <= MAX_CONFIDENCE ==> next >= score,
{
    if score < MIDDLE_CONFIDENCE {
        score + SUCCESS_STEP * (score - MIN_CONFIDENCE) / RANGE
    } else if score >= MAX_CONFIDENCE {
        MAX_CONFIDENCE
    } else {
        score + SUCCESS_STEP * (MAX_CONFIDENCE - score) / RANGE
    }
}

/// The new score of a validator that submitted another message than the
/// accepted one.
pub fn untrusted_step(score: u32) -> (next: u32)
    ensures
        next == untrusted_score(score as int),
        MIN_CONFIDENCE <= next <= MAX_CONFIDENCE,
        next <= score,
{
    let wide: u64 = score as u64;
    let left: u64 = wide - DO_EVIL_STEP as u64 * (wide - MIN_CONFIDENCE as u64) / RANGE as u64;
    if left > MAX_CONFIDENCE as u64 {
        MAX_CONFIDENCE
    } else {
        left as u32
    }
}

/// The new score of a validator in a round that accepted no message, where
/// the share of its group was `weight`.
pub fn exception_step(score: u32, weight: u32) -> (next: u32)
    ensures
        next == exception_score(score as int, weight as int),
        MIN_CONFIDENCE <= next <= MAX_CONFIDENCE,
        next <= score,
{
    let wide: u64 = score as u64;
    let share: u64 = if weight > PRECISION {
        PRECISION as u64
    } else {
        weight as u64
    };
    let full: u64 = EXCEPTION_STEP as u64 * (wide - MIN_CONFIDENCE as u64) / RANGE as u64;
    let rest: u64 = PRECISION as u64 - share;
    assert(full * rest <= full * 10000) by (nonlinear_arith)
        requires
            rest <= 10000,
    ;
    let loss: u64 = full * rest / PRECISION as u64;
    let left: u64 = wide - loss;
    if left > MAX_CONFIDENCE as u64 {
        MAX_CONFIDENCE
    } else {
        left as u32
    }
}

/// The new score of a validator with `standing`.
pub fn step(standing: Standing, score: u32, weight: u32) -> (next: u32)
    ensures
        next == next_score(standing, score as int, weight as int),
        MIN_CONFIDENCE <= next <= MAX_CONFIDENCE,
{
    match standing {
        Standing::Trusted => trusted_step(score),
        Standing::Untrusted => untrusted_step(score),
        Standing::Exception => exception_step(score, weight),
    }
}

/// No rule leads out of the range of scores.
pub proof fn lemma_next_score_in_range(standing: Standing, score: int, weight: int)
    ensures
        MIN_CONFIDENCE <= next_score(standing, score, weight) <= MAX_CONFIDENCE,
{
}

/// On the winning side a score within the range never falls, and rises by
/// less than the step.
pub proof fn lemma_trusted_rises(score: int)
    requires
        MIN_CONFIDENCE <= score <= MAX_CONFIDENCE,
    ensures
        score <= trusted_score(score) <= score + SUCCESS_STEP,
{
}

/// On a losing side a score within the range never rises, and falls by the
/// step at most.
pub proof fn lemma_untrusted_falls(score: int)
    requires
        MIN_CONFIDENCE <= score <= MAX_CONFIDENCE,
    ensures
        score - DO_EVIL_STEP <= untrusted_score(score) <= score,
{
}

/// Without a winner a score within the range never rises, and the larger
/// share loses no more than the smaller.
pub proof fn lemma_exception_falls(score: int, smaller: int, larger: int)
    requires
        MIN_CONFIDENCE <= score <= MAX_CONFIDENCE,
        0 <= smaller <= larger,
    ensures
        exception_score(score, smaller) <= exception_score(score, larger) <= score,
{
    let full = EXCEPTION_STEP * (score - MIN_CONFIDENCE) / (RANGE as int);
    let little = PRECISION - capped_share(larger);
    let much = PRECISION - capped_share(smaller);
    assert(0 <= full * little <= full * much <= full * 10000) by (nonlinear_arith)
        requires
            0 <= full,
            0 <= little <= much <= 10000,
    ;
}

} // verus!
