//! Log-domain score arithmetic in fixed point.
//!
//! A stored score `s` stands for `s / 1000` nats. Combining two
//! hypotheses that decode to the same sequence adds their probabilities,
//! which in log space is `log(exp(a) + exp(b)) = max + log1p(exp(min - max))`.
//! The correction term `log1p(exp(-d))` is computed here by a coarse
//! piecewise-constant table in the same fixed-point scale, so that the
//! whole combination is exact integer arithmetic.

use vstd::prelude::*;

verus! {

/// Number of fixed-point units per nat.
pub const SCORE_SCALE: i64 = 1000;

/// Largest magnitude a score may have before `log_add` is applied to it;
/// keeps every intermediate sum inside `i64`.
pub const SCORE_LIMIT: i64 = 0x1000_0000_0000_0000;

/// `log_add_bonus(0)`, i.e. `round(1000 * ln 2)`: the most the combined
/// score can exceed the larger of the two inputs.
pub const LOG_ADD_BONUS_MAX: i64 = 693;

/// The correction term `round(1000 * ln(1 + exp(-d / 1000)))`, tabulated as a
/// non-increasing step function of the gap `d >= 0` between the two scores;
/// each step takes the value of the true function at its left end.
pub open spec fn log_add_bonus_spec(d: int) -> int {
    if d < 250 {
        693
    } else if d < 500 {
        576
    } else if d < 750 {
        474
    } else if d < 1000 {
        387
    } else if d < 1250 {
        313
    } else if d < 1500 {
        252
    } else if d < 1750 {
        201
    } else if d < 2000 {
        160
    } else if d < 2250 {
        127
    } else if d < 2500 {
        100
    } else if d < 2750 {
        79
    } else if d < 3000 {
        62
    } else if d < 3500 {
        49
    } else if d < 4000 {
        30
    } else if d < 4500 {
        18
    } else if d < 5000 {
        11
    } else if d < 6000 {
        7
    } else if d < 7000 {
        2
    } else if d < 8000 {
        1
    } else {
        0
    }
}

/// Log-sum-exp of two fixed-point log-domain scores:
/// `max(a, b)` plus the tabulated correction for their gap.
pub open spec fn spec_log_add(a: int, b: int) -> int {
    if a >= b {
        a + log_add_bonus_spec(a - b)
    } else {
        b + log_add_bonus_spec(b - a)
    }
}

/// The correction never lies outside `[0, LOG_ADD_BONUS_MAX]`.
pub proof fn lemma_log_add_bonus_range(d: int)
    requires
        d >= 0,
    ensures
        0 <= log_add_bonus_spec(d) <= LOG_ADD_BONUS_MAX,
{
}

/// Combining scores is symmetric in its two arguments.
pub proof fn lemma_log_add_comm(a: int, b: int)
    ensures
        spec_log_add(a, b) == spec_log_add(b, a),
{
}

/// The combined score is at least the larger input (adding probability
/// mass never lowers a score) and at most `ln 2` above it, so combining
/// equal scores cannot blow up.
pub proof fn lemma_log_add_bounds(a: int, b: int)
    ensures
        spec_log_add(a, b) >= a,
        spec_log_add(a, b) >= b,
        spec_log_add(a, b) <= (if a >= b { a } else { b }) + LOG_ADD_BONUS_MAX,
{
    if a >= b {
        lemma_log_add_bonus_range(a - b);
    } else {
        lemma_log_add_bonus_range(b - a);
    }
}

fn log_add_bonus(d: i64) -> (r: i64)
    requires
        d >= 0,
    ensures
        r == log_add_bonus_spec(d as int),
{
    if d < 250 {
        693
    } else if d < 500 {
        576
    } else if d < 750 {
        474
    } else if d < 1000 {
        387
    } else if d < 1250 {
        313
    } else if d < 1500 {
        252
    } else if d < 1750 {
        201
    } else if d < 2000 {
        160
    } else if d < 2250 {
        127
    } else if d < 2500 {
        100
    } else if d < 2750 {
        79
    } else if d < 3000 {
        62
    } else if d < 3500 {
        49
    } else if d < 4000 {
        30
    } else if d < 4500 {
        18
    } else if d < 5000 {
        11
    } else if d < 6000 {
        7
    } else if d < 7000 {
        2
    } else if d < 8000 {
        1
    } else {
        0
    }
}

/// Log-sum-exp of two fixed-point log-domain scores.
pub fn log_add(a: i64, b: i64) -> (r: i64)
    requires
        -SCORE_LIMIT <= a <= SCORE_LIMIT,
        -SCORE_LIMIT <= b <= SCORE_LIMIT,
    ensures
        r == spec_log_add(a as int, b as int),
{
    if a >= b {
        a + log_add_bonus(a - b)
    } else {
        b + log_add_bonus(b - a)
    }
}

} // verus!
