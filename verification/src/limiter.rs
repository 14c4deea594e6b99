//! Stateless hard-limiter mode.
//!
//! The alternate, memoryless behavior: each channel is clamped on its own
//! the moment its magnitude exceeds a fixed threshold, folding the excess
//! by half. Unlike the compressor it has no envelope, reacts instantly,
//! and — because the channels are treated independently — can shift the
//! stereo image when only one channel exceeds the threshold.

use vstd::prelude::*;
use crate::dynamics::{mag, AMP_LIMIT};

verus! {

/// A clamped nonnegative magnitude: unchanged up to the threshold, the
/// excess above it folded by half.
pub open spec fn limit_mag(m: int, t: int) -> int {
    if m > t {
        t + (m - t) / 2
    } else {
        m
    }
}

/// A hard-limited sample: the magnitude is clamped and the sign kept, so
/// positive and negative excursions fold symmetrically.
pub open spec fn limit_spec(x: int, t: int) -> int {
    if x >= 0 {
        limit_mag(x, t)
    } else {
        -limit_mag(-x, t)
    }
}

/// Clamps one sample against the threshold, independently of any other
/// sample or channel and with no state: an in-range sample comes back
/// unchanged, a positive excursion is folded by half above the threshold,
/// and a negative one mirrors it exactly.
pub fn limit_sample(x: i64, threshold: u64) -> (r: i64)
    requires
        mag(x as int) <= AMP_LIMIT,
        1 <= threshold <= AMP_LIMIT,
    ensures
        r as int == limit_spec(x as int, threshold as int),
        mag(x as int) <= threshold as int ==> r == x,
        (x as int) > threshold as int ==> r as int == threshold as int + (x as int
            - threshold as int) / 2,
        (x as int) < -(threshold as int) ==> r as int == -(threshold as int + (-(x as int)
            - threshold as int) / 2),
        mag(r as int) <= mag(x as int),
{
    let m: u64 = if x >= 0 {
        x as u64
    } else {
        (-x) as u64
    };
    let clamped: u64 = if m > threshold {
        threshold + (m - threshold) / 2
    } else {
        m
    };
    if x >= 0 {
        clamped as i64
    } else {
        -(clamped as i64)
    }
}

/// Clamping a sample already in range returns it unchanged: the limiter is
/// the identity on `|x| <= threshold`, so re-clamping such a sample is a
/// no-op.
pub proof fn lemma_limit_identity_in_range(x: int, t: int)
    requires
        1 <= t,
        mag(x) <= t,
    ensures
        limit_spec(x, t) == x,
        limit_spec(limit_spec(x, t), t) == limit_spec(x, t),
{
}

/// The limiter folds positive and negative excursions symmetrically:
/// negating the input negates the output.
pub proof fn lemma_limit_symmetric(x: int, t: int)
    requires
        1 <= t,
    ensures
        limit_spec(-x, t) == -limit_spec(x, t),
{
}

} // verus!
