//! Keyframe-driven animation core: interpolation strategies, track
//! evaluation, a concurrent playback registry, and a per-tick scheduler.
//!
//! Times and animated values are fixed-point integers: an `i64` counting
//! 1/1_000_000ths of a unit (see [`interp::FIXED_ONE`]). Callers that work
//! in floating-point seconds convert at the boundary.

pub mod interp;
pub mod registry;
pub mod schedule;
pub mod track;

use vstd::prelude::*;

verus! {

/// Lifecycle state reported by evaluating one keyframe track at a time.
#[derive(Clone, Copy, Debug, PartialEq, Eq, Structural)]
pub enum TrackState {
    /// The track may still change its target on later ticks.
    Playing,
    /// The track has reached (or passed) its last keyframe, or has none.
    Finished,
}

/// `a + b` held to the i64 range: time arithmetic saturates instead of
/// wrapping or trapping.
pub open spec fn sat_add_spec(a: int, b: int) -> int {
    if a + b > i64::MAX as int {
        i64::MAX as int
    } else if a + b < i64::MIN as int {
        i64::MIN as int
    } else {
        a + b
    }
}

/// Saturating addition of fixed-point times.
pub fn sat_add(a: i64, b: i64) -> (r: i64)
    ensures
        r as int == sat_add_spec(a as int, b as int),
{
    if b >= 0 {
        if a > i64::MAX - b {
            i64::MAX
        } else {
            a + b
        }
    } else {
        if a < i64::MIN - b {
            i64::MIN
        } else {
            a + b
        }
    }
}

} // verus!
