//! Keyframe tracks and their evaluation.
//!
//! A track is an ordered sequence of (time, value) samples bound to one
//! target field of an entity. Evaluating a track at a time binary-searches
//! the sequence and blends the two surrounding samples with the track's
//! interpolation strategy.

use crate::interp::{lerp_fixed, lerp_int};
use crate::TrackState;
use vstd::prelude::*;

verus! {

/// One (time, value) sample of a track, in fixed-point units.
#[derive(Clone, Copy, Debug, PartialEq, Eq, Structural)]
pub struct Keyframe {
    pub time: i64,
    pub value: i64,
}

/// A valid track stores its keyframes in strictly increasing time order;
/// evaluation's binary search depends on this and does not detect or
/// repair a violation, so construction rejects it (see `Animation::new`).
pub open spec fn strictly_increasing(kfs: Seq<Keyframe>) -> bool {
    forall|i: int, j: int| 0 <= i < j < kfs.len() ==> kfs[i].time < kfs[j].time
}

/// Which interpolation strategy a track applies between two keyframes.
#[derive(Clone, Copy, Debug, PartialEq, Eq, Structural)]
pub enum InterpKind {
    /// Linear blend of the two surrounding samples.
    Linear,
    /// Hold the earlier sample unchanged (discrete fields).
    Step,
}

/// The number of keyframes whose time is at or before `time`; evaluation
/// blends between the keyframes at `upper_bound - 1` and `upper_bound`.
pub open spec fn upper_bound(kfs: Seq<Keyframe>, time: int) -> int
    decreases kfs.len(),
{
    if kfs.len() == 0 {
        0
    } else if kfs.last().time <= time {
        kfs.len() as int
    } else {
        upper_bound(kfs.drop_last(), time)
    }
}

/// On a strictly increasing sequence, `upper_bound` splits the keyframes
/// into those at or before `time` and those after it.
pub proof fn lemma_upper_bound_props(kfs: Seq<Keyframe>, time: int)
    requires
        strictly_increasing(kfs),
    ensures
        0 <= upper_bound(kfs, time) <= kfs.len(),
        forall|j: int| 0 <= j < upper_bound(kfs, time) ==> #[trigger] kfs[j].time <= time,
        forall|j: int|
            upper_bound(kfs, time) <= j < kfs.len() ==> #[trigger] kfs[j].time > time,
    decreases kfs.len(),
{
    if kfs.len() > 0 {
        if kfs.last().time <= time {
            assert forall|j: int| 0 <= j < kfs.len() implies #[trigger] kfs[j].time <= time by {
                if j < kfs.len() - 1 {
                    assert(kfs[j].time < kfs[kfs.len() - 1].time);
                }
            }
        } else {
            assert(strictly_increasing(kfs.drop_last()));
            lemma_upper_bound_props(kfs.drop_last(), time);
            assert forall|j: int|
                0 <= j < upper_bound(kfs, time) implies #[trigger] kfs[j].time <= time by {
                assert(kfs.drop_last()[j] == kfs[j]);
            }
            assert forall|j: int|
                upper_bound(kfs, time) <= j < kfs.len() implies #[trigger] kfs[j].time > time by {
                if j < kfs.len() - 1 {
                    assert(kfs.drop_last()[j] == kfs[j]);
                }
            }
        }
    }
}

/// The lifecycle state evaluating a keyframe sequence at `time` reports.
/// It depends only on the keyframe times, never on the interpolation
/// strategy or the sampled values: an empty sequence is already finished,
/// a time at or past the last keyframe is finished, anything earlier is
/// still playing (including the pre-roll before the first keyframe).
pub open spec fn eval_state(kfs: Seq<Keyframe>, time: int) -> TrackState {
    if kfs.len() == 0 {
        TrackState::Finished
    } else if time >= kfs.last().time {
        TrackState::Finished
    } else {
        TrackState::Playing
    }
}

/// The value evaluation writes into the target, if any. `None` leaves the
/// target unmodified: the sequence is empty, or `time` lies before the
/// first keyframe (pre-roll — the track has not started contributing).
/// At or past the last keyframe the last value is written exactly;
/// otherwise the two surrounding keyframes are blended by the strategy.
pub open spec fn eval_write(kind: InterpKind, kfs: Seq<Keyframe>, time: int) -> Option<int> {
    if kfs.len() == 0 {
        None
    } else if time < kfs[0].time {
        None
    } else if time >= kfs.last().time {
        Some(kfs.last().value as int)
    } else {
        let i = upper_bound(kfs, time) - 1;
        match kind {
            InterpKind::Step => Some(kfs[i].value as int),
            InterpKind::Linear => Some(
                lerp_int(
                    kfs[i].value as int,
                    kfs[i + 1].value as int,
                    time - kfs[i].time,
                    kfs[i + 1].time - kfs[i].time,
                ),
            ),
        }
    }
}

/// Pre-roll law: for every strictly increasing keyframe sequence and
/// every time before the first keyframe, evaluation reports Playing and
/// leaves the target unmodified, whatever the strategy.
pub proof fn lemma_preroll(kind: InterpKind, kfs: Seq<Keyframe>, time: int)
    requires
        strictly_increasing(kfs),
        kfs.len() > 0,
        time < kfs[0].time,
    ensures
        eval_state(kfs, time) == TrackState::Playing,
        eval_write(kind, kfs, time) is None,
{
    if kfs.len() > 1 {
        assert(kfs[0].time < kfs[kfs.len() - 1].time);
    }
}

/// Exhaustion law: for every keyframe sequence and every time at or past
/// the last keyframe's time, evaluation reports Finished and sets the
/// target to the last keyframe's value exactly, whatever the strategy.
pub proof fn lemma_finished_past_end(kind: InterpKind, kfs: Seq<Keyframe>, time: int)
    requires
        strictly_increasing(kfs),
        kfs.len() > 0,
        time >= kfs.last().time,
    ensures
        eval_state(kfs, time) == TrackState::Finished,
        eval_write(kind, kfs, time) == Some(kfs.last().value as int),
{
    if kfs.len() > 1 {
        assert(kfs[0].time < kfs[kfs.len() - 1].time);
    }
}

/// Binary search for `upper_bound(kfs@, time)`: the insertion index that
/// splits the keyframes into those at or before `time` and those after.
fn find_upper_bound(kfs: &Vec<Keyframe>, time: i64) -> (idx: usize)
    requires
        strictly_increasing(kfs@),
    ensures
        idx as int == upper_bound(kfs@, time as int),
{
    proof {
        lemma_upper_bound_props(kfs@, time as int);
    }
    let mut lo: usize = 0;
    let mut hi: usize = kfs.len();
    while lo < hi
        invariant
            lo <= hi <= kfs@.len(),
            strictly_increasing(kfs@),
            forall|j: int| 0 <= j < lo ==> #[trigger] kfs@[j].time <= time,
            forall|j: int| hi <= j < kfs@.len() ==> #[trigger] kfs@[j].time > time,
        decreases hi - lo,
    {
        let mid = lo + (hi - lo) / 2;
        if kfs[mid].time <= time {
            lo = mid + 1;
        } else {
            hi = mid;
        }
    }
    proof {
        let ub = upper_bound(kfs@, time as int);
        if lo < ub {
            assert(kfs@[lo as int].time <= time);
            assert(kfs@[lo as int].time > time);
        }
        if ub < lo {
            assert(kfs@[ub].time <= time);
            assert(kfs@[ub].time > time);
        }
    }
    lo
}

/// Where a time falls in a keyframe sequence: the payload-independent
/// half of track evaluation, located from the times alone. Callers with
/// payload types the fixed-point model cannot hold can take the choice
/// and blend their own values.
#[derive(Clone, Copy, Debug, PartialEq, Eq, Structural)]
pub enum SegmentChoice {
    /// The sequence is empty: finished, nothing to write.
    Empty,
    /// Before the first keyframe (pre-roll): playing, nothing to write.
    BeforeFirst,
    /// At or past the last keyframe: finished, its value is written.
    AtOrPastLast,
    /// Strictly inside: blend the keyframes at `lower` and `lower + 1`.
    Between { lower: usize },
}

/// The choice evaluation makes for a sequence at a time.
pub open spec fn segment_choice_spec(kfs: Seq<Keyframe>, time: int) -> SegmentChoice {
    if kfs.len() == 0 {
        SegmentChoice::Empty
    } else if time < kfs[0].time {
        SegmentChoice::BeforeFirst
    } else if time >= kfs.last().time {
        SegmentChoice::AtOrPastLast
    } else {
        SegmentChoice::Between { lower: (upper_bound(kfs, time) - 1) as usize }
    }
}

/// Binary-searches the keyframe times for where `time` falls.
pub fn locate_segment(keyframes: &Vec<Keyframe>, time: i64) -> (c: SegmentChoice)
    requires
        strictly_increasing(keyframes@),
    ensures
        c == segment_choice_spec(keyframes@, time as int),
        c matches SegmentChoice::Between { lower } ==> lower + 1 < keyframes@.len()
            && keyframes@[lower as int].time <= time < keyframes@[lower as int + 1].time,
{
    proof {
        lemma_upper_bound_props(keyframes@, time as int);
    }
    if keyframes.len() == 0 {
        return SegmentChoice::Empty;
    }
    if time >= keyframes[keyframes.len() - 1].time {
        return SegmentChoice::AtOrPastLast;
    }
    let idx = find_upper_bound(keyframes, time);
    if idx == 0 {
        return SegmentChoice::BeforeFirst;
    }
    SegmentChoice::Between { lower: idx - 1 }
}

/// Evaluates one keyframe sequence at `time` with the given strategy,
/// writing the sampled value into `component` (which keeps its current
/// value on an empty sequence or during pre-roll), and reports whether
/// the track is still playing.
pub fn update_component(
    kind: InterpKind,
    keyframes: &Vec<Keyframe>,
    time: i64,
    component: &mut i64,
) -> (state: TrackState)
    requires
        strictly_increasing(keyframes@),
    ensures
        state == eval_state(keyframes@, time as int),
        eval_write(kind, keyframes@, time as int) matches Some(v) ==> *final(component) as int
            == v,
        eval_write(kind, keyframes@, time as int) is None
            ==> *final(component) == *old(component),
{
    proof {
        lemma_upper_bound_props(keyframes@, time as int);
    }
    let n = keyframes.len();
    match locate_segment(keyframes, time) {
        SegmentChoice::Empty => TrackState::Finished,
        SegmentChoice::BeforeFirst => TrackState::Playing,
        SegmentChoice::AtOrPastLast => {
            *component = keyframes[n - 1].value;
            TrackState::Finished
        },
        SegmentChoice::Between { lower } => {
            let k0 = keyframes[lower];
            let k1 = keyframes[lower + 1];
            match kind {
                InterpKind::Step => {
                    *component = k0.value;
                },
                InterpKind::Linear => {
                    proof {
                        crate::interp::lemma_lerp_bounds(
                            k0.value as int,
                            k1.value as int,
                            time - k0.time,
                            k1.time - k0.time,
                        );
                    }
                    *component = lerp_fixed(k0.value, k1.value, time, k0.time, k1.time);
                },
            }
            TrackState::Playing
        },
    }
}

/// A linearly interpolated track: blends the two surrounding keyframe
/// values linearly.
pub struct LerpTrack {
    /// Index of the target field on the entity.
    pub field: usize,
    /// The samples, in strictly increasing time order.
    pub keyframes: Vec<Keyframe>,
}

/// An uninterpolated track: the target holds each keyframe's value until
/// the next keyframe's time is reached, and the last value thereafter.
pub struct StepTrack {
    /// Index of the target field on the entity.
    pub field: usize,
    /// The samples, in strictly increasing time order.
    pub keyframes: Vec<Keyframe>,
}

/// A track bound to one target field, tagged with its interpolation
/// strategy so a scheduler can evaluate it without type erasure.
pub enum Track {
    Lerp(LerpTrack),
    Step(StepTrack),
}

impl Track {
    /// The samples the track evaluates.
    pub open spec fn keyframes_spec(&self) -> Seq<Keyframe> {
        match self {
            Track::Lerp(t) => t.keyframes@,
            Track::Step(t) => t.keyframes@,
        }
    }

    /// The index of the entity field the track writes.
    pub open spec fn field_spec(&self) -> int {
        match self {
            Track::Lerp(t) => t.field as int,
            Track::Step(t) => t.field as int,
        }
    }

    /// The interpolation strategy the track blends with.
    pub open spec fn kind_spec(&self) -> InterpKind {
        match self {
            Track::Lerp(_) => InterpKind::Linear,
            Track::Step(_) => InterpKind::Step,
        }
    }

    /// A track is well formed when its keyframes are in strictly
    /// increasing time order.
    pub open spec fn wf(&self) -> bool {
        strictly_increasing(self.keyframes_spec())
    }

    /// The index of the entity field the track writes.
    pub fn field(&self) -> (f: usize)
        ensures
            f as int == self.field_spec(),
    {
        match self {
            Track::Lerp(t) => t.field,
            Track::Step(t) => t.field,
        }
    }

    /// Evaluates the track at `time` against its target field.
    pub fn update_component(&self, time: i64, component: &mut i64) -> (state: TrackState)
        requires
            self.wf(),
        ensures
            state == eval_state(self.keyframes_spec(), time as int),
            eval_write(self.kind_spec(), self.keyframes_spec(), time as int) matches Some(v)
                ==> *final(component) as int == v,
            eval_write(self.kind_spec(), self.keyframes_spec(), time as int) is None
                ==> *final(component) == *old(component),
    {
        match self {
            Track::Lerp(t) => update_component(InterpKind::Linear, &t.keyframes, time, component),
            Track::Step(t) => update_component(InterpKind::Step, &t.keyframes, time, component),
        }
    }
}

} // verus!
