//! The animation data model and the per-tick frame scheduler.
//!
//! Once per simulation tick the scheduler snapshots the playback
//! registry, orders the entries deterministically by (entity, animation)
//! key, evaluates every entry against its entity's fields, and updates or
//! removes each registry entry from the per-entry outcome. Entries of one
//! entity are processed in order; entries of different entities never
//! touch the same fields, so a host may hand each entity's group to an
//! independent worker.

use crate::registry::{is_snapshot_of, AnimationManager, PlaybackKey};
use crate::track::{eval_state, eval_write, strictly_increasing, Keyframe, Track};
use crate::{sat_add, sat_add_spec, TrackState};
use vstd::prelude::*;

verus! {

/// An immutable bundle: a fixed duration and the tracks evaluated against
/// one entity, each bound to its own target field. Owned by the asset
/// store and referenced by identifier; the scheduler never copies it.
pub struct Animation {
    /// The tracks, evaluated in order against the same time and entity.
    pub tracks: Vec<Track>,
    /// Fixed-point duration; playback past it removes the entry.
    pub duration: i64,
}

/// Every track's keyframes are in strictly increasing time order.
pub open spec fn tracks_wf(tracks: Seq<Track>) -> bool {
    forall|i: int| 0 <= i < tracks.len() ==> (#[trigger] tracks[i]).wf()
}

/// Why animation data is rejected at construction time.
#[derive(Clone, Copy, Debug, PartialEq, Eq, Structural)]
pub enum AnimationError {
    /// A track's keyframes are not in strictly increasing time order;
    /// carries the index of the first offending track.
    KeyframesNotStrictlyIncreasing { track: usize },
}

/// True exactly when the keyframe times are strictly increasing.
pub fn check_strictly_increasing(kfs: &Vec<Keyframe>) -> (ok: bool)
    ensures
        ok == strictly_increasing(kfs@),
{
    if kfs.len() <= 1 {
        return true;
    }
    let mut i: usize = 1;
    while i < kfs.len()
        invariant
            1 <= i <= kfs@.len(),
            forall|p: int, q: int| 0 <= p < q < i ==> kfs@[p].time < kfs@[q].time,
        decreases kfs@.len() - i,
    {
        if kfs[i - 1].time >= kfs[i].time {
            assert(!strictly_increasing(kfs@)) by {
                assert(!(kfs@[i - 1].time < kfs@[i as int].time));
            }
            return false;
        }
        i += 1;
    }
    true
}

impl Animation {
    /// Every track of the animation is well formed.
    pub open spec fn wf(&self) -> bool {
        tracks_wf(self.tracks@)
    }

    /// Builds an animation after validating every track: keyframes that
    /// are not in strictly increasing time order are a data error and are
    /// rejected here, never tolerated during evaluation (binary search
    /// depends on the ordering).
    pub fn new(tracks: Vec<Track>, duration: i64) -> (r: Result<Animation, AnimationError>)
        ensures
            r is Ok <==> tracks_wf(tracks@),
            r matches Ok(a) ==> a.tracks@ == tracks@ && a.duration == duration,
            r matches Err(AnimationError::KeyframesNotStrictlyIncreasing { track }) ==> 0 <= (
            track as int) < tracks@.len() && !tracks@[track as int].wf(),
    {
        let mut t: usize = 0;
        while t < tracks.len()
            invariant
                t <= tracks@.len(),
                forall|k: int| 0 <= k < t ==> (#[trigger] tracks@[k]).wf(),
            decreases tracks@.len() - t,
        {
            let ok = match &tracks[t] {
                Track::Lerp(tr) => check_strictly_increasing(&tr.keyframes),
                Track::Step(tr) => check_strictly_increasing(&tr.keyframes),
            };
            if !ok {
                return Err(AnimationError::KeyframesNotStrictlyIncreasing { track: t });
            }
            t += 1;
        }
        Ok(Animation { tracks, duration })
    }
}

/// The asset collaborator, modeled as a store of animations by
/// identifier: `resolve` either finds the animation or reports that it
/// is not (or no longer) loaded.
pub struct AssetStore {
    /// (identifier, animation) pairs; identifiers are unique.
    pub items: Vec<(u64, Animation)>,
}

/// The index of the first pair with the identifier, or -1 if none.
pub open spec fn asset_index(items: Seq<(u64, Animation)>, id: u64) -> int
    decreases items.len(),
{
    if items.len() == 0 {
        -1
    } else if items[0].0 == id {
        0
    } else {
        let r = asset_index(items.drop_first(), id);
        if r < 0 {
            -1
        } else {
            r + 1
        }
    }
}

/// `asset_index` finds the first occurrence of the identifier, or
/// reports that there is none.
pub proof fn lemma_asset_index(items: Seq<(u64, Animation)>, id: u64)
    ensures
        asset_index(items, id) == -1 ==> forall|i: int|
            0 <= i < items.len() ==> (#[trigger] items[i]).0 != id,
        asset_index(items, id) != -1 ==> {
            let x = asset_index(items, id);
            &&& 0 <= x < items.len()
            &&& items[x].0 == id
            &&& forall|i: int| 0 <= i < x ==> (#[trigger] items[i]).0 != id
        },
    decreases items.len(),
{
    if items.len() > 0 && items[0].0 != id {
        lemma_asset_index(items.drop_first(), id);
        assert forall|i: int| 1 <= i < items.len() implies items.drop_first()[i - 1] == items[i]
            by {}
    }
}

impl AssetStore {
    /// Every stored animation is well formed.
    pub open spec fn wf(&self) -> bool {
        forall|i: int| 0 <= i < self.items@.len() ==> (#[trigger] self.items@[i]).1.wf()
    }

    /// The animation the identifier resolves to, if it is loaded.
    pub open spec fn resolve_spec(&self, id: u64) -> Option<Animation> {
        if asset_index(self.items@, id) >= 0 {
            Some(self.items@[asset_index(self.items@, id)].1)
        } else {
            None
        }
    }

    /// An empty store: nothing resolves.
    pub fn new() -> (s: AssetStore)
        ensures
            s.wf(),
            s.items@.len() == 0,
    {
        AssetStore { items: Vec::new() }
    }

    /// Loads an animation under an identifier. Under a repeated
    /// identifier the earliest load keeps winning resolution.
    pub fn insert(&mut self, id: u64, animation: Animation)
        requires
            old(self).wf(),
            animation.wf(),
        ensures
            final(self).wf(),
            final(self).items@ == old(self).items@.push((id, animation)),
    {
        self.items.push((id, animation));
        proof {
            assert forall|i: int|
                0 <= i < self.items@.len() implies (#[trigger] self.items@[i]).1.wf() by {
                if i < self.items@.len() - 1 {
                    assert(self.items@[i] == old(self).items@[i]);
                }
            }
        }
    }

    /// The index of the identifier's pair, if it is loaded.
    fn resolve_index(&self, id: u64) -> (r: Option<usize>)
        ensures
            r matches Some(i) ==> i as int == asset_index(self.items@, id),
            r is None ==> asset_index(self.items@, id) == -1,
    {
        proof {
            lemma_asset_index(self.items@, id);
        }
        let mut i: usize = 0;
        while i < self.items.len()
            invariant
                i <= self.items@.len(),
                forall|k: int| 0 <= k < i ==> (#[trigger] self.items@[k]).0 != id,
            decreases self.items@.len() - i,
        {
            if self.items[i].0 == id {
                proof {
                    lemma_asset_index(self.items@, id);
                    let x = asset_index(self.items@, id);
                    if x == -1 || x > i as int {
                        assert(self.items@[i as int].0 != id);
                    } else if x < i as int {
                        assert(self.items@[x].0 != id);
                    }
                }
                return Some(i);
            }
            i += 1;
        }
        None
    }

    /// Resolves an identifier to its animation: `None` reports that the
    /// asset is not (or no longer) loaded.
    pub fn resolve(&self, id: u64) -> (r: Option<&Animation>)
        ensures
            r matches Some(a) ==> self.resolve_spec(id) == Some(*a),
            r is None ==> self.resolve_spec(id) is None,
    {
        proof {
            lemma_asset_index(self.items@, id);
        }
        match self.resolve_index(id) {
            Some(i) => Some(&self.items[i].1),
            None => None,
        }
    }
}

/// The entity/component collaborator, modeled as per-entity field rows:
/// each entity is an identifier plus the fixed-point fields that tracks
/// write into, addressed by field index. A track whose field index is
/// out of range for its entity is skipped: the entity does not have that
/// field.
pub struct EntityStore {
    /// (entity identifier, fields) rows.
    pub entities: Vec<(u64, Vec<i64>)>,
}

impl View for EntityStore {
    type V = Seq<(u64, Seq<i64>)>;

    open spec fn view(&self) -> Seq<(u64, Seq<i64>)> {
        self.entities@.map_values(|row: (u64, Vec<i64>)| (row.0, row.1@))
    }
}

/// The index of the first row with the entity identifier, or -1 if the
/// entity does not exist.
pub open spec fn entity_index(rows: Seq<(u64, Seq<i64>)>, id: u64) -> int
    decreases rows.len(),
{
    if rows.len() == 0 {
        -1
    } else if rows[0].0 == id {
        0
    } else {
        let r = entity_index(rows.drop_first(), id);
        if r < 0 {
            -1
        } else {
            r + 1
        }
    }
}

/// `entity_index` finds the first row with the identifier, or reports
/// that there is none.
pub proof fn lemma_entity_index(rows: Seq<(u64, Seq<i64>)>, id: u64)
    ensures
        entity_index(rows, id) == -1 ==> forall|i: int|
            0 <= i < rows.len() ==> (#[trigger] rows[i]).0 != id,
        entity_index(rows, id) != -1 ==> {
            let x = entity_index(rows, id);
            &&& 0 <= x < rows.len()
            &&& rows[x].0 == id
            &&& forall|i: int| 0 <= i < x ==> (#[trigger] rows[i]).0 != id
        },
    decreases rows.len(),
{
    if rows.len() > 0 && rows[0].0 != id {
        lemma_entity_index(rows.drop_first(), id);
        assert forall|i: int| 1 <= i < rows.len() implies rows.drop_first()[i - 1] == rows[i]
            by {}
    }
}

impl EntityStore {
    /// A store with no entities.
    pub fn new() -> (s: EntityStore)
        ensures
            s@.len() == 0,
    {
        EntityStore { entities: Vec::new() }
    }

    /// Adds an entity row.
    pub fn insert(&mut self, id: u64, fields: Vec<i64>)
        ensures
            final(self)@ == old(self)@.push((id, fields@)),
    {
        self.entities.push((id, fields));
        proof {
            assert(self@ =~= old(self)@.push((id, fields@)));
        }
    }

    /// Reads an entity's fields, if the entity exists.
    pub fn fields_of(&self, id: u64) -> (r: Option<&Vec<i64>>)
        ensures
            entity_index(self@, id) >= 0 ==> (r matches Some(f) && f@ == self@[entity_index(
                self@,
                id,
            )].1),
            entity_index(self@, id) == -1 ==> r is None,
    {
        match self.find_index(id) {
            Some(i) => {
                proof {
                    lemma_entity_index(self@, id);
                }
                Some(&self.entities[i].1)
            },
            None => None,
        }
    }

    /// The index of the entity's row, if the entity exists.
    fn find_index(&self, id: u64) -> (r: Option<usize>)
        ensures
            r matches Some(i) ==> i as int == entity_index(self@, id) && i < self.entities@.len(),
            r is None ==> entity_index(self@, id) == -1,
    {
        let mut i: usize = 0;
        while i < self.entities.len()
            invariant
                i <= self.entities@.len(),
                forall|k: int| 0 <= k < i ==> (#[trigger] self@[k]).0 != id,
                self@.len() == self.entities@.len(),
            decreases self.entities@.len() - i,
        {
            if self.entities[i].0 == id {
                proof {
                    lemma_entity_index(self@, id);
                    let x = entity_index(self@, id);
                    assert(self@[i as int].0 == id);
                    if x == -1 || x > i as int {
                        assert(self@[i as int].0 != id);
                    } else if x < i as int {
                        assert(self@[x].0 != id);
                    }
                }
                return Some(i);
            }
            i += 1;
        }
        proof {
            lemma_entity_index(self@, id);
            if entity_index(self@, id) >= 0 {
                assert(self@[entity_index(self@, id)].0 == id);
            }
        }
        None
    }
}

/// One track's effect at `time` on an entity's fields: the sampled value
/// written at the track's field index; a track is skipped when it writes
/// nothing (pre-roll, empty track) or the entity lacks the field.
pub open spec fn apply_one_track(track: Track, time: int, fields: Seq<i64>) -> Seq<i64> {
    if 0 <= track.field_spec() < fields.len() {
        match eval_write(track.kind_spec(), track.keyframes_spec(), time) {
            Some(v) => fields.update(track.field_spec(), v as i64),
            None => fields,
        }
    } else {
        fields
    }
}

/// The combined effect of an animation's tracks at `time`: applied in
/// order, first to last, so a later track targeting the same field
/// overwrites an earlier one.
pub open spec fn apply_tracks(tracks: Seq<Track>, time: int, fields: Seq<i64>) -> Seq<i64>
    decreases tracks.len(),
{
    if tracks.len() == 0 {
        fields
    } else {
        apply_one_track(tracks.last(), time, apply_tracks(tracks.drop_last(), time, fields))
    }
}

/// Every track whose field the entity has reports Finished at `time`;
/// tracks whose field is absent do not hold playback open.
pub open spec fn all_tracks_finished(tracks: Seq<Track>, time: int, nfields: int) -> bool {
    forall|i: int|
        0 <= i < tracks.len() && 0 <= (#[trigger] tracks[i]).field_spec() < nfields ==> eval_state(
            tracks[i].keyframes_spec(),
            time,
        ) == TrackState::Finished
}

/// Evaluates every track of the animation, in order, against one
/// entity's fields at `time`, and reports whether every applicable track
/// is finished — the animation as a whole is finished only if they all
/// are.
pub fn evaluate_animation(anim: &Animation, time: i64, fields: &mut Vec<i64>) -> (finished: bool)
    requires
        anim.wf(),
    ensures
        final(fields)@ == apply_tracks(anim.tracks@, time as int, old(fields)@),
        finished == all_tracks_finished(anim.tracks@, time as int, old(fields)@.len() as int),
        final(fields)@.len() == old(fields)@.len(),
{
    let ghost orig = fields@;
    let mut all_finished = true;
    let mut t: usize = 0;
    proof {
        assert(anim.tracks@.take(0) =~= Seq::<Track>::empty());
    }
    while t < anim.tracks.len()
        invariant
            anim.wf(),
            t <= anim.tracks@.len(),
            fields@.len() == orig.len(),
            fields@ == apply_tracks(anim.tracks@.take(t as int), time as int, orig),
            all_finished == all_tracks_finished(
                anim.tracks@.take(t as int),
                time as int,
                orig.len() as int,
            ),
        decreases anim.tracks@.len() - t,
    {
        let ghost pre = fields@;
        let track = &anim.tracks[t];
        let fidx = track.field();
        let mut present = false;
        if fidx < fields.len() {
            present = true;
            let mut value = fields[fidx];
            let state = track.update_component(time, &mut value);
            fields.set(fidx, value);
            match state {
                TrackState::Playing => {
                    all_finished = false;
                },
                TrackState::Finished => {},
            }
        }
        proof {
            let tracks = anim.tracks@;
            let ti = t as int;
            assert(tracks.take(ti + 1).drop_last() =~= tracks.take(ti));
            assert(tracks.take(ti + 1).last() == tracks[ti]);
            if present {
                match eval_write(tracks[ti].kind_spec(), tracks[ti].keyframes_spec(), time as int) {
                    Some(v) => {
                        assert(fields@ =~= apply_one_track(tracks[ti], time as int, pre));
                    },
                    None => {
                        assert(fields@ =~= pre.update(fidx as int, pre[fidx as int]));
                        assert(fields@ =~= apply_one_track(tracks[ti], time as int, pre));
                    },
                }
            } else {
                assert(fields@ =~= apply_one_track(tracks[ti], time as int, pre));
            }
            assert(fields@ == apply_tracks(tracks.take(ti + 1), time as int, orig));
            assert forall|i: int|
                0 <= i < ti + 1 && 0 <= (#[trigger] tracks.take(ti + 1)[i]).field_spec()
                    < orig.len() && all_finished implies eval_state(
                tracks.take(ti + 1)[i].keyframes_spec(),
                time as int,
            ) == TrackState::Finished by {
                if i < ti {
                    assert(tracks.take(ti)[i] == tracks.take(ti + 1)[i]);
                }
            }
            if !all_finished {
                if !all_tracks_finished(tracks.take(ti), time as int, orig.len() as int) {
                    let w = choose|i: int|
                        0 <= i < ti && 0 <= (#[trigger] tracks.take(ti)[i]).field_spec()
                            < orig.len() && eval_state(
                            tracks.take(ti)[i].keyframes_spec(),
                            time as int,
                        ) != TrackState::Finished;
                    assert(tracks.take(ti + 1)[w] == tracks.take(ti)[w]);
                    assert(!all_tracks_finished(tracks.take(ti + 1), time as int, orig.len() as int));
                } else {
                    assert(tracks.take(ti + 1)[ti] == tracks[ti]);
                    assert(!all_tracks_finished(tracks.take(ti + 1), time as int, orig.len() as int));
                }
            }
        }
        t += 1;
    }
    proof {
        assert(anim.tracks@.take(anim.tracks@.len() as int) =~= anim.tracks@);
    }
    all_finished
}

/// Decides and performs one playback entry's step, `last_time` elapsed
/// so far and `delta` passing this tick. The animation is resolved
/// first: an unresolved asset with elapsed time still 0 is not yet
/// loaded and waits, whatever the entity's state; unresolved with a
/// nonzero elapsed time means the asset was unloaded after playback
/// began, a natural completion. Only a resolved animation looks at the
/// entity: a vanished entity completes the entry without evaluating;
/// otherwise the entity's fields are evaluated in place. Returns true
/// when the entry should stay, false when it is done and its entry
/// should be removed.
pub fn step_animation(
    anim: Option<&Animation>,
    entity_exists: bool,
    fields: &mut Vec<i64>,
    last_time: i64,
    delta: i64,
) -> (continue_playing: bool)
    requires
        anim matches Some(a) ==> a.wf(),
    ensures
        anim is None ==> continue_playing == (last_time == 0) && final(fields)@ == old(fields)@,
        anim matches Some(a) ==> (!entity_exists ==> continue_playing == false && final(fields)@
            == old(fields)@),
        anim matches Some(a) ==> (entity_exists ==> final(fields)@ == apply_tracks(
            a.tracks@,
            sat_add_spec(last_time as int, delta as int),
            old(fields)@,
        ) && continue_playing == (sat_add_spec(last_time as int, delta as int) < a.duration
            && !all_tracks_finished(
            a.tracks@,
            sat_add_spec(last_time as int, delta as int),
            old(fields)@.len() as int,
        ))),
{
    match anim {
        None => last_time == 0,
        Some(a) => {
            if !entity_exists {
                return false;
            }
            let time = sat_add(last_time, delta);
            let finished = evaluate_animation(a, time, fields);
            time < a.duration && !finished
        },
    }
}

/// The deterministic per-tick processing order: by entity identifier,
/// then animation identifier, then elapsed time (for totality; keys are
/// unique in a snapshot, so the time never decides). Ordering by entity
/// first keeps each entity's entries contiguous, and fixes the otherwise
/// unspecified iteration order of the underlying concurrent map.
pub open spec fn entry_le(a: (PlaybackKey, i64), b: (PlaybackKey, i64)) -> bool {
    ||| a.0.1 < b.0.1
    ||| (a.0.1 == b.0.1 && a.0.0 < b.0.0)
    ||| (a.0.1 == b.0.1 && a.0.0 == b.0.0 && a.1 <= b.1)
}

/// The entries stand in the deterministic processing order.
pub open spec fn sorted_entries(s: Seq<(PlaybackKey, i64)>) -> bool {
    forall|i: int, j: int| 0 <= i < j < s.len() ==> entry_le(#[trigger] s[i], #[trigger] s[j])
}

/// The processing order, as an executable comparison.
fn entry_le_exec(a: (PlaybackKey, i64), b: (PlaybackKey, i64)) -> (r: bool)
    ensures
        r == entry_le(a, b),
{
    a.0.1 < b.0.1 || (a.0.1 == b.0.1 && (a.0.0 < b.0.0 || (a.0.0 == b.0.0 && a.1 <= b.1)))
}

/// Insertion sort of a snapshot into the processing order; the result
/// holds exactly the input's pairs.
fn sort_snapshot(snap: &Vec<(PlaybackKey, i64)>) -> (r: Vec<(PlaybackKey, i64)>)
    ensures
        r@.to_multiset() == snap@.to_multiset(),
        sorted_entries(r@),
{
    broadcast use vstd::seq_lib::to_multiset_insert;

    let mut r: Vec<(PlaybackKey, i64)> = Vec::new();
    let mut i: usize = 0;
    proof {
        assert(snap@.take(0) =~= Seq::<(PlaybackKey, i64)>::empty());
        assert(r@.to_multiset() =~= snap@.take(0).to_multiset());
    }
    while i < snap.len()
        invariant
            i <= snap@.len(),
            r@.len() == i,
            r@.to_multiset() == snap@.take(i as int).to_multiset(),
            sorted_entries(r@),
        decreases snap@.len() - i,
    {
        broadcast use vstd::seq_lib::to_multiset_insert;

        let x = snap[i];
        let ghost oldr = r@;
        let mut j: usize = 0;
        while j < r.len() && entry_le_exec(r[j], x)
            invariant
                j <= r@.len(),
                r@ == oldr,
                forall|k: int| 0 <= k < j ==> entry_le(#[trigger] r@[k], x),
            decreases r@.len() - j,
        {
            j += 1;
        }
        r.insert(j, x);
        proof {
            vstd::seq_lib::to_multiset_build(snap@.take(i as int), x);
            assert(snap@.take(i as int + 1) =~= snap@.take(i as int).push(x));
            assert(r@.to_multiset() == snap@.take(i as int + 1).to_multiset());
            assert forall|p: int, q: int|
                0 <= p < q < r@.len() implies entry_le(#[trigger] r@[p], #[trigger] r@[q]) by {
                let ji = j as int;
                if q < ji {
                    assert(r@[p] == oldr[p] && r@[q] == oldr[q]);
                } else if p < ji && q == ji {
                    assert(r@[p] == oldr[p]);
                } else if p < ji && q > ji {
                    assert(r@[p] == oldr[p] && r@[q] == oldr[q - 1]);
                } else if p == ji {
                    assert(r@[q] == oldr[q - 1]);
                    assert(!entry_le(oldr[ji], x));
                    assert(entry_le(x, oldr[ji]));
                    assert(ji < q - 1 ==> entry_le(oldr[ji], oldr[q - 1]));
                } else {
                    assert(r@[p] == oldr[p - 1] && r@[q] == oldr[q - 1]);
                }
            }
        }
        i += 1;
    }
    proof {
        assert(snap@.take(snap@.len() as int) =~= snap@);
    }
    r
}

/// A permutation of a snapshot of `m` is itself a snapshot of `m`.
pub proof fn lemma_snapshot_permutation(
    a: Seq<(PlaybackKey, i64)>,
    b: Seq<(PlaybackKey, i64)>,
    m: Map<PlaybackKey, i64>,
)
    requires
        a.to_multiset() == b.to_multiset(),
        is_snapshot_of(a, m),
    ensures
        is_snapshot_of(b, m),
{
    broadcast use vstd::seq_lib::group_to_multiset_ensures;

    assert forall|i: int| 0 <= i < b.len() implies m.contains_pair((#[trigger] b[i]).0, b[i].1) by {
        assert(b.contains(b[i]));
        assert(b.to_multiset().count(b[i]) > 0);
        assert(a.to_multiset().count(b[i]) > 0);
        assert(a.contains(b[i]));
        let j = choose|j: int| 0 <= j < a.len() && a[j] == b[i];
        assert(m.contains_pair(a[j].0, a[j].1));
    }
    assert forall|k: PlaybackKey| #[trigger] m.dom().contains(k) implies exists|i: int|
        0 <= i < b.len() && (#[trigger] b[i]).0 == k by {
        let i = choose|i: int| 0 <= i < a.len() && (#[trigger] a[i]).0 == k;
        assert(a.contains(a[i]));
        assert(a.to_multiset().count(a[i]) > 0);
        assert(b.to_multiset().count(a[i]) > 0);
        assert(b.contains(a[i]));
        let j = choose|j: int| 0 <= j < b.len() && b[j] == a[i];
        assert((b[j]).0 == k);
    }
    assert(a.no_duplicates()) by {
        assert forall|i: int, j: int|
            0 <= i < a.len() && 0 <= j < a.len() && i != j implies a[i] != a[j] by {
            assert((a[i]).0 != (a[j]).0);
        }
    }
    a.lemma_multiset_has_no_duplicates();
    b.lemma_multiset_has_no_duplicates_conv();
    assert forall|i: int, j: int|
        0 <= i < b.len() && 0 <= j < b.len() && i != j implies (#[trigger] b[i]).0 != (
    #[trigger] b[j]).0 by {
        if (b[i]).0 == (b[j]).0 {
            assert(b[i] != b[j]);
            assert(b.contains(b[i]) && b.contains(b[j]));
            assert(b.to_multiset().count(b[i]) > 0 && b.to_multiset().count(b[j]) > 0);
            assert(a.to_multiset().count(b[i]) > 0 && a.to_multiset().count(b[j]) > 0);
            assert(a.contains(b[i]) && a.contains(b[j]));
            let p = choose|p: int| 0 <= p < a.len() && a[p] == b[i];
            let q = choose|q: int| 0 <= q < a.len() && a[q] == b[j];
            assert(p != q);
            assert((a[p]).0 != (a[q]).0);
        }
    }
}

/// One snapshot entry's outcome: how the tick transforms the entity
/// rows and the live registry for the entry `(key, last_time)`. The
/// animation is resolved first: an asset not yet loaded (elapsed time
/// still 0) leaves the entry waiting, whatever the entity's state, and
/// one unloaded after playback began removes it. Only a resolved
/// animation looks at the entity: a vanished entity removes the entry
/// without evaluating; otherwise the animation is evaluated at
/// `last_time + delta` against the entity's fields, and the entry is
/// advanced to that time, or removed once it passes the duration or
/// every applicable track is finished.
pub open spec fn tick_entry(
    assets: AssetStore,
    rows: Seq<(u64, Seq<i64>)>,
    reg: Map<PlaybackKey, i64>,
    key: PlaybackKey,
    last_time: int,
    delta: int,
) -> (Seq<(u64, Seq<i64>)>, Map<PlaybackKey, i64>) {
    match assets.resolve_spec(key.0) {
        None => if last_time == 0 {
            (rows, reg)
        } else {
            (rows, reg.remove(key))
        },
        Some(a) => {
            let eidx = entity_index(rows, key.1);
            if eidx < 0 {
                (rows, reg.remove(key))
            } else {
                let time = sat_add_spec(last_time, delta);
                let fields = rows[eidx].1;
                let rows2 = rows.update(eidx, (key.1, apply_tracks(a.tracks@, time, fields)));
                if time < a.duration && !all_tracks_finished(a.tracks@, time, fields.len() as int) {
                    (rows2, reg.insert(key, time as i64))
                } else {
                    (rows2, reg.remove(key))
                }
            }
        },
    }
}

/// The whole tick's outcome: the snapshot entries' outcomes applied in
/// order, first to last.
pub open spec fn tick_fold(
    assets: AssetStore,
    rows: Seq<(u64, Seq<i64>)>,
    reg: Map<PlaybackKey, i64>,
    snap: Seq<(PlaybackKey, i64)>,
    delta: int,
) -> (Seq<(u64, Seq<i64>)>, Map<PlaybackKey, i64>)
    decreases snap.len(),
{
    if snap.len() == 0 {
        (rows, reg)
    } else {
        let prev = tick_fold(assets, rows, reg, snap.drop_last(), delta);
        tick_entry(assets, prev.0, prev.1, snap.last().0, snap.last().1 as int, delta)
    }
}

/// Advances every playing animation by `delta`, once per simulation
/// tick: snapshots the registry, orders the entries by (entity,
/// animation) key, evaluates each entry against its entity's fields, and
/// advances or removes each registry entry from its outcome. The tick
/// does not return until every entry is processed. Entries of one entity
/// are evaluated in order; no two entries of different entities touch
/// the same fields (see `lemma_tick_entity_isolation`).
pub fn tick(mgr: &mut AnimationManager, assets: &AssetStore, world: &mut EntityStore, delta: i64)
    requires
        assets.wf(),
    ensures
        exists|snap: Seq<(PlaybackKey, i64)>|
            {
                &&& #[trigger] is_snapshot_of(snap, old(mgr)@)
                &&& sorted_entries(snap)
                &&& (final(world)@, final(mgr)@) == tick_fold(
                    *assets,
                    old(world)@,
                    old(mgr)@,
                    snap,
                    delta as int,
                )
            },
        forall|k: PlaybackKey|
            !old(mgr)@.dom().contains(k) ==> !final(mgr)@.dom().contains(k),
        final(world)@.len() == old(world)@.len(),
        forall|i: int|
            0 <= i < old(world)@.len() ==> (#[trigger] final(world)@[i]).0 == old(world)@[i].0,
{
    let snap_raw = mgr.snapshot();
    let snap = sort_snapshot(&snap_raw);
    proof {
        lemma_snapshot_permutation(snap_raw@, snap@, mgr@);
    }
    let ghost snapg = snap@;
    let ghost rows0 = world@;
    let ghost reg0 = mgr@;
    let mut i: usize = 0;
    proof {
        assert(snapg.take(0) =~= Seq::<(PlaybackKey, i64)>::empty());
    }
    while i < snap.len()
        invariant
            i <= snapg.len(),
            snap@ == snapg,
            snapg.len() == snap@.len(),
            assets.wf(),
            is_snapshot_of(snapg, reg0),
            (world@, mgr@) == tick_fold(*assets, rows0, reg0, snapg.take(i as int), delta as int),
            forall|j: int|
                i <= j < snapg.len() ==> mgr@.contains_pair(
                    (#[trigger] snapg[j]).0,
                    snapg[j].1,
                ),
        decreases snapg.len() - i,
    {
        let ghost rows_pre = world@;
        let ghost reg_pre = mgr@;
        let (key, last_time) = snap[i];
        let (anim_id, entity_id) = key;
        proof {
            lemma_entity_index(world@, entity_id);
        }
        match assets.resolve(anim_id) {
            None => {
                if last_time != 0 {
                    mgr.stop(anim_id, entity_id);
                }
            },
            Some(a) => {
                proof {
                    lemma_asset_index(assets.items@, anim_id);
                    assert(assets.items@[asset_index(assets.items@, anim_id)].1.wf());
                }
                match world.find_index(entity_id) {
                    None => {
                        mgr.stop(anim_id, entity_id);
                    },
                    Some(e) => {
                        let time = sat_add(last_time, delta);
                        let mut row = world.entities.remove(e);
                        let finished = evaluate_animation(a, time, &mut row.1);
                        let ghost gfields = row.1@;
                        world.entities.insert(e, row);
                        proof {
                            assert(world@ =~= rows_pre.update(e as int, (entity_id, gfields)));
                        }
                        if time < a.duration && !finished {
                            mgr.advance_to(anim_id, entity_id, time);
                        } else {
                            mgr.stop(anim_id, entity_id);
                        }
                    },
                }
            },
        }
        proof {
            assert(snapg.take(i as int + 1).drop_last() =~= snapg.take(i as int));
            assert(snapg.take(i as int + 1).last() == snapg[i as int]);
            let stepped = tick_entry(
                *assets,
                rows_pre,
                reg_pre,
                key,
                last_time as int,
                delta as int,
            );
            assert(world@ =~= stepped.0);
            assert(mgr@ == stepped.1);
            assert((world@, mgr@) == tick_fold(
                *assets,
                rows0,
                reg0,
                snapg.take(i as int + 1),
                delta as int,
            ));
            assert forall|j: int|
                i + 1 <= j < snapg.len() implies mgr@.contains_pair(
                (#[trigger] snapg[j]).0,
                snapg[j].1,
            ) by {
                assert(snapg[j].0 != key);
            }
        }
        i += 1;
    }
    proof {
        assert(snapg.take(snapg.len() as int) =~= snapg);
        assert(is_snapshot_of(snapg, old(mgr)@) && sorted_entries(snapg) && (world@, mgr@)
            == tick_fold(*assets, old(world)@, old(mgr)@, snapg, delta as int));
        lemma_tick_fold_ids(*assets, rows0, reg0, snapg, delta as int);
        assert forall|k: PlaybackKey| !reg0.dom().contains(k) implies !mgr@.dom().contains(k) by {
            lemma_tick_no_new_keys(*assets, rows0, reg0, snapg, delta as int, k);
        }
    }
}

/// Entity rows keep their count and their identifiers through a tick:
/// the scheduler writes fields, it never creates, removes or renames
/// entities.
pub proof fn lemma_tick_fold_ids(
    assets: AssetStore,
    rows: Seq<(u64, Seq<i64>)>,
    reg: Map<PlaybackKey, i64>,
    snap: Seq<(PlaybackKey, i64)>,
    delta: int,
)
    ensures
        tick_fold(assets, rows, reg, snap, delta).0.len() == rows.len(),
        forall|i: int|
            0 <= i < rows.len() ==> (#[trigger] tick_fold(assets, rows, reg, snap, delta).0[i]).0
                == rows[i].0,
    decreases snap.len(),
{
    if snap.len() > 0 {
        lemma_tick_fold_ids(assets, rows, reg, snap.drop_last(), delta);
        let prev = tick_fold(assets, rows, reg, snap.drop_last(), delta);
        let key = snap.last().0;
        lemma_entity_index(prev.0, key.1);
    }
}

/// `entity_index` depends only on the row identifiers.
proof fn lemma_entity_index_same_ids(r1: Seq<(u64, Seq<i64>)>, r2: Seq<(u64, Seq<i64>)>, id: u64)
    requires
        r1.len() == r2.len(),
        forall|i: int| 0 <= i < r1.len() ==> (#[trigger] r1[i]).0 == (#[trigger] r2[i]).0,
    ensures
        entity_index(r1, id) == entity_index(r2, id),
    decreases r1.len(),
{
    if r1.len() > 0 {
        assert(r1[0].0 == r2[0].0);
        assert forall|i: int|
            0 <= i < r1.drop_first().len() implies (#[trigger] r1.drop_first()[i]).0 == (
        #[trigger] r2.drop_first()[i]).0 by {
            assert(r1.drop_first()[i] == r1[i + 1]);
            assert(r2.drop_first()[i] == r2[i + 1]);
        }
        lemma_entity_index_same_ids(r1.drop_first(), r2.drop_first(), id);
    }
}

/// Entity isolation law: a tick touches only the entities that snapshot
/// entries name. An entity none of the keys name keeps exactly its
/// fields, however many animations run on other entities in the same
/// tick — its outcome equals independent evaluation of its own (empty)
/// group.
pub proof fn lemma_tick_entity_isolation(
    assets: AssetStore,
    rows: Seq<(u64, Seq<i64>)>,
    reg: Map<PlaybackKey, i64>,
    snap: Seq<(PlaybackKey, i64)>,
    delta: int,
    e: u64,
)
    requires
        forall|i: int| 0 <= i < snap.len() ==> (#[trigger] snap[i]).0.1 != e,
    ensures
        entity_index(tick_fold(assets, rows, reg, snap, delta).0, e) == entity_index(rows, e),
        entity_index(rows, e) >= 0 ==> tick_fold(assets, rows, reg, snap, delta).0[entity_index(
            rows,
            e,
        )] == rows[entity_index(rows, e)],
    decreases snap.len(),
{
    lemma_entity_index(rows, e);
    lemma_tick_fold_ids(assets, rows, reg, snap, delta);
    let out = tick_fold(assets, rows, reg, snap, delta);
    lemma_entity_index_same_ids(out.0, rows, e);
    if snap.len() > 0 {
        assert forall|i: int|
            0 <= i < snap.drop_last().len() implies (#[trigger] snap.drop_last()[i]).0.1 != e by {
            assert(snap.drop_last()[i] == snap[i]);
        }
        lemma_tick_entity_isolation(assets, rows, reg, snap.drop_last(), delta, e);
        let prev = tick_fold(assets, rows, reg, snap.drop_last(), delta);
        lemma_tick_fold_ids(assets, rows, reg, snap.drop_last(), delta);
        lemma_entity_index_same_ids(prev.0, rows, e);
        let key = snap.last().0;
        let eidx = entity_index(prev.0, key.1);
        lemma_entity_index(prev.0, key.1);
        if entity_index(rows, e) >= 0 && eidx >= 0 {
            assert(prev.0[eidx].0 == key.1);
            assert(key.1 != e);
            assert(prev.0[entity_index(prev.0, e)].0 == e) by {
                lemma_entity_index(prev.0, e);
            }
        }
    }
}

/// The snapshot entries that name one entity, in snapshot order.
pub open spec fn entries_of_entity(snap: Seq<(PlaybackKey, i64)>, e: u64) -> Seq<(PlaybackKey, i64)>
    decreases snap.len(),
{
    if snap.len() == 0 {
        Seq::empty()
    } else {
        let rest = entries_of_entity(snap.drop_last(), e);
        if snap.last().0.1 == e {
            rest.push(snap.last())
        } else {
            rest
        }
    }
}

/// What a tick does to one entity's fields, from its own entries alone:
/// each resolved entry applies its animation's tracks at its advanced
/// time, in order; unresolved entries touch nothing.
pub open spec fn entity_fields_fold(
    assets: AssetStore,
    own: Seq<(PlaybackKey, i64)>,
    fields: Seq<i64>,
    delta: int,
) -> Seq<i64>
    decreases own.len(),
{
    if own.len() == 0 {
        fields
    } else {
        let prev = entity_fields_fold(assets, own.drop_last(), fields, delta);
        match assets.resolve_spec(own.last().0.0) {
            Some(a) => apply_tracks(
                a.tracks@,
                sat_add_spec(own.last().1 as int, delta),
                prev,
            ),
            None => prev,
        }
    }
}

/// Every extracted entry names the entity it was extracted for.
proof fn lemma_entries_of_entity_members(snap: Seq<(PlaybackKey, i64)>, e: u64)
    ensures
        forall|i: int|
            0 <= i < entries_of_entity(snap, e).len() ==> (#[trigger] entries_of_entity(
                snap,
                e,
            )[i]).0.1 == e,
    decreases snap.len(),
{
    if snap.len() > 0 {
        lemma_entries_of_entity_members(snap.drop_last(), e);
        let rest = entries_of_entity(snap.drop_last(), e);
        assert forall|i: int|
            0 <= i < entries_of_entity(snap, e).len() implies (#[trigger] entries_of_entity(
            snap,
            e,
        )[i]).0.1 == e by {
            if snap.last().0.1 == e && i < rest.len() {
                assert(entries_of_entity(snap, e)[i] == rest[i]);
            }
        }
    }
}

/// Extracting for an entity all of whose entries already name it is the
/// identity.
proof fn lemma_entries_of_entity_all(snap: Seq<(PlaybackKey, i64)>, e: u64)
    requires
        forall|i: int| 0 <= i < snap.len() ==> (#[trigger] snap[i]).0.1 == e,
    ensures
        entries_of_entity(snap, e) == snap,
    decreases snap.len(),
{
    if snap.len() > 0 {
        assert forall|i: int|
            0 <= i < snap.drop_last().len() implies (#[trigger] snap.drop_last()[i]).0.1 == e by {
            assert(snap.drop_last()[i] == snap[i]);
        }
        lemma_entries_of_entity_all(snap.drop_last(), e);
        assert(entries_of_entity(snap, e) =~= snap);
    }
}

/// Through a tick, one entity's fields are the fold of its own entries
/// alone over its starting fields: entries of other entities never
/// touch them.
proof fn lemma_tick_fold_fields(
    assets: AssetStore,
    rows: Seq<(u64, Seq<i64>)>,
    reg: Map<PlaybackKey, i64>,
    snap: Seq<(PlaybackKey, i64)>,
    delta: int,
    e: u64,
)
    requires
        entity_index(rows, e) >= 0,
    ensures
        tick_fold(assets, rows, reg, snap, delta).0[entity_index(rows, e)].1
            == entity_fields_fold(
            assets,
            entries_of_entity(snap, e),
            rows[entity_index(rows, e)].1,
            delta,
        ),
    decreases snap.len(),
{
    lemma_entity_index(rows, e);
    let idx = entity_index(rows, e);
    if snap.len() > 0 {
        lemma_tick_fold_fields(assets, rows, reg, snap.drop_last(), delta, e);
        let prev = tick_fold(assets, rows, reg, snap.drop_last(), delta);
        lemma_tick_fold_ids(assets, rows, reg, snap.drop_last(), delta);
        lemma_entity_index_same_ids(prev.0, rows, e);
        lemma_entity_index(prev.0, e);
        let key = snap.last().0;
        lemma_entity_index_same_ids(prev.0, rows, key.1);
        lemma_entity_index(prev.0, key.1);
        let own = entries_of_entity(snap, e);
        let rest = entries_of_entity(snap.drop_last(), e);
        if key.1 == e {
            assert(own == rest.push(snap.last()));
            assert(own.drop_last() =~= rest);
            assert(own.last() == snap.last());
        }
        match assets.resolve_spec(key.0) {
            None => {},
            Some(a) => {
                let eidx = entity_index(prev.0, key.1);
                if key.1 == e {
                    assert(eidx == idx);
                } else if eidx >= 0 {
                    assert(prev.0[eidx].0 == key.1);
                    assert(prev.0[idx].0 == e);
                    assert(eidx != idx);
                }
            },
        }
    }
}

/// Decomposition law (with `lemma_tick_entity_isolation`, the
/// no-cross-contamination property): after a tick over the whole
/// snapshot, an entity's fields equal what a tick over that entity's
/// own entries alone produces from the same starting fields, whatever
/// registry state that independent run starts from — no unit observes
/// another entity's writes.
pub proof fn lemma_tick_entity_decomposition(
    assets: AssetStore,
    rows: Seq<(u64, Seq<i64>)>,
    reg: Map<PlaybackKey, i64>,
    reg_alone: Map<PlaybackKey, i64>,
    snap: Seq<(PlaybackKey, i64)>,
    delta: int,
    e: u64,
)
    requires
        entity_index(rows, e) >= 0,
    ensures
        tick_fold(assets, rows, reg, snap, delta).0[entity_index(rows, e)].1 == tick_fold(
            assets,
            rows,
            reg_alone,
            entries_of_entity(snap, e),
            delta,
        ).0[entity_index(rows, e)].1,
{
    let own = entries_of_entity(snap, e);
    lemma_tick_fold_fields(assets, rows, reg, snap, delta, e);
    lemma_tick_fold_fields(assets, rows, reg_alone, own, delta, e);
    lemma_entries_of_entity_members(snap, e);
    lemma_entries_of_entity_all(own, e);
}

/// Waiting law: an entry whose animation the asset store cannot resolve
/// and whose elapsed time is still 0 survives the tick unchanged,
/// whatever its entity's state — playback silently waits for the asset,
/// it is neither advanced nor removed.
pub proof fn lemma_tick_waits_for_asset(
    assets: AssetStore,
    rows: Seq<(u64, Seq<i64>)>,
    reg: Map<PlaybackKey, i64>,
    snap: Seq<(PlaybackKey, i64)>,
    delta: int,
    k: PlaybackKey,
)
    requires
        forall|i: int| 0 <= i < snap.len() && (#[trigger] snap[i]).0 == k ==> snap[i].1 == 0,
        assets.resolve_spec(k.0) is None,
        reg.dom().contains(k),
        reg[k] == 0,
    ensures
        tick_fold(assets, rows, reg, snap, delta).1.dom().contains(k),
        tick_fold(assets, rows, reg, snap, delta).1[k] == 0,
    decreases snap.len(),
{
    if snap.len() > 0 {
        assert forall|i: int|
            0 <= i < snap.drop_last().len() && (#[trigger] snap.drop_last()[i]).0 == k implies snap.drop_last()[i].1
            == 0 by {
            assert(snap.drop_last()[i] == snap[i]);
        }
        lemma_tick_waits_for_asset(assets, rows, reg, snap.drop_last(), delta, k);
        if snap.last().0 == k {
            assert(snap.last().1 == 0);
        }
    }
}

/// Creation law: a tick never creates playback entries — every key of
/// the outcome registry was present before it. New entries come only
/// from `play`.
pub proof fn lemma_tick_no_new_keys(
    assets: AssetStore,
    rows: Seq<(u64, Seq<i64>)>,
    reg: Map<PlaybackKey, i64>,
    snap: Seq<(PlaybackKey, i64)>,
    delta: int,
    k: PlaybackKey,
)
    requires
        forall|i: int| 0 <= i < snap.len() ==> reg.dom().contains((#[trigger] snap[i]).0),
        !reg.dom().contains(k),
    ensures
        !tick_fold(assets, rows, reg, snap, delta).1.dom().contains(k),
    decreases snap.len(),
{
    if snap.len() > 0 {
        assert forall|i: int|
            0 <= i < snap.drop_last().len() implies reg.dom().contains(
            (#[trigger] snap.drop_last()[i]).0,
        ) by {
            assert(snap.drop_last()[i] == snap[i]);
        }
        lemma_tick_no_new_keys(assets, rows, reg, snap.drop_last(), delta, k);
        assert(snap.last().0 != k);
    }
}

/// Completion law: an entry whose animation resolves and whose advanced
/// time reaches the animation's duration does not survive the tick: its
/// registry entry is removed, whatever its entity holds.
pub proof fn lemma_tick_removes_completed(
    assets: AssetStore,
    rows: Seq<(u64, Seq<i64>)>,
    reg: Map<PlaybackKey, i64>,
    snap: Seq<(PlaybackKey, i64)>,
    delta: int,
    k: PlaybackKey,
)
    requires
        forall|i: int, j: int|
            0 <= i < snap.len() && 0 <= j < snap.len() && i != j ==> (#[trigger] snap[i]).0 != (
            #[trigger] snap[j]).0,
        exists|i: int| 0 <= i < snap.len() && (#[trigger] snap[i]).0 == k,
        forall|i: int|
            0 <= i < snap.len() && (#[trigger] snap[i]).0 == k ==> (assets.resolve_spec(k.0)
                matches Some(a) && sat_add_spec(snap[i].1 as int, delta) >= a.duration),
    ensures
        !tick_fold(assets, rows, reg, snap, delta).1.dom().contains(k),
    decreases snap.len(),
{
    let p = choose|i: int| 0 <= i < snap.len() && (#[trigger] snap[i]).0 == k;
    let prev = tick_fold(assets, rows, reg, snap.drop_last(), delta);
    if snap.last().0 == k {
        assert(snap[snap.len() - 1].0 == k);
    } else {
        assert(p < snap.len() - 1);
        assert(snap.drop_last()[p] == snap[p]);
        assert forall|i: int, j: int|
            0 <= i < snap.drop_last().len() && 0 <= j < snap.drop_last().len() && i != j implies (
        #[trigger] snap.drop_last()[i]).0 != (#[trigger] snap.drop_last()[j]).0 by {
            assert(snap.drop_last()[i] == snap[i] && snap.drop_last()[j] == snap[j]);
        }
        assert forall|i: int|
            0 <= i < snap.drop_last().len() && (#[trigger] snap.drop_last()[i]).0 == k implies (
        assets.resolve_spec(k.0) matches Some(a) && sat_add_spec(snap.drop_last()[i].1 as int, delta)
            >= a.duration) by {
            assert(snap.drop_last()[i] == snap[i]);
        }
        lemma_tick_removes_completed(assets, rows, reg, snap.drop_last(), delta, k);
    }
}

/// Determinism law: a registry state has at most one snapshot in the
/// deterministic processing order, so a tick's outcome is a function of
/// the registry, the assets, the world and the delta alone.
pub proof fn lemma_sorted_snapshot_unique(
    a: Seq<(PlaybackKey, i64)>,
    b: Seq<(PlaybackKey, i64)>,
    m: Map<PlaybackKey, i64>,
)
    requires
        is_snapshot_of(a, m),
        is_snapshot_of(b, m),
        sorted_entries(a),
        sorted_entries(b),
    ensures
        a == b,
{
    broadcast use vstd::seq_lib::group_to_multiset_ensures;

    assert(a.no_duplicates()) by {
        assert forall|i: int, j: int|
            0 <= i < a.len() && 0 <= j < a.len() && i != j implies a[i] != a[j] by {
            assert((a[i]).0 != (a[j]).0);
        }
    }
    assert(b.no_duplicates()) by {
        assert forall|i: int, j: int|
            0 <= i < b.len() && 0 <= j < b.len() && i != j implies b[i] != b[j] by {
            assert((b[i]).0 != (b[j]).0);
        }
    }
    a.lemma_multiset_has_no_duplicates();
    b.lemma_multiset_has_no_duplicates();
    assert forall|p: (PlaybackKey, i64)| a.contains(p) implies b.contains(p) by {
        let i = choose|i: int| 0 <= i < a.len() && a[i] == p;
        assert(m.contains_pair(p.0, p.1));
        let j = choose|j: int| 0 <= j < b.len() && (#[trigger] b[j]).0 == p.0;
        assert(m.contains_pair(b[j].0, b[j].1));
        assert(b[j] == p);
    }
    assert forall|p: (PlaybackKey, i64)| b.contains(p) implies a.contains(p) by {
        let i = choose|i: int| 0 <= i < b.len() && b[i] == p;
        assert(m.contains_pair(p.0, p.1));
        let j = choose|j: int| 0 <= j < a.len() && (#[trigger] a[j]).0 == p.0;
        assert(m.contains_pair(a[j].0, a[j].1));
        assert(a[j] == p);
    }
    assert(a.to_multiset() =~= b.to_multiset()) by {
        assert forall|p: (PlaybackKey, i64)|
            a.to_multiset().count(p) == b.to_multiset().count(p) by {
            if a.contains(p) {
                assert(a.to_multiset().count(p) == 1 && b.to_multiset().count(p) == 1);
            } else {
                assert(!b.contains(p));
                assert(a.to_multiset().count(p) == 0 && b.to_multiset().count(p) == 0);
            }
        }
    }
    let leq = |x: (PlaybackKey, i64), y: (PlaybackKey, i64)| entry_le(x, y);
    assert(vstd::relations::total_ordering(leq)) by {
        assert forall|x: (PlaybackKey, i64)| #[trigger] leq(x, x) by {}
        assert forall|x: (PlaybackKey, i64), y: (PlaybackKey, i64)|
            #[trigger] leq(x, y) && #[trigger] leq(y, x) implies x == y by {
            assert(x.0.0 == y.0.0 && x.0.1 == y.0.1 && x.1 == y.1);
            assert(x.0 == y.0);
        }
        assert forall|x: (PlaybackKey, i64), y: (PlaybackKey, i64), z: (PlaybackKey, i64)|
            #[trigger] leq(x, y) && #[trigger] leq(y, z) implies leq(x, z) by {}
        assert forall|x: (PlaybackKey, i64), y: (PlaybackKey, i64)|
            #[trigger] leq(x, y) || #[trigger] leq(y, x) by {}
    }
    assert(vstd::relations::sorted_by(a, leq));
    assert(vstd::relations::sorted_by(b, leq));
    vstd::seq_lib::lemma_sorted_unique(a, b, leq);
    assert(a =~= b);
}

} // verus!
