//! The concurrent playback registry.
//!
//! A registry maps `(animation identifier, entity identifier)` keys to the
//! elapsed fixed-point playback time of that animation on that entity. It
//! is backed by the sharded, per-key-locked concurrent map of the dashmap
//! crate, so callers may issue `play`/`stop`/`advance`/`status` calls at
//! any time without corrupting the map; the contracts here describe each
//! operation's effect on the map's contents.

use crate::sat_add;
use crate::sat_add_spec;
use vstd::prelude::*;

verus! {

/// The concurrent map of the dashmap crate. Declared so registry values
/// can flow through verified signatures; the map is opaque to the
/// verifier, and everything known of it comes from the trusted wrappers
/// below.
#[verifier::external_type_specification]
#[verifier::external_body]
#[verifier::reject_recursive_types(K)]
#[verifier::reject_recursive_types(V)]
#[verifier::reject_recursive_types(S)]
pub struct ExDashMap<K, V, S>(dashmap::DashMap<K, V, S>);

/// The registry's key: an (animation identifier, entity identifier) pair.
pub type PlaybackKey = (u64, u64);

/// The backing concurrent map of a registry.
pub type RegistryMap = dashmap::DashMap<PlaybackKey, i64>;

/// The playback entries a registry map holds: elapsed fixed-point time,
/// keyed by (animation identifier, entity identifier).
pub uninterp spec fn registry_entries(m: RegistryMap) -> Map<PlaybackKey, i64>;

/// Relies on dashmap::DashMap::new: creates a map with no entries.
#[verifier::external_body]
fn registry_new() -> (m: RegistryMap)
    ensures
        forall|k: PlaybackKey| !registry_entries(m).dom().contains(k),
{
    dashmap::DashMap::new()
}

/// Relies on dashmap::DashMap::insert: maps the key to the value,
/// replacing the previous value if the key was present.
#[verifier::external_body]
fn registry_insert(m: &mut RegistryMap, key: PlaybackKey, value: i64)
    ensures
        registry_entries(*final(m)) == registry_entries(*old(m)).insert(key, value),
{
    m.insert(key, value);
}

/// Relies on dashmap::DashMap::remove: removes the key's entry if one is
/// present, and leaves the map unchanged otherwise.
#[verifier::external_body]
fn registry_remove(m: &mut RegistryMap, key: PlaybackKey)
    ensures
        registry_entries(*final(m)) == registry_entries(*old(m)).remove(key),
{
    m.remove(&key);
}

/// Relies on dashmap::DashMap::get: returns the value the key maps to,
/// if any.
#[verifier::external_body]
fn registry_get(m: &RegistryMap, key: PlaybackKey) -> (r: Option<i64>)
    ensures
        registry_entries(*m).dom().contains(key) ==> r == Some(registry_entries(*m)[key]),
        !registry_entries(*m).dom().contains(key) ==> r == None::<i64>,
{
    m.get(&key).map(|v| *v)
}

/// `snap` lists exactly the entries of `m`: every listed pair is an entry,
/// every key of `m` is listed, and no key is listed twice. The order is
/// arbitrary.
pub open spec fn is_snapshot_of(snap: Seq<(PlaybackKey, i64)>, m: Map<PlaybackKey, i64>) -> bool {
    &&& forall|i: int|
        0 <= i < snap.len() ==> m.contains_pair((#[trigger] snap[i]).0, snap[i].1)
    &&& forall|k: PlaybackKey|
        #[trigger] m.dom().contains(k) ==> exists|i: int|
            0 <= i < snap.len() && (#[trigger] snap[i]).0 == k
    &&& forall|i: int, j: int|
        0 <= i < snap.len() && 0 <= j < snap.len() && i != j ==> (#[trigger] snap[i]).0 != (
        #[trigger] snap[j]).0
}

/// Relies on dashmap::DashMap::iter: visits every entry exactly once, in
/// no particular (and no repeatable) order.
#[verifier::external_body]
fn registry_snapshot(m: &RegistryMap) -> (r: Vec<(PlaybackKey, i64)>)
    ensures
        is_snapshot_of(r@, registry_entries(*m)),
{
    m.iter().map(|e| (*e.key(), *e.value())).collect()
}

/// Tracks which animations are playing on which entities: conceptually a
/// concurrent map from (animation identifier, entity identifier) to the
/// elapsed fixed-point playback time of that animation on that entity.
pub struct AnimationManager {
    active_animations: RegistryMap,
}

impl View for AnimationManager {
    type V = Map<PlaybackKey, i64>;

    closed spec fn view(&self) -> Map<PlaybackKey, i64> {
        registry_entries(self.active_animations)
    }
}

/// What `get_animation_status` reports for one (animation, entity) key.
#[derive(Clone, Copy, Debug, PartialEq, Eq, Structural)]
pub enum AnimationStatus {
    /// The animation is playing on the entity with this elapsed time.
    Playing(i64),
    /// No entry exists for the key.
    NotPlaying,
}

impl AnimationManager {
    /// An empty registry: nothing is playing.
    pub fn new() -> (m: Self)
        ensures
            m@ == Map::<PlaybackKey, i64>::empty(),
    {
        let mgr = AnimationManager { active_animations: registry_new() };
        proof {
            assert(mgr@ =~= Map::<PlaybackKey, i64>::empty());
        }
        mgr
    }

    /// Requests to start playing the animation on the entity: inserts or
    /// resets the entry's elapsed time to 0. Replaying an animation that
    /// is already playing restarts it; it does not accumulate or queue.
    /// Playback proceeds once the scheduler can resolve the identifier.
    pub fn play(&mut self, animation: u64, entity: u64)
        ensures
            final(self)@ == old(self)@.insert((animation, entity), 0i64),
    {
        registry_insert(&mut self.active_animations, (animation, entity), 0);
    }

    /// Stops playing the animation on the entity: removes the entry if
    /// present, and does nothing otherwise.
    pub fn stop(&mut self, animation_id: u64, entity: u64)
        ensures
            final(self)@ == old(self)@.remove((animation_id, entity)),
    {
        registry_remove(&mut self.active_animations, (animation_id, entity));
    }

    /// Adds `by` to the entry's elapsed time (saturating at the ends of
    /// the i64 range) if the animation is playing on the entity, and does
    /// nothing otherwise.
    pub fn advance_by(&mut self, animation_id: u64, entity: u64, by: i64)
        ensures
            old(self)@.dom().contains((animation_id, entity)) ==> final(self)@ == old(self)@.insert(
                (animation_id, entity),
                sat_add_spec(old(self)@[(animation_id, entity)] as int, by as int) as i64,
            ),
            !old(self)@.dom().contains((animation_id, entity)) ==> final(self)@ == old(self)@,
    {
        let key = (animation_id, entity);
        match registry_get(&self.active_animations, key) {
            Some(time) => {
                let advanced = sat_add(time, by);
                registry_insert(&mut self.active_animations, key, advanced);
            },
            None => {},
        }
    }

    /// Overwrites the entry's elapsed time with `to` if the animation is
    /// playing on the entity, and does nothing otherwise.
    pub fn advance_to(&mut self, animation_id: u64, entity: u64, to: i64)
        ensures
            old(self)@.dom().contains((animation_id, entity)) ==> final(self)@ == old(self)@.insert(
                (animation_id, entity),
                to,
            ),
            !old(self)@.dom().contains((animation_id, entity)) ==> final(self)@ == old(self)@,
    {
        let key = (animation_id, entity);
        match registry_get(&self.active_animations, key) {
            Some(_) => {
                registry_insert(&mut self.active_animations, key, to);
            },
            None => {},
        }
    }

    /// Reports the playback status for the key: the elapsed time if an
    /// entry exists, and `NotPlaying` otherwise. Under concurrent callers
    /// the report may be stale; it is exact for changes made by the
    /// calling pass itself.
    pub fn get_animation_status(&self, animation: u64, entity: u64) -> (st: AnimationStatus)
        ensures
            self@.dom().contains((animation, entity)) ==> st == AnimationStatus::Playing(
                self@[(animation, entity)],
            ),
            !self@.dom().contains((animation, entity)) ==> st == AnimationStatus::NotPlaying,
    {
        match registry_get(&self.active_animations, (animation, entity)) {
            Some(time) => AnimationStatus::Playing(time),
            None => AnimationStatus::NotPlaying,
        }
    }

    /// Copies the current entries out, in arbitrary order, one pair per
    /// key. The live registry may keep changing under concurrent callers;
    /// the copy is a consistent snapshot of one moment.
    pub fn snapshot(&self) -> (r: Vec<(PlaybackKey, i64)>)
        ensures
            is_snapshot_of(r@, self@),
    {
        registry_snapshot(&self.active_animations)
    }
}

/// Restart law: playing a key that is already playing resets its elapsed
/// time to 0 exactly as a first `play` does — two consecutive `play`
/// calls on one key leave the registry as one call does.
pub proof fn lemma_play_restarts(m: Map<PlaybackKey, i64>, key: PlaybackKey)
    ensures
        m.insert(key, 0i64).insert(key, 0i64) == m.insert(key, 0i64),
{
    assert(m.insert(key, 0i64).insert(key, 0i64) =~= m.insert(key, 0i64));
}

/// No-op law: stopping a key that is not playing leaves the registry
/// unchanged.
pub proof fn lemma_stop_absent_noop(m: Map<PlaybackKey, i64>, key: PlaybackKey)
    requires
        !m.dom().contains(key),
    ensures
        m.remove(key) == m,
{
    assert(m.remove(key) =~= m);
}

} // verus!
