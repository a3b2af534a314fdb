use animation_core::registry::{AnimationManager, AnimationStatus};
use animation_core::schedule::{step_animation, tick, Animation, AssetStore, EntityStore};
use animation_core::track::{Keyframe, LerpTrack, StepTrack, Track};

fn kf(time: i64, value: i64) -> Keyframe {
    Keyframe { time, value }
}

/// Duration 2.0s; one linear track over field 0 with keyframes
/// (0.0, 0.0), (1.0, 10.0), (2.0, 0.0), in millionths.
fn ramp_animation() -> Animation {
    let tracks = vec![Track::Lerp(LerpTrack {
        field: 0,
        keyframes: vec![kf(0, 0), kf(1_000_000, 10_000_000), kf(2_000_000, 0)],
    })];
    Animation::new(tracks, 2_000_000).unwrap()
}

fn one_entity_world(entity: u64, fields: usize) -> EntityStore {
    let mut world = EntityStore::new();
    world.insert(entity, vec![0; fields]);
    world
}

fn field(world: &EntityStore, entity: u64, idx: usize) -> i64 {
    world.fields_of(entity).unwrap()[idx]
}

#[test]
fn play_inserts_with_zero_elapsed_time() {
    let mut mgr = AnimationManager::new();
    assert_eq!(mgr.get_animation_status(1, 2), AnimationStatus::NotPlaying);
    mgr.play(1, 2);
    assert_eq!(mgr.get_animation_status(1, 2), AnimationStatus::Playing(0));
}

#[test]
fn play_twice_restarts_from_zero() {
    let mut mgr = AnimationManager::new();
    mgr.play(1, 2);
    mgr.advance_to(1, 2, 700_000);
    assert_eq!(mgr.get_animation_status(1, 2), AnimationStatus::Playing(700_000));
    mgr.play(1, 2);
    assert_eq!(mgr.get_animation_status(1, 2), AnimationStatus::Playing(0));
    mgr.play(1, 2);
    assert_eq!(mgr.get_animation_status(1, 2), AnimationStatus::Playing(0));
}

#[test]
fn stop_removes_entry() {
    let mut mgr = AnimationManager::new();
    mgr.play(1, 2);
    mgr.stop(1, 2);
    assert_eq!(mgr.get_animation_status(1, 2), AnimationStatus::NotPlaying);
}

#[test]
fn stop_on_missing_key_is_noop_and_status_reports_not_playing() {
    let mut mgr = AnimationManager::new();
    mgr.play(1, 2);
    mgr.stop(1, 3);
    mgr.stop(9, 9);
    assert_eq!(mgr.get_animation_status(1, 2), AnimationStatus::Playing(0));
    assert_eq!(mgr.get_animation_status(1, 3), AnimationStatus::NotPlaying);
    assert_eq!(mgr.get_animation_status(9, 9), AnimationStatus::NotPlaying);
}

#[test]
fn advance_by_adds_and_ignores_missing_keys() {
    let mut mgr = AnimationManager::new();
    mgr.advance_by(1, 2, 500_000);
    assert_eq!(mgr.get_animation_status(1, 2), AnimationStatus::NotPlaying);
    mgr.play(1, 2);
    mgr.advance_by(1, 2, 500_000);
    mgr.advance_by(1, 2, 250_000);
    assert_eq!(mgr.get_animation_status(1, 2), AnimationStatus::Playing(750_000));
    mgr.advance_by(1, 2, -750_000);
    assert_eq!(mgr.get_animation_status(1, 2), AnimationStatus::Playing(0));
}

#[test]
fn advance_by_saturates_at_the_range_ends() {
    let mut mgr = AnimationManager::new();
    mgr.play(1, 2);
    mgr.advance_to(1, 2, i64::MAX - 5);
    mgr.advance_by(1, 2, 100);
    assert_eq!(mgr.get_animation_status(1, 2), AnimationStatus::Playing(i64::MAX));
    mgr.advance_to(1, 2, i64::MIN + 5);
    mgr.advance_by(1, 2, -100);
    assert_eq!(mgr.get_animation_status(1, 2), AnimationStatus::Playing(i64::MIN));
}

#[test]
fn advance_to_overwrites_and_ignores_missing_keys() {
    let mut mgr = AnimationManager::new();
    mgr.advance_to(1, 2, 42);
    assert_eq!(mgr.get_animation_status(1, 2), AnimationStatus::NotPlaying);
    mgr.play(1, 2);
    mgr.advance_to(1, 2, 42);
    assert_eq!(mgr.get_animation_status(1, 2), AnimationStatus::Playing(42));
}

#[test]
fn snapshot_lists_every_entry_once() {
    let mut mgr = AnimationManager::new();
    mgr.play(1, 10);
    mgr.play(2, 10);
    mgr.play(1, 11);
    mgr.advance_to(1, 11, 99);
    let mut snap = mgr.snapshot();
    snap.sort();
    assert_eq!(snap, vec![((1, 10), 0), ((1, 11), 99), ((2, 10), 0)]);
}

#[test]
fn ramp_scenario_advances_samples_and_removes_when_done() {
    let mut mgr = AnimationManager::new();
    let mut assets = AssetStore::new();
    assets.insert(7, ramp_animation());
    let mut world = one_entity_world(100, 1);

    mgr.play(7, 100);
    let expected = [
        (500_000, 5_000_000),
        (1_000_000, 10_000_000),
        (1_500_000, 5_000_000),
    ];
    for (elapsed, value) in expected {
        tick(&mut mgr, &assets, &mut world, 500_000);
        assert_eq!(mgr.get_animation_status(7, 100), AnimationStatus::Playing(elapsed));
        assert_eq!(field(&world, 100, 0), value);
    }
    // Fourth tick reaches the duration: last value written, entry removed.
    tick(&mut mgr, &assets, &mut world, 500_000);
    assert_eq!(field(&world, 100, 0), 0);
    assert_eq!(mgr.get_animation_status(7, 100), AnimationStatus::NotPlaying);
}

#[test]
fn two_entities_evaluate_independently() {
    let anim = |offset: i64| {
        Animation::new(
            vec![Track::Lerp(LerpTrack {
                field: 0,
                keyframes: vec![kf(0, 0), kf(1_000_000, offset)],
            })],
            2_000_000,
        )
        .unwrap()
    };

    // Both entities in one world, one active animation each, one tick.
    let mut assets = AssetStore::new();
    assets.insert(1, anim(8_000_000));
    assets.insert(2, anim(-4_000_000));
    let mut mgr = AnimationManager::new();
    let mut world = EntityStore::new();
    world.insert(100, vec![0]);
    world.insert(200, vec![0]);
    mgr.play(1, 100);
    mgr.play(2, 200);
    tick(&mut mgr, &assets, &mut world, 500_000);

    // Each entity alone in its own world, same tick.
    let mut mgr_a = AnimationManager::new();
    let mut world_a = one_entity_world(100, 1);
    mgr_a.play(1, 100);
    tick(&mut mgr_a, &assets, &mut world_a, 500_000);

    let mut mgr_b = AnimationManager::new();
    let mut world_b = one_entity_world(200, 1);
    mgr_b.play(2, 200);
    tick(&mut mgr_b, &assets, &mut world_b, 500_000);

    assert_eq!(field(&world, 100, 0), field(&world_a, 100, 0));
    assert_eq!(field(&world, 200, 0), field(&world_b, 200, 0));
    assert_eq!(field(&world, 100, 0), 4_000_000);
    assert_eq!(field(&world, 200, 0), -2_000_000);
}

#[test]
fn unresolved_asset_waits_at_zero_then_plays_from_zero() {
    let mut mgr = AnimationManager::new();
    let empty_assets = AssetStore::new();
    let mut world = one_entity_world(100, 1);

    mgr.play(7, 100);
    tick(&mut mgr, &empty_assets, &mut world, 500_000);
    assert_eq!(mgr.get_animation_status(7, 100), AnimationStatus::Playing(0));
    tick(&mut mgr, &empty_assets, &mut world, 500_000);
    assert_eq!(mgr.get_animation_status(7, 100), AnimationStatus::Playing(0));
    assert_eq!(field(&world, 100, 0), 0);

    // The asset becomes resolvable: playback proceeds from time 0.
    let mut assets = AssetStore::new();
    assets.insert(7, ramp_animation());
    tick(&mut mgr, &assets, &mut world, 500_000);
    assert_eq!(mgr.get_animation_status(7, 100), AnimationStatus::Playing(500_000));
    assert_eq!(field(&world, 100, 0), 5_000_000);
}

#[test]
fn asset_unloaded_after_start_removes_entry() {
    let mut mgr = AnimationManager::new();
    let mut assets = AssetStore::new();
    assets.insert(7, ramp_animation());
    let mut world = one_entity_world(100, 1);

    mgr.play(7, 100);
    tick(&mut mgr, &assets, &mut world, 500_000);
    assert_eq!(mgr.get_animation_status(7, 100), AnimationStatus::Playing(500_000));

    let empty_assets = AssetStore::new();
    tick(&mut mgr, &empty_assets, &mut world, 500_000);
    assert_eq!(mgr.get_animation_status(7, 100), AnimationStatus::NotPlaying);
    // The field keeps its last written value; nothing evaluated it.
    assert_eq!(field(&world, 100, 0), 5_000_000);
}

#[test]
fn vanished_entity_removes_entry_without_evaluation() {
    let mut mgr = AnimationManager::new();
    let mut assets = AssetStore::new();
    assets.insert(7, ramp_animation());
    let mut world = one_entity_world(100, 1);

    mgr.play(7, 100);
    tick(&mut mgr, &assets, &mut world, 500_000);
    assert_eq!(mgr.get_animation_status(7, 100), AnimationStatus::Playing(500_000));

    let mut empty_world = EntityStore::new();
    tick(&mut mgr, &assets, &mut empty_world, 500_000);
    assert_eq!(mgr.get_animation_status(7, 100), AnimationStatus::NotPlaying);
}

#[test]
fn absent_field_is_skipped_and_does_not_hold_playback_open() {
    let mut mgr = AnimationManager::new();
    let mut assets = AssetStore::new();
    // The only track targets field 5, which the entity does not have.
    assets.insert(
        7,
        Animation::new(
            vec![Track::Lerp(LerpTrack {
                field: 5,
                keyframes: vec![kf(0, 0), kf(1_000_000, 1)],
            })],
            2_000_000,
        )
        .unwrap(),
    );
    let mut world = one_entity_world(100, 1);
    mgr.play(7, 100);
    tick(&mut mgr, &assets, &mut world, 100);
    // Every applicable track (none) is finished: the entry is removed.
    assert_eq!(mgr.get_animation_status(7, 100), AnimationStatus::NotPlaying);
    assert_eq!(field(&world, 100, 0), 0);
}

#[test]
fn later_track_on_same_field_overwrites_earlier() {
    let mut mgr = AnimationManager::new();
    let mut assets = AssetStore::new();
    assets.insert(
        7,
        Animation::new(
            vec![
                Track::Lerp(LerpTrack {
                    field: 0,
                    keyframes: vec![kf(0, 0), kf(1_000_000, 2_000_000)],
                }),
                Track::Step(StepTrack { field: 0, keyframes: vec![kf(0, 123)] }),
            ],
            2_000_000,
        )
        .unwrap(),
    );
    let mut world = one_entity_world(100, 1);
    mgr.play(7, 100);
    tick(&mut mgr, &assets, &mut world, 500_000);
    // The step track runs after the lerp track and wins the field.
    assert_eq!(field(&world, 100, 0), 123);
}

#[test]
fn pre_roll_keeps_field_until_first_keyframe() {
    let mut mgr = AnimationManager::new();
    let mut assets = AssetStore::new();
    assets.insert(
        7,
        Animation::new(
            vec![Track::Lerp(LerpTrack {
                field: 0,
                keyframes: vec![kf(1_000_000, 5), kf(2_000_000, 9)],
            })],
            3_000_000,
        )
        .unwrap(),
    );
    let mut world = EntityStore::new();
    world.insert(100, vec![-77]);
    mgr.play(7, 100);
    tick(&mut mgr, &assets, &mut world, 500_000);
    assert_eq!(mgr.get_animation_status(7, 100), AnimationStatus::Playing(500_000));
    assert_eq!(field(&world, 100, 0), -77);
    tick(&mut mgr, &assets, &mut world, 500_000);
    assert_eq!(field(&world, 100, 0), 5);
}

#[test]
fn entries_of_other_entities_are_untouched_by_a_tick() {
    let mut mgr = AnimationManager::new();
    let mut assets = AssetStore::new();
    assets.insert(7, ramp_animation());
    let mut world = EntityStore::new();
    world.insert(100, vec![0]);
    world.insert(200, vec![31]);
    mgr.play(7, 100);
    tick(&mut mgr, &assets, &mut world, 500_000);
    // Entity 200 has no active animation: its fields are untouched.
    assert_eq!(field(&world, 200, 0), 31);
    assert_eq!(field(&world, 100, 0), 5_000_000);
}

#[test]
fn evaluate_animation_reports_finished_only_when_every_track_is() {
    let anim = Animation::new(
        vec![
            Track::Lerp(LerpTrack { field: 0, keyframes: vec![kf(0, 0), kf(1_000_000, 4)] }),
            Track::Step(StepTrack { field: 1, keyframes: vec![kf(0, 9)] }),
        ],
        5_000_000,
    )
    .unwrap();
    let mut fields = vec![0i64, 0i64];
    let finished = animation_core::schedule::evaluate_animation(&anim, 500_000, &mut fields);
    assert!(!finished); // the lerp track still plays
    assert_eq!(fields, vec![2, 9]); // 0..4 at u=0.5 -> 2; step past its only keyframe -> 9
    let finished = animation_core::schedule::evaluate_animation(&anim, 1_000_000, &mut fields);
    assert!(finished);
    assert_eq!(fields, vec![4, 9]);
}

#[test]
fn step_animation_decides_each_entry_fate() {
    let anim = ramp_animation();
    let mut fields = vec![0i64];

    // Resolved asset, vanished entity: finish without evaluating.
    assert!(!step_animation(Some(&anim), false, &mut fields, 500_000, 500_000));
    assert_eq!(fields, vec![0]);

    // Unresolved asset: wait only while the elapsed time is still 0 —
    // the asset is resolved before the entity is looked at, so the
    // waiting survives even an absent entity.
    assert!(step_animation(None, true, &mut fields, 0, 500_000));
    assert!(step_animation(None, false, &mut fields, 0, 500_000));
    assert!(!step_animation(None, true, &mut fields, 1, 500_000));
    assert!(!step_animation(None, false, &mut fields, 1, 500_000));
    assert_eq!(fields, vec![0]);

    // Resolved: evaluate at last_time + delta and keep playing.
    assert!(step_animation(Some(&anim), true, &mut fields, 0, 500_000));
    assert_eq!(fields, vec![5_000_000]);

    // Reaching the duration finishes the entry.
    assert!(!step_animation(Some(&anim), true, &mut fields, 1_500_000, 500_000));
    assert_eq!(fields, vec![0]);
}

#[test]
fn unresolved_entry_waits_even_while_its_entity_is_absent() {
    let mut mgr = AnimationManager::new();
    let empty_assets = AssetStore::new();
    let mut empty_world = EntityStore::new();

    // The asset is resolved before the entity is looked at: an entry
    // still waiting for its asset (elapsed time 0) survives ticks in
    // which its entity does not exist yet.
    mgr.play(7, 100);
    tick(&mut mgr, &empty_assets, &mut empty_world, 500_000);
    assert_eq!(mgr.get_animation_status(7, 100), AnimationStatus::Playing(0));

    // Once the asset resolves, the absent entity completes the entry.
    let mut assets = AssetStore::new();
    assets.insert(7, ramp_animation());
    tick(&mut mgr, &assets, &mut empty_world, 500_000);
    assert_eq!(mgr.get_animation_status(7, 100), AnimationStatus::NotPlaying);
}
