use animation_core::interp::{lerp_fixed, slerp_plan, SlerpPlan, FIXED_ONE, SLERP_DOT_THRESHOLD};
use animation_core::schedule::{Animation, AnimationError};
use animation_core::track::{update_component, InterpKind, Keyframe, LerpTrack, StepTrack, Track};
use animation_core::TrackState;

fn kf(time: i64, value: i64) -> Keyframe {
    Keyframe { time, value }
}

fn ramp() -> Vec<Keyframe> {
    // 0 -> 10 over the first unit, back to 0 over the second.
    vec![kf(0, 0), kf(1_000_000, 10_000_000), kf(2_000_000, 0)]
}

#[test]
fn lerp_endpoints_are_exact() {
    assert_eq!(lerp_fixed(3, 9, 0, 0, 10), 3);
    assert_eq!(lerp_fixed(3, 9, 10, 0, 10), 9);
    assert_eq!(lerp_fixed(-7, 5, 100, 100, 350), -7);
    assert_eq!(lerp_fixed(-7, 5, 350, 100, 350), 5);
}

#[test]
fn lerp_midpoint() {
    assert_eq!(lerp_fixed(0, 10_000_000, 500_000, 0, 1_000_000), 5_000_000);
    assert_eq!(lerp_fixed(10_000_000, 0, 1_500_000, 1_000_000, 2_000_000), 5_000_000);
}

#[test]
fn lerp_rounds_toward_negative_infinity() {
    // 10 + (0 - 10) * 1/3 = 6.66.. rounds down to 6
    assert_eq!(lerp_fixed(10, 0, 1, 0, 3), 6);
    // 0 + (10 - 0) * 1/3 = 3.33.. rounds down to 3
    assert_eq!(lerp_fixed(0, 10, 1, 0, 3), 3);
    // 0 + (-10 - 0) * 1/3 = -3.33.. rounds down to -4
    assert_eq!(lerp_fixed(0, -10, 1, 0, 3), -4);
}

#[test]
fn lerp_extrapolates_outside_the_segment() {
    // t = 2: a + (b - a) * 2
    assert_eq!(lerp_fixed(0, 10, 20, 0, 10), 20);
    // t = -1: a - (b - a)
    assert_eq!(lerp_fixed(0, 10, -10, 0, 10), -10);
    assert_eq!(lerp_fixed(5, -5, 30, 10, 20), -15);
}

#[test]
fn lerp_extreme_values_do_not_overflow() {
    assert_eq!(lerp_fixed(i64::MIN, i64::MAX, 0, 0, 1), i64::MIN);
    assert_eq!(lerp_fixed(i64::MIN, i64::MAX, 1, 0, 1), i64::MAX);
    assert_eq!(lerp_fixed(i64::MAX, i64::MIN, i64::MAX - 1, i64::MIN + 1, i64::MAX - 1), i64::MIN);
}

#[test]
fn track_before_first_keyframe_is_playing_and_leaves_target() {
    let kfs = vec![kf(100, 7), kf(200, 9)];
    let mut target: i64 = 42;
    let state = update_component(InterpKind::Linear, &kfs, 50, &mut target);
    assert!(matches!(state, TrackState::Playing));
    assert_eq!(target, 42);
    let state = update_component(InterpKind::Step, &kfs, 99, &mut target);
    assert!(matches!(state, TrackState::Playing));
    assert_eq!(target, 42);
}

#[test]
fn track_at_or_past_last_keyframe_is_finished_with_last_value() {
    let kfs = ramp();
    let mut target: i64 = 123;
    let state = update_component(InterpKind::Linear, &kfs, 2_000_000, &mut target);
    assert!(matches!(state, TrackState::Finished));
    assert_eq!(target, 0);
    target = 123;
    let state = update_component(InterpKind::Linear, &kfs, 99_000_000, &mut target);
    assert!(matches!(state, TrackState::Finished));
    assert_eq!(target, 0);
}

#[test]
fn track_empty_sequence_is_finished_and_leaves_target() {
    let kfs: Vec<Keyframe> = Vec::new();
    let mut target: i64 = 5;
    let state = update_component(InterpKind::Linear, &kfs, 0, &mut target);
    assert!(matches!(state, TrackState::Finished));
    assert_eq!(target, 5);
}

#[test]
fn track_interpolates_between_surrounding_keyframes() {
    let kfs = ramp();
    let mut target: i64 = 0;
    let state = update_component(InterpKind::Linear, &kfs, 500_000, &mut target);
    assert!(matches!(state, TrackState::Playing));
    assert_eq!(target, 5_000_000);
    let state = update_component(InterpKind::Linear, &kfs, 1_000_000, &mut target);
    assert!(matches!(state, TrackState::Playing));
    assert_eq!(target, 10_000_000);
    let state = update_component(InterpKind::Linear, &kfs, 1_500_000, &mut target);
    assert!(matches!(state, TrackState::Playing));
    assert_eq!(target, 5_000_000);
}

#[test]
fn step_track_holds_earlier_keyframe() {
    let kfs = ramp();
    let mut target: i64 = -1;
    let state = update_component(InterpKind::Step, &kfs, 1_500_000, &mut target);
    assert!(matches!(state, TrackState::Playing));
    assert_eq!(target, 10_000_000);
    let state = update_component(InterpKind::Step, &kfs, 999_999, &mut target);
    assert!(matches!(state, TrackState::Playing));
    assert_eq!(target, 0);
}

#[test]
fn track_method_matches_free_function() {
    let track = Track::Lerp(LerpTrack { field: 0, keyframes: ramp() });
    let mut a: i64 = 0;
    let state = track.update_component(500_000, &mut a);
    assert!(matches!(state, TrackState::Playing));
    assert_eq!(a, 5_000_000);
    assert_eq!(track.field(), 0);

    let track = Track::Step(StepTrack { field: 3, keyframes: ramp() });
    let mut b: i64 = 0;
    track.update_component(500_000, &mut b);
    assert_eq!(b, 0);
    assert_eq!(track.field(), 3);
}

#[test]
fn animation_new_accepts_increasing_keyframes() {
    let tracks = vec![
        Track::Lerp(LerpTrack { field: 0, keyframes: ramp() }),
        Track::Step(StepTrack { field: 1, keyframes: vec![kf(5, 1)] }),
        Track::Lerp(LerpTrack { field: 2, keyframes: Vec::new() }),
    ];
    let anim = Animation::new(tracks, 2_000_000);
    assert!(anim.is_ok());
    let anim = anim.unwrap();
    assert_eq!(anim.duration, 2_000_000);
    assert_eq!(anim.tracks.len(), 3);
}

#[test]
fn animation_new_rejects_non_increasing_keyframes() {
    let tracks = vec![
        Track::Lerp(LerpTrack { field: 0, keyframes: ramp() }),
        Track::Step(StepTrack { field: 1, keyframes: vec![kf(5, 1), kf(5, 2)] }),
    ];
    match Animation::new(tracks, 1) {
        Err(AnimationError::KeyframesNotStrictlyIncreasing { track }) => assert_eq!(track, 1),
        Ok(_) => panic!("out-of-order keyframes must be rejected"),
    }
}

#[test]
fn animation_new_rejects_decreasing_keyframes() {
    let tracks = vec![Track::Lerp(LerpTrack { field: 0, keyframes: vec![kf(9, 0), kf(3, 1)] })];
    assert!(matches!(
        Animation::new(tracks, 1),
        Err(AnimationError::KeyframesNotStrictlyIncreasing { track: 0 })
    ));
}

#[test]
fn slerp_plan_negates_for_negative_dot() {
    let dot = -300_000;
    match slerp_plan(dot) {
        SlerpPlan::Spherical { negate_b, dot_clamped } => {
            assert!(negate_b);
            assert_eq!(dot_clamped, 300_000);
        },
        _ => panic!("moderate dot must stay spherical"),
    }
    // Shorter-arc equivalence: the plan for a negative dot is the plan
    // for the negated dot, with the second operand marked for negation.
    match slerp_plan(-dot) {
        SlerpPlan::Spherical { negate_b, dot_clamped } => {
            assert!(!negate_b);
            assert_eq!(dot_clamped, 300_000);
        },
        _ => panic!("moderate dot must stay spherical"),
    }
}

#[test]
fn slerp_plan_falls_back_to_linear_near_parallel() {
    assert!(matches!(
        slerp_plan(SLERP_DOT_THRESHOLD + 1),
        SlerpPlan::Linear { negate_b: false }
    ));
    assert!(matches!(
        slerp_plan(-(SLERP_DOT_THRESHOLD + 1)),
        SlerpPlan::Linear { negate_b: true }
    ));
    assert!(matches!(
        slerp_plan(SLERP_DOT_THRESHOLD),
        SlerpPlan::Spherical { negate_b: false, dot_clamped: SLERP_DOT_THRESHOLD }
    ));
    assert!(matches!(
        slerp_plan(FIXED_ONE + 1),
        SlerpPlan::Linear { negate_b: false }
    ));
}
