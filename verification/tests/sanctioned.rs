use overmatch::ballistics::sanctioned::{
    catch_up_sanctioned_chain, elapsed_ticks, seed_velocity, CombatantId, SanctionedBounce, SanctionedBounceInsert,
    SanctionedCatchUp, SanctionedCatchUpReject, SanctionedShots, SanctionedTerminal, ShotId,
    MAX_COSMETIC_CATCH_UP_TICKS, MAX_SHOTS,
};
use overmatch::float::F32;
use overmatch::vector::Vec3;

fn num(x: f32) -> F32 {
    F32::from_bits(x.to_bits())
}

fn vec3(x: f32, y: f32, z: f32) -> Vec3 {
    Vec3 { x: num(x), y: num(y), z: num(z) }
}

fn floats(v: Vec3) -> [f32; 3] {
    [f32::from_bits(v.x.to_bits()), f32::from_bits(v.y.to_bits()), f32::from_bits(v.z.to_bits())]
}

fn shot_id(combatant: u64, weapon: u8, fire_tick: u32) -> ShotId {
    ShotId { combatant: CombatantId { id: combatant }, weapon, fire_tick }
}

fn bounce(origin: Vec3, direction: Vec3, speed: f32, bounce_tick: u32, sequence: u32) -> SanctionedBounce {
    SanctionedBounce { origin, direction, speed: num(speed), bounce_tick, sequence, victim: None }
}

fn simple(bounce_tick: u32, sequence: u32) -> SanctionedBounce {
    bounce(vec3(0.0, 0.0, 0.0), vec3(1.0, 0.0, 0.0), 500.0, bounce_tick, sequence)
}

/// Flies the stretches in straight lines, without drag.
fn fly(plan: &SanctionedCatchUp, fallback: Vec3, dt: f32) -> (Vec<Vec<[f32; 3]>>, Vec3) {
    let mut carried = fallback;
    let mut all = Vec::new();
    let mut end = vec3(0.0, 0.0, 0.0);
    for segment in &plan.segments {
        carried = seed_velocity(segment.bounce, carried);
        let mut position = floats(segment.bounce.origin);
        let velocity = floats(carried);
        let mut points = vec![position];
        for _ in 0..segment.steps {
            for axis in 0..3 {
                position[axis] += velocity[axis] * dt;
            }
            points.push(position);
        }
        end = vec3(position[0], position[1], position[2]);
        all.push(points);
    }
    (all, end)
}

#[test]
fn sanctioned_outcome_buffer_holds_the_derived_thirty_player_automatic_horizon() {
    const COMBATANTS: u64 = 30;
    const WEAPONS: u8 = 2;
    const SHOTS_PER_WEAPON: u32 = 38;
    let mut sanctioned = SanctionedShots::default();
    for combatant in 1..=COMBATANTS {
        for weapon in 0..WEAPONS {
            for fire_tick in 0..SHOTS_PER_WEAPON {
                assert_eq!(
                    sanctioned.insert(shot_id(combatant, weapon, fire_tick), simple(fire_tick, 0)),
                    SanctionedBounceInsert::Inserted
                );
            }
        }
    }
    let expected = COMBATANTS as usize * WEAPONS as usize * SHOTS_PER_WEAPON as usize;
    assert_eq!(
        sanctioned.len(),
        expected,
        "the configured outcome lifetime must not evict a valid 30-player automatic-fire horizon"
    );
}

#[test]
fn sanctioned_outcome_capacity_evicts_the_stable_highest_shot_id_on_an_age_tie() {
    let mut sanctioned = SanctionedShots::default();
    for fire_tick in 0..MAX_SHOTS as u32 {
        assert_eq!(
            sanctioned.insert(shot_id(1, 0, fire_tick), simple(fire_tick, 0)),
            SanctionedBounceInsert::Inserted
        );
    }
    let incoming = shot_id(1, 0, MAX_SHOTS as u32);
    assert_eq!(
        sanctioned.insert(incoming, simple(incoming.fire_tick, 0)),
        SanctionedBounceInsert::Inserted
    );
    assert!(sanctioned.has_shot(shot_id(1, 0, 0)), "the lowest stable tie-break key remains");
    assert!(sanctioned.has_shot(incoming), "the new fact is retained");
    assert!(
        !sanctioned.has_shot(shot_id(1, 0, MAX_SHOTS as u32 - 1)),
        "the previous highest stable tie-break key is evicted"
    );
}

#[test]
fn sanctioned_outcome_rejects_distinct_bounces_beyond_the_per_shot_bound() {
    let shot = shot_id(1, 0, 100);
    let mut sanctioned = SanctionedShots::default();
    for sequence in 0..MAX_COSMETIC_CATCH_UP_TICKS {
        assert_eq!(sanctioned.insert(shot, simple(100 + sequence, sequence)), SanctionedBounceInsert::Inserted);
    }
    assert_eq!(
        sanctioned.insert(shot, simple(100 + MAX_COSMETIC_CATCH_UP_TICKS, MAX_COSMETIC_CATCH_UP_TICKS)),
        SanctionedBounceInsert::Capacity,
        "the first distinct bounce beyond the reconstruction bound is rejected"
    );
    let held = (0..=MAX_COSMETIC_CATCH_UP_TICKS as usize).filter(|n| sanctioned.next(shot, *n).is_some()).count();
    assert_eq!(held, MAX_COSMETIC_CATCH_UP_TICKS as usize);
    assert!(sanctioned.next(shot, MAX_COSMETIC_CATCH_UP_TICKS as usize).is_none());
}

#[test]
fn sanctioned_chain_stops_each_segment_before_the_next_known_outcome() {
    let shot = shot_id(1, 0, 90);
    let first = bounce(vec3(0.0, 0.0, 0.0), vec3(1.0, 0.0, 0.0), 10.0, 100, 0);
    let second = bounce(vec3(3.5, 0.0, 0.0), vec3(0.0, 1.0, 0.0), 10.0, 104, 1);
    let terminal = SanctionedTerminal {
        position: vec3(3.5, 3.5, 0.0),
        normal: vec3(0.0, -1.0, 0.0),
        penetrated: true,
        impact_tick: 108,
        after_bounces: 2,
        victim: None,
    };
    let mut sanctioned = SanctionedShots::default();
    sanctioned.insert(shot, first);
    sanctioned.insert(shot, second);
    sanctioned.insert_terminal(shot, terminal);

    let caught_up = catch_up_sanctioned_chain(shot, 0, first, Some(110), 0, &sanctioned)
        .expect("the short authority chain is reconstructible");
    let (points, end) = fly(&caught_up, vec3(10.0, 0.0, 0.0), 0.1);

    assert_eq!(caught_up.segments.len(), 2, "both bounces partition the catch-up");
    assert_eq!(caught_up.segments[0].bounce.sequence, 0);
    assert_eq!(caught_up.segments[1].bounce.sequence, 1);
    assert_eq!(points[0].len(), 4, "origin plus three complete ticks before the tick-104 bounce");
    assert!(
        points[0].iter().all(|point| point[0] < 3.5),
        "bounce 0 free-flight never crosses the already-known bounce 1 origin"
    );
    assert!(
        points[1].iter().all(|point| point[1] < 3.5),
        "bounce 1 free-flight never crosses the already-known terminal"
    );
    assert_eq!(caught_up.terminal.map(|terminal| terminal.position), Some(terminal.position));
    assert_eq!(caught_up.position(end), terminal.position);
}

#[test]
fn sanctioned_chain_rejects_an_implausibly_late_first_bounce() {
    let shot = shot_id(1, 0, 90);
    let first = bounce(vec3(0.0, 0.0, 0.0), vec3(1.0, 0.0, 0.0), 10.0, 100, 0);
    let sanctioned = SanctionedShots::default();
    let caught_up = catch_up_sanctioned_chain(
        shot,
        0,
        first,
        Some(first.bounce_tick + MAX_COSMETIC_CATCH_UP_TICKS + 1),
        0,
        &sanctioned,
    );
    assert!(
        matches!(caught_up, Err(SanctionedCatchUpReject::IntervalBeyondCosmeticHorizon)),
        "a catch-up beyond the configured cosmetic horizon must reject instead of drawing a partial trajectory"
    );
}

#[test]
fn sanctioned_chain_rejects_an_implausible_inter_outcome_gap() {
    let shot = shot_id(1, 0, 90);
    let first = bounce(vec3(0.0, 0.0, 0.0), vec3(1.0, 0.0, 0.0), 10.0, 100, 0);
    let second = bounce(
        vec3(1.0, 0.0, 0.0),
        vec3(0.0, 1.0, 0.0),
        10.0,
        first.bounce_tick + MAX_COSMETIC_CATCH_UP_TICKS + 1,
        1,
    );
    let mut sanctioned = SanctionedShots::default();
    sanctioned.insert(shot, first);
    sanctioned.insert(shot, second);
    assert!(
        matches!(
            catch_up_sanctioned_chain(shot, 0, first, Some(second.bounce_tick), 0, &sanctioned),
            Err(SanctionedCatchUpReject::IntervalBeyondCosmeticHorizon)
        ),
        "the chain must not draw its first segment when the next sanctioned boundary is implausible"
    );
}

#[test]
fn sanctioned_chain_rejects_cumulative_multi_segment_work_beyond_its_horizon() {
    let shot = shot_id(1, 0, 90);
    let first = bounce(vec3(0.0, 0.0, 0.0), vec3(1.0, 0.0, 0.0), 10.0, 100, 0);
    let second = bounce(
        vec3(1.0, 0.0, 0.0),
        vec3(0.0, 1.0, 0.0),
        10.0,
        first.bounce_tick + MAX_COSMETIC_CATCH_UP_TICKS,
        1,
    );
    let terminal = SanctionedTerminal {
        position: vec3(1.0, 1.0, 1.0),
        normal: vec3(0.0, 1.0, 0.0),
        penetrated: false,
        impact_tick: second.bounce_tick + MAX_COSMETIC_CATCH_UP_TICKS,
        after_bounces: 2,
        victim: None,
    };
    let mut sanctioned = SanctionedShots::default();
    sanctioned.insert(shot, first);
    sanctioned.insert(shot, second);
    sanctioned.insert_terminal(shot, terminal);
    assert!(
        matches!(
            catch_up_sanctioned_chain(shot, 0, first, Some(terminal.impact_tick), 0, &sanctioned),
            Err(SanctionedCatchUpReject::ChainBeyondCosmeticHorizon)
        ),
        "the complete chain must fail closed once its combined integration exceeds the horizon"
    );
}

#[test]
fn sanctioned_chain_accepts_a_small_wraparound_interval() {
    let shot = shot_id(1, 0, u32::MAX - 3);
    let first = bounce(vec3(0.0, 0.0, 0.0), vec3(1.0, 0.0, 0.0), 10.0, u32::MAX - 2, 0);
    let caught_up = catch_up_sanctioned_chain(shot, 0, first, Some(3), 0, &SanctionedShots::default())
        .expect("a six-tick wrapping interval is inside the cosmetic horizon");
    let (points, end) = fly(&caught_up, vec3(10.0, 0.0, 0.0), 0.1);
    assert_eq!(points[0].len(), 7, "origin plus six integrated ticks");
    assert_eq!(caught_up.position(end), end);
}

#[test]
fn the_same_bounce_again_changes_nothing() {
    let shot = shot_id(2, 1, 7);
    let mut sanctioned = SanctionedShots::new();
    assert_eq!(sanctioned.insert(shot, simple(8, 0)), SanctionedBounceInsert::Inserted);
    assert_eq!(sanctioned.insert(shot, simple(9, 0)), SanctionedBounceInsert::Duplicate);
    assert_eq!(sanctioned.next(shot, 0).map(|b| b.bounce_tick), Some(8));
    assert_eq!(sanctioned.len(), 1);
}

#[test]
fn the_first_terminal_holds_and_waits_for_its_bounces() {
    let shot = shot_id(2, 1, 7);
    let terminal = |impact_tick: u32, after_bounces: u32| SanctionedTerminal {
        position: vec3(0.0, 0.0, 0.0),
        normal: vec3(0.0, 1.0, 0.0),
        penetrated: false,
        impact_tick,
        after_bounces,
        victim: Some(CombatantId { id: 5 }),
    };
    let mut sanctioned = SanctionedShots::new();
    assert!(sanctioned.insert_terminal(shot, terminal(20, 1)));
    assert!(!sanctioned.insert_terminal(shot, terminal(21, 0)));
    assert!(sanctioned.terminal(shot, 0).is_none());
    assert_eq!(sanctioned.terminal(shot, 1).map(|t| t.impact_tick), Some(20));
}

#[test]
fn outcomes_expire_past_three_seconds() {
    let mut sanctioned = SanctionedShots::new();
    let shot = shot_id(1, 0, 1);
    let other = shot_id(1, 0, 2);
    sanctioned.insert(shot, simple(1, 0));
    sanctioned.age(num(2.0));
    sanctioned.insert(other, simple(1, 0));
    sanctioned.age(num(1.0));
    assert!(sanctioned.has_shot(shot), "three seconds exactly is still held");
    sanctioned.age(num(0.5));
    assert!(!sanctioned.has_shot(shot));
    assert!(sanctioned.has_shot(other));
}

#[test]
fn a_terminal_on_the_tick_of_a_bounce_comes_first() {
    let shot = shot_id(1, 0, 90);
    let first = simple(100, 0);
    let terminal = SanctionedTerminal {
        position: vec3(1.0, 1.0, 1.0),
        normal: vec3(0.0, 1.0, 0.0),
        penetrated: false,
        impact_tick: 104,
        after_bounces: 1,
        victim: None,
    };
    let mut sanctioned = SanctionedShots::new();
    sanctioned.insert(shot, first);
    sanctioned.insert(shot, simple(104, 1));
    sanctioned.insert_terminal(shot, terminal);
    let caught_up = catch_up_sanctioned_chain(shot, 0, first, Some(110), 0, &sanctioned).unwrap();
    assert_eq!(caught_up.segments.len(), 1);
    assert_eq!(caught_up.segments[0].steps, 3);
    assert!(caught_up.terminal.is_some());
}

#[test]
fn without_a_present_the_given_age_is_flown() {
    let first = simple(100, 0);
    let caught_up = catch_up_sanctioned_chain(shot_id(1, 0, 90), 0, first, None, 12, &SanctionedShots::new()).unwrap();
    assert_eq!(caught_up.segments[0].steps, 12);
}

#[test]
fn ticks_elapse_across_the_wrap_and_never_backwards() {
    assert_eq!(elapsed_ticks(10, 4), Some(6));
    assert_eq!(elapsed_ticks(3, u32::MAX - 2), Some(6));
    assert_eq!(elapsed_ticks(4, 10), None);
}

#[test]
fn a_direction_without_length_carries_the_velocity_on() {
    let still = bounce(vec3(0.0, 0.0, 0.0), vec3(0.0, 0.0, 0.0), 10.0, 1, 0);
    assert_eq!(floats(seed_velocity(still, vec3(1.0, 2.0, 3.0))), [1.0, 2.0, 3.0]);
    let aslant = bounce(vec3(0.0, 0.0, 0.0), vec3(3.0, 4.0, 0.0), 10.0, 1, 0);
    assert_eq!(floats(seed_velocity(aslant, vec3(1.0, 2.0, 3.0))), [6.0, 8.0, 0.0]);
}

#[test]
fn rejects_name_their_reason() {
    assert_eq!(
        SanctionedCatchUpReject::IntervalBeyondCosmeticHorizon.trace_reason(),
        "interval_beyond_cosmetic_horizon"
    );
    assert_eq!(
        SanctionedCatchUpReject::ChainBeyondCosmeticHorizon.trace_reason(),
        "chain_beyond_cosmetic_horizon"
    );
}
