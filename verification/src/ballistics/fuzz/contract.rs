//! What holds of every run: the invariants on steps are never broken.

use crate::ballistics::collect;
use crate::ballistics::collect::Corridor;
use crate::ballistics::fuzz::findings::Violation;
use crate::ballistics::fuzz::pass;
use crate::ballistics::fuzz::pass::{Gate, Observation, Tallied};
use crate::ballistics::fuzz::rays::{FuzzConfig, FuzzRay};
use crate::ballistics::fuzz::scene;
use crate::ballistics::fuzz::scene::Scene;
use crate::ballistics::resolve;
use crate::ballistics::resolve::CorridorRequest;
use crate::ballistics::walk::disc::{DiscCorridor, DiscWalk};
use crate::ballistics::walk::disc_walk;
use crate::ballistics::walk::ray::RayWalk;
use crate::ballistics::walk::reports;
use crate::ballistics::walk::table;
use crate::ballistics::walk::table::VolumeTable;
use crate::ballistics::walk::vocabulary::{Entity, FaceHit};
use crate::float::F32;
use vstd::prelude::*;

verus! {

/// Every volume of the scene has a positive factor.
pub open spec fn is_solid(factors: Seq<(Entity, F32)>) -> bool {
    forall|i: int| 0 <= i < factors.len() ==> F32::zero().below((#[trigger] factors[i]).1)
}

proof fn lemma_factor(factors: Seq<(Entity, F32)>, volume: Entity, i: int)
    requires
        is_solid(factors),
        0 <= i,
    ensures
        resolve::factor_from(factors, volume, i) matches Some(factor) ==> F32::zero().below(factor),
    decreases factors.len() - i,
{
    if i < factors.len() && factors[i].0 != volume {
        lemma_factor(factors, volume, i + 1);
    }
}

proof fn lemma_entries(named: Seq<Entity>, factors: Seq<(Entity, F32)>, n: int)
    requires
        is_solid(factors),
    ensures
        resolve::entries_of(named, factors, n) matches Ok(entries) ==> is_solid(entries),
    decreases n,
{
    if n > 0 {
        lemma_entries(named, factors, n - 1);
        lemma_factor(factors, named[n - 1], 0);
    }
}

proof fn lemma_tabled(entries: Seq<(Entity, F32)>)
    requires
        is_solid(entries),
    ensures
        forall|v: Entity| #[trigger] table::tabled(entries).contains_key(v) ==> F32::zero().below(table::tabled(entries)[v]),
    decreases entries.len(),
{
    if entries.len() > 0 {
        let shorter = entries.drop_last();
        assert forall|i: int| 0 <= i < shorter.len() implies F32::zero().below((#[trigger] shorter[i]).1) by {
            assert(shorter[i] == entries[i]);
        }
        lemma_tabled(shorter);
        let last = entries.last();
        assert(F32::zero().below(entries[entries.len() - 1].1));
        assert(table::canonical_factor(last.1) == last.1);
        assert forall|v: Entity| #[trigger] table::tabled(entries).contains_key(v) implies F32::zero().below(
            table::tabled(entries)[v],
        ) by {
            if v != last.0 {
                assert(table::tabled(shorter).contains_key(v));
            }
        }
    }
}

/// A ray that was walked reports steps exactly where it crossed something.
proof fn lemma_honest(walk: DiscWalk, corridor: DiscCorridor, volumes: VolumeTable, scene: Scene, ray: FuzzRay)
    requires
        is_solid(scene.factors@),
        scene::are_parts(Ok((corridor, volumes)), scene, ray, F32::zero()),
        disc_walk::is_disc_walk(walk, corridor, scene.laws, volumes.spec_rows(), volumes@),
        walk.walks@.len() > 0,
    ensures
        pass::is_crossed(walk.walks@[0]) <==> walk.walks@[0].events@.len() > 0,
{
    let axis = walk.walks@[0];
    let rows = volumes.spec_rows();
    let base = disc_walk::sample_corridor(corridor, 0);
    let named = resolve::mentions_upto(corridor.samples@, corridor.samples@.len() as int);
    lemma_entries(named, scene.factors@, named.len() as int);
    match resolve::entries_of(named, scene.factors@, named.len() as int) {
        Ok(entries) => {
            lemma_tabled(entries);
        },
        Err(_) => {},
    }
    table::lemma_tabled(rows);
    assert forall|i: int| 0 <= i < rows.len() implies F32::zero().below((#[trigger] rows[i]).1) by {
        assert(volumes@.contains_key(rows[i].0));
    }
    assert(disc_walk::walkable(corridor, scene.laws, volumes@, 0));
    if pass::is_crossed(axis) {
        let i = choose|i: int| 0 <= i < axis.presence@.len() && F32::zero().below((#[trigger] axis.presence@[i]).chord);
        reports::law_no_silent_penetration(axis, base, scene.laws, rows, volumes@, i);
    }
    if axis.events@.len() > 0 {
        let frame = scene::frame_of(ray)->Some_0;
        let request = choose|request: CorridorRequest| #[trigger]
            scene::is_probe_request(request, ray, frame, F32::zero()) && resolve::is_corridor(
                Ok(corridor),
                request,
                scene.ring@,
                scene::answers_of(scene, request),
                scene.laws,
            );
        let sample = corridor.samples@[0];
        assert(resolve::is_sample(
            sample,
            request,
            resolve::offset_of(request, scene.ring@, 0),
            resolve::seeded_at(request, 0),
            scene.laws,
            scene::answers_of(scene, request)[0],
        ));
        let collected = Corridor {
            anchor: request.anchor,
            origin: request.origin.sum(resolve::offset_of(request, scene.ring@, 0)),
            axis: request.axis,
            length: request.length,
            seeded: &sample.initial_presence,
            laws: &scene.laws,
        };
        let candidates = scene::answers_of(scene, request)[0];
        collect::lemma_collected_coarse(Seq::<FaceHit>::empty(), collected, candidates, candidates.len() as int);
        let i = reports::law_no_fabricated_event(axis, base, scene.laws, rows, volumes@);
        assert(F32::zero().below(axis.presence@[i].chord));
    }
}

/// The kind is of an invariant on steps.
pub open spec fn is_step_breach(violation: Violation) -> bool {
    violation.kind is SilentPenetration || violation.kind is FabricatedEvent
}

/// No violation so far is of an invariant on steps.
pub open spec fn steps_hold(violations: Seq<Violation>) -> bool {
    forall|i: int| 0 <= i < violations.len() ==> !is_step_breach(#[trigger] violations[i])
}

pub(crate) proof fn lemma_presences_keep(
    state: Tallied,
    scene: Scene,
    floor: F32,
    max_regions: usize,
    index: u64,
    ray: FuzzRay,
    axis: RayWalk,
    sweeps: Seq<Seq<crate::ballistics::fuzz::findings::RoundMeasurement>>,
    n: int,
)
    ensures
        pass::after_presences(state, scene, floor, max_regions, index, ray, axis, sweeps, n).violations
            == state.violations,
    decreases n,
{
    if n > 0 {
        lemma_presences_keep(state, scene, floor, max_regions, index, ray, axis, sweeps, n - 1);
    }
}

proof fn lemma_gate_keeps(state: Tallied, index: u64, gate: Option<Gate>)
    requires
        steps_hold(state.violations),
    ensures
        steps_hold(pass::after_gate(state, index, gate).violations),
{
    let after = pass::after_gate(state, index, gate).violations;
    assert forall|i: int| 0 <= i < after.len() implies !is_step_breach(#[trigger] after[i]) by {
        if i < state.violations.len() {
            assert(after[i] == state.violations[i]);
        }
    }
}

/// In every run at solid volumes, whatever its seed: no ray crosses material in silence,
/// and no ray reports a step out of nothing.
pub proof fn law_steps_hold_in_every_run(
    scene: Scene,
    config: FuzzConfig,
    turns: Seq<((F32, F32), (F32, F32))>,
    seen: Seq<Observation>,
    n: int,
)
    requires
        is_solid(scene.factors@),
        0 <= n <= seen.len(),
        pass::all_observed(scene, config, turns, seen, n),
    ensures
        steps_hold(pass::after_rays(scene, config, turns, seen, n).violations),
    decreases n,
{
    if n > 0 {
        law_steps_hold_in_every_run(scene, config, turns, seen, n - 1);
        let state = pass::after_rays(scene, config, turns, seen, n - 1);
        let ray = pass::ray_at(scene, config, turns, n - 1);
        let told = seen[n - 1];
        let index = (n - 1) as u64;
        assert(pass::is_observed(told, state, scene, config, index, ray));
        if let Ok(walk) = told.probed {
            let (corridor, volumes) = choose|corridor: DiscCorridor, volumes: VolumeTable|
                {
                    &&& #[trigger] scene::are_parts(Ok((corridor, volumes)), scene, ray, F32::zero())
                    &&& disc_walk::is_disc_walk(walk, corridor, scene.laws, volumes.spec_rows(), volumes@)
                    &&& walk.wf()
                    &&& walk.walks@.len() > 0
                };
            lemma_honest(walk, corridor, volumes, scene, ray);
            let axis = walk.walks@[0];
            let counted = if pass::is_crossed(axis) {
                Tallied { crossing: pass::bumped(state.crossing), ..state }
            } else {
                state
            };
            assert(pass::after_invariants(counted, index, pass::is_crossed(axis), axis) == counted);
            if pass::is_gated(config, index, axis) {
                lemma_gate_keeps(counted, index, told.gate);
            }
            lemma_presences_keep(
                pass::after_checks(state, config, index, axis, told.gate),
                scene,
                crate::ballistics::fuzz::measure::floor_of(config, scene.capabilities@),
                config.max_region_sweeps,
                index,
                ray,
                axis,
                told.sweeps,
                axis.presence@.len() as int,
            );
        }
    }
}

} // verus!
