//! What holds of every run: what is there twice never changes a cost.

use crate::ballistics::collect;
use crate::ballistics::collect::{Aabb, Corridor};
use crate::ballistics::fuzz::contract;
use crate::ballistics::fuzz::findings::Violation;
use crate::ballistics::fuzz::measure;
use crate::ballistics::fuzz::pass;
use crate::ballistics::fuzz::pass::{Gate, Observation, Tallied};
use crate::ballistics::fuzz::rays::{FuzzConfig, FuzzRay};
use crate::ballistics::fuzz::scene;
use crate::ballistics::fuzz::scene::{Scene, SceneCollider};
use crate::ballistics::resolve;
use crate::ballistics::resolve::CorridorRequest;
use crate::ballistics::walk::copies;
use crate::ballistics::walk::disc::DiscCorridor;
use crate::ballistics::walk::laws;
use crate::ballistics::walk::locality;
use crate::ballistics::walk::ray;
use crate::ballistics::walk::ray::RayWalk;
use crate::ballistics::walk::spans;
use crate::ballistics::walk::table;
use crate::ballistics::walk::table::VolumeTable;
use crate::ballistics::walk::vocabulary::{Entity, FaceHit, PrimitiveKey, RayCorridor, WalkError, WalkLaws};
use crate::float::F32;
use vstd::prelude::*;

verus! {

/// The colliders are told apart: a primitive is of one volume, and the spare volume is nobody's.
pub open spec fn is_parted(scene: Scene) -> bool {
    &&& forall|i: int, j: int|
        0 <= i < scene.colliders@.len() && 0 <= j < scene.colliders@.len() && (#[trigger] scene.colliders@[i]).primitive
            == (#[trigger] scene.colliders@[j]).primitive ==> scene.colliders@[i].node == scene.colliders@[j].node
    &&& forall|i: int| 0 <= i < scene.colliders@.len() ==> (#[trigger] scene.colliders@[i]).node != scene.spare_volume
}

/// The hit is of the collider.
spec fn is_hit_of(hit: FaceHit, collider: SceneCollider) -> bool {
    hit.volume == collider.node && hit.primitive == collider.primitive
}

/// Every hit is of some collider.
spec fn all_owned(hits: Seq<FaceHit>, colliders: Seq<SceneCollider>) -> bool {
    forall|i: int| 0 <= i < hits.len() ==> is_owned(#[trigger] hits[i], colliders)
}

spec fn is_owned(hit: FaceHit, colliders: Seq<SceneCollider>) -> bool {
    exists|k: int| 0 <= k < colliders.len() && is_hit_of(hit, #[trigger] colliders[k])
}

proof fn lemma_candidate(colliders: Seq<SceneCollider>, aabb: Aabb, n: int, j: int) -> (k: int)
    requires
        n <= colliders.len(),
        0 <= j < scene::candidates_upto(colliders, aabb, n).len(),
    ensures
        0 <= k < n,
        scene::candidates_upto(colliders, aabb, n)[j].node == colliders[k].node,
        scene::candidates_upto(colliders, aabb, n)[j].primitive == colliders[k].primitive,
    decreases n,
{
    let earlier = scene::candidates_upto(colliders, aabb, n - 1);
    if n > 0 && j < earlier.len() {
        lemma_candidate(colliders, aabb, n - 1, j)
    } else {
        n - 1
    }
}

/// The hits of a probe are of its colliders.
proof fn lemma_hits_owned(corridor: DiscCorridor, volumes: VolumeTable, scene: Scene, ray: FuzzRay)
    requires
        scene::are_parts(Ok((corridor, volumes)), scene, ray, F32::zero()),
    ensures
        all_owned(corridor.samples@[0].hits@, scene.colliders@),
{
    let frame = scene::frame_of(ray)->Some_0;
    let request = choose|request: CorridorRequest| #[trigger]
        scene::is_probe_request(request, ray, frame, F32::zero()) && resolve::is_corridor(
            Ok(corridor),
            request,
            scene.ring@,
            scene::answers_of(scene, request),
            scene.laws,
        );
    let sample = corridor.samples@[0];
    assert(resolve::is_sample(
        sample,
        request,
        resolve::offset_of(request, scene.ring@, 0),
        resolve::seeded_at(request, 0),
        scene.laws,
        scene::answers_of(scene, request)[0],
    ));
    let collected = Corridor {
        anchor: request.anchor,
        origin: request.origin.sum(resolve::offset_of(request, scene.ring@, 0)),
        axis: request.axis,
        length: request.length,
        seeded: &sample.initial_presence,
        laws: &scene.laws,
    };
    let aabb = collect::swept(request.anchor.sum(request.origin), request.axis, request.length, request.radius);
    let candidates = scene::answers_of(scene, request)[0];
    assert forall|i: int| 0 <= i < sample.hits@.len() implies is_owned(#[trigger] sample.hits@[i], scene.colliders@) by {
        let j = collect::lemma_collected_owned(collected, candidates, candidates.len() as int, i);
        let k = lemma_candidate(scene.colliders@, aabb, scene.colliders@.len() as int, j);
        assert(is_hit_of(sample.hits@[i], scene.colliders@[k]));
    }
}

proof fn lemma_copies(hits: Seq<FaceHit>, of: PrimitiveKey, scene: Scene, n: int)
    requires
        0 <= n <= hits.len(),
        forall|i: int| 0 <= i < hits.len() && (#[trigger] hits[i]).primitive == of.primitive ==> hits[i].volume == of.volume,
    ensures
        pass::copies_of(hits, of.primitive, scene, n) == copies::copies(
            hits.take(n),
            of,
            (PrimitiveKey { volume: scene.spare_volume, primitive: scene.spare_primitive }),
        ),
    decreases n,
{
    reveal(Seq::filter);
    let onto = PrimitiveKey { volume: scene.spare_volume, primitive: scene.spare_primitive };
    let keep = locality::own_hit(copies::shell_of(of));
    if n > 0 {
        lemma_copies(hits, of, scene, n - 1);
        let upto = hits.take(n);
        assert(upto.drop_last() =~= hits.take(n - 1));
        assert(upto.last() == hits[n - 1]);
        assert(keep(hits[n - 1]) == (hits[n - 1].primitive == of.primitive));
        assert(pass::copies_of(hits, of.primitive, scene, n) =~= copies::copies(upto, of, onto));
    } else {
        assert(pass::copies_of(hits, of.primitive, scene, n) =~= copies::copies(hits.take(n), of, onto));
    }
}

/// The cost of a walk is a number.
proof fn lemma_cost_is_a_number(
    walk: RayWalk,
    corridor: RayCorridor,
    laws: WalkLaws,
    rows: Seq<(Entity, F32)>,
    factors: Map<Entity, F32>,
)
    requires
        ray::is_walk(walk, corridor, laws, rows, factors),
        ray::has_form(corridor),
        table::ordered(rows),
    ensures
        !walk.cost.is_nan(),
{
    let charted = walk.spans@;
    assert forall|i: int| 0 <= i < charted.len() implies {
        let span = #[trigger] charted[i];
        &&& span.start.below(span.end)
        &&& span.end.difference(span.start).finite()
        &&& span.factor.finite()
        &&& !span.factor.negative()
    } by {
        laws::lemma_proper(walk, corridor, laws, rows, factors, i);
    }
    assert(measure::is_proper(charted));
    measure::lemma_cost(charted, charted.len() as int);
    spans::cost_of(charted, charted.len() as int).lemma_halved_number();
}

/// On a corridor whose primitives are told apart, the copy at the volume's own factor costs the
/// same.
proof fn lemma_copy_costs_the_same(gate: Gate, base: RayCorridor, scene: Scene, volumes: VolumeTable)
    requires
        pass::is_gate_on(Some(gate), base, scene, volumes),
        table::is_listed(volumes),
        is_parted(scene),
        all_owned(base.hits@, scene.colliders@),
    ensures
        gate.same matches Some(after) ==> after.equals(gate.before),
{
    if gate.same is Some {
        let after = gate.same->Some_0;
        let rows = volumes.spec_rows();
        let factors = volumes@;
        let before = choose|before: Option<F32>| #[trigger]
            pass::is_walked_cost(before, base, scene.laws, volumes) && before == Some(gate.before);
        let walked = choose|walked: Result<RayWalk, WalkError>| #[trigger]
            ray::is_outcome(walked, 0, base, scene.laws, rows, factors) && before == match walked {
                Ok(walk) => Some(walk.cost),
                Err(_) => None,
            };
        let wa = walked->Ok_0;
        let seed = base.hits@[0];
        let of = PrimitiveKey { volume: seed.volume, primitive: seed.primitive };
        let onto = PrimitiveKey { volume: scene.spare_volume, primitive: scene.spare_primitive };
        let factor = factors[of.volume];
        table::lemma_tabled(rows);
        assert(table::row_of(rows, of.volume));
        let r = choose|r: int| 0 <= r < rows.len() && (#[trigger] rows[r]).0 == of.volume;
        assert(rows[r].1 == factor);
        factor.lemma_product_one();
        let (doubled, tabled) = choose|doubled: RayCorridor, tabled: Result<VolumeTable, WalkError>|
            {
                &&& #[trigger] pass::is_doubled(doubled, base, scene)
                &&& #[trigger] table::is_table(tabled, rows.push((scene.spare_volume, factor.product(F32::one()))))
                &&& match tabled {
                    Ok(more) => pass::is_walked_cost(gate.same, doubled, scene.laws, more),
                    Err(_) => gate.same is None,
                }
            };
        let more = tabled->Ok_0;
        let again = choose|walked: Result<RayWalk, WalkError>| #[trigger]
            ray::is_outcome(walked, 0, doubled, scene.laws, more.spec_rows(), more@) && gate.same == match walked {
                Ok(walk) => Some(walk.cost),
                Err(_) => None,
            };
        let wb = again->Ok_0;
        // the table
        let entries = rows.push((scene.spare_volume, factor));
        assert(entries.drop_last() =~= rows);
        F32::zero().lemma_nonnegative();
        factor.lemma_nonnegative();
        assert(table::canonical_factor(factor) == factor);
        assert(more@ == factors.insert(onto.volume, factor));
        // the corridor
        assert(is_owned(base.hits@[0], scene.colliders@));
        assert forall|i: int| 0 <= i < base.hits@.len() implies (#[trigger] base.hits@[i]).volume != onto.volume && (
        base.hits@[i].primitive == of.primitive ==> base.hits@[i].volume == of.volume) by {
            assert(is_owned(base.hits@[i], scene.colliders@));
        }
        lemma_copies(base.hits@, of, scene, base.hits@.len() as int);
        assert(base.hits@.take(base.hits@.len() as int) =~= base.hits@);
        assert(copies::is_copied(base, doubled, of, onto));
        copies::lemma_copy_is_free(
            wa,
            wb,
            base,
            doubled,
            of,
            onto,
            scene.laws,
            rows,
            factors,
            more.spec_rows(),
            more@,
        );
        lemma_cost_is_a_number(wa, base, scene.laws, rows, factors);
    }
}

/// No violation so far is of a copy that changed a cost.
pub open spec fn copies_hold(violations: Seq<Violation>) -> bool {
    forall|i: int| 0 <= i < violations.len() ==> !((#[trigger] violations[i]).kind is DuplicationChangedCost)
}

proof fn lemma_gate_holds(state: Tallied, index: u64, gate: Option<Gate>, scene: Scene, ray: FuzzRay)
    requires
        copies_hold(state.violations),
        pass::is_gate(gate, scene, ray),
        is_parted(scene),
    ensures
        copies_hold(pass::after_gate(state, index, gate).violations),
{
    if let Some(seen) = gate {
        let parts = choose|parts: Result<(DiscCorridor, VolumeTable), WalkError>| #[trigger]
            scene::are_parts(parts, scene, ray, F32::zero()) && match parts {
                Err(_) => gate is None,
                Ok((corridor, volumes)) => exists|base: RayCorridor| #[trigger]
                    pass::is_axis_corridor(base, corridor, ray) && pass::is_gate_on(gate, base, scene, volumes),
            };
        let (corridor, volumes) = parts->Ok_0;
        let base = choose|base: RayCorridor| #[trigger]
            pass::is_axis_corridor(base, corridor, ray) && pass::is_gate_on(gate, base, scene, volumes);
        lemma_hits_owned(corridor, volumes, scene, ray);
        lemma_copy_costs_the_same(seen, base, scene, volumes);
        let after = pass::after_gate(state, index, gate).violations;
        assert forall|i: int| 0 <= i < after.len() implies !((#[trigger] after[i]).kind is DuplicationChangedCost) by {
            if i < state.violations.len() {
                assert(after[i] == state.violations[i]);
            }
        }
    }
}

/// The checks of an axis walk keep it so.
proof fn lemma_checks_hold(
    state: Tallied,
    scene: Scene,
    config: FuzzConfig,
    index: u64,
    ray: FuzzRay,
    axis: RayWalk,
    gate: Option<Gate>,
)
    requires
        copies_hold(state.violations),
        is_parted(scene),
        pass::is_gated(config, index, axis) ==> pass::is_gate(gate, scene, ray),
    ensures
        copies_hold(pass::after_checks(state, config, index, axis, gate).violations),
{
    let counted = if pass::is_crossed(axis) {
        Tallied { crossing: pass::bumped(state.crossing), ..state }
    } else {
        state
    };
    let checked = pass::after_invariants(counted, index, pass::is_crossed(axis), axis);
    assert(copies_hold(checked.violations));
    if pass::is_gated(config, index, axis) {
        lemma_gate_holds(checked, index, gate, scene, ray);
    }
}

/// A further ray keeps it so.
proof fn lemma_ray_holds(
    state: Tallied,
    scene: Scene,
    config: FuzzConfig,
    index: u64,
    ray: FuzzRay,
    told: Observation,
)
    requires
        copies_hold(state.violations),
        is_parted(scene),
        pass::is_observed(told, state, scene, config, index, ray),
    ensures
        copies_hold(pass::after_ray(state, scene, config, index, ray, told).violations),
{
    if let Ok(walk) = told.probed {
        let axis = walk.walks@[0];
        assert(pass::is_gated(config, index, axis) ==> pass::is_gate(told.gate, scene, ray));
        lemma_checks_hold(state, scene, config, index, ray, axis, told.gate);
        contract::lemma_presences_keep(
            pass::after_checks(state, config, index, axis, told.gate),
            scene,
            measure::floor_of(config, scene.capabilities@),
            config.max_region_sweeps,
            index,
            ray,
            axis,
            told.sweeps,
            axis.presence@.len() as int,
        );
    }
}

/// In every run at a target whose colliders are told apart, whatever its seed: a copy at the
/// same factor never changes the cost of a ray.
pub proof fn law_copies_are_free_in_every_run(
    scene: Scene,
    config: FuzzConfig,
    turns: Seq<((F32, F32), (F32, F32))>,
    seen: Seq<Observation>,
    n: int,
)
    requires
        is_parted(scene),
        0 <= n <= seen.len(),
        pass::all_observed(scene, config, turns, seen, n),
    ensures
        copies_hold(pass::after_rays(scene, config, turns, seen, n).violations),
    decreases n,
{
    if n > 0 {
        law_copies_are_free_in_every_run(scene, config, turns, seen, n - 1);
        let told = seen[n - 1];
        lemma_ray_holds(
            pass::after_rays(scene, config, turns, seen, n - 1),
            scene,
            config,
            (n - 1) as u64,
            pass::ray_at(scene, config, turns, n - 1),
            told,
        );
    }
}

} // verus!
