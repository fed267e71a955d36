//! A run repeats: one configuration fired twice at one scene is reported twice the same.

use crate::ballistics::fuzz::corridors;
use crate::ballistics::fuzz::findings;
use crate::ballistics::fuzz::findings::{Report, RoundMeasurement, TargetKind, PROBE_COUNT};
use crate::ballistics::fuzz::measure;
use crate::ballistics::fuzz::pass;
use crate::ballistics::fuzz::pass::{Failed, Found, Gate, Observation, Tallied};
use crate::ballistics::fuzz::rays::{FuzzConfig, FuzzRay};
use crate::ballistics::fuzz::scene;
use crate::ballistics::fuzz::scene::Scene;
use crate::ballistics::resolve;
use crate::ballistics::resolve::CorridorRequest;
use crate::ballistics::walk::determined;
use crate::ballistics::walk::disc::{DiscCorridor, DiscFrame, DiscWalk};
use crate::ballistics::walk::one_disc;
use crate::ballistics::walk::presence::EntityPresence;
use crate::ballistics::walk::ray;
use crate::ballistics::walk::ray::RayWalk;
use crate::ballistics::walk::table;
use crate::ballistics::walk::table::VolumeTable;
use crate::ballistics::walk::vocabulary::{Entity, RayCorridor, WalkError, WalkLaws};
use crate::float::{F32, F64};
use crate::vector::Vec3;
use vstd::prelude::*;

verus! {

/// A probe's corridor has an axis sample.
proof fn lemma_has_axis(corridor: DiscCorridor, scene: Scene, ray: FuzzRay, frame: DiscFrame, radius: F32)
    requires
        scene::is_collected(Ok(corridor), scene, ray, frame, radius),
    ensures
        corridor.samples@.len() > 0,
        corridor.samples@[0].offset.equals(Vec3::zero()),
{
    let request = choose|request: CorridorRequest| #[trigger]
        scene::is_probe_request(request, ray, frame, radius) && resolve::is_corridor(
            Ok(corridor),
            request,
            scene.ring@,
            scene::answers_of(scene, request),
            scene.laws,
        );
    assert(resolve::is_sample(
        corridor.samples@[0],
        request,
        resolve::offset_of(request, scene.ring@, 0),
        resolve::seeded_at(request, 0),
        scene.laws,
        scene::answers_of(scene, request)[0],
    ));
    F32::zero().lemma_nonnegative();
}

/// The parts that a probe walked.
spec fn is_walked_from(
    result: Result<DiscWalk, WalkError>,
    scene: Scene,
    ray: FuzzRay,
    radius: F32,
    corridor: DiscCorridor,
    volumes: VolumeTable,
) -> bool {
    &&& scene::are_parts(Ok((corridor, volumes)), scene, ray, radius)
    &&& one_disc::is_disc_outcome(result, corridor, scene.laws, volumes.spec_rows(), volumes@)
}

proof fn lemma_probe_parts(result: Result<DiscWalk, WalkError>, scene: Scene, ray: FuzzRay, radius: F32)
    requires
        scene::is_probe(result, scene, ray, radius),
    ensures
        (result matches Err(error) && scene::are_parts(Err(error), scene, ray, radius)) || exists|
            corridor: DiscCorridor,
            volumes: VolumeTable,
        | #[trigger]
            is_walked_from(result, scene, ray, radius, corridor, volumes),
{
    if !(result matches Err(error) && scene::are_parts(Err(error), scene, ray, radius)) {
        let (corridor, volumes) = choose|corridor: DiscCorridor, volumes: VolumeTable|
            {
                &&& #[trigger] scene::are_parts(Ok((corridor, volumes)), scene, ray, radius)
                &&& match result {
                    Ok(walk) => crate::ballistics::walk::disc_walk::is_disc_walk(
                        walk,
                        corridor,
                        scene.laws,
                        volumes.spec_rows(),
                        volumes@,
                    ) && walk.wf() && walk.walks@.len() > 0,
                    Err(error) => crate::ballistics::walk::disc_walk::disc_error(
                        corridor,
                        scene.laws,
                        volumes.spec_rows(),
                        volumes@,
                        error,
                    ),
                }
            };
        assert(is_walked_from(result, scene, ray, radius, corridor, volumes));
    }
}

/// Probing a ray again gives the same.
pub proof fn law_a_probe_repeats(
    a: Result<DiscWalk, WalkError>,
    b: Result<DiscWalk, WalkError>,
    scene: Scene,
    ray: FuzzRay,
    radius: F32,
)
    requires
        scene::is_probe(a, scene, ray, radius),
        scene::is_probe(b, scene, ray, radius),
    ensures
        one_disc::same_disc_outcome(a, b),
{
    lemma_probe_parts(a, scene, ray, radius);
    lemma_probe_parts(b, scene, ray, radius);
    if let Some(frame) = scene::frame_of(ray) {
        if a matches Err(x) && scene::are_parts(Err(x), scene, ray, radius) {
            if b matches Err(y) && scene::are_parts(Err(y), scene, ray, radius) {
                corridors::law_a_ray_has_one_corridor(Err(a->Err_0), Err(b->Err_0), scene, ray, radius);
            } else {
                let (d, y) = choose|corridor: DiscCorridor, volumes: VolumeTable| #[trigger]
                    is_walked_from(b, scene, ray, radius, corridor, volumes);
                corridors::law_a_ray_has_one_corridor(Err(a->Err_0), Ok((d, y)), scene, ray, radius);
            }
        } else {
            let (c, x) = choose|corridor: DiscCorridor, volumes: VolumeTable| #[trigger]
                is_walked_from(a, scene, ray, radius, corridor, volumes);
            if b matches Err(y) && scene::are_parts(Err(y), scene, ray, radius) {
                corridors::law_a_ray_has_one_corridor(Ok((c, x)), Err(b->Err_0), scene, ray, radius);
            } else {
                let (d, y) = choose|corridor: DiscCorridor, volumes: VolumeTable| #[trigger]
                    is_walked_from(b, scene, ray, radius, corridor, volumes);
                corridors::law_a_ray_has_one_corridor(Ok((c, x)), Ok((d, y)), scene, ray, radius);
                lemma_has_axis(c, scene, ray, frame, radius);
                one_disc::law_one_disc_outcome(a, b, c, d, scene.laws, x.spec_rows(), x@);
            }
        }
    }
}

proof fn lemma_same_reach(a: Seq<EntityPresence>, b: Seq<EntityPresence>, target: Entity, i: int)
    requires
        a.len() == b.len(),
        forall|k: int| 0 <= k < a.len() ==> determined::same_presence(#[trigger] a[k], b[k]),
        0 <= i,
    ensures
        measure::reach_from(a, target, i) == measure::reach_from(b, target, i),
    decreases a.len() - i,
{
    if i < a.len() {
        assert(determined::same_presence(a[i], b[i]));
        lemma_same_reach(a, b, target, i + 1);
    }
}

proof fn lemma_same_sample_costs(a: Seq<RayWalk>, b: Seq<RayWalk>, t: F64, n: int)
    requires
        one_disc::same_walks(a, b),
        0 <= n <= a.len(),
    ensures
        measure::sample_costs(a, t, n) == measure::sample_costs(b, t, n),
    decreases n,
{
    if n > 0 {
        lemma_same_sample_costs(a, b, t, n - 1);
        assert(determined::same_walk(a[n - 1], b[n - 1]));
    }
}

/// What a probe measures rests on what it holds.
proof fn lemma_same_measured(a: Result<DiscWalk, WalkError>, b: Result<DiscWalk, WalkError>, target: Entity, capability: F32)
    requires
        one_disc::same_disc_outcome(a, b),
        a matches Ok(walk) ==> walk.walks@.len() > 0,
    ensures
        measure::measured(a, target, capability) == measure::measured(b, target, capability),
{
    if let (Ok(x), Ok(y)) = (a, b) {
        assert(determined::same_walk(x.walks@[0], y.walks@[0]));
        lemma_same_reach(x.walks@[0].presence@, y.walks@[0].presence@, target, 0);
        if let Some(reach) = measure::reach_from(x.walks@[0].presence@, target, 0) {
            lemma_same_sample_costs(x.walks@, y.walks@, reach, x.walks@.len() as int);
        }
        if x.events@.len() > 0 {
            assert(one_disc::same_place(x.events@[0], y.events@[0]));
        }
    }
}

/// Sweeping an opening again gives the same measurements.
proof fn lemma_one_sweep(a: Seq<RoundMeasurement>, b: Seq<RoundMeasurement>, scene: Scene, ray: FuzzRay, target: Entity)
    requires
        measure::is_sweep(a, scene, ray, target),
        measure::is_sweep(b, scene, ray, target),
    ensures
        a == b,
{
    assert forall|gun: int| 0 <= gun < PROBE_COUNT implies #[trigger] a[gun] == b[gun] by {
        assert(measure::is_measurement(a[gun], scene, ray, target, gun));
        assert(measure::is_measurement(b[gun], scene, ray, target, gun));
        let radius = resolve::radius_of(findings::rounds()[gun].caliber);
        let x = choose|probed: Result<DiscWalk, WalkError>| #[trigger]
            scene::is_probe(probed, scene, ray, radius) && a[gun] == measure::measured(
                probed,
                target,
                scene.capabilities@[gun],
            );
        let y = choose|probed: Result<DiscWalk, WalkError>| #[trigger]
            scene::is_probe(probed, scene, ray, radius) && b[gun] == measure::measured(
                probed,
                target,
                scene.capabilities@[gun],
            );
        law_a_probe_repeats(x, y, scene, ray, radius);
        lemma_same_measured(x, y, target, scene.capabilities@[gun]);
    }
    assert(a =~= b);
}

/// Walking a corridor again costs the same.
proof fn lemma_one_cost(
    x: Option<F32>,
    y: Option<F32>,
    a: RayCorridor,
    b: RayCorridor,
    laws: WalkLaws,
    s: VolumeTable,
    t: VolumeTable,
)
    requires
        pass::is_walked_cost(x, a, laws, s),
        pass::is_walked_cost(y, b, laws, t),
        a.hits@ == b.hits@,
        a.origin == b.origin,
        a.axis == b.axis,
        a.length == b.length,
        a.initial_presence@ == b.initial_presence@,
        s@ == t@,
        s.spec_rows() == t.spec_rows(),
    ensures
        x == y,
{
    let p = choose|walked: Result<RayWalk, WalkError>| #[trigger]
        ray::is_outcome(walked, 0, a, laws, s.spec_rows(), s@) && x == match walked {
            Ok(walk) => Some(walk.cost),
            Err(_) => None,
        };
    let q = choose|walked: Result<RayWalk, WalkError>| #[trigger]
        ray::is_outcome(walked, 0, b, laws, t.spec_rows(), t@) && y == match walked {
            Ok(walk) => Some(walk.cost),
            Err(_) => None,
        };
    determined::law_hits_in_any_order(p, q, 0, a, b, laws, s.spec_rows(), s@);
}

proof fn lemma_one_copy_cost(
    x: Option<F32>,
    y: Option<F32>,
    a: RayCorridor,
    b: RayCorridor,
    scene: Scene,
    rows: Seq<(Entity, F32)>,
    factor: F32,
)
    requires
        pass::is_copy_cost(x, a, scene, rows, factor),
        pass::is_copy_cost(y, b, scene, rows, factor),
        a.hits@ == b.hits@,
        a.origin == b.origin,
        a.axis == b.axis,
        a.length == b.length,
    ensures
        x == y,
{
    let entries = rows.push((scene.spare_volume, factor));
    let (p, s) = choose|doubled: RayCorridor, tabled: Result<VolumeTable, WalkError>|
        {
            &&& #[trigger] pass::is_doubled(doubled, a, scene)
            &&& #[trigger] table::is_table(tabled, rows.push((scene.spare_volume, factor)))
            &&& match tabled {
                Ok(volumes) => pass::is_walked_cost(x, doubled, scene.laws, volumes),
                Err(_) => x is None,
            }
        };
    let (q, t) = choose|doubled: RayCorridor, tabled: Result<VolumeTable, WalkError>|
        {
            &&& #[trigger] pass::is_doubled(doubled, b, scene)
            &&& #[trigger] table::is_table(tabled, rows.push((scene.spare_volume, factor)))
            &&& match tabled {
                Ok(volumes) => pass::is_walked_cost(y, doubled, scene.laws, volumes),
                Err(_) => y is None,
            }
        };
    corridors::lemma_one_table(s, t, entries);
    if let (Ok(u), Ok(v)) = (s, t) {
        assert(p.initial_presence@ =~= q.initial_presence@);
        lemma_one_cost(x, y, p, q, scene.laws, u, v);
    }
}

proof fn lemma_one_gate_on(
    x: Option<Gate>,
    y: Option<Gate>,
    a: RayCorridor,
    b: RayCorridor,
    scene: Scene,
    s: VolumeTable,
    t: VolumeTable,
)
    requires
        pass::is_gate_on(x, a, scene, s),
        pass::is_gate_on(y, b, scene, t),
        a.hits@ == b.hits@,
        a.origin == b.origin,
        a.axis == b.axis,
        a.length == b.length,
        a.initial_presence@ == b.initial_presence@,
        s@ == t@,
        s.spec_rows() == t.spec_rows(),
    ensures
        x == y,
{
    if a.hits@.len() > 0 {
        let factor = s@[a.hits@[0].volume];
        let rows = s.spec_rows();
        let (one, two) = (factor.product(F32::one()), factor.product(F32 { bits: 0x4000_0000 }));
        let p = choose|before: Option<F32>| #[trigger]
            pass::is_walked_cost(before, a, scene.laws, s) && match before {
                None => x is None,
                Some(before) => if s@.contains_key(a.hits@[0].volume) {
                    x matches Some(gate) && gate.volume == a.hits@[0].volume && gate.before == before
                        && pass::is_copy_cost(gate.same, a, scene, rows, one) && pass::is_copy_cost(
                        gate.twice,
                        a,
                        scene,
                        rows,
                        two,
                    )
                } else {
                    x is None
                },
            };
        let q = choose|before: Option<F32>| #[trigger]
            pass::is_walked_cost(before, b, scene.laws, t) && match before {
                None => y is None,
                Some(before) => if t@.contains_key(b.hits@[0].volume) {
                    y matches Some(gate) && gate.volume == b.hits@[0].volume && gate.before == before
                        && pass::is_copy_cost(gate.same, b, scene, rows, one) && pass::is_copy_cost(
                        gate.twice,
                        b,
                        scene,
                        rows,
                        two,
                    )
                } else {
                    y is None
                },
            };
        lemma_one_cost(p, q, a, b, scene.laws, s, t);
        if let (Some(g), Some(h)) = (x, y) {
            lemma_one_copy_cost(g.same, h.same, a, b, scene, rows, one);
            lemma_one_copy_cost(g.twice, h.twice, a, b, scene, rows, two);
        }
    }
}

/// The duplication test of a ray sees the same again.
proof fn lemma_one_gate(x: Option<Gate>, y: Option<Gate>, scene: Scene, ray: FuzzRay)
    requires
        pass::is_gate(x, scene, ray),
        pass::is_gate(y, scene, ray),
    ensures
        x == y,
{
    let p = choose|parts: Result<(DiscCorridor, VolumeTable), WalkError>| #[trigger]
        scene::are_parts(parts, scene, ray, F32::zero()) && match parts {
            Err(_) => x is None,
            Ok((corridor, volumes)) => exists|base: RayCorridor| #[trigger]
                pass::is_axis_corridor(base, corridor, ray) && pass::is_gate_on(x, base, scene, volumes),
        };
    let q = choose|parts: Result<(DiscCorridor, VolumeTable), WalkError>| #[trigger]
        scene::are_parts(parts, scene, ray, F32::zero()) && match parts {
            Err(_) => y is None,
            Ok((corridor, volumes)) => exists|base: RayCorridor| #[trigger]
                pass::is_axis_corridor(base, corridor, ray) && pass::is_gate_on(y, base, scene, volumes),
        };
    corridors::law_a_ray_has_one_corridor(p, q, scene, ray, F32::zero());
    if let (Ok((c, s)), Ok((d, t))) = (p, q) {
        let a = choose|base: RayCorridor| #[trigger]
            pass::is_axis_corridor(base, c, ray) && pass::is_gate_on(x, base, scene, s);
        let b = choose|base: RayCorridor| #[trigger]
            pass::is_axis_corridor(base, d, ray) && pass::is_gate_on(y, base, scene, t);
        let frame = scene::frame_of(ray)->Some_0;
        lemma_has_axis(c, scene, ray, frame, F32::zero());
        assert(one_disc::same_sample(c.samples@[0], d.samples@[0]));
        assert(a.initial_presence@ =~= b.initial_presence@);
        lemma_one_gate_on(x, y, a, b, scene, s, t);
    }
}

/// The crossings that a failure reports are the same again.
proof fn lemma_one_blame(
    x: Seq<(F64, F32)>,
    y: Seq<(F64, F32)>,
    scene: Scene,
    ray: FuzzRay,
    e: WalkError,
    f: WalkError,
)
    requires
        pass::are_blamed_crossings(x, scene, ray, e),
        pass::are_blamed_crossings(y, scene, ray, f),
        determined::same_error(e, f),
    ensures
        x == y,
{
    match findings::blamed_key(e) {
        None => {
            assert(x =~= y);
        },
        Some(key) => {
            let p = choose|parts: Result<(DiscCorridor, VolumeTable), WalkError>| #[trigger]
                scene::are_parts(parts, scene, ray, F32::zero()) && match parts {
                    Err(_) => x.len() == 0,
                    Ok((corridor, _)) => x == pass::crossings_upto(
                        corridor.samples@[0].hits@,
                        key,
                        ray.direction,
                        corridor.samples@[0].hits@.len() as int,
                    ),
                };
            let q = choose|parts: Result<(DiscCorridor, VolumeTable), WalkError>| #[trigger]
                scene::are_parts(parts, scene, ray, F32::zero()) && match parts {
                    Err(_) => y.len() == 0,
                    Ok((corridor, _)) => y == pass::crossings_upto(
                        corridor.samples@[0].hits@,
                        key,
                        ray.direction,
                        corridor.samples@[0].hits@.len() as int,
                    ),
                };
            corridors::law_a_ray_has_one_corridor(p, q, scene, ray, F32::zero());
            match (p, q) {
                (Ok((c, _)), Ok((d, _))) => {
                    let frame = scene::frame_of(ray)->Some_0;
                    lemma_has_axis(c, scene, ray, frame, F32::zero());
                    assert(one_disc::same_sample(c.samples@[0], d.samples@[0]));
                },
                _ => {
                    assert(x =~= y);
                },
            }
        },
    }
}

/// Two failures tell the same.
pub open spec fn same_failure(a: Failed, b: Failed) -> bool {
    &&& a.ray == b.ray
    &&& a.origin == b.origin
    &&& a.direction == b.direction
    &&& a.volume == b.volume
    &&& determined::same_error(a.error, b.error)
    &&& a.crossings == b.crossings
}

/// Two runs have learned the same.
pub open spec fn same_tally(a: Tallied, b: Tallied) -> bool {
    &&& a.crossing == b.crossing
    &&& a.checks == b.checks
    &&& a.violations == b.violations
    &&& a.failures.len() == b.failures.len()
    &&& forall|i: int| 0 <= i < a.failures.len() ==> same_failure(#[trigger] a.failures[i], b.failures[i])
    &&& a.regions == b.regions
    &&& a.min_reach == b.min_reach
    &&& a.blamed == b.blamed
    &&& a.census == b.census
    &&& a.truncated == b.truncated
}

proof fn lemma_same_crossed(a: RayWalk, b: RayWalk)
    requires
        determined::same_walk(a, b),
    ensures
        pass::is_crossed(a) == pass::is_crossed(b),
{
    if pass::is_crossed(a) {
        let i = choose|i: int| 0 <= i < a.presence@.len() && F32::zero().below((#[trigger] a.presence@[i]).chord);
        assert(determined::same_presence(a.presence@[i], b.presence@[i]));
        assert(F32::zero().below(b.presence@[i].chord));
    }
    if pass::is_crossed(b) {
        let i = choose|i: int| 0 <= i < b.presence@.len() && F32::zero().below((#[trigger] b.presence@[i]).chord);
        assert(determined::same_presence(a.presence@[i], b.presence@[i]));
        assert(F32::zero().below(a.presence@[i].chord));
    }
}

/// One volume on the ray adds the same to what is the same.
proof fn lemma_same_presence_added(
    x: Tallied,
    y: Tallied,
    scene: Scene,
    floor: F32,
    max_regions: usize,
    index: u64,
    ray: FuzzRay,
    a: RayWalk,
    b: RayWalk,
    p: EntityPresence,
    q: EntityPresence,
    s: Seq<RoundMeasurement>,
    t: Seq<RoundMeasurement>,
)
    requires
        same_tally(x, y),
        a.spans@ == b.spans@,
        determined::same_presence(p, q),
        pass::opens_region(x, scene, floor, max_regions, ray, a, p) ==> s == t,
    ensures
        same_tally(
            pass::after_presence(x, scene, floor, max_regions, index, ray, a, p, s),
            pass::after_presence(y, scene, floor, max_regions, index, ray, b, q, t),
        ),
{
}

proof fn lemma_same_presences_added(
    x: Tallied,
    y: Tallied,
    scene: Scene,
    floor: F32,
    max_regions: usize,
    index: u64,
    ray: FuzzRay,
    a: RayWalk,
    b: RayWalk,
    s: Seq<Seq<RoundMeasurement>>,
    t: Seq<Seq<RoundMeasurement>>,
    n: int,
)
    requires
        same_tally(x, y),
        determined::same_walk(a, b),
        0 <= n <= a.presence@.len(),
        pass::are_sweeps(x, scene, floor, max_regions, index, ray, a, s, a.presence@.len() as int),
        pass::are_sweeps(y, scene, floor, max_regions, index, ray, b, t, b.presence@.len() as int),
    ensures
        same_tally(
            pass::after_presences(x, scene, floor, max_regions, index, ray, a, s, n),
            pass::after_presences(y, scene, floor, max_regions, index, ray, b, t, n),
        ),
    decreases n,
{
    if n > 0 {
        lemma_same_presences_added(x, y, scene, floor, max_regions, index, ray, a, b, s, t, n - 1);
        let u = pass::after_presences(x, scene, floor, max_regions, index, ray, a, s, n - 1);
        let v = pass::after_presences(y, scene, floor, max_regions, index, ray, b, t, n - 1);
        let (p, q) = (a.presence@[n - 1], b.presence@[n - 1]);
        assert(determined::same_presence(a.presence@[n - 1], b.presence@[n - 1]));
        if pass::opens_region(u, scene, floor, max_regions, ray, a, p) {
            assert(pass::opens_region(v, scene, floor, max_regions, ray, b, q));
            assert(measure::is_sweep(s[n - 1], scene, ray, p.entity));
            assert(measure::is_sweep(t[n - 1], scene, ray, q.entity));
            lemma_one_sweep(s[n - 1], t[n - 1], scene, ray, p.entity);
        }
        lemma_same_presence_added(u, v, scene, floor, max_regions, index, ray, a, b, p, q, s[n - 1], t[n - 1]);
    }
}

/// One ray adds the same to what is the same.
proof fn lemma_same_ray_added(
    x: Tallied,
    y: Tallied,
    scene: Scene,
    config: FuzzConfig,
    index: u64,
    ray: FuzzRay,
    s: Observation,
    t: Observation,
)
    requires
        same_tally(x, y),
        pass::is_observed(s, x, scene, config, index, ray),
        pass::is_observed(t, y, scene, config, index, ray),
        s.probed matches Ok(walk) ==> walk.walks@.len() > 0,
    ensures
        same_tally(
            pass::after_ray(x, scene, config, index, ray, s),
            pass::after_ray(y, scene, config, index, ray, t),
        ),
{
    law_a_probe_repeats(s.probed, t.probed, scene, ray, F32::zero());
    match (s.probed, t.probed) {
        (Ok(p), Ok(q)) => {
            let (a, b) = (p.walks@[0], q.walks@[0]);
            assert(determined::same_walk(p.walks@[0], q.walks@[0]));
            lemma_same_crossed(a, b);
            if pass::is_gated(config, index, a) {
                lemma_one_gate(s.gate, t.gate, scene, ray);
            }
            let u = pass::after_checks(x, config, index, a, s.gate);
            let v = pass::after_checks(y, config, index, b, t.gate);
            assert(same_tally(u, v));
            lemma_same_presences_added(
                u,
                v,
                scene,
                measure::floor_of(config, scene.capabilities@),
                config.max_region_sweeps,
                index,
                ray,
                a,
                b,
                s.sweeps,
                t.sweeps,
                a.presence@.len() as int,
            );
        },
        (Err(e), Err(f)) => {
            lemma_one_blame(s.crossings, t.crossings, scene, ray, e, f);
            let u = pass::after_failure(x, scene, index, ray, e, s.crossings);
            let v = pass::after_failure(y, scene, index, ray, f, t.crossings);
            assert(findings::blamed(e) == findings::blamed(f));
            assert forall|i: int| 0 <= i < u.failures.len() implies same_failure(#[trigger] u.failures[i], v.failures[i]) by {
                if i < x.failures.len() {
                    assert(same_failure(x.failures[i], y.failures[i]));
                }
            }
        },
        _ => {},
    }
}

proof fn lemma_same_rays_added(
    scene: Scene,
    config: FuzzConfig,
    turns: Seq<((F32, F32), (F32, F32))>,
    s: Seq<Observation>,
    t: Seq<Observation>,
    n: int,
)
    requires
        0 <= n <= s.len(),
        s.len() == t.len(),
        pass::all_observed(scene, config, turns, s, s.len() as int),
        pass::all_observed(scene, config, turns, t, t.len() as int),
    ensures
        same_tally(pass::after_rays(scene, config, turns, s, n), pass::after_rays(scene, config, turns, t, n)),
    decreases n,
{
    if n > 0 {
        lemma_same_rays_added(scene, config, turns, s, t, n - 1);
        let x = pass::after_rays(scene, config, turns, s, n - 1);
        let y = pass::after_rays(scene, config, turns, t, n - 1);
        let ray = pass::ray_at(scene, config, turns, n - 1);
        assert(pass::is_observed(s[n - 1], x, scene, config, (n - 1) as u64, ray));
        assert(pass::is_observed(t[n - 1], y, scene, config, (n - 1) as u64, ray));
        lemma_walked(s[n - 1].probed, scene, ray, F32::zero());
        lemma_same_ray_added(x, y, scene, config, (n - 1) as u64, ray, s[n - 1], t[n - 1]);
    }
}

/// A probe that walked has an axis walk.
proof fn lemma_walked(probed: Result<DiscWalk, WalkError>, scene: Scene, ray: FuzzRay, radius: F32)
    requires
        scene::is_probe(probed, scene, ray, radius),
    ensures
        probed matches Ok(walk) ==> walk.walks@.len() > 0,
{
}

/// No two regions share a cell and a kind.
spec fn are_apart(regions: Seq<Found>) -> bool {
    forall|i: int, j: int|
        0 <= i < j < regions.len() ==> !((#[trigger] regions[i]).cell == (#[trigger] regions[j]).cell && regions[i].kind
            == regions[j].kind)
}

proof fn lemma_no_region(regions: Seq<Found>, cell: (i32, i32, i32), kind: TargetKind, i: int)
    requires
        0 <= i,
    ensures
        match pass::region_from(regions, cell, kind, i) {
            None => forall|j: int| i <= j < regions.len() ==> !((#[trigger] regions[j]).cell == cell && regions[j].kind == kind),
            Some(k) => i <= k < regions.len(),
        },
    decreases regions.len() - i,
{
    if i < regions.len() && !(regions[i].cell == cell && regions[i].kind == kind) {
        lemma_no_region(regions, cell, kind, i + 1);
    }
}

proof fn lemma_apart_presence(
    state: Tallied,
    scene: Scene,
    floor: F32,
    max_regions: usize,
    index: u64,
    ray: FuzzRay,
    axis: RayWalk,
    met: EntityPresence,
    measurements: Seq<RoundMeasurement>,
)
    requires
        are_apart(state.regions),
    ensures
        are_apart(
            pass::after_presence(state, scene, floor, max_regions, index, ray, axis, met, measurements).regions,
        ),
{
    if let Some(entry) = measure::pierced(scene, ray) {
        if let Some(i) = pass::target_from(scene.targets@, met.entity, 0) {
            lemma_no_region(state.regions, measure::cell_of(entry), scene.targets@[i].kind, 0);
        }
    }
}

proof fn lemma_apart_presences(
    state: Tallied,
    scene: Scene,
    floor: F32,
    max_regions: usize,
    index: u64,
    ray: FuzzRay,
    axis: RayWalk,
    sweeps: Seq<Seq<RoundMeasurement>>,
    n: int,
)
    requires
        are_apart(state.regions),
    ensures
        are_apart(pass::after_presences(state, scene, floor, max_regions, index, ray, axis, sweeps, n).regions),
    decreases n,
{
    if n > 0 {
        lemma_apart_presences(state, scene, floor, max_regions, index, ray, axis, sweeps, n - 1);
        lemma_apart_presence(
            pass::after_presences(state, scene, floor, max_regions, index, ray, axis, sweeps, n - 1),
            scene,
            floor,
            max_regions,
            index,
            ray,
            axis,
            axis.presence@[n - 1],
            sweeps[n - 1],
        );
    }
}

proof fn lemma_apart_rays(
    scene: Scene,
    config: FuzzConfig,
    turns: Seq<((F32, F32), (F32, F32))>,
    seen: Seq<Observation>,
    n: int,
)
    ensures
        are_apart(pass::after_rays(scene, config, turns, seen, n).regions),
    decreases n,
{
    if n > 0 {
        lemma_apart_rays(scene, config, turns, seen, n - 1);
        let state = pass::after_rays(scene, config, turns, seen, n - 1);
        if let Ok(walk) = seen[n - 1].probed {
            let checked = pass::after_checks(state, config, (n - 1) as u64, walk.walks@[0], seen[n - 1].gate);
            assert(checked.regions == state.regions);
            lemma_apart_presences(
                checked,
                scene,
                measure::floor_of(config, scene.capabilities@),
                config.max_region_sweeps,
                (n - 1) as u64,
                pass::ray_at(scene, config, turns, n - 1),
                walk.walks@[0],
                seen[n - 1].sweeps,
                walk.walks@[0].presence@.len() as int,
            );
        }
    }
}

/// Ranked regions of which no two share a cell and a kind stand strictly in order.
proof fn lemma_strictly_ranked(ranked: Seq<Found>, regions: Seq<Found>)
    requires
        pass::is_ranked(ranked),
        ranked.to_multiset() == regions.to_multiset(),
        are_apart(regions),
    ensures
        forall|i: int, j: int| 0 <= i < j < ranked.len() ==> pass::stands_before(#[trigger] ranked[i], #[trigger] ranked[j]),
{
    broadcast use vstd::seq_lib::group_to_multiset_ensures;

    assert forall|i: int, j: int| 0 <= i < j < ranked.len() implies pass::stands_before(
        #[trigger] ranked[i],
        #[trigger] ranked[j],
    ) by {
        let (x, y) = (ranked[i], ranked[j]);
        assert(!pass::stands_before(y, x));
        if x.cell == y.cell && x.kind == y.kind {
            lemma_pair(ranked, i, j);
            lemma_pair_kept(ranked, regions, x, y);
        }
    }
}

/// Two places of a list hold two of its items.
proof fn lemma_pair(s: Seq<Found>, i: int, j: int)
    requires
        0 <= i < j < s.len(),
    ensures
        s[i] == s[j] ==> s.to_multiset().count(s[i]) >= 2,
        s.to_multiset().count(s[i]) >= 1,
        s.to_multiset().count(s[j]) >= 1,
{
    broadcast use vstd::seq_lib::group_to_multiset_ensures;

    assert(s.contains(s[i]));
    assert(s.contains(s[j]));
    let (x, rest) = (s[j], s.remove(j));
    s.to_multiset_ensures();
    assert(rest[i] == s[i]);
    assert(rest.contains(s[i]));
    rest.to_multiset_ensures();
    assert(rest.to_multiset().count(s[i]) > 0);
    assert(s.to_multiset() == rest.to_multiset().insert(x)) by {
        assert(rest.insert(j, x) =~= s);
        vstd::seq_lib::to_multiset_insert(rest, j, x);
    }
}

/// Items that stand apart in one list stand apart in any other of the same items.
proof fn lemma_pair_kept(ranked: Seq<Found>, regions: Seq<Found>, x: Found, y: Found)
    requires
        ranked.to_multiset() == regions.to_multiset(),
        are_apart(regions),
        ranked.to_multiset().count(x) >= 1,
        ranked.to_multiset().count(y) >= 1,
        x == y ==> ranked.to_multiset().count(x) >= 2,
    ensures
        !(x.cell == y.cell && x.kind == y.kind),
{
    broadcast use vstd::seq_lib::group_to_multiset_ensures;

    assert(regions.contains(x) && regions.contains(y));
    let i = choose|i: int| 0 <= i < regions.len() && regions[i] == x;
    if x == y {
        let rest = regions.remove(i);
        regions.to_multiset_ensures();
        assert(regions.to_multiset() == rest.to_multiset().insert(x)) by {
            assert(rest.insert(i, x) =~= regions);
            vstd::seq_lib::to_multiset_insert(rest, i, x);
        }
        assert(rest.to_multiset().count(x) >= 1);
        assert(rest.contains(x));
        let k = choose|k: int| 0 <= k < rest.len() && rest[k] == x;
        let j = if k < i {
            k
        } else {
            k + 1
        };
        assert(regions[j] == x);
        if i < j {
            assert(!(regions[i].cell == regions[j].cell && regions[i].kind == regions[j].kind));
        } else {
            assert(!(regions[j].cell == regions[i].cell && regions[j].kind == regions[i].kind));
        }
    } else {
        let j = choose|j: int| 0 <= j < regions.len() && regions[j] == y;
        if i < j {
            assert(!(regions[i].cell == regions[j].cell && regions[i].kind == regions[j].kind));
        } else {
            assert(!(regions[j].cell == regions[i].cell && regions[j].kind == regions[i].kind));
        }
    }
}

proof fn lemma_one_ranking(x: Seq<Found>, y: Seq<Found>, regions: Seq<Found>)
    requires
        pass::is_ranked(x),
        pass::is_ranked(y),
        x.to_multiset() == regions.to_multiset(),
        y.to_multiset() == regions.to_multiset(),
        are_apart(regions),
    ensures
        x == y,
{
    broadcast use vstd::seq_lib::group_to_multiset_ensures;

    let less = |p: Found, q: Found| pass::stands_before(p, q);
    lemma_strictly_ranked(x, regions);
    lemma_strictly_ranked(y, regions);
    assert forall|found: Found| #[trigger] x.contains(found) <==> y.contains(found) by {
        assert(x.contains(found) <==> x.to_multiset().count(found) > 0);
        assert(y.contains(found) <==> y.to_multiset().count(found) > 0);
    }
    determined::lemma_one_list(x, y, less);
}

/// A run repeats: one configuration fired twice at one scene is reported twice the same, ray by
/// ray and region by region.
pub proof fn law_a_run_repeats(
    a: Report,
    b: Report,
    scene: Scene,
    config: FuzzConfig,
    turns: Seq<((F32, F32), (F32, F32))>,
)
    requires
        exists|seen: Seq<Observation>| #[trigger] pass::is_report(a, scene, config, turns, seen),
        exists|seen: Seq<Observation>| #[trigger] pass::is_report(b, scene, config, turns, seen),
    ensures
        pass::same_run(a, b),
        same_tally(pass::tally_of(a), pass::tally_of(b)),
{
    let s = choose|seen: Seq<Observation>| #[trigger] pass::is_report(a, scene, config, turns, seen);
    let t = choose|seen: Seq<Observation>| #[trigger] pass::is_report(b, scene, config, turns, seen);
    let n = s.len() as int;
    lemma_same_rays_added(scene, config, turns, s, t, n);
    lemma_apart_rays(scene, config, turns, s, n);
    lemma_one_ranking(
        pass::tally_of(a).regions,
        pass::tally_of(b).regions,
        pass::after_rays(scene, config, turns, s, n).regions,
    );
}

} // verus!
