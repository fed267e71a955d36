//! The pass: generate, probe, hold the invariants, cluster what was found.

use crate::ballistics::fuzz::findings;
use crate::ballistics::fuzz::findings::{
    admitting_round, blamed_primitive, blamed_volume, ViolationKind, Region, Report, RoundMeasurement, TargetKind, Violation, WalkFailure,
};
use crate::ballistics::fuzz::measure;
use crate::ballistics::fuzz::measure::{blocked, cell_at, finding_floor, pierce_local, prefix_cost, sweep};
use crate::ballistics::fuzz::naming;
use crate::ballistics::fuzz::rays;
use crate::ballistics::fuzz::rays::{draws_for, ray_for, Draws, FuzzConfig, FuzzRay};
use crate::ballistics::fuzz::scene;
use crate::ballistics::fuzz::scene::{probe, probe_parts, volume_name, Scene, Target};
use crate::ballistics::walk::disc::{DiscCorridor, DiscWalk};
use crate::ballistics::walk::presence::EntityPresence;
use crate::ballistics::walk::ray;
use crate::ballistics::walk::ray::{walk_ray, RayWalk};
use crate::ballistics::walk::table;
use crate::ballistics::walk::table::VolumeTable;
use crate::ballistics::walk::vocabulary::{Entity, FaceHit, PrimitiveKey, RayCorridor, WalkError, WalkLaws};
use crate::float::{F32, F64};
use crate::text::Table;
use crate::vector::Vec3;
use vstd::prelude::*;

verus! {

/// One more, as far as the number can count.
pub open spec fn bumped(n: u64) -> u64 {
    if n < u64::MAX {
        (n + 1) as u64
    } else {
        n
    }
}

fn bump(n: u64) -> (m: u64)
    ensures
        m == bumped(n),
{
    if n < u64::MAX {
        n + 1
    } else {
        n
    }
}

/// A failure, as the contracts read it.
pub struct Failed {
    pub ray: u64,
    pub origin: Vec3,
    pub direction: Vec3,
    pub volume: Seq<char>,
    pub error: WalkError,
    pub crossings: Seq<(F64, F32)>,
}

/// A region, as the contracts read it.
pub struct Found {
    pub cell: (i32, i32, i32),
    pub entry_local: Vec3,
    pub axis_local: Vec3,
    pub targets: Map<Seq<char>, ()>,
    pub kind: TargetKind,
    pub rays: u64,
    pub min_axis_cost: F32,
    pub measurements: Seq<RoundMeasurement>,
    pub admitting: Option<usize>,
    pub witness_ray: u64,
}

/// What a run has learned so far, as the contracts read it.
pub struct Tallied {
    pub crossing: u64,
    pub checks: u64,
    pub violations: Seq<Violation>,
    pub failures: Seq<Failed>,
    pub regions: Seq<Found>,
    pub min_reach: Map<Seq<char>, F32>,
    pub blamed: Map<Seq<char>, u64>,
    pub census: Map<Seq<char>, u64>,
    pub truncated: bool,
}

pub open spec fn failed_of(failure: WalkFailure) -> Failed {
    Failed {
        ray: failure.ray,
        origin: failure.origin,
        direction: failure.direction,
        volume: failure.volume@,
        error: failure.error,
        crossings: failure.crossings@,
    }
}

pub open spec fn found_of(region: Region) -> Found {
    Found {
        cell: region.cell,
        entry_local: region.entry_local,
        axis_local: region.axis_local,
        targets: region.targets@,
        kind: region.kind,
        rays: region.rays,
        min_axis_cost: region.min_axis_cost,
        measurements: region.measurements@,
        admitting: region.admitting,
        witness_ray: region.witness_ray,
    }
}

pub open spec fn tally_of(report: Report) -> Tallied {
    Tallied {
        crossing: report.rays_crossing,
        checks: report.duplication_checks,
        violations: report.violations@,
        failures: report.walk_errors@.map_values(|failure: WalkFailure| failed_of(failure)),
        regions: report.regions@.map_values(|region: Region| found_of(region)),
        min_reach: report.min_reach@,
        blamed: report.walk_error_volumes@,
        census: report.presence_census@,
        truncated: report.sweeps_truncated,
    }
}

/// The table with a name counted once more.
pub open spec fn counted(counts: Map<Seq<char>, u64>, name: Seq<char>) -> Map<Seq<char>, u64> {
    counts.insert(
        name,
        bumped(
            if counts.contains_key(name) {
                counts[name]
            } else {
                0
            },
        ),
    )
}

fn count(counts: &mut Table<u64>, name: &String)
    ensures
        final(counts)@ == counted(old(counts)@, name@),
{
    let held: u64 = match counts.get(name) {
        Some(held) => held,
        None => 0,
    };
    counts.set(name, bump(held));
}

/// The ray crossed something.
pub open spec fn is_crossed(axis: RayWalk) -> bool {
    exists|i: int| 0 <= i < axis.presence@.len() && F32::zero().below((#[trigger] axis.presence@[i]).chord)
}

fn crossed_any(axis: &RayWalk) -> (yes: bool)
    ensures
        yes == is_crossed(*axis),
{
    let mut i: usize = 0;
    while i < axis.presence.len()
        invariant
            i <= axis.presence@.len(),
            forall|j: int| 0 <= j < i ==> !F32::zero().below((#[trigger] axis.presence@[j]).chord),
        decreases axis.presence.len() - i,
    {
        if F32::zero().lt(axis.presence[i].chord) {
            assert(F32::zero().below(axis.presence@[i as int].chord));
            return true;
        }
        i = i + 1;
    }
    false
}

/// What the two invariants on steps add: something crossed in silence, or steps out of
/// nothing.
pub open spec fn after_invariants(state: Tallied, index: u64, crossed: bool, axis: RayWalk) -> Tallied {
    if crossed && axis.events@.len() == 0 {
        Tallied {
            violations: state.violations.push(
                Violation { ray: index, kind: ViolationKind::SilentPenetration { cost: axis.cost } },
            ),
            ..state
        }
    } else if !crossed && axis.events@.len() > 0 {
        Tallied {
            violations: state.violations.push(
                Violation { ray: index, kind: ViolationKind::FabricatedEvent { events: axis.events@.len() as usize } },
            ),
            ..state
        }
    } else {
        state
    }
}

/// Holds the two invariants on steps.
pub fn check_ray_invariants(index: u64, crossed: bool, axis: &RayWalk, report: &mut Report)
    ensures
        tally_of(*final(report)) == after_invariants(tally_of(*old(report)), index, crossed, *axis),
        same_run(*final(report), *old(report)),
        final(report).regions@ == old(report).regions@,
{
    if crossed && axis.events.len() == 0 {
        report.violations.push(Violation { ray: index, kind: ViolationKind::SilentPenetration { cost: axis.cost } });
    }
    if !crossed && axis.events.len() > 0 {
        report.violations.push(
            Violation { ray: index, kind: ViolationKind::FabricatedEvent { events: axis.events.len() } },
        );
    }
}

/// The axis corridor of a probe's parts.
pub open spec fn is_axis_corridor(base: RayCorridor, corridor: DiscCorridor, ray: FuzzRay) -> bool {
    &&& base.anchor == ray.origin
    &&& base.origin == Vec3::zero()
    &&& base.axis == ray.direction
    &&& base.length == ray.length
    &&& base.initial_presence@.len() == 0
    &&& base.hits@ == corridor.samples@[0].hits@
}

fn axis_corridor(corridor: &DiscCorridor, ray: &FuzzRay) -> (base: RayCorridor)
    requires
        corridor.samples@.len() > 0,
    ensures
        is_axis_corridor(base, *corridor, *ray),
{
    RayCorridor {
        anchor: ray.origin,
        origin: Vec3::zero(),
        axis: ray.direction,
        length: ray.length,
        initial_presence: Vec::new(),
        hits: copy_hits(&corridor.samples[0].hits),
    }
}

fn copy_hits(hits: &Vec<FaceHit>) -> (copy: Vec<FaceHit>)
    ensures
        copy@ == hits@,
{
    let mut copy: Vec<FaceHit> = Vec::new();
    let mut i: usize = 0;
    while i < hits.len()
        invariant
            i <= hits@.len(),
            copy@ == hits@.take(i as int),
        decreases hits.len() - i,
    {
        copy.push(hits[i]);
        assert(copy@ =~= hits@.take(i + 1));
        i = i + 1;
    }
    assert(hits@.take(i as int) =~= hits@);
    copy
}

/// The copies of a primitive's hits among the first `n`, on the spare entities.
pub open spec fn copies_of(hits: Seq<FaceHit>, primitive: Entity, scene: Scene, n: int) -> Seq<FaceHit>
    decreases n,
{
    if n <= 0 {
        Seq::empty()
    } else if hits[n - 1].primitive == primitive {
        copies_of(hits, primitive, scene, n - 1).push(
            FaceHit { volume: scene.spare_volume, primitive: scene.spare_primitive, ..hits[n - 1] },
        )
    } else {
        copies_of(hits, primitive, scene, n - 1)
    }
}

/// The corridor with the primitive of its first hit there twice.
pub open spec fn is_doubled(doubled: RayCorridor, base: RayCorridor, scene: Scene) -> bool {
    &&& doubled.anchor == base.anchor
    &&& doubled.origin == base.origin
    &&& doubled.axis == base.axis
    &&& doubled.length == base.length
    &&& doubled.initial_presence@.len() == 0
    &&& doubled.hits@ == base.hits@ + copies_of(
        base.hits@,
        base.hits@[0].primitive,
        scene,
        base.hits@.len() as int,
    )
}

fn double(base: &RayCorridor, scene: &Scene) -> (doubled: RayCorridor)
    requires
        base.hits@.len() > 0,
    ensures
        is_doubled(doubled, *base, *scene),
{
    let primitive: Entity = base.hits[0].primitive;
    let mut hits: Vec<FaceHit> = copy_hits(&base.hits);
    let mut i: usize = 0;
    while i < base.hits.len()
        invariant
            i <= base.hits@.len(),
            hits@ == base.hits@ + copies_of(base.hits@, primitive, *scene, i as int),
        decreases base.hits.len() - i,
    {
        let hit: FaceHit = base.hits[i];
        if hit.primitive == primitive {
            hits.push(
                FaceHit {
                    volume: scene.spare_volume,
                    primitive: scene.spare_primitive,
                    shell: hit.shell,
                    contact: hit.contact,
                    triangle: hit.triangle,
                    t: hit.t,
                    true_normal: hit.true_normal,
                },
            );
        }
        i = i + 1;
        assert(hits@ =~= base.hits@ + copies_of(base.hits@, primitive, *scene, i as int));
    }
    RayCorridor {
        anchor: base.anchor,
        origin: base.origin,
        axis: base.axis,
        length: base.length,
        initial_presence: Vec::new(),
        hits,
    }
}

/// What the duplication gate saw.
#[derive(Clone, Copy, Debug, PartialEq, Eq)]
pub struct Gate {
    pub volume: Entity,
    /// The cost of the corridor as it is.
    pub before: F32,
    /// The cost with the copy at the volume's own factor, where that can be walked.
    pub same: Option<F32>,
    /// The cost with the copy at twice the factor, where that can be walked.
    pub twice: Option<F32>,
}

/// The cost that walking a corridor gives; none where it cannot be walked.
pub open spec fn is_walked_cost(cost: Option<F32>, corridor: RayCorridor, laws: WalkLaws, volumes: VolumeTable) -> bool {
    exists|walked: Result<RayWalk, WalkError>| #[trigger]
        ray::is_outcome(walked, 0, corridor, laws, volumes.spec_rows(), volumes@) && cost == match walked {
            Ok(walk) => Some(walk.cost),
            Err(_) => None,
        }
}

/// The cost with the copy at a factor.
pub open spec fn is_copy_cost(
    cost: Option<F32>,
    base: RayCorridor,
    scene: Scene,
    rows: Seq<(Entity, F32)>,
    factor: F32,
) -> bool {
    exists|doubled: RayCorridor, tabled: Result<VolumeTable, WalkError>|
        {
            &&& #[trigger] is_doubled(doubled, base, scene)
            &&& #[trigger] table::is_table(tabled, rows.push((scene.spare_volume, factor)))
            &&& match tabled {
                Ok(volumes) => is_walked_cost(cost, doubled, scene.laws, volumes),
                Err(_) => cost is None,
            }
        }
}

/// What the duplication test sees of a corridor: nothing where it meets nothing or cannot be walked.
pub open spec fn is_gate_on(gate: Option<Gate>, base: RayCorridor, scene: Scene, volumes: VolumeTable) -> bool {
    if base.hits@.len() == 0 {
        gate is None
    } else {
        exists|before: Option<F32>| #[trigger]
            is_walked_cost(before, base, scene.laws, volumes) && match before {
                None => gate is None,
                Some(before) => if volumes@.contains_key(base.hits@[0].volume) {
                    let factor = volumes@[base.hits@[0].volume];
                    gate matches Some(gate) && gate.volume == base.hits@[0].volume && gate.before == before
                        && is_copy_cost(
                        gate.same,
                        base,
                        scene,
                        volumes.spec_rows(),
                        factor.product(F32::one()),
                    ) && is_copy_cost(
                        gate.twice,
                        base,
                        scene,
                        volumes.spec_rows(),
                        factor.product(F32 { bits: 0x4000_0000 }),
                    )
                } else {
                    gate is None
                },
            }
    }
}

/// What the duplication test sees of a ray.
pub open spec fn is_gate(gate: Option<Gate>, scene: Scene, ray: FuzzRay) -> bool {
    exists|parts: Result<(DiscCorridor, VolumeTable), WalkError>| #[trigger]
        scene::are_parts(parts, scene, ray, F32::zero()) && match parts {
            Err(_) => gate is None,
            Ok((corridor, volumes)) => exists|base: RayCorridor| #[trigger]
                is_axis_corridor(base, corridor, ray) && is_gate_on(gate, base, scene, volumes),
        }
}

fn walked_cost(corridor: &RayCorridor, volumes: &VolumeTable, laws: &WalkLaws) -> (cost: Option<F32>)
    ensures
        is_walked_cost(cost, *corridor, *laws, *volumes),
{
    let walked: Result<RayWalk, WalkError> = walk_ray(0, corridor, volumes, laws);
    assert(ray::is_outcome(walked, 0, *corridor, *laws, volumes.spec_rows(), volumes@));
    match walked {
        Ok(walk) => Some(walk.cost),
        Err(_) => None,
    }
}

fn copy_cost(base: &RayCorridor, doubled: &RayCorridor, scene: &Scene, volumes: &VolumeTable, factor: F32) -> (cost:
    Option<F32>)
    requires
        is_doubled(*doubled, *base, *scene),
    ensures
        is_copy_cost(cost, *base, *scene, volumes.spec_rows(), factor),
{
    let mut rows: Vec<(Entity, F32)> = volumes.entries();
    rows.push((scene.spare_volume, factor));
    let tabled: Result<VolumeTable, WalkError> = VolumeTable::new(rows);
    assert(table::is_table(tabled, volumes.spec_rows().push((scene.spare_volume, factor))));
    match tabled {
        Ok(volumes) => walked_cost(doubled, &volumes, &scene.laws),
        Err(_) => None,
    }
}

fn run_gate(scene: &Scene, ray: &FuzzRay) -> (gate: Option<Gate>)
    requires
        scene.wf(),
    ensures
        is_gate(gate, *scene, *ray),
{
    let parts: Result<(DiscCorridor, VolumeTable), WalkError> = probe_parts(scene, ray, F32::zero());
    assert(scene::are_parts(parts, *scene, *ray, F32::zero()));
    let (corridor, volumes): (DiscCorridor, VolumeTable) = match parts {
        Ok(parts) => parts,
        Err(_) => {
            return None;
        },
    };
    let base: RayCorridor = axis_corridor(&corridor, ray);
    assert(is_axis_corridor(base, corridor, *ray));
    if base.hits.len() == 0 {
        return None;
    }
    let seed: FaceHit = base.hits[0];
    let walked: Option<F32> = walked_cost(&base, &volumes, &scene.laws);
    assert(is_walked_cost(walked, base, scene.laws, volumes));
    let before: F32 = match walked {
        Some(before) => before,
        None => {
            return None;
        },
    };
    let factor: F32 = match volumes.factor(seed.volume) {
        Ok(factor) => factor,
        Err(_) => {
            return None;
        },
    };
    let doubled: RayCorridor = double(&base, scene);
    let same: Option<F32> = copy_cost(&base, &doubled, scene, &volumes, factor.times(F32::one()));
    let twice: Option<F32> = copy_cost(&base, &doubled, scene, &volumes, factor.times(F32 { bits: 0x4000_0000 }));
    Some(Gate { volume: seed.volume, before, same, twice })
}

/// What the duplication test adds: a check, and a violation where the copy at the same factor
/// changed the cost or the copy at twice the factor lowered it.
pub open spec fn after_gate(state: Tallied, index: u64, gate: Option<Gate>) -> Tallied {
    match gate {
        None => state,
        Some(gate) => {
            let changed = match gate.same {
                Some(after) => if after.equals(gate.before) {
                    Seq::empty()
                } else {
                    seq![
                        Violation {
                            ray: index,
                            kind: ViolationKind::DuplicationChangedCost { volume: gate.volume, before: gate.before, after },
                        },
                    ]
                },
                None => Seq::empty(),
            };
            let lowered = match gate.twice {
                Some(after) => if after.below(gate.before) {
                    seq![
                        Violation {
                            ray: index,
                            kind: ViolationKind::DuplicationLoweredCost { volume: gate.volume, before: gate.before, after },
                        },
                    ]
                } else {
                    Seq::empty()
                },
                None => Seq::empty(),
            };
            Tallied {
                checks: bumped(state.checks),
                violations: state.violations + changed + lowered,
                ..state
            }
        },
    }
}

/// The fields that a run does not touch.
pub open spec fn same_run(a: Report, b: Report) -> bool {
    a.seed == b.seed && a.rays == b.rays && a.center == b.center && a.radius == b.radius
}

/// Runs the duplication gate on a ray: what is there twice costs the same, and what is
/// there stronger never costs less.
pub fn duplication_gate(index: u64, gate: &Option<Gate>, report: &mut Report)
    ensures
        tally_of(*final(report)) == after_gate(tally_of(*old(report)), index, *gate),
        same_run(*final(report), *old(report)),
        final(report).regions@ == old(report).regions@,
{
    let gate: &Gate = match gate {
        Some(gate) => gate,
        None => {
            return ;
        },
    };
    report.duplication_checks = bump(report.duplication_checks);
    let ghost before = report.violations@;
    if let Some(after) = gate.same {
        if !after.same(gate.before) {
            report.violations.push(
                Violation {
                    ray: index,
                    kind: ViolationKind::DuplicationChangedCost { volume: gate.volume, before: gate.before, after },
                },
            );
        }
    }
    if let Some(after) = gate.twice {
        if after.lt(gate.before) {
            report.violations.push(
                Violation {
                    ray: index,
                    kind: ViolationKind::DuplicationLoweredCost { volume: gate.volume, before: gate.before, after },
                },
            );
        }
    }
    assert(tally_of(*report).violations =~= after_gate(tally_of(*old(report)), index, Some(*gate)).violations);
}

/// One crossing put in its place by distance, behind those at the same one.
pub open spec fn placed(list: Seq<(F64, F32)>, item: (F64, F32)) -> Seq<(F64, F32)>
    decreases list.len(),
{
    if list.len() > 0 && item.0.rank() < list.last().0.rank() {
        placed(list.drop_last(), item).push(list.last())
    } else {
        list.push(item)
    }
}

/// The crossings of a primitive among the first `n` hits, by distance.
pub open spec fn crossings_upto(hits: Seq<FaceHit>, key: PrimitiveKey, direction: Vec3, n: int) -> Seq<(F64, F32)>
    decreases n,
{
    if n <= 0 {
        Seq::empty()
    } else {
        let rest = crossings_upto(hits, key, direction, n - 1);
        let hit = hits[n - 1];
        if hit.volume == key.volume && hit.primitive == key.primitive {
            placed(rest, (hit.t, direction.inner(hit.true_normal)))
        } else {
            rest
        }
    }
}

proof fn lemma_placed(list: Seq<(F64, F32)>, item: (F64, F32), at: int)
    requires
        0 <= at <= list.len(),
        forall|i: int| at <= i < list.len() ==> item.0.rank() < (#[trigger] list[i]).0.rank(),
        at > 0 ==> !(item.0.rank() < list[at - 1].0.rank()),
    ensures
        placed(list, item) == list.insert(at, item),
    decreases list.len(),
{
    if at < list.len() {
        lemma_placed(list.drop_last(), item, at);
        assert(list.insert(at, item) =~= list.drop_last().insert(at, item).push(list.last()));
    } else {
        assert(list.insert(at, item) =~= list.push(item));
    }
}

fn primitive_crossings(hits: &Vec<FaceHit>, key: PrimitiveKey, direction: Vec3) -> (list: Vec<(F64, F32)>)
    ensures
        list@ == crossings_upto(hits@, key, direction, hits@.len() as int),
{
    let mut list: Vec<(F64, F32)> = Vec::new();
    let mut n: usize = 0;
    while n < hits.len()
        invariant
            n <= hits@.len(),
            list@ == crossings_upto(hits@, key, direction, n as int),
        decreases hits.len() - n,
    {
        let hit: FaceHit = hits[n];
        if hit.volume == key.volume && hit.primitive == key.primitive {
            let item: (F64, F32) = (hit.t, direction.dot(hit.true_normal));
            let mut at: usize = list.len();
            while at > 0 && item.0.order_key() < list[at - 1].0.order_key()
                invariant
                    at <= list@.len(),
                    forall|i: int| at <= i < list@.len() ==> item.0.rank() < (#[trigger] list@[i]).0.rank(),
                decreases at,
            {
                at = at - 1;
            }
            proof {
                lemma_placed(list@, item, at as int);
            }
            list.insert(at, item);
        }
        n = n + 1;
    }
    list
}

/// The crossings that a failure reports: those of the primitive to blame.
pub open spec fn are_blamed_crossings(list: Seq<(F64, F32)>, scene: Scene, ray: FuzzRay, error: WalkError) -> bool {
    match findings::blamed_key(error) {
        None => list.len() == 0,
        Some(key) => exists|parts: Result<(DiscCorridor, VolumeTable), WalkError>| #[trigger]
            scene::are_parts(parts, scene, ray, F32::zero()) && match parts {
                Err(_) => list.len() == 0,
                Ok((corridor, _)) => list == crossings_upto(
                    corridor.samples@[0].hits@,
                    key,
                    ray.direction,
                    corridor.samples@[0].hits@.len() as int,
                ),
            },
    }
}

fn blamed_crossings(scene: &Scene, ray: &FuzzRay, error: &WalkError) -> (list: Vec<(F64, F32)>)
    requires
        scene.wf(),
    ensures
        are_blamed_crossings(list@, *scene, *ray, *error),
{
    let key: PrimitiveKey = match blamed_primitive(error) {
        Some(key) => key,
        None => {
            return Vec::new();
        },
    };
    let parts: Result<(DiscCorridor, VolumeTable), WalkError> = probe_parts(scene, ray, F32::zero());
    assert(scene::are_parts(parts, *scene, *ray, F32::zero()));
    match parts {
        Ok((corridor, _)) => primitive_crossings(&corridor.samples[0].hits, key, ray.direction),
        Err(_) => Vec::new(),
    }
}

/// The name of the volume to blame.
pub open spec fn blame_name(scene: Scene, error: WalkError) -> Seq<char> {
    match findings::blamed(error) {
        Some(volume) => scene::label_of(scene, volume),
        None => "(no volume)"@,
    }
}

/// What a ray that could not be walked adds.
pub open spec fn after_failure(
    state: Tallied,
    scene: Scene,
    index: u64,
    ray: FuzzRay,
    error: WalkError,
    crossings: Seq<(F64, F32)>,
) -> Tallied {
    let volume = blame_name(scene, error);
    Tallied {
        blamed: counted(state.blamed, volume),
        failures: state.failures.push(
            Failed { ray: index, origin: ray.origin, direction: ray.direction, volume, error, crossings },
        ),
        ..state
    }
}

fn record_failure(
    scene: &Scene,
    index: u64,
    ray: &FuzzRay,
    error: WalkError,
    crossings: Vec<(F64, F32)>,
    report: &mut Report,
)
    requires
        findings::blamed(error) matches Some(volume) ==> scene::is_written(*scene, volume),
    ensures
        tally_of(*final(report)) == after_failure(
            tally_of(*old(report)),
            *scene,
            index,
            *ray,
            error,
            crossings@,
        ),
        same_run(*final(report), *old(report)),
        final(report).regions@ == old(report).regions@,
{
    let volume: String = match blamed_volume(&error) {
        Some(volume) => volume_name(scene, volume),
        None => "(no volume)".to_owned(),
    };
    count(&mut report.walk_error_volumes, &volume);
    report.walk_errors.push(
        WalkFailure { ray: index, origin: ray.origin, direction: ray.direction, volume, error, crossings },
    );
    assert(tally_of(*report).failures =~= after_failure(
        tally_of(*old(report)),
        *scene,
        index,
        *ray,
        error,
        crossings@,
    ).failures);
}

/// The target that an entity is, from row `i` on.
pub open spec fn target_from(targets: Seq<Target>, entity: Entity, i: int) -> Option<int>
    decreases targets.len() - i,
{
    if i < 0 || i >= targets.len() {
        None
    } else if targets[i].entity == entity {
        Some(i)
    } else {
        target_from(targets, entity, i + 1)
    }
}

fn find_target(targets: &Vec<Target>, entity: Entity) -> (place: Option<usize>)
    ensures
        match place {
            Some(i) => i < targets@.len() && target_from(targets@, entity, 0) == Some(i as int),
            None => target_from(targets@, entity, 0) is None,
        },
{
    let mut i: usize = 0;
    while i < targets.len()
        invariant
            i <= targets@.len(),
            target_from(targets@, entity, 0) == target_from(targets@, entity, i as int),
        decreases targets.len() - i,
    {
        if targets[i].entity == entity {
            return Some(i);
        }
        i = i + 1;
    }
    None
}

/// The region of a cell and a kind, from place `i` on.
pub open spec fn region_from(regions: Seq<Found>, cell: (i32, i32, i32), kind: TargetKind, i: int) -> Option<int>
    decreases regions.len() - i,
{
    if i < 0 || i >= regions.len() {
        None
    } else if regions[i].cell == cell && regions[i].kind == kind {
        Some(i)
    } else {
        region_from(regions, cell, kind, i + 1)
    }
}

fn find_region(regions: &Vec<Region>, cell: (i32, i32, i32), kind: TargetKind) -> (place: Option<usize>)
    ensures
        ({
            let found = regions@.map_values(|region: Region| found_of(region));
            match place {
                Some(i) => i < regions@.len() && region_from(found, cell, kind, 0) == Some(i as int),
                None => region_from(found, cell, kind, 0) is None,
            }
        }),
{
    let ghost found = regions@.map_values(|region: Region| found_of(region));
    let mut i: usize = 0;
    while i < regions.len()
        invariant
            i <= regions@.len(),
            found == regions@.map_values(|region: Region| found_of(region)),
            region_from(found, cell, kind, 0) == region_from(found, cell, kind, i as int),
        decreases regions.len() - i,
    {
        let region: &Region = &regions[i];
        assert(found[i as int] == found_of(*region));
        if region.cell.0 == cell.0 && region.cell.1 == cell.1 && region.cell.2 == cell.2 && region.kind == kind {
            return Some(i);
        }
        i = i + 1;
    }
    None
}

/// What a finding adds: to its region, or a region of its own, unless there are too many.
pub open spec fn after_finding(
    state: Tallied,
    scene: Scene,
    max_regions: usize,
    index: u64,
    ray: FuzzRay,
    entry: Vec3,
    target: Target,
    cost: F32,
    measurements: Seq<RoundMeasurement>,
) -> Tallied {
    let cell = measure::cell_of(entry);
    match region_from(state.regions, cell, target.kind, 0) {
        Some(i) => {
            let region = state.regions[i];
            Tallied {
                regions: state.regions.update(
                    i,
                    Found {
                        rays: bumped(region.rays),
                        targets: region.targets.insert(target.name@, ()),
                        min_axis_cost: region.min_axis_cost.smaller(cost),
                        ..region
                    },
                ),
                ..state
            }
        },
        None => if state.regions.len() >= max_regions {
            Tallied { truncated: true, ..state }
        } else {
            Tallied {
                regions: state.regions.push(
                    Found {
                        cell,
                        entry_local: entry,
                        axis_local: scene.to_local.turned(ray.direction),
                        targets: Map::<Seq<char>, ()>::empty().insert(target.name@, ()),
                        kind: target.kind,
                        rays: 1,
                        min_axis_cost: cost,
                        measurements,
                        admitting: findings::first_passing(measurements, 0),
                        witness_ray: index,
                    },
                ),
                ..state
            }
        },
    }
}

/// The table with the least of what it holds for a name and a cost.
pub open spec fn thinned(reach: Map<Seq<char>, F32>, name: Seq<char>, cost: F32) -> Map<Seq<char>, F32> {
    reach.insert(
        name,
        (if reach.contains_key(name) {
            reach[name]
        } else {
            blocked()
        }).smaller(cost),
    )
}

/// What one volume on the ray adds: to the census, and where it is a target to the
/// thinnest routes and to the findings. `measurements` are of the guns, where a region
/// is new.
pub open spec fn after_presence(
    state: Tallied,
    scene: Scene,
    floor: F32,
    max_regions: usize,
    index: u64,
    ray: FuzzRay,
    axis: RayWalk,
    met: EntityPresence,
    measurements: Seq<RoundMeasurement>,
) -> Tallied {
    let state = if F32::zero().below(met.chord) {
        Tallied { census: counted(state.census, scene::label_of(scene, met.entity)), ..state }
    } else {
        state
    };
    match target_from(scene.targets@, met.entity, 0) {
        None => state,
        Some(i) => if met.spans@.len() == 0 {
            state
        } else {
            let target = scene.targets@[i];
            let cost = measure::prefix_of(axis.spans@, met.spans@[0].0, axis.spans@.len() as int).halved();
            let state = Tallied { min_reach: thinned(state.min_reach, target.name@, cost), ..state };
            if floor.at_most(cost) {
                state
            } else {
                match measure::pierced(scene, ray) {
                    None => state,
                    Some(entry) => after_finding(
                        state,
                        scene,
                        max_regions,
                        index,
                        ray,
                        entry,
                        target,
                        cost,
                        measurements,
                    ),
                }
            }
        },
    }
}

/// What the first `n` volumes on the ray add.
pub open spec fn after_presences(
    state: Tallied,
    scene: Scene,
    floor: F32,
    max_regions: usize,
    index: u64,
    ray: FuzzRay,
    axis: RayWalk,
    sweeps: Seq<Seq<RoundMeasurement>>,
    n: int,
) -> Tallied
    decreases n,
{
    if n <= 0 {
        state
    } else {
        after_presence(
            after_presences(state, scene, floor, max_regions, index, ray, axis, sweeps, n - 1),
            scene,
            floor,
            max_regions,
            index,
            ray,
            axis,
            axis.presence@[n - 1],
            sweeps[n - 1],
        )
    }
}

/// Every region names one of the guns, or none.
pub open spec fn regions_fit(report: Report) -> bool {
    forall|i: int| 0 <= i < report.regions@.len() ==> (#[trigger] report.regions@[i]).wf()
}

fn add_finding(
    scene: &Scene,
    max_regions: usize,
    index: u64,
    ray: &FuzzRay,
    entry: Vec3,
    target: &Target,
    entity: Entity,
    cost: F32,
    report: &mut Report,
) -> (measurements: Ghost<Seq<RoundMeasurement>>)
    requires
        scene.wf(),
        regions_fit(*old(report)),
    ensures
        measure::is_sweep(measurements@, *scene, *ray, entity) || region_from(
            tally_of(*old(report)).regions,
            measure::cell_of(entry),
            target.kind,
            0,
        ) is Some || old(report).regions@.len() >= max_regions,
        tally_of(*final(report)) == after_finding(
            tally_of(*old(report)),
            *scene,
            max_regions,
            index,
            *ray,
            entry,
            *target,
            cost,
            measurements@,
        ),
        same_run(*final(report), *old(report)),
        regions_fit(*final(report)),
{
    let cell: (i32, i32, i32) = cell_at(entry);
    let ghost before = tally_of(*report);
    match find_region(&report.regions, cell, target.kind) {
        Some(i) => {
            let ghost listed = report.regions@;
            let region: &mut Region = &mut report.regions[i];
            region.rays = bump(region.rays);
            region.targets.set(&target.name, ());
            region.min_axis_cost = region.min_axis_cost.min(cost);
            proof {
                let expected = after_finding(
                    before,
                    *scene,
                    max_regions,
                    index,
                    *ray,
                    entry,
                    *target,
                    cost,
                    Seq::empty(),
                );
                assert(tally_of(*report).regions =~= expected.regions);
            }
            Ghost(Seq::empty())
        },
        None => {
            if report.regions.len() >= max_regions {
                report.sweeps_truncated = true;
                return Ghost(Seq::empty());
            }
            let measurements: Vec<RoundMeasurement> = sweep(scene, ray, entity);
            let admitting: Option<usize> = admitting_round(&measurements);
            let mut targets: Table<()> = Table::new();
            targets.set(&target.name, ());
            let ghost seen = measurements@;
            report.regions.push(
                Region {
                    cell,
                    entry_local: entry,
                    axis_local: scene.to_local.vector(ray.direction),
                    targets,
                    kind: target.kind,
                    rays: 1,
                    min_axis_cost: cost,
                    measurements,
                    admitting,
                    witness_ray: index,
                },
            );
            proof {
                let expected = after_finding(
                    before,
                    *scene,
                    max_regions,
                    index,
                    *ray,
                    entry,
                    *target,
                    cost,
                    seen,
                );
                assert(tally_of(*report).regions =~= expected.regions);
            }
            Ghost(seen)
        },
    }
}

/// A volume on the ray opens a region of its own.
pub open spec fn opens_region(
    state: Tallied,
    scene: Scene,
    floor: F32,
    max_regions: usize,
    ray: FuzzRay,
    axis: RayWalk,
    met: EntityPresence,
) -> bool {
    target_from(scene.targets@, met.entity, 0) matches Some(i) && met.spans@.len() > 0 && !floor.at_most(
        measure::prefix_of(axis.spans@, met.spans@[0].0, axis.spans@.len() as int).halved(),
    ) && (measure::pierced(scene, ray) matches Some(entry) && region_from(
        state.regions,
        measure::cell_of(entry),
        scene.targets@[i].kind,
        0,
    ) is None && state.regions.len() < max_regions)
}

/// The measurements of every region that the first `n` volumes open are of every gun.
pub open spec fn are_sweeps(
    state: Tallied,
    scene: Scene,
    floor: F32,
    max_regions: usize,
    index: u64,
    ray: FuzzRay,
    axis: RayWalk,
    sweeps: Seq<Seq<RoundMeasurement>>,
    n: int,
) -> bool {
    forall|i: int|
        0 <= i < n && opens_region(
            after_presences(state, scene, floor, max_regions, index, ray, axis, sweeps, i),
            scene,
            floor,
            max_regions,
            ray,
            axis,
            axis.presence@[i],
        ) ==> measure::is_sweep(#[trigger] sweeps[i], scene, ray, axis.presence@[i].entity)
}

/// Folds one volume on the ray into the report.
fn add_presence(
    scene: &Scene,
    floor: F32,
    max_regions: usize,
    index: u64,
    ray: &FuzzRay,
    axis: &RayWalk,
    met: &EntityPresence,
    report: &mut Report,
) -> (measurements: Ghost<Seq<RoundMeasurement>>)
    requires
        scene.wf(),
        scene::is_written(*scene, met.entity),
        regions_fit(*old(report)),
    ensures
        opens_region(tally_of(*old(report)), *scene, floor, max_regions, *ray, *axis, *met) ==> measure::is_sweep(
            measurements@,
            *scene,
            *ray,
            met.entity,
        ),
        tally_of(*final(report)) == after_presence(
            tally_of(*old(report)),
            *scene,
            floor,
            max_regions,
            index,
            *ray,
            *axis,
            *met,
            measurements@,
        ),
        same_run(*final(report), *old(report)),
        regions_fit(*final(report)),
{
    if F32::zero().lt(met.chord) {
        let name: String = volume_name(scene, met.entity);
        count(&mut report.presence_census, &name);
    }
    let target: &Target = match find_target(&scene.targets, met.entity) {
        Some(i) => &scene.targets[i],
        None => {
            return Ghost(Seq::empty());
        },
    };
    if met.spans.len() == 0 {
        return Ghost(Seq::empty());
    }
    let cost: F32 = prefix_cost(&axis.spans, met.spans[0].0).to_single();
    let thinnest: F32 = match report.min_reach.get(&target.name) {
        Some(thinnest) => thinnest,
        None => blocked(),
    };
    report.min_reach.set(&target.name, thinnest.min(cost));
    if floor.le(cost) {
        return Ghost(Seq::empty());
    }
    let entry: Vec3 = match pierce_local(scene, ray) {
        Some(entry) => entry,
        None => {
            return Ghost(Seq::empty());
        },
    };
    add_finding(scene, max_regions, index, ray, entry, target, met.entity, cost, report)
}

proof fn lemma_sweeps_extend(
    state: Tallied,
    scene: Scene,
    floor: F32,
    max_regions: usize,
    index: u64,
    ray: FuzzRay,
    axis: RayWalk,
    sweeps: Seq<Seq<RoundMeasurement>>,
    more: Seq<RoundMeasurement>,
    n: int,
)
    requires
        n <= sweeps.len(),
    ensures
        after_presences(state, scene, floor, max_regions, index, ray, axis, sweeps.push(more), n) == after_presences(
            state,
            scene,
            floor,
            max_regions,
            index,
            ray,
            axis,
            sweeps,
            n,
        ),
    decreases n,
{
    if n > 0 {
        lemma_sweeps_extend(state, scene, floor, max_regions, index, ray, axis, sweeps, more, n - 1);
        assert(sweeps.push(more)[n - 1] == sweeps[n - 1]);
    }
}

/// Folds one ray's volumes into the report, in order.
fn cluster_findings(
    scene: &Scene,
    floor: F32,
    max_regions: usize,
    index: u64,
    ray: &FuzzRay,
    axis: &RayWalk,
    report: &mut Report,
) -> (sweeps: Ghost<Seq<Seq<RoundMeasurement>>>)
    requires
        scene.wf(),
        forall|i: int| 0 <= i < axis.presence@.len() ==> scene::is_written(*scene, (#[trigger] axis.presence@[i]).entity),
        regions_fit(*old(report)),
    ensures
        sweeps@.len() == axis.presence@.len(),
        are_sweeps(
            tally_of(*old(report)),
            *scene,
            floor,
            max_regions,
            index,
            *ray,
            *axis,
            sweeps@,
            axis.presence@.len() as int,
        ),
        tally_of(*final(report)) == after_presences(
            tally_of(*old(report)),
            *scene,
            floor,
            max_regions,
            index,
            *ray,
            *axis,
            sweeps@,
            axis.presence@.len() as int,
        ),
        same_run(*final(report), *old(report)),
        regions_fit(*final(report)),
{
    let ghost start = tally_of(*report);
    let ghost mut sweeps: Seq<Seq<RoundMeasurement>> = Seq::empty();
    let mut n: usize = 0;
    while n < axis.presence.len()
        invariant
            n <= axis.presence@.len(),
            scene.wf(),
            forall|i: int|
                0 <= i < axis.presence@.len() ==> scene::is_written(*scene, (#[trigger] axis.presence@[i]).entity),
            regions_fit(*report),
            sweeps.len() == n,
            start == tally_of(*old(report)),
            are_sweeps(start, *scene, floor, max_regions, index, *ray, *axis, sweeps, n as int),
            tally_of(*report) == after_presences(
                start,
                *scene,
                floor,
                max_regions,
                index,
                *ray,
                *axis,
                sweeps,
                n as int,
            ),
            same_run(*report, *old(report)),
        decreases axis.presence.len() - n,
    {
        let ghost earlier = sweeps;
        let ghost before = tally_of(*report);
        let seen: Ghost<Seq<RoundMeasurement>> = add_presence(
            scene,
            floor,
            max_regions,
            index,
            ray,
            axis,
            &axis.presence[n],
            report,
        );
        proof {
            sweeps = earlier.push(seen@);
            assert forall|i: int| 0 <= i <= n implies #[trigger] after_presences(
                start,
                *scene,
                floor,
                max_regions,
                index,
                *ray,
                *axis,
                sweeps,
                i,
            ) == after_presences(start, *scene, floor, max_regions, index, *ray, *axis, earlier, i) by {
                lemma_sweeps_extend(start, *scene, floor, max_regions, index, *ray, *axis, earlier, seen@, i);
            }
            assert forall|i: int|
                0 <= i < n + 1 && opens_region(
                    after_presences(start, *scene, floor, max_regions, index, *ray, *axis, sweeps, i),
                    *scene,
                    floor,
                    max_regions,
                    *ray,
                    *axis,
                    axis.presence@[i],
                ) implies measure::is_sweep(#[trigger] sweeps[i], *scene, *ray, axis.presence@[i].entity) by {
                if i < n {
                    assert(sweeps[i] == earlier[i]);
                } else {
                    assert(sweeps[i] == seen@);
                }
            }
        }
        n = n + 1;
    }
    Ghost(sweeps)
}

/// What the world answered about one ray.
pub struct Observation {
    pub probed: Result<DiscWalk, WalkError>,
    pub crossings: Seq<(F64, F32)>,
    pub gate: Option<Gate>,
    pub sweeps: Seq<Seq<RoundMeasurement>>,
}

/// The duplication test runs on a ray.
pub open spec fn is_gated(config: FuzzConfig, index: u64, axis: RayWalk) -> bool {
    is_crossed(axis) && config.duplication_stride > 0 && index % config.duplication_stride == 0
}

/// A ray that was walked, before its volumes are folded in.
pub open spec fn after_checks(state: Tallied, config: FuzzConfig, index: u64, axis: RayWalk, gate: Option<Gate>) -> Tallied {
    let counted = if is_crossed(axis) {
        Tallied { crossing: bumped(state.crossing), ..state }
    } else {
        state
    };
    let checked = after_invariants(counted, index, is_crossed(axis), axis);
    if is_gated(config, index, axis) {
        after_gate(checked, index, gate)
    } else {
        checked
    }
}

/// What one ray adds.
pub open spec fn after_ray(
    state: Tallied,
    scene: Scene,
    config: FuzzConfig,
    index: u64,
    ray: FuzzRay,
    seen: Observation,
) -> Tallied {
    match seen.probed {
        Err(error) => after_failure(state, scene, index, ray, error, seen.crossings),
        Ok(walk) => after_presences(
            after_checks(state, config, index, walk.walks@[0], seen.gate),
            scene,
            measure::floor_of(config, scene.capabilities@),
            config.max_region_sweeps,
            index,
            ray,
            walk.walks@[0],
            seen.sweeps,
            walk.walks@[0].presence@.len() as int,
        ),
    }
}

/// The observation is what the scene answers for the ray.
pub open spec fn is_observed(
    seen: Observation,
    state: Tallied,
    scene: Scene,
    config: FuzzConfig,
    index: u64,
    ray: FuzzRay,
) -> bool {
    &&& scene::is_probe(seen.probed, scene, ray, F32::zero())
    &&& match seen.probed {
        Err(error) => are_blamed_crossings(seen.crossings, scene, ray, error),
        Ok(walk) => {
            &&& is_gated(config, index, walk.walks@[0]) ==> is_gate(seen.gate, scene, ray)
            &&& are_sweeps(
                after_checks(state, config, index, walk.walks@[0], seen.gate),
                scene,
                measure::floor_of(config, scene.capabilities@),
                config.max_region_sweeps,
                index,
                ray,
                walk.walks@[0],
                seen.sweeps,
                walk.walks@[0].presence@.len() as int,
            )
        },
    }
}

/// The shot line of a ray of the run.
pub open spec fn ray_at(
    scene: Scene,
    config: FuzzConfig,
    turns: Seq<((F32, F32), (F32, F32))>,
    index: int,
) -> FuzzRay {
    rays::ray_of(
        rays::draws_of(config.seed, index as u64),
        config.miss_fraction,
        scene.center,
        scene.radius,
        turns[index].0,
        turns[index].1,
    )
}

/// Nothing learned yet.
pub open spec fn nothing_tallied() -> Tallied {
    Tallied {
        crossing: 0,
        checks: 0,
        violations: Seq::empty(),
        failures: Seq::empty(),
        regions: Seq::empty(),
        min_reach: Map::empty(),
        blamed: Map::empty(),
        census: Map::empty(),
        truncated: false,
    }
}

/// What the first `n` rays add up to.
pub open spec fn after_rays(
    scene: Scene,
    config: FuzzConfig,
    turns: Seq<((F32, F32), (F32, F32))>,
    seen: Seq<Observation>,
    n: int,
) -> Tallied
    decreases n,
{
    if n <= 0 {
        nothing_tallied()
    } else {
        after_ray(
            after_rays(scene, config, turns, seen, n - 1),
            scene,
            config,
            (n - 1) as u64,
            ray_at(scene, config, turns, n - 1),
            seen[n - 1],
        )
    }
}

/// The first `n` rays were observed.
pub open spec fn all_observed(
    scene: Scene,
    config: FuzzConfig,
    turns: Seq<((F32, F32), (F32, F32))>,
    seen: Seq<Observation>,
    n: int,
) -> bool {
    forall|i: int|
        0 <= i < n ==> is_observed(
            #[trigger] seen[i],
            after_rays(scene, config, turns, seen, i),
            scene,
            config,
            i as u64,
            ray_at(scene, config, turns, i),
        )
}

/// One ray, probed and folded in.
fn run_ray(scene: &Scene, config: &FuzzConfig, floor: F32, index: u64, ray: &FuzzRay, report: &mut Report) -> (seen: Ghost<
    Observation,
>)
    requires
        scene.wf(),
        regions_fit(*old(report)),
        floor == measure::floor_of(*config, scene.capabilities@),
    ensures
        is_observed(seen@, tally_of(*old(report)), *scene, *config, index, *ray),
        tally_of(*final(report)) == after_ray(tally_of(*old(report)), *scene, *config, index, *ray, seen@),
        same_run(*final(report), *old(report)),
        regions_fit(*final(report)),
{
    let ghost start = tally_of(*report);
    let probed: Result<DiscWalk, WalkError> = probe(scene, ray, F32::zero());
    let ghost outcome = probed;
    proof {
        naming::law_a_probe_speaks_of_what_is_written(probed, *scene, *ray, F32::zero());
    }
    let walk: DiscWalk = match probed {
        Ok(walk) => walk,
        Err(error) => {
            let crossings: Vec<(F64, F32)> = blamed_crossings(scene, ray, &error);
            let ghost seen = Observation {
                probed: outcome,
                crossings: crossings@,
                gate: None,
                sweeps: Seq::empty(),
            };
            record_failure(scene, index, ray, error, crossings, report);
            return Ghost(seen);
        },
    };
    let axis: &RayWalk = &walk.walks[0];
    let crossed: bool = crossed_any(axis);
    if crossed {
        report.rays_crossing = bump(report.rays_crossing);
    }
    check_ray_invariants(index, crossed, axis, report);
    let mut gate: Option<Gate> = None;
    if crossed && config.duplication_stride > 0 && index % config.duplication_stride == 0 {
        gate = run_gate(scene, ray);
        duplication_gate(index, &gate, report);
    }
    assert(tally_of(*report) == after_checks(start, *config, index, *axis, gate));
    let sweeps: Ghost<Seq<Seq<RoundMeasurement>>> = cluster_findings(
        scene,
        floor,
        config.max_region_sweeps,
        index,
        ray,
        axis,
        report,
    );
    Ghost(Observation { probed: outcome, crossings: Seq::empty(), gate, sweeps: sweeps@ })
}

/// One region stands before the other: by cost, then by cell, then by kind.
pub open spec fn stands_before(a: Found, b: Found) -> bool {
    ||| a.min_axis_cost.rank() < b.min_axis_cost.rank()
    ||| a.min_axis_cost.rank() == b.min_axis_cost.rank() && key_before(a, b)
}

/// Cells and kinds order by component.
pub open spec fn key_before(a: Found, b: Found) -> bool {
    ||| a.cell.0 < b.cell.0
    ||| a.cell.0 == b.cell.0 && a.cell.1 < b.cell.1
    ||| a.cell.0 == b.cell.0 && a.cell.1 == b.cell.1 && a.cell.2 < b.cell.2
    ||| a.cell == b.cell && a.kind is Crew && b.kind is Ammo
}

/// No region stands before one that comes earlier.
pub open spec fn is_ranked(regions: Seq<Found>) -> bool {
    forall|i: int, j: int| 0 <= i < j < regions.len() ==> !stands_before(#[trigger] regions[j], #[trigger] regions[i])
}

fn is_region_before(a: &Region, b: &Region) -> (yes: bool)
    ensures
        yes == stands_before(found_of(*a), found_of(*b)),
{
    let x: u64 = a.min_axis_cost.order_key();
    let y: u64 = b.min_axis_cost.order_key();
    if x != y {
        return x < y;
    }
    if a.cell.0 != b.cell.0 {
        return a.cell.0 < b.cell.0;
    }
    if a.cell.1 != b.cell.1 {
        return a.cell.1 < b.cell.1;
    }
    if a.cell.2 != b.cell.2 {
        return a.cell.2 < b.cell.2;
    }
    match (a.kind, b.kind) {
        (TargetKind::Crew, TargetKind::Ammo) => true,
        (_, _) => false,
    }
}

spec fn found_all(regions: Seq<Region>) -> Seq<Found> {
    regions.map_values(|region: Region| found_of(region))
}

/// Sorts the regions, the cheapest first.
fn rank_regions(regions: Vec<Region>) -> (ranked: Vec<Region>)
    requires
        forall|i: int| 0 <= i < regions@.len() ==> (#[trigger] regions@[i]).wf(),
    ensures
        is_ranked(ranked@.map_values(|region: Region| found_of(region))),
        ranked@.map_values(|region: Region| found_of(region)).to_multiset() == regions@.map_values(
            |region: Region| found_of(region),
        ).to_multiset(),
        forall|i: int| 0 <= i < ranked@.len() ==> (#[trigger] ranked@[i]).wf(),
{
    broadcast use vstd::seq_lib::group_to_multiset_ensures;

    let ghost all = found_all(regions@);
    let mut rest: Vec<Region> = regions;
    let mut ranked: Vec<Region> = Vec::new();
    proof {
        assert(found_all(ranked@) =~= Seq::<Found>::empty());
        assert(found_all(rest@).to_multiset().add(found_all(ranked@).to_multiset()) =~= all.to_multiset());
    }
    loop
        invariant
            is_ranked(found_all(ranked@)),
            found_all(rest@).to_multiset().add(found_all(ranked@).to_multiset()) == all.to_multiset(),
            forall|i: int| 0 <= i < ranked@.len() ==> (#[trigger] ranked@[i]).wf(),
            forall|i: int| 0 <= i < rest@.len() ==> (#[trigger] rest@[i]).wf(),
        ensures
            is_ranked(found_all(ranked@)),
            found_all(ranked@).to_multiset() == all.to_multiset(),
            forall|i: int| 0 <= i < ranked@.len() ==> (#[trigger] ranked@[i]).wf(),
        decreases rest@.len(),
    {
        broadcast use vstd::seq_lib::group_to_multiset_ensures;

        let ghost waiting = rest@;
        let region: Region = match rest.pop() {
            Some(region) => region,
            None => {
                proof {
                    assert(found_all(rest@) =~= Seq::<Found>::empty());
                    assert(found_all(ranked@).to_multiset() =~= all.to_multiset());
                }
                break;
            },
        };
        let ghost item = found_of(region);
        let ghost before = found_all(ranked@);
        proof {
            assert(found_all(waiting) =~= found_all(rest@).push(item));
        }
        let mut at: usize = ranked.len();
        while at > 0 && is_region_before(&region, &ranked[at - 1])
            invariant
                at <= ranked@.len(),
                is_ranked(found_all(ranked@)),
                item == found_of(region),
                forall|i: int| at <= i < ranked@.len() ==> stands_before(item, #[trigger] found_all(ranked@)[i]),
            decreases at,
        {
            at = at - 1;
            assert(found_all(ranked@)[at as int] == found_of(ranked@[at as int]));
        }
        proof {
            if at > 0 {
                assert(found_all(ranked@)[at - 1] == found_of(ranked@[at - 1]));
            }
            lemma_ranked_insert(before, item, at as int);
        }
        let ghost earlier = ranked@;
        ranked.insert(at, region);
        proof {
            assert(found_all(ranked@) =~= before.insert(at as int, item));
            assert(before.insert(at as int, item).remove(at as int) =~= before);
            assert(before.insert(at as int, item)[at as int] == item);
            assert(before.insert(at as int, item).contains(item));
            assert(found_all(ranked@).to_multiset() =~= before.to_multiset().insert(item));
            assert(found_all(waiting).to_multiset() =~= found_all(rest@).to_multiset().insert(item));
            assert(found_all(rest@).to_multiset().add(found_all(ranked@).to_multiset()) =~= found_all(
                waiting,
            ).to_multiset().add(before.to_multiset()));
            assert forall|i: int| 0 <= i < ranked@.len() implies (#[trigger] ranked@[i]).wf() by {
                if i < at {
                    assert(ranked@[i] == earlier[i]);
                } else if i > at {
                    assert(ranked@[i] == earlier[i - 1]);
                }
            }
        }
    }
    ranked
}

proof fn lemma_ranked_insert(before: Seq<Found>, item: Found, at: int)
    requires
        is_ranked(before),
        0 <= at <= before.len(),
        forall|i: int| at <= i < before.len() ==> stands_before(item, #[trigger] before[i]),
        at > 0 ==> !stands_before(item, before[at - 1]),
    ensures
        is_ranked(before.insert(at, item)),
{
    let after = before.insert(at, item);
    assert forall|i: int, j: int| 0 <= i < j < after.len() implies !stands_before(
        #[trigger] after[j],
        #[trigger] after[i],
    ) by {
        if j == at {
            assert(after[i] == before[i]);
            if i < at - 1 {
                assert(!stands_before(before[at - 1], before[i]));
            }
        } else if i == at {
            assert(after[j] == before[j - 1]);
        } else {
            let x = if i < at {
                i
            } else {
                i - 1
            };
            let y = if j < at {
                j
            } else {
                j - 1
            };
            assert(after[i] == before[x] && after[j] == before[y]);
        }
    }
}

/// The report of a run: what the rays add up to, the regions ranked.
pub open spec fn is_report(
    report: Report,
    scene: Scene,
    config: FuzzConfig,
    turns: Seq<((F32, F32), (F32, F32))>,
    seen: Seq<Observation>,
) -> bool {
    let learned = after_rays(scene, config, turns, seen, seen.len() as int);
    let told = tally_of(report);
    &&& seen.len() == config.rays
    &&& all_observed(scene, config, turns, seen, seen.len() as int)
    &&& report.seed == config.seed
    &&& report.rays == config.rays
    &&& report.center == scene.center
    &&& report.radius == scene.radius
    &&& is_ranked(told.regions)
    &&& told.regions.to_multiset() == learned.regions.to_multiset()
    &&& told == (Tallied { regions: told.regions, ..learned })
}

/// Fires every ray at the scene. `turns` holds, for each ray, the cosine and sine of its
/// azimuth and of its angle around the disc (see [`draws_for`]).
pub fn run_fuzz(config: &FuzzConfig, scene: &Scene, turns: &Vec<((F32, F32), (F32, F32))>) -> (report: Report)
    requires
        scene.wf(),
        turns@.len() == config.rays,
    ensures
        exists|seen: Seq<Observation>| #[trigger] is_report(report, *scene, *config, turns@, seen),
        regions_fit(report),
{
    let floor: F32 = finding_floor(config, &scene.capabilities);
    let mut report: Report = Report {
        seed: config.seed,
        rays: config.rays,
        rays_crossing: 0,
        duplication_checks: 0,
        violations: Vec::new(),
        walk_errors: Vec::new(),
        regions: Vec::new(),
        min_reach: Table::new(),
        walk_error_volumes: Table::new(),
        presence_census: Table::new(),
        sweeps_truncated: false,
        center: scene.center,
        radius: scene.radius,
    };
    let ghost fresh = report;
    let ghost mut seen: Seq<Observation> = Seq::empty();
    proof {
        let told = tally_of(report);
        assert(told.failures =~= Seq::<Failed>::empty());
        assert(told.regions =~= Seq::<Found>::empty());
        assert(told.violations =~= Seq::<Violation>::empty());
        assert(told == nothing_tallied());
    }
    let mut index: usize = 0;
    while index < turns.len()
        invariant
            index <= turns@.len(),
            turns@.len() == config.rays,
            scene.wf(),
            floor == measure::floor_of(*config, scene.capabilities@),
            seen.len() == index,
            all_observed(*scene, *config, turns@, seen, index as int),
            tally_of(report) == after_rays(*scene, *config, turns@, seen, index as int),
            same_run(report, fresh),
            regions_fit(report),
        decreases turns.len() - index,
    {
        let draws: Draws = draws_for(config.seed, index as u64);
        let ray: FuzzRay = ray_for(
            &draws,
            config.miss_fraction,
            scene.center,
            scene.radius,
            turns[index].0,
            turns[index].1,
        );
        let ghost earlier = seen;
        let told: Ghost<Observation> = run_ray(scene, config, floor, index as u64, &ray, &mut report);
        proof {
            seen = earlier.push(told@);
            assert forall|i: int| 0 <= i <= index implies #[trigger] after_rays(*scene, *config, turns@, seen, i)
                == after_rays(*scene, *config, turns@, earlier, i) by {
                lemma_rays_extend(*scene, *config, turns@, earlier, told@, i);
            }
            assert forall|i: int| 0 <= i < index + 1 implies is_observed(
                #[trigger] seen[i],
                after_rays(*scene, *config, turns@, seen, i),
                *scene,
                *config,
                i as u64,
                ray_at(*scene, *config, turns@, i),
            ) by {
                if i < index {
                    assert(seen[i] == earlier[i]);
                } else {
                    assert(seen[i] == told@);
                }
            }
        }
        index = index + 1;
    }
    let ghost learned = tally_of(report);
    let mut regions: Vec<Region> = Vec::new();
    std::mem::swap(&mut regions, &mut report.regions);
    report.regions = rank_regions(regions);
    proof {
        let told = tally_of(report);
        assert(told == (Tallied { regions: told.regions, ..learned }));
        assert(is_report(report, *scene, *config, turns@, seen));
    }
    report
}

proof fn lemma_rays_extend(
    scene: Scene,
    config: FuzzConfig,
    turns: Seq<((F32, F32), (F32, F32))>,
    seen: Seq<Observation>,
    more: Observation,
    n: int,
)
    requires
        n <= seen.len(),
    ensures
        after_rays(scene, config, turns, seen.push(more), n) == after_rays(scene, config, turns, seen, n),
    decreases n,
{
    if n > 0 {
        lemma_rays_extend(scene, config, turns, seen, more, n - 1);
        assert(seen.push(more)[n - 1] == seen[n - 1]);
    }
}


proof fn lemma_the_first_target_is_found(targets: Seq<Target>, entity: Entity, from: int)
    requires
        0 <= from,
    ensures
        match target_from(targets, entity, from) {
            Some(place) => exists|i: int|
                {
                    &&& from <= i < targets.len()
                    &&& (#[trigger] targets[i]).entity == entity
                    &&& place == i
                    &&& forall|j: int| from <= j < i ==> !((#[trigger] targets[j]).entity == entity)
                },
            None => forall|j: int| from <= j < targets.len() ==> !((#[trigger] targets[j]).entity == entity),
        },
    decreases targets.len() - from,
{
    if from < targets.len() && !(targets[from].entity == entity) {
        lemma_the_first_target_is_found(targets, entity, from + 1);
    } else if from < targets.len() {
        assert(targets[from].entity == entity);
    }
}

/// The target found for an entity is the first that is it; none exactly where no target is.
pub proof fn law_the_first_target_is_found(targets: Seq<Target>, entity: Entity)
    ensures
        match target_from(targets, entity, 0) {
            Some(place) => exists|i: int|
                {
                    &&& 0 <= i < targets.len()
                    &&& (#[trigger] targets[i]).entity == entity
                    &&& place == i
                    &&& forall|j: int| 0 <= j < i ==> !((#[trigger] targets[j]).entity == entity)
                },
            None => forall|j: int| 0 <= j < targets.len() ==> !((#[trigger] targets[j]).entity == entity),
        },
{
    lemma_the_first_target_is_found(targets, entity, 0);
}

proof fn lemma_the_first_region_is_found(regions: Seq<Found>, cell: (i32, i32, i32), kind: TargetKind, from: int)
    requires
        0 <= from,
    ensures
        match region_from(regions, cell, kind, from) {
            Some(place) => exists|i: int|
                {
                    &&& from <= i < regions.len()
                    &&& (#[trigger] regions[i]).cell == cell && (#[trigger] regions[i]).kind == kind
                    &&& place == i
                    &&& forall|j: int| from <= j < i ==> !((#[trigger] regions[j]).cell == cell && (#[trigger] regions[j]).kind == kind)
                },
            None => forall|j: int| from <= j < regions.len() ==> !((#[trigger] regions[j]).cell == cell && (#[trigger] regions[j]).kind == kind),
        },
    decreases regions.len() - from,
{
    if from < regions.len() && !(regions[from].cell == cell && regions[from].kind == kind) {
        lemma_the_first_region_is_found(regions, cell, kind, from + 1);
    } else if from < regions.len() {
        assert(regions[from].cell == cell && regions[from].kind == kind);
    }
}

/// The region found is the first of its cell and its kind; none exactly where there is none.
pub proof fn law_the_first_region_is_found(regions: Seq<Found>, cell: (i32, i32, i32), kind: TargetKind)
    ensures
        match region_from(regions, cell, kind, 0) {
            Some(place) => exists|i: int|
                {
                    &&& 0 <= i < regions.len()
                    &&& (#[trigger] regions[i]).cell == cell && (#[trigger] regions[i]).kind == kind
                    &&& place == i
                    &&& forall|j: int| 0 <= j < i ==> !((#[trigger] regions[j]).cell == cell && (#[trigger] regions[j]).kind == kind)
                },
            None => forall|j: int| 0 <= j < regions.len() ==> !((#[trigger] regions[j]).cell == cell && (#[trigger] regions[j]).kind == kind),
        },
{
    lemma_the_first_region_is_found(regions, cell, kind, 0);
}

} // verus!
