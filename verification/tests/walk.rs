//! Synthetic hit lists walked through the library. The fixtures speak native
//! numbers; the types below mirror the library's and hand their bits across.

use overmatch::ballistics::walk as lib;
use overmatch::ballistics::walk::vocabulary::{Contact, Entity, ShellKey};
use overmatch::ballistics::walk::events::BoundaryKind;
use overmatch::float::{F32, F64};
use std::ops::{Add, AddAssign, Div, Mul, Neg, Sub};

// ---------------------------------------------------------------------------------------------
// Native mirrors
// ---------------------------------------------------------------------------------------------

fn s(x: f32) -> F32 {
    F32::from_bits(x.to_bits())
}

fn d(x: f64) -> F64 {
    F64::from_bits(x.to_bits())
}

fn ns(x: F32) -> f32 {
    f32::from_bits(x.to_bits())
}

fn nd(x: F64) -> f64 {
    f64::from_bits(x.to_bits())
}

#[derive(Clone, Copy, Debug, PartialEq)]
struct Vec3 {
    x: f32,
    y: f32,
    z: f32,
}

impl Vec3 {
    const ZERO: Vec3 = Vec3 { x: 0.0, y: 0.0, z: 0.0 };
    const X: Vec3 = Vec3 { x: 1.0, y: 0.0, z: 0.0 };
    const Y: Vec3 = Vec3 { x: 0.0, y: 1.0, z: 0.0 };
    const Z: Vec3 = Vec3 { x: 0.0, y: 0.0, z: 1.0 };

    fn new(x: f32, y: f32, z: f32) -> Self {
        Self { x, y, z }
    }

    fn dot(self, other: Vec3) -> f32 {
        (self.x * other.x) + (self.y * other.y) + (self.z * other.z)
    }

    fn cross(self, other: Vec3) -> Vec3 {
        Vec3::new(
            self.y * other.z - other.y * self.z,
            self.z * other.x - other.z * self.x,
            self.x * other.y - other.x * self.y,
        )
    }

    fn length(self) -> f32 {
        self.dot(self).sqrt()
    }

    fn normalize(self) -> Vec3 {
        self * (1.0 / self.length())
    }

    fn to_array(self) -> [f32; 3] {
        [self.x, self.y, self.z]
    }

    fn lateral(self) -> f32 {
        (self.x * self.x + self.y * self.y).sqrt()
    }

    fn angle_between(self, other: Vec3) -> f32 {
        let cosine = self.dot(other) / (self.dot(self) * other.dot(other)).sqrt();
        cosine.clamp(-1.0, 1.0).acos()
    }

    fn lib(self) -> overmatch::vector::Vec3 {
        overmatch::vector::Vec3 { x: s(self.x), y: s(self.y), z: s(self.z) }
    }

    fn from_lib(v: overmatch::vector::Vec3) -> Vec3 {
        Vec3::new(ns(v.x), ns(v.y), ns(v.z))
    }
}

impl Add for Vec3 {
    type Output = Vec3;
    fn add(self, other: Vec3) -> Vec3 {
        Vec3::new(self.x + other.x, self.y + other.y, self.z + other.z)
    }
}

impl AddAssign for Vec3 {
    fn add_assign(&mut self, other: Vec3) {
        *self = *self + other;
    }
}

impl Sub for Vec3 {
    type Output = Vec3;
    fn sub(self, other: Vec3) -> Vec3 {
        Vec3::new(self.x - other.x, self.y - other.y, self.z - other.z)
    }
}

impl Mul<f32> for Vec3 {
    type Output = Vec3;
    fn mul(self, by: f32) -> Vec3 {
        Vec3::new(self.x * by, self.y * by, self.z * by)
    }
}

impl Div<f32> for Vec3 {
    type Output = Vec3;
    fn div(self, by: f32) -> Vec3 {
        Vec3::new(self.x / by, self.y / by, self.z / by)
    }
}

impl Neg for Vec3 {
    type Output = Vec3;
    fn neg(self) -> Vec3 {
        Vec3::new(-self.x, -self.y, -self.z)
    }
}

/// Turns `v` by `angle` about the unit vector `about`.
fn turned(v: Vec3, about: Vec3, angle: f32) -> Vec3 {
    let (sin, cos) = angle.sin_cos();
    v * cos + about.cross(v) * sin + about * (about.dot(v) * (1.0 - cos))
}

/// Turns `from` toward `toward` by `angle`.
fn bend_toward(from: Vec3, toward: Vec3, angle: f32) -> Vec3 {
    let about = from.cross(toward);
    if about.length() < 1.0e-7 {
        return from;
    }
    turned(from, about.normalize(), angle).normalize()
}

fn reflect(direction: Vec3, surface: Vec3) -> Vec3 {
    direction - surface * (2.0 * direction.dot(surface))
}

/// Turns `v` by the least rotation that takes `from` to `to`.
fn carry(v: Vec3, from: Vec3, to: Vec3) -> Vec3 {
    let about = from.cross(to);
    if about.length() < 1.0e-7 {
        return v;
    }
    turned(v, about.normalize(), from.angle_between(to))
}

#[derive(Clone, Copy, Debug, PartialEq)]
struct FaceHit {
    volume: Entity,
    primitive: Entity,
    shell: u32,
    contact: Contact,
    triangle: u32,
    t: f64,
    true_normal: Vec3,
}

impl FaceHit {
    fn lib(&self) -> lib::vocabulary::FaceHit {
        lib::vocabulary::FaceHit {
            volume: self.volume,
            primitive: self.primitive,
            shell: self.shell,
            contact: self.contact,
            triangle: self.triangle,
            t: d(self.t),
            true_normal: self.true_normal.lib(),
        }
    }
}

#[derive(Clone, Debug)]
struct RayCorridor {
    anchor: Vec3,
    origin: Vec3,
    axis: Vec3,
    length: f32,
    initial_presence: Vec<ShellKey>,
    hits: Vec<FaceHit>,
}

impl RayCorridor {
    fn lib(&self) -> lib::vocabulary::RayCorridor {
        lib::vocabulary::RayCorridor {
            anchor: self.anchor.lib(),
            origin: self.origin.lib(),
            axis: self.axis.lib(),
            length: s(self.length),
            initial_presence: self.initial_presence.clone(),
            hits: self.hits.iter().map(|hit| hit.lib()).collect(),
        }
    }
}

#[derive(Clone, Copy, Debug)]
struct WalkLaws {
    topology_abs: f32,
    topology_rel: f32,
    tangent_cos: f32,
    weld_perp: f32,
    weld_face_cos: f32,
    weld_max_lookahead: f32,
    weld_run_gap_budget: f32,
    event_plane_cos: f32,
    event_plane_tolerance: f32,
    event_residual_tolerance: f32,
    event_secant_cap: f32,
    ricochet_angle: f32,
    ricochet_bleed: f32,
    normalization: f32,
    overmatch_ratio: f32,
    rha_reference: f32,
}

impl Default for WalkLaws {
    fn default() -> Self {
        let laws = lib::vocabulary::WalkLaws::default();
        WalkLaws {
            topology_abs: ns(laws.topology_abs),
            topology_rel: ns(laws.topology_rel),
            tangent_cos: ns(laws.tangent_cos),
            weld_perp: ns(laws.weld_perp),
            weld_face_cos: ns(laws.weld_face_cos),
            weld_max_lookahead: ns(laws.weld_max_lookahead),
            weld_run_gap_budget: ns(laws.weld_run_gap_budget),
            event_plane_cos: ns(laws.event_plane_cos),
            event_plane_tolerance: ns(laws.event_plane_tolerance),
            event_residual_tolerance: ns(laws.event_residual_tolerance),
            event_secant_cap: ns(laws.event_secant_cap),
            ricochet_angle: ns(laws.ricochet_angle),
            ricochet_bleed: ns(laws.ricochet_bleed),
            normalization: ns(laws.normalization),
            overmatch_ratio: ns(laws.overmatch_ratio),
            rha_reference: ns(laws.rha_reference),
        }
    }
}

impl WalkLaws {
    fn lib(&self) -> lib::vocabulary::WalkLaws {
        lib::vocabulary::WalkLaws {
            topology_abs: s(self.topology_abs),
            topology_rel: s(self.topology_rel),
            tangent_cos: s(self.tangent_cos),
            weld_perp: s(self.weld_perp),
            weld_face_cos: s(self.weld_face_cos),
            weld_max_lookahead: s(self.weld_max_lookahead),
            weld_run_gap_budget: s(self.weld_run_gap_budget),
            event_plane_cos: s(self.event_plane_cos),
            event_plane_tolerance: s(self.event_plane_tolerance),
            event_residual_tolerance: s(self.event_residual_tolerance),
            event_secant_cap: s(self.event_secant_cap),
            ricochet_angle: s(self.ricochet_angle),
            ricochet_bleed: s(self.ricochet_bleed),
            normalization: s(self.normalization),
            overmatch_ratio: s(self.overmatch_ratio),
            rha_reference: s(self.rha_reference),
        }
    }
}

#[derive(Clone, Debug, PartialEq)]
enum WalkError {
    BadFactor { volume: Entity },
    UnknownVolume { volume: Entity },
    BadCorridor { sample: usize, reason: &'static str },
    UnexpectedExit { sample: usize, key: ShellKey, t: f64, triangles: Vec<u32> },
    UnexpectedEntry { sample: usize, key: ShellKey, t: f64, triangles: Vec<u32> },
    UnrepresentableChord { sample: usize, key: ShellKey, t: f64 },
    IncompleteCorridor { sample: usize, open: Vec<ShellKey>, length: f32 },
    CorridorMismatch { reason: &'static str },
    DegenerateEntryNormal { coverage: f32 },
    Other,
}

impl WalkError {
    fn from_lib(error: lib::vocabulary::WalkError) -> WalkError {
        match error {
            lib::vocabulary::WalkError::BadFactor { volume, .. } => WalkError::BadFactor { volume },
            lib::vocabulary::WalkError::UnknownVolume { volume } => WalkError::UnknownVolume { volume },
            lib::vocabulary::WalkError::BadCorridor { sample, reason } => {
                WalkError::BadCorridor { sample, reason }
            }
            lib::vocabulary::WalkError::UnexpectedExit { sample, key, t, triangles } => {
                WalkError::UnexpectedExit { sample, key, t: nd(t), triangles }
            }
            lib::vocabulary::WalkError::UnexpectedEntry { sample, key, t, triangles } => {
                WalkError::UnexpectedEntry { sample, key, t: nd(t), triangles }
            }
            lib::vocabulary::WalkError::UnrepresentableChord { sample, key, t, .. } => {
                WalkError::UnrepresentableChord { sample, key, t: nd(t) }
            }
            lib::vocabulary::WalkError::IncompleteCorridor { sample, open, length } => {
                WalkError::IncompleteCorridor { sample, open, length: ns(length) }
            }
            lib::vocabulary::WalkError::CorridorMismatch { reason } => WalkError::CorridorMismatch { reason },
            lib::vocabulary::WalkError::DegenerateEntryNormal { coverage } => {
                WalkError::DegenerateEntryNormal { coverage: ns(coverage) }
            }
            _ => WalkError::Other,
        }
    }
}

#[derive(Debug)]
struct VolumeTable(lib::table::VolumeTable);

impl VolumeTable {
    fn new(entries: impl IntoIterator<Item = (Entity, f32)>) -> Result<VolumeTable, WalkError> {
        let entries = entries.into_iter().map(|(v, f)| (v, s(f))).collect();
        lib::table::VolumeTable::new(entries).map(VolumeTable).map_err(WalkError::from_lib)
    }

    fn factor(&self, volume: Entity) -> Result<f32, WalkError> {
        self.0.factor(volume).map(ns).map_err(WalkError::from_lib)
    }
}

#[derive(Clone, Copy, Debug, PartialEq)]
struct Span {
    start: f64,
    end: f64,
    factor: f32,
}

#[derive(Clone, Debug, PartialEq)]
struct WeldedRun {
    start: f64,
    end: f64,
    cost: f32,
    entry_normal: Vec3,
    exit_normal: Vec3,
    entry_volume: Entity,
    joints: u32,
}

#[derive(Clone, Debug, PartialEq)]
struct BoundaryEvent {
    kind: BoundaryKind,
    t: f64,
    position: Vec3,
    normal: Vec3,
    factor_before: f32,
    factor_after: f32,
    spall_budget: f32,
    welded: bool,
    run: usize,
}

#[derive(Clone, Debug, PartialEq)]
struct EntityPresence {
    entity: Entity,
    factor: f32,
    chord: f32,
    cost: f32,
    spans: Vec<(f64, f64)>,
}

#[derive(Clone, Debug, PartialEq)]
struct ShellPresence {
    key: ShellKey,
    spans: Vec<(f64, f64)>,
}

#[derive(Clone, Debug, PartialEq)]
struct RayWalk {
    spans: Vec<Span>,
    runs: Vec<WeldedRun>,
    cost: f32,
    presence: Vec<EntityPresence>,
    shells: Vec<ShellPresence>,
    events: Vec<BoundaryEvent>,
    lib: lib::ray::RayWalk,
}

fn pairs(spans: &[(F64, F64)]) -> Vec<(f64, f64)> {
    spans.iter().map(|(a, b)| (nd(*a), nd(*b))).collect()
}

impl RayWalk {
    fn from_lib(walk: lib::ray::RayWalk) -> RayWalk {
        RayWalk {
            spans: walk
                .spans
                .iter()
                .map(|x| Span { start: nd(x.start), end: nd(x.end), factor: ns(x.factor) })
                .collect(),
            runs: walk
                .runs
                .iter()
                .map(|run| WeldedRun {
                    start: nd(run.start),
                    end: nd(run.end),
                    cost: ns(run.cost),
                    entry_normal: Vec3::from_lib(run.entry_normal),
                    exit_normal: Vec3::from_lib(run.exit_normal),
                    entry_volume: run.entry_volume,
                    joints: run.joints,
                })
                .collect(),
            cost: ns(walk.cost),
            presence: walk
                .presence
                .iter()
                .map(|p| EntityPresence {
                    entity: p.entity,
                    factor: ns(p.factor),
                    chord: ns(p.chord),
                    cost: ns(p.cost),
                    spans: pairs(&p.spans),
                })
                .collect(),
            shells: walk
                .shells
                .iter()
                .map(|p| ShellPresence { key: p.key, spans: pairs(&p.spans) })
                .collect(),
            events: walk
                .events
                .iter()
                .map(|e| BoundaryEvent {
                    kind: e.kind,
                    t: nd(e.t),
                    position: Vec3::from_lib(e.position),
                    normal: Vec3::from_lib(e.normal),
                    factor_before: ns(e.factor_before),
                    factor_after: ns(e.factor_after),
                    spall_budget: ns(e.spall_budget),
                    welded: e.welded,
                    run: e.run,
                })
                .collect(),
            lib: walk,
        }
    }

    fn inside_at(&self, t: f64, laws: &WalkLaws) -> Vec<ShellKey> {
        self.lib.inside_at(d(t), &laws.lib())
    }
}

fn walk_ray(
    sample: usize,
    corridor: &RayCorridor,
    volumes: &VolumeTable,
    laws: &WalkLaws,
) -> Result<RayWalk, WalkError> {
    lib::ray::walk_ray(sample, &corridor.lib(), &volumes.0, &laws.lib())
        .map(RayWalk::from_lib)
        .map_err(WalkError::from_lib)
}

fn coincident(anchor: f64, t: f64, laws: &WalkLaws) -> bool {
    lib::ray::coincident(d(anchor), d(t), &laws.lib())
}

fn unit_or_zero(v: Vec3) -> Vec3 {
    Vec3::from_lib(overmatch::vector::unit_or_zero(v.lib()))
}

#[derive(Clone, Copy, Debug, PartialEq)]
struct DiscFrame {
    u: Vec3,
    v: Vec3,
}

impl DiscFrame {
    fn lib(&self) -> lib::disc::DiscFrame {
        lib::disc::DiscFrame { u: self.u.lib(), v: self.v.lib() }
    }

    fn from_lib(frame: lib::disc::DiscFrame) -> DiscFrame {
        DiscFrame { u: Vec3::from_lib(frame.u), v: Vec3::from_lib(frame.v) }
    }

    fn from_axis_and_reference(axis: Vec3, reference: Vec3) -> Option<DiscFrame> {
        lib::disc::DiscFrame::from_axis_and_reference(axis.lib(), reference.lib()).map(DiscFrame::from_lib)
    }

    fn transport(&self, from: Vec3, to: Vec3) -> DiscFrame {
        let carried = carry(self.u, from, to);
        DiscFrame::from_lib(self.lib().transport(to.lib(), carried.lib()))
    }
}

const DEFAULT_RING: usize = lib::disc::DEFAULT_RING;

fn disc_offsets(frame: &DiscFrame, radius: f32, ring: usize) -> Vec<Vec3> {
    let turns = (0..ring)
        .map(|index| {
            let angle = std::f32::consts::TAU * (index as f32) / (ring as f32);
            (s(angle.cos()), s(angle.sin()))
        })
        .collect();
    lib::disc::disc_offsets(&frame.lib(), s(radius), &turns).into_iter().map(Vec3::from_lib).collect()
}

#[derive(Clone, Debug)]
struct SampleCorridor {
    offset: Vec3,
    initial_presence: Vec<ShellKey>,
    hits: Vec<FaceHit>,
}

#[derive(Clone, Debug)]
struct DiscCorridor {
    anchor: Vec3,
    origin: Vec3,
    axis: Vec3,
    length: f32,
    radius: f32,
    frame: DiscFrame,
    samples: Vec<SampleCorridor>,
}

#[derive(Clone, Debug, PartialEq)]
struct DiscSpall {
    t: f64,
    from_factor: f32,
    to_factor: f32,
    budget: f32,
    coverage: f32,
}

#[derive(Clone, Debug, PartialEq)]
struct EntityShare {
    entity: Entity,
    chord: f32,
    cost: f32,
    coverage: f32,
}

#[derive(Clone, Debug, PartialEq)]
struct DiscEvent {
    start: f64,
    end: f64,
    entry_normal: Vec3,
    entry_position: Vec3,
    coverage: f32,
    cost: f32,
    spall: Vec<DiscSpall>,
    shares: Vec<EntityShare>,
}

#[derive(Clone, Debug, PartialEq)]
struct DiscWalk {
    axis: Vec3,
    origin: Vec3,
    frame: DiscFrame,
    events: Vec<DiscEvent>,
    lib: lib::disc::DiscWalk,
}

fn spall_marks(marks: &[lib::disc::DiscSpall]) -> Vec<DiscSpall> {
    marks
        .iter()
        .map(|m| DiscSpall {
            t: nd(m.t),
            from_factor: ns(m.from_factor),
            to_factor: ns(m.to_factor),
            budget: ns(m.budget),
            coverage: ns(m.coverage),
        })
        .collect()
}

impl DiscWalk {
    fn from_lib(walk: lib::disc::DiscWalk) -> DiscWalk {
        DiscWalk {
            axis: Vec3::from_lib(walk.axis),
            origin: Vec3::from_lib(walk.origin),
            frame: DiscFrame::from_lib(walk.frame),
            events: walk
                .events
                .iter()
                .map(|e| DiscEvent {
                    start: nd(e.start),
                    end: nd(e.end),
                    entry_normal: Vec3::from_lib(e.entry_normal),
                    entry_position: Vec3::from_lib(e.entry_position),
                    coverage: ns(e.coverage),
                    cost: ns(e.cost),
                    spall: spall_marks(&e.spall),
                    shares: e
                        .shares
                        .iter()
                        .map(|share| EntityShare {
                            entity: share.entity,
                            chord: ns(share.chord),
                            cost: ns(share.cost),
                            coverage: ns(share.coverage),
                        })
                        .collect(),
                })
                .collect(),
            lib: walk,
        }
    }

    fn samples(&self) -> usize {
        self.lib.samples()
    }
}

/// The corridor as the library holds it.
fn lib_disc(corridor: &DiscCorridor) -> lib::disc::DiscCorridor {
    lib::disc::DiscCorridor {
        anchor: corridor.anchor.lib(),
        origin: corridor.origin.lib(),
        axis: corridor.axis.lib(),
        length: s(corridor.length),
        radius: s(corridor.radius),
        frame: corridor.frame.lib(),
        samples: corridor
            .samples
            .iter()
            .map(|sample| lib::disc::SampleCorridor {
                offset: sample.offset.lib(),
                initial_presence: sample.initial_presence.clone(),
                hits: sample.hits.iter().map(|hit| hit.lib()).collect(),
            })
            .collect(),
    }
}

fn walk_disc(corridor: &DiscCorridor, volumes: &VolumeTable, laws: &WalkLaws) -> Result<DiscWalk, WalkError> {
    let corridor = lib_disc(corridor);
    lib::disc_walk::walk_disc(&corridor, &volumes.0, &laws.lib())
        .map(DiscWalk::from_lib)
        .map_err(WalkError::from_lib)
}

#[derive(Clone, Copy, Debug)]
struct Shot {
    caliber: f32,
    capability: f32,
}

impl Shot {
    fn lib(&self) -> lib::stage::Shot {
        lib::stage::Shot { caliber: s(self.caliber), capability: s(self.capability) }
    }
}

#[derive(Clone, Copy, Debug, PartialEq)]
struct EntranceRead {
    coverage: f32,
    incidence: f32,
    steel_equivalent: f32,
    overmatched: bool,
}

impl EntranceRead {
    fn from_lib(read: lib::stage::EntranceRead) -> EntranceRead {
        EntranceRead {
            coverage: ns(read.coverage),
            incidence: ns(read.incidence),
            steel_equivalent: ns(read.steel_equivalent),
            overmatched: read.overmatched,
        }
    }
}

#[derive(Clone, Debug, PartialEq)]
struct SampleSeed {
    sample: usize,
    offset: Vec3,
    inside: Vec<ShellKey>,
}

#[derive(Clone, Debug, PartialEq)]
struct TransitRequest {
    entrance: EntranceRead,
    axis: Vec3,
    anchor: Vec3,
    origin: Vec3,
    frame: DiscFrame,
    radius: f32,
    samples: usize,
    seeds: Vec<SampleSeed>,
    lib: lib::stage::TransitRequest,
}

#[derive(Clone, Debug, PartialEq)]
enum Begin {
    Miss,
    Ricochet { entrance: EntranceRead, direction: Vec3, speed_scale: f32 },
    Transit(TransitRequest),
}

fn begin(entrance: &DiscWalk, shot: &Shot, laws: &WalkLaws) -> Begin {
    let normal = entrance.events.first().map_or(Vec3::ZERO, |event| event.entry_normal);
    let coverage = entrance.events.first().map_or(0.0, |event| event.coverage);
    let axis = entrance.axis;
    let incidence = axis.angle_between(-normal);
    let specular = reflect(axis, normal);
    let full = s(axis.angle_between(specular));
    let bend = lib::stage::bend_angle(s(coverage), s(incidence), &laws.lib());
    let blend = lib::stage::blend_angle(s(coverage), full);
    let bent = bend_toward(axis, -normal, ns(bend));
    let turn = lib::stage::Turn {
        incidence: s(incidence),
        specular: specular.lib(),
        full,
        blended: bend_toward(axis, specular, ns(blend)).lib(),
        bent: bent.lib(),
        carried: carry(entrance.frame.u, axis, bent).lib(),
    };
    match lib::stage::begin(&entrance.lib, &shot.lib(), &laws.lib(), &turn) {
        lib::stage::Begin::Miss => Begin::Miss,
        lib::stage::Begin::Ricochet { entrance, direction, angle, speed_scale } => {
            assert_eq!(angle, if coverage >= 1.0 { full } else { blend });
            Begin::Ricochet {
                entrance: EntranceRead::from_lib(entrance),
                direction: Vec3::from_lib(direction),
                speed_scale: ns(speed_scale),
            }
        }
        lib::stage::Begin::Transit(request) => Begin::Transit(TransitRequest {
            entrance: EntranceRead::from_lib(request.entrance),
            axis: Vec3::from_lib(request.axis),
            anchor: Vec3::from_lib(request.anchor),
            origin: Vec3::from_lib(request.origin),
            frame: DiscFrame::from_lib(request.frame),
            radius: ns(request.radius),
            samples: request.samples,
            seeds: request
                .seeds
                .iter()
                .map(|seed| SampleSeed {
                    sample: seed.sample,
                    offset: Vec3::from_lib(seed.offset),
                    inside: seed.inside.clone(),
                })
                .collect(),
            lib: request,
        }),
    }
}

#[derive(Clone, Copy, Debug, PartialEq)]
enum Outcome {
    Embedded { at: Vec3, t: f64 },
    Perforated { exit: Vec3, t: f64 },
}

#[derive(Clone, Debug, PartialEq)]
struct EntityDeposit {
    entity: Entity,
    chord: f32,
    cost: f32,
}

#[derive(Clone, Debug, PartialEq)]
struct ResolutionPlan {
    outcome: Outcome,
    cost_spent: f32,
    deposits: Vec<EntityDeposit>,
    spall: Vec<DiscSpall>,
}

fn finish(
    transit: &DiscWalk,
    request: &TransitRequest,
    shot: &Shot,
    laws: &WalkLaws,
) -> Result<ResolutionPlan, WalkError> {
    let mut walk = transit.lib.clone();
    walk.frame = transit.frame.lib();
    lib::stage::finish(&walk, &request.lib, &shot.lib(), &laws.lib())
        .map(|plan| ResolutionPlan {
            outcome: match plan.outcome {
                lib::stage::Outcome::Embedded { at, t } => {
                    Outcome::Embedded { at: Vec3::from_lib(at), t: nd(t) }
                }
                lib::stage::Outcome::Perforated { exit, t, .. } => {
                    Outcome::Perforated { exit: Vec3::from_lib(exit), t: nd(t) }
                }
            },
            cost_spent: ns(plan.cost_spent),
            deposits: plan
                .deposits
                .iter()
                .map(|x| EntityDeposit { entity: x.entity, chord: ns(x.chord), cost: ns(x.cost) })
                .collect(),
            spall: spall_marks(&plan.spall),
        })
        .map_err(WalkError::from_lib)
}

// ---------------------------------------------------------------------------------------------
// Fixtures
// ---------------------------------------------------------------------------------------------

const AXIS: Vec3 = Vec3::Z;

fn volume(index: u32) -> Entity {
    Entity { id: index as u64 }
}

fn prim(index: u32) -> Entity {
    Entity { id: index as u64 + 1_000 }
}

fn plate(vol: u32, primitive: u32, enter: f64, exit: f64) -> Vec<FaceHit> {
    shell_plate(vol, primitive, 0, enter, exit)
}

fn shell_plate(vol: u32, primitive: u32, shell: u32, enter: f64, exit: f64) -> Vec<FaceHit> {
    oblique_plate(vol, primitive, shell, enter, exit, -AXIS, AXIS)
}

fn slab(vol: u32, primitive: u32, enter: f64, exit: f64, front: Vec3) -> Vec<FaceHit> {
    let front = front.normalize();
    assert!(
        AXIS.dot(front) < 0.0,
        "a front face's outward normal leans against the ray"
    );
    oblique_plate(vol, primitive, 0, enter, exit, front, -front)
}

fn oblique_plate(
    vol: u32,
    primitive: u32,
    shell: u32,
    enter: f64,
    exit: f64,
    entry_normal: Vec3,
    exit_normal: Vec3,
) -> Vec<FaceHit> {
    vec![
        FaceHit {
            volume: volume(vol),
            primitive: prim(primitive),
            shell,
            contact: Contact::Face(primitive * 100 + shell * 10),
            triangle: primitive * 100 + shell * 10,
            t: enter,
            true_normal: entry_normal.normalize(),
        },
        FaceHit {
            volume: volume(vol),
            primitive: prim(primitive),
            shell,
            contact: Contact::Face(primitive * 100 + shell * 10 + 1),
            triangle: primitive * 100 + shell * 10 + 1,
            t: exit,
            true_normal: exit_normal.normalize(),
        },
    ]
}

fn corridor(length: f32, hits: Vec<FaceHit>) -> RayCorridor {
    RayCorridor {
        anchor: Vec3::ZERO,
        origin: Vec3::ZERO,
        axis: AXIS,
        length,
        initial_presence: Vec::new(),
        hits,
    }
}

fn table(entries: &[(u32, f32)]) -> VolumeTable {
    VolumeTable::new(entries.iter().map(|(v, f)| (volume(*v), *f))).expect("test factors are legal")
}

fn walk(corridor: &RayCorridor, volumes: &VolumeTable) -> RayWalk {
    walk_ray(0, corridor, volumes, &WalkLaws::default()).expect("fixture must resolve")
}

fn point_disc(length: f32, sample: SampleCorridor) -> DiscCorridor {
    DiscCorridor {
        anchor: Vec3::ZERO,
        origin: Vec3::ZERO,
        axis: AXIS,
        length,
        radius: 0.0,
        frame: DiscFrame {
            u: Vec3::X,
            v: Vec3::Y,
        },
        samples: vec![sample],
    }
}

fn sample(offset: Vec3, hits: Vec<FaceHit>) -> SampleCorridor {
    SampleCorridor {
        offset,
        initial_presence: Vec::new(),
        hits,
    }
}

#[derive(Clone, Copy)]
struct Slab {
    vol: u32,
    primitive: u32,
    front: Vec3,
    normal: Vec3,
    thickness: f32,
}

impl Slab {
    fn at(vol: u32, primitive: u32, t: f32, normal: Vec3, chord: f32) -> Self {
        let normal = normal.normalize();
        assert!(AXIS.dot(normal) < 0.0, "a front face leans against the ray");
        Self {
            vol,
            primitive,
            front: AXIS * t,
            normal,
            thickness: chord * AXIS.dot(normal).abs(),
        }
    }

    fn key(&self) -> ShellKey {
        ShellKey {
            volume: volume(self.vol),
            primitive: prim(self.primitive),
            shell: 0,
        }
    }

    fn hits(&self, origin: Vec3, axis: Vec3, length: f32, seeded: bool) -> Vec<FaceHit> {
        let n = self.normal;
        let denominator = axis.dot(n);
        let front = (self.front - origin).dot(n) / denominator;
        let back = (self.front - n * self.thickness - origin).dot(n) / denominator;
        let (enter, exit) = if denominator < 0.0 {
            ((front, n), (back, -n))
        } else {
            ((back, -n), (front, n))
        };
        [(enter, 0u32), (exit, 1u32)]
            .into_iter()
            .filter_map(|((t, true_normal), face)| {
                let t = if t < 0.0 {
                    if seeded {
                        return None;
                    }
                    0.0
                } else {
                    t
                };
                (t < length).then_some(FaceHit {
                    volume: volume(self.vol),
                    primitive: prim(self.primitive),
                    shell: 0,
                    contact: Contact::Face(self.primitive * 100 + face),
                    triangle: self.primitive * 100 + face,
                    t: t as f64,
                    true_normal,
                })
            })
            .collect()
    }
}

fn entrance_disc(slabs: &[Slab], length: f32) -> DiscCorridor {
    let frame = DiscFrame::from_axis_and_reference(AXIS, Vec3::Y).unwrap();
    disc_along(Vec3::ZERO, AXIS, frame, 0.044, length, slabs, |_| true)
}

fn transit_disc(request: &TransitRequest, slabs: &[Slab], length: f32) -> DiscCorridor {
    let samples = request
        .seeds
        .iter()
        .map(|seed| SampleCorridor {
            offset: seed.offset,
            initial_presence: seed.inside.clone(),
            hits: slabs
                .iter()
                .flat_map(|slab| {
                    slab.hits(
                        request.origin + seed.offset,
                        request.axis,
                        length,
                        seed.inside.contains(&slab.key()),
                    )
                })
                .collect(),
        })
        .collect();
    DiscCorridor {
        anchor: request.anchor,
        origin: request.origin,
        axis: request.axis,
        length,
        radius: request.radius,
        frame: request.frame,
        samples,
    }
}

fn disc_along(
    origin: Vec3,
    axis: Vec3,
    frame: DiscFrame,
    radius: f32,
    length: f32,
    slabs: &[Slab],
    covered: impl Fn(usize) -> bool,
) -> DiscCorridor {
    let offsets = disc_offsets(&frame, radius, DEFAULT_RING);
    let samples = offsets
        .iter()
        .enumerate()
        .map(|(index, offset)| SampleCorridor {
            offset: *offset,
            initial_presence: Vec::new(),
            hits: if covered(index) {
                slabs
                    .iter()
                    .flat_map(|slab| slab.hits(origin + *offset, axis, length, false))
                    .collect()
            } else {
                Vec::new()
            },
        })
        .collect();
    DiscCorridor {
        anchor: Vec3::ZERO,
        origin,
        axis,
        length,
        radius,
        frame,
        samples,
    }
}

#[test]
fn a_face_diagonal_hit_is_one_crossing() {
    let volumes = table(&[(1, 1000.0)]);
    let hits = vec![
        FaceHit {
            volume: volume(1),
            primitive: prim(0),
            shell: 0,
            contact: Contact::Edge(3, 7),
            triangle: 0,
            t: 1.0,
            true_normal: -AXIS,
        },
        FaceHit {
            volume: volume(1),
            primitive: prim(0),
            shell: 0,
            contact: Contact::Edge(3, 7),
            triangle: 1,
            t: 1.0,
            true_normal: -AXIS,
        },
        FaceHit {
            volume: volume(1),
            primitive: prim(0),
            shell: 0,
            contact: Contact::Face(2),
            triangle: 2,
            t: 1.125,
            true_normal: AXIS,
        },
    ];
    let result = walk(&corridor(4.0, hits), &volumes);
    assert_eq!(result.runs.len(), 1);
    assert_eq!(result.cost, 125.0);
}

#[test]
fn a_shared_vertex_fan_is_one_crossing() {
    let volumes = table(&[(1, 1000.0)]);
    let mut hits = Vec::new();
    for (index, normal) in [
        Vec3::new(-0.2, 0.1, -1.0),
        Vec3::new(0.3, -0.2, -1.0),
        Vec3::new(0.0, 0.4, -1.0),
    ]
    .into_iter()
    .enumerate()
    {
        hits.push(FaceHit {
            volume: volume(1),
            primitive: prim(0),
            shell: 0,
            contact: Contact::Vertex(4),
            triangle: index as u32,
            t: 1.0,
            true_normal: normal.normalize(),
        });
    }
    hits.push(FaceHit {
        volume: volume(1),
        primitive: prim(0),
        shell: 0,
        contact: Contact::Face(9),
        triangle: 9,
        t: 1.5,
        true_normal: AXIS,
    });
    let result = walk(&corridor(4.0, hits), &volumes);
    assert_eq!(result.runs.len(), 1);
    assert_eq!(result.cost, 500.0);
}

#[test]
fn an_exact_edge_tangent_toggles_nothing() {
    let volumes = table(&[(1, 1000.0)]);
    let hits = vec![
        FaceHit {
            volume: volume(1),
            primitive: prim(0),
            shell: 0,
            contact: Contact::Edge(2, 5),
            triangle: 0,
            t: 1.0,
            true_normal: -AXIS,
        },
        FaceHit {
            volume: volume(1),
            primitive: prim(0),
            shell: 0,
            contact: Contact::Edge(2, 5),
            triangle: 1,
            t: 1.0,
            true_normal: AXIS,
        },
    ];
    let result = walk(&corridor(4.0, hits), &volumes);
    assert!(result.runs.is_empty());
    assert!(result.events.is_empty());
    assert_eq!(result.cost, 0.0);
}

#[test]
fn a_near_tangent_pair_keeps_its_real_thin_chord() {
    let volumes = table(&[(1, 1000.0)]);
    let hits = plate(1, 0, 1.0, 1.0 + 1.0e-4);
    let result = walk(&corridor(4.0, hits), &volumes);
    assert_eq!(result.runs.len(), 1);
    assert!(result.cost > 0.09 && result.cost < 0.11, "{}", result.cost);
}

#[test]
fn starting_inside_with_declared_presence_charges_the_partial_chord() {
    let volumes = table(&[(1, 1000.0)]);
    let key = ShellKey {
        volume: volume(1),
        primitive: prim(0),
        shell: 0,
    };
    let mut corridor = corridor(
        4.0,
        vec![FaceHit {
            volume: volume(1),
            primitive: prim(0),
            shell: 0,
            contact: Contact::Face(0),
            triangle: 0,
            t: 0.25,
            true_normal: AXIS,
        }],
    );
    corridor.initial_presence = vec![key];
    let result = walk(&corridor, &volumes);
    assert_eq!(result.cost, 250.0);
    assert_eq!(result.runs.len(), 1);
    assert_eq!(result.runs[0].start, 0.0);
}

#[test]
fn starting_inside_without_declared_presence_is_a_structured_error() {
    let volumes = table(&[(1, 1000.0)]);
    let corridor = corridor(
        4.0,
        vec![FaceHit {
            volume: volume(1),
            primitive: prim(0),
            shell: 0,
            contact: Contact::Face(7),
            triangle: 7,
            t: 0.25,
            true_normal: AXIS,
        }],
    );
    match walk_ray(3, &corridor, &volumes, &WalkLaws::default()) {
        Err(WalkError::UnexpectedExit {
            sample,
            key,
            triangles,
            ..
        }) => {
            assert_eq!(sample, 3);
            assert_eq!(key.volume, volume(1));
            assert_eq!(triangles, vec![7]);
        }
        other => panic!("expected UnexpectedExit, got {other:?}"),
    }
}

#[test]
fn a_corridor_ending_inside_errors_and_extending_it_completes() {
    let volumes = table(&[(1, 1000.0)]);
    let hits = plate(1, 0, 0.25, 1.5);
    match walk_ray(
        0,
        &corridor(1.0, hits.clone()),
        &volumes,
        &WalkLaws::default(),
    ) {
        Err(WalkError::IncompleteCorridor { open, length, .. }) => {
            assert_eq!(open.len(), 1);
            assert_eq!(length, 1.0);
        }
        other => panic!("expected IncompleteCorridor, got {other:?}"),
    }
    let completed = walk(&corridor(4.0, hits), &volumes);
    assert_eq!(completed.cost, 1250.0);
}

#[test]
fn a_boundary_exactly_at_the_corridor_end_belongs_to_the_next_corridor() {
    let volumes = table(&[(1, 1000.0)]);
    let hits = plate(1, 0, 0.5, 2.0);
    assert!(matches!(
        walk_ray(
            0,
            &corridor(2.0, hits.clone()),
            &volumes,
            &WalkLaws::default()
        ),
        Err(WalkError::IncompleteCorridor { .. })
    ));
    let result = walk(&corridor(2.0 + 1.0e-3, hits), &volumes);
    assert_eq!(
        result
            .events
            .iter()
            .filter(|event| event.kind == BoundaryKind::Exit)
            .count(),
        1
    );
}

#[test]
fn one_entity_with_two_disjoint_primitives_yields_two_runs() {
    let volumes = table(&[(1, 1000.0)]);
    let mut hits = plate(1, 0, 0.25, 0.5);
    hits.extend(plate(1, 1, 1.0, 1.25));
    let result = walk(&corridor(4.0, hits), &volumes);
    assert_eq!(result.runs.len(), 2);
    assert_eq!(result.cost, 500.0);
    assert_eq!(result.presence.len(), 1);
    assert_eq!(result.presence[0].chord, 0.5);
}

#[test]
fn one_entity_with_interpenetrating_primitives_unions_to_a_single_presence() {
    let volumes = table(&[(1, 1000.0)]);
    let mut hits = plate(1, 0, 0.25, 0.75);
    hits.extend(plate(1, 1, 0.5, 1.0));
    let result = walk(&corridor(4.0, hits), &volumes);
    assert_eq!(result.runs.len(), 1);
    assert_eq!(result.cost, 750.0);
    assert_eq!(result.presence.len(), 1);
    assert_eq!(result.presence[0].chord, 0.75);
}

#[test]
fn two_shells_on_one_entry_plane_stay_distinct() {
    let volumes = table(&[(1, 1000.0), (2, 200.0)]);
    let mut hits = plate(1, 0, 0.5, 0.75);
    hits.extend(plate(2, 0, 0.5, 1.5));
    let result = walk(&corridor(4.0, hits), &volumes);
    assert_eq!(result.runs.len(), 1);
    assert_eq!(result.cost, 0.25 * 1000.0 + 0.75 * 200.0);
    assert_eq!(result.presence.len(), 2);
}

#[test]
fn unbalanced_nesting_in_one_primitive_is_a_structured_error() {
    let volumes = table(&[(1, 1000.0)]);
    let hits = vec![
        FaceHit {
            volume: volume(1),
            primitive: prim(0),
            shell: 0,
            contact: Contact::Face(0),
            triangle: 0,
            t: 0.25,
            true_normal: -AXIS,
        },
        FaceHit {
            volume: volume(1),
            primitive: prim(0),
            shell: 0,
            contact: Contact::Face(1),
            triangle: 1,
            t: 0.5,
            true_normal: -AXIS,
        },
        FaceHit {
            volume: volume(1),
            primitive: prim(0),
            shell: 0,
            contact: Contact::Face(2),
            triangle: 2,
            t: 1.0,
            true_normal: AXIS,
        },
    ];
    assert!(matches!(
        walk_ray(1, &corridor(4.0, hits), &volumes, &WalkLaws::default()),
        Err(WalkError::UnexpectedEntry { sample: 1, .. })
    ));
}

#[test]
fn an_exit_below_depth_zero_is_still_a_structured_error() {
    let volumes = table(&[(1, 1000.0)]);
    let mut hits = plate(1, 0, 0.25, 0.5);
    hits.push(FaceHit {
        volume: volume(1),
        primitive: prim(0),
        shell: 0,
        contact: Contact::Face(9),
        triangle: 9,
        t: 0.75,
        true_normal: AXIS,
    });
    assert!(matches!(
        walk_ray(2, &corridor(4.0, hits), &volumes, &WalkLaws::default()),
        Err(WalkError::UnexpectedExit { sample: 2, .. })
    ));
}

#[test]
fn non_finite_and_negative_factors_are_rejected_at_construction() {
    for bad in [f32::NAN, f32::INFINITY, -1.0] {
        assert!(matches!(
            VolumeTable::new([(volume(1), bad)]),
            Err(WalkError::BadFactor { .. })
        ));
    }
    let table = VolumeTable::new([(volume(1), -0.0)]).unwrap();
    assert_eq!(table.factor(volume(1)).unwrap().to_bits(), 0.0f32.to_bits());
}

#[test]
fn an_unbound_volume_is_an_error_not_a_default_factor() {
    let volumes = table(&[(1, 1000.0)]);
    let hits = plate(2, 0, 0.5, 1.0);
    assert!(matches!(
        walk_ray(0, &corridor(4.0, hits), &volumes, &WalkLaws::default()),
        Err(WalkError::UnknownVolume { .. })
    ));
}

#[test]
fn overlapping_plates_charge_the_union_not_zero_and_not_double() {
    let volumes = table(&[(1, 1000.0), (2, 1000.0)]);
    let mut hits = plate(1, 0, 0.0625, 0.1875);
    hits.extend(plate(2, 0, 0.125, 0.25));
    let result = walk(&corridor(1.0, hits), &volumes);
    assert_eq!(result.cost, 187.5);
    assert_eq!(result.runs.len(), 1);
}

#[test]
fn abutment_overlap_and_one_slab_are_byte_identical() {
    let volumes = table(&[(1, 1024.0), (2, 1024.0)]);

    let single = walk(&corridor(1.0, plate(1, 0, 0.0625, 0.1875)), &volumes);

    let mut abutting = plate(1, 0, 0.0625, 0.125);
    abutting.extend(plate(2, 0, 0.125, 0.1875));
    let abutting = walk(&corridor(1.0, abutting), &volumes);

    let mut overlapping = plate(1, 0, 0.0625, 0.15625);
    overlapping.extend(plate(2, 0, 0.125, 0.1875));
    let overlapping = walk(&corridor(1.0, overlapping), &volumes);

    assert_eq!(single.cost.to_bits(), abutting.cost.to_bits());
    assert_eq!(single.cost.to_bits(), overlapping.cost.to_bits());
    assert_eq!(single.spans, abutting.spans);
    assert_eq!(single.spans, overlapping.spans);
    assert_eq!(single.events.len(), abutting.events.len());
    assert_eq!(single.events, abutting.events);
    assert_eq!(single.events, overlapping.events);
}

#[test]
fn a_genuine_gap_produces_no_events_inside_it() {
    let volumes = table(&[(1, 1000.0), (2, 1000.0)]);
    let mut hits = plate(1, 0, 0.25, 0.5);
    hits.extend(plate(2, 0, 1.5, 1.75));
    let result = walk(&corridor(4.0, hits), &volumes);
    assert_eq!(result.runs.len(), 2, "a real gap must not weld");
    assert!(
        !result
            .events
            .iter()
            .any(|event| event.t > 0.5 && event.t < 1.5)
    );
    assert_eq!(result.cost, 500.0);
}

#[test]
fn a_corridor_starting_inside_a_volume_grants_no_free_crossing() {
    let volumes = table(&[(1, 1000.0)]);
    let mut corridor = corridor(
        1.0,
        vec![FaceHit {
            volume: volume(1),
            primitive: prim(0),
            shell: 0,
            contact: Contact::Face(0),
            triangle: 0,
            t: 0.125,
            true_normal: AXIS,
        }],
    );
    corridor.initial_presence = vec![ShellKey {
        volume: volume(1),
        primitive: prim(0),
        shell: 0,
    }];
    let result = walk(&corridor, &volumes);
    assert_eq!(result.cost, 125.0);
    assert_eq!(result.presence[0].chord, 0.125);
}

#[test]
fn duplicating_a_volume_changes_nothing() {
    let volumes = table(&[(1, 1000.0), (2, 1000.0)]);
    let one = walk(&corridor(1.0, plate(1, 0, 0.125, 0.375)), &volumes);
    let mut doubled = plate(1, 0, 0.125, 0.375);
    doubled.extend(plate(2, 0, 0.125, 0.375));
    let two = walk(&corridor(1.0, doubled), &volumes);
    assert_eq!(one.cost.to_bits(), two.cost.to_bits());
    assert_eq!(one.spans, two.spans);
    assert_eq!(one.events, two.events);
}

#[test]
fn adding_a_volume_never_lowers_the_cost() {
    let volumes = table(&[(1, 1000.0), (2, 10.0), (3, 900.0)]);
    let base = walk(&corridor(2.0, plate(1, 0, 0.25, 0.5)), &volumes);
    for extra in [plate(2, 0, 0.3, 0.45), plate(3, 0, 0.4, 0.9)] {
        let mut hits = plate(1, 0, 0.25, 0.5);
        hits.extend(extra);
        let grown = walk(&corridor(2.0, hits), &volumes);
        assert!(grown.cost >= base.cost, "{} < {}", grown.cost, base.cost);
    }
}

#[test]
fn permuting_the_input_is_byte_identical() {
    let volumes = table(&[(1, 1000.0), (2, 900.0), (3, 10.0)]);
    let mut hits = plate(1, 0, 0.125, 0.375);
    hits.extend(plate(2, 0, 0.375, 0.5));
    hits.extend(plate(3, 0, 0.25, 0.625));
    hits.extend(plate(1, 1, 0.75, 0.875));
    let reference = walk(&corridor(2.0, hits.clone()), &volumes);

    for shift in 0..hits.len() {
        let mut permuted = hits.clone();
        permuted.rotate_left(shift);
        let result = walk(&corridor(2.0, permuted.clone()), &volumes);
        assert_eq!(result.cost.to_bits(), reference.cost.to_bits());
        assert_eq!(result, reference);
        permuted.reverse();
        let result = walk(&corridor(2.0, permuted), &volumes);
        assert_eq!(result, reference);
    }
}

#[test]
fn irrelevant_boundaries_inside_a_dominant_span_leave_the_cost_bits_alone() {
    let volumes = table(&[(1, 1024.0), (2, 10.0), (3, 200.0)]);
    let bare = walk(&corridor(1.0, plate(1, 0, 0.0625, 0.5)), &volumes);
    let mut refined = plate(1, 0, 0.0625, 0.5);
    refined.extend(plate(2, 0, 0.125, 0.25));
    refined.extend(plate(3, 0, 0.3, 0.4));
    let refined = walk(&corridor(1.0, refined), &volumes);
    assert_eq!(bare.cost.to_bits(), refined.cost.to_bits());
    assert_eq!(bare.spans, refined.spans);
}

#[test]
fn one_ulp_seam_offsets_stay_one_boundary() {
    let volumes = table(&[(1, 1024.0), (2, 1024.0)]);
    let seam = 0.125f32;
    let single = walk(&corridor(1.0, plate(1, 0, 0.0625, 0.1875)), &volumes);
    let void = seam - f32::from_bits(seam.to_bits() - 1);
    for jitter in [
        f32::from_bits(seam.to_bits() - 1),
        seam,
        f32::from_bits(seam.to_bits() + 1),
    ] {
        let mut hits = plate(1, 0, 0.0625, jitter as f64);
        hits.extend(plate(2, 0, seam as f64, 0.1875));
        let result = walk(&corridor(1.0, hits), &volumes);
        assert_eq!(result.runs.len(), 1, "jitter {jitter:?} split the crossing");
        assert_eq!(
            result
                .events
                .iter()
                .map(|event| event.kind)
                .collect::<Vec<_>>(),
            vec![BoundaryKind::Entrance, BoundaryKind::Exit],
            "jitter {jitter:?} grew an event out of a seam",
        );
        assert!(
            (single.cost - result.cost).abs() <= 1024.0 * void,
            "jitter {jitter:?} moved the cost by more than the void it opened: {} vs {}",
            result.cost,
            single.cost,
        );
    }
}

#[test]
fn large_world_coordinates_keep_the_millimetre_distinction() {
    let volumes = table(&[(1, 1000.0), (2, 1000.0)]);
    let far = 2000.0f32;
    let welding = |origin: Vec3, gap: f32| {
        let mut hits = plate(1, 0, 0.25, 0.35);
        hits.extend(plate(2, 0, (0.35 + gap) as f64, 0.45));
        walk(
            &RayCorridor {
                anchor: Vec3::ZERO,
                origin,
                axis: AXIS,
                length: 2.0,
                initial_presence: Vec::new(),
                hits,
            },
            &volumes,
        )
    };
    for gap in [1.5e-3, 3.0e-3] {
        let near = welding(Vec3::ZERO, gap);
        let far_out = welding(Vec3::new(-far, 1.5 * far, far), gap);
        assert_eq!(
            near.runs.len(),
            far_out.runs.len(),
            "gap {gap} reclassified"
        );
        assert_eq!(near.cost.to_bits(), far_out.cost.to_bits());
        assert_eq!(near.spans, far_out.spans);
    }
    assert_eq!(welding(Vec3::ZERO, 1.5e-3).runs.len(), 1);
    assert_eq!(welding(Vec3::ZERO, 3.0e-3).runs.len(), 2);
    let welded = welding(Vec3::ZERO, 1.5e-3);
    assert_eq!(
        welded
            .spans
            .iter()
            .filter(|span| span.factor == 0.0 && span.start > 0.3 && span.end < 0.4)
            .count(),
        1
    );
}

#[test]
fn a_micro_gap_welds_event_topology_and_charges_nothing_for_the_void() {
    let volumes = table(&[(1, 1000.0), (2, 1000.0)]);
    let mut hits = plate(1, 0, 0.25, 0.35);
    hits.extend(plate(2, 0, 0.3505, 0.45));
    let result = walk(&corridor(2.0, hits), &volumes);
    assert_eq!(result.runs.len(), 1);
    assert_eq!(result.runs[0].joints, 1);
    assert_eq!(
        result
            .events
            .iter()
            .filter(|e| e.kind == BoundaryKind::Entrance)
            .count(),
        1
    );
    assert_eq!(
        result
            .events
            .iter()
            .filter(|e| e.kind == BoundaryKind::Exit)
            .count(),
        1
    );
    let expected = (0.1f64 + 0.099_500_000_000_000_1) * 1000.0;
    assert!(
        (result.cost as f64 - expected).abs() < 0.02,
        "{}",
        result.cost
    );
}

#[test]
fn the_weld_is_measured_perpendicular_not_along_the_ray() {
    let volumes = table(&[(1, 1000.0), (2, 1000.0)]);
    let gap = 3.0e-3;

    let mut square = plate(1, 0, 0.25, 0.35);
    square.extend(plate(2, 0, 0.35 + gap, 0.45));
    assert_eq!(walk(&corridor(2.0, square), &volumes).runs.len(), 2);

    let tilt = Vec3::new(0.0, 0.98, 0.2);
    let mut grazing = oblique_plate(1, 0, 0, 0.25, 0.35, -tilt, tilt);
    grazing.extend(oblique_plate(2, 0, 0, 0.35 + gap, 0.45, -tilt, tilt));
    let welded = walk(&corridor(2.0, grazing), &volumes);
    assert_eq!(welded.runs.len(), 1);
    assert_eq!(welded.runs[0].joints, 1);
}

#[test]
fn a_grazing_exit_does_not_weld_to_an_unrelated_orthogonal_plate() {
    let volumes = table(&[(1, 1000.0), (2, 1000.0)]);
    let tilt = Vec3::new(0.0, 0.999, 0.045);
    let mut hits = oblique_plate(1, 0, 0, 0.25, 0.35, -tilt, tilt);
    hits.extend(plate(2, 0, 0.39, 0.45));
    let result = walk(&corridor(2.0, hits), &volumes);
    assert_eq!(result.runs.len(), 2, "incompatible faces must not weld");
}

#[test]
fn chained_welds_are_capped_by_the_run_gap_budget() {
    let volumes = table(&[(1, 1000.0), (2, 1000.0), (3, 1000.0)]);

    let mut tight = plate(1, 0, 0.2, 0.3);
    tight.extend(plate(2, 0, 0.3005, 0.4));
    tight.extend(plate(3, 0, 0.4005, 0.5));
    assert_eq!(walk(&corridor(2.0, tight), &volumes).runs.len(), 1);

    let mut loose = plate(1, 0, 0.2, 0.3);
    loose.extend(plate(2, 0, 0.3015, 0.4));
    loose.extend(plate(3, 0, 0.4015, 0.5));
    let result = walk(&corridor(2.0, loose), &volumes);
    assert_eq!(result.runs.len(), 2);
    assert_eq!(result.runs[0].joints, 1);
    assert_eq!(result.runs[1].joints, 0);
}

#[test]
fn welded_overmatch_reads_the_summed_factor_weighted_thickness() {
    let volumes = table(&[(1, 1000.0), (2, 900.0)]);
    let mut hits = plate(1, 0, 0.5, 0.53);
    hits.extend(plate(2, 0, 0.5305, 0.5605));
    let disc = point_disc(2.0, sample(Vec3::ZERO, hits));
    let walked = walk_disc(&disc, &volumes, &WalkLaws::default()).unwrap();
    let shot = Shot {
        caliber: 0.088,
        capability: 250.0,
    };
    match begin(&walked, &shot, &WalkLaws::default()) {
        Begin::Transit(request) => {
            assert!(!request.entrance.overmatched);
            assert!(
                (request.entrance.steel_equivalent - 0.057).abs() < 1.0e-4,
                "{}",
                request.entrance.steel_equivalent
            );
        }
        other => panic!("expected Transit, got {other:?}"),
    }
}

#[test]
fn weld_joints_obey_the_field_law_for_spall() {
    let laws = WalkLaws::default();

    let volumes = table(&[(1, 1000.0), (2, 1000.0)]);
    let mut equal = plate(1, 0, 0.2, 0.3);
    equal.extend(plate(2, 0, 0.3005, 0.4));
    let result = walk_ray(0, &corridor(2.0, equal), &volumes, &laws).unwrap();
    let downward: Vec<_> = result
        .events
        .iter()
        .filter(|e| e.factor_after < e.factor_before)
        .collect();
    assert_eq!(downward.len(), 1, "equal-factor weld emits one exit only");
    assert!((downward[0].spall_budget - 199.5).abs() < 0.1);

    let volumes = table(&[(1, 1000.0), (2, 900.0)]);
    let mut downhill = plate(1, 0, 0.2, 0.3);
    downhill.extend(plate(2, 0, 0.3005, 0.4));
    let result = walk_ray(0, &corridor(2.0, downhill), &volumes, &laws).unwrap();
    let downward: Vec<_> = result
        .events
        .iter()
        .filter(|e| e.factor_after < e.factor_before)
        .collect();
    assert_eq!(downward.len(), 2);
    assert!(
        downward[0].welded,
        "the interior step exists only because of the weld"
    );
    assert!((downward[0].spall_budget - 100.0).abs() < 0.1);

    let mut uphill = plate(2, 0, 0.2, 0.3);
    uphill.extend(plate(1, 0, 0.3005, 0.4));
    let result = walk_ray(0, &corridor(2.0, uphill), &volumes, &laws).unwrap();
    assert_eq!(
        result
            .events
            .iter()
            .filter(|e| e.factor_after < e.factor_before)
            .count(),
        1
    );
}

#[test]
fn a_flat_plate_disc_equals_the_point_sample() {
    let volumes = table(&[(1, 1000.0)]);
    let laws = WalkLaws::default();
    let single = walk(&corridor(2.0, plate(1, 0, 0.5, 0.6)), &volumes);

    let frame = DiscFrame::from_axis_and_reference(AXIS, Vec3::Y).unwrap();
    let samples = disc_offsets(&frame, 0.044, DEFAULT_RING)
        .into_iter()
        .map(|offset| sample(offset, plate(1, 0, 0.5, 0.6)))
        .collect();
    let walked = walk_disc(
        &DiscCorridor {
            anchor: Vec3::ZERO,
            origin: Vec3::ZERO,
            axis: AXIS,
            length: 2.0,
            radius: 0.044,
            frame,
            samples,
        },
        &volumes,
        &laws,
    )
    .unwrap();

    assert_eq!(walked.events.len(), 1, "one slab is one crossing");
    let event = &walked.events[0];
    assert_eq!(event.coverage, 1.0);
    assert!((event.cost - single.cost).abs() < 1.0e-2, "{}", event.cost);
    assert!((event.entry_normal - -AXIS).length() < 1.0e-5);
}

#[test]
fn a_thin_oblique_slab_is_one_event_not_several() {
    let volumes = table(&[(1, 1000.0)]);
    let laws = WalkLaws::default();
    let frame = DiscFrame::from_axis_and_reference(AXIS, Vec3::Y).unwrap();
    let normal = Vec3::new(0.0, 0.95, -0.31).normalize();
    let chord = 0.02f32;

    let samples: Vec<SampleCorridor> = disc_offsets(&frame, 0.044, DEFAULT_RING)
        .into_iter()
        .map(|offset| {
            let shift = -offset.dot(normal) / AXIS.dot(normal);
            sample(
                offset,
                slab(
                    1,
                    0,
                    (0.5 + shift) as f64,
                    (0.5 + shift + chord) as f64,
                    normal,
                ),
            )
        })
        .collect();
    let starts: Vec<f64> = samples.iter().map(|s| s.hits[0].t).collect();
    let (lo, hi) = (
        starts.iter().copied().fold(f64::INFINITY, f64::min),
        starts.iter().copied().fold(f64::NEG_INFINITY, f64::max),
    );
    assert!(
        hi - lo > chord as f64,
        "fixture must actually spread the samples past one chord ({lo}..{hi})"
    );

    let walked = walk_disc(
        &DiscCorridor {
            anchor: Vec3::ZERO,
            origin: Vec3::ZERO,
            axis: AXIS,
            length: 2.0,
            radius: 0.044,
            frame,
            samples,
        },
        &volumes,
        &laws,
    )
    .unwrap();
    assert_eq!(
        walked.events.len(),
        1,
        "one physical slab must resolve to one crossing"
    );
    assert_eq!(walked.events[0].coverage, 1.0);
    assert!((walked.events[0].cost - chord * 1000.0).abs() < 1.0);
}

#[test]
fn a_concave_primitive_crossed_twice_stays_two_events() {
    let volumes = table(&[(1, 1000.0)]);
    let laws = WalkLaws::default();
    let frame = DiscFrame {
        u: Vec3::X,
        v: Vec3::Y,
    };
    let walked = walk_disc(
        &DiscCorridor {
            anchor: Vec3::ZERO,
            origin: Vec3::ZERO,
            axis: AXIS,
            length: 2.0,
            radius: 0.02,
            frame,
            samples: vec![
                sample(Vec3::ZERO, plate(1, 0, 0.2, 0.3)),
                sample(Vec3::X * 0.02, plate(1, 0, 0.7, 0.8)),
            ],
        },
        &volumes,
        &laws,
    )
    .unwrap();

    assert_eq!(walked.events.len(), 2, "400 mm apart is not one crossing");
    for event in &walked.events {
        assert_eq!(event.coverage, 0.5, "each arm is met by one sample of two");
        assert!((event.cost - 50.0).abs() < 0.1, "{}", event.cost);
    }
    assert!(walked.events[0].end < walked.events[1].start);
}

#[test]
fn a_weld_lookahead_sized_gap_is_not_a_merge_licence() {
    let volumes = table(&[(1, 1000.0)]);
    let laws = WalkLaws::default();
    let walked = walk_disc(
        &DiscCorridor {
            anchor: Vec3::ZERO,
            origin: Vec3::ZERO,
            axis: AXIS,
            length: 2.0,
            radius: 0.02,
            frame: DiscFrame {
                u: Vec3::X,
                v: Vec3::Y,
            },
            samples: vec![
                sample(Vec3::ZERO, plate(1, 0, 0.20, 0.30)),
                sample(Vec3::X * 0.02, plate(1, 0, 0.34, 0.44)),
            ],
        },
        &volumes,
        &laws,
    )
    .unwrap();

    assert!(0.04 < laws.weld_max_lookahead);
    assert!(0.04 > laws.weld_perp);
    assert_eq!(walked.events.len(), 2, "40 mm of air is not one crossing");
    for event in &walked.events {
        assert_eq!(event.coverage, 0.5);
    }
}

#[test]
fn the_coplanar_branch_is_bounded_by_where_one_surface_would_put_things() {
    let volumes = table(&[(1, 1000.0), (2, 1000.0)]);
    let laws = WalkLaws::default();
    let normal = Vec3::new(0.0, 0.999, -0.045).normalize();
    let radius = 0.02f32;
    let near = 0.20f32;
    let near_end = 0.25f32;

    let secant = (1.0 / AXIS.dot(normal).abs()).min(laws.event_secant_cap);
    let sign = if AXIS.dot(normal) < 0.0 { -1.0 } else { 1.0 };
    let predicted = |d: Vec3| -d.dot(normal) * secant * sign;

    let far = 0.33f32;
    let offset_for = |perpendicular: f32| {
        Vec3::new(
            0.0,
            ((near - far) * normal.z - perpendicular) / normal.y,
            0.0,
        )
    };
    let events_at = |perpendicular: f32| {
        let offset = offset_for(perpendicular);
        let separation = ((AXIS * near) - (offset + AXIS * far)).dot(normal).abs();
        assert!(
            separation < laws.event_plane_tolerance,
            "BOTH arms are coplanar within tolerance, or this tests the wrong conjunct: {separation}"
        );
        assert!(
            offset.length() <= radius,
            "and the offset must be a sample this disc actually has, got {}",
            offset.length()
        );
        walk_disc(
            &DiscCorridor {
                anchor: Vec3::ZERO,
                origin: Vec3::ZERO,
                axis: AXIS,
                length: 2.0,
                radius,
                frame: DiscFrame {
                    u: Vec3::X,
                    v: Vec3::Y,
                },
                samples: vec![
                    sample(
                        Vec3::ZERO,
                        oblique_plate(1, 0, 0, near as f64, near_end as f64, normal, -normal),
                    ),
                    sample(
                        offset,
                        oblique_plate(2, 0, 0, far as f64, (far + 0.05) as f64, normal, -normal),
                    ),
                ],
            },
            &volumes,
            &laws,
        )
        .unwrap()
        .events
        .len()
    };
    let residual_at = |perpendicular: f32| (far - near) - predicted(offset_for(perpendicular));

    assert!(
        far - near_end > 0.05,
        "the runs really are far apart along the ray: {} m",
        far - near_end,
    );

    let on_surface = 0.00015_f32;
    assert!(
        residual_at(on_surface).abs() <= laws.event_residual_tolerance,
        "the near arm must sit where one plane would put it, got residual {}",
        residual_at(on_surface),
    );
    assert_eq!(
        events_at(on_surface),
        1,
        "130 mm apart and still one surface, because that is where one plane puts them",
    );

    let displaced = 0.0018_f32;
    assert!(
        residual_at(displaced).abs() > laws.event_residual_tolerance,
        "the far arm must be off the shared surface, got residual {}",
        residual_at(displaced),
    );
    assert_eq!(
        events_at(displaced),
        2,
        "{} m from where one plane would put it, the plane test alone must not merge them",
        residual_at(displaced).abs(),
    );
}

#[test]
fn a_concave_primitive_crossed_together_stays_one_event() {
    let volumes = table(&[(1, 1000.0)]);
    let laws = WalkLaws::default();
    let a = slab(1, 0, 0.2, 0.3, Vec3::new(0.0, 0.7, -0.7));
    let b = slab(1, 0, 0.22, 0.32, Vec3::new(0.0, -0.7, -0.7));
    let walked = walk_disc(
        &DiscCorridor {
            anchor: Vec3::ZERO,
            origin: Vec3::ZERO,
            axis: AXIS,
            length: 2.0,
            radius: 0.02,
            frame: DiscFrame {
                u: Vec3::X,
                v: Vec3::Y,
            },
            samples: vec![sample(Vec3::ZERO, a), sample(Vec3::X * 0.02, b)],
        },
        &volumes,
        &laws,
    )
    .unwrap();
    assert_eq!(walked.events.len(), 1);
    assert_eq!(walked.events[0].coverage, 1.0);
}

#[test]
fn a_half_covered_disc_gives_half_coverage_and_half_cost() {
    let volumes = table(&[(1, 1000.0)]);
    let laws = WalkLaws::default();
    let frame = DiscFrame::from_axis_and_reference(AXIS, Vec3::Y).unwrap();
    let offsets = disc_offsets(&frame, 0.044, DEFAULT_RING);
    let k = offsets.len();
    let samples: Vec<SampleCorridor> = offsets
        .into_iter()
        .map(|offset| {
            if offset.y > 0.0 {
                sample(offset, plate(1, 0, 0.5, 0.6))
            } else {
                sample(offset, Vec::new())
            }
        })
        .collect();
    let covered = samples.iter().filter(|s| !s.hits.is_empty()).count();
    let walked = walk_disc(
        &DiscCorridor {
            anchor: Vec3::ZERO,
            origin: Vec3::ZERO,
            axis: AXIS,
            length: 2.0,
            radius: 0.044,
            frame,
            samples,
        },
        &volumes,
        &laws,
    )
    .unwrap();
    let event = &walked.events[0];
    let expected = covered as f32 / k as f32;
    assert!((event.coverage - expected).abs() < 1.0e-6);
    assert!(
        (event.cost - 100.0 * expected).abs() < 0.5,
        "{}",
        event.cost
    );
}

#[test]
fn a_fragment_is_the_single_ray_walk_bitwise() {
    let volumes = table(&[(1, 1000.0), (2, 200.0)]);
    let laws = WalkLaws::default();
    let mut hits = plate(1, 0, 0.25, 0.375);
    hits.extend(plate(2, 0, 0.5, 0.75));
    let single = walk(&corridor(2.0, hits.clone()), &volumes);
    let walked = walk_disc(&point_disc(2.0, sample(Vec3::ZERO, hits)), &volumes, &laws).unwrap();
    let total: f32 = walked.events.iter().map(|e| e.cost).sum();
    assert_eq!(total.to_bits(), single.cost.to_bits());
    assert_eq!(walked.events[0].entry_normal, single.runs[0].entry_normal);
    assert_eq!(walked.events[0].coverage, 1.0);
}

#[test]
fn rolling_the_ring_phase_leaves_a_flat_plate_unchanged() {
    let volumes = table(&[(1, 1000.0)]);
    let laws = WalkLaws::default();
    let mut costs = Vec::new();
    for reference in [Vec3::Y, Vec3::X, Vec3::new(1.0, 1.0, 0.0), -Vec3::Y] {
        let frame = DiscFrame::from_axis_and_reference(AXIS, reference).unwrap();
        let samples = disc_offsets(&frame, 0.044, DEFAULT_RING)
            .into_iter()
            .map(|offset| sample(offset, plate(1, 0, 0.5, 0.6)))
            .collect();
        let walked = walk_disc(
            &DiscCorridor {
                anchor: Vec3::ZERO,
                origin: Vec3::ZERO,
                axis: AXIS,
                length: 2.0,
                radius: 0.044,
                frame,
                samples,
            },
            &volumes,
            &laws,
        )
        .unwrap();
        costs.push(walked.events[0].cost.to_bits());
    }
    assert!(costs.windows(2).all(|w| w[0] == w[1]), "{costs:?}");
}

#[test]
fn the_disc_frame_transports_rather_than_re_rolling() {
    let frame = DiscFrame::from_axis_and_reference(Vec3::Z, Vec3::Y).unwrap();
    let mut axis = Vec3::Z;
    let mut carried = frame;
    for step in 1..=90 {
        let angle = (step as f32).to_radians();
        let next = Vec3::new(0.0, angle.sin(), angle.cos()).normalize();
        carried = carried.transport(axis, next);
        axis = next;
    }
    assert!((carried.u.length() - 1.0).abs() < 1.0e-4);
    assert!(carried.u.dot(axis).abs() < 1.0e-4);
    assert!(carried.u.cross(carried.v).dot(axis) > 0.99);
}

#[test]
fn axis_only_and_ring_only_coverage_are_reported_honestly() {
    let volumes = table(&[(1, 1000.0)]);
    let laws = WalkLaws::default();
    let frame = DiscFrame::from_axis_and_reference(AXIS, Vec3::Y).unwrap();
    let offsets = disc_offsets(&frame, 0.044, DEFAULT_RING);
    let k = offsets.len();

    let axis_only: Vec<SampleCorridor> = offsets
        .iter()
        .enumerate()
        .map(|(index, offset)| {
            sample(
                *offset,
                if index == 0 {
                    plate(1, 0, 0.5, 0.6)
                } else {
                    Vec::new()
                },
            )
        })
        .collect();
    let walked = walk_disc(
        &DiscCorridor {
            anchor: Vec3::ZERO,
            origin: Vec3::ZERO,
            axis: AXIS,
            length: 2.0,
            radius: 0.044,
            frame,
            samples: axis_only,
        },
        &volumes,
        &laws,
    )
    .unwrap();
    assert!((walked.events[0].coverage - 1.0 / k as f32).abs() < 1.0e-6);
    assert!((walked.events[0].cost - 100.0 / k as f32).abs() < 0.01);

    let ring_only: Vec<SampleCorridor> = offsets
        .iter()
        .enumerate()
        .map(|(index, offset)| {
            sample(
                *offset,
                if index == 0 {
                    Vec::new()
                } else {
                    plate(1, 0, 0.5, 0.6)
                },
            )
        })
        .collect();
    let walked = walk_disc(
        &DiscCorridor {
            anchor: Vec3::ZERO,
            origin: Vec3::ZERO,
            axis: AXIS,
            length: 2.0,
            radius: 0.044,
            frame,
            samples: ring_only,
        },
        &volumes,
        &laws,
    )
    .unwrap();
    assert!((walked.events[0].coverage - (k - 1) as f32 / k as f32).abs() < 1.0e-6);
}

#[test]
fn different_stacks_on_different_samples_carry_per_boundary_coverage() {
    let volumes = table(&[(1, 1000.0), (2, 200.0)]);
    let laws = WalkLaws::default();
    let frame = DiscFrame {
        u: Vec3::X,
        v: Vec3::Y,
    };
    let mut deep = plate(1, 0, 0.5, 0.6);
    deep.extend(plate(2, 0, 0.6, 0.7));
    let walked = walk_disc(
        &DiscCorridor {
            anchor: Vec3::ZERO,
            origin: Vec3::ZERO,
            axis: AXIS,
            length: 2.0,
            radius: 0.02,
            frame,
            samples: vec![
                sample(Vec3::ZERO, plate(1, 0, 0.5, 0.6)),
                sample(Vec3::X * 0.02, deep),
            ],
        },
        &volumes,
        &laws,
    )
    .unwrap();
    assert_eq!(walked.events.len(), 1);
    let event = &walked.events[0];
    assert_eq!(event.coverage, 1.0);
    let step = event
        .spall
        .iter()
        .find(|mark| mark.from_factor == 1000.0 && mark.to_factor == 200.0)
        .expect("the interior step must be its own spall source");
    assert_eq!(step.coverage, 0.5);
    let coverage = |vol: u32| {
        event
            .shares
            .iter()
            .find(|share| share.entity == volume(vol))
            .expect("both volumes must appear")
            .coverage
    };
    assert_eq!(coverage(1), 1.0);
    assert_eq!(coverage(2), 0.5);
}

#[test]
fn the_aggregate_entry_normal_cannot_degenerate() {
    let volumes = table(&[(1, 1000.0)]);
    let laws = WalkLaws::default();
    let frame = DiscFrame {
        u: Vec3::X,
        v: Vec3::Y,
    };
    let a = slab(1, 0, 0.5, 0.55, Vec3::new(0.0, -1.0, -0.001));
    let b = slab(1, 0, 0.5, 0.55, Vec3::new(0.0, 1.0, -0.001));
    let walked = walk_disc(
        &DiscCorridor {
            anchor: Vec3::ZERO,
            origin: Vec3::ZERO,
            axis: AXIS,
            length: 2.0,
            radius: 0.02,
            frame,
            samples: vec![sample(Vec3::ZERO, a), sample(Vec3::X * 0.02, b)],
        },
        &volumes,
        &laws,
    )
    .expect("opposed patches still average to a usable bisector");
    let normal = walked.events[0].entry_normal;
    assert!((normal.length() - 1.0).abs() < 1.0e-5);
    assert!(AXIS.dot(normal) < 0.0, "n̄ always leans against the ray");
}

const AP_88: Shot = Shot {
    caliber: 0.088,
    capability: 250.0,
};

fn transit_request(walked: &DiscWalk, shot: &Shot, laws: &WalkLaws) -> TransitRequest {
    match begin(walked, shot, laws) {
        Begin::Transit(request) => request,
        other => panic!("expected the round to bite in, got {other:?}"),
    }
}

#[test]
fn an_arm_does_not_ricochet_an_88() {
    let laws = WalkLaws::default();
    let normal = Vec3::new(0.0, 0.97, -0.242).normalize();
    let arm = entrance_disc(&[Slab::at(1, 0, 0.5, normal, 0.08)], 2.0);

    let walked = walk_disc(&arm, &table(&[(1, 10.0)]), &laws).unwrap();
    let request = transit_request(&walked, &AP_88, &laws);
    assert!(request.entrance.overmatched);
    assert!(request.entrance.incidence > laws.ricochet_angle);

    let plate = entrance_disc(&[Slab::at(1, 0, 0.5, normal, 0.4)], 2.0);
    let walked = walk_disc(&plate, &table(&[(1, 1000.0)]), &laws).unwrap();
    assert!(matches!(
        begin(&walked, &AP_88, &laws),
        Begin::Ricochet { .. }
    ));
}

#[test]
fn a_lightly_covered_plate_is_not_thin_enough_to_overmatch() {
    let laws = WalkLaws::default();
    let volumes = table(&[(1, 1000.0)]);
    let normal = Vec3::new(0.0, 0.97, -0.242).normalize();
    let frame = DiscFrame::from_axis_and_reference(AXIS, Vec3::Y).unwrap();
    let steel = [Slab::at(1, 0, 0.5, normal, 0.2)];
    let corridor = disc_along(Vec3::ZERO, AXIS, frame, 0.044, 2.0, &steel, |index| {
        index % 4 == 0
    });
    let covered = corridor
        .samples
        .iter()
        .filter(|s| !s.hits.is_empty())
        .count();
    let walked = walk_disc(&corridor, &volumes, &laws).unwrap();
    let event = &walked.events[0];
    assert_eq!(covered, 4, "fixture must stay lightly covered");
    assert!(event.coverage < 0.35, "η = {}", event.coverage);

    match begin(&walked, &AP_88, &laws) {
        Begin::Ricochet { entrance, .. } => {
            assert!(!entrance.overmatched);
            assert!(
                (entrance.steel_equivalent - 0.0484).abs() < 2.0e-3,
                "{}",
                entrance.steel_equivalent
            );
            assert!(
                entrance.steel_equivalent * event.coverage * laws.overmatch_ratio < AP_88.caliber,
                "the fixture must actually straddle the threshold"
            );
        }
        other => panic!("a 200 mm oblique plate must deflect an 88: {other:?}"),
    }
}

#[test]
fn partial_coverage_scales_the_deflection_angle_and_the_bleed() {
    let laws = WalkLaws::default();
    let volumes = table(&[(1, 1000.0)]);
    let normal = Vec3::new(0.0, 0.97, -0.242).normalize();
    let frame = DiscFrame::from_axis_and_reference(AXIS, Vec3::Y).unwrap();
    let steel = [Slab::at(1, 0, 0.5, normal, 0.4)];

    let full = disc_along(Vec3::ZERO, AXIS, frame, 0.044, 2.0, &steel, |_| true);
    let full = walk_disc(&full, &volumes, &laws).unwrap();
    let (full_direction, full_scale) = match begin(&full, &AP_88, &laws) {
        Begin::Ricochet {
            direction,
            speed_scale,
            ..
        } => (direction, speed_scale),
        other => panic!("expected a ricochet, got {other:?}"),
    };
    let specular = reflect(AXIS, full.events[0].entry_normal);
    assert_eq!(full_direction.to_array(), specular.to_array());
    assert!((full_scale - laws.ricochet_bleed).abs() < 1.0e-6);
    let full_turn = AXIS.angle_between(full_direction);

    let mut previous_turn = full_turn;
    for stride in [2usize, 4, 6] {
        let partial = disc_along(Vec3::ZERO, AXIS, frame, 0.044, 2.0, &steel, |index| {
            index % stride == 0
        });
        let partial = walk_disc(&partial, &volumes, &laws).unwrap();
        let coverage = partial.events[0].coverage;
        match begin(&partial, &AP_88, &laws) {
            Begin::Ricochet {
                direction,
                speed_scale,
                ..
            } => {
                let turn = AXIS.angle_between(direction);
                assert!(
                    (turn - coverage * full_turn).abs() < 1.0e-3,
                    "η = {coverage}: turned {turn}, expected {}",
                    coverage * full_turn
                );
                assert!(turn < previous_turn, "less coverage must turn it less");
                let expected = 1.0 - coverage * (1.0 - laws.ricochet_bleed);
                assert!((speed_scale - expected).abs() < 1.0e-5, "{speed_scale}");
                previous_turn = turn;
            }
            other => panic!("expected a partial ricochet at η = {coverage}: {other:?}"),
        }
    }
}

#[test]
fn partial_coverage_scales_the_normalization_bend() {
    let laws = WalkLaws::default();
    let volumes = table(&[(1, 1000.0)]);
    let normal = Vec3::new(0.0, 1.0, -1.0).normalize();
    let frame = DiscFrame::from_axis_and_reference(AXIS, Vec3::Y).unwrap();
    let steel = [Slab::at(1, 0, 0.5, normal, 0.02)];

    let full = walk_disc(
        &disc_along(Vec3::ZERO, AXIS, frame, 0.044, 2.0, &steel, |_| true),
        &volumes,
        &laws,
    )
    .unwrap();
    let full_request = transit_request(&full, &AP_88, &laws);
    let full_bend = AXIS.angle_between(full_request.axis);
    assert!(
        (full_bend - laws.normalization * full_request.entrance.incidence).abs() < 1.0e-4,
        "{full_bend}"
    );

    let partial = walk_disc(
        &disc_along(Vec3::ZERO, AXIS, frame, 0.044, 2.0, &steel, |index| {
            index % 3 == 0
        }),
        &volumes,
        &laws,
    )
    .unwrap();
    let coverage = partial.events[0].coverage;
    let partial_bend = AXIS.angle_between(transit_request(&partial, &AP_88, &laws).axis);
    assert!(
        (partial_bend - coverage * full_bend).abs() < 1.0e-3,
        "η = {coverage}: bent {partial_bend}, expected {}",
        coverage * full_bend
    );
}

#[test]
fn the_transit_ray_is_anchored_on_the_axis_not_the_coverage_centroid() {
    let laws = WalkLaws::default();
    let volumes = table(&[(1, 1000.0)]);
    let frame = DiscFrame::from_axis_and_reference(AXIS, Vec3::Y).unwrap();
    let plate = [Slab::at(1, 0, 0.5, -AXIS, 0.02)];
    let offsets = disc_offsets(&frame, 0.044, DEFAULT_RING);
    let corridor = disc_along(Vec3::ZERO, AXIS, frame, 0.044, 2.0, &plate, |index| {
        offsets[index].y > 0.01
    });
    let walked = walk_disc(&corridor, &volumes, &laws).unwrap();
    let event = &walked.events[0];
    assert!(event.coverage < 0.5);
    assert!(event.entry_position.y > 0.01, "{:?}", event.entry_position);

    let request = transit_request(&walked, &AP_88, &laws);
    assert!(
        request.origin.lateral() < 1.0e-6,
        "the transit ray drifted laterally to {:?}",
        request.origin
    );
    assert!((request.origin.z - 0.5).abs() < 1.0e-5);
}

#[test]
fn the_handoff_seeds_every_sample_that_starts_inside_material() {
    let laws = WalkLaws::default();
    let volumes = table(&[(1, 1000.0), (2, 1000.0)]);
    let frame = DiscFrame::from_axis_and_reference(AXIS, Vec3::Y).unwrap();
    let offsets = disc_offsets(&frame, 0.044, DEFAULT_RING);
    let near = Slab::at(1, 0, 0.499, -AXIS, 0.1);
    let far = Slab::at(2, 0, 0.5, -AXIS, 0.1);
    let samples = offsets
        .iter()
        .map(|offset| {
            let slab = if offset.y > 0.0 { near } else { far };
            SampleCorridor {
                offset: *offset,
                initial_presence: Vec::new(),
                hits: slab.hits(*offset, AXIS, 3.0, false),
            }
        })
        .collect();
    let walked = walk_disc(
        &DiscCorridor {
            anchor: Vec3::ZERO,
            origin: Vec3::ZERO,
            axis: AXIS,
            length: 3.0,
            radius: 0.044,
            frame,
            samples,
        },
        &volumes,
        &laws,
    )
    .unwrap();
    assert_eq!(walked.events.len(), 1, "1 mm of stagger is one crossing");
    let request = transit_request(&walked, &AP_88, &laws);

    assert_eq!(request.seeds.len(), request.samples);
    assert_eq!(request.seeds[0].offset, Vec3::ZERO, "sample 0 IS the axis");
    let seeded = request
        .seeds
        .iter()
        .filter(|s| !s.inside.is_empty())
        .count();
    assert!(
        seeded > 0 && seeded < request.samples,
        "a staggered surface seeds some samples and not others, got {seeded}/{}",
        request.samples
    );
    for seed in request.seeds.iter().filter(|s| !s.inside.is_empty()) {
        assert_eq!(
            seed.inside,
            vec![ShellKey {
                volume: volume(1),
                primitive: prim(0),
                shell: 0,
            }]
        );
    }

    let transit = DiscCorridor {
        anchor: request.anchor,
        origin: request.origin,
        axis: request.axis,
        length: 3.0,
        radius: request.radius,
        frame: request.frame,
        samples: request
            .seeds
            .iter()
            .map(|seed| {
                let slab = if offsets[seed.sample].y > 0.0 {
                    near
                } else {
                    far
                };
                SampleCorridor {
                    offset: seed.offset,
                    initial_presence: seed.inside.clone(),
                    hits: slab.hits(
                        request.origin + seed.offset,
                        request.axis,
                        3.0,
                        seed.inside.contains(&slab.key()),
                    ),
                }
            })
            .collect(),
    };
    assert!(walk_disc(&transit, &volumes, &laws).is_ok());
    let mut unseeded = transit.clone();
    for sample in &mut unseeded.samples {
        sample.initial_presence.clear();
    }
    assert!(matches!(
        walk_disc(&unseeded, &volumes, &laws),
        Err(WalkError::UnexpectedExit { .. })
    ));
}

#[test]
fn finish_rejects_a_corridor_that_is_not_the_one_it_asked_for() {
    let laws = WalkLaws::default();
    let volumes = table(&[(1, 1000.0)]);
    let normal = Vec3::new(0.0, 0.5, -0.866).normalize();
    let slabs = [Slab::at(1, 0, 0.5, normal, 0.05)];
    let walked = walk_disc(&entrance_disc(&slabs, 3.0), &volumes, &laws).unwrap();
    let request = transit_request(&walked, &AP_88, &laws);
    let honest = walk_disc(&transit_disc(&request, &slabs, 3.0), &volumes, &laws).unwrap();
    assert!(finish(&honest, &request, &AP_88, &laws).is_ok());

    assert!(matches!(
        finish(&walked, &request, &AP_88, &laws),
        Err(WalkError::CorridorMismatch { .. })
    ));

    let mut rolled = honest.clone();
    rolled.frame = DiscFrame::from_axis_and_reference(request.axis, Vec3::X).unwrap();
    assert!(matches!(
        finish(&rolled, &request, &AP_88, &laws),
        Err(WalkError::CorridorMismatch { .. })
    ));

    let elsewhere = Slab::at(9, 0, 1.5, normal, 0.05);
    let mut unrelated = transit_disc(&request, &[elsewhere], 3.0);
    for (sample, seed) in unrelated.samples.iter_mut().zip(&request.seeds) {
        sample.initial_presence.clear();
        sample.hits = elsewhere.hits(request.origin + seed.offset, request.axis, 3.0, false);
    }
    let other = walk_disc(&unrelated, &table(&[(9, 1000.0)]), &laws).unwrap();
    assert!(matches!(
        finish(&other, &request, &AP_88, &laws),
        Err(WalkError::CorridorMismatch { .. })
    ));
}

#[test]
fn finish_rejects_a_corridor_whose_samples_moved() {
    let laws = WalkLaws::default();
    let volumes = table(&[(1, 1000.0)]);
    let normal = Vec3::new(0.0, 0.5, -0.866).normalize();
    let slabs = [Slab::at(1, 0, 0.5, normal, 0.05)];
    let walked = walk_disc(&entrance_disc(&slabs, 3.0), &volumes, &laws).unwrap();
    let request = transit_request(&walked, &AP_88, &laws);

    let mut moved = transit_disc(&request, &slabs, 3.0);
    moved.samples[3].offset += Vec3::X * 0.01;
    let moved = walk_disc(&moved, &volumes, &laws).unwrap();
    assert_eq!(moved.axis, request.axis);
    assert_eq!(moved.origin, request.origin);
    assert_eq!(moved.samples(), request.samples);
    assert!(matches!(
        finish(&moved, &request, &AP_88, &laws),
        Err(WalkError::CorridorMismatch { .. })
    ));
}

#[test]
fn finish_rejects_a_far_crossing_of_the_same_entity() {
    let laws = WalkLaws::default();
    let volumes = table(&[(1, 1000.0)]);
    let front = Slab::at(1, 0, 0.5, -AXIS, 0.05);
    let walked = walk_disc(&entrance_disc(&[front], 3.0), &volumes, &laws).unwrap();
    let request = transit_request(&walked, &AP_88, &laws);

    let elsewhere = Slab::at(1, 7, 2.5, -AXIS, 0.05);
    let mut corridor = transit_disc(&request, &[front], 3.0);
    for (sample, seed) in corridor.samples.iter_mut().zip(&request.seeds) {
        sample.initial_presence.clear();
        sample.hits = elsewhere.hits(request.origin + seed.offset, request.axis, 3.0, false);
    }
    let far = walk_disc(&corridor, &volumes, &laws).unwrap();
    assert_eq!(
        far.events[0].shares[0].entity,
        volume(1),
        "the fixture must keep the entity identical — that is the point"
    );
    assert!(matches!(
        finish(&far, &request, &AP_88, &laws),
        Err(WalkError::CorridorMismatch { .. })
    ));
}

#[test]
fn capability_exhausted_midway_inverts_the_prefix_integral_and_clips_damage() {
    let laws = WalkLaws::default();
    let volumes = table(&[(1, 1000.0), (2, 10.0)]);
    let slabs = [
        Slab::at(1, 0, 0.5, -AXIS, 0.1),
        Slab::at(2, 0, 0.6, -AXIS, 0.3),
    ];
    let walked = walk_disc(&entrance_disc(&slabs, 3.0), &volumes, &laws).unwrap();
    let shot = Shot {
        caliber: 0.088,
        capability: 60.0,
    };
    let request = transit_request(&walked, &shot, &laws);
    let transit = walk_disc(&transit_disc(&request, &slabs, 3.0), &volumes, &laws).unwrap();
    let plan = finish(&transit, &request, &shot, &laws).unwrap();

    match plan.outcome {
        Outcome::Embedded { t, .. } => assert!((t - 0.06).abs() < 1.0e-3, "{t}"),
        other => panic!("expected an embed, got {other:?}"),
    }
    assert!((plan.cost_spent - 60.0).abs() < 0.1);
    let armour = plan
        .deposits
        .iter()
        .find(|d| d.entity == volume(1))
        .expect("the plate it died in must be charged");
    assert!((armour.chord - 0.06).abs() < 1.0e-3, "{}", armour.chord);
    assert!(
        !plan.deposits.iter().any(|d| d.entity == volume(2)),
        "a round that stopped in the plate cannot wound the crewman behind it"
    );
    assert!(plan.spall.is_empty(), "no exit, no spall (§5)");
}

#[test]
fn a_perforation_charges_every_entity_for_its_own_material() {
    let laws = WalkLaws::default();
    let volumes = table(&[(1, 1000.0), (2, 10.0)]);
    let slabs = [
        Slab::at(1, 0, 0.5, -AXIS, 0.1),
        Slab::at(2, 0, 0.6, -AXIS, 0.3),
    ];
    let walked = walk_disc(&entrance_disc(&slabs, 3.0), &volumes, &laws).unwrap();
    let request = transit_request(&walked, &AP_88, &laws);
    let transit = walk_disc(&transit_disc(&request, &slabs, 3.0), &volumes, &laws).unwrap();
    let plan = finish(&transit, &request, &AP_88, &laws).unwrap();

    assert!(matches!(plan.outcome, Outcome::Perforated { .. }));
    assert!((plan.cost_spent - 103.0).abs() < 0.5, "{}", plan.cost_spent);
    let crew = plan
        .deposits
        .iter()
        .find(|d| d.entity == volume(2))
        .expect("the crewman transited must be charged");
    assert!((crew.chord - 0.3).abs() < 1.0e-3);
    assert!(
        (crew.cost - 3.0).abs() < 0.05,
        "flesh charges its own factor"
    );
    assert!(!plan.spall.is_empty());
}

#[test]
fn overmatch_charges_the_perpendicular_projection_everywhere() {
    let laws = WalkLaws::default();
    let volumes = table(&[(1, 1000.0)]);
    let normal = Vec3::new(0.0, 0.866, -0.5).normalize();
    let slabs = [Slab::at(1, 0, 0.5, normal, 0.03)];
    let walked = walk_disc(&entrance_disc(&slabs, 3.0), &volumes, &laws).unwrap();
    let request = transit_request(&walked, &AP_88, &laws);
    assert!(request.entrance.overmatched);

    let transit = walk_disc(&transit_disc(&request, &slabs, 3.0), &volumes, &laws).unwrap();
    let plan = finish(&transit, &request, &AP_88, &laws).unwrap();

    assert!((plan.cost_spent - 15.0).abs() < 0.2, "{}", plan.cost_spent);
    let exit = plan
        .spall
        .iter()
        .find(|mark| mark.to_factor == 0.0)
        .expect("a perforation exits");
    assert!(
        (exit.budget - 15.0).abs() < 0.2,
        "spall budget {}",
        exit.budget
    );
    let deposit = &plan.deposits[0];
    assert!(
        (deposit.cost - 15.0).abs() < 0.2,
        "deposit {}",
        deposit.cost
    );
    assert!(
        (deposit.chord - 0.015).abs() < 5.0e-4,
        "the charged chord is the perpendicular one: {}",
        deposit.chord
    );
    match plan.outcome {
        Outcome::Perforated { t, .. } => assert!(t > 0.02, "{t}"),
        other => panic!("expected a perforation, got {other:?}"),
    }
}

#[test]
fn an_empty_disc_is_a_miss() {
    let laws = WalkLaws::default();
    let volumes = table(&[(1, 1000.0)]);
    let walked = walk_disc(&entrance_disc(&[], 2.0), &volumes, &laws).unwrap();
    assert!(walked.events.is_empty());
    assert_eq!(begin(&walked, &AP_88, &laws), Begin::Miss);
}

#[test]
fn a_weaker_volume_inside_steel_cannot_dilute_it_in_either_id_order() {
    for (steel, flesh) in [(9u32, 1u32), (1u32, 9u32)] {
        let volumes = table(&[(steel, 1000.0), (flesh, 10.0)]);
        let bare = walk(&corridor(2.0, plate(steel, 0, 0.2, 0.8)), &volumes);
        let mut clipped = plate(steel, 0, 0.2, 0.8);
        clipped.extend(plate(flesh, 0, 0.3, 0.5));
        let clipped = walk(&corridor(2.0, clipped), &volumes);
        assert_eq!(
            bare.cost.to_bits(),
            clipped.cost.to_bits(),
            "steel id {steel}, flesh id {flesh}: {} vs {}",
            bare.cost,
            clipped.cost
        );
        assert_eq!(bare.spans, clipped.spans);
        let share = clipped
            .presence
            .iter()
            .find(|p| p.entity == volume(flesh))
            .expect("the clipped volume is still present");
        assert!((share.cost - 2.0).abs() < 1.0e-3, "{}", share.cost);
    }
}

#[test]
fn a_micro_gap_between_same_facing_faces_does_not_weld() {
    let volumes = table(&[(1, 1000.0), (2, 1000.0)]);
    let grazing_out = Vec3::new(0.0, 0.999, 0.045);
    let grazing_in = Vec3::new(0.0, 0.999, -0.045);

    let mut same = oblique_plate(
        1,
        0,
        0,
        0.2,
        0.3,
        Vec3::new(0.0, -0.999, -0.045),
        grazing_out,
    );
    same.extend(oblique_plate(
        2,
        0,
        0,
        0.32,
        0.42,
        grazing_in,
        Vec3::new(0.0, -0.999, 0.045),
    ));
    let same = walk(&corridor(2.0, same), &volumes);
    assert_eq!(same.runs.len(), 2, "same-facing micro-gaps are not one run");

    let mut opposed = oblique_plate(
        1,
        0,
        0,
        0.2,
        0.3,
        Vec3::new(0.0, -0.999, -0.045),
        grazing_out,
    );
    opposed.extend(oblique_plate(
        2,
        0,
        0,
        0.32,
        0.42,
        Vec3::new(0.0, -0.999, -0.045),
        Vec3::new(0.0, 0.999, 0.045),
    ));
    let opposed = walk(&corridor(2.0, opposed), &volumes);
    assert_eq!(opposed.runs.len(), 1);
    assert_eq!(opposed.runs[0].joints, 1);
}

#[test]
fn a_long_grazing_gap_is_rejected_by_the_lookahead_ceiling() {
    let volumes = table(&[(1, 1000.0), (2, 1000.0)]);
    let out = Vec3::new(0.0, 0.9998, 0.02);
    let into = Vec3::new(0.0, -0.9998, -0.02);
    let pair = |gap: f32| {
        let mut hits = oblique_plate(1, 0, 0, 0.2, 0.3, into, out);
        hits.extend(oblique_plate(2, 0, 0, (0.3 + gap) as f64, 0.5, into, out));
        walk(&corridor(2.0, hits), &volumes)
    };
    assert_eq!(pair(0.06).runs.len(), 2, "60 mm of void is not a micro-gap");
    assert_eq!(pair(0.04).runs.len(), 1);
}

#[test]
fn the_fragment_degeneracy_survives_a_normal_that_normalization_would_move() {
    let laws = WalkLaws::default();
    let volumes = table(&[(1, 1000.0)]);
    let front = (1..200_000u32)
        .map(|step| Vec3::new(0.0, step as f32 * 3.7e-5, -1.0))
        .find(|raw| {
            let once = unit_or_zero(raw.normalize());
            unit_or_zero(once).to_array() != once.to_array()
        })
        .expect("some oblique f32 normal must survive normalization with different bits");

    let hits = oblique_plate(1, 0, 0, 0.25, 0.375, front, -front);
    let single = walk(&corridor(2.0, hits.clone()), &volumes);
    let walked = walk_disc(&point_disc(2.0, sample(Vec3::ZERO, hits)), &volumes, &laws).unwrap();

    assert_eq!(walked.events.len(), 1);
    assert_eq!(
        walked.events[0].entry_normal.to_array(),
        single.runs[0].entry_normal.to_array(),
        "r → 0, k = 1 must be the single-ray walk to the bit, not to a tolerance"
    );
    assert_eq!(walked.events[0].cost.to_bits(), single.cost.to_bits());
}

#[test]
fn three_abutting_plates_are_byte_identical_to_one_slab_in_every_order() {
    let volumes = table(&[(7, 997.0), (5, 997.0), (3, 997.0), (11, 311.0)]);
    let (a, b, c, d) = (0.137_f64, 0.291_f64, 0.447_8_f64, 0.601_3_f64);

    let one = walk(&corridor(2.0, plate(7, 0, a, d)), &volumes);

    let mut split = plate(7, 0, a, b);
    split.extend(plate(5, 0, b, c));
    split.extend(plate(3, 0, c, d));
    split.extend(plate(11, 0, 0.2, 0.5));

    for shift in 0..split.len() {
        let mut permuted = split.clone();
        permuted.rotate_left(shift);
        for reversed in [false, true] {
            if reversed {
                permuted.reverse();
            }
            let result = walk(&corridor(2.0, permuted.clone()), &volumes);
            assert_eq!(
                result.cost.to_bits(),
                one.cost.to_bits(),
                "shift {shift}, reversed {reversed}: {} vs {}",
                result.cost,
                one.cost
            );
            assert_eq!(result.spans, one.spans);
            assert_eq!(result.events, one.events);
        }
    }
}

#[test]
fn one_plane_stays_one_event_across_the_calibre_incidence_cliff() {
    let volumes = table(&[(1, 1000.0)]);
    let laws = WalkLaws::default();
    let disc_on_one_plane = |radius: f32, incidence_deg: f32| {
        let incidence = incidence_deg.to_radians();
        let normal = Vec3::new(0.0, incidence.sin(), -incidence.cos());
        let frame = DiscFrame {
            u: Vec3::X,
            v: Vec3::Y,
        };
        let chord = 0.010 / incidence.cos();
        let slab = Slab::at(1, 0, 1.0, normal, chord);
        let samples = disc_offsets(&frame, radius, DEFAULT_RING)
            .into_iter()
            .map(|offset| sample(offset, slab.hits(offset, AXIS, 4.0, false)))
            .collect();
        DiscCorridor {
            anchor: Vec3::ZERO,
            origin: Vec3::ZERO,
            axis: AXIS,
            length: 4.0,
            radius,
            frame,
            samples,
        }
    };

    for (caliber, incidence_deg) in [(0.088f32, 80.0f32), (0.120, 75.0)] {
        let radius = caliber * 0.5;
        let corridor = disc_on_one_plane(radius, incidence_deg);
        let spread = 2.0 * radius * incidence_deg.to_radians().tan();
        assert!(
            spread > 0.4,
            "{caliber} m at {incidence_deg}° spreads {spread} m along the ray",
        );

        let walked = walk_disc(&corridor, &volumes, &laws).expect("one plane resolves");
        assert_eq!(
            walked.events.len(),
            1,
            "{caliber} m at {incidence_deg}°: one plane is one crossing, not {}",
            walked.events.len(),
        );
        assert_eq!(
            walked.events[0].coverage, 1.0,
            "and the whole disc engaged it",
        );
    }
}

#[test]
fn a_boundary_at_the_restart_belongs_to_the_corridor_not_the_seed() {
    let volumes = table(&[(1, 1000.0)]);
    let laws = WalkLaws::default();
    let walked = walk(
        &RayCorridor {
            anchor: Vec3::ZERO,
            origin: Vec3::ZERO,
            axis: AXIS,
            length: 1.0,
            initial_presence: Vec::new(),
            hits: plate(1, 0, 0.20, 0.30),
        },
        &volumes,
    );
    let key = ShellKey {
        volume: volume(1),
        primitive: prim(0),
        shell: 0,
    };
    let hair = 1.0e-7;

    for t in [0.20, 0.20 + hair, 0.20 - hair] {
        assert!(
            walked.inside_at(t, &laws).is_empty(),
            "an entry AT the restart is the new corridor's to process, not the seed's (t = {t})",
        );
    }
    for t in [0.30, 0.30 + hair, 0.30 - hair, 0.25] {
        assert_eq!(
            walked.inside_at(t, &laws),
            vec![key],
            "an exit at or after the restart must be seeded, or it has nothing to pair with \
             (t = {t})",
        );
    }
    assert!(
        walked.inside_at(0.35, &laws).is_empty(),
        "and past the exit the ray is out",
    );
}

#[test]
fn a_ring_only_contact_on_one_plane_is_one_event() {
    let volumes = table(&[(1, 1000.0)]);
    let laws = WalkLaws::default();
    let radius = 0.044f32;
    let incidence = 80.0_f32.to_radians();
    let normal = Vec3::new(0.0, incidence.sin(), -incidence.cos());
    let frame = DiscFrame {
        u: Vec3::X,
        v: Vec3::Y,
    };
    let slab = Slab::at(1, 0, 1.0, normal, 0.010 / incidence.cos());

    let touching = [4usize, 10];
    let offsets = disc_offsets(&frame, radius, DEFAULT_RING);
    let samples: Vec<SampleCorridor> = offsets
        .iter()
        .enumerate()
        .map(|(index, &offset)| {
            if touching.contains(&index) {
                sample(offset, slab.hits(offset, AXIS, 4.0, false))
            } else {
                sample(offset, Vec::new())
            }
        })
        .collect();

    let separation = (offsets[touching[1]] - offsets[touching[0]]).length();
    assert!(
        (separation - 2.0 * radius).abs() < 1.0e-6,
        "the pair really is diametrically opposite: {separation} m apart",
    );
    let spread = 2.0 * radius * incidence.tan();
    assert!(
        (spread - 0.499).abs() < 1.0e-3,
        "and one plane spreads them {spread} m along the ray",
    );

    let walked = walk_disc(
        &DiscCorridor {
            anchor: Vec3::ZERO,
            origin: Vec3::ZERO,
            axis: AXIS,
            length: 4.0,
            radius,
            frame,
            samples,
        },
        &volumes,
        &laws,
    )
    .expect("one plane resolves");

    assert_eq!(
        walked.events.len(),
        1,
        "two rim samples on ONE plane are one crossing, {spread} m apart or not",
    );
    assert!(
        (walked.events[0].coverage - 2.0 / 13.0).abs() < 1.0e-6,
        "and it engaged exactly the two samples that touched: {}",
        walked.events[0].coverage,
    );
}

#[test]
fn a_shell_nested_inside_another_in_one_primitive_is_one_presence() {
    let volumes = table(&[(1, 1000.0)]);
    let mut hits = shell_plate(1, 0, 0, 0.20, 0.60);
    hits.extend(shell_plate(1, 0, 1, 0.203, 0.597));
    let walked = walk(&corridor(4.0, hits), &volumes);

    assert_eq!(
        walked.runs.len(),
        1,
        "one primitive, one continuous presence"
    );
    assert_eq!(walked.presence.len(), 1, "and one entity presence, not two",);
    assert_eq!(
        walked.presence[0].spans,
        vec![(0.20, 0.60)],
        "the union of the shells — the outermost pair",
    );
    assert!(
        (walked.cost - 0.40 * 1000.0).abs() < 1.0e-3,
        "{}",
        walked.cost
    );
}

#[test]
fn overlapping_shells_in_one_primitive_are_one_presence() {
    let volumes = table(&[(1, 1000.0)]);
    let mut hits = shell_plate(1, 0, 0, 0.20, 0.40);
    hits.extend(shell_plate(1, 0, 1, 0.292, 0.50));
    let walked = walk(&corridor(4.0, hits), &volumes);

    assert_eq!(walked.runs.len(), 1);
    assert_eq!(walked.presence[0].spans, vec![(0.20, 0.50)]);
    assert!(
        (walked.cost - 0.30 * 1000.0).abs() < 1.0e-3,
        "{}",
        walked.cost
    );
}

#[test]
fn disjoint_shells_in_one_primitive_are_still_two_crossings() {
    let volumes = table(&[(1, 1000.0)]);
    let laws = WalkLaws::default();
    let mut hits = shell_plate(1, 0, 0, 0.20, 0.30);
    hits.extend(shell_plate(1, 0, 1, 0.392, 0.50));
    assert!(
        0.092 > laws.weld_max_lookahead,
        "the gap is past the lookahead, so no weld can even be looked for",
    );
    let walked = walk(&corridor(4.0, hits), &volumes);

    assert_eq!(walked.runs.len(), 2, "92 mm of air is two crossings");
    assert_eq!(
        walked.presence[0].spans,
        vec![(0.20, 0.30), (0.392, 0.50)],
        "two separate presences of the one primitive",
    );
    assert!(
        (walked.cost - (0.10 + 0.108) * 1000.0).abs() < 1.0e-3,
        "{}",
        walked.cost
    );
}

#[test]
fn a_duplicated_shell_in_one_primitive_changes_nothing() {
    let volumes = table(&[(1, 1000.0)]);
    let once = walk(&corridor(4.0, plate(1, 0, 0.25, 0.75)), &volumes);
    let mut doubled = shell_plate(1, 0, 0, 0.25, 0.75);
    doubled.extend(shell_plate(1, 0, 1, 0.25, 0.75));
    let twice = walk(&corridor(4.0, doubled), &volumes);

    assert_eq!(
        once.cost.to_bits(),
        twice.cost.to_bits(),
        "bit-identical cost"
    );
    assert_eq!(once.spans, twice.spans);
    assert_eq!(once.presence, twice.presence);
    assert_eq!(once.events, twice.events);
    assert_eq!(twice.shells.len(), 2);
}

#[test]
fn a_shell_thinner_than_the_window_is_an_ordinary_crossing() {
    let volumes = table(&[(1, 1000.0)]);
    let laws = WalkLaws::default();
    let (enter, exit) = (1.0f64, ulps(1.0, 8));
    assert!(
        coincident(enter, exit, &laws),
        "the shell must be INSIDE one window, or the fixture proves nothing",
    );

    let walked = walk_ray(0, &corridor(2.0, plate(1, 1, enter, exit)), &volumes, &laws)
        .expect("a thin shell resolves");

    let truth = 1000.0 * (exit - enter);
    assert!(
        walked.cost as f64 >= truth * (1.0 - 1.0e-6),
        "charged {} against an exact {truth}",
        walked.cost,
    );
    assert_eq!(
        walked.presence.len(),
        1,
        "the shell is present: {walked:#?}"
    );
    assert_eq!(walked.presence[0].chord, (exit - enter) as f32);
    assert_eq!(
        walked
            .events
            .iter()
            .map(|event| (event.kind, event.t))
            .collect::<Vec<_>>(),
        vec![(BoundaryKind::Entrance, enter), (BoundaryKind::Exit, exit),],
        "and it has a real entrance and a real exit: {:#?}",
        walked.events,
    );
}

#[test]
fn two_shells_at_one_corner_keep_their_own_chords() {
    let volumes = table(&[(1, 1000.0), (2, 1200.0)]);
    let (near, far) = (Vec3::new(0.1, 0.0, -1.0), Vec3::new(-0.1, 0.0, -1.0));
    let mut hits = Vec::new();
    hits.extend(oblique_plate(1, 1, 0, 8.371_457, 8.754_433, near, -near));
    hits.extend(oblique_plate(1, 1, 1, 8.5646715, 8.564_675, near, -far));
    hits.extend(oblique_plate(2, 2, 0, 8.5646715, 8.564_676, far, -near));

    let walked = walk_ray(0, &corridor(14.0, hits), &volumes, &WalkLaws::default())
        .expect("a corner resolves");
    assert_eq!(
        walked.runs.len(),
        1,
        "one crossing, not one per corner face: {:#?}",
        walked.runs
    );

    let crossed = walked
        .presence
        .iter()
        .find(|presence| presence.entity == volume(1))
        .expect("the crossed shard is present");
    assert!(
        crossed.chord >= 8.754_433 - 8.371_457,
        "chord {} lost the plate itself",
        crossed.chord,
    );
    let brushed = walked
        .presence
        .iter()
        .find(|presence| presence.entity == volume(2))
        .expect("the brushed shard is present too");
    assert_eq!(brushed.chord, (8.564_676_f64 - 8.5646715_f64) as f32);
    let plate = 1000.0 * (8.754_433 - 8.371_457);
    assert!(
        walked.cost > plate,
        "cost {} declined the corner the brushed shard bounds",
        walked.cost,
    );
    assert!(
        walked.cost <= plate + 1200.0 * brushed.chord,
        "cost {} charged more than the crossing plus the brush",
        walked.cost,
    );
}

fn ulps(t: f32, steps: i32) -> f64 {
    f32::from_bits((t.to_bits() as i32 + steps) as u32) as f64
}

#[test]
fn a_foreign_face_inside_a_plate_cannot_reach_its_other_side() {
    let volumes = table(&[(1, 1000.0), (2, 800.0), (3, 600.0)]);
    let laws = WalkLaws::default();
    let (enter, exit) = (1.0f64, ulps(1.0, 8));
    assert!(
        coincident(enter, exit, &laws),
        "the plate must be thinner than the retired window, or it proves nothing",
    );

    let mut hits = plate(1, 1, enter, exit);
    hits.extend(plate(2, 2, ulps(1.0, 4), 1.5));
    for step in 0..40 {
        hits.push(FaceHit {
            volume: volume(3),
            primitive: prim(3),
            shell: 0,
            contact: Contact::Face(step),
            triangle: step,
            t: ulps(exit as f32, (step as i32) * 8),
            true_normal: Vec3::X,
        });
    }
    let walked = walk_ray(0, &corridor(3.0, hits), &volumes, &laws).expect("both solids resolve");

    let plate = walked
        .presence
        .iter()
        .find(|presence| presence.entity == volume(1))
        .expect("the thin plate is present");
    assert_eq!(
        plate.chord,
        (exit - enter) as f32,
        "the whole 20 ULP is its own chord"
    );
    assert!(
        walked.cost as f64 > 800.0 * (1.5 - enter),
        "cost {} charged the plate at the soft factor or not at all",
        walked.cost,
    );
}

#[test]
fn a_fan_of_claims_on_one_feature_is_one_crossing() {
    let volumes = table(&[(1, 1000.0)]);
    let mut hits = plate(1, 1, 0.5, 1.0);
    hits[1].contact = Contact::Edge(11, 12);
    hits.push(FaceHit {
        volume: volume(1),
        primitive: prim(1),
        shell: 0,
        contact: Contact::Edge(11, 12),
        triangle: 77,
        t: 1.0,
        true_normal: AXIS,
    });
    let walked = walk(&corridor(2.0, hits), &volumes);

    assert_eq!(walked.presence[0].spans, vec![(0.5, 1.0)]);
    assert_eq!(
        walked.runs.len(),
        1,
        "one boundary, one run: {:#?}",
        walked.runs
    );
}

#[test]
fn overlapping_shells_inside_one_window_keep_the_survivor_open() {
    let volumes = table(&[(1, 1000.0)]);
    let laws = WalkLaws::default();
    let (a_enter, b_enter, a_exit) = (1.0f64, ulps(1.0, 2), ulps(1.0, 4));
    assert!(
        coincident(a_enter, a_exit, &laws),
        "the three faces must sit in ONE window, or there is no reduction to defeat",
    );
    let mut hits = shell_plate(1, 1, 0, a_enter, a_exit);
    hits.extend(shell_plate(1, 1, 1, b_enter, 2.0));

    let error = walk_ray(0, &corridor(1.5, hits), &volumes, &laws)
        .expect_err("the corridor ends inside shell B");
    let WalkError::IncompleteCorridor { open, .. } = error else {
        panic!("a shell left open must fail closed, not resolve: {error:?}");
    };
    assert_eq!(
        open,
        vec![ShellKey {
            volume: volume(1),
            primitive: prim(1),
            shell: 1,
        }],
        "and the open shell is named",
    );
}

#[test]
fn abutting_shells_on_a_bit_equal_boundary_keep_the_second_open() {
    let volumes = table(&[(1, 1000.0)]);
    let laws = WalkLaws::default();
    let junction = ulps(1.0, 2);
    let seam = || {
        let mut hits = shell_plate(1, 1, 0, 1.0, junction);
        hits.extend(shell_plate(1, 1, 1, junction, 2.0));
        hits
    };

    let error = walk_ray(0, &corridor(1.5, seam()), &volumes, &laws)
        .expect_err("the corridor ends inside shell B");
    let WalkError::IncompleteCorridor { open, .. } = error else {
        panic!("a shell left open must fail closed, not resolve: {error:?}");
    };
    assert_eq!(open[0].shell, 1, "and the open shell is named: {open:?}");

    let walked = walk_ray(0, &corridor(3.0, seam()), &volumes, &laws).expect("both shells close");
    assert_eq!(walked.runs.len(), 1, "{:#?}", walked.runs);
    assert!(
        (walked.cost - 1000.0).abs() < 1.0e-2,
        "cost {} lost shell B",
        walked.cost,
    );
}

#[test]
fn two_shells_crossed_inside_one_window_are_two_crossings() {
    let volumes = table(&[(1, 1000.0)]);
    let laws = WalkLaws::default();
    let mut hits = shell_plate(1, 1, 0, 1.0, ulps(1.0, 2));
    hits.extend(shell_plate(1, 1, 1, ulps(1.0, 4), ulps(1.0, 6)));
    let walked = walk_ray(0, &corridor(1.5, hits), &volumes, &laws).expect("both shells close");

    assert!(
        walked.spans.last().is_some_and(|span| span.factor == 0.0),
        "the field is shut past them: {:#?}",
        walked.spans,
    );
    let chords = (ulps(1.0, 2) - 1.0) + (ulps(1.0, 6) - ulps(1.0, 4));
    assert!(
        (walked.cost as f64 - 1000.0 * chords).abs() <= 1.0e-3,
        "cost {} is not the two shells' own chords",
        walked.cost,
    );
}

#[test]
fn duplicate_claims_of_one_contact_are_one_entry() {
    let volumes = table(&[(1, 1000.0)]);
    let laws = WalkLaws::default();
    let mut hits = plate(1, 1, 1.0, 1.5);
    hits[0].contact = Contact::Edge(4, 9);
    hits.push(FaceHit {
        volume: volume(1),
        primitive: prim(1),
        shell: 0,
        contact: Contact::Edge(4, 9),
        triangle: 77,
        t: 1.0,
        true_normal: -AXIS,
    });
    let walked = walk_ray(0, &corridor(2.0, hits), &volumes, &laws)
        .expect("a duplicated entry claim is one entry");

    assert_eq!(walked.runs.len(), 1, "one crossing: {:#?}", walked.runs);
    assert_eq!(walked.shells[0].spans, vec![(1.0, 1.5)]);

    let mut hits = plate(1, 1, 1.0, 1.5);
    hits.push(FaceHit {
        volume: volume(1),
        primitive: prim(1),
        shell: 0,
        contact: Contact::Face(77),
        triangle: 77,
        t: ulps(1.0, 2),
        true_normal: -AXIS,
    });
    assert!(matches!(
        walk_ray(0, &corridor(2.0, hits), &volumes, &laws),
        Err(WalkError::UnexpectedEntry { .. })
    ));
}

#[test]
fn a_corner_brush_is_a_tangent_in_either_triangle_order() {
    let volumes = table(&[(1, 1000.0)]);
    let laws = WalkLaws::default();
    let corner = |exit_first: bool| {
        let (a, b) = if exit_first { (7u32, 9u32) } else { (9, 7) };
        vec![
            FaceHit {
                volume: volume(1),
                primitive: prim(1),
                shell: 0,
                contact: Contact::Vertex(3),
                triangle: a,
                t: 1.0,
                true_normal: AXIS,
            },
            FaceHit {
                volume: volume(1),
                primitive: prim(1),
                shell: 0,
                contact: Contact::Vertex(3),
                triangle: b,
                t: 1.0,
                true_normal: -AXIS,
            },
        ]
    };
    let exit_first = walk_ray(0, &corridor(2.0, corner(true)), &volumes, &laws)
        .expect("the corner resolves in either order");
    let entry_first = walk_ray(0, &corridor(2.0, corner(false)), &volumes, &laws)
        .expect("the corner resolves in either order");

    assert_eq!(exit_first, entry_first, "the walk is the same");
    assert!(
        exit_first.runs.is_empty() && exit_first.events.is_empty(),
        "a brushed corner bounds nothing: {exit_first:#?}",
    );
    assert_eq!(exit_first.cost, 0.0);
}

#[test]
fn a_chord_below_one_f32_ulp_is_charged_like_any_other() {
    let volumes = table(&[(1, 1000.0)]);
    let enter = 8.844_806_671_142_578_f64;
    let exit = enter + 3.2e-10;
    assert_eq!(
        (enter as f32).to_bits(),
        (exit as f32).to_bits(),
        "the fixture only proves something if the two ends collide in f32",
    );

    let walked = walk_ray(
        0,
        &corridor(14.0, plate(1, 1, enter, exit)),
        &volumes,
        &WalkLaws::default(),
    )
    .expect("a sub-ULP chord is material, not a refusal");

    assert_eq!(
        walked
            .events
            .iter()
            .map(|event| (event.kind, event.t))
            .collect::<Vec<_>>(),
        vec![(BoundaryKind::Entrance, enter), (BoundaryKind::Exit, exit)],
        "an entrance and an exit at the canonical parameters: {:#?}",
        walked.events,
    );
    assert_eq!(walked.presence[0].chord, (exit - enter) as f32);
    assert_eq!(walked.cost, (1000.0 * (exit - enter)) as f32);
}

#[test]
fn two_contacts_at_one_exact_parameter_are_a_named_refusal() {
    let volumes = table(&[(1, 1000.0)]);
    let error = walk_ray(
        0,
        &corridor(2.0, plate(1, 1, 1.0, 1.0)),
        &volumes,
        &WalkLaws::default(),
    )
    .expect_err("an unrepresentable chord is not a zero one");
    let WalkError::UnrepresentableChord { key, t, .. } = error else {
        panic!("expected a named refusal, got {error:?}");
    };
    assert_eq!(key.shell, 0);
    assert_eq!(t, 1.0);
}

#[test]
fn a_sub_ulp_pair_orders_on_the_parameter_not_the_hit_list() {
    let volumes = table(&[(1, 1000.0)]);
    let enter = 6.871_579_170_227_051_f64;
    let exit = enter + 2.0e-9;
    let mut reversed = plate(1, 1, enter, exit);
    reversed.reverse();

    let walked = walk_ray(0, &corridor(14.0, reversed), &volumes, &WalkLaws::default())
        .expect("the pair is an entry then an exit, whatever order it arrives in");

    assert_eq!(walked.shells[0].spans, vec![(enter, exit)]);
    assert_eq!(walked.cost, (1000.0 * (exit - enter)) as f32);
}

#[test]
fn a_boundary_buried_under_equal_factor_fires_nothing() {
    let volumes = table(&[(1, 1000.0), (2, 1000.0), (3, 10.0)]);
    let mut hits = plate(1, 0, 0.25, 0.75);
    hits.extend(plate(2, 1, 0.30, 0.70));
    hits.extend(plate(3, 2, 0.40, 0.60));
    let walked = walk(&corridor(2.0, hits), &volumes);

    assert_eq!(
        walked
            .events
            .iter()
            .map(|event| (event.kind, event.t))
            .collect::<Vec<_>>(),
        vec![(BoundaryKind::Entrance, 0.25), (BoundaryKind::Exit, 0.75),],
        "only the exposed union boundary is an event: {:#?}",
        walked.events,
    );
    assert_eq!(
        walked.cost, 500.0,
        "and the buried volumes charge nothing extra"
    );
}

#[test]
fn a_restart_seeds_each_shell_of_one_primitive_separately() {
    let volumes = table(&[(1, 1000.0)]);
    let laws = WalkLaws::default();
    let mut hits = shell_plate(1, 0, 0, 0.25, 1.25);
    hits.extend(shell_plate(1, 0, 1, 0.30, 1.10));
    let walked = walk(&corridor(2.0, hits), &volumes);

    let inside = walked.inside_at(0.5, &laws);
    assert_eq!(
        inside,
        vec![
            ShellKey {
                volume: volume(1),
                primitive: prim(0),
                shell: 0,
            },
            ShellKey {
                volume: volume(1),
                primitive: prim(0),
                shell: 1,
            },
        ],
        "both shells are named: {inside:?}",
    );

    let exits = || {
        vec![
            shell_plate(1, 0, 0, -1.0, 0.75).remove(1),
            shell_plate(1, 0, 1, -1.0, 0.60).remove(1),
        ]
    };
    let mut resumed = corridor(2.0, exits());
    resumed.initial_presence = inside.clone();
    walk_ray(0, &resumed, &volumes, &laws).expect("both seeded shells close");

    let mut half = corridor(2.0, exits());
    half.initial_presence = vec![inside[0]];
    assert!(matches!(
        walk_ray(0, &half, &volumes, &laws),
        Err(WalkError::UnexpectedExit { .. })
    ));
}

#[test]
fn surface_identity_never_charges_less_than_the_exact_union_field() {
    let factors = [1000.0f32, 800.0, 600.0, 1200.0];
    let volumes = table(&[
        (1, factors[0]),
        (2, factors[1]),
        (3, factors[2]),
        (4, factors[3]),
    ]);
    let mut state = 0x2026_0809_u64;
    let mut rng = move || {
        state = state
            .wrapping_mul(6_364_136_223_846_793_005)
            .wrapping_add(1_442_695_040_888_963_407);
        (state >> 33) as u32
    };

    for case in 0..400 {
        let sub_window = case >= 200;
        let mut hits = Vec::new();
        let mut authored: Vec<(f64, f64, f32)> = Vec::new();
        for p in 0..6u32 {
            let vol = 1 + p % 4;
            let enter = ulps(1.0 + (rng() % 5) as f32 * 2.0e-5, (rng() % 24) as i32 - 12);
            let exit = if sub_window {
                ulps(enter as f32, 1 + (rng() % 8) as i32)
            } else {
                ulps(1.05 + (rng() % 5) as f32 * 2.0e-5, (rng() % 24) as i32 - 12)
            };
            if sub_window {
                assert!(
                    exit > enter,
                    "case {case}: a sub-ULP family case must still bound a positive chord",
                );
            }
            hits.extend(plate(vol, p, enter, exit));
            authored.push((enter, exit, factors[(vol - 1) as usize]));
        }
        let walked = walk_ray(0, &corridor(2.0, hits), &volumes, &WalkLaws::default())
            .unwrap_or_else(|error| panic!("case {case}: {error:?}"));

        let mut edges: Vec<f64> = authored.iter().flat_map(|(a, b, _)| [*a, *b]).collect();
        edges.sort_by(f64::total_cmp);
        edges.dedup();
        let mut truth = 0.0f64;
        for pair in edges.windows(2) {
            let (lo, hi) = (pair[0], pair[1]);
            let mid = 0.5 * (lo + hi);
            let factor = authored
                .iter()
                .filter(|(a, b, _)| *a <= mid && mid < *b)
                .fold(0.0f32, |max, (_, _, factor)| max.max(*factor));
            truth += factor as f64 * (hi - lo);
        }

        assert!(
            walked.cost as f64 >= truth * (1.0 - 1.0e-6),
            "case {case}: charged {} against an authored {truth}",
            walked.cost,
        );
        assert!(
            walked.cost as f64 <= truth + 0.1,
            "case {case}: charged {} against an authored {truth}",
            walked.cost,
        );
    }
}

#[test]
fn a_contact_turns_by_its_coverage() {
    let laws = WalkLaws::default();
    let bend = lib::stage::bend_angle(s(0.5), s(0.8), &laws.lib());
    assert_eq!(ns(bend), 0.5 * laws.normalization * 0.8);
    assert_eq!(ns(lib::stage::blend_angle(s(0.25), s(1.2))), 0.25 * 1.2);
    assert_eq!(ns(lib::disc::ring_angle(3, 12)), std::f32::consts::TAU * 3.0 / 12.0);
    assert_eq!(ns(lib::disc::ring_angle(0, lib::disc::DEFAULT_RING)), 0.0);
}

fn profile(ts: &[f64], cumulative: &[f64]) -> lib::disc::CostProfile {
    lib::disc::CostProfile {
        ts: ts.iter().map(|t| d(*t)).collect(),
        cumulative: cumulative.iter().map(|c| d(*c)).collect(),
    }
}

#[test]
fn the_budget_is_met_where_the_cost_first_reaches_it() {
    let flat = profile(&[0.0, 1.0, 2.0, 3.0], &[0.0, 10.0, 10.0, 20.0]);
    let met = |budget: f64| flat.invert(d(budget)).map(nd);
    assert_eq!(met(10.0), Some(1.0), "the start of the flat stretch, not its end");
    assert_eq!(met(5.0), Some(0.5));
    assert_eq!(met(15.0), Some(2.5));
    assert_eq!(met(0.0), Some(0.0));
    assert_eq!(met(20.0), Some(3.0), "the whole cost reaches it");
    assert_eq!(met(20.5), None);
    assert_eq!(profile(&[], &[0.0]).invert(d(0.0)), None);
    let mut last = 0.0;
    for step in 0..=2000 {
        let t = met(step as f64 / 100.0).unwrap();
        assert!(last <= t && t <= 3.0, "a larger budget is never met earlier");
        last = t;
    }
}

#[test]
fn hits_in_any_order_are_one_walk_or_one_error() {
    let volumes = table(&[(1, 1000.0), (2, 900.0)]);
    let laws = WalkLaws::default();
    let mut hits = plate(1, 0, 0.25, 0.5);
    hits.extend(plate(2, 0, 0.4, 0.75));
    let mut reversed = hits.clone();
    reversed.reverse();
    let walked = |hits: &Vec<FaceHit>| lib::ray::walk_ray(0, &corridor(1.0, hits.clone()).lib(), &volumes.0, &laws.lib());
    assert_eq!(walked(&hits), walked(&reversed));
    // without an exit the corridor ends inside, whichever way round
    let mut open: Vec<FaceHit> = hits[..3].to_vec();
    let first = walked(&open);
    open.reverse();
    assert!(first.is_err());
    assert_eq!(first, walked(&open));
}

#[test]
fn the_prefix_grows_from_nothing_to_the_cost() {
    let volumes = table(&[(1, 1000.0), (2, 10.0)]);
    let mut hits = plate(1, 0, 0.25, 0.5);
    hits.extend(plate(2, 0, 0.4, 0.75));
    let walked = walk(&corridor(1.0, hits), &volumes);
    let prefix = |t: f64| nd(overmatch::ballistics::fuzz::measure::prefix_cost(&walked.lib.spans, d(t)));
    assert_eq!(prefix(0.0), 0.0);
    assert_eq!(prefix(-1.0), 0.0);
    assert_eq!(prefix(0.25), 0.0);
    assert_eq!(prefix(0.375), 125.0);
    let mut last = 0.0;
    for step in 0..=120 {
        let here = prefix(step as f64 / 100.0);
        assert!(last <= here);
        last = here;
    }
    assert_eq!((prefix(1.0) as f32).to_bits(), walked.cost.to_bits());
    assert_eq!(prefix(5.0), prefix(1.0));
}

#[test]
fn a_profile_runs_from_start_to_end_of_its_crossing() {
    let laws = WalkLaws::default();
    let volumes = table(&[(1, 1000.0), (2, 10.0)]);
    let slabs = [Slab::at(1, 0, 0.5, -AXIS, 0.1), Slab::at(2, 0, 0.6, -AXIS, 0.3)];
    let walked = walk_disc(&entrance_disc(&slabs, 3.0), &volumes, &laws).unwrap();
    assert!(!walked.lib.events.is_empty());
    for event in &walked.lib.events {
        let ts: Vec<f64> = event.profile.ts.iter().map(|t| nd(*t)).collect();
        let cost: Vec<f64> = event.profile.cumulative.iter().map(|c| nd(*c)).collect();
        assert_eq!(ts.first().copied(), Some(nd(event.start)));
        assert_eq!(ts.last().copied(), Some(nd(event.end)));
        assert!(ts.windows(2).all(|pair| pair[0] < pair[1]));
        assert_eq!(cost[0], 0.0);
        assert!(cost.windows(2).all(|pair| pair[0] <= pair[1]));
        assert_eq!((cost[cost.len() - 1] as f32).to_bits(), ns(event.cost).to_bits());
        // the slope between two breaks is the mean of the samples' factors there
        assert!(ts.len() >= 3);
        let slope = (cost[1] - cost[0]) / (ts[1] - ts[0]);
        assert!((slope - 1000.0).abs() < 1.0e-6, "{slope}");
    }
}

#[test]
fn every_run_of_a_disc_crosses_once() {
    let laws = WalkLaws::default();
    let volumes = table(&[(1, 1000.0), (2, 500.0)]);
    let slabs = [Slab::at(1, 0, 0.5, -AXIS, 0.1), Slab::at(2, 0, 1.5, -AXIS, 0.2)];
    let frame = DiscFrame::from_axis_and_reference(AXIS, Vec3::Y).unwrap();
    let disc = disc_along(Vec3::ZERO, AXIS, frame, 0.044, 3.0, &slabs, |index| index % 2 == 0);
    let walked = walk_disc(&disc, &volumes, &laws).unwrap();
    let runs: usize = walked.lib.walks.iter().map(|walk| walk.runs.len()).sum();
    let samples = walked.samples() as f32;
    let shared: f32 = walked.events.iter().map(|event| (event.coverage * samples).round()).sum();
    assert_eq!(runs as f32, shared);
    assert!(walked.events.windows(2).all(|pair| pair[0].start <= pair[1].start));
}

#[test]
fn a_volume_presents_its_own_among_others() {
    let volumes = table(&[(1, 1000.0), (2, 10.0)]);
    let alone = walk(&corridor(1.0, plate(2, 0, 0.3, 0.45)), &volumes);
    let mut hits = plate(1, 0, 0.25, 0.5);
    let base = walk(&corridor(1.0, hits.clone()), &volumes);
    hits.extend(plate(2, 0, 0.3, 0.45));
    let together = walk(&corridor(1.0, hits), &volumes);
    assert_eq!(together.spans, base.spans);
    assert_eq!(together.cost.to_bits(), base.cost.to_bits());
    let own = together.lib.presence.iter().find(|met| met.entity == volume(2)).unwrap();
    assert_eq!(*own, alone.lib.presence[0]);
    assert_eq!(ns(own.chord), (0.45f64 - 0.3f64) as f32);
    assert_eq!(ns(own.cost), ((0.45f64 - 0.3f64) * 10.0) as f32);
}

#[test]
fn the_crossings_share_out_the_field() {
    let laws = WalkLaws::default();
    let volumes = table(&[(1, 1000.0), (2, 500.0)]);
    let slabs = [Slab::at(1, 0, 0.5, -AXIS, 0.1), Slab::at(2, 0, 1.5, -AXIS, 0.2)];
    let frame = DiscFrame::from_axis_and_reference(AXIS, Vec3::Y).unwrap();
    let disc = disc_along(Vec3::ZERO, AXIS, frame, 0.044, 3.0, &slabs, |index| index % 3 != 1);
    let walked = walk_disc(&disc, &volumes, &laws).unwrap();
    let samples = walked.samples() as f64;
    for t in [0.25, 0.55, 1.0, 1.6, 2.5] {
        let met: f64 = walked
            .lib
            .walks
            .iter()
            .flat_map(|walk| walk.spans.iter())
            .filter(|span| nd(span.start) <= t && t < nd(span.end))
            .map(|span| ns(span.factor) as f64)
            .sum();
        let mut held = 0.0;
        for event in &walked.lib.events {
            let (ts, cost) = (&event.profile.ts, &event.profile.cumulative);
            for i in 1..ts.len() {
                if nd(ts[i - 1]) <= t && t < nd(ts[i]) {
                    held += samples * (nd(cost[i]) - nd(cost[i - 1])) / (nd(ts[i]) - nd(ts[i - 1]));
                }
            }
        }
        assert!((held - met).abs() < 1.0e-6, "{held} held, {met} met at {t}");
    }
}

#[test]
fn the_cost_at_the_answer_is_the_budget() {
    let (ts, cost) = ([0.125, 0.7, 1.9, 2.3], [0.0, 13.7, 14.1, 97.3]);
    let uneven = profile(&ts, &cost);
    for step in 1..973 {
        let budget = step as f64 / 10.0;
        let t = uneven.invert(d(budget)).map(nd).unwrap();
        let i = (1..ts.len()).find(|i| budget <= cost[*i]).unwrap();
        assert!(ts[i - 1] <= t && t <= ts[i]);
        let there = cost[i - 1] + (t - ts[i - 1]) / (ts[i] - ts[i - 1]) * (cost[i] - cost[i - 1]);
        assert!((there - budget).abs() < 1.0e-12, "{there} for {budget}");
    }
}

#[test]
fn a_reported_cost_is_the_integral_but_for_rounding() {
    let volumes = table(&[(1, 1000.3), (2, 517.7), (3, 9.1)]);
    let mut hits = plate(1, 0, 0.1, 0.7);
    hits.extend(plate(2, 0, 0.3, 1.3));
    hits.extend(plate(3, 0, 0.9, 1.7));
    let walked = walk(&corridor(2.0, hits), &volumes);
    let (high, middle, low) = (1000.3f32 as f64, 517.7f32 as f64, 9.1f32 as f64);
    let exact = (0.7 - 0.1) * high + (1.3 - 0.7) * middle + (1.7 - 1.3) * low;
    assert!((walked.cost as f64 - exact).abs() <= exact / 16_777_216.0 * 1.001, "{} for {exact}", walked.cost);
}

#[test]
fn a_plate_anywhere_lowers_no_cost_beyond_rounding() {
    let volumes = table(&[(1, 1000.0), (2, 333.3), (3, 1000.0001)]);
    let base = walk(&corridor(2.0, plate(1, 0, 0.2, 0.9)), &volumes);
    for vol in [2, 3] {
        for step in 0..60 {
            let from = step as f64 * 0.031;
            let mut hits = plate(1, 0, 0.2, 0.9);
            hits.extend(plate(vol, 0, from, from + 0.07));
            let more = walk(&corridor(2.0, hits), &volumes);
            assert!(more.cost >= base.cost * (1.0 - 2.0e-7), "{} < {}", more.cost, base.cost);
        }
    }
}

#[test]
fn the_crossings_cost_the_mean_of_their_samples() {
    let laws = WalkLaws::default();
    let volumes = table(&[(1, 1000.0), (2, 517.7)]);
    let slabs = [Slab::at(1, 0, 0.5, -AXIS, 0.1), Slab::at(2, 0, 1.5, -AXIS, 0.2)];
    let frame = DiscFrame::from_axis_and_reference(AXIS, Vec3::Y).unwrap();
    let disc = disc_along(Vec3::ZERO, AXIS, frame, 0.044, 3.0, &slabs, |index| index % 3 != 1);
    let walked = walk_disc(&disc, &volumes, &laws).unwrap();
    assert_eq!(walked.lib.events.len(), 2);
    let crossings: f64 = walked.lib.events.iter().map(|event| ns(event.cost) as f64).sum();
    let samples: f64 = walked.lib.walks.iter().map(|walk| ns(walk.cost) as f64).sum();
    let mean = samples / walked.samples() as f64;
    assert!((crossings - mean).abs() < mean * 2.0e-7, "{crossings} for {mean}");
}

#[test]
fn an_event_of_some_runs_is_spanned_by_its_profile() {
    let laws = WalkLaws::default();
    let volumes = table(&[(1, 1000.0), (2, 500.0)]);
    let slabs = [Slab::at(1, 0, 0.5, -AXIS, 0.1), Slab::at(2, 0, 1.5, -AXIS, 0.2)];
    let frame = DiscFrame::from_axis_and_reference(AXIS, Vec3::Y).unwrap();
    let disc = disc_along(Vec3::ZERO, AXIS, frame, 0.044, 3.0, &slabs, |_| true);
    let walked = walk_disc(&disc, &volumes, &laws).unwrap();
    let touch = |sample: usize, runs: &[usize]| lib::extent::Touch { sample, runs: runs.to_vec() };
    let touches = vec![touch(0, &[0, 1]), touch(2, &[1])];
    let event = lib::event::build_event(&lib_disc(&disc), &walked.lib.walks, &touches).unwrap();
    let (ts, cost) = (&event.profile.ts, &event.profile.cumulative);
    assert_eq!(ts[0], event.start);
    assert_eq!(*ts.last().unwrap(), event.end);
    assert!(ts.windows(2).all(|pair| nd(pair[0]) < nd(pair[1])));
    assert_eq!(cost.len(), ts.len());
    assert_eq!(nd(cost[0]), 0.0);
    assert!(cost.windows(2).all(|pair| nd(pair[0]) <= nd(pair[1])));
    assert_eq!(ns(event.cost), nd(*cost.last().unwrap()) as f32);
    assert!(ns(event.cost) > 0.0);

    let none = lib::event::build_event(&lib_disc(&disc), &walked.lib.walks, &Vec::new());
    assert!(none.is_err(), "an event of nothing has no entry normal");
}

#[test]
fn a_profile_from_behind_the_origin_is_read_back() {
    let (ts, cost) = ([-3.5, -1.25, 0.5, 4.0], [0.0, 10.0, 12.5, 80.0]);
    let behind = profile(&ts, &cost);
    assert_eq!(behind.invert(d(0.0)).map(nd), Some(-3.5));
    assert_eq!(behind.invert(d(5.0)).map(nd), Some(-2.375));
    assert_eq!(behind.invert(d(80.0)).map(nd), Some(4.0));
    assert_eq!(behind.invert(d(80.5)).map(nd), None);
    let mut last = -3.5;
    for step in 0..800 {
        let t = behind.invert(d(step as f64 / 10.0)).map(nd).unwrap();
        assert!(last <= t && t <= 4.0, "{t} after {last}");
        last = t;
    }
    let endless = profile(&[0.0, 1.0, 2.0], &[0.0, 10.0, f64::INFINITY]);
    assert_eq!(endless.invert(d(5.0)).map(nd), Some(0.5));
    assert_eq!(endless.invert(d(1.0e300)).map(nd), Some(1.0));
    assert_eq!(endless.invert(d(f64::INFINITY)).map(nd), Some(2.0));
}

#[test]
fn a_cost_that_rounds_on_a_tie_may_fall_by_that_rounding() {
    let (weak, strong) = (517.7f32, f32::from_bits(517.7f32.to_bits() + 1));
    let volumes = table(&[(1, weak), (2, strong)]);
    let mut hits = plate(1, 0, 0.0, 0.03265813868774063);
    let base = walk(&corridor(1.0, hits.clone()), &volumes);
    hits.extend(plate(2, 0, 0.029174071867969546, 0.029174071868207165));
    let more = walk(&corridor(1.0, hits), &volumes);
    assert_eq!(more.cost.to_bits() + 1, base.cost.to_bits());
}
