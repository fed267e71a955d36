//! The collector: a corridor and its candidates, turned into every face crossing
//! along the ray, each with the face's own orientation.
//!
//! The order of the hits is not the collector's business; completeness is. Every
//! crossing is reported, or an error is: a corridor that dropped a face in silence
//! looks the same as armour that is not there.

pub mod band;
pub mod crossing;
pub mod pose;
pub mod triangle;

use crate::ballistics::collect::triangle::{contact_of, cross_triangle, RayShear, Triangle, TriangleClaim};
use crate::ballistics::walk::ray;
use crate::ballistics::walk::ray::coincident;
use crate::ballistics::walk::reports;
use crate::ballistics::walk::stage;
use crate::ballistics::walk::vocabulary::{Contact, Entity, FaceHit, ShellKey, WalkError, WalkLaws};
use crate::float::{F32, F64};
use crate::vector::{Quat, Vec3};
use vstd::prelude::*;

verus! {

/// The faces that one corridor may collect. Reaching past it is an error, never a
/// shortened list.
pub const MAX_FACES: usize = 4096;

/// The step (m) by which a march leaves a boundary behind.
#[verifier::allow_in_spec]
pub fn march_eps() -> F32
    returns
        (F32 { bits: 0x3a83_126f }),
{
    F32 { bits: 0x3a83_126f }
}

/// How far (m) behind the origin a convex solid is probed for the face that the ray
/// sits on.
#[verifier::allow_in_spec]
pub fn boundary_probe() -> F32
    returns
        (F32 { bits: 0x3a83_126f }),
{
    F32 { bits: 0x3a83_126f }
}

/// The ray to collect along.
#[derive(Clone, Copy, Debug)]
pub struct Corridor<'a> {
    /// The world position that the corridor hangs off.
    pub anchor: Vec3,
    /// The start, relative to the anchor.
    pub origin: Vec3,
    /// The unit direction of travel.
    pub axis: Vec3,
    pub length: F32,
    /// The shells that the ray starts inside.
    pub seeded: &'a Vec<ShellKey>,
    pub laws: &'a WalkLaws,
}

/// The triangles of one primitive.
#[derive(Clone, Debug, PartialEq)]
pub struct TriMesh {
    pub triangles: Vec<Triangle>,
}

/// What is certified of a mesh: which closed shell each triangle belongs to, the
/// welded vertices at its corners, and the one scale this was shown for.
#[derive(Clone, Debug, PartialEq)]
pub struct BallisticSurfaces {
    pub shells: Vec<u32>,
    pub corners: Vec<(u32, u32, u32)>,
    pub scale: Vec3,
}

/// The distance and the normal of one cast against a convex solid; none for a miss.
/// The distance is zero where the cast begins inside.
pub type Cast = Option<(F32, Vec3)>;

/// What the casts of [`convex_probes`] met.
#[derive(Clone, Copy, Debug, PartialEq, Eq)]
pub struct ConvexCasts {
    /// Forward from the origin.
    pub entry: Cast,
    /// Backward from the far end.
    pub exit: Cast,
    /// Backward from the origin, no further than the boundary probe, seeing the far
    /// side of a solid it starts in.
    pub behind: Cast,
}

/// The casts that a convex solid is read with, in world space.
#[derive(Clone, Copy, Debug, PartialEq, Eq, Structural)]
pub struct ConvexProbes {
    pub origin: Vec3,
    pub axis: Vec3,
    pub far: Vec3,
    pub back: Vec3,
    pub length: F32,
    pub probe: F32,
}

/// A collider's geometry, as far as the collector reads it.
#[derive(Clone, Copy, Debug)]
pub enum Shape<'a> {
    TriMesh(&'a TriMesh, Option<&'a BallisticSurfaces>),
    Convex(ConvexCasts),
}

/// A collider with its pose.
#[derive(Clone, Copy, Debug)]
pub struct Collider<'a> {
    pub position: Vec3,
    pub rotation: Quat,
    pub scale: Vec3,
    pub shape: Shape<'a>,
}

/// One collider that the broad phase named.
#[derive(Clone, Copy, Debug)]
pub struct Candidate<'a> {
    /// The volume.
    pub node: Entity,
    /// The collider's own entity.
    pub primitive: Entity,
    /// None where no pose is known.
    pub collider: Option<Collider<'a>>,
}

impl<'a> Candidate<'a> {
    /// Triangles are numbered by 32 bits.
    pub open spec fn wf(self) -> bool {
        self.collider matches Some(collider) ==> (collider.shape matches Shape::TriMesh(mesh, _) ==> mesh.triangles@.len()
            <= u32::MAX)
    }
}

/// Why a corridor cannot be collected.
pub enum Fault {
    /// A candidate without a pose.
    Unposed,
    /// A mesh without a certificate for each triangle.
    Uncertified,
    /// A mesh at another scale than the certified one.
    Rescaled,
    /// The ray starts inside a convex solid that it was not seeded for.
    Unseeded,
    /// More faces than the collector holds.
    Overflow { collected: nat },
}

/// What was collected, and what stopped it.
pub struct Gathered {
    pub hits: Seq<FaceHit>,
    pub fault: Option<(Entity, Fault)>,
}

/// The error that tells of a fault.
pub open spec fn tells(error: WalkError, volume: Entity, fault: Fault) -> bool {
    match fault {
        Fault::Unposed => error matches WalkError::CollectorFailed { volume: named, reason } && named == volume && reason@
            == "a candidate collider has no resolved pose"@,
        Fault::Uncertified => error matches WalkError::CollectorFailed { volume: named, reason } && named == volume
            && reason@ == "a trimesh candidate carries no per-triangle manifold certificate"@,
        Fault::Rescaled => error matches WalkError::CollectorFailed { volume: named, reason } && named == volume && reason@
            == "a collider reached the world at a scale the bake never certified"@,
        Fault::Unseeded => error matches WalkError::CollectorFailed { volume: named, reason } && named == volume && reason@
            == "a sample begins inside a convex volume it was not seeded for, with no entry face within the boundary probe"@,
        Fault::Overflow { collected } => error matches WalkError::CorridorOverflow { volume: named, collected: n, limit }
            && named == volume && n == collected && limit == MAX_FACES,
    }
}

/// What a call returns for what was gathered.
pub open spec fn reports(result: Result<(), WalkError>, gathered: Gathered) -> bool {
    match gathered.fault {
        None => result is Ok,
        Some((volume, fault)) => result matches Err(error) && tells(error, volume, fault),
    }
}

/// Where a crossing at `t` lies in the corridor. At or past the far end it is the
/// next corridor's; behind the origin it is the seed's, or already crossed, unless
/// the ray starts on the face.
pub open spec fn admitted(t: F32, length: F32, seeded: bool, laws: WalkLaws) -> Option<F32> {
    if !t.finite() || length.at_most(t) {
        None
    } else if t.below(F32::zero()) {
        if !seeded && ray::coincides(F64::zero(), t.doubled(), laws) {
            Some(F32::zero())
        } else {
            None
        }
    } else {
        Some(t)
    }
}

pub fn place(t: F32, length: F32, seeded: bool, laws: &WalkLaws) -> (hit: Option<F32>)
    ensures
        hit == admitted(t, length, seeded, *laws),
{
    if !t.is_finite() || length.le(t) {
        return None;
    }
    if t.lt(F32::zero()) {
        return if !seeded && coincident(F64::zero(), t.to_double(), laws) {
            Some(F32::zero())
        } else {
            None
        };
    }
    Some(t)
}

/// How far outside of the corridor the triangles are looked for: what the rounding
/// of the origin can hide, and never as far as the march steps.
pub open spec fn margin_at(local_origin: Vec3, laws: WalkLaws) -> F32 {
    laws.topology_abs.sum(laws.topology_rel.product(local_origin.absolute().largest())).smaller(
        march_eps().product(F32 { bits: 0x3e80_0000 }),
    )
}

pub fn prune_margin(local_origin: Vec3, laws: &WalkLaws) -> (margin: F32)
    ensures
        margin == margin_at(local_origin, *laws),
{
    laws.topology_abs.plus(laws.topology_rel.times(local_origin.abs().max_element())).min(
        march_eps().times(F32 { bits: 0x3e80_0000 }),
    )
}

/// A box between two corners.
#[derive(Clone, Copy, Debug, PartialEq, Eq, Structural)]
pub struct Aabb {
    pub min: Vec3,
    pub max: Vec3,
}

/// The box around a ray, padded.
pub open spec fn swept(origin: Vec3, axis: Vec3, length: F32, pad: F32) -> Aabb {
    let far = origin.sum(axis.scaled(length));
    Aabb {
        min: origin.lower(far).difference(Vec3 { x: pad, y: pad, z: pad }),
        max: origin.upper(far).sum(Vec3 { x: pad, y: pad, z: pad }),
    }
}

/// The box that the broad phase asks with.
pub fn swept_aabb(origin: Vec3, axis: Vec3, length: F32, radius: F32) -> (aabb: Aabb)
    ensures
        aabb == swept(origin, axis, length, radius),
{
    let far: Vec3 = origin.plus(axis.times(length));
    Aabb { min: origin.min(far).minus(Vec3::splat(radius)), max: origin.max(far).plus(Vec3::splat(radius)) }
}

/// The triangle's own box touches the other.
pub open spec fn touches(tri: Triangle, aabb: Aabb) -> bool {
    let low = tri.a.lower(tri.b).lower(tri.c);
    let high = tri.a.upper(tri.b).upper(tri.c);
    &&& aabb.min.x.at_most(high.x)
    &&& low.x.at_most(aabb.max.x)
    &&& aabb.min.y.at_most(high.y)
    &&& low.y.at_most(aabb.max.y)
    &&& aabb.min.z.at_most(high.z)
    &&& low.z.at_most(aabb.max.z)
}

fn is_touching(tri: &Triangle, aabb: &Aabb) -> (yes: bool)
    ensures
        yes == touches(*tri, *aabb),
{
    let low: Vec3 = tri.a.min(tri.b).min(tri.c);
    let high: Vec3 = tri.a.max(tri.b).max(tri.c);
    aabb.min.x.le(high.x) && low.x.le(aabb.max.x) && aabb.min.y.le(high.y) && low.y.le(aabb.max.y) && aabb.min.z.le(
        high.z,
    ) && low.z.le(aabb.max.z)
}

/// The ray in the frame of one collider.
#[derive(Clone, Copy, Debug, PartialEq, Eq, Structural)]
pub struct LocalRay {
    pub origin: Vec3,
    pub axis: Vec3,
    pub length: F32,
    pub margin: F32,
}

/// The ray turned into a collider's frame. The anchor and the position, both far
/// from the world's origin, are subtracted before the small offset is added.
pub open spec fn localized(corridor: Corridor, position: Vec3, rotation: Quat) -> LocalRay {
    let origin = rotation.conjugate().rotated(corridor.anchor.difference(position).sum(corridor.origin));
    LocalRay {
        origin,
        axis: rotation.conjugate().rotated(corridor.axis),
        length: corridor.length,
        margin: margin_at(origin, *corridor.laws),
    }
}

/// The ray starts inside a shell.
pub open spec fn is_seeded(corridor: Corridor, node: Entity, primitive: Entity, shell: u32) -> bool {
    corridor.seeded@.contains(ShellKey { volume: node, primitive, shell })
}

fn has_seed(corridor: &Corridor, node: Entity, primitive: Entity, shell: u32) -> (yes: bool)
    ensures
        yes == is_seeded(*corridor, node, primitive, shell),
{
    let key: ShellKey = ShellKey { volume: node, primitive, shell };
    let mut i: usize = 0;
    while i < corridor.seeded.len()
        invariant
            i <= corridor.seeded@.len(),
            key == (ShellKey { volume: node, primitive, shell }),
            forall|j: int| 0 <= j < i ==> corridor.seeded@[j] != key,
        decreases corridor.seeded.len() - i,
    {
        if corridor.seeded[i] == key {
            return true;
        }
        i = i + 1;
    }
    false
}

/// What one triangle claims of the ray, where its box is near enough to be asked.
pub open spec fn claim_at(local: LocalRay, tri: Triangle) -> Option<TriangleClaim> {
    if touches(tri, swept(local.origin, local.axis, local.length, local.margin)) {
        triangle::claim_of(RayShear::sheared(local.origin, local.axis), local.axis, tri)
    } else {
        None
    }
}

/// The hit that a claim makes, if the corridor admits it.
pub open spec fn hit_of(
    corridor: Corridor,
    local: LocalRay,
    candidate: (Entity, Entity),
    rotation: Quat,
    mesh: TriMesh,
    surfaces: BallisticSurfaces,
    index: int,
    claim: TriangleClaim,
) -> Option<FaceHit> {
    let shell = surfaces.shells@[index];
    let (contact, t) = triangle::contact(
        RayShear::sheared(local.origin, local.axis),
        local.axis,
        index as u32,
        mesh.triangles@[index],
        surfaces.corners@[index],
        claim,
    );
    match admitted(t, local.length, is_seeded(corridor, candidate.0, candidate.1, shell), *corridor.laws) {
        Some(t) => Some(
            FaceHit {
                volume: candidate.0,
                primitive: candidate.1,
                shell,
                contact,
                triangle: index as u32,
                t: t.doubled(),
                true_normal: rotation.rotated(claim.normal),
            },
        ),
        None => None,
    }
}

/// The hits with one more, if there is one.
pub open spec fn with_hit(hits: Seq<FaceHit>, hit: Option<FaceHit>) -> Seq<FaceHit> {
    match hit {
        Some(hit) => hits.push(hit),
        None => hits,
    }
}

/// What the first `n` triangles of a mesh add to the hits.
pub open spec fn over_triangles(
    before: Seq<FaceHit>,
    corridor: Corridor,
    local: LocalRay,
    candidate: (Entity, Entity),
    rotation: Quat,
    mesh: TriMesh,
    surfaces: BallisticSurfaces,
    n: int,
) -> Gathered
    decreases n,
{
    if n <= 0 {
        Gathered { hits: before, fault: None }
    } else {
        let gathered = over_triangles(before, corridor, local, candidate, rotation, mesh, surfaces, n - 1);
        if gathered.fault is Some {
            gathered
        } else {
            match claim_at(local, mesh.triangles@[n - 1]) {
                None => gathered,
                Some(claim) => {
                    let hits = with_hit(
                        gathered.hits,
                        hit_of(corridor, local, candidate, rotation, mesh, surfaces, n - 1, claim),
                    );
                    Gathered {
                        hits,
                        fault: if hits.len() > MAX_FACES {
                            Some((candidate.0, Fault::Overflow { collected: hits.len() }))
                        } else {
                            None
                        },
                    }
                },
            }
        }
    }
}

proof fn lemma_fault_stays(
    before: Seq<FaceHit>,
    corridor: Corridor,
    local: LocalRay,
    candidate: (Entity, Entity),
    rotation: Quat,
    mesh: TriMesh,
    surfaces: BallisticSurfaces,
    n: int,
    end: int,
)
    requires
        n <= end,
        over_triangles(before, corridor, local, candidate, rotation, mesh, surfaces, n).fault is Some,
    ensures
        over_triangles(before, corridor, local, candidate, rotation, mesh, surfaces, end) == over_triangles(
            before,
            corridor,
            local,
            candidate,
            rotation,
            mesh,
            surfaces,
            n,
        ),
    decreases end - n,
{
    if n < end {
        lemma_fault_stays(before, corridor, local, candidate, rotation, mesh, surfaces, n, end - 1);
    }
}

/// Every triangle that the ray crosses, with the normal of its winding.
fn collect_trimesh(
    corridor: &Corridor,
    local: &LocalRay,
    node: Entity,
    primitive: Entity,
    rotation: Quat,
    mesh: &TriMesh,
    surfaces: &BallisticSurfaces,
    out: &mut Vec<FaceHit>,
) -> (result: Result<(), WalkError>)
    requires
        mesh.triangles@.len() <= u32::MAX,
        surfaces.shells@.len() == mesh.triangles@.len(),
        surfaces.corners@.len() == mesh.triangles@.len(),
    ensures
        ({
            let gathered = over_triangles(
                old(out)@,
                *corridor,
                *local,
                (node, primitive),
                rotation,
                *mesh,
                *surfaces,
                mesh.triangles@.len() as int,
            );
            &&& final(out)@ == gathered.hits
            &&& reports(result, gathered)
        }),
{
    let aabb: Aabb = swept_aabb(local.origin, local.axis, local.length, local.margin);
    let shear: RayShear = RayShear::new(local.origin, local.axis);
    let mut index: usize = 0;
    while index < mesh.triangles.len()
        invariant
            index <= mesh.triangles@.len() <= u32::MAX,
            surfaces.shells@.len() == mesh.triangles@.len(),
            surfaces.corners@.len() == mesh.triangles@.len(),
            aabb == swept(local.origin, local.axis, local.length, local.margin),
            shear == RayShear::sheared(local.origin, local.axis),
            ({
                let gathered = over_triangles(
                    old(out)@,
                    *corridor,
                    *local,
                    (node, primitive),
                    rotation,
                    *mesh,
                    *surfaces,
                    index as int,
                );
                gathered.hits == out@ && gathered.fault is None
            }),
        decreases mesh.triangles.len() - index,
    {
        let tri: &Triangle = &mesh.triangles[index];
        let claimed: Option<TriangleClaim> = if is_touching(tri, &aabb) {
            cross_triangle(&shear, local.axis, tri)
        } else {
            None
        };
        if let Some(claim) = claimed {
            let shell: u32 = surfaces.shells[index];
            let (contact, t): (Contact, F32) = contact_of(
                &shear,
                local.axis,
                index as u32,
                tri,
                surfaces.corners[index],
                &claim,
            );
            let seeded: bool = has_seed(corridor, node, primitive, shell);
            if let Some(t) = place(t, local.length, seeded, corridor.laws) {
                out.push(
                    FaceHit {
                        volume: node,
                        primitive,
                        shell,
                        contact,
                        triangle: index as u32,
                        t: t.to_double(),
                        true_normal: rotation.rotate(claim.normal),
                    },
                );
            }
            if out.len() > MAX_FACES {
                proof {
                    lemma_fault_stays(
                        old(out)@,
                        *corridor,
                        *local,
                        (node, primitive),
                        rotation,
                        *mesh,
                        *surfaces,
                        index + 1,
                        mesh.triangles@.len() as int,
                    );
                }
                return Err(WalkError::CorridorOverflow { volume: node, collected: out.len(), limit: MAX_FACES });
            }
        }
        index = index + 1;
    }
    Ok(())
}

/// A normal signed by its role: an entry opposes the ray, an exit goes along with it.
pub open spec fn oriented(normal: Vec3, axis: Vec3, entry: bool) -> Vec3 {
    if normal.inner(axis).below(F32::zero()) == entry {
        normal
    } else {
        normal.negation()
    }
}

/// The hit on a convex solid, if the corridor admits it.
pub open spec fn convex_hit(
    corridor: Corridor,
    candidate: (Entity, Entity),
    seeded: bool,
    t: F32,
    normal: Vec3,
    entry: bool,
) -> Option<FaceHit> {
    let face = if entry {
        0u32
    } else {
        1u32
    };
    match admitted(t, corridor.length, seeded, *corridor.laws) {
        Some(t) => Some(
            FaceHit {
                volume: candidate.0,
                primitive: candidate.1,
                shell: 0,
                contact: Contact::Face(face),
                triangle: face,
                t: t.doubled(),
                true_normal: oriented(normal, corridor.axis, entry),
            },
        ),
        None => None,
    }
}

/// The entry of a convex solid: where the forward cast met it, or at the origin where
/// the ray sits on a face of a solid that it starts in.
pub open spec fn convex_entry(corridor: Corridor, casts: ConvexCasts, seeded: bool) -> Result<Cast, ()> {
    match casts.entry {
        None => Ok(None),
        Some((distance, normal)) => if distance.at_most(F32::zero()) {
            if seeded {
                Ok(None)
            } else {
                match casts.behind {
                    Some((_, normal)) => Ok(Some((F32::zero(), normal))),
                    None => Err(()),
                }
            }
        } else {
            Ok(Some((distance, normal)))
        },
    }
}

/// The exit of a convex solid; none where the ray ends inside.
pub open spec fn convex_exit(corridor: Corridor, casts: ConvexCasts) -> Cast {
    match casts.exit {
        None => None,
        Some((distance, normal)) => if distance.at_most(F32::zero()) {
            None
        } else {
            Some((corridor.length.difference(distance), normal))
        },
    }
}

/// What a cast makes of the hits.
pub open spec fn with_cast(
    hits: Seq<FaceHit>,
    corridor: Corridor,
    candidate: (Entity, Entity),
    seeded: bool,
    cast: Cast,
    entry: bool,
) -> Seq<FaceHit> {
    match cast {
        Some((t, normal)) => with_hit(hits, convex_hit(corridor, candidate, seeded, t, normal, entry)),
        None => hits,
    }
}

/// What a convex solid adds to the hits: the one interval that it presents.
pub open spec fn over_convex(
    before: Seq<FaceHit>,
    corridor: Corridor,
    candidate: (Entity, Entity),
    casts: ConvexCasts,
) -> Gathered {
    let seeded = is_seeded(corridor, candidate.0, candidate.1, 0);
    if !stage::has_direction(corridor.axis) {
        Gathered { hits: before, fault: None }
    } else {
        match convex_entry(corridor, casts, seeded) {
            Err(_) => Gathered { hits: before, fault: Some((candidate.0, Fault::Unseeded)) },
            Ok(entry) => Gathered {
                hits: with_cast(
                    with_cast(before, corridor, candidate, seeded, entry, true),
                    corridor,
                    candidate,
                    seeded,
                    convex_exit(corridor, casts),
                    false,
                ),
                fault: None,
            },
        }
    }
}

/// The casts to read a convex solid with; none where the ray has no direction.
pub fn convex_probes(corridor: &Corridor) -> (probes: Option<ConvexProbes>)
    ensures
        probes is Some <==> stage::has_direction(corridor.axis),
        probes matches Some(probes) ==> {
            let axis = corridor.axis.shared(corridor.axis.norm());
            let origin = corridor.anchor.sum(corridor.origin);
            probes == (ConvexProbes {
                origin,
                axis,
                far: origin.sum(corridor.axis.scaled(corridor.length)),
                back: axis.negation(),
                length: corridor.length,
                probe: boundary_probe(),
            })
        },
{
    let length: F32 = corridor.axis.length();
    if !(length.is_finite() && F32::zero().lt(length)) {
        return None;
    }
    let axis: Vec3 = corridor.axis.over(length);
    let origin: Vec3 = corridor.anchor.plus(corridor.origin);
    Some(
        ConvexProbes {
            origin,
            axis,
            far: origin.plus(corridor.axis.times(corridor.length)),
            back: axis.negated(),
            length: corridor.length,
            probe: boundary_probe(),
        },
    )
}

fn push_convex(
    corridor: &Corridor,
    node: Entity,
    primitive: Entity,
    seeded: bool,
    t: F32,
    normal: Vec3,
    entry: bool,
    out: &mut Vec<FaceHit>,
)
    ensures
        final(out)@ == with_hit(old(out)@, convex_hit(*corridor, (node, primitive), seeded, t, normal, entry)),
{
    let face: u32 = if entry { 0 } else { 1 };
    let signed: Vec3 = if normal.dot(corridor.axis).lt(F32::zero()) == entry { normal } else { normal.negated() };
    if let Some(t) = place(t, corridor.length, seeded, corridor.laws) {
        out.push(
            FaceHit {
                volume: node,
                primitive,
                shell: 0,
                contact: Contact::Face(face),
                triangle: face,
                t: t.to_double(),
                true_normal: signed,
            },
        );
    }
}

/// The one interval of a convex solid. A ray that starts inside undeclared, with no
/// face to sit on, is an error: reporting nothing would let it pass for free.
fn collect_convex(
    corridor: &Corridor,
    node: Entity,
    primitive: Entity,
    casts: &ConvexCasts,
    out: &mut Vec<FaceHit>,
) -> (result: Result<(), WalkError>)
    ensures
        ({
            let gathered = over_convex(old(out)@, *corridor, (node, primitive), *casts);
            &&& final(out)@ == gathered.hits
            &&& reports(result, gathered)
        }),
{
    let length: F32 = corridor.axis.length();
    if !(length.is_finite() && F32::zero().lt(length)) {
        return Ok(());
    }
    let seeded: bool = has_seed(corridor, node, primitive, 0);
    if let Some((distance, normal)) = casts.entry {
        if distance.le(F32::zero()) {
            if !seeded {
                match casts.behind {
                    Some((_, normal)) => {
                        push_convex(corridor, node, primitive, seeded, F32::zero(), normal, true, out);
                    },
                    None => {
                        return Err(
                            WalkError::CollectorFailed {
                                volume: node,
                                reason: "a sample begins inside a convex volume it was not seeded for, with no entry face within the boundary probe",
                            },
                        );
                    },
                }
            }
        } else {
            push_convex(corridor, node, primitive, seeded, distance, normal, true, out);
        }
    }
    if let Some((distance, normal)) = casts.exit {
        if !distance.le(F32::zero()) {
            push_convex(corridor, node, primitive, seeded, corridor.length.minus(distance), normal, false, out);
        }
    }
    Ok(())
}

/// The mesh carries a certificate for each of its triangles.
pub open spec fn is_certified(mesh: TriMesh, surfaces: BallisticSurfaces) -> bool {
    surfaces.shells@.len() == mesh.triangles@.len() && surfaces.corners@.len() == mesh.triangles@.len()
}

/// What one candidate adds to the hits.
pub open spec fn over_candidate(before: Seq<FaceHit>, corridor: Corridor, candidate: Candidate) -> Gathered {
    let name = (candidate.node, candidate.primitive);
    match candidate.collider {
        None => Gathered { hits: before, fault: Some((candidate.node, Fault::Unposed)) },
        Some(collider) => {
            let gathered = match collider.shape {
                Shape::TriMesh(mesh, surfaces) => match surfaces {
                    None => Gathered { hits: before, fault: Some((candidate.node, Fault::Uncertified)) },
                    Some(surfaces) => if !is_certified(*mesh, *surfaces) {
                        Gathered { hits: before, fault: Some((candidate.node, Fault::Uncertified)) }
                    } else if collider.scale != surfaces.scale {
                        Gathered { hits: before, fault: Some((candidate.node, Fault::Rescaled)) }
                    } else {
                        over_triangles(
                            before,
                            corridor,
                            localized(corridor, collider.position, collider.rotation),
                            name,
                            collider.rotation,
                            *mesh,
                            *surfaces,
                            mesh.triangles@.len() as int,
                        )
                    },
                },
                Shape::Convex(casts) => over_convex(before, corridor, name, casts),
            };
            if gathered.fault is None && gathered.hits.len() > MAX_FACES {
                Gathered {
                    hits: gathered.hits,
                    fault: Some((candidate.node, Fault::Overflow { collected: gathered.hits.len() })),
                }
            } else {
                gathered
            }
        },
    }
}

/// What the first `n` candidates add to the hits, up to the first fault.
pub open spec fn over_candidates(
    before: Seq<FaceHit>,
    corridor: Corridor,
    candidates: Seq<Candidate>,
    n: int,
) -> Gathered
    decreases n,
{
    if n <= 0 {
        Gathered { hits: before, fault: None }
    } else {
        let gathered = over_candidates(before, corridor, candidates, n - 1);
        if gathered.fault is Some {
            gathered
        } else {
            over_candidate(gathered.hits, corridor, candidates[n - 1])
        }
    }
}

proof fn lemma_stopped(before: Seq<FaceHit>, corridor: Corridor, candidates: Seq<Candidate>, n: int, end: int)
    requires
        n <= end,
        over_candidates(before, corridor, candidates, n).fault is Some,
    ensures
        over_candidates(before, corridor, candidates, end) == over_candidates(before, corridor, candidates, n),
    decreases end - n,
{
    if n < end {
        lemma_stopped(before, corridor, candidates, n, end - 1);
    }
}

/// Every hit that is added lies in the corridor: a number, not before the origin,
/// and not at or past the far end.
pub proof fn law_admitted_hits_lie_in_the_corridor(t: F32, length: F32, seeded: bool, laws: WalkLaws)
    requires
        F32::zero().below(length),
    ensures
        admitted(t, length, seeded, laws) matches Some(hit) ==> hit.finite() && F32::zero().at_most(hit) && hit.below(
            length,
        ),
{
    F32::zero().lemma_nonnegative();
}

/// A seed and a face never both count: of a face behind the origin, a ray that was
/// seeded reports nothing, whatever the distance.
pub proof fn law_seed_owns_what_is_behind(t: F32, length: F32, laws: WalkLaws)
    requires
        t.below(F32::zero()),
    ensures
        admitted(t, length, true, laws) is None,
        admitted(t, length, false, laws) matches Some(hit) ==> hit == F32::zero(),
{
}

proof fn lemma_triangles_keep(
    before: Seq<FaceHit>,
    corridor: Corridor,
    local: LocalRay,
    candidate: (Entity, Entity),
    rotation: Quat,
    mesh: TriMesh,
    surfaces: BallisticSurfaces,
    n: int,
)
    ensures
        before.is_prefix_of(over_triangles(before, corridor, local, candidate, rotation, mesh, surfaces, n).hits),
    decreases n,
{
    if n > 0 {
        lemma_triangles_keep(before, corridor, local, candidate, rotation, mesh, surfaces, n - 1);
    }
}

/// Every hit lies at a distance that single precision holds.
pub open spec fn all_coarse(hits: Seq<FaceHit>) -> bool {
    forall|i: int| 0 <= i < hits.len() ==> reports::is_coarse((#[trigger] hits[i]).t)
}

proof fn lemma_coarse(t: F32)
    requires
        t.finite(),
    ensures
        reports::is_coarse(t.doubled()),
{
    t.lemma_doubled();
    vstd::arithmetic::power2::lemma_pow2_pos(925);
    let unit = vstd::arithmetic::power2::pow2(925) as int;
    let v = t.value();
    assert((v * unit) % unit == 0) by (nonlinear_arith)
        requires unit > 0;
}

proof fn lemma_admitted_coarse(t: F32, length: F32, seeded: bool, laws: WalkLaws)
    ensures
        admitted(t, length, seeded, laws) matches Some(hit) ==> reports::is_coarse(hit.doubled()),
{
    if t.finite() {
        lemma_coarse(t);
    }
    lemma_coarse(F32::zero());
}

proof fn lemma_triangles_coarse(
    before: Seq<FaceHit>,
    corridor: Corridor,
    local: LocalRay,
    candidate: (Entity, Entity),
    rotation: Quat,
    mesh: TriMesh,
    surfaces: BallisticSurfaces,
    n: int,
)
    requires
        all_coarse(before),
    ensures
        all_coarse(over_triangles(before, corridor, local, candidate, rotation, mesh, surfaces, n).hits),
    decreases n,
{
    if n > 0 {
        lemma_triangles_coarse(before, corridor, local, candidate, rotation, mesh, surfaces, n - 1);
        if let Some(claim) = claim_at(local, mesh.triangles@[n - 1]) {
            let shell = surfaces.shells@[n - 1];
            let (_, t) = triangle::contact(
                RayShear::sheared(local.origin, local.axis),
                local.axis,
                (n - 1) as u32,
                mesh.triangles@[n - 1],
                surfaces.corners@[n - 1],
                claim,
            );
            lemma_admitted_coarse(
                t,
                local.length,
                is_seeded(corridor, candidate.0, candidate.1, shell),
                *corridor.laws,
            );
        }
    }
}

proof fn lemma_cast_coarse(
    hits: Seq<FaceHit>,
    corridor: Corridor,
    candidate: (Entity, Entity),
    seeded: bool,
    cast: Cast,
    entry: bool,
)
    requires
        all_coarse(hits),
    ensures
        all_coarse(with_cast(hits, corridor, candidate, seeded, cast, entry)),
{
    if let Some((t, _)) = cast {
        lemma_admitted_coarse(t, corridor.length, seeded, *corridor.laws);
    }
}

proof fn lemma_candidate_coarse(before: Seq<FaceHit>, corridor: Corridor, candidate: Candidate)
    requires
        all_coarse(before),
    ensures
        all_coarse(over_candidate(before, corridor, candidate).hits),
{
    let name = (candidate.node, candidate.primitive);
    if let Some(collider) = candidate.collider {
        match collider.shape {
            Shape::TriMesh(mesh, Some(surfaces)) => {
                lemma_triangles_coarse(
                    before,
                    corridor,
                    localized(corridor, collider.position, collider.rotation),
                    name,
                    collider.rotation,
                    *mesh,
                    *surfaces,
                    mesh.triangles@.len() as int,
                );
            },
            Shape::TriMesh(_, None) => {},
            Shape::Convex(casts) => {
                let seeded = is_seeded(corridor, name.0, name.1, 0);
                if let Ok(entry) = convex_entry(corridor, casts, seeded) {
                    lemma_cast_coarse(before, corridor, name, seeded, entry, true);
                    lemma_cast_coarse(
                        with_cast(before, corridor, name, seeded, entry, true),
                        corridor,
                        name,
                        seeded,
                        convex_exit(corridor, casts),
                        false,
                    );
                }
            },
        }
    }
}

/// Collected hits lie at distances that single precision holds.
pub proof fn lemma_collected_coarse(before: Seq<FaceHit>, corridor: Corridor, candidates: Seq<Candidate>, n: int)
    requires
        all_coarse(before),
        n <= candidates.len(),
    ensures
        all_coarse(over_candidates(before, corridor, candidates, n).hits),
    decreases n,
{
    if n > 0 {
        lemma_collected_coarse(before, corridor, candidates, n - 1);
        let earlier = over_candidates(before, corridor, candidates, n - 1);
        lemma_candidate_coarse(earlier.hits, corridor, candidates[n - 1]);
    }
}

/// The list grew by hits of one candidate.
spec fn grew(before: Seq<FaceHit>, after: Seq<FaceHit>, candidate: (Entity, Entity)) -> bool {
    &&& before.len() <= after.len()
    &&& forall|i: int| 0 <= i < before.len() ==> #[trigger] after[i] == before[i]
    &&& forall|i: int|
        before.len() <= i < after.len() ==> (#[trigger] after[i]).volume == candidate.0 && after[i].primitive
            == candidate.1
}

proof fn lemma_triangles_owned(
    before: Seq<FaceHit>,
    corridor: Corridor,
    local: LocalRay,
    candidate: (Entity, Entity),
    rotation: Quat,
    mesh: TriMesh,
    surfaces: BallisticSurfaces,
    n: int,
)
    ensures
        grew(before, over_triangles(before, corridor, local, candidate, rotation, mesh, surfaces, n).hits, candidate),
    decreases n,
{
    if n > 0 {
        lemma_triangles_owned(before, corridor, local, candidate, rotation, mesh, surfaces, n - 1);
    }
}

proof fn lemma_candidate_owned(before: Seq<FaceHit>, corridor: Corridor, candidate: Candidate)
    ensures
        grew(before, over_candidate(before, corridor, candidate).hits, (candidate.node, candidate.primitive)),
{
    if let Some(collider) = candidate.collider {
        if let Shape::TriMesh(mesh, Some(surfaces)) = collider.shape {
            lemma_triangles_owned(
                before,
                corridor,
                localized(corridor, collider.position, collider.rotation),
                (candidate.node, candidate.primitive),
                collider.rotation,
                *mesh,
                *surfaces,
                mesh.triangles@.len() as int,
            );
        }
    }
}

/// Every collected hit names the candidate that it is of.
pub proof fn lemma_collected_owned(corridor: Corridor, candidates: Seq<Candidate>, n: int, i: int) -> (j: int)
    requires
        n <= candidates.len(),
        0 <= i < over_candidates(Seq::<FaceHit>::empty(), corridor, candidates, n).hits.len(),
    ensures
        0 <= j < n,
        ({
            let hit = over_candidates(Seq::<FaceHit>::empty(), corridor, candidates, n).hits[i];
            hit.volume == candidates[j].node && hit.primitive == candidates[j].primitive
        }),
    decreases n,
{
    let earlier = over_candidates(Seq::<FaceHit>::empty(), corridor, candidates, n - 1).hits;
    lemma_candidate_owned(earlier, corridor, candidates[n - 1]);
    if n > 0 && i < earlier.len() {
        lemma_collected_owned(corridor, candidates, n - 1, i)
    } else {
        n - 1
    }
}

proof fn lemma_triangles_fault(
    before: Seq<FaceHit>,
    corridor: Corridor,
    local: LocalRay,
    candidate: (Entity, Entity),
    rotation: Quat,
    mesh: TriMesh,
    surfaces: BallisticSurfaces,
    n: int,
)
    ensures
        over_triangles(before, corridor, local, candidate, rotation, mesh, surfaces, n).fault matches Some((volume, _))
            ==> volume == candidate.0,
    decreases n,
{
    if n > 0 {
        lemma_triangles_fault(before, corridor, local, candidate, rotation, mesh, surfaces, n - 1);
    }
}

/// A fault names the candidate that it is of.
pub proof fn lemma_fault_owned(before: Seq<FaceHit>, corridor: Corridor, candidates: Seq<Candidate>, n: int) -> (j: int)
    requires
        n <= candidates.len(),
        over_candidates(before, corridor, candidates, n).fault is Some,
    ensures
        0 <= j < n,
        over_candidates(before, corridor, candidates, n).fault matches Some((volume, _)) && volume == candidates[j].node,
    decreases n,
{
    let earlier = over_candidates(before, corridor, candidates, n - 1);
    if earlier.fault is Some {
        lemma_fault_owned(before, corridor, candidates, n - 1)
    } else {
        let candidate = candidates[n - 1];
        if let Some(collider) = candidate.collider {
            if let Shape::TriMesh(mesh, Some(surfaces)) = collider.shape {
                lemma_triangles_fault(
                    earlier.hits,
                    corridor,
                    localized(corridor, collider.position, collider.rotation),
                    (candidate.node, candidate.primitive),
                    collider.rotation,
                    *mesh,
                    *surfaces,
                    mesh.triangles@.len() as int,
                );
            }
        }
        n - 1
    }
}

proof fn lemma_triangles_complete(
    before: Seq<FaceHit>,
    corridor: Corridor,
    local: LocalRay,
    candidate: (Entity, Entity),
    rotation: Quat,
    mesh: TriMesh,
    surfaces: BallisticSurfaces,
    n: int,
    index: int,
    claim: TriangleClaim,
    hit: FaceHit,
)
    requires
        0 <= index < n,
        over_triangles(before, corridor, local, candidate, rotation, mesh, surfaces, n).fault is None,
        claim_at(local, mesh.triangles@[index]) == Some(claim),
        hit_of(corridor, local, candidate, rotation, mesh, surfaces, index, claim) == Some(hit),
    ensures
        over_triangles(before, corridor, local, candidate, rotation, mesh, surfaces, n).hits.contains(hit),
    decreases n,
{
    let earlier = over_triangles(before, corridor, local, candidate, rotation, mesh, surfaces, n - 1).hits;
    let all = over_triangles(before, corridor, local, candidate, rotation, mesh, surfaces, n).hits;
    if index < n - 1 {
        lemma_triangles_complete(
            before,
            corridor,
            local,
            candidate,
            rotation,
            mesh,
            surfaces,
            n - 1,
            index,
            claim,
            hit,
        );
        let at = choose|at: int| 0 <= at < earlier.len() && earlier[at] == hit;
        assert(all[at] == hit);
    } else {
        assert(all[all.len() - 1] == hit);
    }
}

proof fn lemma_candidate_keeps(before: Seq<FaceHit>, corridor: Corridor, candidate: Candidate)
    ensures
        before.is_prefix_of(over_candidate(before, corridor, candidate).hits),
{
    if let Some(collider) = candidate.collider {
        if let Shape::TriMesh(mesh, Some(surfaces)) = collider.shape {
            lemma_triangles_keep(
                before,
                corridor,
                localized(corridor, collider.position, collider.rotation),
                (candidate.node, candidate.primitive),
                collider.rotation,
                *mesh,
                *surfaces,
                mesh.triangles@.len() as int,
            );
        }
    }
}

/// No crossing is dropped: where a corridor is collected without a fault, every
/// triangle of every mesh among its candidates whose claim the corridor admits has its
/// hit in the list.
pub proof fn law_every_crossing_is_collected(
    before: Seq<FaceHit>,
    corridor: Corridor,
    candidates: Seq<Candidate>,
    n: int,
    k: int,
    collider: Collider,
    mesh: &TriMesh,
    surfaces: &BallisticSurfaces,
    index: int,
    claim: TriangleClaim,
    hit: FaceHit,
)
    requires
        0 <= k < n <= candidates.len(),
        over_candidates(before, corridor, candidates, n).fault is None,
        candidates[k].collider == Some(collider),
        collider.shape == Shape::TriMesh(mesh, Some(surfaces)),
        0 <= index < mesh.triangles@.len(),
        claim_at(localized(corridor, collider.position, collider.rotation), mesh.triangles@[index]) == Some(claim),
        hit_of(
            corridor,
            localized(corridor, collider.position, collider.rotation),
            (candidates[k].node, candidates[k].primitive),
            collider.rotation,
            *mesh,
            *surfaces,
            index,
            claim,
        ) == Some(hit),
    ensures
        over_candidates(before, corridor, candidates, n).hits.contains(hit),
    decreases n,
{
    let earlier = over_candidates(before, corridor, candidates, n - 1);
    let all = over_candidates(before, corridor, candidates, n);
    assert(earlier.fault is None);
    if k < n - 1 {
        law_every_crossing_is_collected(
            before,
            corridor,
            candidates,
            n - 1,
            k,
            collider,
            mesh,
            surfaces,
            index,
            claim,
            hit,
        );
        lemma_candidate_keeps(earlier.hits, corridor, candidates[n - 1]);
        let at = choose|at: int| 0 <= at < earlier.hits.len() && earlier.hits[at] == hit;
        assert(all.hits[at] == hit);
    } else {
        lemma_triangles_complete(
            earlier.hits,
            corridor,
            localized(corridor, collider.position, collider.rotation),
            (candidates[k].node, candidates[k].primitive),
            collider.rotation,
            *mesh,
            *surfaces,
            mesh.triangles@.len() as int,
            index,
            claim,
            hit,
        );
    }
}

fn collect_candidate(corridor: &Corridor, candidate: &Candidate, out: &mut Vec<FaceHit>) -> (result: Result<
    (),
    WalkError,
>)
    requires
        candidate.wf(),
    ensures
        ({
            let gathered = over_candidate(old(out)@, *corridor, *candidate);
            &&& final(out)@ == gathered.hits
            &&& reports(result, gathered)
        }),
{
    let node: Entity = candidate.node;
    let primitive: Entity = candidate.primitive;
    let collider: &Collider = match &candidate.collider {
        Some(collider) => collider,
        None => {
            return Err(
                WalkError::CollectorFailed { volume: node, reason: "a candidate collider has no resolved pose" },
            );
        },
    };
    match collider.shape {
        Shape::TriMesh(mesh, surfaces) => {
            let surfaces: &BallisticSurfaces = match surfaces {
                Some(surfaces) => surfaces,
                None => {
                    return Err(
                        WalkError::CollectorFailed {
                            volume: node,
                            reason: "a trimesh candidate carries no per-triangle manifold certificate",
                        },
                    );
                },
            };
            if surfaces.shells.len() != mesh.triangles.len() || surfaces.corners.len() != mesh.triangles.len() {
                return Err(
                    WalkError::CollectorFailed {
                        volume: node,
                        reason: "a trimesh candidate carries no per-triangle manifold certificate",
                    },
                );
            }
            if collider.scale != surfaces.scale {
                return Err(
                    WalkError::CollectorFailed {
                        volume: node,
                        reason: "a collider reached the world at a scale the bake never certified",
                    },
                );
            }
            let inverse: Quat = collider.rotation.inverse();
            let origin: Vec3 = inverse.rotate(corridor.anchor.minus(collider.position).plus(corridor.origin));
            let local: LocalRay = LocalRay {
                origin,
                axis: inverse.rotate(corridor.axis),
                length: corridor.length,
                margin: prune_margin(origin, corridor.laws),
            };
            match collect_trimesh(corridor, &local, node, primitive, collider.rotation, mesh, surfaces, out) {
                Ok(_) => {},
                Err(error) => {
                    return Err(error);
                },
            }
        },
        Shape::Convex(casts) => {
            match collect_convex(corridor, node, primitive, &casts, out) {
                Ok(_) => {},
                Err(error) => {
                    return Err(error);
                },
            }
        },
    }
    if out.len() > MAX_FACES {
        return Err(WalkError::CorridorOverflow { volume: node, collected: out.len(), limit: MAX_FACES });
    }
    Ok(())
}

/// Collects every face crossing along one corridor, appending to `out`; stops at the
/// first candidate that cannot be probed.
pub fn collect(corridor: &Corridor, candidates: &Vec<Candidate>, out: &mut Vec<FaceHit>) -> (result: Result<
    (),
    WalkError,
>)
    requires
        forall|i: int| 0 <= i < candidates@.len() ==> (#[trigger] candidates@[i]).wf(),
    ensures
        ({
            let gathered = over_candidates(old(out)@, *corridor, candidates@, candidates@.len() as int);
            &&& final(out)@ == gathered.hits
            &&& reports(result, gathered)
        }),
{
    let mut n: usize = 0;
    while n < candidates.len()
        invariant
            n <= candidates@.len(),
            forall|i: int| 0 <= i < candidates@.len() ==> (#[trigger] candidates@[i]).wf(),
            ({
                let gathered = over_candidates(old(out)@, *corridor, candidates@, n as int);
                gathered.hits == out@ && gathered.fault is None
            }),
        decreases candidates.len() - n,
    {
        match collect_candidate(corridor, &candidates[n], out) {
            Ok(_) => {},
            Err(error) => {
                proof {
                    lemma_stopped(old(out)@, *corridor, candidates@, n + 1, candidates@.len() as int);
                }
                return Err(error);
            },
        }
        n = n + 1;
    }
    Ok(())
}

} // verus!
