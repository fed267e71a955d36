//! A ray in a collider's frame, and the ray in the world that it stands for.

use crate::ballistics::collect::{self, BallisticSurfaces, Corridor, LocalRay, TriMesh};
use crate::ballistics::collect::triangle::TriangleClaim;
use crate::ballistics::walk::vocabulary::Entity;
use crate::float::F32;
use crate::folding_single;
use crate::nearness;
use crate::rounding;
use crate::turning::{self, Turn};
use crate::vector::{Quat, Vec3};
use vstd::prelude::*;

verus! {

/// Every part is a number no larger than `size`.
pub open spec fn is_within(v: Vec3, size: real) -> bool {
    &&& v.x.finite() && rounding::size(v.x.number()) <= size
    &&& v.y.finite() && rounding::size(v.y.number()) <= size
    &&& v.z.finite() && rounding::size(v.z.number()) <= size
}

/// The exact vector from a collider's position to the start of a corridor.
pub open spec fn offset(corridor: Corridor, position: Vec3) -> Turn {
    Turn {
        x: corridor.anchor.x.number() - position.x.number() + corridor.origin.x.number(),
        y: corridor.anchor.y.number() - position.y.number() + corridor.origin.y.number(),
        z: corridor.anchor.z.number() - position.z.number() + corridor.origin.z.number(),
        w: 0real,
    }
}

/// No part differs by more than `off`.
pub open spec fn is_close(u: Turn, v: Turn, off: real) -> bool {
    &&& rounding::size(u.x - v.x) <= off
    &&& rounding::size(u.y - v.y) <= off
    &&& rounding::size(u.z - v.z) <= off
}

/// A vector, longer by a factor.
pub open spec fn stretched(k: real, v: Turn) -> Turn {
    Turn { x: k * v.x, y: k * v.y, z: k * v.z, w: k * v.w }
}

proof fn lemma_offset(a: F32, p: F32, o: F32, reach: real)
    requires
        1real <= reach < rounding::ceiling() / 100000real,
        a.finite() && rounding::size(a.number()) <= reach,
        p.finite() && rounding::size(p.number()) <= reach,
        o.finite() && rounding::size(o.number()) <= reach,
    ensures
        nearness::is_near(a.difference(p).sum(o), a.number() - p.number() + o.number(), 3real * reach, 4real),
{
    nearness::lemma_itself(a, reach);
    nearness::lemma_itself(p, reach);
    nearness::lemma_itself(o, reach);
    nearness::lemma_near_difference(a, a.number(), reach, 0real, p, p.number(), reach, 0real);
    nearness::lemma_near_sum(
        a.difference(p),
        a.number() - p.number(),
        reach + reach,
        2real,
        o,
        o.number(),
        reach,
        0real,
    );
}

/// The ray in a collider's frame is the corridor's turned back by the collider's rotation, the
/// collider's position at its origin: turned by the rotation, its start is the corridor's start
/// as seen from the position and its axis the corridor's axis, up to rounding, and as long as the
/// fourth power of the quaternion's length, which is one of a rotation.
pub proof fn law_a_local_ray_turns_into_the_corridor(corridor: Corridor, position: Vec3, rotation: Quat, reach: real)
    requires
        turning::is_moderate(rotation),
        1real <= reach < rounding::ceiling() / 100000real,
        is_within(corridor.anchor, reach),
        is_within(corridor.origin, reach),
        is_within(position, reach),
        is_within(corridor.axis, 2real),
    ensures
        ({
            let ray = collect::localized(corridor, position, rotation);
            let q = turning::turn_of(rotation);
            let n = q.square() * q.square();
            let u = rounding::unit();
            &&& turning::stands_for(ray.origin, q.back().turned(offset(corridor, position)), 66real * reach, 35real)
            &&& turning::stands_for(ray.axis, q.back().turned(turning::vector_of(corridor.axis)), 44real, 27real)
            &&& is_close(
                q.turned(turning::vector_of(ray.origin)),
                stretched(n, offset(corridor, position)),
                51000real * u * reach,
            )
            &&& is_close(
                q.turned(turning::vector_of(ray.axis)),
                stretched(n, turning::vector_of(corridor.axis)),
                27000real * u,
            )
            &&& ray.length == corridor.length
        }),
{
    folding_single::lemma_small();
    let (a, o, p) = (corridor.anchor, corridor.origin, position);
    lemma_offset(a.x, p.x, o.x, reach);
    lemma_offset(a.y, p.y, o.y, reach);
    lemma_offset(a.z, p.z, o.z, reach);
    let d = offset(corridor, position);
    let ax = turning::vector_of(corridor.axis);
    nearness::lemma_itself(corridor.axis.x, 2real);
    nearness::lemma_itself(corridor.axis.y, 2real);
    nearness::lemma_itself(corridor.axis.z, 2real);
    let back = rotation.conjugate();
    let q = turning::turn_of(rotation);
    turning::lemma_conjugate(rotation);
    turning::law_a_vector_is_turned_as_by_the_quaternion(back, a.difference(p).sum(o), d, 3real * reach, 4real);
    turning::law_a_vector_is_turned_as_by_the_quaternion(back, corridor.axis, ax, 2real, 0real);
    let ray = collect::localized(corridor, position, rotation);
    let u = rounding::unit();
    let wide = 66real * reach;
    assert(35real * u * wide == 2310real * u * reach) by (nonlinear_arith)
        requires wide == 66real * reach;
    let off = 2310real * u * reach;
    turning::lemma_turned_apart(q, turning::vector_of(ray.origin), q.back().turned(d), off);
    turning::law_turning_back_undoes_turning(q, d);
    assert(22real * off == 50820real * u * reach) by (nonlinear_arith)
        requires off == 2310real * u * reach;
    assert(50820real * u * reach <= 51000real * u * reach) by (nonlinear_arith)
        requires u > 0real, reach >= 1real;
    turning::lemma_turned_apart(q, turning::vector_of(ray.axis), q.back().turned(ax), 27real * u * 44real);
    turning::law_turning_back_undoes_turning(q, ax);
}


/// A hit faces as its triangle does in the world: its normal is that of the triangle's winding, turned by the
/// collider's rotation, but for rounding.
pub proof fn law_a_hit_faces_as_its_triangle(
    corridor: Corridor,
    local: LocalRay,
    candidate: (Entity, Entity),
    rotation: Quat,
    mesh: TriMesh,
    surfaces: BallisticSurfaces,
    index: int,
    claim: TriangleClaim,
)
    requires
        collect::hit_of(corridor, local, candidate, rotation, mesh, surfaces, index, claim) is Some,
        turning::is_moderate(rotation),
        is_within(claim.normal, 2real),
    ensures
        ({
            let hit = collect::hit_of(corridor, local, candidate, rotation, mesh, surfaces, index, claim)->0;
            &&& turning::stands_for(
                hit.true_normal,
                turning::turn_of(rotation).turned(turning::vector_of(claim.normal)),
                44real,
                27real,
            )
            &&& hit.volume == candidate.0
            &&& hit.primitive == candidate.1
            &&& hit.shell == surfaces.shells@[index]
        }),
{
    folding_single::lemma_small();
    nearness::lemma_itself(claim.normal.x, 2real);
    nearness::lemma_itself(claim.normal.y, 2real);
    nearness::lemma_itself(claim.normal.z, 2real);
    turning::law_a_vector_is_turned_as_by_the_quaternion(
        rotation,
        claim.normal,
        turning::vector_of(claim.normal),
        2real,
        0real,
    );
}

} // verus!
