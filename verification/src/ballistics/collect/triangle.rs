//! A ray against a triangle: where they cross, which way the face is wound, and
//! which welded feature the ray landed on.
//!
//! Containment is read in a frame sheared along the ray, where each edge gives one
//! signed area. The area is antisymmetric in the edge's ends, bit for bit, so two
//! triangles that share an edge never both put the ray outside of it.

use crate::ballistics::walk::vocabulary::Contact;
use crate::float::{F32, F64};
use crate::vector::{DVec3, Vec3};
use vstd::prelude::*;

verus! {

/// Under this a ray runs along the plane of a face, and crosses nothing.
#[verifier::allow_in_spec]
pub fn parallel_eps() -> F32
    returns
        (F32 { bits: 0x2b8c_bccc }),
{
    F32 { bits: 0x2b8c_bccc }
}

/// The error of a projection, as a share of the vertex's own magnitude: four units
/// in the last place of one.
#[verifier::allow_in_spec]
pub fn projection_slack() -> F32
    returns
        (F32 { bits: 0x3500_0000 }),
{
    F32 { bits: 0x3500_0000 }
}

/// The least normal number.
#[verifier::allow_in_spec]
pub fn least_normal() -> F32
    returns
        (F32 { bits: 0x0080_0000 }),
{
    F32 { bits: 0x0080_0000 }
}

/// The ray reduced to the frame of the containment test. It depends on the ray
/// alone, so every triangle of a corridor is sheared alike.
#[derive(Clone, Copy, Debug, PartialEq, Eq, Structural)]
pub struct RayShear {
    pub origin: Vec3,
    /// The two rows of the map that survive.
    pub row_x: Vec3,
    pub row_y: Vec3,
    /// The same map in double precision.
    pub origin_exact: DVec3,
    pub row_x_exact: DVec3,
    pub row_y_exact: DVec3,
}

/// One vertex in the sheared frame, and how far rounding can have moved it.
#[derive(Clone, Copy, Debug, PartialEq, Eq)]
pub struct Projected {
    pub p: (F32, F32),
    pub slack: F32,
}

/// A component by its index.
pub open spec fn component(v: Vec3, k: int) -> F32 {
    if k == 0 {
        v.x
    } else if k == 1 {
        v.y
    } else {
        v.z
    }
}

fn read_component(v: Vec3, k: u8) -> (s: F32)
    ensures
        s == component(v, k as int),
{
    if k == 0 {
        v.x
    } else if k == 1 {
        v.y
    } else {
        v.z
    }
}

/// The axis that the ray runs along most.
pub open spec fn dominant(axis: Vec3) -> int {
    let size = axis.absolute();
    if size.y.below(size.x) && size.z.below(size.x) {
        0
    } else if size.z.below(size.y) {
        1
    } else {
        2
    }
}

/// The two lateral axes, swapped for a ray that runs backwards, which keeps the
/// sheared frame right-handed.
pub open spec fn laterals(axis: Vec3) -> (int, int) {
    let along = dominant(axis);
    let first = (along + 1) % 3;
    let second = (along + 2) % 3;
    if component(axis, along).below(F32::zero()) {
        (second, first)
    } else {
        (first, second)
    }
}

/// One at `k`, the slope at `along`, zero elsewhere.
pub open spec fn row(k: int, along: int, slope: F32) -> Vec3 {
    Vec3 {
        x: if along == 0 {
            slope
        } else if k == 0 {
            F32::one()
        } else {
            F32::zero()
        },
        y: if along == 1 {
            slope
        } else if k == 1 {
            F32::one()
        } else {
            F32::zero()
        },
        z: if along == 2 {
            slope
        } else if k == 2 {
            F32::one()
        } else {
            F32::zero()
        },
    }
}

/// The same in double precision.
pub open spec fn row_exact(k: int, along: int, slope: F64) -> DVec3 {
    DVec3 {
        x: if along == 0 {
            slope
        } else if k == 0 {
            F64::one()
        } else {
            F64::zero()
        },
        y: if along == 1 {
            slope
        } else if k == 1 {
            F64::one()
        } else {
            F64::zero()
        },
        z: if along == 2 {
            slope
        } else if k == 2 {
            F64::one()
        } else {
            F64::zero()
        },
    }
}

fn make_row(k: u8, along: u8, slope: F32) -> (v: Vec3)
    ensures
        v == row(k as int, along as int, slope),
{
    Vec3 {
        x: if along == 0 {
            slope
        } else if k == 0 {
            F32::one()
        } else {
            F32::zero()
        },
        y: if along == 1 {
            slope
        } else if k == 1 {
            F32::one()
        } else {
            F32::zero()
        },
        z: if along == 2 {
            slope
        } else if k == 2 {
            F32::one()
        } else {
            F32::zero()
        },
    }
}

fn make_row_exact(k: u8, along: u8, slope: F64) -> (v: DVec3)
    ensures
        v == row_exact(k as int, along as int, slope),
{
    DVec3 {
        x: if along == 0 {
            slope
        } else if k == 0 {
            F64::one()
        } else {
            F64::zero()
        },
        y: if along == 1 {
            slope
        } else if k == 1 {
            F64::one()
        } else {
            F64::zero()
        },
        z: if along == 2 {
            slope
        } else if k == 2 {
            F64::one()
        } else {
            F64::zero()
        },
    }
}

impl RayShear {
    /// The shear of a ray.
    pub open spec fn sheared(origin: Vec3, axis: Vec3) -> RayShear {
        let along = dominant(axis);
        let (kx, ky) = laterals(axis);
        let run = component(axis, along);
        let (x, y) = (component(axis, kx), component(axis, ky));
        RayShear {
            origin,
            row_x: row(kx, along, x.negation().quotient(run)),
            row_y: row(ky, along, y.negation().quotient(run)),
            origin_exact: origin.doubled(),
            row_x_exact: row_exact(kx, along, x.doubled().negation().quotient(run.doubled())),
            row_y_exact: row_exact(ky, along, y.doubled().negation().quotient(run.doubled())),
        }
    }

    pub fn new(origin: Vec3, axis: Vec3) -> (shear: RayShear)
        ensures
            shear == RayShear::sheared(origin, axis),
    {
        let size: Vec3 = axis.abs();
        let along: u8 = if size.y.lt(size.x) && size.z.lt(size.x) {
            0
        } else if size.z.lt(size.y) {
            1
        } else {
            2
        };
        let run: F32 = read_component(axis, along);
        let first: u8 = (along + 1) % 3;
        let second: u8 = (along + 2) % 3;
        let (kx, ky): (u8, u8) = if run.lt(F32::zero()) { (second, first) } else { (first, second) };
        let x: F32 = read_component(axis, kx);
        let y: F32 = read_component(axis, ky);
        let wide: F64 = run.to_double();
        RayShear {
            origin,
            row_x: make_row(kx, along, x.negated().over(run)),
            row_y: make_row(ky, along, y.negated().over(run)),
            origin_exact: origin.to_double(),
            row_x_exact: make_row_exact(kx, along, x.to_double().negated().over(wide)),
            row_y_exact: make_row_exact(ky, along, y.to_double().negated().over(wide)),
        }
    }

    /// A vertex in the sheared frame.
    pub open spec fn projection(self, vertex: Vec3) -> Projected {
        let v = vertex.difference(self.origin);
        Projected {
            p: (self.row_x.inner(v), self.row_y.inner(v)),
            slack: projection_slack().product(v.absolute().largest()),
        }
    }

    /// The same in double precision.
    pub open spec fn projection_exact(self, vertex: Vec3) -> (F64, F64) {
        let v = vertex.doubled().difference(self.origin_exact);
        (self.row_x_exact.inner(v), self.row_y_exact.inner(v))
    }

    pub fn project(&self, vertex: Vec3) -> (projected: Projected)
        ensures
            projected == self.projection(vertex),
    {
        let v: Vec3 = vertex.minus(self.origin);
        Projected {
            p: (self.row_x.dot(v), self.row_y.dot(v)),
            slack: projection_slack().times(v.abs().max_element()),
        }
    }

    pub fn project_exact(&self, vertex: Vec3) -> (p: (F64, F64))
        ensures
            p == self.projection_exact(vertex),
    {
        let v: DVec3 = vertex.to_double().minus(self.origin_exact);
        (self.row_x_exact.dot(v), self.row_y_exact.dot(v))
    }
}

/// The signed area of the edge `(p, q)` against the ray.
pub open spec fn area(p: (F32, F32), q: (F32, F32)) -> F32 {
    q.0.product(p.1).difference(q.1.product(p.0))
}

/// The same with the products carried in double precision.
pub open spec fn area_exact(p: (F32, F32), q: (F32, F32)) -> F64 {
    q.0.doubled().product(p.1.doubled()).difference(q.1.doubled().product(p.0.doubled()))
}

/// The same over points that are in double precision.
pub open spec fn area_wide(p: (F64, F64), q: (F64, F64)) -> F64 {
    q.0.product(p.1).difference(q.1.product(p.0))
}

/// How far the area can lie from that of the exact projection.
pub open spec fn area_slack(p: Projected, q: Projected) -> F32 {
    let (px, py) = (p.p.0.absolute(), p.p.1.absolute());
    let (qx, qy) = (q.p.0.absolute(), q.p.1.absolute());
    q.slack.product(px.sum(py).sum((F32 { bits: 0x4000_0000 }).product(p.slack))).sum(p.slack.product(qx.sum(qy))).sum(
        projection_slack().product(qx.product(py).sum(qy.product(px))),
    ).sum(least_normal())
}

pub fn edge_area(p: (F32, F32), q: (F32, F32)) -> (s: F32)
    ensures
        s == area(p, q),
{
    q.0.times(p.1).minus(q.1.times(p.0))
}

pub fn edge_area_exact(p: (F32, F32), q: (F32, F32)) -> (s: F64)
    ensures
        s == area_exact(p, q),
{
    q.0.to_double().times(p.1.to_double()).minus(q.1.to_double().times(p.0.to_double()))
}

pub fn edge_area_f64(p: (F64, F64), q: (F64, F64)) -> (s: F64)
    ensures
        s == area_wide(p, q),
{
    q.0.times(p.1).minus(q.1.times(p.0))
}

pub fn edge_area_slack(p: Projected, q: Projected) -> (s: F32)
    ensures
        s == area_slack(p, q),
{
    let px: F32 = p.p.0.abs();
    let py: F32 = p.p.1.abs();
    let qx: F32 = q.p.0.abs();
    let qy: F32 = q.p.1.abs();
    let first: F32 = q.slack.times(px.plus(py).plus((F32 { bits: 0x4000_0000 }).times(p.slack)));
    let second: F32 = p.slack.times(qx.plus(qy));
    let third: F32 = projection_slack().times(qx.times(py).plus(qy.times(px)));
    first.plus(second).plus(third).plus(least_normal())
}

/// No area lies below zero while another lies above.
pub open spec fn is_one_sided(u: F32, v: F32, w: F32) -> bool {
    let zero = F32::zero();
    !((u.below(zero) || v.below(zero) || w.below(zero)) && (zero.below(u) || zero.below(v) || zero.below(w)))
}

/// The same in double precision.
pub open spec fn is_one_sided_wide(u: F64, v: F64, w: F64) -> bool {
    let zero = F64::zero();
    !((u.below(zero) || v.below(zero) || w.below(zero)) && (zero.below(u) || zero.below(v) || zero.below(w)))
}

pub fn same_side(u: F32, v: F32, w: F32) -> (yes: bool)
    ensures
        yes == is_one_sided(u, v, w),
{
    let zero: F32 = F32::zero();
    !((u.lt(zero) || v.lt(zero) || w.lt(zero)) && (zero.lt(u) || zero.lt(v) || zero.lt(w)))
}

pub fn same_side_f64(u: F64, v: F64, w: F64) -> (yes: bool)
    ensures
        yes == is_one_sided_wide(u, v, w),
{
    let zero: F64 = F64::zero();
    !((u.lt(zero) || v.lt(zero) || w.lt(zero)) && (zero.lt(u) || zero.lt(v) || zero.lt(w)))
}

/// A triangle by its corners, in winding order.
#[derive(Clone, Copy, Debug, PartialEq, Eq, Structural)]
pub struct Triangle {
    pub a: Vec3,
    pub b: Vec3,
    pub c: Vec3,
}

/// What one triangle claims of a ray.
#[derive(Clone, Copy, Debug, PartialEq, Eq, Structural)]
pub struct TriangleClaim {
    /// Where the ray meets the triangle's plane.
    pub t: F32,
    /// The normal of the winding.
    pub normal: Vec3,
    /// The weights 1, 2 and 4 of the edges opposite the first, second and third
    /// corner whose area is exactly zero: none inside, one on an edge, two on the
    /// vertex that they share.
    pub zeros: u8,
}

/// Some area is no further from zero than its own rounding.
pub open spec fn is_banded(shear: RayShear, tri: Triangle) -> bool {
    let (a, b, c) = (shear.projection(tri.a), shear.projection(tri.b), shear.projection(tri.c));
    ||| area(b.p, c.p).absolute().at_most(area_slack(b, c))
    ||| area(c.p, a.p).absolute().at_most(area_slack(c, a))
    ||| area(a.p, b.p).absolute().at_most(area_slack(a, b))
}

/// The weight where the area is zero.
pub open spec fn weight(area: F64, weight: u8) -> int {
    if area.equals(F64::zero()) {
        weight as int
    } else {
        0
    }
}

/// The edges that the ray lies on, where it passes through the triangle: read from
/// the areas, or from those of the exact projection where rounding could decide.
pub open spec fn containment(shear: RayShear, tri: Triangle) -> Option<u8> {
    if is_banded(shear, tri) {
        let (a, b, c) = (shear.projection_exact(tri.a), shear.projection_exact(tri.b), shear.projection_exact(tri.c));
        let (u, v, w) = (area_wide(b, c), area_wide(c, a), area_wide(a, b));
        if is_one_sided_wide(u, v, w) && !u.sum(v).sum(w).equals(F64::zero()) {
            Some((weight(u, 1) + weight(v, 2) + weight(w, 4)) as u8)
        } else {
            None
        }
    } else {
        let (a, b, c) = (shear.projection(tri.a), shear.projection(tri.b), shear.projection(tri.c));
        if is_one_sided(area(b.p, c.p), area(c.p, a.p), area(a.p, b.p)) {
            Some(0)
        } else {
            None
        }
    }
}

/// The edges of the triangle are so near to parallel that their product has no digits left.
pub open spec fn is_needle(tri: Triangle) -> bool {
    let (e1, e2) = (tri.b.difference(tri.a), tri.c.difference(tri.a));
    let normal = e1.outer(e2);
    normal.inner(normal).at_most(
        projection_slack().product(projection_slack()).product(e1.inner(e1)).product(e2.inner(e2)),
    )
}

/// Where the ray meets the triangle's plane, and the normal of the winding; none
/// where the ray runs along the plane. A needle's plane is taken in double precision.
pub open spec fn plane(shear: RayShear, axis: Vec3, tri: Triangle) -> Option<(F32, Vec3)> {
    if is_needle(tri) {
        let (a, b, c) = (tri.a.doubled(), tri.b.doubled(), tri.c.doubled());
        let normal = b.difference(a).outer(c.difference(a));
        let det = axis.doubled().inner(normal).negation();
        if det.absolute().below(parallel_eps().doubled()) {
            None
        } else {
            Some(
                (
                    shear.origin_exact.difference(a).inner(normal).quotient(det).halved(),
                    normal.normalized_or_zero().halved(),
                ),
            )
        }
    } else {
        let normal = tri.b.difference(tri.a).outer(tri.c.difference(tri.a));
        let det = axis.inner(normal).negation();
        if det.absolute().below(parallel_eps()) {
            None
        } else {
            Some((shear.origin.difference(tri.a).inner(normal).quotient(det), normal.normalized_or_zero()))
        }
    }
}

/// What the triangle claims of the ray: both sides count, and a crossing behind the
/// origin keeps its negative distance.
pub open spec fn claim_of(shear: RayShear, axis: Vec3, tri: Triangle) -> Option<TriangleClaim> {
    match (containment(shear, tri), plane(shear, axis, tri)) {
        (Some(zeros), Some((t, normal))) => if !normal.equals(Vec3::zero()) && t.finite() {
            Some(TriangleClaim { t, normal, zeros })
        } else {
            None
        },
        (_, _) => None,
    }
}

fn read_containment(shear: &RayShear, tri: &Triangle) -> (zeros: Option<u8>)
    ensures
        zeros == containment(*shear, *tri),
{
    let a: Projected = shear.project(tri.a);
    let b: Projected = shear.project(tri.b);
    let c: Projected = shear.project(tri.c);
    let u: F32 = edge_area(b.p, c.p);
    let v: F32 = edge_area(c.p, a.p);
    let w: F32 = edge_area(a.p, b.p);
    let banded: bool = u.abs().le(edge_area_slack(b, c)) || v.abs().le(edge_area_slack(c, a)) || w.abs().le(
        edge_area_slack(a, b),
    );
    if banded {
        let a: (F64, F64) = shear.project_exact(tri.a);
        let b: (F64, F64) = shear.project_exact(tri.b);
        let c: (F64, F64) = shear.project_exact(tri.c);
        let u: F64 = edge_area_f64(b, c);
        let v: F64 = edge_area_f64(c, a);
        let w: F64 = edge_area_f64(a, b);
        if !(same_side_f64(u, v, w) && !u.plus(v).plus(w).same(F64::zero())) {
            return None;
        }
        let first: u8 = if u.same(F64::zero()) { 1 } else { 0 };
        let second: u8 = if v.same(F64::zero()) { 2 } else { 0 };
        let third: u8 = if w.same(F64::zero()) { 4 } else { 0 };
        Some(first + second + third)
    } else if same_side(u, v, w) {
        Some(0)
    } else {
        None
    }
}

fn read_plane(shear: &RayShear, axis: Vec3, tri: &Triangle) -> (met: Option<(F32, Vec3)>)
    ensures
        met == plane(*shear, axis, *tri),
{
    let e1: Vec3 = tri.b.minus(tri.a);
    let e2: Vec3 = tri.c.minus(tri.a);
    let normal: Vec3 = e1.cross(e2);
    let bound: F32 = projection_slack().times(projection_slack()).times(e1.dot(e1)).times(e2.dot(e2));
    if normal.dot(normal).le(bound) {
        let a: DVec3 = tri.a.to_double();
        let normal: DVec3 = tri.b.to_double().minus(a).cross(tri.c.to_double().minus(a));
        let det: F64 = axis.to_double().dot(normal).negated();
        if det.abs().lt(parallel_eps().to_double()) {
            return None;
        }
        Some(
            (
                shear.origin_exact.minus(a).dot(normal).over(det).to_single(),
                normal.normalize_or_zero().to_single(),
            ),
        )
    } else {
        let det: F32 = axis.dot(normal).negated();
        if det.abs().lt(parallel_eps()) {
            return None;
        }
        Some((shear.origin.minus(tri.a).dot(normal).over(det), normal.normalize_or_zero()))
    }
}

/// The ray against the triangle.
pub fn cross_triangle(shear: &RayShear, axis: Vec3, tri: &Triangle) -> (claim: Option<TriangleClaim>)
    ensures
        claim == claim_of(*shear, axis, *tri),
{
    let zeros: u8 = match read_containment(shear, tri) {
        Some(zeros) => zeros,
        None => {
            return None;
        },
    };
    match read_plane(shear, axis, tri) {
        Some((t, normal)) => if !normal.same(Vec3::zero()) && t.is_finite() {
            Some(TriangleClaim { t, normal, zeros })
        } else {
            None
        },
        None => None,
    }
}

/// The distance along the ray of a point on it.
pub open spec fn parameter(shear: RayShear, axis: Vec3, point: Vec3) -> F32 {
    point.difference(shear.origin).inner(axis)
}

/// Where the ray passes through the edge from `p` to `q`: the wider component divides.
pub open spec fn on_edge(shear: RayShear, p: Vec3, q: Vec3) -> Vec3 {
    let (from, to) = (shear.projection_exact(p), shear.projection_exact(q));
    let (x, y) = (to.0.difference(from.0), to.1.difference(from.1));
    let (start, span) = if y.absolute().at_most(x.absolute()) {
        (from.0, x)
    } else {
        (from.1, y)
    };
    if span.equals(F64::zero()) {
        p
    } else {
        p.sum(q.difference(p).scaled(start.negation().quotient(span).halved()))
    }
}

/// The contact on the edge between two welded vertices, read from the lower id to the higher.
pub open spec fn edge_contact(shear: RayShear, axis: Vec3, p: Vec3, i: u32, q: Vec3, j: u32) -> (Contact, F32) {
    if i <= j {
        (Contact::Edge(i, j), parameter(shear, axis, on_edge(shear, p, q)))
    } else {
        (Contact::Edge(j, i), parameter(shear, axis, on_edge(shear, q, p)))
    }
}

/// The welded feature that a claim is about, and its distance along the ray.
pub open spec fn contact(
    shear: RayShear,
    axis: Vec3,
    index: u32,
    tri: Triangle,
    welded: (u32, u32, u32),
    claim: TriangleClaim,
) -> (Contact, F32) {
    if claim.zeros == 0 {
        (Contact::Face(index), claim.t)
    } else if claim.zeros == 1 {
        edge_contact(shear, axis, tri.b, welded.1, tri.c, welded.2)
    } else if claim.zeros == 2 {
        edge_contact(shear, axis, tri.c, welded.2, tri.a, welded.0)
    } else if claim.zeros == 4 {
        edge_contact(shear, axis, tri.a, welded.0, tri.b, welded.1)
    } else if claim.zeros == 3 {
        (Contact::Vertex(welded.2), parameter(shear, axis, tri.c))
    } else if claim.zeros == 5 {
        (Contact::Vertex(welded.1), parameter(shear, axis, tri.b))
    } else {
        (Contact::Vertex(welded.0), parameter(shear, axis, tri.a))
    }
}

fn read_edge(shear: &RayShear, axis: Vec3, p: Vec3, i: u32, q: Vec3, j: u32) -> (read: (Contact, F32))
    ensures
        read == edge_contact(*shear, axis, p, i, q, j),
{
    let (low, p, high, q): (u32, Vec3, u32, Vec3) = if i <= j { (i, p, j, q) } else { (j, q, i, p) };
    let from: (F64, F64) = shear.project_exact(p);
    let to: (F64, F64) = shear.project_exact(q);
    let x: F64 = to.0.minus(from.0);
    let y: F64 = to.1.minus(from.1);
    let (start, span): (F64, F64) = if y.abs().le(x.abs()) { (from.0, x) } else { (from.1, y) };
    let point: Vec3 = if span.same(F64::zero()) {
        p
    } else {
        p.plus(q.minus(p).times(start.negated().over(span).to_single()))
    };
    (Contact::Edge(low, high), point.minus(shear.origin).dot(axis))
}

/// Names the contact and its distance.
pub fn contact_of(
    shear: &RayShear,
    axis: Vec3,
    index: u32,
    tri: &Triangle,
    welded: (u32, u32, u32),
    claim: &TriangleClaim,
) -> (read: (Contact, F32))
    ensures
        read == contact(*shear, axis, index, *tri, welded, *claim),
{
    if claim.zeros == 0 {
        (Contact::Face(index), claim.t)
    } else if claim.zeros == 1 {
        read_edge(shear, axis, tri.b, welded.1, tri.c, welded.2)
    } else if claim.zeros == 2 {
        read_edge(shear, axis, tri.c, welded.2, tri.a, welded.0)
    } else if claim.zeros == 4 {
        read_edge(shear, axis, tri.a, welded.0, tri.b, welded.1)
    } else if claim.zeros == 3 {
        (Contact::Vertex(welded.2), tri.c.minus(shear.origin).dot(axis))
    } else if claim.zeros == 5 {
        (Contact::Vertex(welded.1), tri.b.minus(shear.origin).dot(axis))
    } else {
        (Contact::Vertex(welded.0), tri.a.minus(shear.origin).dot(axis))
    }
}

/// Read from either side, a shared edge gives opposite areas: one is above zero
/// exactly where the other is below, and both are numbers or neither is.
pub proof fn law_shared_edge(p: (F32, F32), q: (F32, F32))
    ensures
        F32::zero().below(area(p, q)) <==> area(q, p).below(F32::zero()),
        area(p, q).below(F32::zero()) <==> F32::zero().below(area(q, p)),
        area(p, q).equals(F32::zero()) <==> area(q, p).equals(F32::zero()),
{
    q.0.lemma_product_commutes(p.1);
    q.1.lemma_product_commutes(p.0);
    q.0.product(p.1).lemma_difference_opposite(q.1.product(p.0));
    F32::zero().lemma_nonnegative();
}

/// The same of the exact projection.
pub proof fn law_shared_edge_exact(p: (F64, F64), q: (F64, F64))
    ensures
        F64::zero().below(area_wide(p, q)) <==> area_wide(q, p).below(F64::zero()),
        area_wide(p, q).below(F64::zero()) <==> F64::zero().below(area_wide(q, p)),
        area_wide(p, q).equals(F64::zero()) <==> area_wide(q, p).equals(F64::zero()),
{
    q.0.lemma_product_commutes(p.1);
    q.1.lemma_product_commutes(p.0);
    q.0.product(p.1).lemma_difference_opposite(q.1.product(p.0));
    F64::zero().lemma_nonnegative();
}

/// A ray near an edge that two triangles share does not fall between them: where it
/// lies on the inner side of the other four edges, or on them, one of the two holds it.
pub proof fn law_no_crack(a: (F64, F64), b: (F64, F64), c: (F64, F64), d: (F64, F64))
    requires
        F64::zero().at_most(area_wide(c, a)),
        F64::zero().at_most(area_wide(a, b)),
        F64::zero().at_most(area_wide(b, d)),
        F64::zero().at_most(area_wide(d, c)),
        !area_wide(b, c).is_nan(),
    ensures
        is_one_sided_wide(area_wide(b, c), area_wide(c, a), area_wide(a, b)) || is_one_sided_wide(
            area_wide(c, b),
            area_wide(b, d),
            area_wide(d, c),
        ),
{
    law_shared_edge_exact(b, c);
    F64::zero().lemma_nonnegative();
}

/// The same of the areas in single precision.
pub proof fn law_no_crack_single(a: (F32, F32), b: (F32, F32), c: (F32, F32), d: (F32, F32))
    requires
        F32::zero().at_most(area(c, a)),
        F32::zero().at_most(area(a, b)),
        F32::zero().at_most(area(b, d)),
        F32::zero().at_most(area(d, c)),
        !area(b, c).is_nan(),
    ensures
        is_one_sided(area(b, c), area(c, a), area(a, b)) || is_one_sided(area(c, b), area(b, d), area(d, c)),
{
    law_shared_edge(b, c);
    F32::zero().lemma_nonnegative();
}

/// An area that is not zero has the sign of the exact one, however the products
/// cancel; so an exact zero never reads as anything else.
pub proof fn law_area_sign(p: (F32, F32), q: (F32, F32))
    requires
        p.0.finite(),
        p.1.finite(),
        q.0.finite(),
        q.1.finite(),
    ensures
        F32::zero().below(area(p, q)) ==> q.0.value() * p.1.value() > q.1.value() * p.0.value(),
        area(p, q).below(F32::zero()) ==> q.0.value() * p.1.value() < q.1.value() * p.0.value(),
{
    let (x, y) = (q.0.product(p.1), q.1.product(p.0));
    F32::zero().lemma_nonnegative();
    if q.0.value() * p.1.value() <= q.1.value() * p.0.value() {
        q.0.lemma_product_monotone(p.1, q.1, p.0);
    } else {
        q.1.lemma_product_monotone(p.0, q.0, p.1);
    }
    if q.1.value() * p.0.value() <= q.0.value() * p.1.value() {
        q.1.lemma_product_monotone(p.0, q.0, p.1);
    }
    if !area(p, q).is_nan() {
        x.lemma_difference_sign(y);
    }
}

/// Every triangle on a welded edge reports one contact at one distance, whichever
/// way round it spells the edge.
pub proof fn law_edge_is_canonical(shear: RayShear, axis: Vec3, p: Vec3, i: u32, q: Vec3, j: u32)
    requires
        i != j,
    ensures
        edge_contact(shear, axis, p, i, q, j) == edge_contact(shear, axis, q, j, p, i),
{
}

/// A claim on a vertex is the same for every triangle of the fan around it: it names
/// the vertex, at the vertex's own distance.
pub proof fn law_fan_is_canonical(
    shear: RayShear,
    axis: Vec3,
    tri: Triangle,
    welded: (u32, u32, u32),
    claim: TriangleClaim,
    index: u32,
    vertex: Vec3,
    id: u32,
)
    requires
        claim.zeros == 3 && tri.c == vertex && welded.2 == id || claim.zeros == 5 && tri.b == vertex && welded.1 == id
            || claim.zeros == 6 && tri.a == vertex && welded.0 == id,
    ensures
        contact(shear, axis, index, tri, welded, claim) == (Contact::Vertex(id), parameter(shear, axis, vertex)),
{
}

} // verus!
