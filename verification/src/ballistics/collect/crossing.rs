//! Where a ray crosses a triangle: the point at the distance that is claimed lies in the triangle's
//! plane, in the collider's frame and in the world.

use crate::ballistics::collect::{self, Corridor};
use crate::ballistics::collect::pose;
use crate::ballistics::collect::triangle::{self, RayShear, Triangle};
use crate::float::F32;
use crate::folding_single;
use crate::format::Format;
use crate::nearness;
use crate::rounding;
use crate::turning::{self, Turn};
use crate::vector::{Quat, Vec3};
use vstd::arithmetic::power2::*;
use vstd::prelude::*;

verus! {

/// The exact vector from one point to another.
pub open spec fn between(p: Vec3, q: Vec3) -> Turn {
    Turn {
        x: q.x.number() - p.x.number(),
        y: q.y.number() - p.y.number(),
        z: q.z.number() - p.z.number(),
        w: 0real,
    }
}

/// The exact normal of a triangle's winding, as long as twice its area.
pub open spec fn exact_normal(tri: Triangle) -> Turn {
    let (e, f) = (between(tri.a, tri.b), between(tri.a, tri.c));
    Turn {
        x: e.y * f.z - f.y * e.z,
        y: e.z * f.x - f.z * e.x,
        z: e.x * f.y - f.x * e.y,
        w: 0real,
    }
}

/// Every part of an exact vector is no larger than `size`.
pub open spec fn is_short(v: Turn, size: real) -> bool {
    &&& rounding::size(v.x) <= size
    &&& rounding::size(v.y) <= size
    &&& rounding::size(v.z) <= size
}

pub open spec fn is_finite(v: Vec3) -> bool {
    v.x.finite() && v.y.finite() && v.z.finite()
}

/// How far the point at `t`, on the ray from `start` along `axis`, lies from the plane through
/// the origin across `normal`, times the length of the normal.
pub open spec fn height(start: Turn, axis: Turn, t: real, normal: Turn) -> real {
    (start.x + t * axis.x) * normal.x + (start.y + t * axis.y) * normal.y + (start.z + t * axis.z) * normal.z
}

/// Numbers whose difference is no larger than `b`.
proof fn lemma_apart(x: F32, y: F32, b: real)
    requires
        x.finite(),
        y.finite(),
        1real <= b < rounding::ceiling(),
        rounding::size(x.number() - y.number()) <= b,
    ensures
        nearness::is_near(x.difference(y), x.number() - y.number(), b, 1real),
{
    folding_single::lemma_small();
    x.lemma_difference_error(y);
    let u = rounding::unit();
    let s = rounding::size(x.number() - y.number());
    assert(u * s <= 1real * u * b) by (nonlinear_arith)
        requires s <= b, u > 0real;
}

/// Points no part of whose difference is larger than `b`.
pub proof fn lemma_vectors_apart(p: Vec3, q: Vec3, b: real)
    requires
        is_finite(p),
        is_finite(q),
        1real <= b < rounding::ceiling(),
        is_short(between(p, q), b),
    ensures
        turning::stands_for(q.difference(p), between(p, q), b, 1real),
{
    lemma_apart(q.x, p.x, b);
    lemma_apart(q.y, p.y, b);
    lemma_apart(q.z, p.z, b);
}

/// The normal in single precision stands for the exact one.
proof fn lemma_normal(tri: Triangle, edge: real)
    requires
        is_finite(tri.a) && is_finite(tri.b) && is_finite(tri.c),
        1real <= edge,
        2real * (edge * edge) < rounding::ceiling() / 8real,
        is_short(between(tri.a, tri.b), edge),
        is_short(between(tri.a, tri.c), edge),
    ensures
        turning::stands_for(
            tri.b.difference(tri.a).outer(tri.c.difference(tri.a)),
            exact_normal(tri),
            2real * (edge * edge),
            9real,
        ),
{
    assert(edge <= edge * edge) by (nonlinear_arith)
        requires edge >= 1real;
    lemma_vectors_apart(tri.a, tri.b, edge);
    lemma_vectors_apart(tri.a, tri.c, edge);
    let (e, f) = (tri.b.difference(tri.a), tri.c.difference(tri.a));
    let (x, y) = (between(tri.a, tri.b), between(tri.a, tri.c));
    nearness::lemma_near_minor((e.y, e.z), (x.y, x.z), edge, 1real, (f.y, f.z), (y.y, y.z), edge, 1real);
    nearness::lemma_near_minor((e.z, e.x), (x.z, x.x), edge, 1real, (f.z, f.x), (y.z, y.x), edge, 1real);
    nearness::lemma_near_minor((e.x, e.y), (x.x, x.y), edge, 1real, (f.x, f.y), (y.x, y.y), edge, 1real);
}

/// A ray that does not run along the plane is not too near to it.
proof fn lemma_eps()
    ensures
        triangle::parallel_eps().finite(),
        triangle::parallel_eps().number() >= 1real / 0x100_0000_0000real,
{
    reveal(F32::value);
    let f = Format::Single;
    lemma2_to64();
    lemma2_to64_rest();
    f.lemma_magnitude(86, 0x8c_bccc);
    assert(86 * pow2(23) + 0x8c_bccc == 0x2b8c_bccc);
    lemma_pow2_adds(23, 86);
    lemma_pow2_adds(40, 109);
    lemma_pow2_pos(86);
    lemma_pow2_pos(109);
    let p = pow2(86);
    assert(0x8c_bccc * p >= 0x80_0000 * p) by (nonlinear_arith)
        requires p > 0;
    let (v, b, g) = (triangle::parallel_eps().value() as real, pow2(109) as real, pow2(149) as real);
    let k = 0x100_0000_0000real;
    assert(v >= b && b > 0real && g == k * b);
    let r = v / g;
    assert(r >= 1real / k) by (nonlinear_arith)
        requires r == v / g, v >= b, b > 0real, g == k * b, k == 0x100_0000_0000real;
}

/// A quotient, times what it was divided by.
pub proof fn lemma_divided(t: real, x: real, y: real, u: real, g: real)
    requires
        y != 0real,
        0real < u,
        0real < g,
        rounding::size(t - x / y) <= u * rounding::size(x / y) + g,
    ensures
        rounding::size(t * y - x) <= u * rounding::size(x) + g * rounding::size(y),
{
    let r = x / y;
    assert(r * y == x) by (nonlinear_arith)
        requires r == x / y, y != 0real;
    let d = t - r;
    assert(d * y == t * y - r * y) by (nonlinear_arith)
        requires d == t - r;
    let (sr, sy, sx) = (rounding::size(r), rounding::size(y), rounding::size(x));
    let most = u * sr + g;
    nearness::lemma_sized(d, y, most, sy);
    assert(most * sy == u * (sr * sy) + g * sy) by (nonlinear_arith)
        requires most == u * sr + g;
    assert(sr * sy == sx) by {
        let p = sr * sy;
        let ry = r * y;
        assert(p == ry || p == -ry) by (nonlinear_arith)
            requires p == sr * sy, ry == r * y, sr == r || sr == -r, sy == y || sy == -y;
        assert(p >= 0real) by (nonlinear_arith)
            requires p == sr * sy, sr >= 0real, sy >= 0real;
    }
}

/// A quotient by what is not too near to zero is not too large.
pub proof fn lemma_quotient_size(x: real, y: real, most: real)
    requires
        rounding::size(x) <= most,
        rounding::size(y) >= 1real / 0x100_0000_0000real,
    ensures
        rounding::size(x / y) <= 0x100_0000_0000real * most,
{
    let r = x / y;
    let k = 0x100_0000_0000real;
    assert(r * y == x) by (nonlinear_arith)
        requires r == x / y, y != 0real;
    let (sr, sy, sx) = (rounding::size(r), rounding::size(y), rounding::size(x));
    let p = sr * sy;
    assert(p == sx) by {
        let ry = r * y;
        assert(p == ry || p == -ry) by (nonlinear_arith)
            requires p == sr * sy, ry == r * y, sr == r || sr == -r, sy == y || sy == -y;
        assert(p >= 0real) by (nonlinear_arith)
            requires p == sr * sy, sr >= 0real, sy >= 0real;
    }
    let ky = k * sy;
    assert(ky >= 1real);
    assert(sr * ky >= sr) by (nonlinear_arith)
        requires ky >= 1real, sr >= 0real;
    assert(sr * ky == k * p) by (nonlinear_arith)
        requires ky == k * sy, p == sr * sy;
}

/// The height of a point, read off the two scalar products.
pub proof fn lemma_height(start: Turn, axis: Turn, t: real, normal: Turn)
    ensures
        height(start, axis, t, normal) == (start.x * normal.x + start.y * normal.y + start.z * normal.z) + t * (
        axis.x * normal.x + axis.y * normal.y + axis.z * normal.z),
{
    lemma_risen(start.x, t, axis.x, normal.x);
    lemma_risen(start.y, t, axis.y, normal.y);
    lemma_risen(start.z, t, axis.z, normal.z);
    let (p, q, r) = (axis.x * normal.x, axis.y * normal.y, axis.z * normal.z);
    assert(t * (p + q + r) == t * p + t * q + t * r) by (nonlinear_arith);
}

proof fn lemma_risen(s: real, t: real, a: real, n: real)
    ensures
        (s + t * a) * n == s * n + t * (a * n),
{
    let ta = t * a;
    assert((s + ta) * n == s * n + ta * n) by (nonlinear_arith);
    assert(ta * n == t * (a * n)) by (nonlinear_arith)
        requires ta == t * a;
}

/// The three errors of a height: those of the two scalar products, and that of the division.
proof fn lemma_residue(x: F32, xr: real, y: F32, yr: real, t: F32, far: real, square: real)
    requires
        1real <= far,
        1real <= square,
        nearness::is_near(x, xr, 6real * (far * square), 26real),
        nearness::is_near(y, yr, 270real * square, 25real),
        y.number() != 0real,
        t.finite(),
        rounding::size(t.number() - x.number() / (-y.number())) <= rounding::unit() * rounding::size(
            x.number() / (-y.number()),
        ) + rounding::grain(),
    ensures
        rounding::size(xr + t.number() * yr) <= 7000real * rounding::unit() * square * (far + rounding::size(
            t.number(),
        )),
{
    folding_single::lemma_small();
    let (u, g) = (rounding::unit(), rounding::grain());
    let (xn, yn, tn) = (x.number(), y.number(), t.number());
    let m = -yn;
    lemma_divided(tn, xn, m, u, g);
    assert(tn * m == -(tn * yn)) by (nonlinear_arith)
        requires m == -yn;
    let (fs, us) = (far * square, u * square);
    let uf = u * fs;
    assert(26real * u * (6real * fs) == 156real * uf) by (nonlinear_arith)
        requires uf == u * fs;
    assert(25real * u * (270real * square) == 6750real * us) by (nonlinear_arith)
        requires us == u * square;
    assert(us > 0real && us <= square) by (nonlinear_arith)
        requires us == u * square, square >= 1real, u > 0real, 1000real * u <= 1real;
    assert(1000real * us <= square) by (nonlinear_arith)
        requires us == u * square, square >= 1real, u > 0real, 1000real * u <= 1real;
    assert(fs >= square) by (nonlinear_arith)
        requires fs == far * square, far >= 1real, square >= 1real;
    assert(uf >= us) by (nonlinear_arith)
        requires uf == u * fs, us == u * square, fs >= square, u > 0real;
    assert(1000real * uf <= fs) by (nonlinear_arith)
        requires uf == u * fs, fs >= 1real, u > 0real, 1000real * u <= 1real;
    let (sx, sy, st) = (rounding::size(xn), rounding::size(yn), rounding::size(tn));
    assert(sx <= 7real * fs);
    assert(u * sx <= 7real * uf) by (nonlinear_arith)
        requires sx <= 7real * fs, uf == u * fs, u > 0real;
    assert(sy <= 277real * square);
    assert(g * sy <= us) by {
        assert(1000real * g <= u);
        assert(g * sy <= g * (277real * square)) by (nonlinear_arith)
            requires sy <= 277real * square, g > 0real;
        assert(g * (277real * square) <= u * square) by (nonlinear_arith)
            requires 1000real * g <= u, square >= 1real, g > 0real;
    }
    let dy = yr - yn;
    let most = 6750real * us;
    nearness::lemma_sized(tn, dy, st, most);
    assert(tn * dy == tn * yr - tn * yn) by (nonlinear_arith)
        requires dy == yr - yn;
    let ut = us * st;
    assert(st * most == 6750real * ut) by (nonlinear_arith)
        requires most == 6750real * us, ut == us * st;
    assert(ut >= 0real) by (nonlinear_arith)
        requires ut == us * st, us > 0real, st >= 0real;
    let total = far + st;
    assert(7000real * u * square * total == 7000real * (us * total)) by (nonlinear_arith)
        requires us == u * square;
    assert(us * total == us * far + ut) by (nonlinear_arith)
        requires total == far + st, ut == us * st;
    assert(us * far == uf) by (nonlinear_arith)
        requires us == u * square, uf == u * fs, fs == far * square;
}

/// The point at the distance that a triangle claims of a ray lies in the triangle's plane, but
/// for rounding. A needle, whose plane is taken in double precision, is left aside.
pub proof fn law_a_claim_lies_in_the_plane(origin: Vec3, axis: Vec3, tri: Triangle, far: real, edge: real)
    requires
        triangle::claim_of(RayShear::sheared(origin, axis), axis, tri) is Some,
        !triangle::is_needle(tri),
        is_finite(origin),
        is_finite(tri.a) && is_finite(tri.b) && is_finite(tri.c),
        pose::is_within(axis, 45real),
        1real <= far,
        1real <= edge,
        far * (edge * edge) * 0x1000_0000_0000real < rounding::ceiling(),
        is_short(between(tri.a, tri.b), edge),
        is_short(between(tri.a, tri.c), edge),
        is_short(between(tri.a, origin), far),
    ensures
        ({
            let t = triangle::claim_of(RayShear::sheared(origin, axis), axis, tri)->0.t.number();
            rounding::size(height(between(tri.a, origin), turning::vector_of(axis), t, exact_normal(tri)))
                <= 7000real * rounding::unit() * (edge * edge) * (far + rounding::size(t))
        }),
{
    folding_single::lemma_small();
    let square = edge * edge;
    assert(square >= 1real && square >= edge) by (nonlinear_arith)
        requires square == edge * edge, edge >= 1real;
    let fs = far * square;
    assert(fs >= square && fs >= far) by (nonlinear_arith)
        requires fs == far * square, far >= 1real, square >= 1real;
    lemma_normal(tri, edge);
    lemma_vectors_apart(tri.a, origin, far);
    let normal = tri.b.difference(tri.a).outer(tri.c.difference(tri.a));
    let n = exact_normal(tri);
    let from = origin.difference(tri.a);
    let f = between(tri.a, origin);
    let two = 2real * square;
    assert(far * two == 2real * fs) by (nonlinear_arith)
        requires two == 2real * square, fs == far * square;
    nearness::lemma_near_inner((from.x, from.y, from.z), (f.x, f.y, f.z), far, 1real, (normal.x, normal.y, normal.z), (n.x, n.y, n.z), two, 9real);
    let a = turning::vector_of(axis);
    nearness::lemma_itself(axis.x, 45real);
    nearness::lemma_itself(axis.y, 45real);
    nearness::lemma_itself(axis.z, 45real);
    let wide = 45real;
    assert(wide * two == 90real * square) by (nonlinear_arith)
        requires two == 2real * square, wide == 45real;
    nearness::lemma_near_inner((axis.x, axis.y, axis.z), (a.x, a.y, a.z), wide, 0real, (normal.x, normal.y, normal.z), (n.x, n.y, n.z), two, 9real);
    let (x, y) = (from.inner(normal), axis.inner(normal));
    let (xr, yr) = (f.x * n.x + f.y * n.y + f.z * n.z, a.x * n.x + a.y * n.y + a.z * n.z);
    let det = y.negation();
    y.lemma_opposite();
    det.lemma_absolute();
    lemma_eps();
    det.absolute().lemma_order(triangle::parallel_eps());
    assert(det.absolute().number() >= triangle::parallel_eps().number());
    let most = 7real * fs;
    let u = rounding::unit();
    assert(26real * u * (6real * fs) <= fs) by (nonlinear_arith)
        requires fs >= 1real, 1000real * u <= 1real, u > 0real;
    lemma_quotient_size(x.number(), det.number(), most);
    x.lemma_quotient_error(det);
    let t = x.quotient(det);
    assert(triangle::claim_of(RayShear::sheared(origin, axis), axis, tri)->0.t == t);
    lemma_residue(x, xr, y, yr, t, far, square);
    lemma_height(f, a, t.number(), n);
}

/// One vector from another.
pub open spec fn less(u: Turn, v: Turn) -> Turn {
    Turn { x: u.x - v.x, y: u.y - v.y, z: u.z - v.z, w: u.w - v.w }
}

/// The height moves little with the start and the axis.
proof fn lemma_heights_apart(s: Turn, a: Turn, start: Turn, axis: Turn, t: real, normal: Turn, so: real, ao: real, wide: real)
    requires
        pose::is_close(s, start, so),
        pose::is_close(a, axis, ao),
        is_short(normal, wide),
    ensures
        rounding::size(height(s, a, t, normal) - height(start, axis, t, normal)) <= 3real * (so * wide)
            + rounding::size(t) * (3real * (ao * wide)),
{
    lemma_height(s, a, t, normal);
    lemma_height(start, axis, t, normal);
    lemma_moved(s.x, start.x, normal.x, so, wide);
    lemma_moved(s.y, start.y, normal.y, so, wide);
    lemma_moved(s.z, start.z, normal.z, so, wide);
    lemma_moved(a.x, axis.x, normal.x, ao, wide);
    lemma_moved(a.y, axis.y, normal.y, ao, wide);
    lemma_moved(a.z, axis.z, normal.z, ao, wide);
    let (p, q) = (
        a.x * normal.x + a.y * normal.y + a.z * normal.z,
        axis.x * normal.x + axis.y * normal.y + axis.z * normal.z,
    );
    let d = p - q;
    let st = rounding::size(t);
    let most = 3real * (ao * wide);
    nearness::lemma_sized(t, d, st, most);
    assert(t * d == t * p - t * q) by (nonlinear_arith)
        requires d == p - q;
}

proof fn lemma_moved(p: real, q: real, n: real, off: real, wide: real)
    requires
        rounding::size(p - q) <= off,
        rounding::size(n) <= wide,
    ensures
        rounding::size(p * n - q * n) <= off * wide,
{
    let d = p - q;
    nearness::lemma_sized(d, n, off, wide);
    assert(d * n == p * n - q * n) by (nonlinear_arith)
        requires d == p - q;
}

/// The point of the corridor at the distance that a triangle claims lies in the plane of the
/// triangle as it stands in the world: seen from the collider's position and turned back by its
/// rotation, it lies in the plane of the triangle in the collider's frame, but for rounding.
pub proof fn law_a_claim_lies_in_the_plane_in_the_world(
    corridor: Corridor,
    position: Vec3,
    rotation: Quat,
    tri: Triangle,
    reach: real,
    far: real,
    edge: real,
)
    requires
        collect::claim_at(collect::localized(corridor, position, rotation), tri) is Some,
        !triangle::is_needle(tri),
        turning::is_moderate(rotation),
        1real <= reach < rounding::ceiling() / 100000real,
        pose::is_within(corridor.anchor, reach),
        pose::is_within(corridor.origin, reach),
        pose::is_within(position, reach),
        pose::is_within(corridor.axis, 2real),
        is_finite(tri.a) && is_finite(tri.b) && is_finite(tri.c),
        1real <= far,
        1real <= edge,
        far * (edge * edge) * 0x1000_0000_0000real < rounding::ceiling(),
        is_short(between(tri.a, tri.b), edge),
        is_short(between(tri.a, tri.c), edge),
        is_short(between(tri.a, collect::localized(corridor, position, rotation).origin), far),
    ensures
        ({
            let back = turning::turn_of(rotation).back();
            let start = back.turned(pose::offset(corridor, position));
            let axis = back.turned(turning::vector_of(corridor.axis));
            let t = collect::claim_at(collect::localized(corridor, position, rotation), tri)->0.t.number();
            rounding::size(height(less(start, turning::vector_of(tri.a)), axis, t, exact_normal(tri))) <= rounding::unit()
                * (edge * edge) * (14000real * reach + 7000real * far + 15000real * rounding::size(t))
        }),
{
    folding_single::lemma_small();
    let ray = collect::localized(corridor, position, rotation);
    let back = turning::turn_of(rotation).back();
    let start = back.turned(pose::offset(corridor, position));
    let axis = back.turned(turning::vector_of(corridor.axis));
    let u = rounding::unit();
    pose::law_a_local_ray_turns_into_the_corridor(corridor, position, rotation, reach);
    assert(turning::stands_for(ray.axis, axis, 44real, 27real));
    assert(27real * u * 44real == 1188real * u);
    law_a_claim_lies_in_the_plane(ray.origin, ray.axis, tri, far, edge);
    let wide = 66real * reach;
    assert(35real * u * wide == 2310real * (u * reach)) by (nonlinear_arith)
        requires wide == 66real * reach;
    let t = collect::claim_at(ray, tri)->0.t.number();
    let n = exact_normal(tri);
    let square = edge * edge;
    assert(is_short(n, 2real * square)) by {
        let (e, f) = (between(tri.a, tri.b), between(tri.a, tri.c));
        nearness::lemma_sized(e.y, f.z, edge, edge);
        nearness::lemma_sized(f.y, e.z, edge, edge);
        nearness::lemma_sized(e.z, f.x, edge, edge);
        nearness::lemma_sized(f.z, e.x, edge, edge);
        nearness::lemma_sized(e.x, f.y, edge, edge);
        nearness::lemma_sized(f.x, e.y, edge, edge);
    }
    let from = less(start, turning::vector_of(tri.a));
    let local = between(tri.a, ray.origin);
    let (so, ao) = (2310real * (u * reach), 1188real * u);
    lemma_heights_apart(from, axis, local, turning::vector_of(ray.axis), t, n, so, ao, 2real * square);
    assert(square >= 1real) by (nonlinear_arith)
        requires square == edge * edge, edge >= 1real;
    lemma_gathered(u, square, reach, far, rounding::size(t));
}

proof fn lemma_gathered(u: real, square: real, reach: real, far: real, t: real)
    requires
        u > 0real,
        square >= 1real,
        reach >= 1real,
        t >= 0real,
    ensures
        7000real * u * square * (far + t) + 3real * (2310real * (u * reach) * (2real * square)) + t * (3real * (
        1188real * u * (2real * square))) <= u * square * (14000real * reach + 7000real * far + 15000real * t),
{
    let us = u * square;
    let (ur, uf, ut) = (us * reach, us * far, us * t);
    assert(7000real * u * square * (far + t) == 7000real * uf + 7000real * ut) by (nonlinear_arith)
        requires us == u * square, uf == us * far, ut == us * t;
    let r = u * reach;
    assert(2310real * r * (2real * square) == 4620real * (r * square)) by (nonlinear_arith);
    assert(r * square == ur) by (nonlinear_arith)
        requires r == u * reach, us == u * square, ur == us * reach;
    assert(1188real * u * (2real * square) == 2376real * us) by (nonlinear_arith)
        requires us == u * square;
    assert(t * (7128real * us) == 7128real * ut) by (nonlinear_arith)
        requires ut == us * t;
    assert(us > 0real) by (nonlinear_arith)
        requires us == u * square, u > 0real, square >= 1real;
    assert(ur >= 0real) by (nonlinear_arith)
        requires ur == us * reach, us > 0real, reach >= 1real;
    assert(ut >= 0real) by (nonlinear_arith)
        requires ut == us * t, us > 0real, t >= 0real;
    let total = 14000real * reach + 7000real * far + 15000real * t;
    assert(us * total == 14000real * ur + 7000real * uf + 15000real * ut) by (nonlinear_arith)
        requires total == 14000real * reach + 7000real * far + 15000real * t, ur == us * reach, uf == us * far, ut == us
            * t;
}

} // verus!
