//! Turning a vector by a quaternion, and how near the rounded turn comes to the exact one.

use crate::float::F32;
use crate::folding_single;
use crate::nearness;
use crate::rounding;
use crate::vector::{Quat, Vec3};
use vstd::prelude::*;

verus! {

/// A quaternion of exact numbers.
pub struct Turn {
    pub x: real,
    pub y: real,
    pub z: real,
    pub w: real,
}

impl Turn {
    /// Hamilton's product.
    pub open spec fn times(self, q: Turn) -> Turn {
        Turn {
            x: self.w * q.x + self.x * q.w + self.y * q.z - self.z * q.y,
            y: self.w * q.y + self.y * q.w + self.z * q.x - self.x * q.z,
            z: self.w * q.z + self.z * q.w + self.x * q.y - self.y * q.x,
            w: self.w * q.w - self.x * q.x - self.y * q.y - self.z * q.z,
        }
    }

    /// The quaternion that turns back.
    pub open spec fn back(self) -> Turn {
        Turn { x: -self.x, y: -self.y, z: -self.z, w: self.w }
    }

    /// The square of its length; one of a rotation.
    pub open spec fn square(self) -> real {
        self.x * self.x + self.y * self.y + self.z * self.z + self.w * self.w
    }

    /// The vector, as a quaternion without a scalar part, between the quaternion and the one that
    /// turns back: what a rotation makes of it.
    pub open spec fn turned(self, v: Turn) -> Turn {
        self.times(v).times(self.back())
    }
}

/// A vector as an exact quaternion.
pub open spec fn vector_of(v: Vec3) -> Turn {
    Turn { x: v.x.number(), y: v.y.number(), z: v.z.number(), w: 0real }
}

/// A rotation as an exact quaternion.
pub open spec fn turn_of(q: Quat) -> Turn {
    Turn { x: q.x.number(), y: q.y.number(), z: q.z.number(), w: q.w.number() }
}

/// A product with a part along an axis, term by term, from either side.
proof fn lemma_spread(a: real, b: real, c: real, d: real, r: real)
    ensures
        (a + b + c - d) * r == a * r + b * r + c * r - d * r,
        r * (a + b + c - d) == r * a + r * b + r * c - r * d,
{
    assert((a + b + c - d) * r == a * r + b * r + c * r - d * r) by (nonlinear_arith);
    assert(r * (a + b + c - d) == r * a + r * b + r * c - r * d) by (nonlinear_arith);
}

/// A product with a scalar part, term by term, from either side.
proof fn lemma_spread_scalar(a: real, b: real, c: real, d: real, r: real)
    ensures
        (a - b - c - d) * r == a * r - b * r - c * r - d * r,
        r * (a - b - c - d) == r * a - r * b - r * c - r * d,
{
    assert((a - b - c - d) * r == a * r - b * r - c * r - d * r) by (nonlinear_arith);
    assert(r * (a - b - c - d) == r * a - r * b - r * c - r * d) by (nonlinear_arith);
}

proof fn lemma_regrouped(p: real, q: real, r: real)
    ensures
        (p * q) * r == p * (q * r),
{
    assert((p * q) * r == p * (q * r)) by (nonlinear_arith);
}

/// The orders in which three numbers are multiplied.
proof fn lemma_orders(v: real, p: real, q: real)
    ensures
        (p * v) * q == v * (p * q),
        (q * v) * p == v * (p * q),
        q * (v * p) == v * (p * q),
        p * (v * q) == v * (p * q),
        (v * p) * q == v * (p * q),
        (v * q) * p == v * (p * q),
        v * (q * p) == v * (p * q),
{
    assert((p * v) * q == v * (p * q)) by (nonlinear_arith);
    assert((q * v) * p == v * (p * q)) by (nonlinear_arith);
    assert(q * (v * p) == v * (p * q)) by (nonlinear_arith);
    assert(p * (v * q) == v * (p * q)) by (nonlinear_arith);
    assert((v * p) * q == v * (p * q)) by (nonlinear_arith);
    assert((v * q) * p == v * (p * q)) by (nonlinear_arith);
    assert(v * (q * p) == v * (p * q)) by (nonlinear_arith);
}

proof fn lemma_nought(p: real, o: real, q: real)
    requires
        o == 0real,
    ensures
        (p * o) * q == 0real,
        p * o == 0real,
        o * p == 0real,
{
    assert(p * o == 0real) by (nonlinear_arith)
        requires o == 0real;
    assert(o * p == 0real) by (nonlinear_arith)
        requires o == 0real;
    let n = p * o;
    assert(n * q == 0real) by (nonlinear_arith)
        requires n == 0real;
}

proof fn lemma_contrary(p: real, q: real)
    ensures
        p * (-q) == -(p * q),
        (-q) * p == -(q * p),
        p * q == q * p,
{
    assert(p * (-q) == -(p * q)) by (nonlinear_arith);
    assert((-q) * p == -(q * p)) by (nonlinear_arith);
    assert(p * q == q * p) by (nonlinear_arith);
}

/// The part along an axis of a product of three, grouped either way.
proof fn lemma_associates_along(px: real, py: real, pz: real, pw: real, qx: real, qy: real, qz: real, qw: real, rx: real, ry: real, rz: real, rw: real)
    ensures
        (pw * qw - px * qx - py * qy - pz * qz) * rx
            + (pw * qx + px * qw + py * qz - pz * qy) * rw
            + (pw * qy + py * qw + pz * qx - px * qz) * rz
            - (pw * qz + pz * qw + px * qy - py * qx) * ry
            == pw * (qw * rx + qx * rw + qy * rz - qz * ry)
            + px * (qw * rw - qx * rx - qy * ry - qz * rz)
            + py * (qw * rz + qz * rw + qx * ry - qy * rx)
            - pz * (qw * ry + qy * rw + qz * rx - qx * rz),
{
    lemma_spread_scalar(pw * qw, px * qx, py * qy, pz * qz, rx);
    lemma_spread(pw * qx, px * qw, py * qz, pz * qy, rw);
    lemma_spread(pw * qy, py * qw, pz * qx, px * qz, rz);
    lemma_spread(pw * qz, pz * qw, px * qy, py * qx, ry);
    lemma_spread(qw * rx, qx * rw, qy * rz, qz * ry, pw);
    lemma_spread_scalar(qw * rw, qx * rx, qy * ry, qz * rz, px);
    lemma_spread(qw * rz, qz * rw, qx * ry, qy * rx, py);
    lemma_spread(qw * ry, qy * rw, qz * rx, qx * rz, pz);
    lemma_regrouped(pw, qw, rx);
    lemma_regrouped(px, qx, rx);
    lemma_regrouped(py, qy, rx);
    lemma_regrouped(pz, qz, rx);
    lemma_regrouped(pw, qx, rw);
    lemma_regrouped(px, qw, rw);
    lemma_regrouped(py, qz, rw);
    lemma_regrouped(pz, qy, rw);
    lemma_regrouped(pw, qy, rz);
    lemma_regrouped(py, qw, rz);
    lemma_regrouped(pz, qx, rz);
    lemma_regrouped(px, qz, rz);
    lemma_regrouped(pw, qz, ry);
    lemma_regrouped(pz, qw, ry);
    lemma_regrouped(px, qy, ry);
    lemma_regrouped(py, qx, ry);
}

/// The scalar part of a product of three, grouped either way.
proof fn lemma_associates_scalar(px: real, py: real, pz: real, pw: real, qx: real, qy: real, qz: real, qw: real, rx: real, ry: real, rz: real, rw: real)
    ensures
        (pw * qw - px * qx - py * qy - pz * qz) * rw
            - (pw * qx + px * qw + py * qz - pz * qy) * rx
            - (pw * qy + py * qw + pz * qx - px * qz) * ry
            - (pw * qz + pz * qw + px * qy - py * qx) * rz
            == pw * (qw * rw - qx * rx - qy * ry - qz * rz)
            - px * (qw * rx + qx * rw + qy * rz - qz * ry)
            - py * (qw * ry + qy * rw + qz * rx - qx * rz)
            - pz * (qw * rz + qz * rw + qx * ry - qy * rx),
{
    lemma_spread_scalar(pw * qw, px * qx, py * qy, pz * qz, rw);
    lemma_spread(pw * qx, px * qw, py * qz, pz * qy, rx);
    lemma_spread(pw * qy, py * qw, pz * qx, px * qz, ry);
    lemma_spread(pw * qz, pz * qw, px * qy, py * qx, rz);
    lemma_spread_scalar(qw * rw, qx * rx, qy * ry, qz * rz, pw);
    lemma_spread(qw * rx, qx * rw, qy * rz, qz * ry, px);
    lemma_spread(qw * ry, qy * rw, qz * rx, qx * rz, py);
    lemma_spread(qw * rz, qz * rw, qx * ry, qy * rx, pz);
    lemma_regrouped(pw, qw, rw);
    lemma_regrouped(px, qx, rw);
    lemma_regrouped(py, qy, rw);
    lemma_regrouped(pz, qz, rw);
    lemma_regrouped(pw, qx, rx);
    lemma_regrouped(px, qw, rx);
    lemma_regrouped(py, qz, rx);
    lemma_regrouped(pz, qy, rx);
    lemma_regrouped(pw, qy, ry);
    lemma_regrouped(py, qw, ry);
    lemma_regrouped(pz, qx, ry);
    lemma_regrouped(px, qz, ry);
    lemma_regrouped(pw, qz, rz);
    lemma_regrouped(pz, qw, rz);
    lemma_regrouped(px, qy, rz);
    lemma_regrouped(py, qx, rz);
}

/// Hamilton's product associates.
proof fn lemma_associates(p: Turn, q: Turn, r: Turn)
    ensures
        p.times(q).times(r) == p.times(q.times(r)),
{
    lemma_associates_along(p.x, p.y, p.z, p.w, q.x, q.y, q.z, q.w, r.x, r.y, r.z, r.w);
    lemma_associates_along(p.y, p.z, p.x, p.w, q.y, q.z, q.x, q.w, r.y, r.z, r.x, r.w);
    lemma_associates_along(p.z, p.x, p.y, p.w, q.z, q.x, q.y, q.w, r.z, r.x, r.y, r.w);
    lemma_associates_scalar(p.x, p.y, p.z, p.w, q.x, q.y, q.z, q.w, r.x, r.y, r.z, r.w);
}

/// The part along an axis of a turned vector: with the scalar part, along the quaternion's own
/// axis, and across both.
proof fn lemma_turned_along(x: real, y: real, z: real, w: real, a: real, b: real, c: real, o: real)
    requires
        o == 0real,
    ensures
        (w * o - x * a - y * b - z * c) * (-x) + (w * a + x * o + y * c - z * b) * w + (w * b + y * o + z * a - x * c) * (-z) - (w * c + z * o + x * b - y * a) * (-y)
            == a * (w * w - (x * x + y * y + z * z)) + x * ((a * x + b * y + c * z) * 2real) + (y * c - b * z) * (
        w * 2real),
{
    let (tx, ty, tz, tw) = (w * a + x * o + y * c - z * b, w * b + y * o + z * a - x * c, w * c + z * o + x * b - y * a, w * o - x * a - y * b - z * c);
    lemma_contrary(tw, x);
    lemma_contrary(ty, z);
    lemma_contrary(tz, y);
    lemma_spread_scalar(w * o, x * a, y * b, z * c, x);
    lemma_spread(w * a, x * o, y * c, z * b, w);
    lemma_spread(w * b, y * o, z * a, x * c, z);
    lemma_spread(w * c, z * o, x * b, y * a, y);
    lemma_nought(w, o, x);
    lemma_nought(x, o, w);
    lemma_nought(y, o, z);
    lemma_nought(z, o, y);
    lemma_orders(a, w, w);
    lemma_orders(a, x, x);
    lemma_orders(a, y, y);
    lemma_orders(a, z, z);
    lemma_orders(b, z, w);
    lemma_orders(b, x, y);
    lemma_orders(c, y, w);
    lemma_orders(c, x, z);
    lemma_spread_scalar(w * w, x * x, y * y, z * z, a);
    let s = a * x + b * y + c * z;
    assert(x * (s * 2real) == 2real * (x * s)) by (nonlinear_arith);
    assert(x * s == x * (a * x) + x * (b * y) + x * (c * z)) by (nonlinear_arith)
        requires s == a * x + b * y + c * z;
    let (yc, bz) = (y * c, b * z);
    assert((yc - bz) * (w * 2real) == 2real * (yc * w) - 2real * (bz * w)) by (nonlinear_arith);
    assert(w * w - (x * x + y * y + z * z) == w * w - x * x - y * y - z * z);
}

/// A turned vector has no scalar part.
proof fn lemma_turned_scalar(x: real, y: real, z: real, w: real, a: real, b: real, c: real, o: real)
    requires
        o == 0real,
    ensures
        (w * o - x * a - y * b - z * c) * w - (w * a + x * o + y * c - z * b) * (-x) - (w * b + y * o + z * a - x * c) * (-y) - (w * c + z * o + x * b - y * a) * (-z) == 0real,
{
    let (tx, ty, tz, tw) = (w * a + x * o + y * c - z * b, w * b + y * o + z * a - x * c, w * c + z * o + x * b - y * a, w * o - x * a - y * b - z * c);
    lemma_contrary(tx, x);
    lemma_contrary(ty, y);
    lemma_contrary(tz, z);
    lemma_spread_scalar(w * o, x * a, y * b, z * c, w);
    lemma_spread(w * a, x * o, y * c, z * b, x);
    lemma_spread(w * b, y * o, z * a, x * c, y);
    lemma_spread(w * c, z * o, x * b, y * a, z);
    lemma_nought(w, o, w);
    lemma_nought(x, o, x);
    lemma_nought(y, o, y);
    lemma_nought(z, o, z);
    lemma_orders(a, x, w);
    lemma_orders(a, y, z);
    lemma_orders(b, y, w);
    lemma_orders(b, x, z);
    lemma_orders(c, z, w);
    lemma_orders(c, x, y);
}

/// The turned vector, part by part.
pub proof fn lemma_turned(q: Turn, v: Turn)
    requires
        v.w == 0real,
    ensures
        ({
            let scale = q.w * q.w - (q.x * q.x + q.y * q.y + q.z * q.z);
            let along = (v.x * q.x + v.y * q.y + v.z * q.z) * 2real;
            let across = q.w * 2real;
            &&& q.turned(v).x == v.x * scale + q.x * along + (q.y * v.z - v.y * q.z) * across
            &&& q.turned(v).y == v.y * scale + q.y * along + (q.z * v.x - v.z * q.x) * across
            &&& q.turned(v).z == v.z * scale + q.z * along + (q.x * v.y - v.x * q.y) * across
            &&& q.turned(v).w == 0real
        }),
{
    lemma_turned_along(q.x, q.y, q.z, q.w, v.x, v.y, v.z, v.w);
    lemma_turned_along(q.y, q.z, q.x, q.w, v.y, v.z, v.x, v.w);
    lemma_turned_along(q.z, q.x, q.y, q.w, v.z, v.x, v.y, v.w);
    lemma_turned_scalar(q.x, q.y, q.z, q.w, v.x, v.y, v.z, v.w);
}

/// Turned, and turned back: the vector, as often as the quaternion is long to the fourth.
pub proof fn law_turning_back_undoes_turning(q: Turn, v: Turn)
    ensures
        q.turned(q.back().turned(v)) == (Turn {
            x: q.square() * q.square() * v.x,
            y: q.square() * q.square() * v.y,
            z: q.square() * q.square() * v.z,
            w: q.square() * q.square() * v.w,
        }),
{
    let b = q.back();
    let n = q.square();
    let one = Turn { x: 0real, y: 0real, z: 0real, w: n };
    assert(b.back() == q);
    assert(q.times(b) == one) by {
        lemma_contrary(q.w, q.x);
        lemma_contrary(q.w, q.y);
        lemma_contrary(q.w, q.z);
        lemma_contrary(q.y, q.z);
        lemma_contrary(q.z, q.y);
        lemma_contrary(q.x, q.z);
        lemma_contrary(q.z, q.x);
        lemma_contrary(q.x, q.y);
        lemma_contrary(q.y, q.x);
        lemma_contrary(q.x, q.x);
        lemma_contrary(q.y, q.y);
        lemma_contrary(q.z, q.z);
    }
    lemma_associates(q, b.times(v), q);
    lemma_associates(q, b, v);
    let nv = one.times(v);
    assert(q.times(b.times(v)) == nv);
    assert(q.turned(b.turned(v)) == nv.times(q).times(b));
    lemma_associates(nv, q, b);
    assert(q.turned(b.turned(v)) == nv.times(one));
    let o = 0real;
    lemma_nought(v.x, o, n);
    lemma_nought(v.y, o, n);
    lemma_nought(v.z, o, n);
    lemma_nought(v.w, o, n);
    assert(nv == (Turn { x: n * v.x, y: n * v.y, z: n * v.z, w: n * v.w }));
    lemma_nought(nv.x, o, n);
    lemma_nought(nv.y, o, n);
    lemma_nought(nv.z, o, n);
    lemma_nought(nv.w, o, n);
    lemma_twice(n, v.x);
    lemma_twice(n, v.y);
    lemma_twice(n, v.z);
    lemma_twice(n, v.w);
}

proof fn lemma_twice(n: real, x: real)
    ensures
        (n * x) * n == n * n * x,
{
    lemma_orders(x, n, n);
    let m = n * n;
    assert(m * x == x * m) by (nonlinear_arith);
}

/// The vector stands for an exact one: each part no larger than `b`, off by at most `a` roundings
/// of it.
pub open spec fn stands_for(v: Vec3, r: Turn, b: real, a: real) -> bool {
    &&& nearness::is_near(v.x, r.x, b, a)
    &&& nearness::is_near(v.y, r.y, b, a)
    &&& nearness::is_near(v.z, r.z, b, a)
}

/// A quaternion about as long as a rotation's: no part above five quarters.
pub open spec fn is_moderate(q: Quat) -> bool {
    &&& q.x.finite() && rounding::size(q.x.number()) <= 5real / 4real
    &&& q.y.finite() && rounding::size(q.y.number()) <= 5real / 4real
    &&& q.z.finite() && rounding::size(q.z.number()) <= 5real / 4real
    &&& q.w.finite() && rounding::size(q.w.number()) <= 5real / 4real
}

/// The scalar part of the square less the square of the axis.
proof fn lemma_near_scale(q: Quat)
    requires
        is_moderate(q),
    ensures
        ({
            let b = Vec3 { x: q.x, y: q.y, z: q.z };
            let t = turn_of(q);
            nearness::is_near(
                q.w.product(q.w).difference(b.inner(b)),
                t.w * t.w - (t.x * t.x + t.y * t.y + t.z * t.z),
                25real / 4real,
                9real,
            )
        }),
{
    folding_single::lemma_small();
    let e = 5real / 4real;
    let t = turn_of(q);
    let b = Vec3 { x: q.x, y: q.y, z: q.z };
    nearness::lemma_itself(q.x, e);
    nearness::lemma_itself(q.y, e);
    nearness::lemma_itself(q.z, e);
    nearness::lemma_itself(q.w, e);
    assert(e * e == 25real / 16real) by (nonlinear_arith)
        requires e == 5real / 4real;
    nearness::lemma_near_inner((q.x, q.y, q.z), (t.x, t.y, t.z), e, 0real, (q.x, q.y, q.z), (t.x, t.y, t.z), e, 0real);
    nearness::lemma_near_product(q.w, t.w, e, 0real, q.w, t.w, e, 0real);
    let ww = q.w.product(q.w);
    nearness::lemma_near_difference(
        ww,
        t.w * t.w,
        25real / 16real,
        3real,
        b.inner(b),
        t.x * t.x + t.y * t.y + t.z * t.z,
        75real / 16real,
        7real,
    );
}

/// Twice the part of a vector along the axis.
proof fn lemma_near_along(q: Quat, v: Vec3, r: Turn, size: real, a: real)
    requires
        is_moderate(q),
        stands_for(v, r, size, a),
        0real <= a <= 100real,
        size < rounding::ceiling() / 1000real,
    ensures
        ({
            let b = Vec3 { x: q.x, y: q.y, z: q.z };
            let t = turn_of(q);
            nearness::is_near(
                v.inner(b).product(F32 { bits: 0x4000_0000 }),
                (r.x * t.x + r.y * t.y + r.z * t.z) * 2real,
                15real / 2real * size,
                a + 10real,
            )
        }),
{
    let e = 5real / 4real;
    let t = turn_of(q);
    let b = Vec3 { x: q.x, y: q.y, z: q.z };
    let two = F32 { bits: 0x4000_0000 };
    nearness::lemma_itself(q.x, e);
    nearness::lemma_itself(q.y, e);
    nearness::lemma_itself(q.z, e);
    let se = size * e;
    assert(se == 5real / 4real * size) by (nonlinear_arith)
        requires se == size * e, e == 5real / 4real;
    nearness::lemma_near_inner((v.x, v.y, v.z), (r.x, r.y, r.z), size, a, (q.x, q.y, q.z), (t.x, t.y, t.z), e, 0real);
    F32::lemma_two_number();
    nearness::lemma_itself(two, 2real);
    let dot = r.x * t.x + r.y * t.y + r.z * t.z;
    nearness::lemma_near_product(v.inner(b), dot, 3real * se, a + 7real, two, 2real, 2real, 0real);
}

/// One part of a turned vector.
proof fn lemma_near_part(
    q: (F32, F32, F32),
    t: (real, real, real),
    v: (F32, F32, F32),
    r: (real, real, real),
    scale: F32,
    s: real,
    along: F32,
    l: real,
    across: F32,
    c: real,
    size: real,
    a: real,
)
    requires
        nearness::is_near(q.0, t.0, 5real / 4real, 0real),
        nearness::is_near(q.1, t.1, 5real / 4real, 0real),
        nearness::is_near(q.2, t.2, 5real / 4real, 0real),
        nearness::is_near(v.0, r.0, size, a),
        nearness::is_near(v.1, r.1, size, a),
        nearness::is_near(v.2, r.2, size, a),
        nearness::is_near(scale, s, 25real / 4real, 9real),
        nearness::is_near(along, l, 15real / 2real * size, a + 10real),
        nearness::is_near(across, c, 5real / 2real, 3real),
        0real <= a <= 50real,
        size < rounding::ceiling() / 1000real,
    ensures
        nearness::is_near(
            v.0.product(scale).sum(q.0.product(along)).sum(
                q.1.product(v.2).difference(v.1.product(q.2)).product(across),
            ),
            r.0 * s + t.0 * l + (t.1 * r.2 - r.1 * t.2) * c,
            22real * size,
            2real * a + 27real,
        ),
{
    let e = 5real / 4real;
    let es = e * size;
    assert(es == 5real / 4real * size) by (nonlinear_arith)
        requires es == e * size, e == 5real / 4real;
    let (f0, f1) = (v.0.product(scale), q.0.product(along));
    let minor = q.1.product(v.2).difference(v.1.product(q.2));
    let f2 = minor.product(across);
    let k = 25real / 4real;
    assert(size * k == 25real / 4real * size) by (nonlinear_arith)
        requires k == 25real / 4real;
    nearness::lemma_near_product(v.0, r.0, size, a, scale, s, k, 9real);
    let h = 15real / 2real * size;
    assert(e * h == 75real / 8real * size) by (nonlinear_arith)
        requires e == 5real / 4real, h == 15real / 2real * size;
    nearness::lemma_near_product(q.0, t.0, e, 0real, along, l, h, a + 10real);
    nearness::lemma_near_minor((q.1, q.2), (t.1, t.2), e, 0real, (v.1, v.2), (r.1, r.2), size, a);
    let (m, j) = (2real * es, 5real / 2real);
    assert(m * j == 25real / 4real * size) by (nonlinear_arith)
        requires m == 5real / 2real * size, j == 5real / 2real;
    nearness::lemma_near_product(minor, t.1 * r.2 - r.1 * t.2, m, 2real * a + 5real, across, c, j, 3real);
    let (b0, b1, b2) = (25real / 4real * size, 75real / 8real * size, 25real / 4real * size);
    let most = 2real * a + 23real;
    nearness::lemma_wider(f0, r.0 * s, b0, a + 21real, b0, most);
    nearness::lemma_near_sum(f0, r.0 * s, b0, most, f1, t.0 * l, b1, most);
    nearness::lemma_near_sum(
        f0.sum(f1),
        r.0 * s + t.0 * l,
        b0 + b1,
        most + 2real,
        f2,
        (t.1 * r.2 - r.1 * t.2) * c,
        b2,
        2real * a + 14real,
    );
    nearness::lemma_wider(
        f0.sum(f1).sum(f2),
        r.0 * s + t.0 * l + (t.1 * r.2 - r.1 * t.2) * c,
        b0 + b1 + b2,
        most + 4real,
        22real * size,
        most + 4real,
    );
}

/// A turned vector stands for the exact vector between the quaternion and the one that turns
/// back.
pub proof fn law_a_vector_is_turned_as_by_the_quaternion(q: Quat, v: Vec3, r: Turn, size: real, a: real)
    requires
        is_moderate(q),
        stands_for(v, r, size, a),
        r.w == 0real,
        0real <= a <= 50real,
        size < rounding::ceiling() / 1000real,
    ensures
        stands_for(q.rotated(v), turn_of(q).turned(r), 22real * size, 2real * a + 27real),
        turn_of(q).turned(r).w == 0real,
{
    folding_single::lemma_small();
    let e = 5real / 4real;
    let t = turn_of(q);
    let b = Vec3 { x: q.x, y: q.y, z: q.z };
    let two = F32 { bits: 0x4000_0000 };
    lemma_near_scale(q);
    lemma_near_along(q, v, r, size, a);
    F32::lemma_two_number();
    nearness::lemma_itself(two, 2real);
    nearness::lemma_itself(q.x, e);
    nearness::lemma_itself(q.y, e);
    nearness::lemma_itself(q.z, e);
    nearness::lemma_itself(q.w, e);
    nearness::lemma_near_product(q.w, t.w, e, 0real, two, 2real, 2real, 0real);
    lemma_turned(t, r);
    let (scale, along, across) = (
        q.w.product(q.w).difference(b.inner(b)),
        v.inner(b).product(two),
        q.w.product(two),
    );
    let s = t.w * t.w - (t.x * t.x + t.y * t.y + t.z * t.z);
    let l = (r.x * t.x + r.y * t.y + r.z * t.z) * 2real;
    let c = t.w * 2real;
    lemma_near_part(
        (q.x, q.y, q.z),
        (t.x, t.y, t.z),
        (v.x, v.y, v.z),
        (r.x, r.y, r.z),
        scale,
        s,
        along,
        l,
        across,
        c,
        size,
        a,
    );
    lemma_near_part(
        (q.y, q.z, q.x),
        (t.y, t.z, t.x),
        (v.y, v.z, v.x),
        (r.y, r.z, r.x),
        scale,
        s,
        along,
        l,
        across,
        c,
        size,
        a,
    );
    lemma_near_part(
        (q.z, q.x, q.y),
        (t.z, t.x, t.y),
        (v.z, v.x, v.y),
        (r.z, r.x, r.y),
        scale,
        s,
        along,
        l,
        across,
        c,
        size,
        a,
    );
}

/// One part of the difference between two turned vectors.
proof fn lemma_part_apart(l: (real, real, real), e: (real, real, real), t: (real, real, real), s: real, along: (real, real), c: real, off: real)
    requires
        rounding::size(l.0 - e.0) <= off,
        rounding::size(l.1 - e.1) <= off,
        rounding::size(l.2 - e.2) <= off,
        rounding::size(t.0) <= 5real / 4real,
        rounding::size(t.1) <= 5real / 4real,
        rounding::size(t.2) <= 5real / 4real,
        rounding::size(s) <= 25real / 4real,
        rounding::size(along.0 - along.1) <= 15real / 2real * off,
        rounding::size(c) <= 5real / 2real,
    ensures
        rounding::size(
            (l.0 * s + t.0 * along.0 + (t.1 * l.2 - l.1 * t.2) * c) - (e.0 * s + t.0 * along.1 + (t.1 * e.2 - e.1
                * t.2) * c),
        ) <= 22real * off,
{
    let (d0, d1, d2) = (l.0 - e.0, l.1 - e.1, l.2 - e.2);
    let da = along.0 - along.1;
    let (l0, e0) = (l.0, e.0);
    assert(d0 * s == l0 * s - e0 * s) by (nonlinear_arith)
        requires d0 == l0 - e0;
    let (t0, a0, a1) = (t.0, along.0, along.1);
    assert(t0 * da == t0 * a0 - t0 * a1) by (nonlinear_arith)
        requires da == a0 - a1;
    let (t1, l2, e2) = (t.1, l.2, e.2);
    assert(t1 * d2 == t1 * l2 - t1 * e2) by (nonlinear_arith)
        requires d2 == l2 - e2;
    let (t2, l1, e1) = (t.2, l.1, e.1);
    assert(d1 * t2 == l1 * t2 - e1 * t2) by (nonlinear_arith)
        requires d1 == l1 - e1;
    let (ml, me) = (t1 * l2 - l1 * t2, t1 * e2 - e1 * t2);
    let md = t1 * d2 - d1 * t2;
    assert(md == ml - me);
    assert(md * c == ml * c - me * c) by (nonlinear_arith)
        requires md == ml - me;
    let (k, h, j) = (25real / 4real, 5real / 4real, 5real / 2real);
    nearness::lemma_sized(d0, s, off, k);
    assert(off * k == 25real / 4real * off) by (nonlinear_arith)
        requires k == 25real / 4real;
    let w = 15real / 2real * off;
    nearness::lemma_sized(t0, da, h, w);
    assert(h * w == 75real / 8real * off) by (nonlinear_arith)
        requires h == 5real / 4real, w == 15real / 2real * off;
    nearness::lemma_sized(t1, d2, h, off);
    nearness::lemma_sized(d1, t2, off, h);
    assert(h * off == 5real / 4real * off) by (nonlinear_arith)
        requires h == 5real / 4real;
    assert(off * h == 5real / 4real * off) by (nonlinear_arith)
        requires h == 5real / 4real;
    let m = 5real / 2real * off;
    nearness::lemma_sized(md, c, m, j);
    assert(m * j == 25real / 4real * off) by (nonlinear_arith)
        requires m == 5real / 2real * off, j == 5real / 2real;
}

/// Two vectors that are close stay close when both are turned.
pub proof fn lemma_turned_apart(q: Turn, l: Turn, e: Turn, off: real)
    requires
        rounding::size(q.x) <= 5real / 4real,
        rounding::size(q.y) <= 5real / 4real,
        rounding::size(q.z) <= 5real / 4real,
        rounding::size(q.w) <= 5real / 4real,
        l.w == 0real,
        e.w == 0real,
        rounding::size(l.x - e.x) <= off,
        rounding::size(l.y - e.y) <= off,
        rounding::size(l.z - e.z) <= off,
    ensures
        rounding::size(q.turned(l).x - q.turned(e).x) <= 22real * off,
        rounding::size(q.turned(l).y - q.turned(e).y) <= 22real * off,
        rounding::size(q.turned(l).z - q.turned(e).z) <= 22real * off,
{
    lemma_turned(q, l);
    lemma_turned(q, e);
    let s = q.w * q.w - (q.x * q.x + q.y * q.y + q.z * q.z);
    let c = q.w * 2real;
    let h = 5real / 4real;
    assert(h * h == 25real / 16real) by (nonlinear_arith)
        requires h == 5real / 4real;
    nearness::lemma_sized(q.x, q.x, h, h);
    nearness::lemma_sized(q.y, q.y, h, h);
    nearness::lemma_sized(q.z, q.z, h, h);
    nearness::lemma_sized(q.w, q.w, h, h);
    let (sl, se) = (l.x * q.x + l.y * q.y + l.z * q.z, e.x * q.x + e.y * q.y + e.z * q.z);
    lemma_shifted(l.x, e.x, q.x, off);
    lemma_shifted(l.y, e.y, q.y, off);
    lemma_shifted(l.z, e.z, q.z, off);
    let along = (sl * 2real, se * 2real);
    lemma_part_apart((l.x, l.y, l.z), (e.x, e.y, e.z), (q.x, q.y, q.z), s, along, c, off);
    lemma_part_apart((l.y, l.z, l.x), (e.y, e.z, e.x), (q.y, q.z, q.x), s, along, c, off);
    lemma_part_apart((l.z, l.x, l.y), (e.z, e.x, e.y), (q.z, q.x, q.y), s, along, c, off);
}

proof fn lemma_shifted(l: real, e: real, t: real, off: real)
    requires
        rounding::size(l - e) <= off,
        rounding::size(t) <= 5real / 4real,
    ensures
        rounding::size(l * t - e * t) <= 5real / 4real * off,
{
    let d = l - e;
    let h = 5real / 4real;
    assert(d * t == l * t - e * t) by (nonlinear_arith)
        requires d == l - e;
    nearness::lemma_sized(d, t, off, h);
    assert(off * h == 5real / 4real * off) by (nonlinear_arith)
        requires h == 5real / 4real;
}

/// What turns back stands for the exact quaternion that turns back.
pub proof fn lemma_conjugate(q: Quat)
    requires
        is_moderate(q),
    ensures
        is_moderate(q.conjugate()),
        turn_of(q.conjugate()) == turn_of(q).back(),
{
    q.x.lemma_opposite();
    q.y.lemma_opposite();
    q.z.lemma_opposite();
}

} // verus!
