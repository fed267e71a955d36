//! Numbers in single precision that stand for exact ones, and what is left of that when they are
//! added and multiplied.

use crate::float::F32;
use crate::folding_single;
use crate::rounding;
use vstd::prelude::*;

verus! {

/// The number stands for `r`, which is no larger than `b`, off by at most `a` roundings of `b`.
pub open spec fn is_near(x: F32, r: real, b: real, a: real) -> bool {
    &&& x.finite()
    &&& 1real <= b
    &&& rounding::size(r) <= b
    &&& rounding::size(x.number() - r) <= a * rounding::unit() * b
}

/// A number stands for itself.
pub proof fn lemma_itself(x: F32, b: real)
    requires
        x.finite(),
        1real <= b,
        rounding::size(x.number()) <= b,
    ensures
        is_near(x, x.number(), b, 0real),
{
    let none = 0real * rounding::unit();
    assert(none == 0real) by (nonlinear_arith)
        requires none == 0real * rounding::unit();
    assert(none * b == 0real) by (nonlinear_arith)
        requires none == 0real;
}

/// A larger bound, and more roundings of it.
pub proof fn lemma_wider(x: F32, r: real, b: real, a: real, c: real, d: real)
    requires
        is_near(x, r, b, a),
        0real <= a <= d,
        b <= c,
    ensures
        is_near(x, r, c, d),
{
    folding_single::lemma_small();
    let u = rounding::unit();
    let (au, du) = (a * u, d * u);
    assert(0real <= au <= du) by (nonlinear_arith)
        requires au == a * u, du == d * u, 0real <= a <= d, u > 0real;
    assert(au * b <= au * c) by (nonlinear_arith)
        requires b <= c, au >= 0real;
    assert(au * c <= du * c) by (nonlinear_arith)
        requires au <= du, c >= 1real;
}

/// The errors of a product, before it is rounded.
proof fn lemma_product_off(x: real, r: real, b: real, e: real, y: real, s: real, c: real, f: real)
    requires
        rounding::size(r) <= b,
        rounding::size(s) <= c,
        rounding::size(x - r) <= e <= b,
        rounding::size(y - s) <= f <= c,
    ensures
        rounding::size(x * y - r * s) <= 2real * (b * f) + c * e,
        rounding::size(r * s) <= b * c,
{
    let (d, h) = (x - r, y - s);
    let (xy, rs, rh, sd, dh) = (x * y, r * s, r * h, s * d, d * h);
    assert(xy == rs + rh + sd + dh) by (nonlinear_arith)
        requires xy == x * y, rs == r * s, rh == r * h, sd == s * d, dh == d * h, x == r + d, y == s + h;
    let (bf, ce) = (b * f, c * e);
    lemma_sized(r, h, b, f);
    lemma_sized(s, d, c, e);
    lemma_sized(d, h, b, f);
    lemma_sized(r, s, b, c);
}

/// A product is no larger than the product of what its factors are no larger than.
pub proof fn lemma_sized(x: real, y: real, a: real, b: real)
    requires
        rounding::size(x) <= a,
        rounding::size(y) <= b,
    ensures
        rounding::size(x * y) <= a * b,
        rounding::size(y * x) <= a * b,
{
    let (sx, sy) = (rounding::size(x), rounding::size(y));
    let p = sx * sy;
    let ab = a * b;
    let xb = sx * b;
    assert(p <= xb) by (nonlinear_arith)
        requires p == sx * sy, xb == sx * b, sy <= b, sx >= 0real;
    assert(xb <= ab) by (nonlinear_arith)
        requires xb == sx * b, ab == a * b, sx <= a, b >= 0real;
    let xy = x * y;
    assert(xy == p || xy == -p) by (nonlinear_arith)
        requires xy == x * y, p == sx * sy, sx == x || sx == -x, sy == y || sy == -y;
    assert(p >= 0real) by (nonlinear_arith)
        requires p == sx * sy, sx >= 0real, sy >= 0real;
    assert(y * x == xy) by (nonlinear_arith)
        requires xy == x * y;
}

/// A product stands for the exact one.
pub proof fn lemma_near_product(x: F32, r: real, b: real, a: real, y: F32, s: real, c: real, d: real)
    requires
        is_near(x, r, b, a),
        is_near(y, s, c, d),
        0real <= a <= 1000real,
        0real <= d <= 1000real,
        b * c < rounding::ceiling() / 8real,
    ensures
        is_near(x.product(y), r * s, b * c, 2real * d + a + 3real),
{
    folding_single::lemma_small();
    let (u, g) = (rounding::unit(), rounding::grain());
    let (e, f) = (a * u * b, d * u * c);
    lemma_few(a, u, b, e);
    lemma_few(d, u, c, f);
    let (xn, yn) = (x.number(), y.number());
    lemma_product_off(xn, r, b, e, yn, s, c, f);
    let p = b * c;
    assert(p >= 1real) by (nonlinear_arith)
        requires p == b * c, b >= 1real, c >= 1real;
    let up = u * p;
    lemma_scaled(d, u, b, c, f, p, up);
    lemma_scaled_too(a, u, b, c, e, p, up);
    let (dup, aup) = (d * up, a * up);
    assert(b * f == dup && c * e == aup);
    let off = 2real * dup + aup;
    assert(up > 0real && 100000real * up <= p) by (nonlinear_arith)
        requires up == u * p, p >= 1real, u == 1real / 0x100_0000real;
    assert(dup <= 1000real * up) by (nonlinear_arith)
        requires dup == d * up, d <= 1000real, up > 0real;
    assert(aup <= 1000real * up) by (nonlinear_arith)
        requires aup == a * up, a <= 1000real, up > 0real;
    let xy = xn * yn;
    assert(rounding::size(xy) <= 2real * p);
    x.lemma_product_error(y);
    let sxy = rounding::size(xy);
    assert(u * sxy <= 2real * up) by (nonlinear_arith)
        requires sxy <= 2real * p, up == u * p, u > 0real;
    assert(g <= up) by {
        assert(g <= u);
        assert(u <= up) by (nonlinear_arith)
            requires up == u * p, p >= 1real, u > 0real;
    }
    let k = 2real * d + a + 3real;
    assert(k * u * p == k * up) by (nonlinear_arith)
        requires up == u * p;
    assert(k * up == 2real * dup + aup + 3real * up) by (nonlinear_arith)
        requires k == 2real * d + a + 3real, dup == d * up, aup == a * up;
}

/// A few roundings of a bound are less than the bound.
proof fn lemma_few(a: real, u: real, b: real, e: real)
    requires
        e == a * u * b,
        0real <= a <= 1000real,
        0real < u && 1000real * u <= 1real,
        1real <= b,
    ensures
        0real <= e <= b,
{
    let au = a * u;
    assert(0real <= au <= 1real) by (nonlinear_arith)
        requires au == a * u, 0real <= a <= 1000real, 0real < u, 1000real * u <= 1real;
    assert(0real <= au * b <= b) by (nonlinear_arith)
        requires 0real <= au <= 1real, b >= 1real;
}

proof fn lemma_scaled(d: real, u: real, b: real, c: real, f: real, p: real, up: real)
    requires
        f == d * u * c,
        p == b * c,
        up == u * p,
    ensures
        b * f == d * up,
{
    let du = d * u;
    assert(b * (du * c) == du * (b * c)) by (nonlinear_arith);
    assert(du * p == d * up) by (nonlinear_arith)
        requires du == d * u, up == u * p;
}

proof fn lemma_scaled_too(a: real, u: real, b: real, c: real, e: real, p: real, up: real)
    requires
        e == a * u * b,
        p == b * c,
        up == u * p,
    ensures
        c * e == a * up,
{
    let au = a * u;
    assert(c * (au * b) == au * (b * c)) by (nonlinear_arith);
    assert(au * p == a * up) by (nonlinear_arith)
        requires au == a * u, up == u * p;
}

/// A sum stands for the exact one.
pub proof fn lemma_near_sum(x: F32, r: real, b: real, a: real, y: F32, s: real, c: real, d: real)
    requires
        is_near(x, r, b, a),
        is_near(y, s, c, d),
        0real <= a <= 1000real,
        0real <= d <= 1000real,
        b + c < rounding::ceiling() / 8real,
    ensures
        is_near(x.sum(y), r + s, b + c, (if a < d { d } else { a }) + 2real),
{
    folding_single::lemma_small();
    let k = if a < d {
        d
    } else {
        a
    };
    let p = b + c;
    lemma_sum_off(x, r, b, a, y, s, c, d, k);
    x.lemma_sum_error(y);
    lemma_sum_rounded(x.number() + y.number(), x.sum(y).number(), r + s, k, p);
}

/// A difference stands for the exact one.
pub proof fn lemma_near_difference(x: F32, r: real, b: real, a: real, y: F32, s: real, c: real, d: real)
    requires
        is_near(x, r, b, a),
        is_near(y, s, c, d),
        0real <= a <= 1000real,
        0real <= d <= 1000real,
        b + c < rounding::ceiling() / 8real,
    ensures
        is_near(x.difference(y), r - s, b + c, (if a < d { d } else { a }) + 2real),
{
    folding_single::lemma_small();
    let k = if a < d {
        d
    } else {
        a
    };
    let p = b + c;
    y.lemma_opposite();
    lemma_sum_off(x, r, b, a, y, s, c, d, k);
    x.lemma_difference_error(y);
    lemma_sum_rounded(x.number() - y.number(), x.difference(y).number(), r - s, k, p);
}

/// Three products, added in order, stand for the exact sum.
pub proof fn lemma_near_inner(x: (F32, F32, F32), r: (real, real, real), b: real, a: real, y: (F32, F32, F32), s: (real, real, real), c: real, d: real)
    requires
        is_near(x.0, r.0, b, a) && is_near(x.1, r.1, b, a) && is_near(x.2, r.2, b, a),
        is_near(y.0, s.0, c, d) && is_near(y.1, s.1, c, d) && is_near(y.2, s.2, c, d),
        0real <= a <= 300real,
        0real <= d <= 300real,
        3real * (b * c) < rounding::ceiling() / 8real,
    ensures
        is_near(
            x.0.product(y.0).sum(x.1.product(y.1)).sum(x.2.product(y.2)),
            r.0 * s.0 + r.1 * s.1 + r.2 * s.2,
            3real * (b * c),
            2real * d + a + 7real,
        ),
{
    let p = b * c;
    assert(p >= 1real) by (nonlinear_arith)
        requires p == b * c, b >= 1real, c >= 1real;
    let k = 2real * d + a + 3real;
    let (p0, p1, p2) = (x.0.product(y.0), x.1.product(y.1), x.2.product(y.2));
    lemma_near_product(x.0, r.0, b, a, y.0, s.0, c, d);
    lemma_near_product(x.1, r.1, b, a, y.1, s.1, c, d);
    lemma_near_product(x.2, r.2, b, a, y.2, s.2, c, d);
    lemma_near_sum(p0, r.0 * s.0, p, k, p1, r.1 * s.1, p, k);
    lemma_near_sum(p0.sum(p1), r.0 * s.0 + r.1 * s.1, p + p, k + 2real, p2, r.2 * s.2, p, k);
}

/// Two products, one taken from the other, stand for the exact difference.
pub proof fn lemma_near_minor(x: (F32, F32), r: (real, real), b: real, a: real, y: (F32, F32), s: (real, real), c: real, d: real)
    requires
        is_near(x.0, r.0, b, a) && is_near(x.1, r.1, b, a),
        is_near(y.0, s.0, c, d) && is_near(y.1, s.1, c, d),
        0real <= a <= 200real,
        0real <= d <= 200real,
        2real * (b * c) < rounding::ceiling() / 8real,
    ensures
        is_near(
            x.0.product(y.1).difference(y.0.product(x.1)),
            r.0 * s.1 - s.0 * r.1,
            2real * (b * c),
            2real * a + 2real * d + 5real,
        ),
{
    let p = b * c;
    assert(c * b == p) by (nonlinear_arith)
        requires p == b * c;
    assert(p >= 1real) by (nonlinear_arith)
        requires p == b * c, b >= 1real, c >= 1real;
    let k = 2real * a + 2real * d + 3real;
    let (m, n) = (x.0.product(y.1), y.0.product(x.1));
    lemma_near_product(x.0, r.0, b, a, y.1, s.1, c, d);
    lemma_near_product(y.0, s.0, c, d, x.1, r.1, b, a);
    lemma_wider(m, r.0 * s.1, p, 2real * d + a + 3real, p, k);
    lemma_wider(n, s.0 * r.1, p, 2real * a + d + 3real, p, k);
    lemma_near_difference(m, r.0 * s.1, p, k, n, s.0 * r.1, p, k);
}

proof fn lemma_sum_off(x: F32, r: real, b: real, a: real, y: F32, s: real, c: real, d: real, k: real)
    requires
        is_near(x, r, b, a),
        is_near(y, s, c, d),
        0real <= a <= k,
        0real <= d <= k,
        k <= 1000real,
    ensures
        rounding::size(x.number() + y.number() - (r + s)) <= k * rounding::unit() * (b + c),
        rounding::size(x.number() - y.number() - (r - s)) <= k * rounding::unit() * (b + c),
        rounding::size(x.number() + y.number()) <= 2real * (b + c),
        rounding::size(x.number() - y.number()) <= 2real * (b + c),
{
    folding_single::lemma_small();
    let u = rounding::unit();
    lemma_wider(x, r, b, a, b, k);
    lemma_wider(y, s, c, d, c, k);
    let ku = k * u;
    let p = b + c;
    assert(ku * p == ku * b + ku * c) by (nonlinear_arith)
        requires p == b + c;
    lemma_few(k, u, b, ku * b);
    lemma_few(k, u, c, ku * c);
}

proof fn lemma_sum_rounded(q: real, z: real, t: real, k: real, p: real)
    requires
        0real <= k,
        2real <= p,
        rounding::size(q - t) <= k * rounding::unit() * p,
        rounding::size(q) <= 2real * p,
        rounding::size(z - q) <= rounding::unit() * rounding::size(q),
    ensures
        rounding::size(z - t) <= (k + 2real) * rounding::unit() * p,
{
    folding_single::lemma_small();
    let u = rounding::unit();
    let up = u * p;
    let sq = rounding::size(q);
    assert(u * sq <= 2real * up) by (nonlinear_arith)
        requires sq <= 2real * p, up == u * p, u > 0real;
    assert(k * u * p == k * up) by (nonlinear_arith)
        requires up == u * p;
    let j = k + 2real;
    assert(j * u * p == j * up) by (nonlinear_arith)
        requires up == u * p;
    assert(j * up == k * up + 2real * up) by (nonlinear_arith)
        requires j == k + 2real;
}

} // verus!
