//! The band in which a ray's side of an edge is read again is wide enough: outside
//! of it the area in single precision has the sign of the exact one.

use crate::ballistics::collect::triangle;
use crate::float::F32;
use crate::format::Format;
use crate::rounding;
use crate::vector::Vec3;
use vstd::arithmetic::power2::*;
use vstd::prelude::*;

verus! {

/// The relative error of one rounding.
spec fn u() -> real {
    1real / 0x100_0000real
}

/// `x` is no further than `bound` from zero.
spec fn within(x: real, bound: real) -> bool {
    -bound <= x <= bound
}

/// A product is no larger than the product of what bounds its factors.
proof fn lemma_product_bound(x: real, y: real, a: real, b: real)
    requires
        within(x, a),
        within(y, b),
    ensures
        within(x * y, a * b),
{
    assert(-(a * b) <= x * y <= a * b) by (nonlinear_arith)
        requires -a <= x <= a, -b <= y <= b;
}

/// The error of a rounded offset, by the rounded offset's own bound.
proof fn lemma_drift(d: real, v: real, m: real)
    requires
        within(v - d, u() * rounding::size(d)),
        within(v, m),
    ensures
        within(v - d, u() * m + 2real * (u() * (u() * m))),
{
    let far = rounding::size(d);
    assert(-(u() * m + 2real * (u() * (u() * m))) <= v - d <= u() * m + 2real * (u() * (u() * m))) by (nonlinear_arith)
        requires
            u() == 1real / 0x100_0000real,
            -(u() * far) <= v - d <= u() * far,
            -m <= v <= m,
            far == if d < 0real { -d } else { d };
}

/// The error of a rounded slope times a rounded offset.
proof fn lemma_turn(da: real, va: real, slope: real, s: real, w: real, m: real, drift: real, eta: real)
    requires
        within(va - da, drift),
        within(va, m),
        within(slope, 1real),
        within(s - slope, u() * rounding::size(slope) + eta),
        within(w - s * va, u() * rounding::size(s * va) + eta),
        0real < eta,
        eta <= u() * u(),
    ensures
        within(w - slope * da, drift + 2real * (u() * m) + 4real * (u() * (u() * m)) + eta),
        within(w, m + 3real * (u() * m) + eta),
{
    let tilt = u() + eta;
    assert(u() * rounding::size(slope) <= u()) by (nonlinear_arith)
        requires rounding::size(slope) <= 1real, u() == 1real / 0x100_0000real;
    assert(within(s - slope, tilt));
    let steep = 1real + tilt;
    assert(within(s, steep));
    lemma_product_bound(s, va, steep, m);
    lemma_product_bound(s - slope, va, tilt, m);
    lemma_product_bound(slope, va - da, 1real, drift);
    let (x, y, z) = (s * va, (s - slope) * va, slope * (va - da));
    let exact = slope * da;
    assert(x - exact == y + z) by (nonlinear_arith)
        requires x == s * va, y == (s - slope) * va, z == slope * (va - da), exact == slope * da;
    let wide = steep * m;
    let e = u() * wide + eta;
    assert(u() * rounding::size(x) <= u() * wide) by (nonlinear_arith)
        requires rounding::size(x) <= wide, u() == 1real / 0x100_0000real;
    assert(within(w - x, e));
    let um = u() * m;
    let uum = u() * um;
    assert(0real <= um && 0real <= uum && um <= m) by (nonlinear_arith)
        requires um == u() * m, uum == u() * um, m >= 0real, u() == 1real / 0x100_0000real;
    let em = eta * m;
    assert(em <= uum) by (nonlinear_arith)
        requires em == eta * m, eta <= u() * u(), um == u() * m, uum == u() * um, m >= 0real;
    assert(tilt * m == um + em && wide == m + um + em) by (nonlinear_arith)
        requires tilt == u() + eta, steep == 1real + tilt, wide == steep * m, um == u() * m, em == eta * m;
    assert(u() * wide <= um + 2real * uum && u() * wide <= um + um && 1real * drift == drift) by (nonlinear_arith)
        requires
            wide == m + um + em,
            um == u() * m,
            uum == u() * um,
            em <= uum,
            0real <= um,
            um <= m,
            u() == 1real / 0x100_0000real;
}

/// The error of one coordinate of a projection: `vk` and `va` are the rounded offsets
/// across and along, `s` the rounded slope, `w` the rounded product and `p` the
/// rounded sum.
proof fn lemma_coordinate(
    dk: real,
    da: real,
    vk: real,
    va: real,
    slope: real,
    s: real,
    w: real,
    p: real,
    m: real,
    eta: real,
)
    requires
        0real < eta,
        eta <= u() * u(),
        within(vk - dk, u() * rounding::size(dk)),
        within(va - da, u() * rounding::size(da)),
        within(vk, m),
        within(va, m),
        within(slope, 1real),
        within(s - slope, u() * rounding::size(slope) + eta),
        within(w - s * va, u() * rounding::size(s * va) + eta),
        within(p - (vk + w), u() * rounding::size(vk + w)),
    ensures
        within(p - (dk + slope * da), 7real * (u() * m) + 2real * eta),
        within(p, 3real * m + 2real * eta),
{
    lemma_drift(dk, vk, m);
    lemma_drift(da, va, m);
    let um = u() * m;
    let uum = u() * um;
    let drift = um + 2real * uum;
    lemma_turn(da, va, slope, s, w, m, drift, eta);
    let wide = m + 3real * um + eta;
    let e = u() * (m + wide);
    assert(u() * rounding::size(vk + w) <= e) by (nonlinear_arith)
        requires
            e == u() * (m + wide),
            rounding::size(vk + w) <= m + wide,
            u() == 1real / 0x100_0000real;
    assert(e <= 2real * um + 3real * uum + eta && 100real * uum <= um && 100real * um <= m && 0real <= uum) by (nonlinear_arith)
        requires
            e == u() * (m + wide),
            wide == m + 3real * um + eta,
            um == u() * m,
            uum == u() * um,
            u() == 1real / 0x100_0000real,
            m >= 0real,
            eta > 0real;
}

/// What a projection claims of its error covers it, but for a little where the vertex
/// is next to the origin.
proof fn lemma_claim(m: real, slack: real, eta: real)
    requires
        0real <= m,
        0real < eta,
        eta <= u() * u(),
        within(slack - 8real * (u() * m), u() * rounding::size(8real * (u() * m)) + eta),
    ensures
        7real * (u() * m) + 2real * eta <= 15real / 16real * slack + 4real * eta,
        2real * m >= 1real ==> 7real * (u() * m) + 2real * eta <= 15real / 16real * slack,
        slack <= m / 100real + eta,
{
    let um = u() * m;
    let e = u() * rounding::size(8real * um);
    assert(e <= um / 100real && um <= m / 1000real && 0real <= um) by (nonlinear_arith)
        requires
            um == u() * m,
            e == u() * rounding::size(8real * um),
            rounding::size(8real * um) == if 8real * um < 0real { -(8real * um) } else { 8real * um },
            m >= 0real,
            u() == 1real / 0x100_0000real;
    if 2real * m >= 1real {
        assert(eta <= um / 100real) by (nonlinear_arith)
            requires um == u() * m, eta <= u() * u(), 2real * m >= 1real, u() == 1real / 0x100_0000real;
    }
}

/// The error of a product of two points' coordinates.
proof fn lemma_spread(p: real, q: real, exact_p: real, exact_q: real, ep: real, eq: real)
    requires
        within(p - exact_p, ep),
        within(q - exact_q, eq),
    ensures
        within(q * p - exact_q * exact_p, eq * rounding::size(p) + ep * rounding::size(q) + ep * eq),
{
    let (dp, dq) = (p - exact_p, q - exact_q);
    lemma_product_bound(dq, p, eq, rounding::size(p));
    lemma_product_bound(dp, q, ep, rounding::size(q));
    lemma_product_bound(dp, dq, ep, eq);
    let (a, b, c) = (dq * p, dp * q, dp * dq);
    assert(q * p - exact_q * exact_p == a + b - c) by (nonlinear_arith)
        requires a == dq * p, b == dp * q, c == dp * dq, dp == p - exact_p, dq == q - exact_q;
}

/// The sizes of both products of an area.
spec fn bulk(p: (real, real), q: (real, real)) -> real {
    rounding::size(q.0 * p.1) + rounding::size(q.1 * p.0)
}

/// The exact area of an edge.
pub open spec fn exact_area(p: (real, real), q: (real, real)) -> real {
    q.0 * p.1 - q.1 * p.0
}

/// The error of an area: `x` and `y` are the rounded products and `a` their rounded difference.
proof fn lemma_area_error(
    p: (real, real),
    q: (real, real),
    exact_p: (real, real),
    exact_q: (real, real),
    ep: real,
    eq: real,
    x: real,
    y: real,
    a: real,
    eta: real,
)
    requires
        within(p.0 - exact_p.0, ep),
        within(p.1 - exact_p.1, ep),
        within(q.0 - exact_q.0, eq),
        within(q.1 - exact_q.1, eq),
        within(x - q.0 * p.1, u() * rounding::size(q.0 * p.1) + eta),
        within(y - q.1 * p.0, u() * rounding::size(q.1 * p.0) + eta),
        within(a - (x - y), u() * rounding::size(x - y)),
        0real < eta,
    ensures
        within(
            a - exact_area(exact_p, exact_q),
            eq * (rounding::size(p.0) + rounding::size(p.1)) + ep * (rounding::size(q.0) + rounding::size(q.1))
                + 2real * (ep * eq) + 3real * (u() * bulk(p, q)) + 3real * eta,
        ),
{
    lemma_spread(p.1, q.0, exact_p.1, exact_q.0, ep, eq);
    lemma_spread(p.0, q.1, exact_p.0, exact_q.1, ep, eq);
    let (s, t) = (q.0 * p.1, q.1 * p.0);
    let (us, ut) = (u() * rounding::size(s), u() * rounding::size(t));
    let all = bulk(p, q);
    let spread = all + us + ut + 2real * eta;
    assert(rounding::size(x - y) <= spread);
    let e = u() * rounding::size(x - y);
    assert(e <= 2real * (u() * all) + eta && us + ut == u() * all) by (nonlinear_arith)
        requires
            e == u() * rounding::size(x - y),
            rounding::size(x - y) <= spread,
            spread == all + us + ut + 2real * eta,
            us == u() * rounding::size(s),
            ut == u() * rounding::size(t),
            all == rounding::size(s) + rounding::size(t),
            rounding::size(s) >= 0real,
            rounding::size(t) >= 0real,
            eta > 0real,
            u() == 1real / 0x100_0000real;
    let (p0, p1, q0, q1) = (rounding::size(p.0), rounding::size(p.1), rounding::size(q.0), rounding::size(q.1));
    assert(eq * p0 + eq * p1 == eq * (p0 + p1) && ep * q0 + ep * q1 == ep * (q0 + q1)) by (nonlinear_arith);
}

/// A sum of two terms, each of which lost a little, loses a little more.
proof fn lemma_lost_sum(x: real, a: real, b: real, whole: real, share: real, eta: real)
    requires
        x >= (a + b) - u() * (a + b),
        a + b >= whole - share * (u() * whole) - eta,
        whole >= 0real,
        eta >= 0real,
        0real <= share,
        share <= 10real,
        a + b >= 0real,
    ensures
        x >= whole - (share + 1real) * (u() * whole) - eta,
{
    let (got, uw) = (a + b, u() * whole);
    assert(x >= whole - (share + 1real) * uw - eta) by (nonlinear_arith)
        requires
            x >= got - u() * got,
            got >= whole - share * uw - eta,
            uw == u() * whole,
            whole >= 0real,
            eta >= 0real,
            0real <= share,
            u() == 1real / 0x100_0000real;
}

/// A product with a term that lost a little.
proof fn lemma_lost_product(x: real, factor: real, a: real, whole: real, share: real, eta: real)
    requires
        x >= factor * a - u() * (factor * a) - eta,
        a >= whole - share * (u() * whole),
        factor >= 0real,
        whole >= 0real,
        0real <= share,
        share <= 10real,
    ensures
        x >= factor * whole - (share + 1real) * (u() * (factor * whole)) - eta,
{
    let fa = factor * a;
    let fw = factor * whole;
    let ufw = u() * fw;
    assert(fa >= fw - share * ufw && fw >= 0real) by (nonlinear_arith)
        requires
            fa == factor * a,
            fw == factor * whole,
            ufw == u() * fw,
            a >= whole - share * (u() * whole),
            factor >= 0real,
            whole >= 0real;
    assert(x >= fw - (share + 1real) * ufw - eta) by (nonlinear_arith)
        requires
            x >= fa - u() * fa - eta,
            fa >= fw - share * ufw,
            ufw == u() * fw,
            fw >= 0real,
            0real <= share,
            u() == 1real / 0x100_0000real;
}

/// The band is wider than the error of the area: `first`, `second` and `third` are the
/// terms of the band, `one` to `slack` its running sums, and `loss` what the claims of
/// the projections leave open.
proof fn lemma_margin(
    claims: real,
    all: real,
    first: real,
    second: real,
    third: real,
    a: real,
    b: real,
    one: real,
    two: real,
    slack: real,
    eta: real,
)
    requires
        claims == a + b,
        a >= 0real,
        b >= 0real,
        all >= 0real,
        eta > 0real,
        first >= a - 3real * (u() * a) - eta,
        second >= b - 3real * (u() * b) - eta,
        third >= 8real * (u() * all) - (u() * all) - 2real * eta,
        first >= 0real,
        second >= 0real,
        third >= 0real,
        one >= (first + second) - u() * (first + second),
        two >= (one + third) - u() * (one + third),
        slack >= (two + 0x100_0000real * eta) - u() * (two + 0x100_0000real * eta),
        one >= 0real,
        two >= 0real,
    ensures
        slack >= 15real / 16real * claims + 3real * (u() * all) + 0xff_ff00real * eta,
{
    let ua = u() * all;
    assert(first + second >= claims - claims / 1000real - 2real * eta) by (nonlinear_arith)
        requires
            first >= a - 3real * (u() * a) - eta,
            second >= b - 3real * (u() * b) - eta,
            claims == a + b,
            a >= 0real,
            b >= 0real,
            u() == 1real / 0x100_0000real;
    assert(one >= (first + second) - (first + second) / 1000real) by (nonlinear_arith)
        requires one >= (first + second) - u() * (first + second), first + second >= 0real, u() == 1real / 0x100_0000real;
    assert(two >= (one + third) - (one + third) / 1000real) by (nonlinear_arith)
        requires two >= (one + third) - u() * (one + third), one + third >= 0real, u() == 1real / 0x100_0000real;
    assert(slack >= two - two / 1000real + 0xff_ffffreal * eta) by (nonlinear_arith)
        requires
            slack >= (two + 0x100_0000real * eta) - u() * (two + 0x100_0000real * eta),
            two >= 0real,
            u() == 1real / 0x100_0000real;
    assert(ua >= 0real) by (nonlinear_arith)
        requires ua == u() * all, all >= 0real, u() == 1real / 0x100_0000real;
}

/// The grain is far below one rounding, and the ceiling far above every area.
proof fn lemma_scales()
    ensures
        rounding::unit() == u(),
        0real < rounding::grain(),
        rounding::grain() <= u() * u(),
        rounding::ceiling() >= 0x100_0000_0000_0000_0000_0000_0000_0000real,
        triangle::least_normal().number() == 0x100_0000real * rounding::grain(),
        triangle::least_normal().finite(),
        triangle::projection_slack().number() == 8real * u(),
        triangle::projection_slack().finite(),
{
    lemma2_to64();
    lemma2_to64_rest();
    lemma_pow2_adds(60, 60);
    lemma_pow2_strictly_increases(48, 150);
    lemma_pow2_pos(149);
    lemma_pow2_unfold(150);
    let (g, h) = (pow2(150) as real, pow2(149) as real);
    assert(1real / g > 0real && 1real / g <= u() * u()) by (nonlinear_arith)
        requires g > 0x1_0000_0000_0000real, u() == 1real / 0x100_0000real;
    reveal(F32::value);
    let f = Format::Single;
    let (b, c) = (0x0080_0000nat, 0x3500_0000nat);
    assert(b / pow2(23) == 1 && b % pow2(23) == 0) by (nonlinear_arith)
        requires b == 0x0080_0000, pow2(23) == 0x80_0000;
    assert(c / pow2(23) == 106 && c % pow2(23) == 0) by (nonlinear_arith)
        requires c == 0x3500_0000, pow2(23) == 0x80_0000;
    assert(pow2((1int - 1) as nat) == 1);
    assert(f.magnitude(b) == 0x80_0000);
    assert(0x80_0000real / h == 0x100_0000real * (1real / g)) by (nonlinear_arith)
        requires g == 2real * h, h > 0real;
    lemma_pow2_adds(23, 105);
    lemma_pow2_adds(128, 21);
    let k = pow2(128) as real;
    lemma_pow2_pos(128);
    assert(f.magnitude(c) == pow2(128));
    assert(h == 0x20_0000real * k) by (nonlinear_arith)
        requires pow2(149) == pow2(128) * pow2(21), pow2(21) == 0x20_0000, h == pow2(149) as real, k == pow2(128) as real;
    assert(k / h == 8real * u()) by (nonlinear_arith)
        requires h == 0x20_0000real * k, k > 0real, u() == 1real / 0x100_0000real;
}

/// Every component is a number.
pub open spec fn is_finite(v: Vec3) -> bool {
    v.x.finite() && v.y.finite() && v.z.finite()
}

/// No component lies further than `bound` from zero.
pub open spec fn is_bounded(v: Vec3, bound: real) -> bool {
    &&& rounding::size(v.x.number()) <= bound
    &&& rounding::size(v.y.number()) <= bound
    &&& rounding::size(v.z.number()) <= bound
}

/// A vertex that the band answers for: no component beyond two to the 16.
pub open spec fn is_certified(vertex: Vec3) -> bool {
    is_finite(vertex) && is_bounded(vertex, 0x1_0000real)
}

/// A ray with a direction, from an origin with no component beyond two to the 49.
pub open spec fn is_ray(origin: Vec3, axis: Vec3) -> bool {
    &&& is_finite(origin) && is_bounded(origin, 0x2_0000_0000_0000real)
    &&& is_finite(axis) && triangle::component(axis, triangle::dominant(axis)).number() != 0real
}

/// How far a vertex lies from the origin, by component.
pub open spec fn offset(origin: Vec3, vertex: Vec3, k: int) -> real {
    triangle::component(vertex, k).number() - triangle::component(origin, k).number()
}

/// Where a lateral axis leans along the ray.
pub open spec fn slope(axis: Vec3, k: int) -> real {
    -triangle::component(axis, k).number() / triangle::component(axis, triangle::dominant(axis)).number()
}

/// Where the vertex falls in the sheared frame, without any rounding.
pub open spec fn place(origin: Vec3, axis: Vec3, vertex: Vec3) -> (real, real) {
    let along = offset(origin, vertex, triangle::dominant(axis));
    let (kx, ky) = triangle::laterals(axis);
    (offset(origin, vertex, kx) + slope(axis, kx) * along, offset(origin, vertex, ky) + slope(axis, ky) * along)
}

/// A row of the shear takes two components of a vector, and rounds once at the end.
proof fn lemma_row(k: int, along: int, s: F32, v: Vec3)
    requires
        0 <= k < 3,
        0 <= along < 3,
        k != along,
        is_finite(v),
        s.finite(),
        s.product(triangle::component(v, along)).finite(),
        rounding::size(
            triangle::component(v, k).number() + s.product(triangle::component(v, along)).number(),
        ) < rounding::ceiling(),
    ensures
        ({
            let p = triangle::row(k, along, s).inner(v);
            let exact = triangle::component(v, k).number() + s.product(triangle::component(v, along)).number();
            &&& p.finite()
            &&& within(p.number() - exact, rounding::unit() * rounding::size(exact))
        }),
{
    let r = triangle::row(k, along, s);
    let (x, y, z) = (r.x.product(v.x), r.y.product(v.y), r.z.product(v.z));
    v.x.lemma_product_trivial();
    v.y.lemma_product_trivial();
    v.z.lemma_product_trivial();
    if k != 2 && along != 2 {
        x.lemma_sum_error(y);
        x.sum(y).lemma_sum_nothing(z);
    } else if k != 1 && along != 1 {
        x.lemma_sum_nothing(y);
        x.sum(y).lemma_sum_error(z);
    } else {
        y.lemma_sum_nothing(x);
        x.sum(y).lemma_sum_error(z);
    }
}

/// The largest component is as large as every other.
proof fn lemma_largest(v: Vec3)
    requires
        is_finite(v),
    ensures
        ({
            let m = v.absolute().largest();
            &&& m.finite()
            &&& m.number() >= 0real
            &&& is_bounded(v, m.number())
            &&& m.number() == rounding::size(v.x.number()) || m.number() == rounding::size(v.y.number()) || m.number()
                == rounding::size(v.z.number())
        }),
{
    let a = v.absolute();
    v.x.lemma_absolute();
    v.y.lemma_absolute();
    v.z.lemma_absolute();
    a.y.lemma_order(a.z);
    a.x.lemma_order(a.y);
    a.x.lemma_order(a.z);
}

/// The dominant component is no smaller than the others.
proof fn lemma_dominant(axis: Vec3, k: int)
    requires
        0 <= k < 3,
        is_finite(axis),
        triangle::component(axis, triangle::dominant(axis)).number() != 0real,
    ensures
        within(slope(axis, k), 1real),
{
    let along = triangle::dominant(axis);
    axis.x.lemma_absolute();
    axis.y.lemma_absolute();
    axis.z.lemma_absolute();
    let a = axis.absolute();
    a.y.lemma_order(a.x);
    a.z.lemma_order(a.x);
    a.z.lemma_order(a.y);
    let (x, run) = (triangle::component(axis, k).number(), triangle::component(axis, along).number());
    assert(rounding::size(x) <= rounding::size(run));
    assert(-1real <= (-x) / run <= 1real) by (nonlinear_arith)
        requires
            run != 0real,
            run > 0real ==> -run <= x <= run,
            run < 0real ==> run <= x <= -run;
}

/// One rounded component of an offset.
proof fn lemma_offset(a: F32, b: F32)
    requires
        a.finite(),
        b.finite(),
        within(a.number(), 0x1_0000real),
        within(b.number(), 0x2_0000_0000_0000real),
    ensures
        ({
            let (v, d) = (a.difference(b), a.number() - b.number());
            &&& v.finite()
            &&& within(v.number() - d, u() * rounding::size(d))
            &&& rounding::size(v.number()) <= 2real * rounding::size(d)
            &&& rounding::size(d) <= 2real * rounding::size(v.number())
        }),
{
    lemma_scales();
    a.lemma_difference_error(b);
    let d = a.number() - b.number();
    let e = u() * rounding::size(d);
    assert(e <= rounding::size(d) / 2real) by (nonlinear_arith)
        requires e == u() * rounding::size(d), rounding::size(d) >= 0real, u() == 1real / 0x100_0000real;
}

/// One rounded coordinate of a projection, of a vertex whose rounded offset is `v`.
proof fn lemma_coordinate_error(origin: Vec3, axis: Vec3, vertex: Vec3, k: int)
    requires
        0 <= k < 3,
        k != triangle::dominant(axis),
        is_ray(origin, axis),
        is_certified(vertex),
    ensures
        ({
            let along = triangle::dominant(axis);
            let v = vertex.difference(origin);
            let m = v.absolute().largest().number();
            let s = triangle::component(axis, k).negation().quotient(triangle::component(axis, along));
            let p = triangle::row(k, along, s).inner(v);
            let exact = offset(origin, vertex, k) + slope(axis, k) * offset(origin, vertex, along);
            &&& is_finite(v)
            &&& p.finite()
            &&& within(p.number() - exact, 7real * (u() * m) + 2real * rounding::grain())
            &&& within(p.number(), 3real * m + 2real * rounding::grain())
        }),
{
    let along = triangle::dominant(axis);
    let v = vertex.difference(origin);
    lemma_scales();
    lemma_offset(vertex.x, origin.x);
    lemma_offset(vertex.y, origin.y);
    lemma_offset(vertex.z, origin.z);
    lemma_largest(v);
    let m = v.absolute().largest().number();
    assert(m <= 0x8_0000_0000_0000real);
    let (x, run) = (triangle::component(axis, k), triangle::component(axis, along));
    x.lemma_opposite();
    lemma_dominant(axis, k);
    x.negation().lemma_quotient_error(run);
    let s = x.negation().quotient(run);
    let (vk, va) = (triangle::component(v, k), triangle::component(v, along));
    let exact = slope(axis, k);
    let eta = rounding::grain();
    assert(within(s.number(), 2real)) by {
        assert(u() * rounding::size(exact) <= u() && u() * u() < 1real && u() < 1real / 4real) by (nonlinear_arith)
            requires rounding::size(exact) <= 1real, u() == 1real / 0x100_0000real;
        assert(u() * u() < 1real / 4real) by (nonlinear_arith)
            requires u() == 1real / 0x100_0000real;
    }
    lemma_product_bound(s.number(), va.number(), 2real, m);
    s.lemma_product_error(va);
    let w = s.product(va);
    assert(within(w.number(), 5real * m + 1real)) by {
        let t = s.number() * va.number();
        assert(u() * rounding::size(t) <= m && u() * u() < 1real) by (nonlinear_arith)
            requires rounding::size(t) <= 2real * m, m >= 0real, u() == 1real / 0x100_0000real;
    }
    lemma_row(k, along, s, v);
    let p = triangle::row(k, along, s).inner(v);
    lemma_coordinate(
        offset(origin, vertex, k),
        offset(origin, vertex, along),
        vk.number(),
        va.number(),
        exact,
        s.number(),
        w.number(),
        p.number(),
        m,
        eta,
    );
}

/// What the claim of a projection leaves open, of a vertex next to the origin.
spec fn leak(m: real) -> real {
    if 2real * m >= 1real {
        0real
    } else {
        4real * rounding::grain()
    }
}

/// The size of the rounded offset of a vertex.
spec fn reach(origin: Vec3, vertex: Vec3) -> real {
    vertex.difference(origin).absolute().largest().number()
}

/// A projection lies within its claim of the exact place.
proof fn lemma_projected(origin: Vec3, axis: Vec3, vertex: Vec3)
    requires
        is_ray(origin, axis),
        is_certified(vertex),
    ensures
        ({
            let pr = triangle::RayShear::sheared(origin, axis).projection(vertex);
            let exact = place(origin, axis, vertex);
            let m = reach(origin, vertex);
            let e = 15real / 16real * pr.slack.number() + leak(m);
            &&& pr.p.0.finite() && pr.p.1.finite() && pr.slack.finite()
            &&& 0real <= pr.slack.number() <= m / 100real + rounding::grain()
            &&& within(pr.p.0.number() - exact.0, e)
            &&& within(pr.p.1.number() - exact.1, e)
            &&& within(pr.p.0.number(), 3real * m + 2real * rounding::grain())
            &&& within(pr.p.1.number(), 3real * m + 2real * rounding::grain())
            &&& 0real <= m <= 0x8_0000_0000_0000real
            &&& is_bounded(origin, 0x1_0001real) ==> m <= 0x4_0002real
            &&& !is_bounded(origin, 0x1_0001real) ==> 2real * m >= 1real
        }),
{
    let (kx, ky) = triangle::laterals(axis);
    lemma_scales();
    lemma_coordinate_error(origin, axis, vertex, kx);
    lemma_coordinate_error(origin, axis, vertex, ky);
    let v = vertex.difference(origin);
    lemma_offset(vertex.x, origin.x);
    lemma_offset(vertex.y, origin.y);
    lemma_offset(vertex.z, origin.z);
    lemma_largest(v);
    let big = v.absolute().largest();
    let m = big.number();
    let claim = triangle::projection_slack();
    assert(claim.number() * m == 8real * (u() * m)) by (nonlinear_arith)
        requires claim.number() == 8real * u();
    assert(u() * m <= m && 0real <= u() * m) by (nonlinear_arith)
        requires m >= 0real, u() == 1real / 0x100_0000real;
    claim.lemma_product_error(big);
    let slack = claim.product(big);
    lemma_claim(m, slack.number(), rounding::grain());
    let zero = F32::zero();
    zero.lemma_nonnegative();
    zero.lemma_product_trivial();
    claim.lemma_order(zero);
    big.lemma_order(zero);
    assert(zero.value() * zero.value() <= claim.value() * big.value()) by (nonlinear_arith)
        requires zero.value() == 0, claim.value() >= 0, big.value() >= 0;
    zero.lemma_product_monotone(zero, claim, big);
    slack.lemma_order(zero);
}

/// A projection of finite numbers far below the ceiling.
spec fn is_moderate(p: triangle::Projected) -> bool {
    &&& p.p.0.finite() && p.p.1.finite() && p.slack.finite()
    &&& within(p.p.0.number(), 0x20_0000_0000_0000real)
    &&& within(p.p.1.number(), 0x20_0000_0000_0000real)
    &&& 0real <= p.slack.number() <= 0x20_0000_0000_0000real
}

/// The coordinates of a projection.
spec fn at(p: triangle::Projected) -> (real, real) {
    (p.p.0.number(), p.p.1.number())
}

/// How far a point lies from zero in both coordinates together.
spec fn girth(p: (real, real)) -> real {
    rounding::size(p.0) + rounding::size(p.1)
}

/// A sum of numbers that are not below zero.
proof fn lemma_sum_floor(a: F32, b: F32)
    requires
        a.finite(),
        b.finite(),
        0real <= a.number(),
        0real <= b.number(),
        a.number() + b.number() < rounding::ceiling() / 2real,
    ensures
        a.sum(b).finite(),
        a.sum(b).number() >= (a.number() + b.number()) - u() * (a.number() + b.number()),
        0real <= a.sum(b).number() <= 2real * (a.number() + b.number()),
{
    lemma_scales();
    a.lemma_sum_error(b);
    let t = a.number() + b.number();
    assert(0real <= u() * t <= t) by (nonlinear_arith)
        requires t >= 0real, u() == 1real / 0x100_0000real;
}

/// A product of numbers that are not below zero.
proof fn lemma_product_floor(a: F32, b: F32)
    requires
        a.finite(),
        b.finite(),
        0real <= a.number(),
        0real <= b.number(),
        a.number() * b.number() < rounding::ceiling() / 2real,
    ensures
        a.product(b).finite(),
        a.product(b).number() >= a.number() * b.number() - u() * (a.number() * b.number()) - rounding::grain(),
        0real <= a.product(b).number() <= 2real * (a.number() * b.number()) + 1real,
{
    lemma_scales();
    let t = a.number() * b.number();
    assert(t >= 0real) by (nonlinear_arith)
        requires t == a.number() * b.number(), a.number() >= 0real, b.number() >= 0real;
    a.lemma_product_error(b);
    assert(0real <= u() * t <= t && u() * u() < 1real) by (nonlinear_arith)
        requires t >= 0real, u() == 1real / 0x100_0000real;
    let zero = F32::zero();
    zero.lemma_nonnegative();
    zero.lemma_product_trivial();
    a.lemma_order(zero);
    b.lemma_order(zero);
    assert(zero.value() * zero.value() <= a.value() * b.value()) by (nonlinear_arith)
        requires zero.value() == 0, a.value() >= 0, b.value() >= 0;
    zero.lemma_product_monotone(zero, a, b);
    a.product(b).lemma_order(zero);
}

/// The first two terms of the band: the claims of both projections, spread over the points.
proof fn lemma_claims(p: triangle::Projected, q: triangle::Projected)
    requires
        is_moderate(p),
        is_moderate(q),
    ensures
        ({
            let (px, py, qx, qy) = (p.p.0.absolute(), p.p.1.absolute(), q.p.0.absolute(), q.p.1.absolute());
            let (sp, sq) = (p.slack.number(), q.slack.number());
            let first = q.slack.product(px.sum(py).sum((F32 { bits: 0x4000_0000 }).product(p.slack)));
            let second = p.slack.product(qx.sum(qy));
            let (a, b) = (sq * (girth(at(p)) + 2real * sp), sp * girth(at(q)));
            &&& first.finite() && second.finite()
            &&& a >= 0real && b >= 0real
            &&& first.number() >= a - 3real * (u() * a) - rounding::grain()
            &&& second.number() >= b - 3real * (u() * b) - rounding::grain()
            &&& 0real <= first.number() <= 0x100_0000_0000_0000_0000_0000_0000_0000real / 64real
            &&& 0real <= second.number() <= 0x100_0000_0000_0000_0000_0000_0000_0000real / 64real
        }),
{
    let (px, py, qx, qy) = (p.p.0.absolute(), p.p.1.absolute(), q.p.0.absolute(), q.p.1.absolute());
    let (sp, sq) = (p.slack.number(), q.slack.number());
    lemma_scales();
    p.p.0.lemma_absolute();
    p.p.1.lemma_absolute();
    q.p.0.lemma_absolute();
    q.p.1.lemma_absolute();
    let eta = rounding::grain();
    let (n, k) = (girth(at(p)), girth(at(q)));
    let two = (F32 { bits: 0x4000_0000 }).product(p.slack);
    p.slack.lemma_doubling();
    lemma_sum_floor(px, py);
    lemma_sum_floor(px.sum(py), two);
    let inner = px.sum(py).sum(two);
    let whole = n + 2real * sp;
    assert(px.sum(py).number() + two.number() >= whole - 1real * (u() * whole)) by {
        assert(u() * whole >= u() * n && 1real * (u() * whole) == u() * whole) by (nonlinear_arith)
            requires whole == n + 2real * sp, sp >= 0real, u() == 1real / 0x100_0000real;
    }
    lemma_lost_sum(inner.number(), px.sum(py).number(), two.number(), whole, 1real, 0real);
    assert(inner.number() <= 0x400_0000_0000_0000real);
    lemma_product_bound(sq, inner.number(), 0x20_0000_0000_0000real, 0x400_0000_0000_0000real);
    lemma_product_floor(q.slack, inner);
    lemma_lost_product(q.slack.product(inner).number(), sq, inner.number(), whole, 2real, eta);
    lemma_sum_floor(qx, qy);
    let outer = qx.sum(qy);
    assert(1real * (u() * k) == u() * k);
    lemma_product_bound(sp, outer.number(), 0x20_0000_0000_0000real, 0x400_0000_0000_0000real);
    lemma_product_floor(p.slack, outer);
    lemma_lost_product(p.slack.product(outer).number(), sp, outer.number(), k, 1real, eta);
    let b = sp * k;
    assert(sq * whole >= 0real && b >= 0real) by (nonlinear_arith)
        requires b == sp * k, sp >= 0real, sq >= 0real, whole >= 0real, k >= 0real;
    assert(u() * b >= 0real) by (nonlinear_arith)
        requires b >= 0real, u() == 1real / 0x100_0000real;
}

/// The third term of the band: the rounding of the area's own products.
proof fn lemma_products(p: triangle::Projected, q: triangle::Projected)
    requires
        is_moderate(p),
        is_moderate(q),
    ensures
        ({
            let (px, py, qx, qy) = (p.p.0.absolute(), p.p.1.absolute(), q.p.0.absolute(), q.p.1.absolute());
            let third = triangle::projection_slack().product(qx.product(py).sum(qy.product(px)));
            let all = bulk(at(p), at(q));
            &&& third.finite()
            &&& third.number() >= 8real * (u() * all) - u() * all - 2real * rounding::grain()
            &&& 0real <= third.number() <= 0x100_0000_0000_0000_0000_0000_0000_0000real / 64real
        }),
{
    let (px, py, qx, qy) = (p.p.0.absolute(), p.p.1.absolute(), q.p.0.absolute(), q.p.1.absolute());
    lemma_scales();
    p.p.0.lemma_absolute();
    p.p.1.lemma_absolute();
    q.p.0.lemma_absolute();
    q.p.1.lemma_absolute();
    let eta = rounding::grain();
    let top = 0x20_0000_0000_0000real;
    lemma_product_bound(qx.number(), py.number(), top, top);
    lemma_product_bound(qy.number(), px.number(), top, top);
    lemma_product_floor(qx, py);
    lemma_product_floor(qy, px);
    let (x, y) = (qx.product(py), qy.product(px));
    let (s, t) = (qx.number() * py.number(), qy.number() * px.number());
    assert(s == rounding::size(q.p.0.number() * p.p.1.number()) && t == rounding::size(
        q.p.1.number() * p.p.0.number(),
    )) by {
        lemma_size_product(q.p.0.number(), p.p.1.number());
        lemma_size_product(q.p.1.number(), p.p.0.number());
    }
    let all = s + t;
    lemma_sum_floor(x, y);
    let sum = x.sum(y);
    let claim = triangle::projection_slack();
    assert(sum.number() >= all - 2real * (u() * all) - 2real * eta) by (nonlinear_arith)
        requires
            sum.number() >= (x.number() + y.number()) - u() * (x.number() + y.number()),
            x.number() >= s - u() * s - eta,
            y.number() >= t - u() * t - eta,
            all == s + t,
            all >= 0real,
            eta > 0real,
            u() == 1real / 0x100_0000real;
    lemma_product_bound(claim.number(), sum.number(), 1real, 0x100_0000_0000_0000_0000_0000_0000_0000real / 1024real);
    lemma_product_floor(claim, sum);
    let third = claim.product(sum);
    let n = sum.number();
    assert(third.number() >= 8real * (u() * all) - u() * all - 2real * eta) by (nonlinear_arith)
        requires
            third.number() >= claim.number() * n - u() * (claim.number() * n) - eta,
            claim.number() == 8real * u(),
            n >= all - 2real * (u() * all) - 2real * eta,
            n >= 0real,
            all >= 0real,
            eta > 0real,
            u() == 1real / 0x100_0000real;
}

/// The size of a product is the product of the sizes.
proof fn lemma_size_product(x: real, y: real)
    ensures
        rounding::size(x * y) == rounding::size(x) * rounding::size(y),
{
    assert(x >= 0real && y >= 0real ==> x * y >= 0real) by (nonlinear_arith);
    assert(x < 0real && y < 0real ==> x * y >= 0real && (-x) * (-y) == x * y) by (nonlinear_arith);
    assert(x < 0real && y >= 0real ==> x * y <= 0real && (-x) * y == -(x * y)) by (nonlinear_arith);
    assert(x >= 0real && y < 0real ==> x * y <= 0real && x * (-y) == -(x * y)) by (nonlinear_arith);
}

/// The band is a number, and wider than its parts.
proof fn lemma_band_floor(p: triangle::Projected, q: triangle::Projected)
    requires
        is_moderate(p),
        is_moderate(q),
    ensures
        ({
            let (sp, sq) = (p.slack.number(), q.slack.number());
            let slack = triangle::area_slack(p, q);
            &&& slack.finite()
            &&& slack.number() >= 15real / 16real * (sq * (girth(at(p)) + 2real * sp) + sp * girth(at(q))) + 3real * (u()
                * bulk(at(p), at(q))) + 0xff_ff00real * rounding::grain()
        }),
{
    let (px, py, qx, qy) = (p.p.0.absolute(), p.p.1.absolute(), q.p.0.absolute(), q.p.1.absolute());
    let (sp, sq) = (p.slack.number(), q.slack.number());
    lemma_scales();
    lemma_claims(p, q);
    lemma_products(p, q);
    let first = q.slack.product(px.sum(py).sum((F32 { bits: 0x4000_0000 }).product(p.slack)));
    let second = p.slack.product(qx.sum(qy));
    let third = triangle::projection_slack().product(qx.product(py).sum(qy.product(px)));
    let least = triangle::least_normal();
    lemma_sum_floor(first, second);
    lemma_sum_floor(first.sum(second), third);
    assert(least.number() <= 1real) by (nonlinear_arith)
        requires
            least.number() == 0x100_0000real * rounding::grain(),
            rounding::grain() <= u() * u(),
            u() == 1real / 0x100_0000real;
    lemma_sum_floor(first.sum(second).sum(third), least);
    let (a, b) = (sq * (girth(at(p)) + 2real * sp), sp * girth(at(q)));
    lemma_margin(
        a + b,
        bulk(at(p), at(q)),
        first.number(),
        second.number(),
        third.number(),
        a,
        b,
        first.sum(second).number(),
        first.sum(second).sum(third).number(),
        triangle::area_slack(p, q).number(),
        rounding::grain(),
    );
}

/// The area is a number, and its error is bounded by the errors of the points.
proof fn lemma_area(
    p: triangle::Projected,
    q: triangle::Projected,
    exact_p: (real, real),
    exact_q: (real, real),
    ep: real,
    eq: real,
)
    requires
        is_moderate(p),
        is_moderate(q),
        within(p.p.0.number() - exact_p.0, ep),
        within(p.p.1.number() - exact_p.1, ep),
        within(q.p.0.number() - exact_q.0, eq),
        within(q.p.1.number() - exact_q.1, eq),
    ensures
        triangle::area(p.p, q.p).finite(),
        within(
            triangle::area(p.p, q.p).number() - exact_area(exact_p, exact_q),
            eq * girth(at(p)) + ep * girth(at(q)) + 2real * (ep * eq) + 3real * (u() * bulk(at(p), at(q))) + 3real
                * rounding::grain(),
        ),
{
    lemma_scales();
    let top = 0x20_0000_0000_0000real;
    lemma_product_bound(q.p.0.number(), p.p.1.number(), top, top);
    lemma_product_bound(q.p.1.number(), p.p.0.number(), top, top);
    q.p.0.lemma_product_error(p.p.1);
    q.p.1.lemma_product_error(p.p.0);
    let (x, y) = (q.p.0.product(p.p.1), q.p.1.product(p.p.0));
    let (s, t) = (rounding::size(q.p.0.number() * p.p.1.number()), rounding::size(q.p.1.number() * p.p.0.number()));
    assert(u() * s <= s && u() * t <= t && u() * u() < 1real) by (nonlinear_arith)
        requires s >= 0real, t >= 0real, u() == 1real / 0x100_0000real;
    x.lemma_difference_error(y);
    lemma_area_error(
        at(p),
        at(q),
        exact_p,
        exact_q,
        ep,
        eq,
        x.number(),
        y.number(),
        triangle::area(p.p, q.p).number(),
        rounding::grain(),
    );
}

/// The parts of an area's error, those that the claims cover apart from those that they leave open.
proof fn lemma_parts(np: real, nq: real, sp: real, sq: real, tp: real, tq: real)
    requires
        sp >= 0real,
        sq >= 0real,
    ensures
        ({
            let (cp, cq) = (15real / 16real * sp, 15real / 16real * sq);
            let rest = tq * np + tp * nq + 2real * (tq * cp + tp * cq + tq * tp);
            (cq + tq) * np + (cp + tp) * nq + 2real * ((cp + tp) * (cq + tq)) <= 15real / 16real * (sq * (np + 2real
                * sp) + sp * nq) + rest
        }),
{
    let (cp, cq) = (15real / 16real * sp, 15real / 16real * sq);
    let (x, y, z) = (sq * np, sp * nq, sp * sq);
    assert((cq + tq) * np == 15real / 16real * x + tq * np) by (nonlinear_arith)
        requires cq == 15real / 16real * sq, x == sq * np;
    assert((cp + tp) * nq == 15real / 16real * y + tp * nq) by (nonlinear_arith)
        requires cp == 15real / 16real * sp, y == sp * nq;
    assert((cp + tp) * (cq + tq) == cp * cq + tq * cp + tp * cq + tq * tp) by (nonlinear_arith);
    assert(cp * cq == 225real / 256real * z) by (nonlinear_arith)
        requires cp == 15real / 16real * sp, cq == 15real / 16real * sq, z == sp * sq;
    assert(z >= 0real) by (nonlinear_arith)
        requires z == sp * sq, sp >= 0real, sq >= 0real;
    assert(sq * (np + 2real * sp) == x + 2real * z) by (nonlinear_arith)
        requires x == sq * np, z == sp * sq;
}

/// What the claims leave open is far below the least normal number, next to the origin.
proof fn lemma_rest(np: real, nq: real, cp: real, cq: real, tp: real, tq: real, t: real, eta: real)
    requires
        t == 4real * eta,
        0real < eta,
        eta <= 1real / 1000real,
        0real <= tp <= t,
        0real <= tq <= t,
        0real <= np <= 0x18_0020real,
        0real <= nq <= 0x18_0020real,
        0real <= cp <= 0xa40real,
        0real <= cq <= 0xa40real,
    ensures
        tq * np + tp * nq + 2real * (tq * cp + tp * cq + tq * tp) <= 0xff_f000real * eta,
{
    lemma_product_bound(tq, np, t, 0x18_0020real);
    lemma_product_bound(tp, nq, t, 0x18_0020real);
    lemma_product_bound(tq, cp, t, 0xa40real);
    lemma_product_bound(tp, cq, t, 0xa40real);
    lemma_product_bound(tq, tp, t, 1real);
}

/// What the claims leave open of an area.
spec fn open_part(np: real, nq: real, sp: real, sq: real, tp: real, tq: real) -> real {
    let (cp, cq) = (15real / 16real * sp, 15real / 16real * sq);
    tq * np + tp * nq + 2real * (tq * cp + tp * cq + tq * tp)
}

/// An area lies in its band where the claims leave little enough open.
proof fn lemma_covered(
    p: triangle::Projected,
    q: triangle::Projected,
    exact_p: (real, real),
    exact_q: (real, real),
    tp: real,
    tq: real,
)
    requires
        is_moderate(p),
        is_moderate(q),
        within(p.p.0.number() - exact_p.0, 15real / 16real * p.slack.number() + tp),
        within(p.p.1.number() - exact_p.1, 15real / 16real * p.slack.number() + tp),
        within(q.p.0.number() - exact_q.0, 15real / 16real * q.slack.number() + tq),
        within(q.p.1.number() - exact_q.1, 15real / 16real * q.slack.number() + tq),
        open_part(girth(at(p)), girth(at(q)), p.slack.number(), q.slack.number(), tp, tq) <= 0xff_f000real
            * rounding::grain(),
    ensures
        triangle::area(p.p, q.p).finite(),
        triangle::area_slack(p, q).finite(),
        within(
            triangle::area(p.p, q.p).number() - exact_area(exact_p, exact_q),
            triangle::area_slack(p, q).number(),
        ),
{
    let (sp, sq) = (p.slack.number(), q.slack.number());
    let (ep, eq) = (15real / 16real * sp + tp, 15real / 16real * sq + tq);
    let (np, nq) = (girth(at(p)), girth(at(q)));
    let eta = rounding::grain();
    let all = u() * bulk(at(p), at(q));
    let gap = triangle::area(p.p, q.p).number() - exact_area(exact_p, exact_q);
    let slack = triangle::area_slack(p, q).number();
    assert(0real < eta) by {
        lemma_scales();
    }
    let error = eq * np + ep * nq + 2real * (ep * eq);
    let claims = sq * (np + 2real * sp) + sp * nq;
    let rest = open_part(np, nq, sp, sq, tp, tq);
    assert(triangle::area(p.p, q.p).finite() && within(gap, error + 3real * all + 3real * eta)) by {
        lemma_area(p, q, exact_p, exact_q, ep, eq);
    }
    assert(triangle::area_slack(p, q).finite() && slack >= 15real / 16real * claims + 3real * all + 0xff_ff00real * eta)
        by {
        lemma_band_floor(p, q);
    }
    assert(error <= 15real / 16real * claims + rest) by {
        lemma_parts(np, nq, sp, sq, tp, tq);
    }
    lemma_total(gap, error, claims, all, rest, slack, eta);
}

/// Adding up.
proof fn lemma_total(gap: real, error: real, claims: real, all: real, rest: real, slack: real, eta: real)
    requires
        0real < eta,
        within(gap, error + 3real * all + 3real * eta),
        slack >= 15real / 16real * claims + 3real * all + 0xff_ff00real * eta,
        error <= 15real / 16real * claims + rest,
        rest <= 0xff_f000real * eta,
    ensures
        within(gap, slack),
{
}

/// Nothing is left open away from the origin, and little next to it.
proof fn lemma_open(np: real, nq: real, sp: real, sq: real, tp: real, tq: real, eta: real)
    requires
        0real < eta,
        eta <= 1real / 1000real,
        0real <= np,
        0real <= nq,
        0real <= sp,
        0real <= sq,
        tp == 0real && tq == 0real || 0real <= tp <= 4real * eta && 0real <= tq <= 4real * eta && np <= 0x18_0020real
            && nq <= 0x18_0020real && sp <= 0xa40real && sq <= 0xa40real,
    ensures
        open_part(np, nq, sp, sq, tp, tq) <= 0xff_f000real * eta,
{
    let (cp, cq) = (15real / 16real * sp, 15real / 16real * sq);
    if tp == 0real && tq == 0real {
        lemma_product_bound(tq, np, 0real, np);
        lemma_product_bound(tp, nq, 0real, nq);
        lemma_product_bound(tq, cp, 0real, cp);
        lemma_product_bound(tp, cq, 0real, cq);
        lemma_product_bound(tq, tp, 0real, 0real);
    } else {
        lemma_rest(np, nq, cp, cq, tp, tq, 4real * eta, eta);
    }
}

/// A projection is moderate.
proof fn lemma_moderate(origin: Vec3, axis: Vec3, vertex: Vec3)
    requires
        is_ray(origin, axis),
        is_certified(vertex),
    ensures
        ({
            let pr = triangle::RayShear::sheared(origin, axis).projection(vertex);
            let t = leak(reach(origin, vertex));
            let n = girth(at(pr));
            &&& is_moderate(pr)
            &&& 0real <= n
            &&& is_bounded(origin, 0x1_0001real) ==> n <= 0x18_0020real && pr.slack.number() <= 0xa40real && 0real <= t
                <= 4real * rounding::grain()
            &&& !is_bounded(origin, 0x1_0001real) ==> t == 0real
        }),
{
    lemma_projected(origin, axis, vertex);
    assert(0real < rounding::grain() <= 1real / 1000real) by {
        lemma_little();
    }
}

/// The grain is small.
proof fn lemma_little()
    ensures
        0real < rounding::grain() <= 1real / 1000real,
{
    lemma_scales();
    let eta = rounding::grain();
    assert(eta <= 1real / 1000real) by (nonlinear_arith)
        requires eta <= u() * u(), u() == 1real / 0x100_0000real;
}

/// An area lies no further from the exact one than its band is wide.
pub proof fn law_area_stays_in_its_band(origin: Vec3, axis: Vec3, p: Vec3, q: Vec3)
    requires
        is_ray(origin, axis),
        is_certified(p),
        is_certified(q),
    ensures
        ({
            let shear = triangle::RayShear::sheared(origin, axis);
            let (a, b) = (shear.projection(p), shear.projection(q));
            let (area, slack) = (triangle::area(a.p, b.p), triangle::area_slack(a, b));
            let exact = exact_area(place(origin, axis, p), place(origin, axis, q));
            &&& area.finite() && slack.finite()
            &&& rounding::size(area.number() - exact) <= slack.number()
        }),
{
    let shear = triangle::RayShear::sheared(origin, axis);
    let (a, b) = (shear.projection(p), shear.projection(q));
    let (tp, tq) = (leak(reach(origin, p)), leak(reach(origin, q)));
    lemma_moderate(origin, axis, p);
    lemma_moderate(origin, axis, q);
    lemma_little();
    lemma_open(girth(at(a)), girth(at(b)), a.slack.number(), b.slack.number(), tp, tq, rounding::grain());
    lemma_projected(origin, axis, p);
    lemma_projected(origin, axis, q);
    lemma_covered(a, b, place(origin, axis, p), place(origin, axis, q), tp, tq);
}

/// The exact areas of a triangle's edges, each opposite a corner.
pub open spec fn exact_areas(origin: Vec3, axis: Vec3, tri: triangle::Triangle) -> (real, real, real) {
    let (a, b, c) = (place(origin, axis, tri.a), place(origin, axis, tri.b), place(origin, axis, tri.c));
    (exact_area(b, c), exact_area(c, a), exact_area(a, b))
}

/// The ray passes strictly inside: every edge lies on the same side of it.
pub open spec fn is_inside(areas: (real, real, real)) -> bool {
    ||| areas.0 > 0real && areas.1 > 0real && areas.2 > 0real
    ||| areas.0 < 0real && areas.1 < 0real && areas.2 < 0real
}

/// An area outside of its band has the sign of the exact one.
proof fn lemma_sign(origin: Vec3, axis: Vec3, p: Vec3, q: Vec3)
    requires
        is_ray(origin, axis),
        is_certified(p),
        is_certified(q),
        ({
            let shear = triangle::RayShear::sheared(origin, axis);
            let (a, b) = (shear.projection(p), shear.projection(q));
            !triangle::area(a.p, b.p).absolute().at_most(triangle::area_slack(a, b))
        }),
    ensures
        ({
            let shear = triangle::RayShear::sheared(origin, axis);
            let area = triangle::area(shear.projection(p).p, shear.projection(q).p);
            let exact = exact_area(place(origin, axis, p), place(origin, axis, q));
            &&& area.below(F32::zero()) <==> exact < 0real
            &&& F32::zero().below(area) <==> exact > 0real
            &&& exact != 0real
        }),
{
    let shear = triangle::RayShear::sheared(origin, axis);
    let (a, b) = (shear.projection(p), shear.projection(q));
    let (area, slack) = (triangle::area(a.p, b.p), triangle::area_slack(a, b));
    law_area_stays_in_its_band(origin, axis, p, q);
    area.lemma_absolute();
    slack.lemma_order(area.absolute());
    area.lemma_order(area);
    F32::zero().lemma_nonnegative();
}

/// Outside of the band, a decision is the exact one: the triangle holds the ray where
/// the exact areas do, and no exact area is zero. So a ray that lies on an edge
/// exactly is always read again.
pub proof fn law_outside_the_band_the_decision_is_exact(origin: Vec3, axis: Vec3, tri: triangle::Triangle)
    requires
        is_ray(origin, axis),
        is_certified(tri.a),
        is_certified(tri.b),
        is_certified(tri.c),
        !triangle::is_banded(triangle::RayShear::sheared(origin, axis), tri),
    ensures
        ({
            let areas = exact_areas(origin, axis, tri);
            &&& triangle::containment(triangle::RayShear::sheared(origin, axis), tri) == if is_inside(areas) {
                Some(0u8)
            } else {
                None
            }
            &&& areas.0 != 0real && areas.1 != 0real && areas.2 != 0real
        }),
{
    lemma_sign(origin, axis, tri.b, tri.c);
    lemma_sign(origin, axis, tri.c, tri.a);
    lemma_sign(origin, axis, tri.a, tri.b);
}

} // verus!
