//! Where a crossing enters and leaves: at the mean of where its samples do.

use crate::ballistics::walk::disc::{DiscCorridor, DiscEvent};
use crate::ballistics::walk::event;
use crate::ballistics::walk::events;
use crate::ballistics::walk::extent;
use crate::ballistics::walk::extent::Touch;
use crate::ballistics::walk::ray::RayWalk;
use crate::float::{F32, F64};
use crate::folding_single;
use crate::rounding;
use crate::vector::Vec3;
use vstd::prelude::*;

verus! {

/// One of a vector's three components.
pub open spec fn part(v: Vec3, c: int) -> F32 {
    if c == 0 {
        v.x
    } else if c == 1 {
        v.y
    } else {
        v.z
    }
}

/// The distance at which a covered sample enters: where the first of its runs starts.
pub open spec fn enters_at(walks: Seq<RayWalk>, touch: Touch) -> F64 {
    walks[touch.sample as int].runs@[touch.runs@[0] as int].start
}

/// The distance at which a covered sample leaves: where the last of its runs ends.
pub open spec fn leaves_at(walks: Seq<RayWalk>, touch: Touch) -> F64 {
    walks[touch.sample as int].runs@[touch.runs@[touch.runs@.len() - 1] as int].end
}

/// The exact point at a distance on a sample's ray: a component of it.
pub open spec fn on_ray(corridor: DiscCorridor, touch: Touch, t: F64, c: int) -> real {
    part(corridor.origin, c).number() + part(corridor.samples@[touch.sample as int].offset, c).number() + t.number()
        * part(corridor.axis, c).number()
}

/// A component of the points on a sample's ray, up to where it leaves the crossing, is made of
/// numbers whose sizes add up to `reach` at most; the axis is no longer than a direction is.
pub open spec fn is_in_reach(corridor: DiscCorridor, touch: Touch, t: F64, c: int, reach: real) -> bool {
    let (o, f, a) = (part(corridor.origin, c), part(corridor.samples@[touch.sample as int].offset, c), part(corridor.axis, c));
    &&& o.finite() && f.finite() && a.finite() && t.finite()
    &&& rounding::size(a.number()) <= 2real
    &&& rounding::size(t.number()) < rounding::ceiling() / 8real
    &&& rounding::size(o.number()) + rounding::size(f.number()) + rounding::size(t.number()) * rounding::size(a.number())
        <= reach
}

/// The crossing's points are in reach, and there are no more samples than can be counted exactly.
pub open spec fn is_placed(corridor: DiscCorridor, walks: Seq<RayWalk>, touches: Seq<Touch>, c: int, reach: real) -> bool {
    &&& 0 <= c < 3
    &&& 0 < touches.len() < 0x10_0000
    &&& (touches.len() as real) * reach < rounding::ceiling() / 8real
    &&& forall|i: int|
        0 <= i < touches.len() ==> is_in_reach(corridor, #[trigger] touches[i], enters_at(walks, touches[i]), c, reach)
            && is_in_reach(corridor, touches[i], leaves_at(walks, touches[i]), c, reach)
}

/// How far a component of a mean of `n` points can lie from the exact one.
pub open spec fn misplaced(n: nat, reach: real) -> real {
    (2real * n as real + 8real) * rounding::unit() * reach + 16real * rounding::grain()
}

/// The product of a distance, rounded, and a component of the axis.
proof fn lemma_along(a: real, t: real, s: real, p: real, u: real, g: real)
    requires
        0real < u && 1000real * u <= 1real,
        0real < g,
        rounding::size(a) <= 2real,
        rounding::size(s - t) <= u * rounding::size(t) + g,
        rounding::size(p - a * s) <= u * rounding::size(a * s) + g,
    ensures
        rounding::size(a * s) <= 2real * (rounding::size(t) * rounding::size(a)) + 3real * g,
        rounding::size(p - t * a) <= 3real * u * (rounding::size(t) * rounding::size(a)) + 4real * g,
{
    let (sa, st) = (rounding::size(a), rounding::size(t));
    let m = st * sa;
    let e = s - t;
    let se = rounding::size(e);
    lemma_sizes(t, a);
    lemma_sizes(e, a);
    let (at, asx, ae) = (a * t, a * s, a * e);
    assert(asx == at + ae) by (nonlinear_arith)
        requires at == a * t, asx == a * s, ae == a * e, s == t + e;
    let ut = u * st;
    let top = ut + g;
    assert(se * sa <= top * sa) by (nonlinear_arith)
        requires se <= top, sa >= 0real;
    let (um, gs) = (u * m, g * sa);
    assert(top * sa == um + gs) by (nonlinear_arith)
        requires top == ut + g, ut == u * st, um == u * m, m == st * sa, gs == g * sa;
    assert(gs <= 2real * g) by (nonlinear_arith)
        requires gs == g * sa, sa <= 2real, g > 0real;
    assert(1000real * um <= m) by (nonlinear_arith)
        requires um == u * m, m >= 0real, 1000real * u <= 1real;
    assert(um >= 0real) by (nonlinear_arith)
        requires um == u * m, m >= 0real, u > 0real;
    let big = rounding::size(asx);
    let bound = m + um + 2real * g;
    assert(big <= bound);
    assert(u * big <= u * bound) by (nonlinear_arith)
        requires big <= bound, u > 0real;
    let (uum, ug) = (u * um, u * g);
    assert(u * bound == um + uum + 2real * ug) by (nonlinear_arith)
        requires bound == m + um + 2real * g, um == u * m, uum == u * um, ug == u * g;
    assert(uum <= um) by (nonlinear_arith)
        requires uum == u * um, um >= 0real, 1000real * u <= 1real;
    assert(1000real * ug <= g) by (nonlinear_arith)
        requires ug == u * g, g > 0real, 1000real * u <= 1real;
    assert(t * a == at) by (nonlinear_arith)
        requires at == a * t;
    assert(3real * u * m == 3real * um) by (nonlinear_arith)
        requires um == u * m;
}

/// A base that was rounded and a step along the axis, added.
proof fn lemma_stepped(o: real, f: real, at: real, b: real, p: real, q: real, m: real, reach: real, u: real, g: real)
    requires
        0real < u && 1000real * u <= 1real,
        0real < g,
        rounding::size(at) == m,
        rounding::size(o) + rounding::size(f) + m <= reach,
        rounding::size(b - (o + f)) <= u * rounding::size(o + f),
        rounding::size(p - at) <= 3real * u * m + 4real * g,
        rounding::size(q - (b + p)) <= u * rounding::size(b + p),
    ensures
        rounding::size(o + f + at) <= reach,
        rounding::size(b + p) <= 2real * reach + 4real * g,
        rounding::size(q - (o + f + at)) <= 5real * u * reach + 5real * g,
{
    let base = rounding::size(o) + rounding::size(f);
    let of = rounding::size(o + f);
    let (ub, um, ur) = (u * base, u * m, u * reach);
    assert(u * of <= ub) by (nonlinear_arith)
        requires ub == u * base, of <= base, u > 0real;
    assert(3real * u * m == 3real * um) by (nonlinear_arith)
        requires um == u * m;
    let both = base + m;
    assert(u * both == ub + um) by (nonlinear_arith)
        requires ub == u * base, um == u * m, both == base + m;
    assert(u * both <= ur) by (nonlinear_arith)
        requires ur == u * reach, both <= reach, u > 0real;
    assert(ub >= 0real) by (nonlinear_arith)
        requires ub == u * base, base >= 0real, u > 0real;
    assert(um >= 0real) by (nonlinear_arith)
        requires um == u * m, m >= 0real, u > 0real;
    assert(1000real * ur <= reach) by (nonlinear_arith)
        requires ur == u * reach, 1000real * u <= 1real, reach >= 0real;
    let bp = rounding::size(b + p);
    assert(bp <= 2real * reach + 4real * g);
    let big = 2real * reach + 4real * g;
    let ug = u * g;
    assert(u * bp <= u * big) by (nonlinear_arith)
        requires bp <= big, u > 0real;
    assert(u * big == 2real * ur + 4real * ug) by (nonlinear_arith)
        requires ur == u * reach, ug == u * g, big == 2real * reach + 4real * g;
    assert(1000real * ug <= g) by (nonlinear_arith)
        requires ug == u * g, 1000real * u <= 1real, g > 0real;
    assert(5real * u * reach == 5real * ur) by (nonlinear_arith)
        requires ur == u * reach;
}

proof fn lemma_sizes(t: real, a: real)
    ensures
        rounding::size(t * a) == rounding::size(t) * rounding::size(a),
        rounding::size(a * t) == rounding::size(t) * rounding::size(a),
        0real <= rounding::size(t) * rounding::size(a),
{
    let (st, sa) = (rounding::size(t), rounding::size(a));
    let p = st * sa;
    assert(p >= 0real) by (nonlinear_arith)
        requires p == st * sa, st >= 0real, sa >= 0real;
    let ta = t * a;
    assert(ta == p || ta == -p) by (nonlinear_arith)
        requires ta == t * a, p == st * sa, st == t || st == -t, sa == a || sa == -a;
    assert(a * t == ta) by (nonlinear_arith)
        requires ta == t * a;
}

/// A component of the step along the axis.
proof fn lemma_step_along(a: F32, t: F64)
    requires
        a.finite(),
        t.finite(),
        rounding::size(a.number()) <= 2real,
        rounding::size(t.number()) < rounding::ceiling() / 8real,
        rounding::size(t.number()) * rounding::size(a.number()) < rounding::ceiling() / 8real,
    ensures
        a.product(t.halved()).finite(),
        rounding::size(a.product(t.halved()).number() - t.number() * a.number()) <= 3real * rounding::unit() * (
        rounding::size(t.number()) * rounding::size(a.number())) + 4real * rounding::grain(),
{
    let (u, g) = (rounding::unit(), rounding::grain());
    folding_single::lemma_small();
    let (an, tn) = (a.number(), t.number());
    t.lemma_halved_error();
    let s = t.halved();
    let asn = an * s.number();
    let ua = u * rounding::size(asn);
    assert(ua >= 0real) by (nonlinear_arith)
        requires ua == u * rounding::size(asn), u > 0real, rounding::size(asn) >= 0real;
    lemma_along(an, tn, s.number(), asn, u, g);
    a.lemma_product_error(s);
    lemma_along(an, tn, s.number(), a.product(s).number(), u, g);
}

/// A component of a point on a sample's ray.
proof fn lemma_point(corridor: DiscCorridor, touch: Touch, t: F64, c: int, reach: real)
    requires
        0 <= c < 3,
        is_in_reach(corridor, touch, t, c, reach),
        reach < rounding::ceiling() / 8real,
    ensures
        ({
            let point = events::point_at(extent::sample_base(corridor, touch.sample as int), corridor.axis, t);
            let x = on_ray(corridor, touch, t, c);
            &&& part(point, c).finite()
            &&& rounding::size(x) <= reach
            &&& rounding::size(part(point, c).number() - x) <= 5real * rounding::unit() * reach + 5real
                * rounding::grain()
        }),
{
    let (u, g) = (rounding::unit(), rounding::grain());
    let (o, f, a) = (part(corridor.origin, c), part(corridor.samples@[touch.sample as int].offset, c), part(corridor.axis, c));
    lemma_sizes(t.number(), a.number());
    let point = events::point_at(extent::sample_base(corridor, touch.sample as int), corridor.axis, t);
    assert(part(point, c) == o.sum(f).sum(a.product(t.halved())));
    lemma_component(o, f, a, t, reach);
}

proof fn lemma_component(o: F32, f: F32, a: F32, t: F64, reach: real)
    requires
        o.finite() && f.finite() && a.finite() && t.finite(),
        rounding::size(a.number()) <= 2real,
        rounding::size(t.number()) < rounding::ceiling() / 8real,
        rounding::size(o.number()) + rounding::size(f.number()) + rounding::size(t.number()) * rounding::size(a.number())
            <= reach,
        reach < rounding::ceiling() / 8real,
    ensures
        ({
            let q = o.sum(f).sum(a.product(t.halved()));
            let x = o.number() + f.number() + t.number() * a.number();
            &&& q.finite()
            &&& rounding::size(x) <= reach
            &&& rounding::size(q.number() - x) <= 5real * rounding::unit() * reach + 5real * rounding::grain()
        }),
{
    let (u, g) = (rounding::unit(), rounding::grain());
    folding_single::lemma_small();
    let (on, fnum, at) = (o.number(), f.number(), t.number() * a.number());
    let m = rounding::size(t.number()) * rounding::size(a.number());
    lemma_sizes(t.number(), a.number());
    lemma_step_along(a, t);
    let p = a.product(t.halved());
    o.lemma_sum_error(f);
    let b = o.sum(f);
    let bp = b.number() + p.number();
    let ub = u * rounding::size(bp);
    assert(ub >= 0real) by (nonlinear_arith)
        requires ub == u * rounding::size(bp), u > 0real, rounding::size(bp) >= 0real;
    lemma_stepped(on, fnum, at, b.number(), p.number(), bp, m, reach, u, g);
    b.lemma_sum_error(p);
    lemma_stepped(on, fnum, at, b.number(), p.number(), b.sum(p).number(), m, reach, u, g);
}

/// The component of a point where a sample enters or leaves.
spec fn point_of(corridor: DiscCorridor, walks: Seq<RayWalk>, touches: Seq<Touch>, leaving: bool, c: int) -> spec_fn(
    int,
) -> F32 {
    |i: int|
        part(
            events::point_at(
                extent::sample_base(corridor, touches[i].sample as int),
                corridor.axis,
                if leaving {
                    leaves_at(walks, touches[i])
                } else {
                    enters_at(walks, touches[i])
                },
            ),
            c,
        )
}

/// The sums of the points, component by component.
proof fn lemma_sums(corridor: DiscCorridor, walks: Seq<RayWalk>, touches: Seq<Touch>, c: int, n: int)
    requires
        0 <= n <= touches.len(),
        0 <= c < 3,
        extent::touches_fit(touches, corridor, walks),
    ensures
        part(extent::entry_points(corridor, walks, touches, n), c) == folding_single::fold(
            point_of(corridor, walks, touches, false, c),
            n,
        ),
        part(extent::exit_points(corridor, walks, touches, n), c) == folding_single::fold(
            point_of(corridor, walks, touches, true, c),
            n,
        ),
    decreases n,
{
    if n > 0 {
        lemma_sums(corridor, walks, touches, c, n - 1);
        assert(touches[n - 1].runs@.len() > 0);
        assert(touches[n - 1].runs@.last() == touches[n - 1].runs@[touches[n - 1].runs@.len() - 1]);
    }
}

/// A crossing enters at the mean of the points where its samples enter, and leaves at the mean of those
/// where they leave: the ends of each sample's first and last run, on its own ray. So what lies between
/// the two is, along the axis, the mean of what the samples go through. All of it but for rounding.
pub proof fn law_a_crossing_goes_from_face_to_face(
    event: DiscEvent,
    corridor: DiscCorridor,
    walks: Seq<RayWalk>,
    touches: Seq<Touch>,
    c: int,
    reach: real,
)
    requires
        extent::touches_fit(touches, corridor, walks),
        event::is_event(event, corridor, walks, touches),
        is_placed(corridor, walks, touches, c, reach),
    ensures
        ({
            let n = touches.len() as int;
            let entry = folding_single::total(
                |i: int| on_ray(corridor, touches[i], enters_at(walks, touches[i]), c),
                n,
            ) / (n as real);
            let exit = folding_single::total(
                |i: int| on_ray(corridor, touches[i], leaves_at(walks, touches[i]), c),
                n,
            ) / (n as real);
            let depth = folding_single::total(
                |i: int| leaves_at(walks, touches[i]).number() - enters_at(walks, touches[i]).number(),
                n,
            ) / (n as real);
            let off = misplaced(touches.len(), reach);
            &&& part(event.entry_position, c).finite() && part(event.exit_position, c).finite()
            &&& rounding::size(part(event.entry_position, c).number() - entry) <= off
            &&& rounding::size(part(event.exit_position, c).number() - exit) <= off
            &&& rounding::size(
                part(event.exit_position, c).number() - part(event.entry_position, c).number() - depth * part(
                    corridor.axis,
                    c,
                ).number(),
            ) <= 2real * off
        }),
{
    let n = touches.len() as int;
    let k = n as real;
    let (u, g) = (rounding::unit(), rounding::grain());
    folding_single::lemma_small();
    let five = 5real * g;
    lemma_sums(corridor, walks, touches, c, n);
    let (f, h) = (point_of(corridor, walks, touches, false, c), point_of(corridor, walks, touches, true, c));
    let (x, y) = (
        |i: int| on_ray(corridor, touches[i], enters_at(walks, touches[i]), c),
        |i: int| on_ray(corridor, touches[i], leaves_at(walks, touches[i]), c),
    );
    let whole = k * reach;
    assert(is_in_reach(corridor, touches[0], enters_at(walks, touches[0]), c, reach));
    lemma_positive(corridor, touches[0], enters_at(walks, touches[0]), c, reach);
    assert(reach <= whole) by (nonlinear_arith)
        requires whole == k * reach, k >= 1real, reach >= 0real;
    assert forall|i: int| 0 <= i < n implies (#[trigger] f(i)).finite() && rounding::size(x(i)) <= reach && rounding::size(
        f(i).number() - x(i),
    ) <= 5real * u * reach + five by {
        assert(is_in_reach(corridor, touches[i], enters_at(walks, touches[i]), c, reach));
        lemma_point(corridor, touches[i], enters_at(walks, touches[i]), c, reach);
    }
    assert forall|i: int| 0 <= i < n implies (#[trigger] h(i)).finite() && rounding::size(y(i)) <= reach && rounding::size(
        h(i).number() - y(i),
    ) <= 5real * u * reach + five by {
        assert(is_in_reach(corridor, touches[i], leaves_at(walks, touches[i]), c, reach));
        lemma_point(corridor, touches[i], leaves_at(walks, touches[i]), c, reach);
    }
    folding_single::lemma_mean(f, x, n, 5real, reach, five);
    folding_single::lemma_mean(h, y, n, 5real, reach, five);
    let off = misplaced(touches.len(), reach);
    let (kk, ur) = (2real * k + 5real + 2real, u * reach);
    assert(kk * u * reach == kk * ur) by (nonlinear_arith)
        requires ur == u * reach;
    assert((kk + 1real) * u * reach == kk * ur + ur) by (nonlinear_arith)
        requires ur == u * reach;
    assert(ur >= 0real) by (nonlinear_arith)
        requires ur == u * reach, u > 0real, reach >= 0real;
    assert(2real * k + 8real == kk + 1real);
    assert(3real * five + g == 16real * g);
    let an = part(corridor.axis, c).number();
    let d = |i: int| leaves_at(walks, touches[i]).number() - enters_at(walks, touches[i]).number();
    assert forall|i: int| 0 <= i < n implies #[trigger] y(i) - x(i) == d(i) * an by {
        let (s, t) = (enters_at(walks, touches[i]).number(), leaves_at(walks, touches[i]).number());
        assert((t - s) * an == t * an - s * an) by (nonlinear_arith);
    }
    lemma_depth(x, y, d, an, n);
    let (tx, ty, td) = (folding_single::total(x, n), folding_single::total(y, n), folding_single::total(d, n));
    lemma_quotients(tx, ty, td, an, k);
}

proof fn lemma_quotients(tx: real, ty: real, td: real, a: real, k: real)
    requires
        ty - tx == td * a,
        k >= 1real,
    ensures
        ty / k - tx / k == (td / k) * a,
{
    let (x, y, d) = (tx / k, ty / k, td / k);
    assert(x * k == tx) by (nonlinear_arith)
        requires x == tx / k, k >= 1real;
    assert(y * k == ty) by (nonlinear_arith)
        requires y == ty / k, k >= 1real;
    assert(d * k == td) by (nonlinear_arith)
        requires d == td / k, k >= 1real;
    let da = d * a;
    assert(da * k == td * a) by (nonlinear_arith)
        requires da == d * a, d * k == td;
    let w = y - x - da;
    assert(w * k == y * k - x * k - da * k) by (nonlinear_arith)
        requires w == y - x - da;
    assert(w == 0real) by (nonlinear_arith)
        requires w * k == 0real, k >= 1real;
}

proof fn lemma_positive(corridor: DiscCorridor, touch: Touch, t: F64, c: int, reach: real)
    requires
        is_in_reach(corridor, touch, t, c, reach),
    ensures
        0real <= reach,
{
    let (st, sa) = (rounding::size(t.number()), rounding::size(part(corridor.axis, c).number()));
    assert(st * sa >= 0real) by (nonlinear_arith)
        requires st >= 0real, sa >= 0real;
}

proof fn lemma_depth(x: spec_fn(int) -> real, y: spec_fn(int) -> real, d: spec_fn(int) -> real, a: real, n: int)
    requires
        forall|i: int| 0 <= i < n ==> #[trigger] y(i) - x(i) == d(i) * a,
    ensures
        folding_single::total(y, n) - folding_single::total(x, n) == folding_single::total(d, n) * a,
    decreases n,
{
    if n > 0 {
        lemma_depth(x, y, d, a, n - 1);
        assert(y(n - 1) - x(n - 1) == d(n - 1) * a);
        let (p, q) = (folding_single::total(d, n - 1), d(n - 1));
        assert((p + q) * a == p * a + q * a) by (nonlinear_arith);
    } else {
        assert(0real * a == 0real) by (nonlinear_arith);
    }
}

} // verus!
