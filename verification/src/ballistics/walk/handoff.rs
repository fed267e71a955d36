//! Where a round enters: each sample goes on from where its own ray meets the mean entrance surface.

use crate::ballistics::collect::crossing;
use crate::ballistics::collect::pose;
use crate::ballistics::walk::disc::DiscWalk;
use crate::ballistics::walk::places;
use crate::ballistics::walk::stage;
use crate::ballistics::walk::vocabulary::WalkLaws;
use crate::float::F32;
use crate::folding_single;
use crate::nearness;
use crate::rounding;
use crate::turning;
use crate::vector::Vec3;
use vstd::prelude::*;

verus! {

/// A quotient of two scalar products that are off.
proof fn lemma_met(x: F32, xr: real, y: F32, yr: real, t: F32, far: real)
    requires
        1real <= far,
        nearness::is_near(x, xr, 6real * far, 8real),
        nearness::is_near(y, yr, 12real, 7real),
        y.number() != 0real,
        t.finite(),
        rounding::size(t.number() - x.number() / y.number()) <= rounding::unit() * rounding::size(
            x.number() / y.number(),
        ) + rounding::grain(),
    ensures
        rounding::size(t.number() * yr - xr) <= 100real * rounding::unit() * (far + rounding::size(t.number())),
{
    folding_single::lemma_small();
    let (u, g) = (rounding::unit(), rounding::grain());
    let (xn, yn, tn) = (x.number(), y.number(), t.number());
    crossing::lemma_divided(tn, xn, yn, u, g);
    let uf = u * far;
    assert(8real * u * (6real * far) == 48real * uf) by (nonlinear_arith)
        requires uf == u * far;
    assert(uf >= u && 1000real * uf <= far) by (nonlinear_arith)
        requires uf == u * far, far >= 1real, u > 0real, 1000real * u <= 1real;
    assert(7real * u * 12real == 84real * u);
    let (sx, sy, st) = (rounding::size(xn), rounding::size(yn), rounding::size(tn));
    assert(sx <= 7real * far);
    assert(u * sx <= 7real * uf) by (nonlinear_arith)
        requires sx <= 7real * far, uf == u * far, u > 0real;
    assert(sy <= 13real);
    assert(g * sy <= u) by (nonlinear_arith)
        requires sy <= 13real, g > 0real, 1000real * g <= u;
    let dy = yr - yn;
    let most = 84real * u;
    nearness::lemma_sized(tn, dy, st, most);
    assert(tn * dy == tn * yr - tn * yn) by (nonlinear_arith)
        requires dy == yr - yn;
    let ut = u * st;
    assert(st * most == 84real * ut) by (nonlinear_arith)
        requires most == 84real * u, ut == u * st;
    assert(ut >= 0real) by (nonlinear_arith)
        requires ut == u * st, u > 0real, st >= 0real;
    let total = far + st;
    assert(100real * u * total == 100real * uf + 100real * ut) by (nonlinear_arith)
        requires total == far + st, uf == u * far, ut == u * st;
}

/// A ray meets the entrance surface where its own point lies in the plane through the mean entry,
/// across the mean normal, but for rounding. A ray along that plane is left aside.
pub proof fn law_a_sample_meets_the_entrance_surface(entrance: DiscWalk, from: Vec3, far: real)
    requires
        entrance.events@.len() > 0,
        crossing::is_finite(from),
        crossing::is_finite(entrance.events@[0].entry_position),
        pose::is_within(entrance.axis, 2real),
        pose::is_within(entrance.events@[0].entry_normal, 2real),
        1real <= far,
        far * 0x1000_0000_0000real < rounding::ceiling(),
        crossing::is_short(crossing::between(from, entrance.events@[0].entry_position), far),
        ({
            let (a, n) = (turning::vector_of(entrance.axis), turning::vector_of(entrance.events@[0].entry_normal));
            rounding::size(a.x * n.x + a.y * n.y + a.z * n.z) >= 1real / 1024real
        }),
    ensures
        ({
            let t = stage::plane_at(entrance, from);
            let event = entrance.events@[0];
            &&& t.finite()
            &&& rounding::size(
                crossing::height(
                    crossing::between(event.entry_position, from),
                    turning::vector_of(entrance.axis),
                    t.number(),
                    turning::vector_of(event.entry_normal),
                ),
            ) <= 100real * rounding::unit() * (far + rounding::size(t.number()))
        }),
{
    folding_single::lemma_small();
    let event = entrance.events@[0];
    let (axis, normal) = (entrance.axis, event.entry_normal);
    let (a, n) = (turning::vector_of(axis), turning::vector_of(normal));
    let b = 2real;
    nearness::lemma_itself(axis.x, b);
    nearness::lemma_itself(axis.y, b);
    nearness::lemma_itself(axis.z, b);
    nearness::lemma_itself(normal.x, b);
    nearness::lemma_itself(normal.y, b);
    nearness::lemma_itself(normal.z, b);
    crossing::lemma_vectors_apart(from, event.entry_position, far);
    let to = event.entry_position.difference(from);
    let f = crossing::between(from, event.entry_position);
    assert(far * b == 2real * far) by (nonlinear_arith)
        requires b == 2real;
    assert(b * b == 4real) by (nonlinear_arith)
        requires b == 2real;
    nearness::lemma_near_inner((to.x, to.y, to.z), (f.x, f.y, f.z), far, 1real, (normal.x, normal.y, normal.z), (n.x, n.y, n.z), b, 0real);
    nearness::lemma_near_inner((axis.x, axis.y, axis.z), (a.x, a.y, a.z), b, 0real, (normal.x, normal.y, normal.z), (n.x, n.y, n.z), b, 0real);
    let (x, y) = (to.inner(normal), axis.inner(normal));
    let (xr, yr) = (f.x * n.x + f.y * n.y + f.z * n.z, a.x * n.x + a.y * n.y + a.z * n.z);
    let u = rounding::unit();
    assert(8real * u * (6real * far) <= far) by (nonlinear_arith)
        requires far >= 1real, 1000real * u <= 1real, u > 0real;
    assert(7real * u * 12real == 84real * u);
    crossing::lemma_quotient_size(x.number(), y.number(), 7real * far);
    x.lemma_quotient_error(y);
    let t = x.quotient(y);
    lemma_met(x, xr, y, yr, t, far);
    let g = crossing::between(event.entry_position, from);
    crossing::lemma_height(g, a, t.number(), n);
    lemma_reversed(g.x, f.x, n.x);
    lemma_reversed(g.y, f.y, n.y);
    lemma_reversed(g.z, f.z, n.z);
}

proof fn lemma_reversed(g: real, f: real, n: real)
    requires
        g == -f,
    ensures
        g * n == -(f * n),
{
    assert(g * n == -(f * n)) by (nonlinear_arith)
        requires g == -f;
}

/// One component of a handoff: the point on the middle ray, and the sample's offset from it.
proof fn lemma_carried(origin: F32, offset: F32, axis: F32, middle: F32, t: F32, reach: real)
    requires
        1real <= reach < rounding::ceiling() / 1000real,
        origin.finite() && rounding::size(origin.number()) <= reach,
        offset.finite() && rounding::size(offset.number()) <= reach,
        axis.finite() && rounding::size(axis.number()) <= 2real,
        middle.finite() && rounding::size(middle.number()) <= reach,
        t.finite() && rounding::size(t.number()) <= reach,
    ensures
        ({
            let start = origin.sum(axis.product(middle));
            let carried = offset.sum(axis.product(t.difference(middle)));
            &&& start.finite()
            &&& carried.finite()
            &&& rounding::size(
                start.number() + carried.number() - (origin.number() + offset.number() + t.number() * axis.number()),
            ) <= 60real * rounding::unit() * reach
        }),
{
    folding_single::lemma_small();
    let b = 2real;
    let (o, f, a, m, s) = (origin.number(), offset.number(), axis.number(), middle.number(), t.number());
    nearness::lemma_itself(origin, reach);
    nearness::lemma_itself(offset, reach);
    nearness::lemma_itself(axis, b);
    nearness::lemma_itself(middle, reach);
    nearness::lemma_itself(t, reach);
    let two = b * reach;
    assert(two == 2real * reach) by (nonlinear_arith)
        requires two == b * reach, b == 2real;
    nearness::lemma_near_product(axis, a, b, 0real, middle, m, reach, 0real);
    nearness::lemma_near_sum(origin, o, reach, 0real, axis.product(middle), a * m, two, 3real);
    nearness::lemma_near_difference(t, s, reach, 0real, middle, m, reach, 0real);
    let d = reach + reach;
    let four = b * d;
    assert(four == 4real * reach) by (nonlinear_arith)
        requires four == b * d, b == 2real, d == reach + reach;
    nearness::lemma_near_product(axis, a, b, 0real, t.difference(middle), s - m, d, 2real);
    nearness::lemma_near_sum(offset, f, reach, 0real, axis.product(t.difference(middle)), a * (s - m), four, 7real);
    let u = rounding::unit();
    let (three, five) = (reach + two, reach + four);
    assert(5real * u * three == 15real * u * reach) by (nonlinear_arith)
        requires three == 3real * reach;
    assert(9real * u * five == 45real * u * reach) by (nonlinear_arith)
        requires five == 5real * reach;
    let ur = u * reach;
    assert(15real * u * reach == 15real * ur && 45real * u * reach == 45real * ur && 60real * u * reach == 60real * ur)
        by (nonlinear_arith)
        requires ur == u * reach;
    let w = s - m;
    assert(a * w == a * s - a * m) by (nonlinear_arith)
        requires w == s - m;
    assert(s * a == a * s) by (nonlinear_arith);
}

/// A sample goes on from its own ray: the handoff's start and the sample's offset from it are, together,
/// the point where the sample's ray meets the entrance surface, but for rounding.
pub proof fn law_a_sample_stays_on_its_ray(
    request: stage::TransitRequest,
    entrance: DiscWalk,
    shot: stage::Shot,
    laws: WalkLaws,
    turn: stage::Turn,
    i: int,
    c: int,
    reach: real,
)
    requires
        stage::is_request(request, entrance, shot, laws, turn),
        0 <= i < request.seeds@.len(),
        0 <= c < 3,
        1real <= reach < rounding::ceiling() / 1000real,
        pose::is_within(entrance.origin, reach),
        pose::is_within(entrance.offsets@[i], reach),
        pose::is_within(entrance.axis, 2real),
        stage::plane_at(entrance, entrance.origin).finite(),
        rounding::size(stage::plane_at(entrance, entrance.origin).number()) <= reach,
        stage::plane_at(entrance, entrance.origin.sum(entrance.offsets@[i])).finite(),
        rounding::size(stage::plane_at(entrance, entrance.origin.sum(entrance.offsets@[i])).number()) <= reach,
    ensures
        ({
            let seed = request.seeds@[i];
            let point = places::part(entrance.origin, c).number() + places::part(entrance.offsets@[i], c).number()
                + seed.t.number() * places::part(entrance.axis, c).number();
            &&& seed.sample == i
            &&& rounding::size(
                places::part(request.origin, c).number() + places::part(seed.offset, c).number() - point,
            ) <= 60real * rounding::unit() * reach
        }),
{
    let seed = request.seeds@[i];
    assert(stage::is_handoff(seed, entrance, i, laws));
    let middle = stage::plane_at(entrance, entrance.origin);
    let t = stage::plane_at(entrance, entrance.origin.sum(entrance.offsets@[i]));
    t.lemma_doubled_number();
    lemma_carried(
        places::part(entrance.origin, c),
        places::part(entrance.offsets@[i], c),
        places::part(entrance.axis, c),
        middle,
        t,
        reach,
    );
}

/// What one calibre overmatches, a larger one does; and what overmatches does not bounce, however
/// oblique.
pub proof fn law_a_larger_calibre_overmatches(
    entrance: DiscWalk,
    shot: stage::Shot,
    larger: stage::Shot,
    laws: WalkLaws,
    incidence: F32,
)
    requires
        stage::entrance_read(entrance, shot, laws, incidence).overmatched,
        shot.caliber.at_most(larger.caliber),
    ensures
        stage::entrance_read(entrance, larger, laws, incidence).overmatched,
        !stage::ricochets(stage::entrance_read(entrance, larger, laws, incidence), laws),
{
}

/// Where a round bounces, one that comes in more obliquely does.
pub proof fn law_a_more_oblique_round_bounces(
    entrance: DiscWalk,
    shot: stage::Shot,
    laws: WalkLaws,
    incidence: F32,
    steeper: F32,
)
    requires
        stage::ricochets(stage::entrance_read(entrance, shot, laws, incidence), laws),
        incidence.at_most(steeper),
    ensures
        stage::ricochets(stage::entrance_read(entrance, shot, laws, steeper), laws),
{
}

} // verus!
