//! What a round loses of its momentum, the body that it struck takes.

use crate::ballistics::collect::pose;
use crate::ballistics::resolve;
use crate::ballistics::resolve::{ArmorCrossing, Crossing, Effects, MarchingShell, Owner};
use crate::ballistics::walk::disc::DiscWalk;
use crate::ballistics::walk::places;
use crate::ballistics::walk::stage::{EntranceRead, ResolutionPlan};
use crate::ballistics::walk::vocabulary::WalkLaws;
use crate::float::F32;
use crate::folding_single;
use crate::nearness;
use crate::rounding;
use crate::vector::Vec3;
use vstd::prelude::*;

verus! {

/// The size of a number is no more than `most`.
pub open spec fn is_at_most(x: F32, most: real) -> bool {
    x.finite() && rounding::size(x.number()) <= most
}

/// What the body takes and what the round keeps are, together, what the round came with: its mass
/// times its velocity, component by component, but for rounding.
pub open spec fn is_kept(
    taken: Vec3,
    mass: F32,
    direction: Vec3,
    speed: F32,
    out: Vec3,
    kept: F32,
    fastest: real,
    heaviest: real,
) -> bool {
    forall|c: int|
        0 <= c < 3 ==> rounding::size(
            (#[trigger] places::part(taken, c)).number() + mass.number() * (places::part(out, c).number()
                * kept.number()) - mass.number() * (places::part(direction, c).number() * speed.number()),
        ) <= 32real * rounding::unit() * (fastest * heaviest)
}

/// The directions are no longer than two along any axis, and the speeds and the mass are in range.
pub open spec fn is_moving(
    mass: F32,
    direction: Vec3,
    speed: F32,
    out: Vec3,
    kept: F32,
    fastest: real,
    heaviest: real,
) -> bool {
    &&& 1real <= fastest
    &&& 1real <= heaviest
    &&& 100real * (fastest * heaviest) < rounding::ceiling()
    &&& is_at_most(mass, heaviest)
    &&& is_at_most(speed, fastest)
    &&& is_at_most(kept, fastest)
    &&& pose::is_within(direction, 2real)
    &&& pose::is_within(out, 2real)
}

proof fn lemma_part(mass: F32, direction: F32, speed: F32, out: F32, kept: F32, fastest: real, heaviest: real)
    requires
        1real <= fastest,
        1real <= heaviest,
        100real * (fastest * heaviest) < rounding::ceiling(),
        is_at_most(mass, heaviest),
        is_at_most(speed, fastest),
        is_at_most(kept, fastest),
        is_at_most(direction, 2real),
        is_at_most(out, 2real),
    ensures
        ({
            let (m, v, w) = (mass.number(), direction.number() * speed.number(), out.number() * kept.number());
            let bound = 32real * rounding::unit() * (fastest * heaviest);
            &&& rounding::size(
                direction.product(speed).difference(out.product(kept)).product(mass).number() + m * w - m * v,
            ) <= bound
            &&& rounding::size(direction.product(speed).product(mass).number() - m * v) <= bound
        }),
{
    folding_single::lemma_small();
    let b = 2real;
    nearness::lemma_itself(mass, heaviest);
    nearness::lemma_itself(speed, fastest);
    nearness::lemma_itself(kept, fastest);
    nearness::lemma_itself(direction, b);
    nearness::lemma_itself(out, b);
    let all = fastest * heaviest;
    assert(all >= fastest) by (nonlinear_arith)
        requires all == fastest * heaviest, fastest >= 1real, heaviest >= 1real;
    let two = b * fastest;
    assert(two == 2real * fastest) by (nonlinear_arith)
        requires two == b * fastest, b == 2real;
    let (m, d, s, o, k) = (mass.number(), direction.number(), speed.number(), out.number(), kept.number());
    let (v, w) = (d * s, o * k);
    nearness::lemma_near_product(direction, d, b, 0real, speed, s, fastest, 0real);
    nearness::lemma_near_product(out, o, b, 0real, kept, k, fastest, 0real);
    let four = two + two;
    nearness::lemma_near_difference(direction.product(speed), v, two, 3real, out.product(kept), w, two, 3real);
    assert(four * heaviest == 4real * all) by (nonlinear_arith)
        requires four == 4real * fastest, all == fastest * heaviest;
    assert(two * heaviest == 2real * all) by (nonlinear_arith)
        requires two == 2real * fastest, all == fastest * heaviest;
    let lost = direction.product(speed).difference(out.product(kept));
    nearness::lemma_near_product(lost, v - w, four, 5real, mass, m, heaviest, 0real);
    nearness::lemma_near_product(direction.product(speed), v, two, 3real, mass, m, heaviest, 0real);
    let u = rounding::unit();
    let ua = u * all;
    assert(8real * u * (4real * all) == 32real * ua && 6real * u * (2real * all) == 12real * ua && 32real * u * all
        == 32real * ua) by (nonlinear_arith)
        requires ua == u * all;
    assert(ua >= 0real) by (nonlinear_arith)
        requires ua == u * all, u > 0real, all >= 1real;
    let x = v - w;
    assert(x * m == m * v - m * w) by (nonlinear_arith)
        requires x == v - w;
    assert(v * m == m * v) by (nonlinear_arith);
}

proof fn lemma_kept(taken: Vec3, mass: F32, direction: Vec3, speed: F32, out: Vec3, kept: F32, fastest: real, heaviest: real)
    requires
        is_moving(mass, direction, speed, out, kept, fastest, heaviest),
        taken == direction.scaled(speed).difference(out.scaled(kept)).scaled(mass),
    ensures
        is_kept(taken, mass, direction, speed, out, kept, fastest, heaviest),
{
    assert forall|c: int| 0 <= c < 3 implies rounding::size(
        (#[trigger] places::part(taken, c)).number() + mass.number() * (places::part(out, c).number() * kept.number())
            - mass.number() * (places::part(direction, c).number() * speed.number()),
    ) <= 32real * rounding::unit() * (fastest * heaviest) by {
        lemma_part(
            mass,
            places::part(direction, c),
            speed,
            places::part(out, c),
            kept,
            fastest,
            heaviest,
        );
    }
}

/// A bounce keeps the momentum: what the body takes and what the round leaves with are what it came with;
/// and the round leaves with the share of its speed that the bounce leaves it.
pub proof fn law_a_bounce_keeps_the_momentum(
    crossing: Crossing,
    effects: Effects,
    shell: MarchingShell,
    anchor: Vec3,
    read: EntranceRead,
    direction: Vec3,
    speed_scale: F32,
    radius: F32,
    owner: Option<Owner>,
    fastest: real,
    heaviest: real,
)
    requires
        resolve::is_bounce(crossing, effects, shell, anchor, read, direction, speed_scale, radius, owner),
        owner is Some,
        crossing.outcome matches ArmorCrossing::Ricochet { direction: out, speed } && is_moving(
            shell.mass,
            shell.direction,
            shell.speed,
            out,
            speed,
            fastest,
            heaviest,
        ),
        is_at_most(speed_scale, 1real),
    ensures
        crossing.outcome matches ArmorCrossing::Ricochet { direction: out, speed } && (effects.impulse matches Some(push)
            && push.body == owner->0.body && is_kept(
            push.momentum,
            shell.mass,
            shell.direction,
            shell.speed,
            out,
            speed,
            fastest,
            heaviest,
        ) && rounding::size(speed.number() - shell.speed.number() * speed_scale.number()) <= 3real * rounding::unit()
            * fastest),
{
    let (out, kept) = match crossing.outcome {
        ArmorCrossing::Ricochet { direction: out, speed } => (out, speed),
        _ => (Vec3::zero(), F32::zero()),
    };
    let momentum = shell.direction.scaled(shell.speed).difference(out.scaled(kept)).scaled(shell.mass);
    lemma_kept(momentum, shell.mass, shell.direction, shell.speed, out, kept, fastest, heaviest);
    let (one, all) = (1real, fastest * heaviest);
    nearness::lemma_itself(shell.speed, fastest);
    nearness::lemma_itself(speed_scale, one);
    assert(fastest * one == fastest) by (nonlinear_arith)
        requires one == 1real;
    assert(all >= fastest) by (nonlinear_arith)
        requires all == fastest * heaviest, fastest >= 1real, heaviest >= 1real;
    nearness::lemma_near_product(shell.speed, shell.speed.number(), fastest, 0real, speed_scale, speed_scale.number(), one, 0real);
}

/// A bite keeps the momentum: a round that stops gives all of it, and one that comes out the rest of what
/// it keeps.
pub proof fn law_a_bite_keeps_the_momentum(
    crossing: Crossing,
    effects: Effects,
    shell: MarchingShell,
    transit: DiscWalk,
    plan: ResolutionPlan,
    bent: Vec3,
    residual: F32,
    owner: Option<Owner>,
    laws: WalkLaws,
    fastest: real,
    heaviest: real,
)
    requires
        resolve::is_bite(crossing, effects, shell, transit, plan, bent, residual, owner, laws),
        owner is Some,
        is_moving(shell.mass, shell.direction, shell.speed, bent, residual, fastest, heaviest),
    ensures
        effects.impulse matches Some(push) && push.body == owner->0.body && match crossing.outcome {
            ArmorCrossing::Perforated { direction: out, speed, .. } => is_kept(
                push.momentum,
                shell.mass,
                shell.direction,
                shell.speed,
                out,
                speed,
                fastest,
                heaviest,
            ),
            _ => forall|c: int|
                0 <= c < 3 ==> rounding::size(
                    (#[trigger] places::part(push.momentum, c)).number() - shell.mass.number() * (places::part(
                        shell.direction,
                        c,
                    ).number() * shell.speed.number()),
                ) <= 32real * rounding::unit() * (fastest * heaviest),
        },
{
    let (d, s, m) = (shell.direction, shell.speed, shell.mass);
    lemma_kept(d.scaled(s).difference(bent.scaled(residual)).scaled(m), m, d, s, bent, residual, fastest, heaviest);
    let whole = d.scaled(s).scaled(m);
    assert forall|c: int| 0 <= c < 3 implies rounding::size(
        (#[trigger] places::part(whole, c)).number() - m.number() * (places::part(d, c).number() * s.number()),
    ) <= 32real * rounding::unit() * (fastest * heaviest) by {
        lemma_part(m, places::part(d, c), s, places::part(bent, c), residual, fastest, heaviest);
    }
}

} // verus!
