//! What a walk costs up to a target, and how every gun fares on the way there.

use crate::ballistics::fuzz::findings;
use crate::ballistics::fuzz::findings::{probe_rounds, ProbeRound, RoundMeasurement, PROBE_COUNT};
use crate::ballistics::fuzz::rays::{FuzzConfig, FuzzRay};
use crate::ballistics::fuzz::scene;
use crate::ballistics::fuzz::scene::{probe, Scene};
use crate::ballistics::resolve;
use crate::ballistics::resolve::disc_radius;
use crate::ballistics::walk::charges;
use crate::ballistics::walk::disc::DiscWalk;
use crate::ballistics::walk::laws;
use crate::ballistics::walk::presence::EntityPresence;
use crate::ballistics::walk::ray;
use crate::ballistics::walk::ray::RayWalk;
use crate::ballistics::walk::spans;
use crate::ballistics::walk::spans::Span;
use crate::ballistics::walk::table;
use crate::ballistics::walk::vocabulary::{Entity, RayCorridor, WalkError, WalkLaws};
use crate::float::{F32, F64};
use crate::folding;
use crate::folding_single;
use crate::rounding;
use crate::rounding_double;
use crate::vector::Vec3;
use vstd::prelude::*;

verus! {

/// The cost of one stretch before `t`.
pub open spec fn cost_before(span: Span, t: F64) -> F64 {
    let end = span.end.smaller(t);
    if end.at_most(span.start) {
        F64::zero()
    } else {
        end.difference(span.start).product(span.factor.doubled())
    }
}

/// The cost of the first `n` stretches before `t`, accumulated in order.
pub open spec fn prefix_of(charted: Seq<Span>, t: F64, n: int) -> F64
    decreases n,
{
    if n <= 0 {
        F64::zero()
    } else {
        prefix_of(charted, t, n - 1).sum(cost_before(charted[n - 1], t))
    }
}

/// The integral of the field from the origin to `t`.
pub fn prefix_cost(charted: &Vec<Span>, t: F64) -> (cost: F64)
    ensures
        cost == prefix_of(charted@, t, charted@.len() as int),
{
    let mut cost: F64 = F64::zero();
    let mut n: usize = 0;
    while n < charted.len()
        invariant
            n <= charted@.len(),
            cost == prefix_of(charted@, t, n as int),
        decreases charted.len() - n,
    {
        let span: Span = charted[n];
        let end: F64 = span.end.min(t);
        let here: F64 = if end.le(span.start) {
            F64::zero()
        } else {
            end.minus(span.start).times(span.factor.to_double())
        };
        cost = cost.plus(here);
        n = n + 1;
    }
    cost
}

/// The stretches are proper: each ends after it starts, at a finite distance, and its
/// factor is a number that is not negative.
pub open spec fn is_proper(charted: Seq<Span>) -> bool {
    forall|i: int|
        0 <= i < charted.len() ==> {
            let span = #[trigger] charted[i];
            &&& span.start.below(span.end)
            &&& span.end.difference(span.start).finite()
            &&& span.factor.finite()
            &&& !span.factor.negative()
        }
}

pub(crate) proof fn lemma_cost(charted: Seq<Span>, n: int)
    requires
        0 <= n <= charted.len(),
        is_proper(charted),
    ensures
        !spans::cost_of(charted, n).is_nan(),
        !spans::cost_of(charted, n).negative(),
    decreases n,
{
    if n > 0 {
        lemma_cost(charted, n - 1);
        let span = charted[n - 1];
        span.end.lemma_difference_nonnegative(span.start);
        span.factor.lemma_doubled();
        span.spec_len().lemma_product_nonnegative(span.factor.doubled());
        spans::cost_of(charted, n - 1).lemma_sum_nonnegative(span.spec_cost());
    }
}

/// A prefix taken past every stretch is the whole cost, to the bit.
pub proof fn law_prefix_at_the_end(charted: Seq<Span>, t: F64, n: int)
    requires
        0 <= n <= charted.len(),
        is_proper(charted),
        forall|i: int| 0 <= i < charted.len() ==> (#[trigger] charted[i]).end.at_most(t),
    ensures
        prefix_of(charted, t, n) == spans::cost_of(charted, n),
    decreases n,
{
    if n > 0 {
        law_prefix_at_the_end(charted, t, n - 1);
        let span = charted[n - 1];
        assert(span.start.below(span.end));
        assert(span.end.smaller(t) == span.end);
        if !span.is_material() {
            F32::zero().lemma_nonnegative();
            span.factor.lemma_nonnegative();
            assert(span.factor == F32::zero());
            F32::zero().lemma_doubled();
            F32::zero().doubled().lemma_nonnegative();
            F64::zero().lemma_nonnegative();
            assert(F32::zero().doubled() == F64::zero());
            span.end.lemma_difference_nonnegative(span.start);
            span.spec_len().lemma_product_zero();
            lemma_cost(charted, n - 1);
            spans::cost_of(charted, n - 1).lemma_sum_zero();
        }
    }
}

/// The stretches lie ahead of the origin, at finite distances.
spec fn is_ahead(charted: Seq<Span>) -> bool {
    forall|i: int|
        0 <= i < charted.len() ==> {
            let span = #[trigger] charted[i];
            span.start.finite() && span.end.finite() && 0 <= span.start.value()
        }
}

proof fn lemma_cost_before(span: Span, t: F64, u: F64)
    requires
        span.start.below(span.end),
        span.start.finite(),
        span.end.finite(),
        0 <= span.start.value(),
        span.factor.finite(),
        !span.factor.negative(),
        t.at_most(u),
    ensures
        !cost_before(span, t).is_nan(),
        !cost_before(span, u).is_nan(),
        0 <= cost_before(span, t).value() <= cost_before(span, u).value(),
{
    F64::zero().lemma_nonnegative();
    let factor = span.factor.doubled();
    span.factor.lemma_doubled();
    factor.lemma_nonnegative();
    let (d, e) = (span.end.smaller(t), span.end.smaller(u));
    if !e.at_most(span.start) {
        if e.value() < span.end.value() {
            e.lemma_under(span.end);
        }
        e.lemma_gap(span.start);
        factor.lemma_product_commutes(e.difference(span.start));
        factor.lemma_product_grows(e.difference(span.start), e.difference(span.start));
        if !d.at_most(span.start) {
            if d.value() < span.end.value() {
                d.lemma_under(span.end);
            }
            d.lemma_difference_grows(e, span.start);
            d.lemma_gap(span.start);
            factor.lemma_product_commutes(d.difference(span.start));
            factor.lemma_product_grows(d.difference(span.start), e.difference(span.start));
        }
    }
}

proof fn lemma_prefix_grows(charted: Seq<Span>, t: F64, u: F64, n: int)
    requires
        0 <= n <= charted.len(),
        is_proper(charted),
        is_ahead(charted),
        t.at_most(u),
    ensures
        !prefix_of(charted, t, n).is_nan(),
        !prefix_of(charted, u, n).is_nan(),
        0 <= prefix_of(charted, t, n).value() <= prefix_of(charted, u, n).value(),
    decreases n,
{
    F64::zero().lemma_nonnegative();
    if n > 0 {
        lemma_prefix_grows(charted, t, u, n - 1);
        let span = charted[n - 1];
        lemma_cost_before(span, t, u);
        prefix_of(charted, t, n - 1).lemma_sum_grows(
            cost_before(span, t),
            prefix_of(charted, u, n - 1),
            cost_before(span, u),
        );
    }
}

proof fn lemma_prefix_of_nothing(charted: Seq<Span>, t: F64, n: int)
    requires
        0 <= n <= charted.len(),
        is_proper(charted),
        is_ahead(charted),
        t.at_most(F64::zero()),
    ensures
        prefix_of(charted, t, n) == F64::zero(),
    decreases n,
{
    F64::zero().lemma_nonnegative();
    if n > 0 {
        lemma_prefix_of_nothing(charted, t, n - 1);
        let span = charted[n - 1];
        assert(span.end.smaller(t) == t);
        F64::zero().lemma_sum_zero();
    }
}

/// What a walk costs up to a distance is nothing up to the origin, never falls as the
/// distance grows, and from the corridor's length on is the walk's whole cost.
pub proof fn law_prefix_grows_to_the_cost(
    walk: RayWalk,
    corridor: RayCorridor,
    laws: WalkLaws,
    rows: Seq<(Entity, F32)>,
    factors: Map<Entity, F32>,
    t: F64,
    u: F64,
)
    requires
        ray::is_walk(walk, corridor, laws, rows, factors),
        ray::has_form(corridor),
        table::ordered(rows),
        t.at_most(u),
    ensures
        ({
            let n = walk.spans@.len() as int;
            let (before, after) = (prefix_of(walk.spans@, t, n), prefix_of(walk.spans@, u, n));
            &&& before.at_most(after)
            &&& t.at_most(F64::zero()) ==> before == F64::zero()
            &&& corridor.length.doubled().at_most(u) ==> after.halved() == walk.cost
        }),
{
    let charted = walk.spans@;
    let n = charted.len() as int;
    let length = corridor.length.doubled();
    assert forall|i: int| 0 <= i < n implies {
        let span = #[trigger] charted[i];
        &&& span.start.below(span.end)
        &&& span.end.difference(span.start).finite()
        &&& span.factor.finite()
        &&& !span.factor.negative()
        &&& span.start.finite() && span.end.finite()
        &&& 0 <= span.start.value()
        &&& span.end.value() <= length.value()
    } by {
        laws::lemma_proper(walk, corridor, laws, rows, factors, i);
        laws::lemma_forward(charted, 0, length.value(), i);
    }
    lemma_prefix_grows(charted, t, u, n);
    if t.at_most(F64::zero()) {
        lemma_prefix_of_nothing(charted, t, n);
    }
    if length.at_most(u) {
        law_prefix_at_the_end(charted, u, n);
    }
}

/// Where a ray first meets a volume, from place `i` of its presence on.
pub open spec fn reach_from(presence: Seq<EntityPresence>, entity: Entity, i: int) -> Option<F64>
    decreases presence.len() - i,
{
    if i < 0 || i >= presence.len() {
        None
    } else if presence[i].entity == entity {
        if presence[i].spans@.len() > 0 {
            Some(presence[i].spans@[0].0)
        } else {
            None
        }
    } else {
        reach_from(presence, entity, i + 1)
    }
}

fn find_reach(presence: &Vec<EntityPresence>, entity: Entity) -> (reach: Option<F64>)
    ensures
        reach == reach_from(presence@, entity, 0),
{
    let mut i: usize = 0;
    while i < presence.len()
        invariant
            i <= presence@.len(),
            reach_from(presence@, entity, 0) == reach_from(presence@, entity, i as int),
        decreases presence.len() - i,
    {
        if presence[i].entity == entity {
            return if presence[i].spans.len() > 0 {
                Some(presence[i].spans[0].0)
            } else {
                None
            };
        }
        i = i + 1;
    }
    None
}

/// The costs of the first `n` samples up to `t`, added in order.
pub open spec fn sample_costs(walks: Seq<RayWalk>, t: F64, n: int) -> F64
    decreases n,
{
    if n <= 0 {
        F64::zero()
    } else {
        sample_costs(walks, t, n - 1).sum(
            prefix_of(walks[n - 1].spans@, t, walks[n - 1].spans@.len() as int),
        )
    }
}

/// Positive infinity: what a blocked round would have to spend.
#[verifier::allow_in_spec]
pub fn blocked() -> F32
    returns
        (F32 { bits: 0x7f80_0000 }),
{
    F32 { bits: 0x7f80_0000 }
}

/// What a probe measures for a gun: the entrance's own coverage, and the mean cost
/// over the samples up to the target. What cannot be walked, or does not meet the
/// target, is blocked.
pub open spec fn measured(probed: Result<DiscWalk, WalkError>, target: Entity, capability: F32) -> RoundMeasurement {
    match probed {
        Err(_) => RoundMeasurement { eta: F32::one(), cost: blocked(), capability },
        Ok(walk) => {
            let eta = if walk.events@.len() > 0 {
                walk.events@[0].coverage
            } else {
                F32::zero()
            };
            match reach_from(walk.walks@[0].presence@, target, 0) {
                None => RoundMeasurement { eta, cost: blocked(), capability },
                Some(reach) => RoundMeasurement {
                    eta,
                    cost: sample_costs(walk.walks@, reach, walk.walks@.len() as int).quotient(
                        F64::whole(walk.walks@.len()),
                    ).halved(),
                    capability,
                },
            }
        },
    }
}

/// Measures one probe.
pub fn measure(probed: &Result<DiscWalk, WalkError>, target: Entity, capability: F32) -> (measurement: RoundMeasurement)
    requires
        probed matches Ok(walk) ==> walk.walks@.len() > 0,
    ensures
        measurement == measured(*probed, target, capability),
{
    let walk: &DiscWalk = match probed {
        Ok(walk) => walk,
        Err(_) => {
            return RoundMeasurement { eta: F32::one(), cost: blocked(), capability };
        },
    };
    let eta: F32 = if walk.events.len() > 0 { walk.events[0].coverage } else { F32::zero() };
    let reach: F64 = match find_reach(&walk.walks[0].presence, target) {
        Some(reach) => reach,
        None => {
            return RoundMeasurement { eta, cost: blocked(), capability };
        },
    };
    let mut total: F64 = F64::zero();
    let mut n: usize = 0;
    while n < walk.walks.len()
        invariant
            n <= walk.walks@.len(),
            total == sample_costs(walk.walks@, reach, n as int),
        decreases walk.walks.len() - n,
    {
        total = total.plus(prefix_cost(&walk.walks[n].spans, reach));
        n = n + 1;
    }
    let cost: F32 = total.over(F64::from_whole(walk.walks.len() as u64)).to_single();
    RoundMeasurement { eta, cost, capability }
}

/// A gun's measurement of a ray to a target.
pub open spec fn is_measurement(m: RoundMeasurement, scene: Scene, ray: FuzzRay, target: Entity, gun: int) -> bool {
    exists|probed: Result<DiscWalk, WalkError>| #[trigger]
        scene::is_probe(probed, scene, ray, resolve::radius_of(findings::rounds()[gun].caliber)) && m == measured(
            probed,
            target,
            scene.capabilities@[gun],
        )
}

/// The measurements of every gun.
pub open spec fn is_sweep(measurements: Seq<RoundMeasurement>, scene: Scene, ray: FuzzRay, target: Entity) -> bool {
    &&& measurements.len() == PROBE_COUNT
    &&& forall|gun: int|
        0 <= gun < PROBE_COUNT ==> is_measurement(#[trigger] measurements[gun], scene, ray, target, gun)
}

/// Measures an opening against every gun.
pub fn sweep(scene: &Scene, ray: &FuzzRay, target: Entity) -> (measurements: Vec<RoundMeasurement>)
    requires
        scene.wf(),
    ensures
        is_sweep(measurements@, *scene, *ray, target),
{
    let rounds: Vec<ProbeRound> = probe_rounds();
    let mut measurements: Vec<RoundMeasurement> = Vec::new();
    let mut gun: usize = 0;
    while gun < PROBE_COUNT
        invariant
            gun <= PROBE_COUNT,
            scene.wf(),
            rounds@ == findings::rounds(),
            rounds@.len() == PROBE_COUNT,
            measurements@.len() == gun,
            forall|i: int| 0 <= i < gun ==> is_measurement(#[trigger] measurements@[i], *scene, *ray, target, i),
        decreases PROBE_COUNT - gun,
    {
        let probed: Result<DiscWalk, WalkError> = probe(scene, ray, disc_radius(rounds[gun].caliber));
        let measurement: RoundMeasurement = measure(&probed, target, scene.capabilities[gun]);
        assert(scene::is_probe(probed, *scene, *ray, resolve::radius_of(findings::rounds()[gun as int].caliber)));
        measurements.push(measurement);
        gun = gun + 1;
    }
    measurements
}

/// The least of the first `n` capabilities.
pub open spec fn least_of(capabilities: Seq<F32>, n: int) -> F32
    decreases n,
{
    if n <= 0 {
        blocked()
    } else {
        least_of(capabilities, n - 1).smaller(capabilities[n - 1])
    }
}

/// The cost that a finding stays under.
pub open spec fn floor_of(config: FuzzConfig, capabilities: Seq<F32>) -> F32 {
    match config.finding_floor {
        Some(floor) => floor,
        None => least_of(capabilities, capabilities.len() as int),
    }
}

/// The given floor, or what the weakest gun can defeat.
pub fn finding_floor(config: &FuzzConfig, capabilities: &Vec<F32>) -> (floor: F32)
    ensures
        floor == floor_of(*config, capabilities@),
{
    if let Some(floor) = config.finding_floor {
        return floor;
    }
    let mut least: F32 = blocked();
    let mut n: usize = 0;
    while n < capabilities.len()
        invariant
            n <= capabilities@.len(),
            least == least_of(capabilities@, n as int),
        decreases capabilities.len() - n,
    {
        least = least.min(capabilities[n]);
        n = n + 1;
    }
    least
}

/// A corridor under the default floor is cheaper than what any gun can defeat.
pub proof fn law_floor_is_under_every_gun(capabilities: Seq<F32>, gun: int, n: int)
    requires
        0 <= gun < n <= capabilities.len(),
        forall|i: int| 0 <= i < capabilities.len() ==> !(#[trigger] capabilities[i]).is_nan(),
    ensures
        least_of(capabilities, n).at_most(capabilities[gun]),
    decreases n,
{
    lemma_least(capabilities, n - 1);
    if gun < n - 1 {
        law_floor_is_under_every_gun(capabilities, gun, n - 1);
    }
    assert(!capabilities[n - 1].is_nan());
}

proof fn lemma_least(capabilities: Seq<F32>, n: int)
    requires
        0 <= n <= capabilities.len(),
        forall|i: int| 0 <= i < capabilities.len() ==> !(#[trigger] capabilities[i]).is_nan(),
    ensures
        !least_of(capabilities, n).is_nan(),
    decreases n,
{
    if n > 0 {
        lemma_least(capabilities, n - 1);
        assert(!capabilities[n - 1].is_nan());
    }
}

/// The stretch of a ray between two planes across one axis, cut with what was there;
/// none where the ray runs beside them.
pub open spec fn slab(low: F32, high: F32, origin: F32, along: F32, stretch: (F32, F32)) -> Option<(F32, F32)> {
    if along.absolute().below(F32 { bits: 0x3089_705f }) {
        if origin.below(low) || high.below(origin) {
            None
        } else {
            Some(stretch)
        }
    } else {
        let (t0, t1) = (low.difference(origin).quotient(along), high.difference(origin).quotient(along));
        let (near, far) = if t1.below(t0) {
            (t1, t0)
        } else {
            (t0, t1)
        };
        Some((stretch.0.larger(near), stretch.1.smaller(far)))
    }
}

fn cut_slab(low: F32, high: F32, origin: F32, along: F32, stretch: (F32, F32)) -> (cut: Option<(F32, F32)>)
    ensures
        cut == slab(low, high, origin, along, stretch),
{
    if along.abs().lt(F32 { bits: 0x3089_705f }) {
        if origin.lt(low) || high.lt(origin) {
            return None;
        }
        return Some(stretch);
    }
    let t0: F32 = low.minus(origin).over(along);
    let t1: F32 = high.minus(origin).over(along);
    let (near, far): (F32, F32) = if t1.lt(t0) { (t1, t0) } else { (t0, t1) };
    Some((stretch.0.max(near), stretch.1.min(far)))
}

/// Where a ray pierces the target's own box, in the target's frame.
pub open spec fn pierced(scene: Scene, ray: FuzzRay) -> Option<Vec3> {
    let origin = scene.to_local.moved(ray.origin);
    let along = scene.to_local.turned(ray.direction);
    match slab(scene.local.min.x, scene.local.max.x, origin.x, along.x, (blocked().negation(), blocked())) {
        None => None,
        Some(x) => match slab(scene.local.min.y, scene.local.max.y, origin.y, along.y, x) {
            None => None,
            Some(y) => match slab(scene.local.min.z, scene.local.max.z, origin.z, along.z, y) {
                None => None,
                Some(z) => if z.0.at_most(z.1) {
                    Some(origin.sum(along.scaled(z.0.larger(F32::zero()))))
                } else {
                    None
                },
            },
        },
    }
}

pub fn pierce_local(scene: &Scene, ray: &FuzzRay) -> (point: Option<Vec3>)
    ensures
        point == pierced(*scene, *ray),
{
    let origin: Vec3 = scene.to_local.point(ray.origin);
    let along: Vec3 = scene.to_local.vector(ray.direction);
    let all: (F32, F32) = (blocked().negated(), blocked());
    let x: (F32, F32) = match cut_slab(scene.local.min.x, scene.local.max.x, origin.x, along.x, all) {
        Some(x) => x,
        None => {
            return None;
        },
    };
    let y: (F32, F32) = match cut_slab(scene.local.min.y, scene.local.max.y, origin.y, along.y, x) {
        Some(y) => y,
        None => {
            return None;
        },
    };
    let (near, far): (F32, F32) = match cut_slab(scene.local.min.z, scene.local.max.z, origin.z, along.z, y) {
        Some(z) => z,
        None => {
            return None;
        },
    };
    if near.le(far) {
        Some(origin.plus(along.times(near.max(F32::zero()))))
    } else {
        None
    }
}

/// The side (m) of a cell.
#[verifier::allow_in_spec]
pub fn region_cell() -> F32
    returns
        (F32 { bits: 0x3e19_999a }),
{
    F32 { bits: 0x3e19_999a }
}

/// The cell of a point.
pub open spec fn cell_of(point: Vec3) -> (i32, i32, i32) {
    (
        point.x.quotient(region_cell()).floored() as i32,
        point.y.quotient(region_cell()).floored() as i32,
        point.z.quotient(region_cell()).floored() as i32,
    )
}

pub fn cell_at(point: Vec3) -> (cell: (i32, i32, i32))
    ensures
        cell == cell_of(point),
{
    (
        point.x.over(region_cell()).floor(),
        point.y.over(region_cell()).floor(),
        point.z.over(region_cell()).floor(),
    )
}

/// What a sample costs up to a distance, as it was added up.
pub open spec fn cost_upto(walks: Seq<RayWalk>, t: F64, i: int) -> real {
    prefix_of(walks[i].spans@, t, walks[i].spans@.len() as int).number()
}

/// The exact sum of what the first `n` samples cost up to a distance.
pub open spec fn costs_upto(walks: Seq<RayWalk>, t: F64, n: int) -> real {
    folding_single::total(|i: int| cost_upto(walks, t, i), n)
}

/// Every sample's cost up to a distance is a number that is not negative.
pub open spec fn are_costs(walks: Seq<RayWalk>, t: F64) -> bool {
    &&& walks.len() < 0x10_0000
    &&& forall|i: int|
        0 <= i < walks.len() ==> prefix_of((#[trigger] walks[i]).spans@, t, walks[i].spans@.len() as int).finite() && 0real
            <= cost_upto(walks, t, i)
}

proof fn lemma_costs(walks: Seq<RayWalk>, t: F64, m: int, n: int)
    requires
        are_costs(walks, t),
        0 <= m <= n <= walks.len(),
    ensures
        0real <= costs_upto(walks, t, m) <= costs_upto(walks, t, n),
    decreases n,
{
    let f = |i: int| cost_upto(walks, t, i);
    if n > m {
        lemma_costs(walks, t, m, n - 1);
        let same = walks[n - 1];
        assert(f(n - 1) == cost_upto(walks, t, n - 1));
    } else if n > 0 {
        lemma_costs(walks, t, n - 1, n - 1);
        let same = walks[n - 1];
        assert(f(n - 1) == cost_upto(walks, t, n - 1));
    }
}

proof fn lemma_costs_added(walks: Seq<RayWalk>, t: F64, n: int)
    requires
        are_costs(walks, t),
        0 <= n <= walks.len(),
        costs_upto(walks, t, walks.len() as int) < rounding::ceiling(),
    ensures
        sample_costs(walks, t, n).finite(),
        rounding::size(sample_costs(walks, t, n).number() - costs_upto(walks, t, n)) <= folding::drift(
            n,
            1real,
            costs_upto(walks, t, n),
            0real,
        ),
    decreases n,
{
    folding::lemma_small();
    let f = |i: int| cost_upto(walks, t, i);
    let zero = F64::zero();
    zero.lemma_nonnegative();
    zero.lemma_order(zero);
    let u = rounding_double::unit();
    if n > 0 {
        lemma_costs_added(walks, t, n - 1);
        lemma_costs(walks, t, n - 1, n);
        lemma_costs(walks, t, n, walks.len() as int);
        let same = walks[n - 1];
        let nr = n as real;
        let k = 2real * nr + 1real;
        assert(k <= 2097153real);
        assert(k * u <= 1real) by (nonlinear_arith)
            requires k <= 2097153real, u == 1real / 0x20_0000_0000_0000real;
        assert(2real * nr * 0real <= 1real) by (nonlinear_arith);
        let x = cost_upto(walks, t, n - 1);
        assert(f(n - 1) == x);
        let ux = u * x;
        assert(1real * u * x == ux);
        assert(ux >= 0real) by (nonlinear_arith)
            requires ux == u * x, u > 0real, x >= 0real;
        folding::lemma_fold_step(
            sample_costs(walks, t, n - 1),
            prefix_of(walks[n - 1].spans@, t, walks[n - 1].spans@.len() as int),
            costs_upto(walks, t, n - 1),
            x,
            n,
            1real,
            0real,
        );
    } else {
        assert(folding_single::total(f, 0) == 0real);
        let e = 0real;
        let k = 2real * (0int as real) + 1real;
        assert(k * u * e == 0real) by (nonlinear_arith)
            requires e == 0real;
    }
}

/// A round that reaches the target on its middle ray costs the mean of what all its samples cost up to there,
/// but for rounding.
pub proof fn law_a_round_costs_the_mean_up_to_the_target(walk: DiscWalk, target: Entity, capability: F32, reach: F64)
    requires
        walk.walks@.len() > 0,
        reach_from(walk.walks@[0].presence@, target, 0) == Some(reach),
        are_costs(walk.walks@, reach),
        costs_upto(walk.walks@, reach, walk.walks@.len() as int) < rounding::ceiling() / 8real,
    ensures
        ({
            let measurement = measured(Ok(walk), target, capability);
            let n = walk.walks@.len();
            let mean = costs_upto(walk.walks@, reach, n as int) / n as real;
            &&& measurement.capability == capability
            &&& measurement.cost.finite()
            &&& rounding::size(measurement.cost.number() - mean) <= 2real * rounding::unit() * mean + 2real
                * rounding::grain()
        }),
{
    folding::lemma_small();
    charges::lemma_grains();
    let walks = walk.walks@;
    let n = walks.len() as int;
    lemma_costs(walks, reach, n, n);
    lemma_costs_added(walks, reach, n);
    let sum = sample_costs(walks, reach, n);
    let exact = costs_upto(walks, reach, n);
    let a = 2real * (n as real) + 1real;
    let nothing = 0real;
    assert(2real * (n as real) * nothing == 0real) by (nonlinear_arith)
        requires nothing == 0real;
    charges::lemma_mean(sum, exact, a, walks.len());
    charges::lemma_single(sum.quotient(F64::whole(walks.len())), exact / walks.len() as real, a + 6real, rounding_double::grain());
}

} // verus!
