//! How far the costs of a disc's crossings lie from the mean of its samples' costs.

use crate::ballistics::walk::crossings;
use crate::ballistics::walk::disc::{DiscCorridor, DiscEvent, DiscWalk};
use crate::ballistics::walk::disc_walk;
use crate::ballistics::walk::event;
use crate::ballistics::walk::extent;
use crate::ballistics::walk::extent::Touch;
use crate::ballistics::walk::integral;
use crate::ballistics::walk::laws;
use crate::ballistics::walk::profile;
use crate::ballistics::walk::ray;
use crate::ballistics::walk::ray::RayWalk;
use crate::ballistics::walk::rising;
use crate::ballistics::walk::sharing;
use crate::ballistics::walk::sweep;
use crate::ballistics::walk::table;
use crate::ballistics::walk::vocabulary::{Entity, WalkLaws};
use crate::float::{F32, F64};
use crate::folding;
use crate::rounding;
use crate::rounding_double;
use vstd::arithmetic::power2::*;
use vstd::prelude::*;

verus! {

/// The factors that the first `n` touches meet at a distance, added exactly, as a number.
spec fn exact_slope(walks: Seq<RayWalk>, touches: Seq<Touch>, t: F64, n: int) -> real {
    sharing::crossing_at(walks, touches, t, n) as real / pow2(149) as real
}

/// The samples that are touched have regular spans.
spec fn are_regular(walks: Seq<RayWalk>, touches: Seq<Touch>) -> bool {
    forall|i: int|
        0 <= i < touches.len() ==> integral::is_regular(walks[(#[trigger] touches[i]).sample as int].spans@)
}

/// The factors that are added up are off by their roundings.
proof fn lemma_slope(walks: Seq<RayWalk>, touches: Seq<Touch>, t: F64, n: int)
    requires
        are_regular(walks, touches),
        0 <= n <= touches.len(),
        touches.len() < 0xf_ffff_ffff_ffff,
    ensures
        ({
            let (slope, exact) = (profile::slope_at(walks, touches, t, n), exact_slope(walks, touches, t, n));
            &&& slope.finite()
            &&& 0 <= slope.value()
            &&& 0real <= exact <= n as real * integral::farthest()
            &&& 0 <= sharing::crossing_at(walks, touches, t, n)
            &&& rounding::size(slope.number() - exact) <= folding::drift(n, 0real, exact, 0real)
        }),
    decreases n,
{
    let (u, h, far) = (rounding_double::unit(), pow2(149) as real, integral::farthest());
    folding::lemma_small();
    integral::lemma_farthest();
    lemma_pow2_pos(149);
    let zero = F64::zero();
    zero.lemma_nonnegative();
    let exact = exact_slope(walks, touches, t, n);
    let m = n as real;
    if n == 0 {
        zero.lemma_order(zero);
        assert(0real / h == 0real) by (nonlinear_arith)
            requires h > 0real;
        let none = 0real;
        assert((2real * none + 0real) * u * none + 2real * none * none == 0real && none * far == 0real)
            by (nonlinear_arith)
            requires none == 0real;
    } else {
        lemma_slope(walks, touches, t, n - 1);
        let before = exact_slope(walks, touches, t, n - 1);
        let sum = profile::slope_at(walks, touches, t, n - 1);
        let walk = walks[touches[n - 1].sample as int];
        let (low, part) = (
            sharing::crossing_at(walks, touches, t, n - 1),
            sharing::touch_at(walks, touches, t, n - 1),
        );
        let x = part as real / h;
        assert((low + part) as real / h == low as real / h + part as real / h) by (nonlinear_arith)
            requires h > 0real;
        assert((m - 1real) * far == m * far - far) by (nonlinear_arith);
        assert((n - 1) as real == m - 1real);
        let found = profile::span_at(walk.spans@, t, 0);
        if profile::in_runs(walk, touches[n - 1].runs@, t) && found is Some {
            let span = found->Some_0;
            assert(integral::is_regular(walk.spans@));
            rising::lemma_span_listed(walk.spans@, t, 0);
            span.factor.lemma_nonnegative();
            span.factor.lemma_order(F32::zero());
            span.factor.lemma_limit();
            span.factor.lemma_doubled_number();
            let term = span.factor.doubled();
            assert(x == term.number());
            assert((2real * m + 0real) * u <= 1real) by (nonlinear_arith)
                requires 0real <= m <= 0xf_ffff_ffff_fffereal, u == 1real / 0x20_0000_0000_0000real;
            lemma_bound(m, far);
            assert(0real * u * x + 0real == 0real) by (nonlinear_arith);
            assert(2real * m * 0real == 0real) by (nonlinear_arith);
            folding::lemma_fold_step(sum, term, before, x, n, 0real, 0real);
            term.lemma_order(zero);
            F32::zero().lemma_nonnegative();
            sum.lemma_sum_more(term);
        } else {
            assert(part == 0);
            assert(0real / h == 0real) by (nonlinear_arith)
                requires h > 0real;
            lemma_drift_grows(n, 0real, exact, 0real);
        }
    }
}

/// As many factors as there can be samples lie below the ceiling.
proof fn lemma_bound(m: real, far: real)
    requires
        0real <= m <= 0xf_ffff_ffff_fffereal,
        far == integral::farthest(),
    ensures
        m * far < rounding_double::ceiling() / 1000real,
        (m * far) * (2real * far) < rounding_double::ceiling() / 1000real,
{
    lemma2_to64();
    lemma2_to64_rest();
    integral::lemma_farthest();
    lemma_pow2_adds(64, 128);
    lemma_pow2_adds(192, 128);
    lemma_pow2_adds(320, 20);
    lemma_pow2_strictly_increases(192, 320);
    lemma_pow2_strictly_increases(340, 1000);
    let (a, b, c) = (pow2(64) as real, pow2(192) as real, pow2(320) as real);
    let top = pow2(1000) as real;
    assert(pow2(64) == 0x1_0000_0000_0000_0000 && pow2(20) == 0x10_0000);
    assert(a * far == b) by (nonlinear_arith)
        requires pow2(192) == pow2(64) * pow2(128), a == pow2(64) as real, far == pow2(128) as real, b == pow2(192) as real;
    assert(b * far == c) by (nonlinear_arith)
        requires pow2(320) == pow2(192) * pow2(128), b == pow2(192) as real, far == pow2(128) as real, c == pow2(320) as real;
    assert(1048576real * c < top) by (nonlinear_arith)
        requires pow2(340) == pow2(320) * pow2(20), pow2(20) == 0x10_0000, pow2(340) < pow2(1000), c == pow2(320) as real, top == pow2(1000) as real;
    let mf = m * far;
    assert(mf <= b) by (nonlinear_arith)
        requires mf == m * far, m <= a, a * far == b, far >= 1real;
    assert(mf * (2real * far) <= 2real * c) by (nonlinear_arith)
        requires mf <= b, b * far == c, far >= 1real;
}

proof fn lemma_drift_grows(n: int, a: real, exact: real, g: real)
    requires
        0real <= exact,
        0real <= g,
    ensures
        folding::drift(n - 1, a, exact, g) <= folding::drift(n, a, exact, g),
{
    folding::lemma_small();
    let (u, m) = (rounding_double::unit(), n as real);
    assert((n - 1) as real == m - 1real);
    let (x, y) = ((2real * (m - 1real) + a) * u, (2real * m + a) * u);
    assert(x * exact <= y * exact) by (nonlinear_arith)
        requires x == (2real * (m - 1real) + a) * u, y == (2real * m + a) * u, u > 0real, exact >= 0real;
    assert(2real * (m - 1real) * g <= 2real * m * g) by (nonlinear_arith)
        requires g >= 0real;
}

/// How many roundings a stretch of a crossing of so many samples is off by.
pub open spec fn stretch_roundings(touched: nat) -> real {
    2real * touched as real + 10real
}

/// What one stretch costs, as it is rounded.
proof fn lemma_stretch(walks: Seq<RayWalk>, touches: Seq<Touch>, a: F64, b: F64, k: nat)
    requires
        are_regular(walks, touches),
        touches.len() < 0xf_ffff_ffff_fff0,
        a.finite(),
        b.finite(),
        0 <= a.value() < b.value(),
        b.number() < integral::farthest(),
        0 < k <= u64::MAX,
    ensures
        ({
            let mid = profile::midpoint(a, b);
            let slope = profile::slope_at(walks, touches, mid, touches.len() as int);
            let term = b.difference(a).product(slope).quotient(F64::whole(k));
            let exact = (b.number() - a.number()) * exact_slope(walks, touches, mid, touches.len() as int) / k as real;
            &&& term.finite()
            &&& 0 <= term.value()
            &&& 0real <= exact
            &&& folding::is_near(
                term.number(),
                exact,
                stretch_roundings(touches.len()),
                5real * rounding_double::grain(),
            )
        }),
{
    let (u, g, far) = (rounding_double::unit(), rounding_double::grain(), integral::farthest());
    folding::lemma_small();
    integral::lemma_farthest();
    let m = touches.len() as real;
    let mid = profile::midpoint(a, b);
    let all = touches.len() as int;
    lemma_slope(walks, touches, mid, all);
    let (slope, s) = (profile::slope_at(walks, touches, mid, all), exact_slope(walks, touches, mid, all));
    a.lemma_order(b);
    a.lemma_order(F64::zero());
    F64::zero().lemma_nonnegative();
    let w = b.number() - a.number();
    assert((2real * m + 10real) * u <= 1real) by (nonlinear_arith)
        requires 0real <= m <= 0xf_ffff_ffff_fff0real, u == 1real / 0x20_0000_0000_0000real;
    let r = 2real * m;
    assert(r * u <= 1real && (r + 2real) * u <= 1real && (r + 4real) * u <= 1real && (r + 8real) * u <= 1real)
        by (nonlinear_arith)
        requires (2real * m + 10real) * u <= 1real, r == 2real * m, u > 0real;
    // the length
    b.lemma_difference_error(a);
    let gap = b.difference(a);
    let d = gap.number();
    assert(1real * u * w + 0real == u * w) by (nonlinear_arith);
    assert(folding::is_near(d, w, 1real, 0real));
    assert(u * w <= w && u * w >= 0real) by (nonlinear_arith)
        requires 0real < u, 100real * u <= 1real, w > 0real;
    // the factors
    assert((2real * (all as real) + 0real) * u * s + 2real * (all as real) * 0real == r * u * s) by (nonlinear_arith)
        requires r == 2real * m, m == all as real;
    assert(folding::is_near(slope.number(), s, r, 0real)) by {
        assert(r * u * s + 0real == r * u * s);
    }
    folding::lemma_near_product(d, w, slope.number(), s, r);
    // their product
    let x = w * s;
    let y = d * slope.number();
    slope.lemma_order(F64::zero());
    gap.lemma_order(F64::zero());
    assert(0real <= x) by (nonlinear_arith)
        requires x == w * s, w > 0real, s >= 0real;
    lemma_bound(m, far);
    let mf = m * far;
    assert(x <= mf * far) by (nonlinear_arith)
        requires x == w * s, 0real < w <= far, 0real <= s <= mf, mf == m * far;
    assert(mf * (2real * far) == 2real * (mf * far)) by (nonlinear_arith);
    let rx = (r + 2real) * u * x;
    assert(rx <= x) by (nonlinear_arith)
        requires rx == (r + 2real) * u * x, (r + 2real) * u <= 1real, x >= 0real;
    assert(y <= 2real * x && y >= 0real) by {
        assert(y >= 0real) by (nonlinear_arith)
            requires y == d * slope.number(), d >= 0real, slope.number() >= 0real;
    }
    gap.lemma_product_error(slope);
    let part = gap.product(slope);
    folding::lemma_near_rounded(part.number(), y, x, r + 2real, 0real, g);
    assert(2real * 0real + g == g);
    gap.lemma_product_grows(slope, slope);
    part.lemma_order(F64::zero());
    // over the count
    let (c, kr) = (F64::whole(k), k as real);
    F64::lemma_count_error(k);
    F64::lemma_count(k);
    folding::lemma_near_quotient(part.number(), x, r + 4real, g, c.number(), kr);
    let (q, z) = (part.number() / c.number(), x / kr);
    assert(0real <= z <= x) by (nonlinear_arith)
        requires z == x / kr, kr >= 1real, x >= 0real;
    assert(q >= 0real) by (nonlinear_arith)
        requires q == part.number() / c.number(), c.number() > 0real, part.number() >= 0real;
    let rz = (r + 8real) * u * z;
    assert(rz <= z) by (nonlinear_arith)
        requires rz == (r + 8real) * u * z, (r + 8real) * u <= 1real, z >= 0real;
    assert(r + 4real + 4real == r + 8real);
    part.lemma_quotient_error(c);
    let term = part.quotient(c);
    part.lemma_quotient_number(c);
    folding::lemma_near_rounded(term.number(), q, z, r + 8real, 2real * g, g);
    assert(2real * (2real * g) + g == 5real * g);
}

/// The exact mean cost of the first `n` stretches, as a number.
pub open spec fn exact_mean(walks: Seq<RayWalk>, touches: Seq<Touch>, ts: Seq<F64>, k: nat, n: int) -> real {
    sweep::stretched(walks, touches, ts, n) as real / (pow2(1074) as real * pow2(149) as real) / k as real
}

/// How far the mean cost that is accumulated over `n` stretches can lie from the exact one.
pub open spec fn mean_drift(touched: nat, n: int, exact: real) -> real {
    folding::drift(n, stretch_roundings(touched), exact, 5real * rounding_double::grain())
}

proof fn lemma_mean_step(walks: Seq<RayWalk>, touches: Seq<Touch>, ts: Seq<F64>, k: nat, n: int)
    requires
        0 < n,
        0 < k,
    ensures
        exact_mean(walks, touches, ts, k, n) == exact_mean(walks, touches, ts, k, n - 1) + (ts[n].number() - ts[n
            - 1].number()) * exact_slope(
            walks,
            touches,
            profile::midpoint(ts[n - 1], ts[n]),
            touches.len() as int,
        ) / k as real,
{
    let (g, h, kr) = (pow2(1074) as real, pow2(149) as real, k as real);
    lemma_pow2_pos(1074);
    lemma_pow2_pos(149);
    let (s, e) = (ts[n - 1].value(), ts[n].value());
    let f = sharing::crossing_at(walks, touches, profile::midpoint(ts[n - 1], ts[n]), touches.len() as int);
    let (before, after) = (sweep::stretched(walks, touches, ts, n - 1), sweep::stretched(walks, touches, ts, n));
    let part = (e - s) * f;
    assert(after == before + part);
    let (sr, er, fr) = (s as real, e as real, f as real);
    assert(part as real == (er - sr) * fr) by (nonlinear_arith)
        requires part == (e - s) * f, sr == s as real, er == e as real, fr == f as real;
    let w = er / g - sr / g;
    let all = g * h;
    assert(all > 0real) by (nonlinear_arith)
        requires all == g * h, g > 0real, h > 0real;
    let wide = er - sr;
    assert(w == wide / g) by (nonlinear_arith)
        requires w == er / g - sr / g, wide == er - sr, g > 0real;
    let x = w * (fr / h);
    assert((wide * fr) / all == (wide / g) * (fr / h)) by (nonlinear_arith)
        requires all == g * h, g > 0real, h > 0real;
    let (b, p) = (before as real, part as real);
    assert((b + p) / all == b / all + p / all) by (nonlinear_arith)
        requires all > 0real;
    let (y, z) = (b / all, p / all);
    assert((y + z) / kr == y / kr + z / kr) by (nonlinear_arith)
        requires kr > 0real;
}

/// A crossing's exact cost is not negative and grows with its stretches.
proof fn lemma_stretched_grows(walks: Seq<RayWalk>, touches: Seq<Touch>, ts: Seq<F64>, m: int, n: int)
    requires
        are_regular(walks, touches),
        touches.len() < 0xf_ffff_ffff_ffff,
        forall|i: int, j: int| 0 <= i < j < ts.len() ==> (#[trigger] ts[i]).below(#[trigger] ts[j]),
        0 <= m <= n < ts.len(),
    ensures
        0 <= sweep::stretched(walks, touches, ts, m) <= sweep::stretched(walks, touches, ts, n),
    decreases n,
{
    if n > 0 {
        let mid = profile::midpoint(ts[n - 1], ts[n]);
        lemma_slope(walks, touches, mid, touches.len() as int);
        let f = sharing::crossing_at(walks, touches, mid, touches.len() as int);
        assert(ts[n - 1].below(ts[n]));
        let w = ts[n].value() - ts[n - 1].value();
        assert(w * f >= 0) by (nonlinear_arith)
            requires w >= 0, f >= 0;
        if m < n {
            lemma_stretched_grows(walks, touches, ts, m, n - 1);
        } else {
            lemma_stretched_grows(walks, touches, ts, n - 1, n - 1);
        }
    }
}

/// As many breaks and samples as can be held in memory.
pub open spec fn is_countable(event: DiscEvent, touches: Seq<Touch>) -> bool {
    event.profile.ts@.len() + touches.len() < 0xf_ffff_ffff_fff0
}

/// A share of a count over a weight.
proof fn lemma_shared(low: int, high: int, k: nat)
    requires
        0 <= low <= high,
        0 < k,
    ensures
        ({
            let all = pow2(1074) as real * pow2(149) as real;
            0real <= low as real / all / k as real <= high as real / all / k as real
        }),
{
    lemma_pow2_pos(1074);
    lemma_pow2_pos(149);
    let all = pow2(1074) as real * pow2(149) as real;
    assert(all > 0real) by (nonlinear_arith)
        requires all == pow2(1074) as real * pow2(149) as real, pow2(1074) > 0, pow2(149) > 0;
    let (a, b, kr) = (low as real, high as real, k as real);
    let (x, y) = (a / all, b / all);
    assert(0real <= x <= y) by (nonlinear_arith)
        requires x == a / all, y == b / all, 0real <= a <= b, all > 0real;
    assert(0real <= x / kr <= y / kr) by (nonlinear_arith)
        requires 0real <= x <= y, kr > 0real;
}

/// What is accumulated over the first `n` stretches of a crossing.
proof fn lemma_accumulated(walks: Seq<RayWalk>, touches: Seq<Touch>, event: DiscEvent, k: nat, n: int)
    requires
        are_regular(walks, touches),
        is_countable(event, touches),
        rising::is_spanned(event),
        forall|i: int| 0 <= i < event.profile.ts@.len() ==> (#[trigger] event.profile.ts@[i]).number() < integral::farthest(),
        0 < k <= u64::MAX,
        0 <= n < event.profile.ts@.len(),
        exact_mean(walks, touches, event.profile.ts@, k, event.profile.ts@.len() - 1) < rounding::ceiling() / 8real,
    ensures
        ({
            let (sum, exact) = (
                profile::cumulative_at(walks, touches, event.profile.ts@, k, n),
                exact_mean(walks, touches, event.profile.ts@, k, n),
            );
            &&& sum.finite()
            &&& 0 <= sum.value()
            &&& 0real <= exact < rounding::ceiling() / 8real
            &&& rounding::size(sum.number() - exact) <= mean_drift(touches.len(), n, exact)
        }),
    decreases n,
{
    let ts = event.profile.ts@;
    let (u, g) = (rounding_double::unit(), rounding_double::grain());
    let five = 5real * g;
    let roundings = stretch_roundings(touches.len());
    folding::lemma_small();
    lemma_stretched_grows(walks, touches, ts, n, ts.len() - 1);
    lemma_shared(
        sweep::stretched(walks, touches, ts, n),
        sweep::stretched(walks, touches, ts, ts.len() - 1),
        k,
    );
    let exact = exact_mean(walks, touches, ts, k, n);
    let m = n as real;
    if n == 0 {
        let zero = F64::zero();
        zero.lemma_nonnegative();
        zero.lemma_order(zero);
        lemma_pow2_pos(1074);
        lemma_pow2_pos(149);
        let (all, kr) = (pow2(1074) as real * pow2(149) as real, k as real);
        assert(all > 0real) by (nonlinear_arith)
            requires all == pow2(1074) as real * pow2(149) as real, pow2(1074) > 0, pow2(149) > 0;
        assert(0real / all == 0real && 0real / kr == 0real) by (nonlinear_arith)
            requires all > 0real, kr > 0real;
        let none = 0real;
        assert((2real * none + roundings) * u * none + 2real * none * five == 0real) by (nonlinear_arith)
            requires none == 0real;
    } else {
        lemma_accumulated(walks, touches, event, k, n - 1);
        lemma_mean_step(walks, touches, ts, k, n);
        let (a, b) = (ts[n - 1], ts[n]);
        assert(a.finite() && b.finite() && 0 <= a.value() && a.below(b));
        assert(b.number() < integral::farthest());
        lemma_stretch(walks, touches, a, b, k);
        let mid = profile::midpoint(a, b);
        let x = (b.number() - a.number()) * exact_slope(walks, touches, mid, touches.len() as int) / k as real;
        let before = exact_mean(walks, touches, ts, k, n - 1);
        let sum = profile::cumulative_at(walks, touches, ts, k, n - 1);
        let slope = profile::slope_at(walks, touches, mid, touches.len() as int);
        let term = b.difference(a).product(slope).quotient(F64::whole(k));
        let t = touches.len() as real;
        assert((2real * m + roundings) * u <= 1real) by (nonlinear_arith)
            requires
                roundings == 2real * t + 10real,
                m + t <= 0xf_ffff_ffff_fff0real,
                m >= 0real,
                t >= 0real,
                u == 1real / 0x20_0000_0000_0000real;
        assert(2real * m * five <= 1real) by (nonlinear_arith)
            requires
                0real <= m <= 0xf_ffff_ffff_fff0real,
                five == 5real * g,
                0x1_0000_0000_0000_0000real * g <= 1real,
                g > 0real;
        folding::lemma_fold_step(sum, term, before, x, n, roundings, five);
        sum.lemma_sum_more(term);
    }
}

/// The exact mean cost of a crossing.
pub open spec fn event_exact(walks: Seq<RayWalk>, touches: Seq<Touch>, event: DiscEvent, k: nat) -> real {
    exact_mean(walks, touches, event.profile.ts@, k, event.profile.ts@.len() - 1)
}

/// How far the cost that a crossing reports can lie from its exact mean cost: by the roundings of the
/// sum over its stretches, and by one rounding to single precision.
pub open spec fn event_off(walks: Seq<RayWalk>, touches: Seq<Touch>, event: DiscEvent, k: nat) -> real {
    let exact = event_exact(walks, touches, event, k);
    integral::rounded_once(exact, mean_drift(touches.len(), event.profile.ts@.len() - 1, exact))
}

/// How far the cost that a sample reports can lie from its exact cost.
pub open spec fn sample_off(walk: RayWalk) -> real {
    let n = walk.spans@.len() as int;
    let exact = integral::exact_cost(walk.spans@, n);
    integral::rounded_once(exact, integral::ray_drift(n, exact))
}

/// The reported cost of one crossing.
proof fn lemma_event(walks: Seq<RayWalk>, touches: Seq<Touch>, event: DiscEvent, corridor: DiscCorridor)
    requires
        are_regular(walks, touches),
        is_countable(event, touches),
        event::is_event(event, corridor, walks, touches),
        rising::is_spanned(event),
        forall|i: int| 0 <= i < event.profile.ts@.len() ==> (#[trigger] event.profile.ts@[i]).number() < integral::farthest(),
        0 < corridor.samples@.len() <= u64::MAX,
        event_exact(walks, touches, event, corridor.samples@.len()) < rounding::ceiling() / 8real,
    ensures
        event.cost.finite(),
        rounding::size(event.cost.number() - event_exact(walks, touches, event, corridor.samples@.len())) <= event_off(
            walks,
            touches,
            event,
            corridor.samples@.len(),
        ),
{
    let k = corridor.samples@.len();
    let ts = event.profile.ts@;
    let n = ts.len() - 1;
    let exact = event_exact(walks, touches, event, k);
    let drift = mean_drift(touches.len(), n, exact);
    lemma_accumulated(walks, touches, event, k, n);
    folding::lemma_small();
    let (u, g) = (rounding_double::unit(), rounding_double::grain());
    let (m, t) = (n as real, touches.len() as real);
    let five = 5real * g;
    let roundings = stretch_roundings(touches.len());
    let part = (2real * m + roundings) * u;
    assert(0real <= part <= 1real) by (nonlinear_arith)
        requires
            part == (2real * m + roundings) * u,
            roundings == 2real * t + 10real,
            m + t <= 0xf_ffff_ffff_fff0real,
            m >= 0real,
            t >= 0real,
            u == 1real / 0x20_0000_0000_0000real;
    assert(0real <= part * exact <= exact) by (nonlinear_arith)
        requires 0real <= part <= 1real, exact >= 0real;
    assert(0real <= 2real * m * five <= 1real) by (nonlinear_arith)
        requires
            0real <= m <= 0xf_ffff_ffff_fff0real,
            five == 5real * g,
            0x1_0000_0000_0000_0000real * g <= 1real,
            g > 0real;
    let sum = profile::cumulative_at(walks, touches, ts, k, n);
    assert(event.profile.cumulative@[n] == sum);
    integral::lemma_once(sum, exact, drift);
}

/// The costs that the first `n` crossings report, added exactly.
pub open spec fn events_cost(events: Seq<DiscEvent>, n: int) -> real
    decreases n,
{
    if n <= 0 {
        0real
    } else {
        events_cost(events, n - 1) + events[n - 1].cost.number()
    }
}

/// How far the costs that the first `n` crossings report can be off together.
pub open spec fn events_off(
    walks: Seq<RayWalk>,
    groups: Seq<Seq<Touch>>,
    events: Seq<DiscEvent>,
    k: nat,
    n: int,
) -> real
    decreases n,
{
    if n <= 0 {
        0real
    } else {
        events_off(walks, groups, events, k, n - 1) + event_off(walks, groups[n - 1], events[n - 1], k)
    }
}

/// The costs that the first `n` samples report, added exactly.
pub open spec fn samples_cost(walks: Seq<RayWalk>, n: int) -> real
    decreases n,
{
    if n <= 0 {
        0real
    } else {
        samples_cost(walks, n - 1) + walks[n - 1].cost.number()
    }
}

/// How far the costs that the first `n` samples report can be off together.
pub open spec fn samples_off(walks: Seq<RayWalk>, n: int) -> real
    decreases n,
{
    if n <= 0 {
        0real
    } else {
        samples_off(walks, n - 1) + sample_off(walks[n - 1])
    }
}

/// The samples' reported costs are off from the exact ones.
proof fn lemma_samples(
    walk: DiscWalk,
    corridor: DiscCorridor,
    laws: WalkLaws,
    rows: Seq<(Entity, F32)>,
    factors: Map<Entity, F32>,
    n: int,
)
    requires
        disc_walk::is_disc_walk(walk, corridor, laws, rows, factors),
        table::ordered(rows),
        forall|s: int| 0 <= s < walk.walks@.len() ==> integral::is_measured(#[trigger] walk.walks@[s]),
        0 <= n <= walk.walks@.len(),
    ensures
        ({
            let exact = sweep::samples_exact(walk.walks@, n) as real / (pow2(1074) as real * pow2(149) as real);
            &&& rounding::size(samples_cost(walk.walks@, n) - exact) <= samples_off(walk.walks@, n)
            &&& 0real <= exact <= n as real * (rounding::ceiling() / 8real)
            &&& n > 0 ==> exact < n as real * (rounding::ceiling() / 8real)
        }),
    decreases n,
{
    let walks = walk.walks@;
    let top = rounding::ceiling() / 8real;
    folding::lemma_small();
    lemma_pow2_pos(1074);
    lemma_pow2_pos(149);
    let all = pow2(1074) as real * pow2(149) as real;
    assert(all > 0real) by (nonlinear_arith)
        requires all == pow2(1074) as real * pow2(149) as real, pow2(1074) > 0, pow2(149) > 0;
    if n == 0 {
        assert(0real / all == 0real && 0real * top == 0real) by (nonlinear_arith)
            requires all > 0real;
    } else {
        lemma_samples(walk, corridor, laws, rows, factors, n - 1);
        let own = disc_walk::sample_corridor(corridor, n - 1);
        assert(ray::is_walk(walks[n - 1], own, laws, rows, factors));
        assert(disc_walk::walkable(corridor, laws, factors, n - 1));
        integral::law_a_cost_is_the_integral(walks[n - 1], own, laws, rows, factors);
        integral::lemma_regular(walks[n - 1], own, laws, rows, factors);
        let spans = walks[n - 1].spans@;
        integral::lemma_exact_grows(spans, 0, spans.len() as int);
        let (a, b) = (
            sweep::samples_exact(walks, n - 1) as real,
            laws::integral_of(spans, spans.len() as int) as real,
        );
        assert((a + b) / all == a / all + b / all) by (nonlinear_arith)
            requires all > 0real;
        let m = n as real;
        assert((n - 1) as real == m - 1real);
        assert((m - 1real) * top == m * top - top) by (nonlinear_arith);
    }
}

/// The samples of a crossing have regular spans.
proof fn lemma_touched(
    walk: DiscWalk,
    corridor: DiscCorridor,
    laws: WalkLaws,
    rows: Seq<(Entity, F32)>,
    factors: Map<Entity, F32>,
    groups: Seq<Seq<Touch>>,
    e: int,
)
    requires
        disc_walk::is_disc_walk(walk, corridor, laws, rows, factors),
        table::ordered(rows),
        crossings::shares_out(walk, corridor, groups),
        0 <= e < walk.events@.len(),
    ensures
        are_regular(walk.walks@, groups[e]),
        rising::is_spanned(walk.events@[e]),
        event::is_event(walk.events@[e], corridor, walk.walks@, groups[e]),
        forall|i: int|
            0 <= i < walk.events@[e].profile.ts@.len() ==> (#[trigger] walk.events@[e].profile.ts@[i]).number()
                < integral::farthest(),
        0 < corridor.samples@.len() <= u64::MAX,
{
    let (walks, touches, event) = (walk.walks@, groups[e], walk.events@[e]);
    assert(touches.len() > 0 && extent::touches_fit(touches, corridor, walks));
    assert forall|i: int| 0 <= i < touches.len() implies integral::is_regular(
        walks[(#[trigger] touches[i]).sample as int].spans@,
    ) by {
        let s = touches[i].sample as int;
        assert(ray::is_walk(walks[s], disc_walk::sample_corridor(corridor, s), laws, rows, factors));
        assert(disc_walk::walkable(corridor, laws, factors, s));
        integral::lemma_regular(walks[s], disc_walk::sample_corridor(corridor, s), laws, rows, factors);
    }
    assert(touches[0].sample < walks.len());
    assert(walk.walks.len() == corridor.samples@.len());
    rising::law_a_profile_spans_its_crossing(walk, corridor, laws, rows, factors, e);
    rising::lemma_group(walk, corridor, laws, rows, factors, groups, e);
    let to = corridor.length.doubled();
    rising::lemma_ends_within(walks, touches, to.value(), touches.len() as int);
    let s = touches[0].sample as int;
    assert(ray::is_walk(walks[s], disc_walk::sample_corridor(corridor, s), laws, rows, factors));
    assert(disc_walk::walkable(corridor, laws, factors, s));
    corridor.length.lemma_doubled_number();
    corridor.length.lemma_limit();
    let ts = event.profile.ts@;
    assert forall|i: int| 0 <= i < ts.len() implies (#[trigger] ts[i]).number() < integral::farthest() by {
        let last = ts.len() - 1;
        if i < last {
            assert(ts[i].below(ts[last]));
        }
        to.lemma_order(ts[i]);
    }
}

/// The exact costs of crossings are not negative.
proof fn lemma_events_positive(
    walk: DiscWalk,
    corridor: DiscCorridor,
    laws: WalkLaws,
    rows: Seq<(Entity, F32)>,
    factors: Map<Entity, F32>,
    groups: Seq<Seq<Touch>>,
    m: int,
    n: int,
)
    requires
        disc_walk::is_disc_walk(walk, corridor, laws, rows, factors),
        table::ordered(rows),
        crossings::shares_out(walk, corridor, groups),
        forall|e: int| 0 <= e < walk.events@.len() ==> is_countable(#[trigger] walk.events@[e], groups[e]),
        0 <= m <= n <= walk.events@.len(),
    ensures
        0 <= sweep::events_exact(walk.walks@, groups, walk.events@, m) <= sweep::events_exact(
            walk.walks@,
            groups,
            walk.events@,
            n,
        ),
        n > 0 ==> 0 <= sweep::stretched(
            walk.walks@,
            groups[n - 1],
            walk.events@[n - 1].profile.ts@,
            walk.events@[n - 1].profile.ts@.len() - 1,
        ),
    decreases n,
{
    if n > 0 {
        lemma_touched(walk, corridor, laws, rows, factors, groups, n - 1);
        let ts = walk.events@[n - 1].profile.ts@;
        assert(is_countable(walk.events@[n - 1], groups[n - 1]));
        lemma_stretched_grows(walk.walks@, groups[n - 1], ts, 0, ts.len() - 1);
        if m < n {
            lemma_events_positive(walk, corridor, laws, rows, factors, groups, m, n - 1);
        } else {
            lemma_events_positive(walk, corridor, laws, rows, factors, groups, n - 1, n - 1);
        }
    }
}

/// The exact mean cost of the first `n` crossings.
spec fn events_mean(walks: Seq<RayWalk>, groups: Seq<Seq<Touch>>, events: Seq<DiscEvent>, k: nat, n: int) -> real {
    sweep::events_exact(walks, groups, events, n) as real / (pow2(1074) as real * pow2(149) as real) / k as real
}

proof fn lemma_mean_adds(walks: Seq<RayWalk>, groups: Seq<Seq<Touch>>, events: Seq<DiscEvent>, k: nat, n: int)
    requires
        0 < k,
    ensures
        n <= 0 ==> events_mean(walks, groups, events, k, n) == 0real,
        n > 0 ==> events_mean(walks, groups, events, k, n) == events_mean(walks, groups, events, k, n - 1) + event_exact(
            walks,
            groups[n - 1],
            events[n - 1],
            k,
        ),
{
    lemma_pow2_pos(1074);
    lemma_pow2_pos(149);
    let (all, kr) = (pow2(1074) as real * pow2(149) as real, k as real);
    assert(all > 0real) by (nonlinear_arith)
        requires all == pow2(1074) as real * pow2(149) as real, pow2(1074) > 0, pow2(149) > 0;
    if n <= 0 {
        assert(0real / all == 0real && 0real / kr == 0real) by (nonlinear_arith)
            requires all > 0real, kr > 0real;
    } else {
        let ts = events[n - 1].profile.ts@;
        let own = sweep::stretched(walks, groups[n - 1], ts, ts.len() - 1);
        let (a, b) = (sweep::events_exact(walks, groups, events, n - 1) as real, own as real);
        assert((a + b) / all == a / all + b / all) by (nonlinear_arith)
            requires all > 0real;
        let (x, y) = (a / all, b / all);
        assert((x + y) / kr == x / kr + y / kr) by (nonlinear_arith)
            requires kr > 0real;
    }
}

/// A crossing costs the mean of what its samples meet in it, as nearly as the numbers allow: off by the
/// roundings of the sum over its stretches, and by one rounding to single precision.
pub proof fn law_a_crossing_costs_its_mean(
    walk: DiscWalk,
    corridor: DiscCorridor,
    laws: WalkLaws,
    rows: Seq<(Entity, F32)>,
    factors: Map<Entity, F32>,
    groups: Seq<Seq<Touch>>,
    e: int,
)
    requires
        disc_walk::is_disc_walk(walk, corridor, laws, rows, factors),
        table::ordered(rows),
        crossings::shares_out(walk, corridor, groups),
        0 <= e < walk.events@.len(),
        is_countable(walk.events@[e], groups[e]),
        event_exact(walk.walks@, groups[e], walk.events@[e], walk.walks@.len()) < rounding::ceiling() / 8real,
    ensures
        walk.events@[e].cost.finite(),
        rounding::size(
            walk.events@[e].cost.number() - event_exact(walk.walks@, groups[e], walk.events@[e], walk.walks@.len()),
        ) <= event_off(walk.walks@, groups[e], walk.events@[e], walk.walks@.len()),
{
    lemma_touched(walk, corridor, laws, rows, factors, groups, e);
    lemma_event(walk.walks@, groups[e], walk.events@[e], corridor);
}

/// One crossing's reported cost is off from the exact one.
proof fn lemma_one_event(
    walk: DiscWalk,
    corridor: DiscCorridor,
    laws: WalkLaws,
    rows: Seq<(Entity, F32)>,
    factors: Map<Entity, F32>,
    groups: Seq<Seq<Touch>>,
    e: int,
)
    requires
        disc_walk::is_disc_walk(walk, corridor, laws, rows, factors),
        table::ordered(rows),
        crossings::shares_out(walk, corridor, groups),
        forall|e: int| 0 <= e < walk.events@.len() ==> is_countable(#[trigger] walk.events@[e], groups[e]),
        0 <= e < walk.events@.len(),
        events_mean(walk.walks@, groups, walk.events@, corridor.samples@.len(), walk.events@.len() as int)
            < rounding::ceiling() / 8real,
    ensures
        rounding::size(
            walk.events@[e].cost.number() - event_exact(
                walk.walks@,
                groups[e],
                walk.events@[e],
                corridor.samples@.len(),
            ),
        ) <= event_off(walk.walks@, groups[e], walk.events@[e], corridor.samples@.len()),
{
    let (walks, events, k) = (walk.walks@, walk.events@, corridor.samples@.len());
    let (touches, event) = (groups[e], events[e]);
    lemma_touched(walk, corridor, laws, rows, factors, groups, e);
    lemma_events_positive(walk, corridor, laws, rows, factors, groups, e, e + 1);
    lemma_events_positive(walk, corridor, laws, rows, factors, groups, e + 1, events.len() as int);
    let own = sweep::stretched(walks, touches, event.profile.ts@, event.profile.ts@.len() - 1);
    let whole = sweep::events_exact(walks, groups, events, events.len() as int);
    assert(0 <= own <= whole);
    lemma_shared(own, whole, k);
    assert(is_countable(event, touches));
    law_a_crossing_costs_its_mean(walk, corridor, laws, rows, factors, groups, e);
}

/// The crossings' reported costs are off from the exact ones.
proof fn lemma_events(
    walk: DiscWalk,
    corridor: DiscCorridor,
    laws: WalkLaws,
    rows: Seq<(Entity, F32)>,
    factors: Map<Entity, F32>,
    groups: Seq<Seq<Touch>>,
    n: int,
)
    requires
        disc_walk::is_disc_walk(walk, corridor, laws, rows, factors),
        table::ordered(rows),
        crossings::shares_out(walk, corridor, groups),
        forall|e: int| 0 <= e < walk.events@.len() ==> is_countable(#[trigger] walk.events@[e], groups[e]),
        0 <= n <= walk.events@.len(),
        events_mean(walk.walks@, groups, walk.events@, corridor.samples@.len(), walk.events@.len() as int)
            < rounding::ceiling() / 8real,
        0 < corridor.samples@.len(),
    ensures
        rounding::size(
            events_cost(walk.events@, n) - events_mean(walk.walks@, groups, walk.events@, corridor.samples@.len(), n),
        ) <= events_off(walk.walks@, groups, walk.events@, corridor.samples@.len(), n),
    decreases n,
{
    lemma_mean_adds(walk.walks@, groups, walk.events@, corridor.samples@.len(), n);
    if n > 0 {
        lemma_events(walk, corridor, laws, rows, factors, groups, n - 1);
        lemma_one_event(walk, corridor, laws, rows, factors, groups, n - 1);
    }
}

/// The costs of a disc's crossings add up to the mean of its samples' costs, as nearly as the
/// numbers allow: as many times as there are samples, the crossings' costs are the samples' costs,
/// off by what the two can be off by rounding.
pub proof fn law_crossings_cost_the_mean(
    walk: DiscWalk,
    corridor: DiscCorridor,
    laws: WalkLaws,
    rows: Seq<(Entity, F32)>,
    factors: Map<Entity, F32>,
    groups: Seq<Seq<Touch>>,
)
    requires
        disc_walk::is_disc_walk(walk, corridor, laws, rows, factors),
        table::ordered(rows),
        crossings::shares_out(walk, corridor, groups),
        forall|s: int| 0 <= s < walk.walks@.len() ==> integral::is_measured(#[trigger] walk.walks@[s]),
        forall|e: int|
            0 <= e < walk.events@.len() ==> sweep::has_middles((#[trigger] walk.events@[e]).profile.ts@) && is_countable(
                walk.events@[e],
                groups[e],
            ),
    ensures
        ({
            let k = walk.walks@.len();
            let (events, n) = (walk.events@, walk.events@.len() as int);
            rounding::size(k as real * events_cost(events, n) - samples_cost(walk.walks@, k as int)) <= k as real
                * events_off(walk.walks@, groups, events, k, n) + samples_off(walk.walks@, k as int)
        }),
{
    let (walks, events) = (walk.walks@, walk.events@);
    let (k, n) = (walks.len(), events.len() as int);
    sweep::law_exact_costs_add_up(walk, corridor, laws, rows, factors, groups);
    lemma_samples(walk, corridor, laws, rows, factors, k as int);
    let (all, kr) = (pow2(1074) as real * pow2(149) as real, k as real);
    let whole = sweep::samples_exact(walks, k as int) as real;
    let exact = whole / all;
    let (cost, off) = (events_cost(events, n), events_off(walks, groups, events, k, n));
    if k > 0 {
        let top = rounding::ceiling() / 8real;
        let mean = exact / kr;
        assert(mean < top) by (nonlinear_arith)
            requires mean == exact / kr, exact < kr * top, kr > 0real;
        lemma_events(walk, corridor, laws, rows, factors, groups, n);
        assert(kr * mean == exact) by (nonlinear_arith)
            requires mean == exact / kr, kr > 0real;
        let d = cost - mean;
        assert(kr * cost - exact == kr * d) by (nonlinear_arith)
            requires d == cost - mean, kr * mean == exact;
        assert(kr * d <= kr * off && -(kr * d) <= kr * off) by (nonlinear_arith)
            requires d <= off, -d <= off, kr > 0real;
    } else {
        assert(n == 0) by {
            if n > 0 {
                assert(groups[0].len() > 0 && extent::touches_fit(groups[0], corridor, walks));
                assert(groups[0][0].sample < walks.len());
            }
        }
        assert(kr * cost == 0real && kr * off == 0real) by (nonlinear_arith)
            requires kr == 0real;
    }
}

} // verus!
