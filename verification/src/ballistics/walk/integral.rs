//! How far the cost that a walk reports lies from the exact integral of its spans.

use crate::ballistics::walk::laws;
use crate::ballistics::walk::ray;
use crate::ballistics::walk::ray::RayWalk;
use crate::ballistics::walk::spans;
use crate::ballistics::walk::spans::Span;
use crate::ballistics::walk::table;
use crate::ballistics::walk::vocabulary::{Entity, RayCorridor, WalkLaws};
use crate::float::{F32, F64};
use crate::folding;
use crate::rounding;
use crate::rounding_double;
use vstd::arithmetic::power2::*;
use vstd::prelude::*;

verus! {

/// The exact cost of the first `n` spans, as a number.
pub open spec fn exact_cost(spans: Seq<Span>, n: int) -> real {
    laws::integral_of(spans, n) as real / (pow2(1074) as real * pow2(149) as real)
}

/// How far the cost that is accumulated over `n` spans can lie from the exact one: two roundings
/// of it for each span, three more, and twice the least magnitude for each span.
pub open spec fn ray_drift(n: int, exact: real) -> real {
    folding::drift(n, 3real, exact, rounding_double::grain())
}

/// How far a cost can lie from the exact one that was off by a drift before it was rounded to
/// single precision.
pub open spec fn rounded_once(exact: real, drift: real) -> real {
    drift + rounding::unit() * (exact + drift) + rounding::grain()
}

/// As many spans as can be held in memory.
pub open spec fn is_short(spans: Seq<Span>) -> bool {
    spans.len() < 0xf_ffff_ffff_ffff
}

/// The walk's spans can be held in memory, and its cost in single precision.
pub open spec fn is_measured(walk: RayWalk) -> bool {
    is_short(walk.spans@) && exact_cost(walk.spans@, walk.spans@.len() as int) < rounding::ceiling() / 8real
}

/// Every distance that a corridor can hold lies below this.
pub open spec fn farthest() -> real {
    pow2(128) as real
}

pub(crate) proof fn lemma_farthest()
    ensures
        1real <= farthest(),
        1000real * farthest() < rounding_double::ceiling(),
{
    lemma2_to64();
    lemma_pow2_strictly_increases(0, 128);
    lemma_pow2_strictly_increases(138, 1000);
    lemma_pow2_adds(10, 128);
    assert(pow2(10) == 1024);
}

/// Each span ends after it starts, at distances that a corridor can hold, and carries a factor that
/// is not negative.
pub open spec fn is_regular(spans: Seq<Span>) -> bool {
    forall|i: int|
        0 <= i < spans.len() ==> {
            let span = #[trigger] spans[i];
            &&& span.start.finite() && span.end.finite()
            &&& 0 <= span.start.value() < span.end.value()
            &&& span.end.number() < farthest()
            &&& span.factor.finite()
            &&& !span.factor.negative()
        }
}

/// The spans of a walk are regular.
pub(crate) proof fn lemma_regular(
    walk: RayWalk,
    corridor: RayCorridor,
    laws: WalkLaws,
    rows: Seq<(Entity, F32)>,
    factors: Map<Entity, F32>,
)
    requires
        ray::is_walk(walk, corridor, laws, rows, factors),
        ray::has_form(corridor),
        table::ordered(rows),
    ensures
        is_regular(walk.spans@),
{
    let charted = walk.spans@;
    let length = corridor.length.doubled();
    corridor.length.lemma_doubled_number();
    corridor.length.lemma_limit();
    assert forall|i: int| 0 <= i < charted.len() implies {
        let span = #[trigger] charted[i];
        &&& span.start.finite() && span.end.finite()
        &&& 0 <= span.start.value() < span.end.value()
        &&& span.end.number() < farthest()
        &&& span.factor.finite()
        &&& !span.factor.negative()
    } by {
        laws::lemma_proper(walk, corridor, laws, rows, factors, i);
        laws::lemma_forward(charted, 0, length.value(), i);
        length.lemma_order(charted[i].end);
    }
}

/// A length that was rounded, times a factor, rounded again.
proof fn lemma_slice(u: real, w: real, d: real, f: real, p: real, g: real)
    requires
        0real < u && 100real * u <= 1real,
        0real <= w,
        0real <= f,
        0real <= d,
        rounding::size(d - w) <= u * w,
        rounding::size(p - d * f) <= u * rounding::size(d * f) + g,
    ensures
        0real <= d * f <= 2real * (w * f),
        rounding::size(p - w * f) <= 3real * u * (w * f) + g,
{
    let (x, y) = (w * f, d * f);
    let ux = u * x;
    let e = d - w;
    assert(y - x == e * f) by (nonlinear_arith)
        requires x == w * f, y == d * f, e == d - w;
    assert(e * f <= ux && -(e * f) <= ux) by (nonlinear_arith)
        requires ux == u * (w * f), e <= u * w, -e <= u * w, f >= 0real, x == w * f;
    assert(x >= 0real && y >= 0real) by (nonlinear_arith)
        requires x == w * f, y == d * f, w >= 0real, d >= 0real, f >= 0real;
    assert(100real * ux <= x && ux >= 0real) by (nonlinear_arith)
        requires ux == u * x, 0real < u, 100real * u <= 1real, x >= 0real;
    assert(u * y <= 2real * ux) by (nonlinear_arith)
        requires ux == u * x, y <= 2real * x, u > 0real;
    assert(3real * u * x == 3real * ux) by (nonlinear_arith)
        requires ux == u * x;
}

/// What one span adds to the exact cost.
pub(crate) proof fn lemma_exact_step(spans: Seq<Span>, n: int)
    requires
        0 < n,
    ensures
        exact_cost(spans, n) == exact_cost(spans, n - 1) + (spans[n - 1].end.number() - spans[n - 1].start.number())
            * spans[n - 1].factor.number(),
{
    let (g, h) = (pow2(1074) as real, pow2(149) as real);
    lemma_pow2_pos(1074);
    lemma_pow2_pos(149);
    let span = spans[n - 1];
    let (s, e, f) = (span.start.value(), span.end.value(), span.factor.value());
    let (before, after) = (laws::integral_of(spans, n - 1), laws::integral_of(spans, n));
    let part = (e - s) * f;
    assert(after == before + part);
    let (sr, er, fr) = (s as real, e as real, f as real);
    assert(part as real == (er - sr) * fr) by (nonlinear_arith)
        requires part == (e - s) * f, sr == s as real, er == e as real, fr == f as real;
    let w = er / g - sr / g;
    let all = g * h;
    assert(all > 0real) by (nonlinear_arith)
        requires all == g * h, g > 0real, h > 0real;
    let wide = er - sr;
    assert(w == wide / g) by (nonlinear_arith)
        requires w == er / g - sr / g, wide == er - sr, g > 0real;
    assert((wide * fr) / all == (wide / g) * (fr / h)) by (nonlinear_arith)
        requires all == g * h, g > 0real, h > 0real;
    let (b, p) = (before as real, part as real);
    assert((b + p) / all == b / all + p / all) by (nonlinear_arith)
        requires all > 0real;
}

pub(crate) proof fn lemma_exact_grows(spans: Seq<Span>, m: int, n: int)
    requires
        is_regular(spans),
        0 <= m <= n <= spans.len(),
    ensures
        0real <= exact_cost(spans, m) <= exact_cost(spans, n),
    decreases n,
{
    if n == 0 {
        lemma_pow2_pos(1074);
        lemma_pow2_pos(149);
        let all = pow2(1074) as real * pow2(149) as real;
        assert(all > 0real) by (nonlinear_arith)
            requires all == pow2(1074) as real * pow2(149) as real, pow2(1074) > 0, pow2(149) > 0;
        assert(0real / all == 0real) by (nonlinear_arith)
            requires all > 0real;
    } else {
        lemma_exact_step(spans, n);
        lemma_span(spans, n - 1);
        let span = spans[n - 1];
        let (w, f) = (span.end.number() - span.start.number(), span.factor.number());
        assert(w * f >= 0real) by (nonlinear_arith)
            requires w >= 0real, f >= 0real;
        if m < n {
            lemma_exact_grows(spans, m, n - 1);
        } else {
            lemma_exact_grows(spans, n - 1, n - 1);
        }
    }
}

/// A span is of some length, and its factor is not negative.
proof fn lemma_span(spans: Seq<Span>, i: int)
    requires
        is_regular(spans),
        0 <= i < spans.len(),
    ensures
        0real <= spans[i].start.number() < spans[i].end.number(),
        0real <= spans[i].factor.number(),
        spans[i].is_material() <==> 0real < spans[i].factor.number(),
{
    let span = spans[i];
    span.start.lemma_order(span.end);
    span.start.lemma_order(F64::zero());
    span.factor.lemma_order(F32::zero());
    span.factor.lemma_nonnegative();
    F32::zero().lemma_nonnegative();
}

/// What is accumulated over the first `n` spans.
proof fn lemma_accumulated(spans: Seq<Span>, n: int)
    requires
        is_regular(spans),
        is_short(spans),
        0 <= n <= spans.len(),
        exact_cost(spans, spans.len() as int) < rounding::ceiling(),
    ensures
        spans::cost_of(spans, n).finite(),
        0 <= spans::cost_of(spans, n).value(),
        rounding::size(spans::cost_of(spans, n).number() - exact_cost(spans, n)) <= ray_drift(n, exact_cost(spans, n)),
    decreases n,
{
    let (u, g) = (rounding_double::unit(), rounding_double::grain());
    folding::lemma_small();
    lemma_exact_grows(spans, n, spans.len() as int);
    let exact = exact_cost(spans, n);
    if n == 0 {
        let zero = F64::zero();
        zero.lemma_nonnegative();
        lemma_pow2_pos(1074);
        lemma_pow2_pos(149);
        let all = pow2(1074) as real * pow2(149) as real;
        assert(all > 0real) by (nonlinear_arith)
            requires all == pow2(1074) as real * pow2(149) as real, pow2(1074) > 0, pow2(149) > 0;
        assert(0real / all == 0real) by (nonlinear_arith)
            requires all > 0real;
        zero.lemma_order(zero);
        let none = 0real;
        assert((2real * none + 3real) * u * none + 2real * none * g == 0real) by (nonlinear_arith)
            requires none == 0real;
    } else {
        lemma_accumulated(spans, n - 1);
        lemma_exact_step(spans, n);
        lemma_exact_grows(spans, n - 1, n);
        lemma_span(spans, n - 1);
        let span = spans[n - 1];
        let (w, f) = (span.end.number() - span.start.number(), span.factor.number());
        let x = w * f;
        let before = exact_cost(spans, n - 1);
        let sum = spans::cost_of(spans, n - 1);
        let m = n as real;
        assert((n - 1) as real == m - 1real);
        if span.is_material() {
            span.factor.lemma_doubled_number();
            let gap = span.spec_len();
            lemma_length(span);
            let d = gap.number();
            assert(x >= 0real) by (nonlinear_arith)
                requires x == w * f, w >= 0real, f >= 0real;
            let df = d * f;
            assert(0real <= df <= 2real * x) by (nonlinear_arith)
                requires df == d * f, x == w * f, 0real <= d <= 2real * w, f >= 0real;
            gap.lemma_product_error(span.factor.doubled());
            let term = span.spec_cost();
            lemma_slice(u, w, d, f, term.number(), g);
            assert((2real * m + 3real) * u <= 1real) by (nonlinear_arith)
                requires m <= 0xf_ffff_ffff_fffereal, u == 1real / 0x20_0000_0000_0000real;
            assert(2real * m * g <= 1real) by (nonlinear_arith)
                requires m <= 0xf_ffff_ffff_fffereal, m >= 1real, 0x1_0000_0000_0000_0000real * g <= 1real, g > 0real;
            folding::lemma_fold_step(sum, term, before, x, n, 3real, g);
            gap.lemma_order(F64::zero());
            F64::zero().lemma_nonnegative();
            span.factor.doubled().lemma_order(F64::zero());
            gap.lemma_product_grows(span.factor.doubled(), span.factor.doubled());
            sum.lemma_sum_more(term);
        } else {
            assert(x == 0real) by (nonlinear_arith)
                requires x == w * f, f == 0real;
            assert(ray_drift(n - 1, exact) <= ray_drift(n, exact)) by {
                let (a, b) = ((2real * (m - 1real) + 3real) * u, (2real * m + 3real) * u);
                assert(a * exact <= b * exact) by (nonlinear_arith)
                    requires a == (2real * (m - 1real) + 3real) * u, b == (2real * m + 3real) * u, u > 0real, exact >= 0real;
                assert(2real * (m - 1real) * g <= 2real * m * g) by (nonlinear_arith)
                    requires g > 0real;
            }
        }
    }
}

/// The length of a span, rounded.
proof fn lemma_length(span: Span)
    requires
        span.start.finite(),
        span.end.finite(),
        span.start.number() < span.end.number(),
        0real <= span.start.number(),
        span.end.number() < farthest(),
    ensures
        span.spec_len().finite(),
        rounding::size(span.spec_len().number() - (span.end.number() - span.start.number())) <= rounding_double::unit() * (
        span.end.number() - span.start.number()),
        0real <= span.spec_len().number() <= 2real * (span.end.number() - span.start.number()),
{
    let (u, w) = (rounding_double::unit(), span.end.number() - span.start.number());
    folding::lemma_small();
    lemma_farthest();
    span.end.lemma_difference_error(span.start);
    assert(u * w <= w && u * w >= 0real) by (nonlinear_arith)
        requires w > 0real, 0real < u, 100real * u <= 1real;
}

/// The cost that a walk reports is the integral of its field, as nearly as the numbers allow: off
/// by the roundings of the sum over its spans, and by one rounding to single precision.
pub proof fn law_a_cost_is_the_integral(
    walk: RayWalk,
    corridor: RayCorridor,
    laws: WalkLaws,
    rows: Seq<(Entity, F32)>,
    factors: Map<Entity, F32>,
)
    requires
        ray::is_walk(walk, corridor, laws, rows, factors),
        ray::has_form(corridor),
        table::ordered(rows),
        is_measured(walk),
    ensures
        walk.cost.finite(),
        0real <= walk.cost.number(),
        ({
            let n = walk.spans@.len() as int;
            let exact = exact_cost(walk.spans@, n);
            rounding::size(walk.cost.number() - exact) <= rounded_once(exact, ray_drift(n, exact))
        }),
{
    let spans = walk.spans@;
    let n = spans.len() as int;
    let exact = exact_cost(spans, n);
    folding::lemma_small();
    lemma_regular(walk, corridor, laws, rows, factors);
    lemma_exact_grows(spans, 0, n);
    lemma_accumulated(spans, n);
    let sum = spans::cost_of(spans, n);
    lemma_ray_drift(n, exact);
    lemma_once(sum, exact, ray_drift(n, exact));
}

/// A drift is small.
pub(crate) proof fn lemma_ray_drift(n: int, exact: real)
    requires
        0 <= n < 0xf_ffff_ffff_ffff,
        0real <= exact,
    ensures
        0real <= ray_drift(n, exact) <= exact + 1real,
{
    folding::lemma_small();
    let (u, g) = (rounding_double::unit(), rounding_double::grain());
    let m = n as real;
    let k = (2real * m + 3real) * u;
    assert(0real <= k <= 1real) by (nonlinear_arith)
        requires 0real <= m <= 0xf_ffff_ffff_fffereal, u == 1real / 0x20_0000_0000_0000real, k == (2real * m + 3real) * u;
    assert(0real <= k * exact <= exact) by (nonlinear_arith)
        requires 0real <= k <= 1real, exact >= 0real;
    assert(0real <= 2real * m * g <= 1real) by (nonlinear_arith)
        requires 0real <= m <= 0xf_ffff_ffff_fffereal, 0x1_0000_0000_0000_0000real * g <= 1real, g > 0real;
}

/// A sum that is off, rounded to single precision.
pub(crate) proof fn lemma_once(sum: F64, exact: real, drift: real)
    requires
        sum.finite(),
        0 <= sum.value(),
        0real <= exact < rounding::ceiling() / 8real,
        0real <= drift <= exact + 1real,
        rounding::size(sum.number() - exact) <= drift,
    ensures
        sum.halved().finite(),
        0real <= sum.halved().number(),
        rounding::size(sum.halved().number() - exact) <= rounded_once(exact, drift),
{
    folding::lemma_small();
    let u = rounding::unit();
    sum.lemma_order(F64::zero());
    F64::zero().lemma_nonnegative();
    sum.lemma_halved_error();
    let c = sum.number();
    assert(u * c <= u * (exact + drift)) by (nonlinear_arith)
        requires c <= exact + drift, u == 1real / 0x100_0000real;
    sum.lemma_halved_grows(sum);
    sum.halved().lemma_order(F32::zero());
}

/// The cost that a walk reports does not fall where the exact one grows by more than the sums
/// over the spans can be off, and never by more than the two costs can be off.
pub(crate) proof fn lemma_no_lower(
    less: RayWalk,
    more: RayWalk,
    a: RayCorridor,
    b: RayCorridor,
    laws: WalkLaws,
    rows: Seq<(Entity, F32)>,
    factors: Map<Entity, F32>,
    other_rows: Seq<(Entity, F32)>,
    other_factors: Map<Entity, F32>,
)
    requires
        ray::is_walk(less, a, laws, rows, factors),
        ray::has_form(a),
        table::ordered(rows),
        ray::is_walk(more, b, laws, other_rows, other_factors),
        ray::has_form(b),
        table::ordered(other_rows),
        is_measured(less),
        is_measured(more),
        laws::integral_of(less.spans@, less.spans@.len() as int) <= laws::integral_of(
            more.spans@,
            more.spans@.len() as int,
        ),
    ensures
        is_no_lower(less, more),
{
    let (m, n) = (less.spans@.len() as int, more.spans@.len() as int);
    let (low, high) = (laws::integral_of(less.spans@, m), laws::integral_of(more.spans@, n));
    let (x, y) = (exact_cost(less.spans@, m), exact_cost(more.spans@, n));
    lemma_pow2_pos(1074);
    lemma_pow2_pos(149);
    let all = pow2(1074) as real * pow2(149) as real;
    assert(all > 0real) by (nonlinear_arith)
        requires all == pow2(1074) as real * pow2(149) as real, pow2(1074) > 0, pow2(149) > 0;
    assert(x <= y) by (nonlinear_arith)
        requires x == low as real / all, y == high as real / all, low <= high, all > 0real;
    law_a_cost_is_the_integral(less, a, laws, rows, factors);
    law_a_cost_is_the_integral(more, b, laws, other_rows, other_factors);
    folding::lemma_small();
    lemma_regular(less, a, laws, rows, factors);
    lemma_regular(more, b, laws, other_rows, other_factors);
    lemma_accumulated(less.spans@, m);
    lemma_accumulated(more.spans@, n);
    if x + ray_drift(m, x) <= y - ray_drift(n, y) {
        let (c, d) = (spans::cost_of(less.spans@, m), spans::cost_of(more.spans@, n));
        d.lemma_order(c);
        c.lemma_halved_grows(d);
        more.cost.lemma_order(less.cost);
    }
}

/// The second walk's cost is no lower than the first's but for rounding: not by more than the two
/// costs can be off, and not at all where the exact costs lie further apart than the sums over the
/// spans can be off.
pub open spec fn is_no_lower(less: RayWalk, more: RayWalk) -> bool {
    let (m, n) = (less.spans@.len() as int, more.spans@.len() as int);
    let (x, y) = (exact_cost(less.spans@, m), exact_cost(more.spans@, n));
    &&& less.cost.number() - rounded_once(x, ray_drift(m, x)) - rounded_once(y, ray_drift(n, y)) <= more.cost.number()
    &&& x + ray_drift(m, x) <= y - ray_drift(n, y) ==> less.cost.number() <= more.cost.number()
}

} // verus!
