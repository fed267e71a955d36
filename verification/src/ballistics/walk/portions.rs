//! What each volume and each source of spall has of a crossing: the stretches of its own that lie
//! inside, and the mean over the disc's samples.

use crate::ballistics::walk::charges;
use crate::ballistics::walk::disc::EntityShare;
use crate::ballistics::walk::events::BoundaryEvent;
use crate::ballistics::walk::extent::Touch;
use crate::ballistics::walk::faces;
use crate::ballistics::walk::places;
use crate::ballistics::walk::presence::EntityPresence;
use crate::ballistics::walk::ray::RayWalk;
use crate::ballistics::walk::shares;
use crate::ballistics::walk::spall;
use crate::ballistics::walk::vocabulary::Entity;
use crate::float::F64;
use crate::folding;
use crate::folding_single;
use crate::rounding;
use crate::rounding_double;
use vstd::prelude::*;

verus! {

/// Some stretch holds the distance.
pub open spec fn are_over(spans: Seq<(F64, F64)>, x: int) -> bool {
    exists|i: int| 0 <= i < spans.len() && (#[trigger] spans[i]).0.value() <= x < spans[i].1.value()
}

/// The stretches lie between numbers.
pub open spec fn are_numbers(spans: Seq<(F64, F64)>) -> bool {
    forall|i: int| 0 <= i < spans.len() ==> !(#[trigger] spans[i]).0.is_nan() && !spans[i].1.is_nan()
}

/// The volume is present at the distance, on a sample of these presences.
pub open spec fn is_present(presence: Seq<EntityPresence>, entity: Entity, x: int) -> bool {
    exists|p: int| 0 <= p < presence.len() && (#[trigger] presence[p]).entity == entity && are_over(presence[p].spans@, x)
}

proof fn lemma_clips(spans: Seq<(F64, F64)>, lo: F64, hi: F64, n: int, x: int)
    requires
        are_numbers(spans),
        !lo.is_nan(),
        !hi.is_nan(),
        0 <= n <= spans.len(),
    ensures
        are_over(shares::clips_of(spans, lo, hi, n), x) <==> are_over(spans.take(n), x) && lo.value() <= x < hi.value(),
    decreases n,
{
    let clips = shares::clips_of(spans, lo, hi, n);
    if n > 0 {
        lemma_clips(spans, lo, hi, n - 1, x);
        let rest = shares::clips_of(spans, lo, hi, n - 1);
        let clip = shares::clipped(spans[n - 1], lo, hi);
        assert(clip.0.value() <= x < clip.1.value() <==> spans[n - 1].0.value() <= x < spans[n - 1].1.value()
            && lo.value() <= x < hi.value());
        let (fewer, more) = (spans.take(n - 1), spans.take(n));
        assert(more =~= fewer.push(spans[n - 1]));
        lemma_pushed(fewer, spans[n - 1], x);
        lemma_pushed(rest, clip, x);
    } else {
        assert(spans.take(0).len() == 0);
    }
}

proof fn lemma_pushed(spans: Seq<(F64, F64)>, span: (F64, F64), x: int)
    ensures
        are_over(spans.push(span), x) <==> are_over(spans, x) || span.0.value() <= x < span.1.value(),
{
    let more = spans.push(span);
    if are_over(spans, x) {
        let i = choose|i: int| 0 <= i < spans.len() && (#[trigger] spans[i]).0.value() <= x < spans[i].1.value();
        assert(more[i] == spans[i]);
    }
    assert(more[spans.len() as int] == span);
    if are_over(more, x) {
        let i = choose|i: int| 0 <= i < more.len() && (#[trigger] more[i]).0.value() <= x < more[i].1.value();
        if i < spans.len() {
            assert(more[i] == spans[i]);
        }
    }
}

proof fn lemma_added(a: Seq<(F64, F64)>, b: Seq<(F64, F64)>, x: int)
    ensures
        are_over(a + b, x) <==> are_over(a, x) || are_over(b, x),
{
    let both = a + b;
    if are_over(a, x) {
        let i = choose|i: int| 0 <= i < a.len() && (#[trigger] a[i]).0.value() <= x < a[i].1.value();
        assert(both[i] == a[i]);
    }
    if are_over(b, x) {
        let i = choose|i: int| 0 <= i < b.len() && (#[trigger] b[i]).0.value() <= x < b[i].1.value();
        assert(both[a.len() + i] == b[i]);
    }
    if are_over(both, x) {
        let i = choose|i: int| 0 <= i < both.len() && (#[trigger] both[i]).0.value() <= x < both[i].1.value();
        if i < a.len() {
            assert(both[i] == a[i]);
        } else {
            assert(both[i] == b[i - a.len()]);
        }
    }
}

proof fn lemma_sample(presence: Seq<EntityPresence>, entity: Entity, lo: F64, hi: F64, n: int, x: int)
    requires
        forall|p: int| 0 <= p < presence.len() ==> are_numbers((#[trigger] presence[p]).spans@),
        !lo.is_nan(),
        !hi.is_nan(),
        0 <= n <= presence.len(),
    ensures
        are_over(shares::sample_clips(presence, entity, lo, hi, n), x) <==> is_present(presence.take(n), entity, x)
            && lo.value() <= x < hi.value(),
    decreases n,
{
    if n > 0 {
        lemma_sample(presence, entity, lo, hi, n - 1, x);
        let (fewer, more) = (presence.take(n - 1), presence.take(n));
        let last = presence[n - 1];
        assert(more =~= fewer.push(last));
        let spans = last.spans@;
        lemma_clips(spans, lo, hi, spans.len() as int, x);
        assert(spans.take(spans.len() as int) =~= spans);
        let rest = shares::sample_clips(presence, entity, lo, hi, n - 1);
        lemma_added(rest, shares::clips_of(spans, lo, hi, spans.len() as int), x);
        if is_present(fewer, entity, x) {
            let p = choose|p: int|
                0 <= p < fewer.len() && (#[trigger] fewer[p]).entity == entity && are_over(fewer[p].spans@, x);
            assert(more[p] == fewer[p]);
        }
        assert(more[n - 1] == last);
        if is_present(more, entity, x) {
            let p = choose|p: int|
                0 <= p < more.len() && (#[trigger] more[p]).entity == entity && are_over(more[p].spans@, x);
            if p < n - 1 {
                assert(fewer[p] == more[p]);
            }
        }
    } else {
        assert(presence.take(0).len() == 0);
    }
}

/// What a covered sample gives to a volume's share is where the volume is present on it, between where
/// the sample enters the crossing and where it leaves: there, and nowhere else.
pub proof fn law_a_sample_gives_what_lies_inside(walks: Seq<RayWalk>, touch: Touch, entity: Entity, x: int)
    requires
        touch.runs@.len() > 0,
        !places::enters_at(walks, touch).is_nan(),
        !places::leaves_at(walks, touch).is_nan(),
        forall|p: int|
            0 <= p < walks[touch.sample as int].presence@.len() ==> are_numbers(
                (#[trigger] walks[touch.sample as int].presence@[p]).spans@,
            ),
    ensures
        are_over(shares::touch_clips(walks, touch, entity), x) <==> is_present(
            walks[touch.sample as int].presence@,
            entity,
            x,
        ) && places::enters_at(walks, touch).value() <= x < places::leaves_at(walks, touch).value(),
{
    let presence = walks[touch.sample as int].presence@;
    lemma_sample(
        presence,
        entity,
        places::enters_at(walks, touch),
        places::leaves_at(walks, touch),
        presence.len() as int,
        x,
    );
    assert(presence.take(presence.len() as int) =~= presence);
}

/// The exact length of a stretch.
pub open spec fn length(span: (F64, F64)) -> real {
    span.1.number() - span.0.number()
}

/// The exact length of all stretches.
pub open spec fn lengths(spans: Seq<(F64, F64)>) -> real {
    folding_single::total(|i: int| length(spans[i]), spans.len() as int)
}

/// The stretches lie between numbers, none ends before it starts, and there are not too many of them.
pub open spec fn are_stretches(spans: Seq<(F64, F64)>) -> bool {
    &&& spans.len() < 0x10_0000
    &&& forall|i: int|
        0 <= i < spans.len() ==> (#[trigger] spans[i]).0.finite() && spans[i].1.finite() && 0real <= length(spans[i])
            < rounding::ceiling()
}

proof fn lemma_lengths(spans: Seq<(F64, F64)>, m: int, n: int)
    requires
        0 <= m <= n <= spans.len(),
        are_stretches(spans),
    ensures
        ({
            let f = |i: int| length(spans[i]);
            0real <= folding_single::total(f, m) <= folding_single::total(f, n)
        }),
    decreases n,
{
    let f = |i: int| length(spans[i]);
    if n > m {
        lemma_lengths(spans, m, n - 1);
        assert(f(n - 1) == length(spans[n - 1]));
    } else if n > 0 {
        lemma_lengths(spans, n - 1, n - 1);
        assert(f(n - 1) == length(spans[n - 1]));
    }
}

proof fn lemma_folded(spans: Seq<(F64, F64)>, n: int)
    requires
        are_stretches(spans),
        0 <= n <= spans.len(),
        lengths(spans) < rounding::ceiling(),
    ensures
        ({
            let sum = shares::length_of(spans, n);
            let exact = folding_single::total(|i: int| length(spans[i]), n);
            &&& sum.finite()
            &&& rounding::size(sum.number() - exact) <= folding::drift(n, 1real, exact, 0real)
        }),
    decreases n,
{
    folding::lemma_small();
    let f = |i: int| length(spans[i]);
    let zero = F64::zero();
    zero.lemma_nonnegative();
    zero.lemma_order(zero);
    let u = rounding_double::unit();
    if n > 0 {
        lemma_folded(spans, n - 1);
        lemma_lengths(spans, n - 1, n);
        lemma_lengths(spans, n, spans.len() as int);
        let nr = n as real;
        let k = 2real * nr + 1real;
        assert(k <= 2097153real);
        assert(k * u <= 1real) by (nonlinear_arith)
            requires k <= 2097153real, u == 1real / 0x20_0000_0000_0000real;
        assert(2real * nr * 0real <= 1real) by (nonlinear_arith);
        let span = spans[n - 1];
        span.1.lemma_difference_error(span.0);
        let x = length(span);
        assert(1real * u * x == u * x);
        assert(f(n - 1) == x);
        folding::lemma_fold_step(
            shares::length_of(spans, n - 1),
            span.1.difference(span.0),
            folding_single::total(f, n - 1),
            x,
            n,
            1real,
            0real,
        );
    } else {
        assert(folding_single::total(f, 0) == 0real);
        let e = 0real;
        let k = 2real * (0int as real) + 1real;
        assert(k * u * e == 0real) by (nonlinear_arith)
            requires e == 0real;
    }
}

/// A volume's chord is the mean over the disc's samples of the lengths of its stretches, and its cost
/// the chord as often as its factor says, but for rounding.
pub proof fn law_a_share_is_the_mean_of_its_stretches(share: EntityShare, walks: Seq<RayWalk>, touches: Seq<Touch>, k: nat)
    requires
        shares::is_share(share, walks, touches, k),
        are_stretches(share.spans@),
        0 < k < 0x1_0000_0000,
        share.factor.finite() && 0real <= share.factor.number() <= 0x10_0000real,
        lengths(share.spans@) < rounding::ceiling() / 0x1000_0000real,
    ensures
        ({
            let chord = lengths(share.spans@) / k as real;
            let cost = share.factor.number() * chord;
            let (u, g) = (rounding::unit(), rounding::grain());
            &&& share.chord.finite()
            &&& rounding::size(share.chord.number() - chord) <= 2real * u * chord + 2real * g
            &&& share.cost.finite()
            &&& rounding::size(share.cost.number() - cost) <= 2real * u * cost + 2real * g
        }),
{
    folding::lemma_small();
    charges::lemma_grains();
    let spans = share.spans@;
    let n = spans.len() as int;
    lemma_lengths(spans, n, n);
    lemma_folded(spans, n);
    let sum = shares::length_of(spans, n);
    let exact = lengths(spans);
    let (u, g) = (rounding_double::unit(), rounding_double::grain());
    let a = 2real * (n as real) + 1real;
    let nothing = 0real;
    assert(2real * (n as real) * nothing == 0real) by (nonlinear_arith)
        requires nothing == 0real;
    charges::lemma_mean(sum, exact, a, k);
    let q = sum.quotient(F64::whole(k));
    let chord = exact / k as real;
    charges::lemma_single(q, chord, a + 6real, g);
    let f = share.factor.number();
    share.factor.lemma_doubled_number();
    let cost = f * chord;
    assert(0real <= cost <= 0x10_0000real * chord) by (nonlinear_arith)
        requires cost == f * chord, 0real <= f <= 0x10_0000real, chord >= 0real;
    assert((a + 6real) * u <= 1real) by (nonlinear_arith)
        requires a <= 2097153real, u == 1real / 0x20_0000_0000_0000real;
    let dear = charges::lemma_multiplied(q, share.factor.doubled(), chord, a + 6real, g, 0x10_0000real);
    let h = 2real * (0x10_0000real * g) + g;
    charges::lemma_single(dear, cost, a + 8real, h);
}

/// The spall that a sample's step of this key can throw; none where it met no such step.
pub open spec fn budget_of(downs: Seq<BoundaryEvent>, key: (u32, u32, usize)) -> real {
    match spall::step_of(downs, key) {
        Some(step) => step.spall_budget.number(),
        None => 0real,
    }
}

/// The exact sum of what the samples can throw.
pub open spec fn budgets(downs: Seq<Seq<BoundaryEvent>>, key: (u32, u32, usize), n: int) -> real {
    folding_single::total(|i: int| budget_of(downs[i], key), n)
}

/// Every sample's step of this key has a number for a budget, that is not negative.
pub open spec fn are_budgets(downs: Seq<Seq<BoundaryEvent>>, key: (u32, u32, usize)) -> bool {
    &&& downs.len() < 0x10_0000
    &&& forall|i: int|
        0 <= i < downs.len() ==> (spall::step_of(#[trigger] downs[i], key) matches Some(step) ==> step.spall_budget.finite()
            && 0real <= step.spall_budget.number())
}

proof fn lemma_budgets(downs: Seq<Seq<BoundaryEvent>>, key: (u32, u32, usize), m: int, n: int)
    requires
        are_budgets(downs, key),
        0 <= m <= n <= downs.len(),
    ensures
        0real <= budgets(downs, key, m) <= budgets(downs, key, n),
    decreases n,
{
    let f = |i: int| budget_of(downs[i], key);
    if n > m {
        lemma_budgets(downs, key, m, n - 1);
        assert(f(n - 1) == budget_of(downs[n - 1], key));
    } else if n > 0 {
        lemma_budgets(downs, key, n - 1, n - 1);
        assert(f(n - 1) == budget_of(downs[n - 1], key));
    }
}

proof fn lemma_thrown(downs: Seq<Seq<BoundaryEvent>>, key: (u32, u32, usize), n: int)
    requires
        are_budgets(downs, key),
        0 <= n <= downs.len(),
        budgets(downs, key, downs.len() as int) < rounding::ceiling(),
    ensures
        spall::sums_of(downs, key, n).budget.finite(),
        rounding::size(spall::sums_of(downs, key, n).budget.number() - budgets(downs, key, n)) <= folding::drift(
            n,
            1real,
            budgets(downs, key, n),
            0real,
        ),
    decreases n,
{
    folding::lemma_small();
    let f = |i: int| budget_of(downs[i], key);
    let zero = F64::zero();
    zero.lemma_nonnegative();
    zero.lemma_order(zero);
    let u = rounding_double::unit();
    if n > 0 {
        lemma_thrown(downs, key, n - 1);
        lemma_budgets(downs, key, n - 1, n);
        lemma_budgets(downs, key, n, downs.len() as int);
        let nr = n as real;
        let k = 2real * nr + 1real;
        assert(k <= 2097153real);
        assert(k * u <= 1real) by (nonlinear_arith)
            requires k <= 2097153real, u == 1real / 0x20_0000_0000_0000real;
        assert(2real * nr * 0real <= 1real) by (nonlinear_arith);
        let x = budget_of(downs[n - 1], key);
        assert(f(n - 1) == x);
        let before = budgets(downs, key, n - 1);
        match spall::step_of(downs[n - 1], key) {
            Some(step) => {
                step.spall_budget.lemma_doubled_number();
                let ux = u * x;
                assert(1real * u * x == ux);
                assert(ux >= 0real) by (nonlinear_arith)
                    requires ux == u * x, u > 0real, x >= 0real;
                folding::lemma_fold_step(
                    spall::sums_of(downs, key, n - 1).budget,
                    step.spall_budget.doubled(),
                    before,
                    x,
                    n,
                    1real,
                    0real,
                );
            },
            None => {
                let j = 2real * ((n - 1) as real) + 1real;
                let ub = u * before;
                assert(ub >= 0real) by (nonlinear_arith)
                    requires ub == u * before, u > 0real, before >= 0real;
                assert(j * u * before == j * ub) by (nonlinear_arith)
                    requires ub == u * before;
                assert(k * u * before == k * ub) by (nonlinear_arith)
                    requires ub == u * before;
                assert(j * ub <= k * ub) by (nonlinear_arith)
                    requires j <= k, ub >= 0real;
                assert(2real * nr * 0real == 0real) by (nonlinear_arith);
                let mr = (n - 1) as real;
                assert(2real * mr * 0real == 0real) by (nonlinear_arith);
            },
        }
    } else {
        assert(folding_single::total(f, 0) == 0real);
        let e = 0real;
        let k = 2real * (0int as real) + 1real;
        assert(k * u * e == 0real) by (nonlinear_arith)
            requires e == 0real;
    }
}

/// The budget of a source of spall is the mean over the disc's samples of what each sample's own step
/// throws, a sample without one throwing nothing, but for rounding.
pub proof fn law_a_source_throws_the_mean(downs: Seq<Seq<BoundaryEvent>>, key: (u32, u32, usize), k: nat)
    requires
        are_budgets(downs, key),
        0 < k < 0x1_0000_0000,
        budgets(downs, key, downs.len() as int) < rounding::ceiling() / 0x1000_0000real,
    ensures
        ({
            let mark = spall::spall_of(downs, key, k);
            let mean = budgets(downs, key, downs.len() as int) / k as real;
            &&& mark.budget.finite()
            &&& rounding::size(mark.budget.number() - mean) <= 2real * rounding::unit() * mean + 2real * rounding::grain()
        }),
{
    folding::lemma_small();
    charges::lemma_grains();
    let n = downs.len() as int;
    lemma_budgets(downs, key, n, n);
    lemma_thrown(downs, key, n);
    let sum = spall::sums_of(downs, key, n).budget;
    let exact = budgets(downs, key, n);
    let a = 2real * (n as real) + 1real;
    let nothing = 0real;
    assert(2real * (n as real) * nothing == 0real) by (nonlinear_arith)
        requires nothing == 0real;
    charges::lemma_mean(sum, exact, a, k);
    charges::lemma_single(sum.quotient(F64::whole(k)), exact / k as real, a + 6real, rounding_double::grain());
}

/// One for a sample that met the volume in the crossing, and nothing for another.
pub open spec fn met(walks: Seq<RayWalk>, touch: Touch, entity: Entity) -> real {
    if shares::touch_clips(walks, touch, entity).len() > 0 {
        1real
    } else {
        0real
    }
}

proof fn lemma_met(walks: Seq<RayWalk>, touches: Seq<Touch>, entity: Entity, n: int)
    requires
        0 <= n <= touches.len(),
    ensures
        shares::samples_met(walks, touches, entity, n) as real == folding_single::total(
            |i: int| met(walks, touches[i], entity),
            n,
        ),
        shares::samples_met(walks, touches, entity, n) <= n,
    decreases n,
{
    let f = |i: int| met(walks, touches[i], entity);
    if n > 0 {
        lemma_met(walks, touches, entity, n - 1);
        assert(f(n - 1) == met(walks, touches[n - 1], entity));
    }
}

/// A volume covers the share of the disc that the samples are which met it, but for rounding.
pub proof fn law_a_share_covers_the_samples_that_met_it(
    share: EntityShare,
    walks: Seq<RayWalk>,
    touches: Seq<Touch>,
    k: nat,
)
    requires
        shares::is_share(share, walks, touches, k),
        0 < k < 0x1_0000_0000,
        touches.len() <= k,
    ensures
        faces::is_portion(
            share.coverage,
            folding_single::total(|i: int| met(walks, touches[i], share.entity), touches.len() as int),
            k,
        ),
{
    let n = touches.len() as int;
    lemma_met(walks, touches, share.entity, n);
    faces::lemma_share(shares::samples_met(walks, touches, share.entity, n), k);
}

} // verus!
