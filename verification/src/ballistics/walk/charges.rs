//! What a crossing is charged: each volume for its own material as far as the round came, and
//! nothing past where it stopped.

use crate::ballistics::walk::disc::{CostProfile, DiscSpall, DiscWalk, EntityShare};
use crate::ballistics::walk::events;
use crate::ballistics::walk::stage;
use crate::ballistics::walk::stage::{EntityDeposit, Outcome, ResolutionPlan, Shot, TransitRequest};
use crate::float::{F32, F64};
use crate::folding;
use crate::folding_single;
use crate::rounding;
use crate::rounding_double;
use vstd::arithmetic::power2::*;
use vstd::prelude::*;

verus! {

/// The exact length of what lies before the cut of a stretch.
pub open spec fn before(span: (F64, F64), cut: F64) -> real {
    let end = if span.1.number() < cut.number() {
        span.1.number()
    } else {
        cut.number()
    };
    if span.0.number() < end {
        end - span.0.number()
    } else {
        0real
    }
}

/// The exact length of what lies before the cut of all stretches.
pub open spec fn exact_length(spans: Seq<(F64, F64)>, cut: F64) -> real {
    folding_single::total(|i: int| before(spans[i], cut), spans.len() as int)
}

/// The stretches lie between numbers, and there are not too many of them.
pub open spec fn are_measurable(spans: Seq<(F64, F64)>, cut: F64) -> bool {
    &&& spans.len() < 0x10_0000
    &&& cut.finite() && rounding::size(cut.number()) < rounding::ceiling()
    &&& forall|i: int|
        0 <= i < spans.len() ==> (#[trigger] spans[i]).0.finite() && spans[i].1.finite() && rounding::size(
            spans[i].0.number(),
        ) < rounding::ceiling() && rounding::size(spans[i].1.number()) < rounding::ceiling()
}

/// One stretch, as it is added.
proof fn lemma_term(span: (F64, F64), cut: F64)
    requires
        span.0.finite(),
        span.1.finite(),
        cut.finite(),
        rounding::size(span.0.number()) < rounding::ceiling(),
        rounding::size(span.1.number()) < rounding::ceiling(),
        rounding::size(cut.number()) < rounding::ceiling(),
    ensures
        ({
            let term = span.1.smaller(cut).difference(span.0).larger(F64::zero());
            &&& term.finite()
            &&& folding::is_near(term.number(), before(span, cut), 1real, 0real)
        }),
{
    folding::lemma_small();
    let end = span.1.smaller(cut);
    cut.lemma_order(span.1);
    span.1.lemma_order(cut);
    assert(end.number() == if span.1.number() < cut.number() {
        span.1.number()
    } else {
        cut.number()
    });
    let d = end.number() - span.0.number();
    end.lemma_difference_error(span.0);
    let diff = end.difference(span.0);
    let zero = F64::zero();
    zero.lemma_nonnegative();
    zero.lemma_order(zero);
    diff.lemma_order(zero);
    let u = rounding_double::unit();
    let sd = rounding::size(d);
    assert(100real * (u * sd) <= sd) by (nonlinear_arith)
        requires 100real * u <= 1real, sd >= 0real;
    let x = before(span, cut);
    assert(1real * u * x == u * x);
    assert(u * x >= 0real) by (nonlinear_arith)
        requires u > 0real, x >= 0real;
}

/// No length is negative.
proof fn lemma_lengths(spans: Seq<(F64, F64)>, cut: F64, m: int, n: int)
    requires
        0 <= m <= n,
    ensures
        ({
            let f = |i: int| before(spans[i], cut);
            0real <= folding_single::total(f, m) <= folding_single::total(f, n)
        }),
    decreases n,
{
    let f = |i: int| before(spans[i], cut);
    if n > m {
        lemma_lengths(spans, cut, m, n - 1);
        assert(f(n - 1) >= 0real);
    } else if n > 0 {
        lemma_lengths(spans, cut, n - 1, n - 1);
        assert(f(n - 1) >= 0real);
    }
}

/// The lengths, added up, are the exact length but for the roundings.
proof fn lemma_folded(spans: Seq<(F64, F64)>, cut: F64, n: int)
    requires
        are_measurable(spans, cut),
        0 <= n <= spans.len(),
        exact_length(spans, cut) < rounding::ceiling(),
    ensures
        ({
            let length = stage::length_before(spans, cut, n);
            let exact = folding_single::total(|i: int| before(spans[i], cut), n);
            &&& length.finite()
            &&& rounding::size(length.number() - exact) <= folding::drift(n, 1real, exact, 0real)
        }),
    decreases n,
{
    folding::lemma_small();
    let f = |i: int| before(spans[i], cut);
    let zero = F64::zero();
    zero.lemma_nonnegative();
    zero.lemma_order(zero);
    let u = rounding_double::unit();
    if n > 0 {
        lemma_folded(spans, cut, n - 1);
        lemma_lengths(spans, cut, n - 1, n);
        lemma_lengths(spans, cut, n, spans.len() as int);
        lemma_term(spans[n - 1], cut);
        let nr = n as real;
        let k = 2real * nr + 1real;
        assert(k <= 2097153real);
        assert(k * u <= 1real) by (nonlinear_arith)
            requires k <= 2097153real, u == 1real / 0x20_0000_0000_0000real;
        assert(2real * nr * 0real <= 1real) by (nonlinear_arith);
        let term = spans[n - 1].1.smaller(cut).difference(spans[n - 1].0).larger(zero);
        assert(f(n - 1) == before(spans[n - 1], cut));
        folding::lemma_fold_step(
            stage::length_before(spans, cut, n - 1),
            term,
            folding_single::total(f, n - 1),
            before(spans[n - 1], cut),
            n,
            1real,
            0real,
        );
    } else {
        assert(folding_single::total(f, 0) == 0real);
        let e = 0real;
        let k = 2real * (0int as real) + 1real;
        assert(k * u * e == 0real) by (nonlinear_arith)
            requires e == 0real;
    }
}

/// What is off by some roundings is off by as many when both are multiplied.
proof fn lemma_scaled(y: real, x: real, a: real, g: real, w: real, most: real)
    requires
        folding::is_near(y, x, a, g),
        0real <= w <= most,
        0real <= g,
    ensures
        folding::is_near(w * y, w * x, a, most * g),
{
    let u = rounding_double::unit();
    let e = y - x;
    let bound = a * u * x + g;
    assert(w * e == w * y - w * x) by (nonlinear_arith)
        requires e == y - x;
    assert(w * e <= w * bound && -(w * e) <= w * bound) by (nonlinear_arith)
        requires e <= bound, -e <= bound, w >= 0real;
    let au = a * u;
    assert(w * bound == au * (w * x) + w * g) by (nonlinear_arith)
        requires bound == au * x + g;
    assert(w * g <= most * g) by (nonlinear_arith)
        requires w <= most, g >= 0real;
}

/// A number in double precision that is off by some of its roundings, in single precision.
pub proof fn lemma_single(y: F64, x: real, a: real, g: real)
    requires
        y.finite(),
        0real <= x < rounding::ceiling() / 8real,
        0real <= a <= 4000000real,
        0real <= g && 0x1000_0000real * g <= rounding::grain(),
        folding::is_near(y.number(), x, a, g),
    ensures
        y.halved().finite(),
        rounding::size(y.halved().number() - x) <= 2real * rounding::unit() * x + 2real * rounding::grain(),
{
    folding_single::lemma_small();
    let (u, v) = (rounding_double::unit(), rounding::unit());
    let h = rounding::grain();
    let au = a * u;
    assert(10000000real * au <= 1real && au >= 0real) by (nonlinear_arith)
        requires au == a * u, 0real <= a <= 4000000real, u == 1real / 0x20_0000_0000_0000real;
    let aux = au * x;
    let vx = v * x;
    assert(aux >= 0real && 10000000real * aux <= x) by (nonlinear_arith)
        requires aux == au * x, au >= 0real, 10000000real * au <= 1real, x >= 0real;
    assert(100real * au <= v);
    assert(100real * aux <= vx) by (nonlinear_arith)
        requires aux == au * x, vx == v * x, 100real * au <= v, x >= 0real;
    y.lemma_halved_error();
    let sy = rounding::size(y.number());
    let most = x + aux + g;
    assert(v * sy <= v * most) by (nonlinear_arith)
        requires sy <= most, v > 0real;
    let rest = aux + g;
    assert(v * most == vx + v * rest) by (nonlinear_arith)
        requires most == x + rest, vx == v * x;
    assert(v * rest <= rest) by (nonlinear_arith)
        requires v > 0real, 1000real * v <= 1real, rest >= 0real;
    assert(2real * v * x == 2real * vx) by (nonlinear_arith)
        requires vx == v * x;
}

/// The grain of double precision is much the smaller.
pub proof fn lemma_grains()
    ensures
        0x1_0000_0000_0000_0000real * rounding_double::grain() <= rounding::grain(),
{
    lemma2_to64();
    lemma2_to64_rest();
    lemma_pow2_adds(64, 150);
    lemma_pow2_strictly_increases(214, 1075);
    lemma_pow2_pos(150);
    let (a, b, k) = (pow2(150) as real, pow2(1075) as real, 0x1_0000_0000_0000_0000real);
    assert(k * a <= b);
    assert(k * (1real / b) <= 1real / a) by (nonlinear_arith)
        requires k * a <= b, a > 0real, b > 0real;
}

/// What a volume takes is the length of its own material that lies before the cut, the mean over
/// all samples, times the charge; and it costs as often as its factor says.
pub proof fn law_a_volume_is_charged_for_its_own(share: EntityShare, cut: F64, charge: F64, samples: nat)
    requires
        are_measurable(share.spans@, cut),
        0 < samples < 0x1_0000_0000,
        charge.finite() && 0real <= charge.number() <= 2real,
        share.factor.finite() && 0real <= share.factor.number() <= 0x10_0000real,
        exact_length(share.spans@, cut) < rounding::ceiling() / 0x1000_0000real,
    ensures
        ({
            let deposit = stage::deposit_of(share, cut, charge, samples);
            let taken = charge.number() * (exact_length(share.spans@, cut) / samples as real);
            let cost = share.factor.number() * taken;
            let (u, g) = (rounding::unit(), rounding::grain());
            &&& deposit.entity == share.entity
            &&& deposit.factor == share.factor
            &&& deposit.chord.finite()
            &&& rounding::size(deposit.chord.number() - taken) <= 2real * u * taken + 2real * g
            &&& deposit.cost.finite()
            &&& rounding::size(deposit.cost.number() - cost) <= 2real * u * cost + 2real * g
        }),
{
    folding::lemma_small();
    lemma_grains();
    let spans = share.spans@;
    let n = spans.len() as int;
    lemma_lengths(spans, cut, n, n);
    lemma_folded(spans, cut, n);
    let length = stage::length_before(spans, cut, n);
    let exact = exact_length(spans, cut);
    let (u, g) = (rounding_double::unit(), rounding_double::grain());
    let a = 2real * (n as real) + 1real;
    let nothing = 0real;
    assert(2real * (n as real) * nothing == 0real) by (nonlinear_arith)
        requires nothing == 0real;
    assert(folding::is_near(length.number(), exact, a, 0real));
    assert(1000000real * ((a + 20real) * u) <= 1real) by (nonlinear_arith)
        requires a <= 2097153real, u == 1real / 0x20_0000_0000_0000real;
    assert(a * u <= (a + 20real) * u) by (nonlinear_arith)
        requires u > 0real;
    let mean = exact / samples as real;
    lemma_mean(length, exact, a, samples);
    let q = length.quotient(F64::whole(samples));
    let w = charge.number();
    let taken = w * mean;
    assert(0real <= taken <= 2real * mean) by (nonlinear_arith)
        requires taken == w * mean, 0real <= w <= 2real, mean >= 0real;
    let charged = lemma_multiplied(q, charge, mean, a + 6real, g, 2real);
    assert(folding::is_near(charged.number(), taken, a + 8real, 5real * g));
    lemma_single(charged, taken, a + 8real, 5real * g);
    let f = share.factor.number();
    share.factor.lemma_doubled_number();
    let cost = f * taken;
    assert(0real <= cost <= 0x10_0000real * taken) by (nonlinear_arith)
        requires cost == f * taken, 0real <= f <= 0x10_0000real, taken >= 0real;
    let dear = lemma_multiplied(charged, share.factor.doubled(), taken, a + 8real, 5real * g, 0x10_0000real);
    let h = 2real * (0x10_0000real * (5real * g)) + g;
    lemma_single(dear, cost, a + 10real, h);
}

/// A sum that is off by some roundings, over a count.
pub proof fn lemma_mean(sum: F64, exact: real, a: real, samples: nat)
    requires
        sum.finite(),
        0 < samples < 0x1_0000_0000,
        0real <= exact < rounding::ceiling(),
        0real <= a <= 2097153real,
        folding::is_near(sum.number(), exact, a, 0real),
    ensures
        0real <= exact / samples as real <= exact,
        sum.quotient(F64::whole(samples)).finite(),
        folding::is_near(
            sum.quotient(F64::whole(samples)).number(),
            exact / samples as real,
            a + 6real,
            rounding_double::grain(),
        ),
{
    folding::lemma_small();
    let (u, g) = (rounding_double::unit(), rounding_double::grain());
    assert(1000000real * ((a + 20real) * u) <= 1real) by (nonlinear_arith)
        requires a <= 2097153real, u == 1real / 0x20_0000_0000_0000real;
    assert(a * u <= (a + 20real) * u) by (nonlinear_arith)
        requires u > 0real;
    assert((a + 4real) * u <= (a + 20real) * u) by (nonlinear_arith)
        requires u > 0real;
    F64::lemma_count_error(samples);
    let c = F64::whole(samples).number();
    let k = samples as real;
    folding::lemma_near_quotient(sum.number(), exact, a, 0real, c, k);
    let mean = exact / k;
    assert(0real <= mean <= exact) by (nonlinear_arith)
        requires mean == exact / k, k >= 1real, exact >= 0real;
    lemma_not_larger(sum.number() / c, mean, a + 4real);
    sum.lemma_quotient_error(F64::whole(samples));
    let q = sum.quotient(F64::whole(samples));
    folding::lemma_near_rounded(q.number(), sum.number() / c, mean, a + 4real, 0real, g);
}

/// A number that is off by a few roundings is not much larger.
pub proof fn lemma_not_larger(y: real, x: real, a: real)
    requires
        0real <= x,
        0real <= a,
        a * rounding_double::unit() <= 1real,
        folding::is_near(y, x, a, 0real),
    ensures
        rounding::size(y) <= 2real * x,
{
    let au = a * rounding_double::unit();
    assert(au * x <= x) by (nonlinear_arith)
        requires au <= 1real, x >= 0real;
}

/// A number that is off, multiplied in double precision by one that is exact.
pub proof fn lemma_multiplied(y: F64, w: F64, x: real, a: real, g: real, most: real) -> (product: F64)
    requires
        y.finite(),
        w.finite(),
        0real <= x < rounding::ceiling() / 0x1000real,
        0real <= a,
        a * rounding_double::unit() <= 1real,
        0real <= g <= 1real,
        0real <= w.number() <= most,
        1real <= most <= 0x10_0000real,
        folding::is_near(y.number(), x, a, g),
    ensures
        product == y.product(w),
        product.finite(),
        folding::is_near(product.number(), w.number() * x, a + 2real, 2real * (most * g) + rounding_double::grain()),
{
    folding::lemma_small();
    let (yn, wn) = (y.number(), w.number());
    let u = rounding_double::unit();
    lemma_scaled(yn, x, a, g, wn, most);
    let exact = wn * x;
    assert(0real <= exact <= most * x) by (nonlinear_arith)
        requires exact == wn * x, 0real <= wn <= most, x >= 0real;
    assert(most * x <= 0x10_0000real * x) by (nonlinear_arith)
        requires most <= 0x10_0000real, x >= 0real;
    let mg = most * g;
    assert(0real <= mg <= 0x10_0000real) by (nonlinear_arith)
        requires mg == most * g, 0real <= most <= 0x10_0000real, 0real <= g <= 1real;
    let au = a * u;
    assert(0real <= au * exact <= exact) by (nonlinear_arith)
        requires 0real <= au <= 1real, exact >= 0real;
    let p = yn * wn;
    assert(p == wn * yn) by (nonlinear_arith)
        requires p == yn * wn;
    assert(au >= 0real) by (nonlinear_arith)
        requires au == a * u, a >= 0real, u > 0real;
    assert(rounding::size(p) <= 2real * exact + mg);
    y.lemma_product_error(w);
    folding::lemma_near_rounded(y.product(w).number(), p, exact, a, mg, rounding_double::grain());
    y.product(w)
}

/// Each volume of which something is taken is charged once, in the order of the shares, and no other:
/// `places` says which.
pub open spec fn are_charged(
    deposits: Seq<EntityDeposit>,
    shares: Seq<EntityShare>,
    cut: F64,
    charge: F64,
    samples: nat,
    places: Seq<int>,
) -> bool {
    &&& places.len() == deposits.len()
    &&& forall|k: int, l: int| 0 <= k < l < places.len() ==> places[k] < places[l]
    &&& forall|k: int| 0 <= k < places.len() ==> 0 <= #[trigger] places[k] < shares.len()
    &&& forall|k: int|
        0 <= k < deposits.len() ==> (#[trigger] deposits[k]) == stage::deposit_of(shares[places[k]], cut, charge, samples)
            && deposits[k].chord.value() > 0
    &&& forall|i: int|
        0 <= i < shares.len() && !places.contains(i) ==> !F32::zero().below(
            stage::deposit_of(#[trigger] shares[i], cut, charge, samples).chord,
        )
}

/// No volume is left out of the charges, and none is charged twice.
pub proof fn law_every_volume_is_charged_once(shares: Seq<EntityShare>, cut: F64, charge: F64, samples: nat) -> (places: Seq<
    int,
>)
    ensures
        are_charged(
            stage::deposits_of(shares, cut, charge, samples, shares.len() as int),
            shares,
            cut,
            charge,
            samples,
            places,
        ),
    decreases shares.len(),
{
    F32::zero().lemma_nonnegative();
    if shares.len() == 0 {
        Seq::empty()
    } else {
        let n = shares.len() - 1;
        let fewer = shares.drop_last();
        let before = law_every_volume_is_charged_once(fewer, cut, charge, samples);
        lemma_fewer_deposits(shares, fewer, cut, charge, samples, n);
        let deposits = stage::deposits_of(shares, cut, charge, samples, shares.len() as int);
        if F32::zero().below(stage::deposit_of(shares[n], cut, charge, samples).chord) {
            let places = before.push(n);
            assert forall|i: int| 0 <= i < shares.len() && !places.contains(i) implies !F32::zero().below(
                stage::deposit_of(#[trigger] shares[i], cut, charge, samples).chord,
            ) by {
                assert(places[n as int - n + before.len()] == n);
                if before.contains(i) {
                    let k = before.index_of(i);
                    assert(places[k] == i);
                }
                assert(i != n ==> shares[i] == fewer[i]);
            }
            places
        } else {
            assert forall|i: int| 0 <= i < shares.len() && !before.contains(i) implies !F32::zero().below(
                stage::deposit_of(#[trigger] shares[i], cut, charge, samples).chord,
            ) by {
                assert(i != n ==> shares[i] == fewer[i]);
            }
            before
        }
    }
}

proof fn lemma_fewer_deposits(a: Seq<EntityShare>, b: Seq<EntityShare>, cut: F64, charge: F64, samples: nat, n: int)
    requires
        0 <= n <= a.len(),
        n <= b.len(),
        forall|i: int| 0 <= i < n ==> a[i] == b[i],
    ensures
        stage::deposits_of(a, cut, charge, samples, n) == stage::deposits_of(b, cut, charge, samples, n),
    decreases n,
{
    if n > 0 {
        lemma_fewer_deposits(a, b, cut, charge, samples, n - 1);
    }
}

/// Each source of spall that the round reached is thrown once, in order, and no other: where it was,
/// its budget charged.
pub open spec fn are_thrown(thrown: Seq<DiscSpall>, spall: Seq<DiscSpall>, cut: F64, charge: F64, places: Seq<int>) -> bool {
    &&& places.len() == thrown.len()
    &&& forall|k: int, l: int| 0 <= k < l < places.len() ==> places[k] < places[l]
    &&& forall|i: int| 0 <= i < spall.len() ==> (places.contains(i) <==> (#[trigger] spall[i]).t.at_most(cut))
    &&& forall|k: int| 0 <= k < places.len() ==> 0 <= #[trigger] places[k] < spall.len()
    &&& forall|k: int| #![trigger thrown[k]]
        0 <= k < thrown.len() ==> {
            let mark = spall[places[k]];
            &&& thrown[k].t == mark.t
            &&& thrown[k].position == mark.position
            &&& thrown[k].normal == mark.normal
            &&& thrown[k].from_factor == mark.from_factor
            &&& thrown[k].to_factor == mark.to_factor
            &&& thrown[k].coverage == mark.coverage
            &&& is_budget(thrown[k].budget, mark.budget, charge)
        }
}

/// The budget times the charge, but for rounding.
pub open spec fn is_budget(thrown: F32, budget: F32, charge: F64) -> bool {
    let exact = charge.number() * budget.number();
    budget.finite() && 0real <= budget.number() < rounding::ceiling() / 0x1000real && charge.finite() && 0real
        <= charge.number() <= 2real ==> thrown.finite() && rounding::size(thrown.number() - exact) <= 2real
        * rounding::unit() * exact + 2real * rounding::grain()
}

proof fn lemma_budget(budget: F32, charge: F64)
    ensures
        is_budget(budget.doubled().product(charge).halved(), budget, charge),
{
    let b = budget.number();
    let w = charge.number();
    if budget.finite() && 0real <= b < rounding::ceiling() / 0x1000real && charge.finite() && 0real <= w <= 2real {
        folding::lemma_small();
        lemma_grains();
        budget.lemma_doubled_number();
        let u = rounding_double::unit();
        assert(0real * u * b == 0real) by (nonlinear_arith);
        assert(0real * u <= 1real) by (nonlinear_arith);
        let product = lemma_multiplied(budget.doubled(), charge, b, 0real, 0real, 2real);
        let exact = w * b;
        assert(0real <= exact <= 2real * b) by (nonlinear_arith)
            requires exact == w * b, 0real <= w <= 2real, b >= 0real;
        lemma_single(product, exact, 2real, rounding_double::grain());
    }
}

/// No spall is thrown from past where the round came, and none that it reached is left out.
pub proof fn law_every_reached_source_throws(spall: Seq<DiscSpall>, cut: F64, charge: F64) -> (places: Seq<int>)
    ensures
        are_thrown(stage::spall_before(spall, cut, charge, spall.len() as int), spall, cut, charge, places),
    decreases spall.len(),
{
    if spall.len() == 0 {
        Seq::empty()
    } else {
        let n = spall.len() - 1;
        let fewer = spall.drop_last();
        let before = law_every_reached_source_throws(fewer, cut, charge);
        lemma_fewer_sources(spall, fewer, cut, charge, n);
        lemma_budget(spall[n].budget, charge);
        let kept = stage::spall_before(fewer, cut, charge, n);
        assert forall|i: int| before.contains(i) implies 0 <= i < n by {
            let k = before.index_of(i);
            assert(0 <= k < kept.len());
            let same = kept[k];
        }
        if spall[n].t.at_most(cut) {
            let places = before.push(n);
            assert forall|i: int| 0 <= i < spall.len() implies (places.contains(i) <==> (#[trigger] spall[i]).t.at_most(
                cut,
            )) by {
                assert(places[before.len() as int] == n);
                if i < n {
                    assert(spall[i] == fewer[i]);
                    if before.contains(i) {
                        let k = before.index_of(i);
                        assert(places[k] == i);
                    }
                    if places.contains(i) {
                        let k = places.index_of(i);
                        assert(before[k] == i);
                    }
                }
            }
            assert forall|k: int, l: int| 0 <= k < l < places.len() implies places[k] < places[l] by {
                assert(before.contains(before[k]));
            }
            let thrown = stage::spall_before(spall, cut, charge, spall.len() as int);
            let last = DiscSpall { budget: spall[n].budget.doubled().product(charge).halved(), ..spall[n] };
            assert(thrown == kept.push(last));
            assert forall|k: int| #![trigger thrown[k]] 0 <= k < thrown.len() implies {
                let mark = spall[places[k]];
                &&& thrown[k].t == mark.t
                &&& thrown[k].position == mark.position
                &&& thrown[k].normal == mark.normal
                &&& thrown[k].from_factor == mark.from_factor
                &&& thrown[k].to_factor == mark.to_factor
                &&& thrown[k].coverage == mark.coverage
                &&& is_budget(thrown[k].budget, mark.budget, charge)
            } by {
                if k < kept.len() {
                    assert(thrown[k] == kept[k]);
                    assert(before.contains(before[k]));
                    assert(places[k] == before[k]);
                    assert(spall[before[k]] == fewer[before[k]]);
                } else {
                    assert(k == before.len());
                    assert(places[k] == n);
                    assert(thrown[k] == last);
                }
            }
            places
        } else {
            assert forall|i: int| 0 <= i < spall.len() implies (before.contains(i) <==> (#[trigger] spall[i]).t.at_most(
                cut,
            )) by {
                if i < n {
                    assert(spall[i] == fewer[i]);
                }
            }
            assert(stage::spall_before(spall, cut, charge, spall.len() as int) == kept);
            assert forall|k: int| 0 <= k < kept.len() implies spall[before[k]] == fewer[#[trigger] before[k]] && 0
                <= before[k] < n by {
                assert(before.contains(before[k]));
            }
            before
        }
    }
}

proof fn lemma_fewer_sources(a: Seq<DiscSpall>, b: Seq<DiscSpall>, cut: F64, charge: F64, n: int)
    requires
        0 <= n <= a.len(),
        n <= b.len(),
        forall|i: int| 0 <= i < n ==> a[i] == b[i],
    ensures
        stage::spall_before(a, cut, charge, n) == stage::spall_before(b, cut, charge, n),
    decreases n,
{
    if n > 0 {
        lemma_fewer_sources(a, b, cut, charge, n - 1);
    }
}

/// The round perforates what it can defeat: it comes out at the far end, for the whole cost. What it
/// cannot defeat stops it, on its own ray, before it spent more than it had.
pub proof fn law_a_round_stops_where_it_is_spent(plan: ResolutionPlan, transit: DiscWalk, request: TransitRequest, shot: Shot)
    requires
        stage::is_plan(plan, transit, request, shot),
        transit.events@[0].profile.cumulative@.len() > 0,
        transit.events@[0].profile.ts@.len() == transit.events@[0].profile.cumulative@.len(),
        !shot.capability.is_nan(),
    ensures
        ({
            let event = transit.events@[0];
            let charge = if request.entrance.overmatched {
                transit.axis.inner(request.entrance.normal).absolute().doubled()
            } else {
                F64::one()
            };
            let whole = event.profile.cumulative@.last().product(charge);
            let capability = shot.capability.doubled();
            &&& whole.at_most(capability) ==> plan.outcome == (Outcome::Perforated {
                exit: event.exit_position,
                exit_normal: event.exit_normal,
                direction: transit.axis,
                t: event.end,
            }) && plan.cost_spent == whole.halved()
            &&& capability.below(whole) ==> plan.cost_spent == shot.capability.smaller(whole.halved()) && (
            plan.outcome matches Outcome::Embedded { at, t } && at == events::point_at(transit.origin, transit.axis, t))
        }),
{
    let event = transit.events@[0];
    let charge = stage::charge_of(transit, request);
    let profile = choose|profile: CostProfile|
        {
            let total = profile.spec_total();
            let stop = stage::stop_of(profile, shot.capability.doubled());
            let cut = match stop {
                Some(t) => t,
                None => event.end,
            };
            &&& #[trigger] stage::is_scaled(profile, event.profile, charge)
            &&& plan.outcome == match stop {
                Some(t) => Outcome::Embedded { at: events::point_at(transit.origin, transit.axis, t), t },
                None => Outcome::Perforated {
                    exit: event.exit_position,
                    exit_normal: event.exit_normal,
                    direction: transit.axis,
                    t: event.end,
                },
            }
            &&& plan.cost_spent == match stop {
                Some(_) => shot.capability.smaller(total.halved()),
                None => total.halved(),
            }
        };
    assert(profile.cumulative@.last() == event.profile.cumulative@.last().product(charge));
}

} // verus!
