//! What deposits do to hit points: every one counts, and the damage is what was lost.

use crate::ballistics::resolve;
use crate::ballistics::walk::stage::EntityDeposit;
use crate::ballistics::walk::vocabulary::Entity;
use crate::float::F32;
use crate::folding_single;
use crate::rounding;
use vstd::prelude::*;

verus! {

/// No component is listed twice, and each has a number of hit points that is not negative.
pub open spec fn is_roster(health: Seq<(Entity, F32)>) -> bool {
    &&& forall|i: int, j: int| 0 <= i < j < health.len() ==> (#[trigger] health[i]).0 != (#[trigger] health[j]).0
    &&& forall|i: int| 0 <= i < health.len() ==> (#[trigger] health[i]).1.finite() && !health[i].1.negative()
}

/// No component is charged twice, and each charge is a number that is not negative.
pub open spec fn are_charges(deposits: Seq<EntityDeposit>) -> bool {
    &&& forall|i: int, j: int|
        0 <= i < j < deposits.len() ==> (#[trigger] deposits[i]).entity != (#[trigger] deposits[j]).entity
    &&& forall|i: int| 0 <= i < deposits.len() ==> (#[trigger] deposits[i]).cost.finite() && !deposits[i].cost.negative()
}

/// The component stands with what is left of its hit points once the charge is taken: the difference,
/// and none where the charge is as large.
pub open spec fn is_charged(before: F32, cost: F32, after: F32) -> bool {
    &&& after.finite()
    &&& cost.value() >= before.value() ==> after.value() == 0
    &&& cost.value() < before.value() ==> after == before.difference(cost)
}

/// What the components lost, exactly.
pub open spec fn lost(before: Seq<(Entity, F32)>, after: Seq<(Entity, F32)>) -> real {
    folding_single::total(|i: int| before[i].1.number() - after[i].1.number(), before.len() as int)
}

/// All hit points, exactly.
pub open spec fn vigour(health: Seq<(Entity, F32)>) -> real {
    folding_single::total(|i: int| health[i].1.number(), health.len() as int)
}

/// Every component that a deposit names stands with what the deposit leaves it, every other one with
/// what it had, and the damage is the sum of the hit points lost, but for the roundings of adding
/// them up.
pub open spec fn are_dealt(
    health: Seq<(Entity, F32)>,
    deposits: Seq<EntityDeposit>,
    after: Seq<(Entity, F32)>,
    damage: F32,
) -> bool {
    &&& after.len() == health.len()
    &&& forall|i: int| 0 <= i < health.len() ==> (#[trigger] after[i]).0 == health[i].0
    &&& forall|i: int, j: int|
        0 <= i < health.len() && 0 <= j < deposits.len() && (#[trigger] deposits[j]).entity == (#[trigger] health[i]).0
            ==> is_charged(health[i].1, deposits[j].cost, after[i].1)
    &&& forall|i: int|
        0 <= i < health.len() && (forall|j: int|
            0 <= j < deposits.len() ==> (#[trigger] deposits[j]).entity != health[i].0) ==> #[trigger] after[i]
            == health[i]
    &&& damage.finite()
    &&& rounding::size(damage.number() - lost(health, after)) <= folding_single::drift(
        deposits.len() as int,
        2real,
        lost(health, after),
        0real,
    )
}

/// Lists short enough, and hit points few enough, for their sum to be a number.
pub open spec fn is_in_range(health: Seq<(Entity, F32)>, deposits: Seq<EntityDeposit>) -> bool {
    deposits.len() < 0x10_0000 && vigour(health) < rounding::ceiling() / 16real
}

/// One of the first `n` deposits is for the component.
spec fn is_named(deposits: Seq<EntityDeposit>, n: int, entity: Entity) -> bool {
    exists|j: int| 0 <= j < n && (#[trigger] deposits[j]).entity == entity
}

/// A component is found by its place.
proof fn lemma_component(health: Seq<(Entity, F32)>, entity: Entity, i: int)
    requires
        0 <= i,
    ensures
        match resolve::component_at(health, entity, i) {
            Some(k) => i <= k < health.len() && health[k].0 == entity,
            None => forall|k: int| i <= k < health.len() ==> (#[trigger] health[k]).0 != entity,
        },
    decreases health.len() - i,
{
    if i < health.len() && health[i].0 != entity {
        lemma_component(health, entity, i + 1);
    }
}

/// What taking a charge leaves.
proof fn lemma_worn(before: F32, cost: F32)
    requires
        before.finite(),
        !before.negative(),
        cost.finite(),
        !cost.negative(),
    ensures
        ({
            let after = resolve::worn(before, cost.product(resolve::transit_k()));
            &&& is_charged(before, cost, after)
            &&& 0 <= after.value() <= before.value()
            &&& !after.negative()
        }),
{
    cost.lemma_product_one();
    let zero = F32::zero();
    zero.lemma_nonnegative();
    before.lemma_nonnegative();
    cost.lemma_nonnegative();
    before.lemma_difference_below(cost);
    before.lemma_difference_sign(cost);
    let left = before.difference(cost);
    left.lemma_nonnegative();
    if left.value() > 0 {
        left.lemma_between(before);
    }
    let after = left.larger(zero);
    after.lemma_nonnegative();
    assert(after.value() == 0 || after == left);
    if left.value() == 0 && after == left {
        lemma_no_negative_zero(before, cost);
    }
}

/// A difference of nothing is not the negative zero.
proof fn lemma_no_negative_zero(before: F32, cost: F32)
    requires
        before.finite(),
        !before.negative(),
        cost.finite(),
        !cost.negative(),
        before.difference(cost).value() == 0,
        !before.difference(cost).is_nan(),
    ensures
        before.difference(cost).finite(),
        !before.difference(cost).negative(),
{
    before.lemma_difference_sign(cost);
    before.lemma_naught_difference(cost);
}

/// The sum of terms of which one changes.
proof fn lemma_total_update(f: spec_fn(int) -> real, g: spec_fn(int) -> real, n: int, k: int)
    requires
        0 <= k < n,
        forall|i: int| 0 <= i < n && i != k ==> #[trigger] f(i) == g(i),
    ensures
        folding_single::total(g, n) == folding_single::total(f, n) + g(k) - f(k),
    decreases n,
{
    if k < n - 1 {
        lemma_total_update(f, g, n - 1, k);
        assert(f(n - 1) == g(n - 1));
    } else {
        lemma_total_same(f, g, n - 1);
    }
}

proof fn lemma_total_same(f: spec_fn(int) -> real, g: spec_fn(int) -> real, n: int)
    requires
        forall|i: int| 0 <= i < n ==> #[trigger] f(i) == g(i),
    ensures
        folding_single::total(f, n) == folding_single::total(g, n),
    decreases n,
{
    if n > 0 {
        lemma_total_same(f, g, n - 1);
        assert(f(n - 1) == g(n - 1));
    }
}

proof fn lemma_total_below(f: spec_fn(int) -> real, g: spec_fn(int) -> real, n: int)
    requires
        forall|i: int| 0 <= i < n ==> 0real <= #[trigger] f(i) <= g(i),
    ensures
        0real <= folding_single::total(f, n) <= folding_single::total(g, n),
    decreases n,
{
    if n > 0 {
        lemma_total_below(f, g, n - 1);
        assert(0real <= f(n - 1) <= g(n - 1));
    }
}

/// What the first `n` deposits leave of the components.
spec fn is_after(
    health: Seq<(Entity, F32)>,
    deposits: Seq<EntityDeposit>,
    n: int,
    after: Seq<(Entity, F32)>,
) -> bool {
    &&& after.len() == health.len()
    &&& forall|i: int|
        0 <= i < health.len() ==> {
            &&& (#[trigger] after[i]).0 == health[i].0
            &&& 0 <= after[i].1.value() <= health[i].1.value()
            &&& after[i].1.finite()
            &&& !is_named(deposits, n, health[i].0) ==> after[i] == health[i]
        }
    &&& forall|i: int, j: int|
        0 <= i < health.len() && 0 <= j < n && (#[trigger] deposits[j]).entity == (#[trigger] health[i]).0 ==> is_charged(
            health[i].1,
            deposits[j].cost,
            after[i].1,
        )
}

proof fn lemma_after(health: Seq<(Entity, F32)>, deposits: Seq<EntityDeposit>, n: int)
    requires
        is_roster(health),
        are_charges(deposits),
        0 <= n <= deposits.len(),
        deposits.len() < 0x10_0000,
        vigour(health) < rounding::ceiling() / 16real,
    ensures
        ({
            let (after, damage) = resolve::wounded_by((health, F32::zero()), deposits, n);
            &&& is_after(health, deposits, n, after)
            &&& damage.finite()
            &&& 0real <= lost(health, after) <= vigour(health)
            &&& rounding::size(damage.number() - lost(health, after)) <= folding_single::drift(
                n,
                2real,
                lost(health, after),
                0real,
            )
        }),
    decreases n,
{
    let start = (health, F32::zero());
    let len = health.len() as int;
    let (after, damage) = resolve::wounded_by(start, deposits, n);
    folding_single::lemma_small();
    let u = rounding::unit();
    let zero = F32::zero();
    zero.lemma_nonnegative();
    zero.lemma_order(zero);
    assert forall|i: int| 0 <= i < len implies 0 <= (#[trigger] health[i]).1.value() by {
        health[i].1.lemma_nonnegative();
    }
    if n == 0 {
        let gone = |i: int| health[i].1.number() - after[i].1.number();
        let none = |i: int| 0real;
        lemma_total_same(gone, none, len);
        lemma_total_nothing(len);
        assert(lost(health, after) == 0real);
        let (x, y) = (|i: int| 0real, |i: int| health[i].1.number());
        assert forall|i: int| 0 <= i < len implies 0real <= #[trigger] x(i) <= y(i) by {
            health[i].1.lemma_order(zero);
        }
        lemma_total_below(x, y, len);
        let none = 0real;
        assert((2real * none + 2real) * u * none + 2real * none * none == 0real) by (nonlinear_arith)
            requires none == 0real;
    } else {
        lemma_after(health, deposits, n - 1);
        let (mid, dealt) = resolve::wounded_by(start, deposits, n - 1);
        let charge = deposits[n - 1];
        lemma_component(mid, charge.entity, 0);
        match resolve::component_at(mid, charge.entity, 0) {
            Some(k) => {
                assert(!is_named(deposits, n - 1, health[k].0)) by {
                    if is_named(deposits, n - 1, health[k].0) {
                        let j = choose|j: int| 0 <= j < n - 1 && (#[trigger] deposits[j]).entity == health[k].0;
                        assert(deposits[j].entity != deposits[n - 1].entity);
                    }
                }
                assert(mid[k] == health[k]);
                lemma_worn(health[k].1, charge.cost);
                lemma_step(health, deposits, n, mid, k, dealt);
            },
            None => {
                assert forall|i: int| 0 <= i < len implies is_named(deposits, n, (#[trigger] health[i]).0) == is_named(
                    deposits,
                    n - 1,
                    health[i].0,
                ) by {
                    assert(mid[i].0 != charge.entity);
                    lemma_named(deposits, n, health[i].0);
                }
                let x = lost(health, after);
                let m = n as real;
                assert((n - 1) as real == m - 1real);
                assert((2real * (m - 1real) + 2real) * u * x <= (2real * m + 2real) * u * x) by (nonlinear_arith)
                    requires u > 0real, x >= 0real;
                assert(2real * (m - 1real) * 0real == 0real && 2real * m * 0real == 0real) by (nonlinear_arith);
                assert forall|i: int, j: int|
                    0 <= i < len && 0 <= j < n && (#[trigger] deposits[j]).entity == (#[trigger] health[i]).0 implies is_charged(
                    health[i].1,
                    deposits[j].cost,
                    after[i].1,
                ) by {
                    assert(mid[i].0 != charge.entity);
                }
            },
        }
    }
}

proof fn lemma_total_nothing(n: int)
    ensures
        folding_single::total(|i: int| 0real, n) == 0real,
    decreases n,
{
    if n > 0 {
        lemma_total_nothing(n - 1);
    }
}

proof fn lemma_named(deposits: Seq<EntityDeposit>, n: int, entity: Entity)
    requires
        0 < n <= deposits.len(),
    ensures
        is_named(deposits, n, entity) <==> is_named(deposits, n - 1, entity) || deposits[n - 1].entity == entity,
{
    if is_named(deposits, n - 1, entity) {
        let j = choose|j: int| 0 <= j < n - 1 && (#[trigger] deposits[j]).entity == entity;
        assert(deposits[j].entity == entity);
    }
    if deposits[n - 1].entity == entity {
        assert(deposits[n - 1].entity == entity);
    }
}

/// One more component is charged.
proof fn lemma_step(
    health: Seq<(Entity, F32)>,
    deposits: Seq<EntityDeposit>,
    n: int,
    mid: Seq<(Entity, F32)>,
    k: int,
    dealt: F32,
)
    requires
        is_roster(health),
        are_charges(deposits),
        0 < n <= deposits.len(),
        deposits.len() < 0x10_0000,
        vigour(health) < rounding::ceiling() / 16real,
        is_after(health, deposits, n - 1, mid),
        0 <= k < health.len(),
        health[k].0 == deposits[n - 1].entity,
        mid[k] == health[k],
        !is_named(deposits, n - 1, health[k].0),
        dealt.finite(),
        0real <= lost(health, mid) <= vigour(health),
        rounding::size(dealt.number() - lost(health, mid)) <= folding_single::drift(
            n - 1,
            2real,
            lost(health, mid),
            0real,
        ),
    ensures
        ({
            let left = resolve::worn(health[k].1, deposits[n - 1].cost.product(resolve::transit_k()));
            let after = mid.update(k, (health[k].0, left));
            let damage = dealt.sum(health[k].1.difference(left));
            &&& is_after(health, deposits, n, after)
            &&& damage.finite()
            &&& 0real <= lost(health, after) <= vigour(health)
            &&& rounding::size(damage.number() - lost(health, after)) <= folding_single::drift(
                n,
                2real,
                lost(health, after),
                0real,
            )
        }),
{
    let len = health.len() as int;
    let charge = deposits[n - 1];
    let u = rounding::unit();
    folding_single::lemma_small();
    let zero = F32::zero();
    zero.lemma_nonnegative();
    let left = resolve::worn(health[k].1, charge.cost.product(resolve::transit_k()));
    lemma_worn(health[k].1, charge.cost);
    let after = mid.update(k, (health[k].0, left));
    assert forall|i: int| 0 <= i < len implies {
        &&& (#[trigger] after[i]).0 == health[i].0
        &&& 0 <= after[i].1.value() <= health[i].1.value()
        &&& after[i].1.finite()
        &&& !is_named(deposits, n, health[i].0) ==> after[i] == health[i]
    } by {
        lemma_named(deposits, n, health[i].0);
        if i != k {
            assert(after[i] == mid[i]);
        }
    }
    assert forall|i: int, j: int|
        0 <= i < len && 0 <= j < n && (#[trigger] deposits[j]).entity == (#[trigger] health[i]).0 implies is_charged(
        health[i].1,
        deposits[j].cost,
        after[i].1,
    ) by {
        if i == k {
            if j < n - 1 {
                assert(deposits[j].entity != deposits[n - 1].entity);
            }
        } else {
            assert(after[i] == mid[i]);
            if j == n - 1 {
                if i < k {
                    assert(health[i].0 != health[k].0);
                } else {
                    assert(health[k].0 != health[i].0);
                }
            }
        }
    }
    // what is lost grows by what this component lost
    let (f, g) = (
        |i: int| health[i].1.number() - mid[i].1.number(),
        |i: int| health[i].1.number() - after[i].1.number(),
    );
    assert forall|i: int| 0 <= i < len && i != k implies #[trigger] f(i) == g(i) by {
        assert(after[i] == mid[i]);
    }
    lemma_total_update(f, g, len, k);
    let x = health[k].1.number() - left.number();
    assert(f(k) == 0real && g(k) == x);
    let before = lost(health, mid);
    assert(lost(health, after) == before + x);
    left.lemma_order(health[k].1);
    health[k].1.lemma_order(left);
    left.lemma_order(zero);
    assert(x >= 0real);
    let y = |i: int| health[i].1.number();
    assert forall|i: int| 0 <= i < len implies 0real <= #[trigger] g(i) <= y(i) by {
        after[i].1.lemma_order(zero);
        health[i].1.lemma_order(after[i].1);
    }
    lemma_total_below(g, y, len);
    // the rounded sum
    let term = health[k].1.difference(left);
    health[k].1.lemma_difference_error(left);
    let ux = u * x;
    assert(2real * u * x + 0real == 2real * ux && ux >= 0real) by (nonlinear_arith)
        requires ux == u * x, u > 0real, x >= 0real;
    let m = n as real;
    assert((2real * m + 2real) * u <= 1real) by (nonlinear_arith)
        requires 0real <= m < 0x10_0000real, u == 1real / 0x100_0000real;
    assert(2real * m * 0real == 0real) by (nonlinear_arith);
    folding_single::lemma_fold_step(dealt, term, before, before, x, x, n, 2real, 0real);
}

/// Every deposit counts: each component that a deposit names stands with what is left of its hit
/// points once that deposit is taken, each that none names keeps its own, and the damage is what all
/// of them lost, but for rounding.
pub proof fn law_every_deposit_counts(health: Seq<(Entity, F32)>, deposits: Seq<EntityDeposit>)
    requires
        is_roster(health),
        are_charges(deposits),
        is_in_range(health, deposits),
    ensures
        ({
            let (after, damage) = resolve::wounded_by((health, F32::zero()), deposits, deposits.len() as int);
            are_dealt(health, deposits, after, damage)
        }),
{
    lemma_after(health, deposits, deposits.len() as int);
    let (after, damage) = resolve::wounded_by((health, F32::zero()), deposits, deposits.len() as int);
    assert forall|i: int|
        0 <= i < health.len() && (forall|j: int|
            0 <= j < deposits.len() ==> (#[trigger] deposits[j]).entity != health[i].0) implies #[trigger] after[i]
        == health[i] by {
        assert(!is_named(deposits, deposits.len() as int, health[i].0));
    }
}

/// What the first `n` bursts dealt, exactly.
pub open spec fn dealt(thrown: Seq<F32>, n: int) -> real {
    folding_single::total(|i: int| thrown[i].number(), n)
}

/// What the bursts dealt, and the damage before, are numbers that are not negative.
pub open spec fn are_wounds(damage: F32, thrown: Seq<F32>) -> bool {
    &&& damage.finite() && 0real <= damage.number()
    &&& thrown.len() < 0x10_0000
    &&& forall|i: int| 0 <= i < thrown.len() ==> (#[trigger] thrown[i]).finite() && 0real <= thrown[i].number()
}

proof fn lemma_dealt(damage: F32, thrown: Seq<F32>, m: int, n: int)
    requires
        are_wounds(damage, thrown),
        0 <= m <= n <= thrown.len(),
    ensures
        0real <= dealt(thrown, m) <= dealt(thrown, n),
    decreases n,
{
    let f = |i: int| thrown[i].number();
    if n > m {
        lemma_dealt(damage, thrown, m, n - 1);
        assert(f(n - 1) == thrown[n - 1].number());
    } else if n > 0 {
        lemma_dealt(damage, thrown, n - 1, n - 1);
        assert(f(n - 1) == thrown[n - 1].number());
    }
}

/// The damage with the spall's is the damage and what every burst dealt, added up, but for the roundings of
/// adding them.
pub proof fn law_every_burst_counts(damage: F32, thrown: Seq<F32>, n: int)
    requires
        are_wounds(damage, thrown),
        0 <= n <= thrown.len(),
        damage.number() + dealt(thrown, thrown.len() as int) < rounding::ceiling() / 16real,
    ensures
        resolve::damage_with(damage, thrown, n).finite(),
        rounding::size(resolve::damage_with(damage, thrown, n).number() - (damage.number() + dealt(thrown, n)))
            <= folding_single::drift(n, 1real, damage.number() + dealt(thrown, n), 0real),
    decreases n,
{
    folding_single::lemma_small();
    let f = |i: int| thrown[i].number();
    let u = rounding::unit();
    let d = damage.number();
    if n > 0 {
        law_every_burst_counts(damage, thrown, n - 1);
        lemma_dealt(damage, thrown, n - 1, n);
        lemma_dealt(damage, thrown, n, thrown.len() as int);
        let x = thrown[n - 1].number();
        assert(f(n - 1) == x);
        let before = d + dealt(thrown, n - 1);
        let ux = u * x;
        assert(1real * u * x == ux);
        assert(ux >= 0real) by (nonlinear_arith)
            requires ux == u * x, u > 0real, x >= 0real;
        let m = n as real;
        assert((2real * m + 1real) * u <= 1real) by (nonlinear_arith)
            requires 0real <= m < 0x10_0000real, u == 1real / 0x100_0000real;
        assert(2real * m * 0real == 0real) by (nonlinear_arith);
        folding_single::lemma_fold_step(
            resolve::damage_with(damage, thrown, n - 1),
            thrown[n - 1],
            before,
            before,
            x,
            x,
            n,
            1real,
            0real,
        );
    } else {
        assert(folding_single::total(f, 0) == 0real);
        let k = 2real * (0int as real) + 1real;
        assert(k * u * d >= 0real) by (nonlinear_arith)
            requires k == 1real, u > 0real, d >= 0real;
        let z = 2real * (0int as real);
        assert(z * 0real == 0real) by (nonlinear_arith);
    }
}

} // verus!
