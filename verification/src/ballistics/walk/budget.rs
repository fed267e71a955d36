//! A profile read backwards: where along a crossing a budget is met.

use crate::ballistics::walk::disc::CostProfile;
use crate::float::F64;
use vstd::prelude::*;

verus! {

/// A profile to read both ways: its breaks rise, and its cost starts from nothing and never
/// falls.
pub open spec fn is_ascending(profile: CostProfile) -> bool {
    let (ts, cost) = (profile.ts@, profile.cumulative@);
    &&& ts.len() > 0
    &&& cost.len() == ts.len()
    &&& forall|i: int| 0 <= i < ts.len() ==> (#[trigger] ts[i]).finite()
    &&& forall|i: int, j: int| 0 <= i < j < ts.len() ==> (#[trigger] ts[i]).below(#[trigger] ts[j])
    &&& cost[0] == F64::zero()
    &&& forall|i: int| 0 <= i < cost.len() ==> !(#[trigger] cost[i]).is_nan()
    &&& forall|i: int, j: int| 0 <= i < j < cost.len() ==> (#[trigger] cost[i]).value() <= (#[trigger] cost[j]).value()
}

/// Such a profile that lies ahead of the origin.
pub open spec fn is_rising(profile: CostProfile) -> bool {
    &&& is_ascending(profile)
    &&& forall|i: int| 0 <= i < profile.ts@.len() ==> 0 <= (#[trigger] profile.ts@[i]).value()
}

/// The stretch of the profile that ends at break `i` is where the budget is met: it has
/// not been spent where the stretch starts, and has where it ends.
pub open spec fn is_spent_within(profile: CostProfile, budget: F64, t: F64, i: int) -> bool {
    let (ts, cost) = (profile.ts@, profile.cumulative@);
    &&& 0 <= i < ts.len()
    &&& budget.at_most(cost[i])
    &&& t.at_most(ts[i])
    &&& i > 0 ==> cost[i - 1].below(budget) && ts[i - 1].at_most(t)
    &&& i == 0 ==> t == ts[0]
}

pub(crate) proof fn lemma_reaching(profile: CostProfile, budget: F64, i: int)
    requires
        is_ascending(profile),
        !budget.is_nan(),
        0 <= i <= profile.ts@.len(),
        forall|j: int| 0 <= j < i ==> (#[trigger] profile.cumulative@[j]).below(budget),
    ensures
        ({
            let k = profile.reaching(budget, i);
            &&& i <= k <= profile.ts@.len()
            &&& forall|j: int| 0 <= j < k ==> (#[trigger] profile.cumulative@[j]).below(budget)
            &&& k < profile.ts@.len() ==> budget.at_most(profile.cumulative@[k])
        }),
    decreases profile.ts@.len() - i,
{
    if i < profile.ts@.len() && !budget.at_most(profile.cumulative@[i]) {
        lemma_reaching(profile, budget, i + 1);
    }
}

pub(crate) proof fn lemma_costs(profile: CostProfile, i: int)
    requires
        is_ascending(profile),
        0 <= i < profile.cumulative@.len(),
    ensures
        0 <= profile.cumulative@[i].value(),
{
    F64::zero().lemma_nonnegative();
    if i > 0 {
        assert(profile.cumulative@[0].value() <= profile.cumulative@[i].value());
    }
}

/// The shares of a stretch's cost that two budgets take.
proof fn lemma_shares(low: F64, high: F64, p: F64, q: F64)
    requires
        !high.is_nan(),
        0 <= low.value(),
        low.below(p),
        p.at_most(q),
        q.at_most(high),
        high.finite() || q.below(high),
    ensures
        ({
            let slice = high.difference(low);
            let (u, v) = (p.difference(low).quotient(slice), q.difference(low).quotient(slice));
            u.finite() && v.finite() && 0 <= u.value() <= v.value()
        }),
{
    low.lemma_below_another(p);
    if high.finite() {
        lemma_bounded(p, high);
        lemma_bounded(q, high);
    } else {
        p.lemma_below_another(high);
        q.lemma_below_another(high);
    }
    let slice = high.difference(low);
    let (x, y) = (p.difference(low), q.difference(low));
    p.lemma_gap(low);
    q.lemma_gap(low);
    p.lemma_difference_grows(q, low);
    if high.finite() {
        high.lemma_gap(low);
        high.lemma_difference_sign(low);
        q.lemma_difference_grows(high, low);
        x.lemma_quotient_grows(y, slice);
        y.lemma_quotient_grows(slice, slice);
        slice.lemma_over_itself();
        let one = slice.quotient(slice);
        lemma_bounded(x.quotient(slice), one);
        lemma_bounded(y.quotient(slice), one);
    } else {
        high.lemma_all_less(low);
        x.lemma_over_all(slice);
        y.lemma_over_all(slice);
    }
}

/// Where the formula between two breaks lies.
proof fn lemma_within(profile: CostProfile, p: F64, q: F64, i: int)
    requires
        is_ascending(profile),
        0 < i < profile.ts@.len(),
        profile.cumulative@[i - 1].below(p),
        p.at_most(q),
        q.at_most(profile.cumulative@[i]),
        profile.cumulative@[i].finite() || q.below(profile.cumulative@[i]),
    ensures
        profile.ts@[i - 1].at_most(profile.met_within(p, i)),
        profile.met_within(p, i).at_most(profile.met_within(q, i)),
        profile.met_within(q, i).at_most(profile.ts@[i]),
{
    let (ts, cost) = (profile.ts@, profile.cumulative@);
    let (a, b) = (ts[i - 1], ts[i]);
    let (low, high) = (cost[i - 1], cost[i]);
    lemma_costs(profile, i - 1);
    lemma_shares(low, high, p, q);
    let slice = high.difference(low);
    let (u, v) = (p.difference(low).quotient(slice), q.difference(low).quotient(slice));
    assert(a.below(b) && a.finite() && b.finite());
    let gap = b.difference(a);
    b.lemma_difference_finite(a);
    b.lemma_difference_sign(a);
    if gap.finite() {
        gap.lemma_product_grows(u, v);
        gap.lemma_product_grows(v, v);
        a.lemma_sum_rises(gap.product(u), gap.product(v));
    } else {
        gap.lemma_all_times(u, a);
        gap.lemma_all_times(v, a);
        lemma_past(a.sum(gap.product(u)), b);
        lemma_past(a.sum(gap.product(v)), b);
    }
}

/// Of no number, or one past every finite one, and a finite number, the latter is the smaller.
proof fn lemma_past(x: F64, b: F64)
    requires
        x.is_nan() || (!x.finite() && 0 <= x.value()),
        b.finite(),
    ensures
        x.smaller(b) == b,
{
    if !x.is_nan() {
        if 0 <= b.value() {
            if x.value() <= b.value() {
                lemma_bounded(x, b);
            }
        }
    }
}

pub(crate) proof fn lemma_bounded(x: F64, y: F64)
    requires
        !x.is_nan(),
        y.finite(),
        0 <= x.value() <= y.value(),
    ensures
        x.finite(),
{
    if x.value() < y.value() {
        x.lemma_under(y);
    } else if x.value() > 0 {
        x.lemma_same_bits(y);
    } else {
        x.lemma_naught();
    }
}

/// A budget is met unless the whole profile costs less. It is met in the profile, in the
/// first stretch by whose end it is spent; where a break has cost exactly the budget, at
/// the first such break.
pub proof fn law_a_budget_is_met_in_its_stretch(profile: CostProfile, budget: F64)
    requires
        is_ascending(profile),
        !budget.is_nan(),
    ensures
        profile.spec_invert(budget) is None <==> profile.spec_total().below(budget),
        profile.spec_invert(budget) matches Some(t) ==> {
            &&& profile.ts@[0].at_most(t)
            &&& t.at_most(profile.ts@.last())
            &&& exists|i: int| #[trigger] is_spent_within(profile, budget, t, i)
        },
        forall|i: int|
            0 <= i < profile.ts@.len() && (#[trigger] profile.cumulative@[i]).equals(budget) && (forall|j: int|
                0 <= j < i ==> (#[trigger] profile.cumulative@[j]).below(budget)) ==> profile.spec_invert(budget)
                == Some(profile.ts@[i]),
{
    let (ts, cost) = (profile.ts@, profile.cumulative@);
    lemma_reaching(profile, budget, 0);
    let k = profile.reaching(budget, 0);
    if !profile.spec_total().below(budget) {
        assert(k < ts.len()) by {
            if k == ts.len() {
                assert(cost[ts.len() - 1].below(budget));
            }
        }
        assert(cost[k].value() >= budget.value());
        let t = profile.spec_invert(budget)->Some_0;
        if k > 0 && !cost[k].equals(budget) {
            assert(cost[k - 1].below(budget));
            lemma_within(profile, budget, budget, k);
        }
        if k > 0 {
            assert(cost[k - 1].below(budget));
            assert(ts[k - 1].below(ts[k]));
            if k - 1 > 0 {
                assert(ts[0].below(ts[k - 1]));
            }
        }
        if k < ts.len() - 1 {
            assert(ts[k].below(ts[ts.len() - 1]));
        }
        assert(is_spent_within(profile, budget, t, k));
    }
    assert forall|i: int|
        0 <= i < ts.len() && (#[trigger] cost[i]).equals(budget) && (forall|j: int|
            0 <= j < i ==> (#[trigger] cost[j]).below(budget)) implies profile.spec_invert(budget) == Some(ts[i]) by {
        if i < ts.len() - 1 {
            assert(cost[i].value() <= cost[ts.len() - 1].value());
        }
        if k < i {
            assert(cost[k].below(budget));
        }
        if i < k {
            assert(cost[i].below(budget));
        }
    }
}

/// A larger budget is never met earlier.
pub proof fn law_a_larger_budget_is_met_later(profile: CostProfile, budget: F64, larger: F64)
    requires
        is_ascending(profile),
        budget.at_most(larger),
        larger.at_most(profile.spec_total()),
    ensures
        profile.spec_invert(budget) matches Some(t) && profile.spec_invert(larger) matches Some(u) && t.at_most(u),
{
    let (ts, cost) = (profile.ts@, profile.cumulative@);
    lemma_reaching(profile, budget, 0);
    lemma_reaching(profile, larger, 0);
    let (i, j) = (profile.reaching(budget, 0), profile.reaching(larger, 0));
    let last = ts.len() - 1;
    assert(j <= last) by {
        if j > last {
            assert(cost[last].below(larger));
        }
    }
    assert(i <= j) by {
        if j < i {
            assert(cost[j].below(budget));
        }
    }
    if i > 0 {
        assert(cost[i - 1].below(budget));
        if !cost[i].equals(budget) {
            lemma_within(profile, budget, budget, i);
        }
    }
    if j > 0 {
        assert(cost[j - 1].below(larger));
        if !cost[j].equals(larger) {
            lemma_within(profile, larger, larger, j);
        }
    }
    assert(ts[i].finite() && ts[j].finite());
    if i == j {
        if i > 0 && !cost[i].equals(larger) {
            lemma_within(profile, budget, larger, i);
        }
    } else {
        if i < j - 1 {
            assert(ts[i].below(ts[j - 1]));
        }
        assert(ts[j - 1].below(ts[j]));
    }
}

} // verus!
