//! How near the place where a budget is met lies to where it is exactly spent.

use crate::ballistics::walk::budget;
use crate::ballistics::walk::disc::CostProfile;
use crate::float::F64;
use crate::rounding;
use crate::rounding_double;
use vstd::arithmetic::power2::*;
use vstd::prelude::*;

verus! {

/// A share of a whole that was rounded, and so was the whole.
proof fn lemma_share(x: real, s: real, y: real, h: real, u: real)
    requires
        0real < u && 100real * u <= 1real,
        0real <= y <= h,
        0real < h,
        rounding::size(x - y) <= u * y,
        rounding::size(s - h) <= u * h,
    ensures
        s > 0real,
        rounding::size(x / s - y / h) <= 3real * u * (y / h),
        0real <= y / h <= 1real,
{
    let (r, z) = (y / h, x / s);
    let (uy, uh) = (u * y, u * h);
    assert(100real * uh <= h) by (nonlinear_arith)
        requires uh == u * h, 0real < u && 100real * u <= 1real, 0real < h;
    assert(s > 0real);
    assert(r * h == y && 0real <= r <= 1real) by (nonlinear_arith)
        requires r == y / h, 0real <= y <= h, 0real < h;
    assert(z * s == x) by (nonlinear_arith)
        requires z == x / s, s > 0real;
    assert(uy <= y) by (nonlinear_arith)
        requires uy == u * y, 0real < u && 100real * u <= 1real, 0real <= y;
    assert(x >= 0real);
    assert(z >= 0real) by (nonlinear_arith)
        requires z == x / s, s > 0real, x >= 0real;
    // from above
    let low = (1real - u) * h;
    assert(low == h - uh) by (nonlinear_arith)
        requires low == (1real - u) * h, uh == u * h;
    assert(z * low <= z * s) by (nonlinear_arith)
        requires low <= s, z >= 0real;
    let top = (1real + u) * r;
    assert(top * h == y + uy) by (nonlinear_arith)
        requires top == (1real + u) * r, r * h == y, uy == u * y;
    let cut = z * (1real - u);
    assert(cut * h == z * low) by (nonlinear_arith)
        requires cut == z * (1real - u), low == (1real - u) * h;
    assert(cut <= top) by (nonlinear_arith)
        requires cut * h <= top * h, 0real < h;
    let ur = u * r;
    let uz = u * z;
    let uur = u * ur;
    assert(cut == z - uz) by (nonlinear_arith)
        requires cut == z * (1real - u), uz == u * z;
    assert(top == r + ur) by (nonlinear_arith)
        requires top == (1real + u) * r, ur == u * r;
    assert(ur >= 0real && 100real * uur <= ur) by (nonlinear_arith)
        requires ur == u * r, uur == u * ur, 0real < u && 100real * u <= 1real, r >= 0real;
    assert(z <= r + 3real * ur) by {
        if z > r + 3real * ur {
            let past = r + 3real * ur;
            let extra = z - past;
            assert(u * past == ur + 3real * uur) by (nonlinear_arith)
                requires past == r + 3real * ur, ur == u * r, uur == u * ur;
            assert(uz == u * past + u * extra) by (nonlinear_arith)
                requires uz == u * z, z == past + extra;
            assert(100real * (u * extra) <= extra) by (nonlinear_arith)
                requires 0real < u && 100real * u <= 1real, extra > 0real;
        }
    }
    // from below
    let high = (1real + u) * h;
    assert(high == h + uh) by (nonlinear_arith)
        requires high == (1real + u) * h, uh == u * h;
    assert(z * s <= z * high) by (nonlinear_arith)
        requires s <= high, z >= 0real;
    let base = (1real - u) * r;
    assert(base * h == y - uy) by (nonlinear_arith)
        requires base == (1real - u) * r, r * h == y, uy == u * y;
    let lift = z * (1real + u);
    assert(lift * h == z * high) by (nonlinear_arith)
        requires lift == z * (1real + u), high == (1real + u) * h;
    assert(base <= lift) by (nonlinear_arith)
        requires base * h <= lift * h, 0real < h;
    assert(lift == z + uz) by (nonlinear_arith)
        requires lift == z * (1real + u), uz == u * z;
    assert(base == r - ur) by (nonlinear_arith)
        requires base == (1real - u) * r, ur == u * r;
    assert(uz <= ur + 3real * uur) by (nonlinear_arith)
        requires uz == u * z, z <= r + 3real * ur, ur == u * r, uur == u * ur, u > 0real;
    assert(z >= r - 3real * ur);
    assert(3real * u * r == 3real * ur) by (nonlinear_arith)
        requires ur == u * r;
}

/// A rounded share of a rounded width, added to where the width starts.
proof fn lemma_step(a: real, w: real, r: real, z: real, d: real, q: real, p: real, t: real, u: real, g: real)
    requires
        0real < u && 100real * u <= 1real,
        0real < g && 100real * g <= 1real,
        0real < w,
        0real <= r <= 1real,
        0real <= z,
        rounding::size(z - r) <= 3real * u * r,
        rounding::size(q - z) <= u * z + g,
        rounding::size(d - w) <= u * w,
        rounding::size(p - d * q) <= u * rounding::size(d * q) + g,
        rounding::size(t - (a + p)) <= u * rounding::size(a + p),
        0real <= q,
        0real <= d,
    ensures
        rounding::size(t - (a + w * r)) <= u * rounding::size(a) + 12real * u * w + 4real * g * w + 2real * g,
{
    let (ur, uw, gw, wr) = (u * r, u * w, g * w, w * r);
    let e = q - r;
    // the share
    assert(3real * u * r == 3real * ur) by (nonlinear_arith)
        requires ur == u * r;
    assert(ur <= u && ur >= 0real) by (nonlinear_arith)
        requires ur == u * r, 0real <= r <= 1real, u > 0real;
    let uz = u * z;
    assert(uz <= u + 3real * u * ur) by (nonlinear_arith)
        requires uz == u * z, z <= 1real + 3real * ur, u > 0real;
    let uur = u * ur;
    assert(3real * u * ur == 3real * uur) by (nonlinear_arith)
        requires uur == u * ur;
    assert(100real * uur <= u) by (nonlinear_arith)
        requires uur == u * ur, 0real <= ur <= u, 0real < u && 100real * u <= 1real;
    assert(rounding::size(e) <= 5real * u + g);
    // the width
    let k = d - w;
    let dq = d * q;
    assert(dq == wr + w * e + k * q) by (nonlinear_arith)
        requires dq == d * q, d == w + k, q == r + e, wr == w * r;
    let we = w * e;
    assert(rounding::size(we) <= 5real * uw + gw) by (nonlinear_arith)
        requires
            we == w * e,
            e <= 5real * u + g,
            -e <= 5real * u + g,
            w > 0real,
            uw == u * w,
            gw == g * w,
            rounding::size(we) == if we < 0real { -we } else { we };
    let kq = k * q;
    assert(0real <= q <= 2real);
    assert(rounding::size(kq) <= 2real * uw) by (nonlinear_arith)
        requires
            kq == k * q,
            k <= uw,
            -k <= uw,
            0real <= q <= 2real,
            rounding::size(kq) == if kq < 0real { -kq } else { kq };
    let f = dq - wr;
    assert(rounding::size(f) <= 7real * uw + gw);
    // the product
    assert(0real <= wr <= w) by (nonlinear_arith)
        requires wr == w * r, 0real <= r <= 1real, w > 0real;
    assert(dq >= 0real) by (nonlinear_arith)
        requires dq == d * q, d >= 0real, q >= 0real;
    assert(100real * uw <= w && uw > 0real) by (nonlinear_arith)
        requires uw == u * w, 0real < u && 100real * u <= 1real, w > 0real;
    assert(0real < gw && 100real * gw <= w) by (nonlinear_arith)
        requires gw == g * w, 0real < g && 100real * g <= 1real, w > 0real;
    assert(dq <= 2real * w);
    let udq = u * dq;
    assert(udq <= 2real * uw) by (nonlinear_arith)
        requires udq == u * dq, dq <= 2real * w, uw == u * w, u > 0real;
    let m = p - wr;
    assert(rounding::size(m) <= 9real * uw + gw + g);
    // the sum
    let ap = a + p;
    let sa = rounding::size(a);
    let ua = u * sa;
    let most = sa + 2real * w + g;
    assert(ap <= most && -ap <= most);
    assert(u * rounding::size(ap) <= u * most) by (nonlinear_arith)
        requires rounding::size(ap) <= most, u > 0real;
    assert(u * most == ua + 2real * uw + u * g) by (nonlinear_arith)
        requires most == sa + 2real * w + g, ua == u * sa, uw == u * w;
    assert(u * g <= g) by (nonlinear_arith)
        requires 0real < u && 100real * u <= 1real, g > 0real;
    assert(12real * u * w == 12real * uw && 4real * g * w == 4real * gw) by (nonlinear_arith)
        requires uw == u * w, gw == g * w;
}

/// The errors of one rounding are small, and the reach is far below the ceiling.
proof fn lemma_small()
    ensures
        0real < rounding_double::unit(),
        100real * rounding_double::unit() <= 1real,
        0real < rounding_double::grain(),
        100real * rounding_double::grain() <= 1real,
        64real * reach() < rounding_double::ceiling(),
        reach() >= 1real,
{
    lemma2_to64();
    lemma_pow2_strictly_increases(7, 1075);
    lemma_pow2_strictly_increases(906, 1000);
    lemma_pow2_strictly_increases(0, 900);
    lemma_pow2_adds(6, 900);
    assert(pow2(7) == 128);
    assert(pow2(6) == 64);
    let g = pow2(1075) as real;
    assert(g > 100real);
    assert(0real < 1real / g && 100real * (1real / g) <= 1real) by (nonlinear_arith)
        requires g > 100real;
}

/// Distances and costs below this are spoken of.
pub open spec fn reach() -> real {
    pow2(900) as real
}

/// How far the place that is given can lie from the exact one, in a stretch from `a` to `b`.
pub open spec fn slack(a: real, b: real) -> real {
    rounding_double::unit() * rounding::size(a) + 12real * rounding_double::unit() * (b - a) + 4real * rounding_double::grain() * (b - a)
        + 2real * rounding_double::grain()
}

/// Where on the straight line from one break to the next the budget is exactly spent.
pub open spec fn spent_at(profile: CostProfile, budget: F64, i: int) -> real {
    let (a, b) = (profile.ts@[i - 1].number(), profile.ts@[i].number());
    let (low, high) = (profile.cumulative@[i - 1].number(), profile.cumulative@[i].number());
    a + (b - a) * ((budget.number() - low) / (high - low))
}

/// What the profile costs at a distance of its stretch `i`, on the straight line between the breaks.
pub open spec fn cost_at(profile: CostProfile, t: real, i: int) -> real {
    let (a, b) = (profile.ts@[i - 1].number(), profile.ts@[i].number());
    let (low, high) = (profile.cumulative@[i - 1].number(), profile.cumulative@[i].number());
    low + ((t - a) / (b - a)) * (high - low)
}

/// The numbers that the formula between two breaks is made of.
proof fn lemma_numbers(a: F64, b: F64, low: F64, high: F64, budget: F64)
    requires
        a.finite(),
        b.finite(),
        low.finite(),
        high.finite(),
        budget.finite(),
        a.value() < b.value(),
        0 <= low.value() < budget.value(),
        budget.value() < high.value(),
        rounding::size(a.number()) < reach(),
        rounding::size(b.number()) < reach(),
        high.number() < reach(),
    ensures
        ({
            let exact = a.number() + (b.number() - a.number()) * ((budget.number() - low.number()) / (high.number()
                - low.number()));
            let step = a.sum(b.difference(a).product(budget.difference(low).quotient(high.difference(low))));
            &&& step.finite()
            &&& rounding::size(step.number() - exact) <= slack(a.number(), b.number())
            &&& exact <= b.number()
            &&& a.number() < b.number()
            &&& low.number() < high.number()
        }),
{
    let (u, g) = (rounding_double::unit(), rounding_double::grain());
    lemma_small();
    let zero = F64::zero();
    a.lemma_order(b);
    low.lemma_order(budget);
    budget.lemma_order(high);
    low.lemma_order(high);
    let (an, bn, ln, hn, kn) = (a.number(), b.number(), low.number(), high.number(), budget.number());
    let (w, h, y) = (bn - an, hn - ln, kn - ln);
    b.lemma_difference_error(a);
    high.lemma_difference_error(low);
    budget.lemma_difference_error(low);
    let (gap, slice, left) = (b.difference(a), high.difference(low), budget.difference(low));
    let (d, s, x) = (gap.number(), slice.number(), left.number());
    lemma_share(x, s, y, h, u);
    let (r, z) = (y / h, x / s);
    assert(z >= 0real) by (nonlinear_arith)
        requires z == x / s, s > 0real, x >= 0real;
    assert(u * w <= w) by (nonlinear_arith)
        requires 0real < u, 100real * u <= 1real, w > 0real;
    assert(u * y <= y) by (nonlinear_arith)
        requires 0real < u, 100real * u <= 1real, y > 0real;
    let ur = u * r;
    assert(3real * u * r == 3real * ur && ur <= u) by (nonlinear_arith)
        requires ur == u * r, 0real <= r <= 1real, u > 0real;
    assert(z <= 2real);
    left.lemma_quotient_error(slice);
    let share = left.quotient(slice);
    let q = share.number();
    left.lemma_order(zero);
    slice.lemma_order(zero);
    left.lemma_quotient_grows(left, slice);
    share.lemma_order(zero);
    assert(q >= 0real);
    assert(u * z <= z) by (nonlinear_arith)
        requires 0real < u, 100real * u <= 1real, z >= 0real;
    assert(q <= 5real);
    let dq = d * q;
    assert(0real <= dq <= 5real * d) by (nonlinear_arith)
        requires dq == d * q, 0real <= q <= 5real, d >= 0real;
    gap.lemma_product_error(share);
    let part = gap.product(share);
    let p = part.number();
    gap.lemma_order(zero);
    assert(u * dq <= dq) by (nonlinear_arith)
        requires 0real < u, 100real * u <= 1real, dq >= 0real;
    a.lemma_sum_error(part);
    let t = a.sum(part).number();
    lemma_step(an, w, r, z, d, q, p, t, u, g);
    let wr = w * r;
    assert(wr <= w) by (nonlinear_arith)
        requires wr == w * r, 0real <= r <= 1real, w > 0real;
}

/// A cost on a straight line lies as far from the budget as the place from the exact one, times
/// the slope.
proof fn lemma_cost_gap(a: real, w: real, low: real, h: real, budget: real, t: real, bound: real)
    requires
        0real < w,
        0real < h,
        rounding::size(t - (a + w * ((budget - low) / h))) <= bound,
    ensures
        rounding::size(low + ((t - a) / w) * h - budget) <= bound * (h / w),
{
    let y = budget - low;
    let r = y / h;
    let wr = w * r;
    let e = t - (a + wr);
    let m = (t - a) / w;
    let k = h / w;
    assert(r * h == y) by (nonlinear_arith)
        requires r == y / h, h > 0real;
    assert(m * w == t - a) by (nonlinear_arith)
        requires m == (t - a) / w, w > 0real;
    assert(k * w == h && k > 0real) by (nonlinear_arith)
        requires k == h / w, h > 0real, w > 0real;
    let n = m - r;
    assert(n * w == e) by (nonlinear_arith)
        requires n == m - r, m * w == t - a, wr == w * r, e == t - (a + wr);
    let mh = m * h;
    assert(mh - y == n * h) by (nonlinear_arith)
        requires mh == m * h, n == m - r, r * h == y;
    let nh = n * h;
    assert(nh == e * k) by (nonlinear_arith)
        requires nh == n * h, n * w == e, k * w == h;
    assert(nh <= bound * k && -nh <= bound * k) by (nonlinear_arith)
        requires nh == e * k, e <= bound, -e <= bound, k > 0real;
}

/// A budget is met where it is spent, as nearly as the numbers allow: within a few roundings of
/// where the straight line between the breaks has cost exactly the budget, so that what the
/// profile costs at the answer is the budget up to that.
pub proof fn law_a_budget_is_met_where_it_is_spent(profile: CostProfile, budget: F64, i: int)
    requires
        budget::is_ascending(profile),
        0 < i < profile.ts@.len(),
        profile.cumulative@[i - 1].below(budget),
        budget.below(profile.cumulative@[i]),
        profile.cumulative@[i].finite(),
        rounding::size(profile.ts@[i - 1].number()) < reach(),
        rounding::size(profile.ts@[i].number()) < reach(),
        profile.cumulative@[i].number() < reach(),
    ensures
        ({
            let (a, b) = (profile.ts@[i - 1].number(), profile.ts@[i].number());
            let (low, high) = (profile.cumulative@[i - 1].number(), profile.cumulative@[i].number());
            profile.spec_invert(budget) matches Some(t) && {
                &&& rounding::size(t.number() - spent_at(profile, budget, i)) <= slack(a, b)
                &&& rounding::size(cost_at(profile, t.number(), i) - budget.number()) <= slack(a, b) * ((high - low) / (b
                    - a))
            }
        }),
{
    let (ts, cost) = (profile.ts@, profile.cumulative@);
    let (a, b, low, high) = (ts[i - 1], ts[i], cost[i - 1], cost[i]);
    let last = ts.len() - 1;
    budget::lemma_costs(profile, i - 1);
    budget::lemma_costs(profile, i);
    budget::lemma_bounded(budget, high);
    budget::lemma_bounded(low, high);
    if i < last {
        assert(cost[i].value() <= cost[last].value());
    }
    budget::lemma_reaching(profile, budget, 0);
    let k = profile.reaching(budget, 0);
    assert(k == i) by {
        if k < i - 1 {
            assert(cost[k].value() <= cost[i - 1].value());
        }
        if i < k {
            assert(cost[i].below(budget));
        }
    }
    assert(a.below(b));
    lemma_numbers(a, b, low, high, budget);
    let step = a.sum(b.difference(a).product(budget.difference(low).quotient(high.difference(low))));
    let t = step.smaller(b);
    assert(profile.spec_invert(budget) == Some(t));
    b.lemma_order(step);
    lemma_cost_gap(
        a.number(),
        b.number() - a.number(),
        low.number(),
        high.number() - low.number(),
        budget.number(),
        t.number(),
        slack(a.number(), b.number()),
    );
}

/// The budget is met in stretch `i`, where the profile costs the budget as nearly as the numbers
/// allow.
pub open spec fn is_met_near(profile: CostProfile, budget: F64, t: F64, i: int) -> bool {
    let (a, b) = (profile.ts@[i - 1].number(), profile.ts@[i].number());
    let (low, high) = (profile.cumulative@[i - 1].number(), profile.cumulative@[i].number());
    &&& 0 < i < profile.ts@.len()
    &&& budget::is_spent_within(profile, budget, t, i)
    &&& rounding::size(cost_at(profile, t.number(), i) - budget.number()) <= slack(a, b) * ((high - low) / (b - a))
}

/// Reading a profile backwards undoes reading it forwards, as nearly as the numbers allow: a budget
/// that the profile can spend is met, and there the profile costs the budget. Of nothing the answer
/// is where the profile starts.
pub proof fn law_inverting_undoes_the_cost(profile: CostProfile, budget: F64)
    requires
        budget::is_ascending(profile),
        profile.spec_total().finite(),
        profile.spec_total().number() < reach(),
        forall|i: int| 0 <= i < profile.ts@.len() ==> rounding::size((#[trigger] profile.ts@[i]).number()) < reach(),
        !budget.below(F64::zero()),
        budget.at_most(profile.spec_total()),
    ensures
        profile.spec_invert(budget) matches Some(t) && if budget.value() == 0 {
            t == profile.ts@[0]
        } else {
            exists|i: int| is_met_near(profile, budget, t, i)
        },
{
    let (ts, cost) = (profile.ts@, profile.cumulative@);
    let last = ts.len() - 1;
    budget::law_a_budget_is_met_in_its_stretch(profile, budget);
    F64::zero().lemma_nonnegative();
    let t = profile.spec_invert(budget)->Some_0;
    let i = choose|i: int| #[trigger] budget::is_spent_within(profile, budget, t, i);
    if budget.value() == 0 {
        if i > 0 {
            budget::lemma_costs(profile, i - 1);
        }
    } else {
        assert(i > 0);
        budget::lemma_costs(profile, i);
        if i < last {
            assert(cost[i].value() <= cost[last].value());
        }
        budget::lemma_bounded(cost[i], cost[last]);
        cost[last].lemma_order(cost[i]);
        assert(rounding::size(ts[i - 1].number()) < reach() && rounding::size(ts[i].number()) < reach());
        if budget.below(cost[i]) {
            law_a_budget_is_met_where_it_is_spent(profile, budget, i);
        } else {
            assert(cost[i].equals(budget));
            assert forall|j: int| 0 <= j < i implies (#[trigger] cost[j]).below(budget) by {
                if j < i - 1 {
                    assert(cost[j].value() <= cost[i - 1].value());
                }
            }
            assert(t == ts[i]);
            lemma_at_the_end(profile, i);
        }
        assert(is_met_near(profile, budget, t, i));
    }
}

/// At the end of a stretch the profile costs what it has cumulated there.
proof fn lemma_at_the_end(profile: CostProfile, i: int)
    requires
        budget::is_ascending(profile),
        0 < i < profile.ts@.len(),
    ensures
        cost_at(profile, profile.ts@[i].number(), i) == profile.cumulative@[i].number(),
        ({
            let (a, b) = (profile.ts@[i - 1].number(), profile.ts@[i].number());
            let (low, high) = (profile.cumulative@[i - 1].number(), profile.cumulative@[i].number());
            0real <= slack(a, b) * ((high - low) / (b - a))
        }),
{
    let (a, b) = (profile.ts@[i - 1].number(), profile.ts@[i].number());
    let (low, high) = (profile.cumulative@[i - 1].number(), profile.cumulative@[i].number());
    assert(profile.ts@[i - 1].below(profile.ts@[i]));
    profile.ts@[i - 1].lemma_order(profile.ts@[i]);
    assert(profile.cumulative@[i - 1].value() <= profile.cumulative@[i].value());
    profile.cumulative@[i].lemma_order(profile.cumulative@[i - 1]);
    let (w, h) = (b - a, high - low);
    assert(w / w == 1real) by (nonlinear_arith)
        requires w > 0real;
    lemma_small();
    let (u, g, sa) = (rounding_double::unit(), rounding_double::grain(), rounding::size(a));
    let near = slack(a, b);
    assert(near >= 0real) by {
        assert(u * sa >= 0real && 12real * u * w >= 0real && 4real * g * w >= 0real) by (nonlinear_arith)
            requires u > 0real, sa >= 0real, w > 0real, g > 0real;
    }
    let slope = h / w;
    assert(slope >= 0real) by (nonlinear_arith)
        requires slope == h / w, h >= 0real, w > 0real;
    assert(near * slope >= 0real) by (nonlinear_arith)
        requires near >= 0real, slope >= 0real;
}

} // verus!
