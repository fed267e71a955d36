//! How far a sum in single precision, of either sign and rounded at every step, lies from the
//! exact one.

use crate::float::F32;
use crate::rounding;
use vstd::arithmetic::power2::*;
use vstd::prelude::*;

verus! {

/// The exact sum of the first `n` numbers.
pub open spec fn total(f: spec_fn(int) -> real, n: int) -> real
    decreases n,
{
    if n <= 0 {
        0real
    } else {
        total(f, n - 1) + f(n - 1)
    }
}

/// How far the sum of `n` numbers can lie from the exact one, where their sizes add up to `most` at
/// most, and each number is off by `a` roundings of its size and by `g`.
pub open spec fn drift(n: int, a: real, most: real, g: real) -> real {
    (2real * (n as real) + a) * rounding::unit() * most + 2real * (n as real) * g
}

/// The error of one rounding is small, and there is room.
pub proof fn lemma_small()
    ensures
        0real < rounding::unit(),
        1000real * rounding::unit() <= 1real,
        0real < rounding::grain(),
        0x1_0000_0000_0000_0000real * rounding::grain() <= 1real,
        rounding::ceiling() > 1000000real,
{
    lemma2_to64();
    lemma2_to64_rest();
    lemma_pow2_strictly_increases(64, 150);
    lemma_pow2_strictly_increases(20, 120);
    assert(pow2(20) == 0x10_0000 && pow2(64) == 0x1_0000_0000_0000_0000);
    let g = pow2(150) as real;
    assert(g > 0x1_0000_0000_0000_0000real);
    assert(0real < 1real / g && 0x1_0000_0000_0000_0000real * (1real / g) <= 1real) by (nonlinear_arith)
        requires g > 0x1_0000_0000_0000_0000real;
}

/// Adding one more number to a sum that is off.
proof fn lemma_added(
    u: real,
    before: real,
    least: real,
    x: real,
    m: real,
    c: real,
    p: real,
    s: real,
    n: real,
    a: real,
    g: real,
)
    requires
        0real < u,
        rounding::size(before) <= least,
        rounding::size(x) <= m,
        0real <= a,
        0real <= g,
        1real <= n,
        (2real * n + a) * u <= 1real,
        rounding::size(c - before) <= (2real * (n - 1real) + a) * u * least + 2real * (n - 1real) * g,
        rounding::size(p - x) <= a * u * m + g,
        rounding::size(s - (c + p)) <= u * rounding::size(c + p),
    ensures
        rounding::size(s - (before + x)) <= (2real * n + a) * u * (least + m) + 2real * n * g,
        rounding::size(c + p) <= 2real * (least + m) + 2real * n * g,
{
    let k = (2real * (n - 1real) + a) * u;
    let all = least + m;
    let e = (2real * n - 1real) * g;
    let (kb, kx, ka) = (k * least, k * m, k * all);
    assert(ka == kb + kx) by (nonlinear_arith)
        requires ka == k * all, kb == k * least, kx == k * m, all == least + m;
    assert((2real * (n - 1real) + a) * u * least == kb);
    assert(k >= 0real && a * u <= k) by (nonlinear_arith)
        requires k == (2real * (n - 1real) + a) * u, n >= 1real, a >= 0real, u > 0real;
    let au = a * u;
    assert(au * m <= kx) by (nonlinear_arith)
        requires kx == k * m, au <= k, m >= 0real;
    assert(2real * (n - 1real) * g + g == e) by (nonlinear_arith)
        requires e == (2real * n - 1real) * g;
    let d = c + p - (before + x);
    assert(rounding::size(d) <= ka + e);
    let full = 2real * n + a;
    let v = full * u;
    assert(k == v - 2real * u) by (nonlinear_arith)
        requires k == (2real * (n - 1real) + a) * u, v == full * u, full == 2real * n + a;
    let ua = u * all;
    assert(ka <= all && ka >= 0real) by (nonlinear_arith)
        requires ka == k * all, k <= 1real, k >= 0real, all >= 0real;
    assert(e >= 0real) by (nonlinear_arith)
        requires e == (2real * n - 1real) * g, n >= 1real, g >= 0real;
    let most = all + ka + e;
    assert(rounding::size(c + p) <= most);
    assert(u * rounding::size(c + p) <= u * most) by (nonlinear_arith)
        requires rounding::size(c + p) <= most, u > 0real;
    let (uka, ue) = (u * ka, u * e);
    assert(u * most == ua + uka + ue) by (nonlinear_arith)
        requires most == all + ka + e, ua == u * all, uka == u * ka, ue == u * e;
    assert(uka <= ua) by (nonlinear_arith)
        requires uka == u * ka, ua == u * all, ka <= all, u > 0real;
    let va = v * all;
    assert(ka == va - 2real * ua) by (nonlinear_arith)
        requires ka == k * all, va == v * all, ua == u * all, k == v - 2real * u;
    let ng = 2real * n * g;
    assert(e + g == ng) by (nonlinear_arith)
        requires e == (2real * n - 1real) * g, ng == 2real * n * g;
    assert((2real * n - 1real) * u <= 1real) by (nonlinear_arith)
        requires (2real * n + a) * u <= 1real, a >= 0real, u > 0real;
    let nu = (2real * n - 1real) * u;
    assert(ue == nu * g) by (nonlinear_arith)
        requires ue == u * e, e == (2real * n - 1real) * g, nu == (2real * n - 1real) * u;
    assert(ue <= g) by (nonlinear_arith)
        requires ue == nu * g, nu <= 1real, g >= 0real;
}

/// One step of a sum that is rounded at every step. The exact sum so far is `before`, and `least`
/// what the sizes of its numbers add up to at most; the exact number is `x`, no larger than `m`.
pub proof fn lemma_fold_step(
    sum: F32,
    term: F32,
    before: real,
    least: real,
    x: real,
    m: real,
    n: int,
    a: real,
    g: real,
)
    requires
        sum.finite(),
        term.finite(),
        rounding::size(before) <= least,
        rounding::size(x) <= m,
        1 <= n,
        0real <= a,
        0real <= g,
        (2real * (n as real) + a) * rounding::unit() <= 1real,
        2real * (n as real) * g <= 1real,
        least + m < rounding::ceiling() / 8real,
        rounding::size(sum.number() - before) <= drift(n - 1, a, least, g),
        rounding::size(term.number() - x) <= a * rounding::unit() * m + g,
    ensures
        sum.sum(term).finite(),
        rounding::size(sum.sum(term).number() - (before + x)) <= drift(n, a, least + m, g),
{
    let u = rounding::unit();
    lemma_small();
    let (c, p) = (sum.number(), term.number());
    let k = n as real;
    assert((n - 1) as real == k - 1real);
    assert(u * rounding::size(c + p) >= 0real) by (nonlinear_arith)
        requires u > 0real, rounding::size(c + p) >= 0real;
    lemma_added(u, before, least, x, m, c, p, c + p, k, a, g);
    sum.lemma_sum_error(term);
    lemma_added(u, before, least, x, m, c, p, sum.sum(term).number(), k, a, g);
}

/// The first `n` numbers, added in order and rounded at every step.
pub open spec fn fold(f: spec_fn(int) -> F32, n: int) -> F32
    decreases n,
{
    if n <= 0 {
        F32::zero()
    } else {
        fold(f, n - 1).sum(f(n - 1))
    }
}

/// Numbers that are off, each no larger than `m`, added in order.
pub proof fn lemma_fold(f: spec_fn(int) -> F32, x: spec_fn(int) -> real, n: int, a: real, m: real, g: real)
    requires
        0 <= n < 0x10_0000,
        0real <= m,
        0real <= a <= 100real,
        0real <= g,
        0x20_0000real * g <= 1real,
        (n as real) * m < rounding::ceiling() / 8real,
        forall|i: int|
            0 <= i < n ==> (#[trigger] f(i)).finite() && rounding::size(x(i)) <= m && rounding::size(f(i).number() - x(i))
                <= a * rounding::unit() * m + g,
    ensures
        fold(f, n).finite(),
        rounding::size(total(x, n)) <= (n as real) * m,
        rounding::size(fold(f, n).number() - total(x, n)) <= drift(n, a, (n as real) * m, g),
    decreases n,
{
    lemma_small();
    let u = rounding::unit();
    let k = n as real;
    if n == 0 {
        F32::zero().lemma_nonnegative();
        F32::zero().lemma_order(F32::zero());
        let most = k * m;
        assert(most == 0real) by (nonlinear_arith)
            requires most == k * m, k == 0real;
        let w = (2real * k + a) * u;
        assert(w * most == 0real) by (nonlinear_arith)
            requires most == 0real;
        let z = 2real * k * g;
        assert(z == 0real) by (nonlinear_arith)
            requires z == 2real * k * g, k == 0real;
    } else {
        let (less, most) = ((n - 1) as real * m, k * m);
        assert((n - 1) as real == k - 1real);
        assert(less == most - m) by (nonlinear_arith)
            requires less == (k - 1real) * m, most == k * m;
        lemma_fold(f, x, n - 1, a, m, g);
        assert(f(n - 1).finite());
        assert((2real * k + a) * u <= 1real) by (nonlinear_arith)
            requires 0real <= k < 0x10_0000real, a <= 100real, u == 1real / 0x100_0000real;
        assert(2real * k * g <= 1real) by (nonlinear_arith)
            requires 0real <= k < 0x10_0000real, 0x20_0000real * g <= 1real, g >= 0real;
        lemma_fold_step(fold(f, n - 1), f(n - 1), total(x, n - 1), less, x(n - 1), m, n, a, g);
    }
}

/// The mean of numbers that were added in order.
pub proof fn lemma_mean(f: spec_fn(int) -> F32, x: spec_fn(int) -> real, n: int, a: real, m: real, g: real)
    requires
        0 < n < 0x10_0000,
        0real <= m,
        0real <= a <= 100real,
        0real <= g,
        0x20_0000real * g <= 1real,
        (n as real) * m < rounding::ceiling() / 8real,
        forall|i: int|
            0 <= i < n ==> (#[trigger] f(i)).finite() && rounding::size(x(i)) <= m && rounding::size(f(i).number() - x(i))
                <= a * rounding::unit() * m + g,
    ensures
        ({
            let mean = fold(f, n).quotient(F32::whole(n as nat));
            &&& mean.finite()
            &&& rounding::size(mean.number() - total(x, n) / (n as real)) <= (2real * (n as real) + a + 2real)
                * rounding::unit() * m + 3real * g + rounding::grain()
        }),
{
    lemma_small();
    lemma_fold(f, x, n, a, m, g);
    let (u, k) = (rounding::unit(), n as real);
    let sum = fold(f, n);
    let count = F32::whole(n as nat);
    F32::lemma_count_number(n as nat);
    let (s, t) = (sum.number(), total(x, n));
    lemma_shared(s, t, k, a, m, g, u);
    let most = k * m;
    lemma_at_least(k, m, most);
    sum.lemma_quotient_error(count);
    let mean = sum.quotient(count);
    let q = s / k;
    let uq = u * rounding::size(q);
    let (um, ug) = (u * m, u * g);
    assert(uq <= 2real * um + 2real * ug) by {
        let big = 2real * m + 2real * g;
        assert(uq <= u * big) by (nonlinear_arith)
            requires uq == u * rounding::size(q), rounding::size(q) <= big, u > 0real;
        assert(u * big == 2real * um + 2real * ug) by (nonlinear_arith)
            requires um == u * m, ug == u * g, big == 2real * m + 2real * g;
    }
    assert(1000real * ug <= g) by (nonlinear_arith)
        requires ug == u * g, 1000real * u <= 1real, g >= 0real;
    let kk = 2real * k + a;
    let (v, w) = (kk * u, (kk + 2real) * u);
    assert(w == v + 2real * u) by (nonlinear_arith)
        requires v == kk * u, w == (kk + 2real) * u;
    assert(w * m == v * m + 2real * um) by (nonlinear_arith)
        requires w == v + 2real * u, um == u * m;
}

proof fn lemma_at_least(k: real, m: real, most: real)
    requires
        1real <= k,
        0real <= m,
        most == k * m,
    ensures
        m <= most,
{
    assert(m <= most) by (nonlinear_arith)
        requires 1real <= k, 0real <= m, most == k * m;
}

/// A sum that is off, shared out.
proof fn lemma_shared(s: real, t: real, k: real, a: real, m: real, g: real, u: real)
    requires
        1real <= k < 0x10_0000real,
        0real <= a <= 100real,
        0real <= m,
        0real <= g,
        u == 1real / 0x100_0000real,
        rounding::size(t) <= k * m,
        rounding::size(s - t) <= (2real * k + a) * u * (k * m) + 2real * k * g,
    ensures
        rounding::size(s / k - t / k) <= (2real * k + a) * u * m + 2real * g,
        rounding::size(s / k) <= 2real * m + 2real * g,
{
    let (q, r) = (s / k, t / k);
    let most = k * m;
    assert(q * k == s) by (nonlinear_arith)
        requires q == s / k, k >= 1real;
    assert(r * k == t) by (nonlinear_arith)
        requires r == t / k, k >= 1real;
    let kk = 2real * k + a;
    let v = kk * u;
    let vm = v * m;
    assert(v * most == vm * k) by (nonlinear_arith)
        requires vm == v * m, most == k * m;
    let z = 2real * g;
    assert(2real * k * g == z * k) by (nonlinear_arith)
        requires z == 2real * g;
    let e = vm + z;
    assert(e * k == vm * k + z * k) by (nonlinear_arith)
        requires e == vm + z;
    let d = q - r;
    assert(d * k == q * k - r * k) by (nonlinear_arith)
        requires d == q - r;
    let (dk, ek) = (d * k, e * k);
    assert(d <= e) by (nonlinear_arith)
        requires dk <= ek, dk == d * k, ek == e * k, k >= 1real;
    assert(-d <= e) by (nonlinear_arith)
        requires -dk <= ek, dk == d * k, ek == e * k, k >= 1real;
    let rk = r * k;
    assert(r <= m) by (nonlinear_arith)
        requires rk <= most, rk == r * k, most == k * m, k >= 1real;
    assert(-r <= m) by (nonlinear_arith)
        requires -rk <= most, rk == r * k, most == k * m, k >= 1real;
    assert(v == kk / 0x100_0000real) by (nonlinear_arith)
        requires v == kk * u, u == 1real / 0x100_0000real;
    assert(0real <= v <= 1real);
    assert(0real <= vm <= m) by (nonlinear_arith)
        requires vm == v * m, 0real <= v <= 1real, m >= 0real;
}

} // verus!
