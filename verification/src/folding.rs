//! How far a sum that is rounded at every step lies from the exact one.

use crate::float::F64;
use crate::rounding;
use crate::rounding_double;
use vstd::arithmetic::power2::*;
use vstd::prelude::*;

verus! {

/// How far the sum of `n` numbers that are not negative can lie from the exact one, where
/// each number is off by `a` roundings of itself and by `g`.
pub open spec fn drift(n: int, a: real, exact: real, g: real) -> real {
    (2real * (n as real) + a) * rounding_double::unit() * exact + 2real * (n as real) * g
}

/// The error of one rounding is small, and there is room for more than any single.
pub proof fn lemma_small()
    ensures
        0real < rounding_double::unit(),
        100real * rounding_double::unit() <= 1real,
        0real < rounding_double::grain(),
        0x1_0000_0000_0000_0000real * rounding_double::grain() <= 1real,
        rounding_double::ceiling() > 1000000real * rounding::ceiling(),
        rounding::ceiling() > 1000000real,
{
    lemma2_to64();
    lemma2_to64_rest();
    lemma_pow2_strictly_increases(64, 1075);
    lemma_pow2_strictly_increases(140, 1000);
    lemma_pow2_strictly_increases(20, 120);
    lemma_pow2_adds(20, 120);
    assert(pow2(20) == 0x10_0000 && pow2(64) == 0x1_0000_0000_0000_0000);
    let g = pow2(1075) as real;
    assert(g > 0x1_0000_0000_0000_0000real);
    assert(0real < 1real / g && 0x1_0000_0000_0000_0000real * (1real / g) <= 1real) by (nonlinear_arith)
        requires g > 0x1_0000_0000_0000_0000real;
}

/// Adding one more number to a sum that is off.
proof fn lemma_added(u: real, before: real, x: real, c: real, p: real, s: real, n: real, a: real, g: real)
    requires
        0real < u,
        0real <= before,
        0real <= x,
        0real <= a,
        0real <= g,
        1real <= n,
        (2real * n + a) * u <= 1real,
        rounding::size(c - before) <= (2real * (n - 1real) + a) * u * before + 2real * (n - 1real) * g,
        rounding::size(p - x) <= a * u * x + g,
        rounding::size(s - (c + p)) <= u * rounding::size(c + p),
    ensures
        rounding::size(s - (before + x)) <= (2real * n + a) * u * (before + x) + 2real * n * g,
        rounding::size(c + p) <= 2real * (before + x) + 2real * n * g,
{
    let k = (2real * (n - 1real) + a) * u;
    let all = before + x;
    let e = (2real * n - 1real) * g;
    let (kb, kx, ka) = (k * before, k * x, k * all);
    assert(ka == kb + kx) by (nonlinear_arith)
        requires ka == k * all, kb == k * before, kx == k * x, all == before + x;
    assert((2real * (n - 1real) + a) * u * before == kb);
    assert(k >= 0real && a * u <= k) by (nonlinear_arith)
        requires k == (2real * (n - 1real) + a) * u, n >= 1real, a >= 0real, u > 0real;
    let au = a * u;
    assert(au * x <= kx) by (nonlinear_arith)
        requires kx == k * x, au <= k, x >= 0real;
    assert(2real * (n - 1real) * g + g == e) by (nonlinear_arith)
        requires e == (2real * n - 1real) * g;
    let d = c + p - all;
    assert(rounding::size(d) <= ka + e);
    let full = 2real * n + a;
    let v = full * u;
    assert(k == v - 2real * u) by (nonlinear_arith)
        requires k == (2real * (n - 1real) + a) * u, v == full * u, full == 2real * n + a;
    let ua = u * all;
    assert(ka <= all && ka >= 0real) by (nonlinear_arith)
        requires ka == k * all, k <= 1real, k >= 0real, all >= 0real;
    assert(e >= 0real) by (nonlinear_arith)
        requires e == (2real * n - 1real) * g, n >= 1real, g >= 0real;
    let most = all + ka + e;
    assert(rounding::size(c + p) <= most);
    assert(u * rounding::size(c + p) <= u * most) by (nonlinear_arith)
        requires rounding::size(c + p) <= most, u > 0real;
    let (uka, ue) = (u * ka, u * e);
    assert(u * most == ua + uka + ue) by (nonlinear_arith)
        requires most == all + ka + e, ua == u * all, uka == u * ka, ue == u * e;
    assert(uka <= ua) by (nonlinear_arith)
        requires uka == u * ka, ua == u * all, ka <= all, u > 0real;
    // the sum's own rounding takes what two more roundings of the whole leave room for
    let va = v * all;
    assert(ka == va - 2real * ua) by (nonlinear_arith)
        requires ka == k * all, va == v * all, ua == u * all, k == v - 2real * u;
    let ng = 2real * n * g;
    assert(e + g == ng) by (nonlinear_arith)
        requires e == (2real * n - 1real) * g, ng == 2real * n * g;
    assert((2real * n - 1real) * u <= 1real) by (nonlinear_arith)
        requires (2real * n + a) * u <= 1real, a >= 0real, u > 0real;
    let nu = (2real * n - 1real) * u;
    assert(ue == nu * g) by (nonlinear_arith)
        requires ue == u * e, e == (2real * n - 1real) * g, nu == (2real * n - 1real) * u;
    assert(ue <= g) by (nonlinear_arith)
        requires ue == nu * g, nu <= 1real, g >= 0real;
}

/// One step of a sum that is rounded at every step.
pub proof fn lemma_fold_step(sum: F64, term: F64, before: real, x: real, n: int, a: real, g: real)
    requires
        sum.finite(),
        term.finite(),
        0real <= before,
        0real <= x,
        1 <= n,
        0real <= a,
        0real <= g,
        (2real * (n as real) + a) * rounding_double::unit() <= 1real,
        2real * (n as real) * g <= 1real,
        before + x < rounding_double::ceiling() / 8real,
        rounding::size(sum.number() - before) <= drift(n - 1, a, before, g),
        rounding::size(term.number() - x) <= a * rounding_double::unit() * x + g,
    ensures
        sum.sum(term).finite(),
        rounding::size(sum.sum(term).number() - (before + x)) <= drift(n, a, before + x, g),
{
    let u = rounding_double::unit();
    lemma_small();
    let (c, p) = (sum.number(), term.number());
    let m = n as real;
    assert((n - 1) as real == m - 1real);
    assert(u * rounding::size(c + p) >= 0real) by (nonlinear_arith)
        requires u > 0real, rounding::size(c + p) >= 0real;
    lemma_added(u, before, x, c, p, c + p, m, a, g);
    sum.lemma_sum_error(term);
    lemma_added(u, before, x, c, p, sum.sum(term).number(), m, a, g);
}

/// A number is off by at most `a` roundings of what it stands for, and by `g`.
pub open spec fn is_near(y: real, x: real, a: real, g: real) -> bool {
    rounding::size(y - x) <= a * rounding_double::unit() * x + g
}

/// The product of two numbers that are off by some roundings.
pub proof fn lemma_near_product(d: real, w: real, s: real, t: real, a: real)
    requires
        0real <= w,
        0real <= t,
        0real <= a,
        a * rounding_double::unit() <= 1real,
        is_near(d, w, 1real, 0real),
        is_near(s, t, a, 0real),
    ensures
        is_near(d * s, w * t, a + 2real, 0real),
{
    lemma_small();
    let u = rounding_double::unit();
    let x = w * t;
    let ux = u * x;
    let au = a * u;
    let aux = au * x;
    let (e, f) = (d - w, s - t);
    assert(d * s - x == e * t + w * f + e * f) by (nonlinear_arith)
        requires x == w * t, e == d - w, f == s - t;
    assert(x >= 0real) by (nonlinear_arith)
        requires x == w * t, w >= 0real, t >= 0real;
    let uw = u * w;
    assert(1real * u * w == uw) by (nonlinear_arith)
        requires uw == u * w;
    let at = au * t;
    assert(a * u * t == at);
    assert(e * t <= ux && -(e * t) <= ux) by (nonlinear_arith)
        requires e <= uw, -e <= uw, uw == u * w, ux == u * x, x == w * t, t >= 0real;
    assert(w * f <= aux && -(w * f) <= aux) by (nonlinear_arith)
        requires f <= at, -f <= at, at == au * t, aux == au * x, x == w * t, w >= 0real;
    assert(e * f <= uw * at && -(e * f) <= uw * at) by (nonlinear_arith)
        requires e <= uw, -e <= uw, f <= at, -f <= at, uw >= 0real, at >= 0real;
    assert(uw * at <= ux) by (nonlinear_arith)
        requires uw == u * w, at == au * t, au <= 1real, ux == u * x, x == w * t, ux >= 0real;
    assert((a + 2real) * u * x == aux + 2real * ux) by (nonlinear_arith)
        requires aux == au * x, au == a * u, ux == u * x;
}

/// A number that is off, rounded once more.
pub proof fn lemma_near_rounded(z: real, y: real, x: real, a: real, g: real, h: real)
    requires
        0real <= x,
        0real <= a,
        0real <= g,
        a * rounding_double::unit() <= 1real,
        is_near(y, x, a, g),
        rounding::size(z - y) <= rounding_double::unit() * rounding::size(y) + h,
    ensures
        is_near(z, x, a + 2real, 2real * g + h),
{
    lemma_small();
    let u = rounding_double::unit();
    let (au, ux) = (a * u, u * x);
    let aux = au * x;
    assert(aux <= x && aux >= 0real) by (nonlinear_arith)
        requires aux == au * x, 0real <= au <= 1real, x >= 0real;
    let most = x + aux + g;
    assert(rounding::size(y) <= most);
    assert(u * rounding::size(y) <= u * most) by (nonlinear_arith)
        requires rounding::size(y) <= most, u > 0real;
    assert(u * most <= 2real * ux + g) by (nonlinear_arith)
        requires most == x + aux + g, aux <= x, ux == u * x, 0real < u, 100real * u <= 1real, g >= 0real;
    assert((a + 2real) * u * x == aux + 2real * ux) by (nonlinear_arith)
        requires aux == au * x, au == a * u, ux == u * x;
}

/// A number that is off, over a count that is off by one rounding.
pub proof fn lemma_near_quotient(y: real, x: real, a: real, g: real, c: real, k: real)
    requires
        0real <= x,
        0real <= a,
        0real <= g,
        1real <= k,
        a * rounding_double::unit() <= 1real,
        is_near(y, x, a, g),
        rounding::size(c - k) <= rounding_double::unit() * k,
    ensures
        0real < c,
        is_near(y / c, x / k, a + 4real, 2real * g),
{
    lemma_small();
    let u = rounding_double::unit();
    let uk = u * k;
    assert(100real * uk <= k && uk > 0real) by (nonlinear_arith)
        requires uk == u * k, 0real < u, 100real * u <= 1real, k >= 1real;
    assert(2real * c >= k && c > 0real);
    let (q, r) = (y / c, x / k);
    assert(q * c == y) by (nonlinear_arith)
        requires q == y / c, c > 0real;
    assert(r * k == x && r >= 0real) by (nonlinear_arith)
        requires r == x / k, k >= 1real, x >= 0real;
    let e = q - r;
    assert(e * c == (y - x) + r * (k - c)) by (nonlinear_arith)
        requires e == q - r, q * c == y, r * k == x;
    let (au, ur) = (a * u, u * r);
    let aur = au * r;
    let ak = aur * k;
    let rk = ur * k;
    assert(a * u * x == ak) by (nonlinear_arith)
        requires ak == aur * k, aur == au * r, au == a * u, r * k == x;
    assert(r * (k - c) <= rk && -(r * (k - c)) <= rk) by (nonlinear_arith)
        requires k - c <= uk, c - k <= uk, uk == u * k, rk == ur * k, ur == u * r, r >= 0real;
    let top = ak + rk + g;
    assert(e * c <= top && -(e * c) <= top);
    // the bound times the count that it is divided by
    let bound = aur + 4real * ur + 2real * g;
    assert((a + 4real) * u * r == aur + 4real * ur) by (nonlinear_arith)
        requires aur == au * r, au == a * u, ur == u * r;
    let low = k - uk;
    assert(ur >= 0real) by (nonlinear_arith)
        requires ur == u * r, u > 0real, r >= 0real;
    assert(aur >= 0real && aur <= r) by (nonlinear_arith)
        requires aur == au * r, 0real <= au <= 1real, r >= 0real;
    assert(bound * low <= bound * c) by (nonlinear_arith)
        requires low <= c, bound >= 0real;
    let aul = aur * uk;
    assert(aul <= rk) by (nonlinear_arith)
        requires aul == aur * uk, aur <= r, uk == u * k, rk == ur * k, ur == u * r, uk > 0real;
    assert(aur * low == ak - aul) by (nonlinear_arith)
        requires low == k - uk, ak == aur * k, aul == aur * uk;
    let twice = 2real * low;
    assert(ur * twice >= rk) by (nonlinear_arith)
        requires twice >= k, rk == ur * k, ur >= 0real;
    assert(4real * ur * low == 2real * (ur * twice)) by (nonlinear_arith)
        requires twice == 2real * low;
    assert(2real * g * low >= g) by (nonlinear_arith)
        requires low == k - uk, 100real * uk <= k, k >= 1real, g >= 0real;
    assert(bound * low == aur * low + 4real * ur * low + 2real * g * low) by (nonlinear_arith)
        requires bound == aur + 4real * ur + 2real * g;
    assert(top <= bound * c);
    assert(e <= bound) by (nonlinear_arith)
        requires e * c <= bound * c, c > 0real;
    assert(-e <= bound) by (nonlinear_arith)
        requires -(e * c) <= bound * c, c > 0real;
}

} // verus!
