//! How far a rounded double lies from the exact result: no further than one part in two
//! to the 53, and half of the least magnitude where the exact result lies among the least
//! ones.

use crate::float::F64;
use crate::format::{Exact, Format};
use crate::rounding;
use vstd::arithmetic::power2::*;
use vstd::prelude::*;

verus! {

/// The relative error of one rounding to double precision.
pub open spec fn unit() -> real {
    1real / 0x20_0000_0000_0000real
}

/// The absolute error of one rounding among the least magnitudes.
pub open spec fn grain() -> real {
    1real / pow2(1075) as real
}

/// Results below this are finite.
pub open spec fn ceiling() -> real {
    pow2(1000) as real
}

proof fn lemma_room()
    ensures
        Format::Double.magnitude((Format::Double.infinity() - 1) as nat) >= pow2(2074),
{
    let f = Format::Double;
    lemma2_to64();
    lemma2_to64_rest();
    lemma_pow2_pos(2045);
    assert(pow2(52) == 0x10_0000_0000_0000 && pow2(53) == 0x20_0000_0000_0000);
    f.lemma_magnitude(2045, 0x1f_ffff_ffff_ffff);
    assert(2045 * 0x10_0000_0000_0000 + 0x1f_ffff_ffff_ffff == 0x7fef_ffff_ffff_ffff);
    lemma_pow2_adds(29, 2045);
    assert(pow2(29) == 0x2000_0000);
    assert(0x1f_ffff_ffff_ffff * pow2(2045) >= 0x2000_0000 * pow2(2045)) by (nonlinear_arith)
        requires pow2(2045) > 0;
}

/// The error of a rounded magnitude.
proof fn lemma_error(num: nat, den: nat)
    requires
        den > 0,
        num < pow2(2074) * den,
    ensures
        ({
            let pattern = Format::Double.rounded(Exact::Quotient(num, den));
            let gap = Format::Double.magnitude(pattern) * den - num;
            &&& pattern < Format::Double.infinity()
            &&& 0x40_0000_0000_0000 * gap <= 2 * num + 0x20_0000_0000_0000 * den
            &&& -0x40_0000_0000_0000 * gap <= 2 * num + 0x20_0000_0000_0000 * den
            &&& den == 1 ==> 0x20_0000_0000_0000 * gap <= num && -0x20_0000_0000_0000 * gap <= num
        }),
{
    let f = Format::Double;
    let exact = Exact::Quotient(num, den);
    let b = f.rounded(exact);
    f.lemma_nearest(exact);
    lemma2_to64();
    lemma2_to64_rest();
    assert(pow2(52) == 0x10_0000_0000_0000 && pow2(53) == 0x20_0000_0000_0000);
    if b == f.infinity() {
        lemma_room();
        let last = f.magnitude((b - 1) as nat);
        let ends = last + f.magnitude(b);
        f.lemma_monotone((b - 1) as nat, b);
        assert(ends * den >= 2 * (pow2(2074) * den)) by (nonlinear_arith)
            requires ends >= 2 * pow2(2074), den > 0;
        assert(false);
    }
    let m = f.magnitude(b);
    let (k, q) = f.lemma_split(b);
    let g = pow2(k);
    let upper = m + f.magnitude(b + 1);
    assert(upper == 2 * m + g) by (nonlinear_arith)
        requires upper == q * g + (q + 1) * g, m == q * g;
    let whole: int = (m * den) as int;
    assert(upper * den == 2 * whole + g * den) by (nonlinear_arith)
        requires upper == 2 * m + g, whole == m * den;
    let step: int = (g * den) as int;
    if k > 0 {
        assert(0x10_0000_0000_0000 * step <= whole) by (nonlinear_arith)
            requires step == g * den, whole == m * den, m == q * g, q >= 0x10_0000_0000_0000, g >= 0, den > 0;
    } else {
        assert(step == den) by (nonlinear_arith)
            requires step == g * den, g == 1;
    }
    if b > 0 {
        let (j, r) = f.lemma_split((b - 1) as nat);
        let h = pow2(j);
        let under = f.magnitude((b - 1) as nat);
        let lower = under + m;
        assert(m == under + h) by (nonlinear_arith)
            requires m == (r + 1) * h, under == r * h;
        let low: int = (under * den) as int;
        let back: int = (h * den) as int;
        assert(whole == low + back) by (nonlinear_arith)
            requires whole == m * den, low == under * den, back == h * den, m == under + h;
        assert(lower * den == low + whole) by (nonlinear_arith)
            requires lower == under + m, whole == m * den, low == under * den;
        if j > 0 {
            assert(0x10_0000_0000_0000 * back <= low) by (nonlinear_arith)
                requires back == h * den, low == under * den, under == r * h, r >= 0x10_0000_0000_0000, h >= 0, den > 0;
        } else {
            assert(back == den) by (nonlinear_arith)
                requires back == h * den, h == 1;
        }
    } else {
        f.lemma_zero(1);
        assert(whole == 0) by (nonlinear_arith)
            requires whole == m * den, m == 0;
    }
}

/// The gap of a rounding, over the denominator.
proof fn lemma_gap(m: int, num: int, den: int, g: int)
    requires
        den > 0,
        g > 0,
        0x40_0000_0000_0000 * (m * den - num) <= 2 * num + 0x20_0000_0000_0000 * den,
        -0x40_0000_0000_0000 * (m * den - num) <= 2 * num + 0x20_0000_0000_0000 * den,
    ensures
        rounding::size(m as real / g as real - num as real / (den as real * g as real)) <= unit() * (num as real / (den as real
            * g as real)) + 1real / (2real * g as real),
{
    let (rm, rn, rd, rg) = (m as real, num as real, den as real, g as real);
    assert((m * den) as real == rm * rd) by (nonlinear_arith)
        requires rm == m as real, rd == den as real;
    let p = (m * den) as real;
    let all = rd * rg;
    assert(all > 0real) by (nonlinear_arith)
        requires all == rd * rg, rd > 0real, rg > 0real;
    let (x, y) = (rm / rg, rn / all);
    assert(x * all == p && y * all == rn) by (nonlinear_arith)
        requires x == rm / rg, y == rn / all, p == rm * rd, all == rd * rg, rg > 0real, all > 0real;
    let half = 1real / (2real * rg);
    assert(half * all * 2real == rd) by (nonlinear_arith)
        requires half == 1real / (2real * rg), all == rd * rg, rg > 0real;
    let bound = unit() * y + half;
    assert(0x40_0000_0000_0000real * (bound * all) == 2real * rn + 0x20_0000_0000_0000real * rd) by (nonlinear_arith)
        requires bound == (1real / 0x20_0000_0000_0000real) * y + half, y * all == rn, half * all * 2real == rd;
    let e = x - y;
    assert(e * all == p - rn) by (nonlinear_arith)
        requires e == x - y, x * all == p, y * all == rn;
    assert(e <= bound) by (nonlinear_arith)
        requires e * all <= bound * all, all > 0real;
    assert(-e <= bound) by (nonlinear_arith)
        requires -(e * all) <= bound * all, all > 0real;
}

/// The weight of the least magnitude, and what lies under the ceiling.
proof fn lemma_weights()
    ensures
        pow2(1074) > 0,
        pow2(2074) == pow2(1000) * pow2(1074),
        2 * pow2(1074) == pow2(1075),
        1real / (2real * pow2(1074) as real) == grain(),
        grain() > 0real,
{
    lemma_pow2_pos(1074);
    lemma_pow2_adds(1000, 1074);
    lemma_pow2_unfold(1075);
    lemma_pow2_pos(1075);
    let (a, b) = (pow2(1074) as real, pow2(1075) as real);
    assert(2real * a == b);
    assert(1real / b > 0real) by (nonlinear_arith)
        requires b > 0real;
}

/// A quotient over the least magnitude is below the ceiling exactly where the count is.
proof fn lemma_under(num: nat, den: nat)
    requires
        den > 0,
        num as real / (den as real * pow2(1074) as real) < ceiling(),
    ensures
        num < pow2(2074) * den,
{
    lemma_weights();
    let (n, d, g) = (num as real, den as real, pow2(1074) as real);
    let all = d * g;
    assert(all > 0real) by (nonlinear_arith)
        requires all == d * g, d > 0real, g > 0real;
    assert(n < ceiling() * all) by (nonlinear_arith)
        requires n / all < ceiling(), all > 0real;
    let limit = pow2(2074) * den;
    assert(limit as real == ceiling() * all) by (nonlinear_arith)
        requires limit == pow2(2074) * den, pow2(2074) == pow2(1000) * pow2(1074), all == den as real * pow2(1074) as real, ceiling() == pow2(1000) as real;
}

impl F64 {
    /// The number that the bits stand for.
    pub open spec fn number(self) -> real {
        self.value() as real / pow2(1074) as real
    }

    /// A sum lies within one part in two to the 53 of the exact one.
    pub proof fn lemma_sum_error(self, other: F64)
        requires
            self.finite(),
            other.finite(),
            rounding::size(self.number() + other.number()) < ceiling(),
        ensures
            self.sum(other).finite(),
            rounding::size(self.sum(other).number() - (self.number() + other.number())) <= unit() * rounding::size(
                self.number() + other.number(),
            ),
    {
        reveal(F64::sum);
        reveal(F64::value);
        let f = Format::Double;
        lemma_weights();
        let total = self.value() + other.value();
        let g = pow2(1074) as real;
        let (a, b) = (self.value() as real, other.value() as real);
        let t = total as real;
        assert(self.number() + other.number() == t / g) by (nonlinear_arith)
            requires self.number() == a / g, other.number() == b / g, t == a + b, g > 0real;
        let n: nat = if total < 0 {
            (-total) as nat
        } else {
            total as nat
        };
        assert(rounding::size(t / g) == n as real / g) by (nonlinear_arith)
            requires
                g > 0real,
                t < 0real ==> n as real == -t,
                t >= 0real ==> n as real == t,
                rounding::size(t / g) == if t / g < 0real { -(t / g) } else { t / g };
        assert(1real * g == g);
        lemma_under(n, 1);
        lemma_error(n, 1);
        f.lemma_zero(1);
        let r = f.rounded(Exact::Quotient(n, 1));
        f.lemma_signed(true, r);
        f.lemma_signed(false, r);
        let m = f.magnitude(r) as real;
        let s = self.sum(other);
        assert(s.value() == if total < 0 { -(f.magnitude(r) as int) } else { f.magnitude(r) as int });
        let nr = n as real;
        assert(rounding::size(s.number() - t / g) == rounding::size(m - nr) / g) by (nonlinear_arith)
            requires
                g > 0real,
                s.number() == s.value() as real / g,
                t < 0real ==> nr == -t && s.value() as real == -m,
                t >= 0real ==> nr == t && s.value() as real == m,
                rounding::size(s.number() - t / g) == if s.number() - t / g < 0real { -(s.number() - t / g) } else { s.number() - t / g },
                rounding::size(m - nr) == if m - nr < 0real { -(m - nr) } else { m - nr };
        assert(0x20_0000_0000_0000real * rounding::size(m - nr) <= nr);
        assert(rounding::size(m - nr) / g <= unit() * (nr / g)) by (nonlinear_arith)
            requires
                g > 0real,
                0x20_0000_0000_0000real * rounding::size(m - nr) <= nr,
                unit() == 1real / 0x20_0000_0000_0000real;
    }

    /// A count lies within one part in two to the 53 of itself.
    pub proof fn lemma_count_error(n: nat)
        requires
            n <= u64::MAX,
        ensures
            F64::whole(n).finite(),
            rounding::size(F64::whole(n).number() - n as real) <= unit() * n as real,
    {
        reveal(F64::whole);
        reveal(F64::value);
        let f = Format::Double;
        lemma_weights();
        let g = pow2(1074);
        let num = n * g;
        lemma2_to64();
        lemma2_to64_rest();
        lemma_pow2_strictly_increases(64, 1000);
        assert(num < pow2(2074) * 1) by (nonlinear_arith)
            requires num == n * g, n < pow2(1000), pow2(2074) == pow2(1000) * g, g > 0;
        lemma_error(num, 1);
        let r = f.rounded(Exact::Quotient(num, 1));
        f.lemma_signed(false, r);
        let m = f.magnitude(r);
        let (mr, nr, gr) = (m as real, n as real, g as real);
        let top = num as real;
        assert(top == nr * gr) by (nonlinear_arith)
            requires num == n * g, top == num as real, nr == n as real, gr == g as real;
        let e = mr - top;
        assert(0x20_0000_0000_0000real * e <= top && -0x20_0000_0000_0000real * e <= top);
        let d = mr / gr - nr;
        assert(d * gr == e) by (nonlinear_arith)
            requires d == mr / gr - nr, e == mr - top, top == nr * gr, gr > 0real;
        let bound = unit() * nr;
        assert(0x20_0000_0000_0000real * (bound * gr) == top) by (nonlinear_arith)
            requires bound == (1real / 0x20_0000_0000_0000real) * nr, top == nr * gr;
        assert(d <= bound) by (nonlinear_arith)
            requires d * gr <= bound * gr, gr > 0real;
        assert(-d <= bound) by (nonlinear_arith)
            requires -(d * gr) <= bound * gr, gr > 0real;
    }

    /// The opposite number.
    pub proof fn lemma_opposite(self)
        ensures
            self.negation().number() == -self.number(),
            self.negation().finite() == self.finite(),
    {
        reveal(F64::value);
        Format::Double.lemma_negation(self.bits as nat);
        lemma_weights();
        let g = pow2(1074) as real;
        let v = self.value() as real;
        assert((-v) / g == -(v / g)) by (nonlinear_arith)
            requires g > 0real;
    }

    /// Numbers order as their counts do.
    pub proof fn lemma_order(self, other: F64)
        ensures
            self.number() < other.number() <==> self.value() < other.value(),
            self.number() < 0real <==> self.value() < 0,
            self.number() > 0real <==> self.value() > 0,
    {
        lemma_weights();
        let g = pow2(1074) as real;
        let (a, b) = (self.value() as real, other.value() as real);
        assert(a / g < b / g <==> a < b) by (nonlinear_arith)
            requires g > 0real;
        assert((a / g < 0real <==> a < 0real) && (a / g > 0real <==> a > 0real)) by (nonlinear_arith)
            requires g > 0real;
    }

    /// A difference lies within one part in two to the 53 of the exact one.
    pub proof fn lemma_difference_error(self, other: F64)
        requires
            self.finite(),
            other.finite(),
            rounding::size(self.number() - other.number()) < ceiling(),
        ensures
            self.difference(other).finite(),
            rounding::size(self.difference(other).number() - (self.number() - other.number())) <= unit() * rounding::size(
                self.number() - other.number(),
            ),
    {
        reveal(F64::sum);
        reveal(F64::difference);
        Format::Double.lemma_negation(other.bits as nat);
        other.lemma_opposite();
        self.lemma_sum_error(other.negation());
    }

    /// A product lies within one part in two to the 53 of the exact one, and half of
    /// the least magnitude.
    pub proof fn lemma_product_error(self, other: F64)
        requires
            self.finite(),
            other.finite(),
            rounding::size(self.number() * other.number()) < ceiling(),
        ensures
            self.product(other).finite(),
            rounding::size(self.product(other).number() - self.number() * other.number()) <= unit() * rounding::size(
                self.number() * other.number(),
            ) + grain(),
    {
        reveal(F64::product);
        reveal(F64::value);
        let f = Format::Double;
        lemma_weights();
        let g = pow2(1074);
        let gr = g as real;
        let (a, b) = (self.bits as nat, other.bits as nat);
        let (x, y) = (f.magnitude(f.unsigned(a)), f.magnitude(f.unsigned(b)));
        let num = x * y;
        f.lemma_product_value(a, b);
        let negative = f.negative(a) != f.negative(b);
        let all = gr * gr;
        let n = num as real;
        let v = self.value() * other.value();
        let exact = self.number() * other.number();
        assert(exact == v as real / all) by (nonlinear_arith)
            requires
                exact == (self.value() as real / gr) * (other.value() as real / gr),
                v == self.value() * other.value(),
                all == gr * gr,
                gr > 0real;
        assert(all > 0real) by (nonlinear_arith)
            requires all == gr * gr, gr > 0real;
        let q = n / all;
        assert(q >= 0real && exact == if negative { -q } else { q }) by (nonlinear_arith)
            requires
                exact == v as real / all,
                v == if negative { -(num as int) } else { num as int },
                q == n / all,
                n == num as real,
                n >= 0real,
                all > 0real;
        lemma_under(num, g);
        lemma_error(num, g);
        let r = f.rounded(Exact::Quotient(num, g));
        f.lemma_signed(negative, r);
        let m = f.magnitude(r);
        lemma_gap(m as int, num as int, g as int, g as int);
        let p = self.product(other);
        assert(p.value() == if negative { -(m as int) } else { m as int });
        let w = m as real / gr;
        assert(p.number() == if negative { -w } else { w }) by (nonlinear_arith)
            requires
                p.number() == p.value() as real / gr,
                p.value() == if negative { -(m as int) } else { m as int },
                w == m as real / gr,
                gr > 0real;
    }

    /// A quotient lies within one part in two to the 53 of the exact one, and half of
    /// the least magnitude.
    pub proof fn lemma_quotient_error(self, other: F64)
        requires
            self.finite(),
            other.finite(),
            other.number() != 0real,
            rounding::size(self.number() / other.number()) < ceiling(),
        ensures
            self.quotient(other).finite(),
            rounding::size(self.quotient(other).number() - self.number() / other.number()) <= unit() * rounding::size(
                self.number() / other.number(),
            ) + grain(),
    {
        reveal(F64::quotient);
        reveal(F64::value);
        let f = Format::Double;
        lemma_weights();
        other.lemma_order(other);
        let g = pow2(1074);
        let gr = g as real;
        let (a, b) = (self.bits as nat, other.bits as nat);
        let (x, y) = (f.magnitude(f.unsigned(a)), f.magnitude(f.unsigned(b)));
        f.lemma_zero(1);
        let num = x * g;
        let negative = f.negative(a) != f.negative(b);
        let (xr, yr) = (x as real, y as real);
        let n = num as real;
        assert(n == xr * gr) by (nonlinear_arith)
            requires num == x * g, n == num as real, xr == x as real, gr == g as real;
        let all = yr * gr;
        let exact = self.number() / other.number();
        let (va, vb) = (self.value() as real, other.value() as real);
        assert(vb == yr || vb == -yr);
        assert(yr > 0real) by {
            if y == 0 {
                assert(other.value() == 0);
                assert(vb / gr == 0real) by (nonlinear_arith)
                    requires vb == 0real, gr > 0real;
            }
        }
        assert(exact == va / vb) by (nonlinear_arith)
            requires
                exact == (va / gr) / (vb / gr),
                vb == yr || vb == -yr,
                yr > 0real,
                gr > 0real;
        let q = n / all;
        assert(all > 0real) by (nonlinear_arith)
            requires all == yr * gr, yr > 0real, gr > 0real;
        assert(q == xr / yr) by (nonlinear_arith)
            requires q == n / all, n == xr * gr, all == yr * gr, all > 0real, yr > 0real, gr > 0real;
        assert(va == if f.negative(a) { -xr } else { xr });
        assert(vb == if f.negative(b) { -yr } else { yr });
        assert(q >= 0real && exact == if negative { -q } else { q }) by (nonlinear_arith)
            requires
                exact == va / vb,
                q == xr / yr,
                va == if f.negative(a) { -xr } else { xr },
                vb == if f.negative(b) { -yr } else { yr },
                negative == (f.negative(a) != f.negative(b)),
                xr >= 0real,
                yr > 0real;
        lemma_under(num, y);
        lemma_error(num, y);
        let r = f.rounded(Exact::Quotient(num, y));
        f.lemma_signed(negative, r);
        let m = f.magnitude(r);
        lemma_gap(m as int, num as int, y as int, g as int);
        let p = self.quotient(other);
        assert(p.value() == if negative { -(m as int) } else { m as int });
        let w = m as real / gr;
        assert(p.number() == if negative { -w } else { w }) by (nonlinear_arith)
            requires
                p.number() == p.value() as real / gr,
                p.value() == if negative { -(m as int) } else { m as int },
                w == m as real / gr,
                gr > 0real;
    }
}

} // verus!
