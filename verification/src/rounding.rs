//! How far a rounded result lies from the exact one: no further than one part in
//! two to the 24, and half of the least magnitude where the exact result lies among
//! the least ones.

use crate::float::{F32, F64};
use crate::format::{Exact, Format};
use vstd::arithmetic::power2::*;
use vstd::prelude::*;

verus! {

/// The size of a number.
pub open spec fn size(x: real) -> real {
    if x < 0real {
        -x
    } else {
        x
    }
}

/// The relative error of one rounding to single precision.
pub open spec fn unit() -> real {
    1real / 0x100_0000real
}

/// The absolute error of one rounding among the least magnitudes.
pub open spec fn grain() -> real {
    1real / pow2(150) as real
}

/// Results below this are finite.
pub open spec fn ceiling() -> real {
    pow2(120) as real
}

proof fn lemma_room()
    ensures
        Format::Single.magnitude((Format::Single.infinity() - 1) as nat) >= pow2(269),
{
    let f = Format::Single;
    lemma2_to64();
    lemma_pow2_pos(253);
    assert(pow2(23) == 0x80_0000 && pow2(24) == 0x100_0000);
    f.lemma_magnitude(253, 0xff_ffff);
    assert(253 * 0x80_0000 + 0xff_ffff == 0x7f7f_ffff);
    lemma_pow2_adds(16, 253);
    assert(pow2(16) == 0x1_0000);
    assert(0xff_ffff * pow2(253) >= 0x1_0000 * pow2(253)) by (nonlinear_arith)
        requires pow2(253) > 0;
}

/// The error of a rounded magnitude.
proof fn lemma_error(num: nat, den: nat)
    requires
        den > 0,
        num < pow2(269) * den,
    ensures
        ({
            let pattern = Format::Single.rounded(Exact::Quotient(num, den));
            let gap = Format::Single.magnitude(pattern) * den - num;
            &&& pattern < Format::Single.infinity()
            &&& 0x200_0000 * gap <= 2 * num + 0x100_0000 * den
            &&& -0x200_0000 * gap <= 2 * num + 0x100_0000 * den
            &&& den == 1 ==> 0x100_0000 * gap <= num && -0x100_0000 * gap <= num
        }),
{
    let f = Format::Single;
    let exact = Exact::Quotient(num, den);
    let b = f.rounded(exact);
    f.lemma_nearest(exact);
    lemma2_to64();
    assert(pow2(23) == 0x80_0000 && pow2(24) == 0x100_0000);
    if b == f.infinity() {
        lemma_room();
        let last = f.magnitude((b - 1) as nat);
        let ends = last + f.magnitude(b);
        f.lemma_monotone((b - 1) as nat, b);
        assert(ends * den >= 2 * (pow2(269) * den)) by (nonlinear_arith)
            requires ends >= 2 * pow2(269), den > 0;
        assert(false);
    }
    let m = f.magnitude(b);
    let (k, q) = f.lemma_split(b);
    let g = pow2(k);
    let upper = m + f.magnitude(b + 1);
    assert(upper == 2 * m + g) by (nonlinear_arith)
        requires upper == q * g + (q + 1) * g, m == q * g;
    let whole: int = (m * den) as int;
    assert(upper * den == 2 * whole + g * den) by (nonlinear_arith)
        requires upper == 2 * m + g, whole == m * den;
    let step: int = (g * den) as int;
    if k > 0 {
        assert(0x80_0000 * step <= whole) by (nonlinear_arith)
            requires step == g * den, whole == m * den, m == q * g, q >= 0x80_0000, g >= 0, den > 0;
    } else {
        assert(step == den) by (nonlinear_arith)
            requires step == g * den, g == 1;
    }
    if b > 0 {
        let (j, r) = f.lemma_split((b - 1) as nat);
        let h = pow2(j);
        let under = f.magnitude((b - 1) as nat);
        let lower = under + m;
        assert(m == under + h) by (nonlinear_arith)
            requires m == (r + 1) * h, under == r * h;
        let low: int = (under * den) as int;
        let back: int = (h * den) as int;
        assert(whole == low + back) by (nonlinear_arith)
            requires whole == m * den, low == under * den, back == h * den, m == under + h;
        assert(lower * den == low + whole) by (nonlinear_arith)
            requires lower == under + m, whole == m * den, low == under * den;
        if j > 0 {
            assert(0x80_0000 * back <= low) by (nonlinear_arith)
                requires back == h * den, low == under * den, under == r * h, r >= 0x80_0000, h >= 0, den > 0;
        } else {
            assert(back == den) by (nonlinear_arith)
                requires back == h * den, h == 1;
        }
    } else {
        f.lemma_zero(1);
        assert(whole == 0) by (nonlinear_arith)
            requires whole == m * den, m == 0;
    }
}

/// The gap of a rounding, over the denominator.
proof fn lemma_gap(m: int, num: int, den: int, g: int)
    requires
        den > 0,
        g > 0,
        0x200_0000 * (m * den - num) <= 2 * num + 0x100_0000 * den,
        -0x200_0000 * (m * den - num) <= 2 * num + 0x100_0000 * den,
    ensures
        size(m as real / g as real - num as real / (den as real * g as real)) <= unit() * (num as real / (den as real
            * g as real)) + 1real / (2real * g as real),
{
    let (rm, rn, rd, rg) = (m as real, num as real, den as real, g as real);
    assert((m * den) as real == rm * rd) by (nonlinear_arith)
        requires rm == m as real, rd == den as real;
    let p = (m * den) as real;
    let all = rd * rg;
    assert(all > 0real) by (nonlinear_arith)
        requires all == rd * rg, rd > 0real, rg > 0real;
    let (x, y) = (rm / rg, rn / all);
    assert(x * all == p && y * all == rn) by (nonlinear_arith)
        requires x == rm / rg, y == rn / all, p == rm * rd, all == rd * rg, rg > 0real, all > 0real;
    let half = 1real / (2real * rg);
    assert(half * all * 2real == rd) by (nonlinear_arith)
        requires half == 1real / (2real * rg), all == rd * rg, rg > 0real;
    let bound = unit() * y + half;
    assert(0x200_0000real * (bound * all) == 2real * rn + 0x100_0000real * rd) by (nonlinear_arith)
        requires bound == (1real / 0x100_0000real) * y + half, y * all == rn, half * all * 2real == rd;
    let e = x - y;
    assert(e * all == p - rn) by (nonlinear_arith)
        requires e == x - y, x * all == p, y * all == rn;
    assert(e <= bound) by (nonlinear_arith)
        requires e * all <= bound * all, all > 0real;
    assert(-e <= bound) by (nonlinear_arith)
        requires -(e * all) <= bound * all, all > 0real;
}

/// The weight of the least magnitude, and what lies under the ceiling.
proof fn lemma_weights()
    ensures
        pow2(149) > 0,
        pow2(269) == pow2(120) * pow2(149),
        2 * pow2(149) == pow2(150),
        1real / (2real * pow2(149) as real) == grain(),
        grain() > 0real,
{
    lemma_pow2_pos(149);
    lemma_pow2_adds(120, 149);
    lemma_pow2_unfold(150);
    lemma_pow2_pos(150);
    let (a, b) = (pow2(149) as real, pow2(150) as real);
    assert(2real * a == b);
    assert(1real / b > 0real) by (nonlinear_arith)
        requires b > 0real;
}

/// A quotient over the least magnitude is below the ceiling exactly where the count is.
proof fn lemma_under(num: nat, den: nat)
    requires
        den > 0,
        num as real / (den as real * pow2(149) as real) < ceiling(),
    ensures
        num < pow2(269) * den,
{
    lemma_weights();
    let (n, d, g) = (num as real, den as real, pow2(149) as real);
    let all = d * g;
    assert(all > 0real) by (nonlinear_arith)
        requires all == d * g, d > 0real, g > 0real;
    assert(n < ceiling() * all) by (nonlinear_arith)
        requires n / all < ceiling(), all > 0real;
    let limit = pow2(269) * den;
    assert(limit as real == ceiling() * all) by (nonlinear_arith)
        requires limit == pow2(269) * den, pow2(269) == pow2(120) * pow2(149), all == den as real * pow2(149) as real, ceiling() == pow2(120) as real;
}

impl F32 {
    /// The number that the bits stand for.
    pub open spec fn number(self) -> real {
        self.value() as real / pow2(149) as real
    }

    /// A sum lies within one part in two to the 24 of the exact one.
    pub proof fn lemma_sum_error(self, other: F32)
        requires
            self.finite(),
            other.finite(),
            size(self.number() + other.number()) < ceiling(),
        ensures
            self.sum(other).finite(),
            size(self.sum(other).number() - (self.number() + other.number())) <= unit() * size(
                self.number() + other.number(),
            ),
    {
        reveal(F32::sum);
        reveal(F32::value);
        let f = Format::Single;
        lemma_weights();
        let total = self.value() + other.value();
        let g = pow2(149) as real;
        let (a, b) = (self.value() as real, other.value() as real);
        let t = total as real;
        assert(self.number() + other.number() == t / g) by (nonlinear_arith)
            requires self.number() == a / g, other.number() == b / g, t == a + b, g > 0real;
        let n: nat = if total < 0 {
            (-total) as nat
        } else {
            total as nat
        };
        assert(size(t / g) == n as real / g) by (nonlinear_arith)
            requires
                g > 0real,
                t < 0real ==> n as real == -t,
                t >= 0real ==> n as real == t,
                size(t / g) == if t / g < 0real { -(t / g) } else { t / g };
        assert(1real * g == g);
        lemma_under(n, 1);
        lemma_error(n, 1);
        f.lemma_zero(1);
        let r = f.rounded(Exact::Quotient(n, 1));
        f.lemma_signed(true, r);
        f.lemma_signed(false, r);
        let m = f.magnitude(r) as real;
        let s = self.sum(other);
        assert(s.value() == if total < 0 { -(f.magnitude(r) as int) } else { f.magnitude(r) as int });
        let nr = n as real;
        assert(size(s.number() - t / g) == size(m - nr) / g) by (nonlinear_arith)
            requires
                g > 0real,
                s.number() == s.value() as real / g,
                t < 0real ==> nr == -t && s.value() as real == -m,
                t >= 0real ==> nr == t && s.value() as real == m,
                size(s.number() - t / g) == if s.number() - t / g < 0real { -(s.number() - t / g) } else { s.number() - t / g },
                size(m - nr) == if m - nr < 0real { -(m - nr) } else { m - nr };
        assert(0x100_0000real * size(m - nr) <= nr);
        assert(size(m - nr) / g <= unit() * (nr / g)) by (nonlinear_arith)
            requires
                g > 0real,
                0x100_0000real * size(m - nr) <= nr,
                unit() == 1real / 0x100_0000real;
    }

    /// The opposite number.
    pub proof fn lemma_opposite(self)
        ensures
            self.negation().number() == -self.number(),
            self.negation().finite() == self.finite(),
    {
        reveal(F32::value);
        Format::Single.lemma_negation(self.bits as nat);
        lemma_weights();
        let g = pow2(149) as real;
        let v = self.value() as real;
        assert((-v) / g == -(v / g)) by (nonlinear_arith)
            requires g > 0real;
    }

    /// The size of a number, as a number.
    pub proof fn lemma_absolute(self)
        ensures
            self.finite() ==> self.absolute().number() == size(self.number()),
            self.absolute().finite() == self.finite(),
    {
        reveal(F32::value);
        let f = Format::Single;
        lemma_weights();
        f.lemma_zero(1);
        let g = pow2(149) as real;
        let v = self.value() as real;
        assert(v < 0real ==> v / g < 0real && (-v) / g == -(v / g)) by (nonlinear_arith)
            requires g > 0real;
        assert(v >= 0real ==> v / g >= 0real) by (nonlinear_arith)
            requires g > 0real;
    }

    /// Numbers order as their counts do.
    pub proof fn lemma_order(self, other: F32)
        ensures
            self.number() < other.number() <==> self.value() < other.value(),
            self.number() < 0real <==> self.value() < 0,
            self.number() > 0real <==> self.value() > 0,
    {
        lemma_weights();
        let g = pow2(149) as real;
        let (a, b) = (self.value() as real, other.value() as real);
        assert(a / g < b / g <==> a < b) by (nonlinear_arith)
            requires g > 0real;
        assert((a / g < 0real <==> a < 0real) && (a / g > 0real <==> a > 0real)) by (nonlinear_arith)
            requires g > 0real;
    }

    /// A difference lies within one part in two to the 24 of the exact one.
    pub proof fn lemma_difference_error(self, other: F32)
        requires
            self.finite(),
            other.finite(),
            size(self.number() - other.number()) < ceiling(),
        ensures
            self.difference(other).finite(),
            size(self.difference(other).number() - (self.number() - other.number())) <= unit() * size(
                self.number() - other.number(),
            ),
    {
        reveal(F32::sum);
        reveal(F32::difference);
        Format::Single.lemma_negation(other.bits as nat);
        other.lemma_opposite();
        self.lemma_sum_error(other.negation());
    }

    /// A product lies within one part in two to the 24 of the exact one, and half of
    /// the least magnitude.
    pub proof fn lemma_product_error(self, other: F32)
        requires
            self.finite(),
            other.finite(),
            size(self.number() * other.number()) < ceiling(),
        ensures
            self.product(other).finite(),
            size(self.product(other).number() - self.number() * other.number()) <= unit() * size(
                self.number() * other.number(),
            ) + grain(),
    {
        reveal(F32::product);
        reveal(F32::value);
        let f = Format::Single;
        lemma_weights();
        let g = pow2(149);
        let gr = g as real;
        let (a, b) = (self.bits as nat, other.bits as nat);
        let (x, y) = (f.magnitude(f.unsigned(a)), f.magnitude(f.unsigned(b)));
        let num = x * y;
        f.lemma_product_value(a, b);
        let negative = f.negative(a) != f.negative(b);
        let all = gr * gr;
        let n = num as real;
        let v = self.value() * other.value();
        let exact = self.number() * other.number();
        assert(exact == v as real / all) by (nonlinear_arith)
            requires
                exact == (self.value() as real / gr) * (other.value() as real / gr),
                v == self.value() * other.value(),
                all == gr * gr,
                gr > 0real;
        assert(all > 0real) by (nonlinear_arith)
            requires all == gr * gr, gr > 0real;
        let q = n / all;
        assert(q >= 0real && exact == if negative { -q } else { q }) by (nonlinear_arith)
            requires
                exact == v as real / all,
                v == if negative { -(num as int) } else { num as int },
                q == n / all,
                n == num as real,
                n >= 0real,
                all > 0real;
        lemma_under(num, g);
        lemma_error(num, g);
        let r = f.rounded(Exact::Quotient(num, g));
        f.lemma_signed(negative, r);
        let m = f.magnitude(r);
        lemma_gap(m as int, num as int, g as int, g as int);
        let p = self.product(other);
        assert(p.value() == if negative { -(m as int) } else { m as int });
        let w = m as real / gr;
        assert(p.number() == if negative { -w } else { w }) by (nonlinear_arith)
            requires
                p.number() == p.value() as real / gr,
                p.value() == if negative { -(m as int) } else { m as int },
                w == m as real / gr,
                gr > 0real;
    }

    /// A quotient lies within one part in two to the 24 of the exact one, and half of
    /// the least magnitude.
    pub proof fn lemma_quotient_error(self, other: F32)
        requires
            self.finite(),
            other.finite(),
            other.number() != 0real,
            size(self.number() / other.number()) < ceiling(),
        ensures
            self.quotient(other).finite(),
            size(self.quotient(other).number() - self.number() / other.number()) <= unit() * size(
                self.number() / other.number(),
            ) + grain(),
    {
        reveal(F32::quotient);
        reveal(F32::value);
        let f = Format::Single;
        lemma_weights();
        other.lemma_order(other);
        let g = pow2(149);
        let gr = g as real;
        let (a, b) = (self.bits as nat, other.bits as nat);
        let (x, y) = (f.magnitude(f.unsigned(a)), f.magnitude(f.unsigned(b)));
        f.lemma_zero(1);
        let num = x * g;
        let negative = f.negative(a) != f.negative(b);
        let (xr, yr) = (x as real, y as real);
        let n = num as real;
        assert(n == xr * gr) by (nonlinear_arith)
            requires num == x * g, n == num as real, xr == x as real, gr == g as real;
        let all = yr * gr;
        let exact = self.number() / other.number();
        let (va, vb) = (self.value() as real, other.value() as real);
        assert(vb == yr || vb == -yr);
        assert(yr > 0real) by {
            if y == 0 {
                assert(other.value() == 0);
                assert(vb / gr == 0real) by (nonlinear_arith)
                    requires vb == 0real, gr > 0real;
            }
        }
        assert(exact == va / vb) by (nonlinear_arith)
            requires
                exact == (va / gr) / (vb / gr),
                vb == yr || vb == -yr,
                yr > 0real,
                gr > 0real;
        let q = n / all;
        assert(all > 0real) by (nonlinear_arith)
            requires all == yr * gr, yr > 0real, gr > 0real;
        assert(q == xr / yr) by (nonlinear_arith)
            requires q == n / all, n == xr * gr, all == yr * gr, all > 0real, yr > 0real, gr > 0real;
        assert(va == if f.negative(a) { -xr } else { xr });
        assert(vb == if f.negative(b) { -yr } else { yr });
        assert(q >= 0real && exact == if negative { -q } else { q }) by (nonlinear_arith)
            requires
                exact == va / vb,
                q == xr / yr,
                va == if f.negative(a) { -xr } else { xr },
                vb == if f.negative(b) { -yr } else { yr },
                negative == (f.negative(a) != f.negative(b)),
                xr >= 0real,
                yr > 0real;
        lemma_under(num, y);
        lemma_error(num, y);
        let r = f.rounded(Exact::Quotient(num, y));
        f.lemma_signed(negative, r);
        let m = f.magnitude(r);
        lemma_gap(m as int, num as int, y as int, g as int);
        let p = self.quotient(other);
        assert(p.value() == if negative { -(m as int) } else { m as int });
        let w = m as real / gr;
        assert(p.number() == if negative { -w } else { w }) by (nonlinear_arith)
            requires
                p.number() == p.value() as real / gr,
                p.value() == if negative { -(m as int) } else { m as int },
                w == m as real / gr,
                gr > 0real;
    }

    /// Adding nothing leaves the number.
    pub proof fn lemma_sum_nothing(self, other: F32)
        requires
            self.finite(),
            other.finite(),
            other.value() == 0,
        ensures
            self.sum(other).finite(),
            other.sum(self).finite(),
            self.sum(other).value() == self.value(),
            other.sum(self).value() == self.value(),
    {
        reveal(F32::sum);
        reveal(F32::value);
        let f = Format::Single;
        let a = self.bits as nat;
        f.lemma_zero(1);
        let m = f.magnitude(f.unsigned(a));
        if self.value() != 0 {
            f.lemma_rounded_exact(f.unsigned(a), 1);
            assert(m * 1 == m);
        }
    }

    /// Once a number is the number, and no times it is nothing.
    pub proof fn lemma_product_trivial(self)
        requires
            self.finite(),
        ensures
            F32::one().product(self).finite(),
            F32::one().product(self).value() == self.value(),
            F32::zero().product(self).finite(),
            F32::zero().product(self).value() == 0,
    {
        reveal(F32::product);
        reveal(F32::value);
        let f = Format::Single;
        let a = self.bits as nat;
        let one = 0x3f80_0000nat;
        lemma2_to64();
        assert(one / pow2(23) == 127 && one % pow2(23) == 0) by (nonlinear_arith)
            requires one == 0x3f80_0000, pow2(23) == 0x80_0000;
        lemma_pow2_adds(23, 126);
        lemma_pow2_pos(149);
        f.lemma_rounded_exact(f.unsigned(a), pow2(149));
        let m = f.magnitude(f.unsigned(a));
        assert(pow2(149) * m == m * pow2(149)) by (nonlinear_arith);
        f.lemma_zero(pow2(149));
        assert(f.magnitude(0) * m == 0) by (nonlinear_arith)
            requires f.magnitude(0) == 0;
    }

    /// Twice a number is exact.
    pub proof fn lemma_doubling(self)
        requires
            self.finite(),
            size(self.number()) < ceiling(),
        ensures
            (F32 { bits: 0x4000_0000 }).product(self).finite(),
            (F32 { bits: 0x4000_0000 }).product(self).number() == 2real * self.number(),
    {
        reveal(F32::product);
        reveal(F32::value);
        let f = Format::Single;
        let a = self.bits as nat;
        let b = f.unsigned(a);
        let two = 0x4000_0000nat;
        let s = pow2(149);
        lemma_weights();
        lemma2_to64();
        assert(two / pow2(23) == 128 && two % pow2(23) == 0) by (nonlinear_arith)
            requires two == 0x4000_0000, pow2(23) == 0x80_0000;
        lemma_pow2_adds(23, 127);
        assert(f.magnitude(two) == 2 * s);
        let m = f.magnitude(b);
        self.lemma_absolute();
        assert(m as real / (1real * s as real) < ceiling()) by {
            assert(1real * s as real == s as real);
        }
        lemma_under(m, 1);
        assert(pow2(23) == 0x80_0000 && pow2(24) == 0x100_0000);
        let (k, q) = f.lemma_split(b);
        let twice: nat = if q < 0x80_0000 {
            2 * q
        } else {
            b + 0x80_0000
        };
        if q < 0x80_0000 {
            f.lemma_magnitude(0, 2 * q);
            assert(pow2(0) == 1);
        } else {
            f.lemma_magnitude(k + 1, q);
            lemma_pow2_unfold(k + 1);
            assert(q * (2 * pow2(k)) == 2 * (q * pow2(k))) by (nonlinear_arith);
            assert(twice == (k + 1) * 0x80_0000 + q);
        }
        assert(f.magnitude(twice) == 2 * m);
        if twice >= f.infinity() {
            f.lemma_magnitude(253, 0x80_0000);
            lemma_pow2_adds(23, 253);
            lemma_pow2_strictly_increases(269, 276);
            if b > 0x7f00_0000 {
                f.lemma_monotone(0x7f00_0000, b);
            }
        }
        f.lemma_rounded_exact(twice, s);
        assert((2 * s) * m == (2 * m) * s) by (nonlinear_arith);
        f.lemma_signed(f.negative(a), twice);
        let x = (F32 { bits: 0x4000_0000 }).product(self);
        assert(x.value() == 2 * self.value());
        let (v, g) = (self.value() as real, s as real);
        assert((2real * v) / g == 2real * (v / g)) by (nonlinear_arith)
            requires g > 0real;
    }
}

impl F32 {
    /// The number two.
    pub proof fn lemma_two_number()
        ensures
            (F32 { bits: 0x4000_0000 }).finite(),
            (F32 { bits: 0x4000_0000 }).number() == 2real,
    {
        reveal(F32::value);
        let f = Format::Single;
        let two = 0x4000_0000nat;
        let s = pow2(149);
        lemma_weights();
        lemma2_to64();
        assert(two / pow2(23) == 128 && two % pow2(23) == 0) by (nonlinear_arith)
            requires two == 0x4000_0000, pow2(23) == 0x80_0000;
        lemma_pow2_adds(23, 127);
        assert(f.magnitude(two) == 2 * s);
        assert((F32 { bits: 0x4000_0000 }).value() == 2 * s);
        let g = s as real;
        assert((2real * g) / g == 2real) by (nonlinear_arith)
            requires g > 0real;
    }

    /// A count of at most 24 bits is held exactly.
    pub proof fn lemma_count_number(n: nat)
        requires
            n < 0x100_0000,
        ensures
            F32::whole(n).finite(),
            F32::whole(n).number() == n as real,
    {
        reveal(F32::whole);
        reveal(F32::value);
        F32::lemma_whole(n);
        lemma_weights();
        let f = Format::Single;
        f.lemma_signed(false, f.whole(n));
        let (k, g) = (n as real, pow2(149) as real);
        assert((n * pow2(149)) as real == k * g) by (nonlinear_arith)
            requires k == n as real, g == pow2(149) as real;
        assert((k * g) / g == k) by (nonlinear_arith)
            requires g > 0real;
    }

    /// Finite numbers lie below two to the 128.
    pub proof fn lemma_limit(self)
        requires
            self.finite(),
        ensures
            size(self.number()) < pow2(128) as real,
    {
        reveal(F32::value);
        let f = Format::Single;
        lemma2_to64();
        assert(pow2(23) == 0x80_0000 && pow2(24) == 0x100_0000);
        f.lemma_magnitude(254, 0x80_0000);
        assert(254 * 0x80_0000 + 0x80_0000 == 0x7f80_0000);
        f.lemma_bounded(self.bits as nat);
        lemma_pow2_adds(23, 254);
        lemma_pow2_adds(128, 149);
        lemma_weights();
        let (v, g, top) = (self.value() as real, pow2(149) as real, pow2(128) as real);
        assert(pow2(277) as real == top * g) by (nonlinear_arith)
            requires pow2(277) == pow2(128) * pow2(149), top == pow2(128) as real, g == pow2(149) as real;
        assert(-(top * g) < v < top * g);
        let q = v / g;
        assert(-top < q < top) by (nonlinear_arith)
            requires q == v / g, -(top * g) < v < top * g, g > 0real;
    }

    /// A number in single precision is the same in double.
    pub proof fn lemma_doubled_number(self)
        requires
            self.finite(),
        ensures
            self.doubled().finite(),
            self.doubled().number() == self.number(),
    {
        self.lemma_doubled();
        lemma_weights();
        lemma_pow2_adds(925, 149);
        lemma_pow2_pos(925);
        let (v, d, g) = (self.value() as real, pow2(925) as real, pow2(149) as real);
        let all = pow2(1074) as real;
        assert(all == d * g) by (nonlinear_arith)
            requires all == pow2(1074) as real, pow2(1074) == pow2(925) * pow2(149), d == pow2(925) as real, g == pow2(149) as real;
        assert((self.value() * pow2(925)) as real == v * d) by (nonlinear_arith)
            requires v == self.value() as real, d == pow2(925) as real;
        assert((v * d) / all == v / g) by (nonlinear_arith)
            requires all == d * g, d > 0real, g > 0real;
    }
}

impl F64 {
    /// A number rounded to single precision lies within one part in two to the 24 of it, and
    /// half of the least magnitude.
    pub proof fn lemma_halved_error(self)
        requires
            self.finite(),
            size(self.number()) < ceiling(),
        ensures
            self.halved().finite(),
            size(self.halved().number() - self.number()) <= unit() * size(self.number()) + grain(),
    {
        reveal(F64::halved);
        reveal(F64::value);
        reveal(F32::value);
        let (f, g) = (Format::Double, Format::Single);
        let x = self.bits as nat;
        let m = f.magnitude(f.unsigned(x));
        let den = pow2(925);
        lemma_pow2_pos(925);
        lemma_pow2_adds(925, 149);
        lemma_weights();
        let (mr, dr, gr) = (m as real, den as real, pow2(149) as real);
        let all = dr * gr;
        assert(all == pow2(1074) as real) by (nonlinear_arith)
            requires all == dr * gr, pow2(1074) == pow2(925) * pow2(149), dr == pow2(925) as real, gr == pow2(149) as real;
        assert(all > 0real) by (nonlinear_arith)
            requires all == dr * gr, dr > 0real, gr > 0real;
        let negative = f.negative(x);
        let exact = self.number();
        let q = mr / all;
        assert(q >= 0real && exact == if negative { -q } else { q }) by (nonlinear_arith)
            requires
                exact == self.value() as real / all,
                self.value() == if negative { -(m as int) } else { m as int },
                q == mr / all,
                mr == m as real,
                mr >= 0real,
                all > 0real;
        lemma_under(m, den);
        lemma_error(m, den);
        let r = g.rounded(Exact::Quotient(m, den));
        g.lemma_signed(negative, r);
        let n = g.magnitude(r);
        lemma_gap(n as int, m as int, den as int, pow2(149) as int);
        let p = self.halved();
        assert(p.value() == if negative { -(n as int) } else { n as int });
        let w = n as real / gr;
        assert(p.number() == if negative { -w } else { w }) by (nonlinear_arith)
            requires
                p.number() == p.value() as real / gr,
                p.value() == if negative { -(n as int) } else { n as int },
                w == n as real / gr,
                gr > 0real;
    }
}

} // verus!
