//! How double-precision results grow with what they are made of.

use crate::float::{F32, F64};
use crate::format::{Exact, Format};
use vstd::arithmetic::power2::*;
use vstd::prelude::*;

verus! {

impl Format {
    /// Quotients by one divisor above zero order as what is divided.
    proof fn lemma_quotient_monotone(self, a: nat, b: nat, c: nat)
        requires
            self.is_finite(a),
            self.is_finite(b),
            self.is_finite(c),
            0 <= self.value(a) <= self.value(b),
            0 < self.value(c),
        ensures
            self.holds(self.quotient(a, c)),
            self.holds(self.quotient(b, c)),
            !self.is_nan(self.quotient(a, c)),
            !self.is_nan(self.quotient(b, c)),
            0 <= self.value(self.quotient(a, c)) <= self.value(self.quotient(b, c)),
    {
        let s = pow2(self.scale());
        let den = self.magnitude(self.unsigned(c));
        self.lemma_zero(den);
        let (x, y) = (self.magnitude(self.unsigned(a)) * s, self.magnitude(self.unsigned(b)) * s);
        let (m, n) = (self.magnitude(self.unsigned(a)), self.magnitude(self.unsigned(b)));
        assert(x <= y) by (nonlinear_arith)
            requires x == m * s, y == n * s, m <= n;
        self.lemma_rounded_monotone(x, y, den);
        self.lemma_nearest(Exact::Quotient(x, den));
        self.lemma_nearest(Exact::Quotient(y, den));
        let (p, q) = (self.rounded(Exact::Quotient(x, den)), self.rounded(Exact::Quotient(y, den)));
        self.lemma_signed(true, p);
        self.lemma_signed(false, p);
        self.lemma_signed(true, q);
        self.lemma_signed(false, q);
        if p < q {
            self.lemma_monotone(p, q);
        }
        if self.negative(a) {
            assert(m == 0);
            assert(x == 0) by (nonlinear_arith)
                requires x == m * s, m == 0;
        }
        if self.negative(b) {
            assert(n == 0);
            assert(y == 0) by (nonlinear_arith)
                requires y == n * s, n == 0;
        }
    }
}

impl F64 {
    /// A sum of numbers that are not below zero grows with each of them.
    pub proof fn lemma_sum_grows(self, other: F64, more: F64, still: F64)
        requires
            !self.is_nan(),
            !other.is_nan(),
            !more.is_nan(),
            !still.is_nan(),
            0 <= self.value() <= more.value(),
            0 <= other.value() <= still.value(),
        ensures
            !self.sum(other).is_nan(),
            !more.sum(still).is_nan(),
            0 <= self.sum(other).value() <= more.sum(still).value(),
    {
        self.lemma_sum_number(other);
        more.lemma_sum_number(still);
        self.lemma_sum_sign(other);
        more.lemma_sum_sign(still);
        reveal(F64::sum);
        reveal(F64::value);
        let f = Format::Double;
        let (a, b, c, d) = (self.bits as nat, other.bits as nat, more.bits as nat, still.bits as nat);
        f.lemma_zero(1);
        f.lemma_sum_holds(a, b);
        f.lemma_sum_holds(c, b);
        f.lemma_sum_holds(c, d);
        f.lemma_bounded(a);
        f.lemma_bounded(b);
        f.lemma_bounded(c);
        f.lemma_bounded(d);
        f.lemma_bounded(f.sum(a, b));
        if f.is_finite(c) && f.is_finite(d) {
            f.lemma_sum_commutes(a, b);
            f.lemma_sum_commutes(c, b);
            f.lemma_sum_monotone(b, a, c);
            f.lemma_sum_monotone(c, b, d);
        } else {
            assert(f.value(f.sum(c, d)) == f.magnitude(f.infinity()));
        }
    }

    /// What is not below zero makes a sum no less.
    pub proof fn lemma_sum_more(self, other: F64)
        requires
            !self.is_nan(),
            !other.is_nan(),
            0 <= self.value(),
            0 <= other.value(),
        ensures
            !self.sum(other).is_nan(),
            self.value() <= self.sum(other).value(),
    {
        F64::zero().lemma_nonnegative();
        self.lemma_nonnegative();
        self.lemma_sum_grows(F64::zero(), self, other);
        if self.value() > 0 {
            self.lemma_sum_zero();
        }
    }

    /// A difference grows with what is taken from.
    pub proof fn lemma_difference_grows(self, more: F64, taken: F64)
        requires
            self.finite(),
            more.finite(),
            taken.finite(),
            self.value() <= more.value(),
        ensures
            !self.difference(taken).is_nan(),
            !more.difference(taken).is_nan(),
            self.difference(taken).value() <= more.difference(taken).value(),
    {
        reveal(F64::difference);
        reveal(F64::value);
        let f = Format::Double;
        let (a, b) = (self.bits as nat, more.bits as nat);
        let c = f.negation(taken.bits as nat);
        f.lemma_negation(taken.bits as nat);
        f.lemma_sum_holds(a, c);
        f.lemma_sum_holds(b, c);
        f.lemma_sum_commutes(a, c);
        f.lemma_sum_commutes(b, c);
        f.lemma_sum_monotone(c, a, b);
    }

    /// A difference between numbers that are not below zero, the smaller taken away, is
    /// not below zero and no more than the larger.
    pub proof fn lemma_gap(self, taken: F64)
        requires
            self.finite(),
            taken.finite(),
            0 <= taken.value() <= self.value(),
        ensures
            self.difference(taken).finite(),
            0 <= self.difference(taken).value() <= self.value(),
    {
        self.lemma_difference_below(taken);
        self.lemma_difference_sign(taken);
        let gap = self.difference(taken);
        if gap.value() < self.value() {
            gap.lemma_under(self);
        } else if gap.value() > 0 {
            gap.lemma_same_bits(self);
        } else {
            gap.lemma_naught();
        }
    }

    /// A number of no value is a zero.
    pub proof fn lemma_naught(self)
        requires
            !self.is_nan(),
            self.value() == 0,
        ensures
            self.finite(),
    {
        reveal(F64::value);
        Format::Double.lemma_zero(1);
    }

    /// A finite number lies between the two infinities.
    pub proof fn lemma_within_bounds(self)
        requires
            self.finite(),
        ensures
            (F64 { bits: 0x7ff0_0000_0000_0000 }).smaller(self) == self,
            (F64 { bits: 0xfff0_0000_0000_0000 }).larger(self) == self,
    {
        reveal(F64::value);
        Format::Double.lemma_bounded(self.bits as nat);
    }

    /// A finite number above zero, over itself, is one.
    pub proof fn lemma_over_itself(self)
        requires
            self.finite(),
            0 < self.value(),
        ensures
            self.quotient(self).finite(),
            self.quotient(self) == (F64 { bits: 0x3ff0_0000_0000_0000 }),
    {
        reveal(F64::quotient);
        reveal(F64::value);
        let f = Format::Double;
        let one = 0x3ff0_0000_0000_0000nat;
        let s = pow2(1074);
        let m = f.magnitude(f.unsigned(self.bits as nat));
        f.lemma_zero(1);
        lemma2_to64();
        lemma2_to64_rest();
        lemma_pow2_pos(1074);
        assert(one / pow2(52) == 1023 && one % pow2(52) == 0) by (nonlinear_arith)
            requires one == 0x3ff0_0000_0000_0000, pow2(52) == 0x10_0000_0000_0000;
        lemma_pow2_adds(52, 1022);
        assert(f.magnitude(one) == s);
        f.lemma_rounded_exact(one, m);
        assert(m * s == s * m) by (nonlinear_arith);
    }

    /// A product with a number that is not below zero grows with the other one.
    pub proof fn lemma_product_grows(self, other: F64, more: F64)
        requires
            self.finite(),
            other.finite(),
            more.finite(),
            0 <= self.value(),
            other.value() <= more.value(),
        ensures
            !self.product(other).is_nan(),
            !self.product(more).is_nan(),
            self.product(other).value() <= self.product(more).value(),
            0 <= other.value() ==> 0 <= self.product(other).value(),
    {
        reveal(F64::product);
        reveal(F64::value);
        let f = Format::Double;
        let (a, b, c) = (self.bits as nat, other.bits as nat, more.bits as nat);
        let (x, y, z) = (f.value(a), f.value(b), f.value(c));
        assert(x * y <= x * z) by (nonlinear_arith)
            requires 0 <= x, y <= z;
        f.lemma_product_monotone(a, b, a, c);
        f.lemma_product_value(a, b);
        f.lemma_product_value(a, c);
        if 0 <= y {
            f.lemma_zero(1);
            f.lemma_product_value(a, 0);
            assert(x * f.value(0) <= x * y) by (nonlinear_arith)
                requires 0 <= x, 0 <= y, f.value(0) == 0;
            f.lemma_product_monotone(a, 0, a, b);
            let none = f.magnitude(f.unsigned(a)) * f.magnitude(f.unsigned(0));
            assert(none == 0) by (nonlinear_arith)
                requires none == f.magnitude(f.unsigned(a)) * f.magnitude(f.unsigned(0)), f.magnitude(f.unsigned(0)) == 0;
            lemma_pow2_pos(f.scale());
            f.lemma_zero(pow2(f.scale()));
        }
    }

    /// A finite number above zero times one that is not below zero.
    pub proof fn lemma_product_number(self, other: F64)
        requires
            self.finite(),
            0 < self.value(),
            !other.is_nan(),
            0 <= other.value(),
        ensures
            !self.product(other).is_nan(),
            0 <= self.product(other).value(),
    {
        reveal(F64::value);
        let f = Format::Double;
        f.lemma_zero(1);
        if other.finite() {
            self.lemma_product_grows(other, other);
        } else {
            reveal(F64::product);
            f.lemma_signed(false, f.infinity());
        }
    }

    /// A number that is not below zero over a finite one above zero.
    pub proof fn lemma_quotient_number(self, divisor: F64)
        requires
            !self.is_nan(),
            0 <= self.value(),
            divisor.finite(),
            0 < divisor.value(),
        ensures
            !self.quotient(divisor).is_nan(),
            0 <= self.quotient(divisor).value(),
    {
        reveal(F64::value);
        let f = Format::Double;
        f.lemma_zero(1);
        if self.finite() {
            self.lemma_quotient_grows(self, divisor);
        } else {
            reveal(F64::quotient);
            f.lemma_signed(false, f.infinity());
        }
    }

    /// A count is a finite number above zero.
    pub proof fn lemma_count(n: nat)
        requires
            0 < n <= u64::MAX,
        ensures
            F64::whole(n).finite(),
            0 < F64::whole(n).value(),
    {
        reveal(F64::whole);
        reveal(F64::value);
        let f = Format::Double;
        let (one, top) = (0x3ff0_0000_0000_0000nat, 0x43f0_0000_0000_0000nat);
        let s = pow2(1074);
        lemma2_to64();
        lemma2_to64_rest();
        lemma_pow2_pos(1074);
        f.lemma_zero(1);
        assert(one / pow2(52) == 1023 && one % pow2(52) == 0) by (nonlinear_arith)
            requires one == 0x3ff0_0000_0000_0000, pow2(52) == 0x10_0000_0000_0000;
        assert(top / pow2(52) == 1087 && top % pow2(52) == 0) by (nonlinear_arith)
            requires top == 0x43f0_0000_0000_0000, pow2(52) == 0x10_0000_0000_0000;
        lemma_pow2_adds(52, 1022);
        lemma_pow2_adds(52, 1086);
        lemma_pow2_adds(64, 1074);
        assert(f.magnitude(one) == s);
        assert(f.magnitude(top) == pow2(64) * s);
        let m = n * s;
        assert(s <= m <= pow2(64) * s) by (nonlinear_arith)
            requires m == n * s, 0 < n <= pow2(64), s > 0;
        f.lemma_rounded_exact(one, 1);
        f.lemma_rounded_exact(top, 1);
        assert(s * 1 == s && (pow2(64) * s) * 1 == pow2(64) * s && m * 1 == m);
        f.lemma_rounded_monotone(s, m, 1);
        f.lemma_rounded_monotone(m, pow2(64) * s, 1);
        f.lemma_signed(false, f.rounded(Exact::Quotient(m, 1)));
    }

    /// A quotient by a number above zero grows with what is divided.
    pub proof fn lemma_quotient_grows(self, more: F64, divisor: F64)
        requires
            self.finite(),
            more.finite(),
            divisor.finite(),
            0 <= self.value() <= more.value(),
            0 < divisor.value(),
        ensures
            !self.quotient(divisor).is_nan(),
            !more.quotient(divisor).is_nan(),
            0 <= self.quotient(divisor).value() <= more.quotient(divisor).value(),
    {
        reveal(F64::quotient);
        reveal(F64::value);
        Format::Double.lemma_quotient_monotone(self.bits as nat, more.bits as nat, divisor.bits as nat);
    }
}

impl F64 {
    /// Rounding to single precision keeps the order of numbers that are not below zero.
    pub proof fn lemma_halved_grows(self, more: F64)
        requires
            !self.is_nan(),
            !more.is_nan(),
            0 <= self.value() <= more.value(),
        ensures
            !self.halved().is_nan(),
            !more.halved().is_nan(),
            0 <= self.halved().value() <= more.halved().value(),
    {
        reveal(F64::halved);
        reveal(F64::value);
        reveal(F32::value);
        let (f, g) = (Format::Double, Format::Single);
        let (x, y) = (self.bits as nat, more.bits as nat);
        let (m, n) = (f.magnitude(f.unsigned(x)), f.magnitude(f.unsigned(y)));
        let den = pow2(925);
        lemma_pow2_pos(925);
        f.lemma_zero(1);
        g.lemma_zero(den);
        f.lemma_bounded(x);
        f.lemma_bounded(y);
        assert(m <= n);
        g.lemma_rounded_monotone(m, n, den);
        g.lemma_nearest(Exact::Quotient(m, den));
        g.lemma_nearest(Exact::Quotient(n, den));
        let (a, b) = (g.rounded(Exact::Quotient(m, den)), g.rounded(Exact::Quotient(n, den)));
        g.lemma_signed(f.negative(x), a);
        g.lemma_signed(f.negative(y), b);
        g.lemma_signed(f.negative(x), g.infinity());
        g.lemma_signed(f.negative(y), g.infinity());
        if a < b {
            g.lemma_monotone(a, b);
        }
        if a < g.infinity() {
            g.lemma_monotone(a, g.infinity());
        }
        if m == 0 {
            assert(a == 0);
        }
        if n == 0 {
            assert(b == 0);
        }
    }
}

impl F64 {
    /// What lies below a number, and is not below zero, is finite.
    pub proof fn lemma_below_another(self, other: F64)
        requires
            !self.is_nan(),
            !other.is_nan(),
            0 <= self.value() < other.value(),
        ensures
            self.finite(),
    {
        reveal(F64::value);
        Format::Double.lemma_zero(1);
        Format::Double.lemma_bounded(other.bits as nat);
    }

    /// A sum with a finite number grows with what is added, and is no less than that number where
    /// what is added is not below zero.
    pub proof fn lemma_sum_rises(self, other: F64, more: F64)
        requires
            self.finite(),
            !other.is_nan(),
            !more.is_nan(),
            0 <= other.value() <= more.value(),
        ensures
            !self.sum(other).is_nan(),
            !self.sum(more).is_nan(),
            self.value() <= self.sum(other).value() <= self.sum(more).value(),
    {
        reveal(F64::sum);
        reveal(F64::value);
        let f = Format::Double;
        let (a, b, c) = (self.bits as nat, other.bits as nat, more.bits as nat);
        f.lemma_zero(1);
        f.lemma_bounded(a);
        f.lemma_bounded(b);
        f.lemma_bounded(c);
        f.lemma_sum_holds(a, b);
        f.lemma_sum_holds(a, c);
        if f.is_finite(b) {
            f.lemma_sum_monotone(a, 0, b);
            assert(f.value(f.sum(a, 0)) == f.value(a)) by {
                f.lemma_rounded_exact(f.unsigned(a), 1);
                assert(f.magnitude(f.unsigned(a)) * 1 == f.magnitude(f.unsigned(a)));
                f.lemma_signed(true, f.unsigned(a));
                f.lemma_signed(false, f.unsigned(a));
                f.lemma_signed(true, 0);
                f.lemma_signed(false, 0);
            }
            if f.is_finite(c) {
                f.lemma_sum_monotone(a, b, c);
            } else {
                f.lemma_bounded(f.sum(a, b));
            }
        }
    }

    /// A finite number over what exceeds every finite one is nothing.
    pub proof fn lemma_over_all(self, all: F64)
        requires
            self.finite(),
            !all.is_nan(),
            !all.finite(),
        ensures
            self.quotient(all).finite(),
            self.quotient(all).value() == 0,
    {
        reveal(F64::quotient);
        reveal(F64::value);
        let f = Format::Double;
        f.lemma_zero(1);
        f.lemma_signed(true, 0);
        f.lemma_signed(false, 0);
    }

    /// A number that exceeds every finite one, less a finite one.
    pub proof fn lemma_all_less(self, taken: F64)
        requires
            !self.is_nan(),
            !self.finite(),
            taken.finite(),
        ensures
            self.difference(taken) == self,
    {
        reveal(F64::difference);
        Format::Double.lemma_negation(taken.bits as nat);
    }

    /// What exceeds every finite number, times a number that is not below zero, added to a finite
    /// one: no number, or more than every finite one.
    pub proof fn lemma_all_times(self, share: F64, base: F64)
        requires
            !self.is_nan(),
            !self.finite(),
            0 <= self.value(),
            share.finite(),
            0 <= share.value(),
            base.finite(),
        ensures
            ({
                let sum = base.sum(self.product(share));
                sum.is_nan() || (!sum.finite() && 0 <= sum.value())
            }),
    {
        reveal(F64::product);
        reveal(F64::sum);
        reveal(F64::value);
        let f = Format::Double;
        f.lemma_zero(1);
        f.lemma_signed(true, f.infinity());
        f.lemma_signed(false, f.infinity());
    }
}

} // verus!
