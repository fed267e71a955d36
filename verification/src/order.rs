//! How rounded results order: rounding keeps the order of what it rounds, so a
//! product or a difference never lands on the wrong side of another.

use crate::float::{F32, F64};
use crate::format::{Exact, Format};
use vstd::arithmetic::power2::*;
use vstd::prelude::*;

verus! {

impl Format {
    /// Some pattern at or below `b` is nearest.
    proof fn lemma_find(self, b: nat, exact: Exact) -> (pattern: nat)
        requires
            exact.valid(),
            b <= self.infinity(),
            b == self.infinity() || self.stays(b, exact),
        ensures
            self.nearest(pattern, exact),
        decreases b,
    {
        if b == 0 || self.reaches(b, exact) {
            b
        } else {
            self.lemma_find((b - 1) as nat, exact)
        }
    }

    /// Every magnitude has a nearest pattern.
    pub proof fn lemma_nearest(self, exact: Exact)
        requires
            exact.valid(),
        ensures
            self.nearest(self.rounded(exact), exact),
            self.rounded(exact) <= self.infinity(),
    {
        let pattern = self.lemma_find(self.infinity(), exact);
        assert(self.nearest(pattern, exact));
    }

    /// Rounding keeps order.
    pub proof fn lemma_rounded_monotone(self, low: nat, high: nat, den: nat)
        requires
            den > 0,
            low <= high,
        ensures
            self.rounded(Exact::Quotient(low, den)) <= self.rounded(Exact::Quotient(high, den)),
    {
        let e1 = Exact::Quotient(low, den);
        let e2 = Exact::Quotient(high, den);
        self.lemma_nearest(e1);
        self.lemma_nearest(e2);
        let a = self.rounded(e1);
        let b = self.rounded(e2);
        if b < a {
            let under = self.magnitude((a - 1) as nat) + self.magnitude(a);
            let over = self.magnitude(b) + self.magnitude(b + 1);
            if b + 1 < a {
                self.lemma_monotone(b, (a - 1) as nat);
                self.lemma_monotone(b + 1, a);
            }
            assert(over * den <= under * den) by (nonlinear_arith)
                requires over <= under, den > 0;
            if over < under {
                assert(over * den < under * den) by (nonlinear_arith)
                    requires over < under, den > 0;
            }
        }
    }

    /// The sign of a rounded magnitude: zero exactly where the magnitude is below half of the least.
    proof fn lemma_rounded_positive(self, n: nat)
        requires
            n > 0,
        ensures
            self.rounded(Exact::Quotient(n, 1)) > 0,
            self.magnitude(self.rounded(Exact::Quotient(n, 1))) > 0,
            self.rounded(Exact::Quotient(n, 1)) <= self.infinity(),
    {
        lemma2_to64();
        self.lemma_zero(1);
        lemma_pow2_pos(self.fraction());
        lemma2_to64_rest();
        assert(pow2(self.fraction()) > 1);
        assert(1nat / pow2(self.fraction()) == 0 && 1nat % pow2(self.fraction()) == 1) by (nonlinear_arith)
            requires pow2(self.fraction()) > 1;
        assert(self.magnitude(1) == 1);
        self.lemma_rounded_exact(1, 1);
        self.lemma_rounded_monotone(1, n, 1);
        self.lemma_nearest(Exact::Quotient(n, 1));
    }

    /// A pattern and a sign make a number of that magnitude.
    pub(crate) proof fn lemma_signed(self, negative: bool, pattern: nat)
        requires
            pattern <= self.infinity(),
        ensures
            !self.is_nan(self.signed(negative, pattern)),
            self.unsigned(self.signed(negative, pattern)) == pattern,
            self.negative(self.signed(negative, pattern)) == negative,
            self.value(self.signed(negative, pattern)) == if negative {
                -(self.magnitude(pattern) as int)
            } else {
                self.magnitude(pattern) as int
            },
    {
    }

    /// The opposite number.
    pub proof fn lemma_negation(self, x: nat)
        requires
            self.holds(x),
        ensures
            self.holds(self.negation(x)),
            self.is_nan(self.negation(x)) == self.is_nan(x),
            self.is_infinite(self.negation(x)) == self.is_infinite(x),
            self.value(self.negation(x)) == -self.value(x),
            self.negation(self.negation(x)) == x,
    {
    }

    /// A finite number is smaller in magnitude than infinity.
    pub(crate) proof fn lemma_bounded(self, x: nat)
        requires
            !self.is_nan(x),
        ensures
            -(self.magnitude(self.infinity()) as int) <= self.value(x) <= self.magnitude(self.infinity()),
            self.is_finite(x) ==> -(self.magnitude(self.infinity()) as int) < self.value(x) < self.magnitude(
                self.infinity(),
            ),
    {
        if self.is_finite(x) {
            self.lemma_monotone(self.unsigned(x), self.infinity());
        }
    }

    /// A sum has the sign of the exact sum.
    pub proof fn lemma_sum_sign(self, a: nat, b: nat)
        requires
            self.holds(a),
            self.holds(b),
            !self.is_nan(a),
            !self.is_nan(b),
            !self.is_nan(self.sum(a, b)),
        ensures
            self.value(self.sum(a, b)) > 0 <==> self.value(a) + self.value(b) > 0,
            self.value(self.sum(a, b)) < 0 <==> self.value(a) + self.value(b) < 0,
            self.holds(self.sum(a, b)),
    {
        let total = self.value(a) + self.value(b);
        self.lemma_bounded(a);
        self.lemma_bounded(b);
        self.lemma_zero(1);
        assert(self.magnitude(self.infinity()) > 0);
        if self.is_infinite(a) {
        } else if self.is_infinite(b) {
        } else if total < 0 {
            let n = (-total) as nat;
            self.lemma_rounded_positive(n);
            self.lemma_signed(true, self.rounded(Exact::Quotient(n, 1)));
        } else if total > 0 {
            let n = total as nat;
            self.lemma_rounded_positive(n);
            self.lemma_signed(false, self.rounded(Exact::Quotient(n, 1)));
        }
    }

    /// The sum of the opposites is the opposite of the sum.
    pub proof fn lemma_sum_opposite(self, a: nat, b: nat)
        requires
            self.holds(a),
            self.holds(b),
        ensures
            self.is_nan(self.sum(self.negation(a), self.negation(b))) == self.is_nan(self.sum(a, b)),
            !self.is_nan(self.sum(a, b)) ==> self.value(self.sum(self.negation(a), self.negation(b))) == -self.value(
                self.sum(a, b),
            ),
    {
        let total = self.value(a) + self.value(b);
        self.lemma_zero(1);
        self.lemma_negation(a);
        self.lemma_negation(b);
        if !self.is_nan(a) && !self.is_nan(b) && !self.is_infinite(a) && !self.is_infinite(b) && total != 0 {
            let n = if total < 0 {
                (-total) as nat
            } else {
                total as nat
            };
            self.lemma_rounded_positive(n);
            self.lemma_signed(true, self.rounded(Exact::Quotient(n, 1)));
            self.lemma_signed(false, self.rounded(Exact::Quotient(n, 1)));
        }
    }

    /// A sum grows with what is added.
    pub proof fn lemma_sum_monotone(self, a: nat, b: nat, c: nat)
        requires
            self.is_finite(a),
            self.is_finite(b),
            self.is_finite(c),
            self.value(b) <= self.value(c),
        ensures
            !self.is_nan(self.sum(a, b)),
            !self.is_nan(self.sum(a, c)),
            self.value(self.sum(a, b)) <= self.value(self.sum(a, c)),
    {
        let (s, t) = (self.value(a) + self.value(b), self.value(a) + self.value(c));
        let m: nat = if s < 0 {
            (-s) as nat
        } else {
            s as nat
        };
        let n: nat = if t < 0 {
            (-t) as nat
        } else {
            t as nat
        };
        self.lemma_zero(1);
        let (x, y) = (self.rounded(Exact::Quotient(m, 1)), self.rounded(Exact::Quotient(n, 1)));
        self.lemma_nearest(Exact::Quotient(m, 1));
        self.lemma_nearest(Exact::Quotient(n, 1));
        self.lemma_signed(true, x);
        self.lemma_signed(false, x);
        self.lemma_signed(true, y);
        self.lemma_signed(false, y);
        if m <= n {
            self.lemma_rounded_monotone(m, n, 1);
            if x < y {
                self.lemma_monotone(x, y);
            }
        } else {
            self.lemma_rounded_monotone(n, m, 1);
            if y < x {
                self.lemma_monotone(y, x);
            }
        }
    }

    /// Sums commute.
    pub proof fn lemma_sum_commutes(self, a: nat, b: nat)
        requires
            self.holds(a),
            self.holds(b),
        ensures
            self.sum(a, b) == self.sum(b, a),
    {
    }

    /// Products commute.
    pub proof fn lemma_product_commutes(self, a: nat, b: nat)
        ensures
            self.product(a, b) == self.product(b, a),
    {
        assert(self.magnitude(self.unsigned(a)) * self.magnitude(self.unsigned(b)) == self.magnitude(self.unsigned(b))
            * self.magnitude(self.unsigned(a))) by (nonlinear_arith);
    }

    /// Products order as the exact products do.
    pub proof fn lemma_product_monotone(self, a: nat, b: nat, c: nat, d: nat)
        requires
            self.is_finite(a),
            self.is_finite(b),
            self.is_finite(c),
            self.is_finite(d),
            self.value(a) * self.value(b) <= self.value(c) * self.value(d),
        ensures
            !self.is_nan(self.product(a, b)),
            !self.is_nan(self.product(c, d)),
            self.value(self.product(a, b)) <= self.value(self.product(c, d)),
    {
        let s = pow2(self.scale());
        lemma_pow2_pos(self.scale());
        self.lemma_zero(s);
        let m1 = self.magnitude(self.unsigned(a)) * self.magnitude(self.unsigned(b));
        let m2 = self.magnitude(self.unsigned(c)) * self.magnitude(self.unsigned(d));
        let n1 = self.negative(a) != self.negative(b);
        let n2 = self.negative(c) != self.negative(d);
        self.lemma_product_value(a, b);
        self.lemma_product_value(c, d);
        let r1 = self.rounded(Exact::Quotient(m1, s));
        let r2 = self.rounded(Exact::Quotient(m2, s));
        if m1 <= m2 {
            self.lemma_rounded_monotone(m1, m2, s);
            if r1 < r2 {
                self.lemma_monotone(r1, r2);
            }
        } else {
            self.lemma_rounded_monotone(m2, m1, s);
            if r2 < r1 {
                self.lemma_monotone(r2, r1);
            }
        }
        if n1 && !n2 {
        } else if !n1 && n2 {
            assert(m1 == 0 && m2 == 0);
        }
    }

    /// A product of finite numbers, and the exact product.
    pub(crate) proof fn lemma_product_value(self, a: nat, b: nat)
        requires
            self.is_finite(a),
            self.is_finite(b),
        ensures
            ({
                let m = self.magnitude(self.unsigned(a)) * self.magnitude(self.unsigned(b));
                let r = self.magnitude(self.rounded(Exact::Quotient(m, pow2(self.scale()))));
                let negative = self.negative(a) != self.negative(b);
                &&& !self.is_nan(self.product(a, b))
                &&& self.holds(self.product(a, b))
                &&& self.value(self.product(a, b)) == if negative {
                    -(r as int)
                } else {
                    r as int
                }
                &&& self.value(a) * self.value(b) == if negative {
                    -(m as int)
                } else {
                    m as int
                }
            }),
    {
        let x = self.magnitude(self.unsigned(a));
        let y = self.magnitude(self.unsigned(b));
        let m = x * y;
        lemma_pow2_pos(self.scale());
        let exact = Exact::Quotient(m, pow2(self.scale()));
        self.lemma_nearest(exact);
        self.lemma_signed(self.negative(a) != self.negative(b), self.rounded(exact));
        assert((-(x as int)) * (-(y as int)) == x * y && (-(x as int)) * (y as int) == -((x * y) as int) && (x as int)
            * (-(y as int)) == -((x * y) as int)) by (nonlinear_arith);
    }
}

impl F32 {
    /// Products commute.
    pub proof fn lemma_product_commutes(self, other: F32)
        ensures
            self.product(other) == other.product(self),
    {
        reveal(F32::product);
        Format::Single.lemma_product_commutes(self.bits as nat, other.bits as nat);
    }

    /// Products of finite numbers are numbers, and order as the exact products do.
    pub proof fn lemma_product_monotone(self, b: F32, c: F32, d: F32)
        requires
            self.finite(),
            b.finite(),
            c.finite(),
            d.finite(),
            self.value() * b.value() <= c.value() * d.value(),
        ensures
            !self.product(b).is_nan(),
            !c.product(d).is_nan(),
            self.product(b).value() <= c.product(d).value(),
    {
        reveal(F32::product);
        reveal(F32::value);
        let f = Format::Single;
        f.lemma_product_monotone(self.bits as nat, b.bits as nat, c.bits as nat, d.bits as nat);
        f.lemma_product_value(self.bits as nat, b.bits as nat);
        f.lemma_product_value(c.bits as nat, d.bits as nat);
    }

    /// A whole number of at most 24 bits is held exactly.
    pub proof fn lemma_whole(n: nat)
        requires
            n < 0x100_0000,
        ensures
            Format::Single.magnitude(Format::Single.whole(n)) == n * pow2(149),
            Format::Single.whole(n) < Format::Single.infinity(),
    {
        let f = Format::Single;
        lemma2_to64();
        f.lemma_zero(1);
        if n == 0 {
            assert(0 * pow2(149) == 0);
        } else {
            let k = crate::float::lemma_bit_length(n);
            if k > 24 {
                if k > 25 {
                    lemma_pow2_strictly_increases(24, (k - 1) as nat);
                }
                assert(false);
            }
            let lift = (24 - k) as nat;
            let big = n * pow2(lift);
            let exponent = (149 - lift) as nat;
            lemma_pow2_adds((k - 1) as nat, lift);
            lemma_pow2_adds(k, lift);
            lemma_pow2_pos(lift);
            assert(pow2(23) <= big < pow2(24)) by (nonlinear_arith)
                requires
                    big == n * pow2(lift),
                    pow2((k - 1) as nat) <= n < pow2(k),
                    pow2((k - 1) as nat) * pow2(lift) == pow2(23),
                    pow2(k) * pow2(lift) == pow2(24),
                    pow2(lift) > 0;
            f.lemma_magnitude(exponent, big);
            lemma_pow2_adds(lift, exponent);
            assert(big * pow2(exponent) == n * pow2(149)) by (nonlinear_arith)
                requires big == n * pow2(lift), pow2(lift) * pow2(exponent) == pow2(149);
            let pattern = (exponent * pow2(23) + big) as nat;
            assert(exponent * pow2(23) <= 149 * pow2(23)) by (nonlinear_arith)
                requires exponent <= 149, pow2(23) >= 0;
            f.lemma_rounded_exact(pattern, 1);
            assert((n * pow2(149)) * 1 == n * pow2(149));
        }
    }

    /// A whole number under two to the power of 24, over that power: from zero up to one.
    pub proof fn lemma_share(n: nat)
        requires
            n < 0x100_0000,
        ensures
            F32::zero().at_most(F32::whole(n).quotient(F32 { bits: 0x4b80_0000 })),
            F32::whole(n).quotient(F32 { bits: 0x4b80_0000 }).below(F32::one()),
    {
        reveal(F32::quotient);
        reveal(F32::whole);
        reveal(F32::value);
        let f = Format::Single;
        let s = pow2(149);
        lemma2_to64();
        f.lemma_zero(1);
        F32::lemma_whole(n);
        lemma_pow2_pos(149);
        let by = 0x4b80_0000nat;
        let d = f.magnitude(by);
        assert(by / pow2(23) == 151 && by % pow2(23) == 0) by (nonlinear_arith)
            requires by == 0x4b80_0000, pow2(23) == 0x80_0000;
        lemma_pow2_adds(23, 150);
        lemma_pow2_adds(24, 149);
        assert(d == 0x100_0000 * s);
        let top = 0x3f7f_ffffnat;
        assert(top / pow2(23) == 126 && top % pow2(23) == 0x7f_ffff) by (nonlinear_arith)
            requires top == 0x3f7f_ffff, pow2(23) == 0x80_0000;
        let u = pow2(125);
        assert(f.magnitude(top) == 0xff_ffff * u);
        lemma_pow2_adds(125, 24);
        let low = (n * s) * s;
        let high = f.magnitude(top) * d;
        assert(low <= high) by (nonlinear_arith)
            requires
                low == (n * s) * s,
                high == (0xff_ffff * u) * (0x100_0000 * s),
                s == u * 0x100_0000,
                n <= 0xff_ffff,
                s > 0;
        f.lemma_rounded_monotone(low, high, d);
        f.lemma_rounded_exact(top, d);
        let r = f.rounded(Exact::Quotient(low, d));
        f.lemma_signed(false, r);
        f.lemma_monotone(r, 0x3f80_0000);
    }

    /// The least positive number.
    pub proof fn lemma_least(self)
        requires
            self.bits == 1,
        ensures
            self.value() == 1,
    {
        reveal(F32::value);
        lemma2_to64();
        assert(1nat / pow2(23) == 0 && 1nat % pow2(23) == 1) by (nonlinear_arith)
            requires pow2(23) > 1;
    }

    /// Nothing is above infinity.
    pub proof fn lemma_infinite(self, other: F32)
        requires
            !self.is_nan(),
            !self.finite(),
            !other.is_nan(),
            !self.negative(),
        ensures
            other.value() <= self.value(),
    {
        reveal(F32::value);
        Format::Single.lemma_bounded(other.bits as nat);
    }

    /// Positive numbers order as their bits do.
    pub proof fn lemma_order_of_bits(self, other: F32)
        requires
            self.bits < other.bits <= 0x7f80_0000,
        ensures
            self.below(other),
    {
        reveal(F32::value);
        Format::Single.lemma_monotone(self.bits as nat, other.bits as nat);
    }

    /// Twice a positive number is more.
    pub proof fn lemma_twice(self)
        requires
            self.finite(),
            self.value() > 0,
        ensures
            !self.product(F32 { bits: 0x4000_0000 }).is_nan(),
            self.product(F32 { bits: 0x4000_0000 }).value() > self.value(),
    {
        reveal(F32::product);
        reveal(F32::value);
        let f = Format::Single;
        let b = self.bits as nat;
        let two = 0x4000_0000nat;
        let s = pow2(149);
        f.lemma_zero(1);
        lemma2_to64();
        lemma_pow2_pos(149);
        assert(two / pow2(23) == 128 && two % pow2(23) == 0) by (nonlinear_arith)
            requires two == 0x4000_0000, pow2(23) == 0x80_0000;
        lemma_pow2_adds(23, 127);
        lemma_pow2_unfold(150);
        assert(f.magnitude(two) == 2 * s);
        let (k, q) = f.lemma_split(b);
        let m = f.magnitude(b);
        lemma_pow2_pos(k);
        assert(q > 0) by (nonlinear_arith)
            requires m == q * pow2(k), m > 0;
        let next = f.magnitude(b + 1);
        assert(next <= 2 * m) by (nonlinear_arith)
            requires m == q * pow2(k), next == (q + 1) * pow2(k), q > 0, pow2(k) > 0;
        assert(next * s <= m * (2 * s)) by (nonlinear_arith)
            requires next <= 2 * m, s > 0;
        f.lemma_rounded_monotone(next * s, m * (2 * s), s);
        f.lemma_rounded_exact(b + 1, s);
        f.lemma_product_value(b, two);
        let r = f.rounded(Exact::Quotient(m * (2 * s), s));
        assert(r >= b + 1);
        f.lemma_monotone(b, r);
    }

    /// A difference has the sign of the exact difference.
    pub proof fn lemma_difference_sign(self, other: F32)
        requires
            !self.is_nan(),
            !other.is_nan(),
            !self.difference(other).is_nan(),
        ensures
            self.difference(other).value() > 0 <==> self.value() > other.value(),
            self.difference(other).value() < 0 <==> self.value() < other.value(),
    {
        reveal(F32::difference);
        reveal(F32::value);
        let f = Format::Single;
        f.lemma_negation(other.bits as nat);
        f.lemma_sum_holds(self.bits as nat, f.negation(other.bits as nat));
        f.lemma_sum_sign(self.bits as nat, f.negation(other.bits as nat));
    }

    /// Taking away a number that is not negative does not make more.
    pub proof fn lemma_difference_below(self, amount: F32)
        requires
            self.finite(),
            amount.finite(),
            self.value() >= 0,
            amount.value() >= 0,
        ensures
            !self.difference(amount).is_nan(),
            self.difference(amount).value() <= self.value(),
    {
        reveal(F32::difference);
        reveal(F32::value);
        let f = Format::Single;
        let a = self.bits as nat;
        let b = f.negation(amount.bits as nat);
        f.lemma_negation(amount.bits as nat);
        f.lemma_sum_holds(a, b);
        f.lemma_zero(1);
        let total = f.value(a) + f.value(b);
        if total < 0 {
            let n = (-total) as nat;
            f.lemma_rounded_positive(n);
            f.lemma_signed(true, f.rounded(Exact::Quotient(n, 1)));
        } else if total > 0 {
            let n = total as nat;
            let m = f.magnitude(f.unsigned(a));
            f.lemma_rounded_positive(n);
            f.lemma_signed(false, f.rounded(Exact::Quotient(n, 1)));
            f.lemma_rounded_monotone(n, m, 1);
            f.lemma_rounded_exact(f.unsigned(a), 1);
            assert(m * 1 == m);
            let r = f.rounded(Exact::Quotient(n, 1));
            if r < f.unsigned(a) {
                f.lemma_monotone(r, f.unsigned(a));
            }
        }
    }

    /// A difference of nothing, of a number that is not negative, is not the negative zero.
    pub proof fn lemma_naught_difference(self, other: F32)
        requires
            self.finite(),
            !self.negative(),
            other.finite(),
            self.value() == other.value(),
        ensures
            self.difference(other) == F32::zero(),
    {
        reveal(F32::difference);
        reveal(F32::value);
        let f = Format::Single;
        f.lemma_negation(other.bits as nat);
    }

    /// The difference the other way round is the opposite number.
    pub proof fn lemma_difference_opposite(self, other: F32)
        ensures
            self.difference(other).is_nan() == other.difference(self).is_nan(),
            !self.difference(other).is_nan() ==> other.difference(self).value() == -self.difference(other).value(),
    {
        reveal(F32::difference);
        reveal(F32::value);
        let f = Format::Single;
        let a = self.bits as nat;
        let b = other.bits as nat;
        f.lemma_negation(a);
        f.lemma_negation(b);
        f.lemma_sum_holds(a, f.negation(b));
        f.lemma_sum_holds(b, f.negation(a));
        f.lemma_sum_opposite(a, f.negation(b));
        f.lemma_sum_commutes(f.negation(a), b);
    }
}

impl F32 {
    /// A number between zero and a finite one is finite.
    pub proof fn lemma_between(self, other: F32)
        requires
            !self.is_nan(),
            other.finite(),
            0 <= self.value() <= other.value() || other.value() <= self.value() <= 0,
        ensures
            self.finite(),
    {
        reveal(F32::value);
        let f = Format::Single;
        f.lemma_bounded(other.bits as nat);
    }

    /// A sum grows with what is added.
    pub proof fn lemma_sum_monotone(self, b: F32, c: F32)
        requires
            self.finite(),
            b.finite(),
            c.finite(),
            b.value() <= c.value(),
        ensures
            self.sum(b).at_most(self.sum(c)),
    {
        reveal(F32::sum);
        reveal(F32::value);
        let f = Format::Single;
        f.lemma_sum_monotone(self.bits as nat, b.bits as nat, c.bits as nat);
        f.lemma_sum_holds(self.bits as nat, b.bits as nat);
        f.lemma_sum_holds(self.bits as nat, c.bits as nat);
    }

    /// Once a number is the number.
    pub proof fn lemma_product_one(self)
        requires
            self.finite(),
            !self.negative(),
        ensures
            self.product(F32::one()) == self,
    {
        reveal(F32::product);
        let f = Format::Single;
        let a = self.bits as nat;
        let one = 0x3f80_0000nat;
        lemma2_to64();
        assert(one / pow2(23) == 127 && one % pow2(23) == 0) by (nonlinear_arith)
            requires one == 0x3f80_0000, pow2(23) == 0x80_0000;
        lemma_pow2_adds(23, 126);
        lemma_pow2_pos(149);
        f.lemma_rounded_exact(f.unsigned(a), pow2(149));
    }

    /// Adding nothing of a number leaves the value as it is.
    pub proof fn lemma_weightless(self, lead: F32)
        requires
            self.finite(),
            lead.finite(),
        ensures
            self.sum(F32::zero().product(lead)).equals(self),
    {
        reveal(F32::sum);
        reveal(F32::product);
        reveal(F32::value);
        let f = Format::Single;
        let a = self.bits as nat;
        lemma_pow2_pos(f.scale());
        f.lemma_zero(pow2(f.scale()));
        f.lemma_zero(1);
        let m = f.magnitude(f.unsigned(lead.bits as nat));
        assert(f.magnitude(0) * m == 0) by (nonlinear_arith)
            requires f.magnitude(0) == 0;
        if f.value(a) != 0 {
            f.lemma_rounded_exact(f.unsigned(a), 1);
            assert(f.magnitude(f.unsigned(a)) * 1 == f.magnitude(f.unsigned(a)));
        }
    }
}

impl F64 {
    /// A number that is not the negative zero keeps its bits when zero is added.
    pub proof fn lemma_sum_zero(self)
        requires
            !self.is_nan(),
            !self.negative(),
        ensures
            self.sum(F64::zero()) == self,
    {
        reveal(F64::sum);
        let f = Format::Double;
        let a = self.bits as nat;
        f.lemma_zero(1);
        if f.is_finite(a) && f.value(a) != 0 {
            f.lemma_rounded_exact(a, 1);
            assert(f.magnitude(a) * 1 == f.magnitude(a));
        }
    }

    /// A sum has the sign of the exact sum.
    pub proof fn lemma_sum_sign(self, other: F64)
        requires
            !self.is_nan(),
            !other.is_nan(),
            !self.sum(other).is_nan(),
        ensures
            self.sum(other).value() > 0 <==> self.value() + other.value() > 0,
            self.sum(other).value() < 0 <==> self.value() + other.value() < 0,
    {
        reveal(F64::sum);
        reveal(F64::value);
        let f = Format::Double;
        f.lemma_sum_holds(self.bits as nat, other.bits as nat);
        f.lemma_sum_sign(self.bits as nat, other.bits as nat);
    }

    /// A difference has the sign of the exact difference.
    pub proof fn lemma_difference_sign(self, other: F64)
        requires
            !self.is_nan(),
            !other.is_nan(),
            !self.difference(other).is_nan(),
        ensures
            self.difference(other).value() > 0 <==> self.value() > other.value(),
            self.difference(other).value() < 0 <==> self.value() < other.value(),
    {
        reveal(F64::difference);
        reveal(F64::value);
        let f = Format::Double;
        f.lemma_negation(other.bits as nat);
        f.lemma_sum_holds(self.bits as nat, f.negation(other.bits as nat));
        f.lemma_sum_sign(self.bits as nat, f.negation(other.bits as nat));
    }

    /// Numbers that are not below zero have a sum.
    pub proof fn lemma_sum_number(self, other: F64)
        requires
            !self.is_nan(),
            !other.is_nan(),
            self.value() >= 0,
            other.value() >= 0,
        ensures
            !self.sum(other).is_nan(),
    {
        reveal(F64::sum);
        reveal(F64::value);
        let f = Format::Double;
        let a = self.bits as nat;
        let b = other.bits as nat;
        f.lemma_zero(1);
        f.lemma_sum_holds(a, b);
        let total = f.value(a) + f.value(b);
        if total > 0 {
            f.lemma_nearest(Exact::Quotient(total as nat, 1));
        }
    }

    /// A sum whose exact value reaches a number reaches it when rounded.
    pub proof fn lemma_sum_reaches(self, other: F64, bound: F64)
        requires
            !self.is_nan(),
            !other.is_nan(),
            !self.sum(other).is_nan(),
            bound.finite(),
            0 < bound.value() <= self.value() + other.value(),
        ensures
            bound.value() <= self.sum(other).value(),
    {
        reveal(F64::sum);
        reveal(F64::value);
        let f = Format::Double;
        let a = self.bits as nat;
        let b = other.bits as nat;
        let p = bound.bits as nat;
        f.lemma_zero(1);
        f.lemma_bounded(p);
        f.lemma_bounded(a);
        f.lemma_bounded(b);
        f.lemma_sum_holds(a, b);
        if f.is_finite(a) && f.is_finite(b) {
            let n = (f.value(a) + f.value(b)) as nat;
            f.lemma_rounded_exact(p, 1);
            assert(f.magnitude(p) * 1 == f.magnitude(p));
            f.lemma_rounded_monotone(f.magnitude(p), n, 1);
            f.lemma_nearest(Exact::Quotient(n, 1));
            let r = f.rounded(Exact::Quotient(n, 1));
            f.lemma_signed(false, r);
            if p < r {
                f.lemma_monotone(p, r);
            }
        }
    }

    /// The same of a difference.
    pub proof fn lemma_difference_reaches(self, other: F64, bound: F64)
        requires
            !self.is_nan(),
            !other.is_nan(),
            !self.difference(other).is_nan(),
            bound.finite(),
            0 < bound.value() <= self.value() - other.value(),
        ensures
            bound.value() <= self.difference(other).value(),
    {
        reveal(F64::difference);
        reveal(F64::sum);
        reveal(F64::value);
        let f = Format::Double;
        f.lemma_negation(other.bits as nat);
        let opposite = F64 { bits: f.negation(other.bits as nat) as u64 };
        f.lemma_sum_holds(self.bits as nat, opposite.bits as nat);
        assert(self.difference(other) == self.sum(opposite));
        self.lemma_sum_reaches(opposite, bound);
    }

    /// What reaches the least single in double precision is above zero in single.
    pub proof fn lemma_halved_positive(self)
        requires
            !self.is_nan(),
            pow2(925) <= self.value(),
        ensures
            F32::zero().below(self.halved()),
    {
        reveal(F64::halved);
        reveal(F64::value);
        reveal(F32::value);
        let f = Format::Double;
        let g = Format::Single;
        let x = self.bits as nat;
        f.lemma_zero(1);
        let d = pow2(925);
        lemma_pow2_pos(925);
        g.lemma_zero(d);
        lemma2_to64();
        assert(1nat / pow2(23) == 0 && 1nat % pow2(23) == 1) by (nonlinear_arith)
            requires pow2(23) > 1;
        if f.is_finite(x) {
            let m = f.magnitude(f.unsigned(x));
            g.lemma_rounded_exact(1, d);
            assert(1 * d == d);
            g.lemma_rounded_monotone(d, m, d);
            g.lemma_nearest(Exact::Quotient(m, d));
            g.lemma_signed(false, g.rounded(Exact::Quotient(m, d)));
        } else {
            g.lemma_signed(false, g.infinity());
        }
    }

    /// Between zero and a finite number everything is finite.
    pub proof fn lemma_under(self, other: F64)
        requires
            !self.is_nan(),
            other.finite(),
            0 <= self.value() < other.value(),
        ensures
            self.finite(),
    {
        reveal(F64::value);
        let f = Format::Double;
        f.lemma_zero(1);
        f.lemma_bounded(other.bits as nat);
    }

    /// A difference of finite numbers is a number.
    pub proof fn lemma_difference_finite(self, other: F64)
        requires
            self.finite(),
            other.finite(),
        ensures
            !self.difference(other).is_nan(),
    {
        reveal(F64::difference);
        let f = Format::Double;
        let a = self.bits as nat;
        let b = f.negation(other.bits as nat);
        f.lemma_negation(other.bits as nat);
        f.lemma_sum_holds(a, b);
        let total = f.value(a) + f.value(b);
        if total < 0 {
            f.lemma_nearest(Exact::Quotient((-total) as nat, 1));
        } else if total > 0 {
            f.lemma_nearest(Exact::Quotient(total as nat, 1));
        }
    }

    /// Taking away a number that is not negative does not make more.
    pub proof fn lemma_difference_below(self, amount: F64)
        requires
            self.finite(),
            amount.finite(),
            self.value() >= 0,
            amount.value() >= 0,
        ensures
            !self.difference(amount).is_nan(),
            self.difference(amount).value() <= self.value(),
    {
        reveal(F64::difference);
        reveal(F64::value);
        let f = Format::Double;
        let a = self.bits as nat;
        let b = f.negation(amount.bits as nat);
        f.lemma_negation(amount.bits as nat);
        f.lemma_sum_holds(a, b);
        f.lemma_zero(1);
        let total = f.value(a) + f.value(b);
        if total < 0 {
            let n = (-total) as nat;
            f.lemma_rounded_positive(n);
            f.lemma_signed(true, f.rounded(Exact::Quotient(n, 1)));
        } else if total > 0 {
            let n = total as nat;
            let m = f.magnitude(f.unsigned(a));
            f.lemma_rounded_positive(n);
            f.lemma_signed(false, f.rounded(Exact::Quotient(n, 1)));
            f.lemma_rounded_monotone(n, m, 1);
            f.lemma_rounded_exact(f.unsigned(a), 1);
            assert(m * 1 == m);
            let r = f.rounded(Exact::Quotient(n, 1));
            if r < f.unsigned(a) {
                f.lemma_monotone(r, f.unsigned(a));
            }
        }
    }

    /// A number in double precision is one in single.
    pub proof fn lemma_halved_number(self)
        requires
            !self.is_nan(),
        ensures
            !self.halved().is_nan(),
    {
        reveal(F64::halved);
        let f = Format::Double;
        let g = Format::Single;
        let x = self.bits as nat;
        lemma_pow2_pos(925);
        if f.is_finite(x) {
            let m = f.magnitude(f.unsigned(x));
            g.lemma_nearest(Exact::Quotient(m, pow2(925)));
            g.lemma_signed(f.negative(x), g.rounded(Exact::Quotient(m, pow2(925))));
        } else {
            g.lemma_signed(f.negative(x), g.infinity());
        }
    }

    /// What is not above zero in double precision is not above zero in single.
    pub proof fn lemma_halved_sign(self)
        requires
            !self.is_nan(),
            self.value() <= 0,
        ensures
            !F32::zero().below(self.halved()),
    {
        reveal(F64::halved);
        reveal(F64::value);
        reveal(F32::value);
        let f = Format::Double;
        let g = Format::Single;
        let x = self.bits as nat;
        f.lemma_zero(1);
        lemma_pow2_pos(925);
        g.lemma_zero(pow2(925));
        if f.is_finite(x) {
            let m = f.magnitude(f.unsigned(x));
            g.lemma_nearest(Exact::Quotient(m, pow2(925)));
            g.lemma_signed(f.negative(x), g.rounded(Exact::Quotient(m, pow2(925))));
        } else {
            g.lemma_signed(f.negative(x), g.infinity());
        }
    }

    /// Zero times a number that is neither negative nor infinite.
    pub proof fn lemma_product_zero(self)
        requires
            self.finite(),
            !self.negative(),
        ensures
            self.product(F64::zero()) == F64::zero(),
    {
        reveal(F64::product);
        let f = Format::Double;
        lemma_pow2_pos(f.scale());
        f.lemma_zero(pow2(f.scale()));
        let m = f.magnitude(f.unsigned(self.bits as nat));
        assert(m * f.magnitude(0) == 0) by (nonlinear_arith)
            requires f.magnitude(0) == 0;
    }

    /// Numbers that are not negative add up to one that is not.
    pub proof fn lemma_sum_nonnegative(self, other: F64)
        requires
            !self.is_nan(),
            !self.negative(),
            !other.is_nan(),
            !other.negative(),
        ensures
            !self.sum(other).is_nan(),
            !self.sum(other).negative(),
    {
        reveal(F64::sum);
        let f = Format::Double;
        let a = self.bits as nat;
        let b = other.bits as nat;
        let total = f.value(a) + f.value(b);
        if total > 0 {
            f.lemma_nearest(Exact::Quotient(total as nat, 1));
        }
    }

    /// Finite numbers that are not negative multiply to one that is not.
    pub proof fn lemma_product_nonnegative(self, other: F64)
        requires
            self.finite(),
            !self.negative(),
            other.finite(),
            !other.negative(),
        ensures
            !self.product(other).is_nan(),
            !self.product(other).negative(),
    {
        reveal(F64::product);
        let f = Format::Double;
        f.lemma_product_value(self.bits as nat, other.bits as nat);
        lemma_pow2_pos(f.scale());
        f.lemma_nearest(
            Exact::Quotient(
                f.magnitude(f.unsigned(self.bits as nat)) * f.magnitude(f.unsigned(other.bits as nat)),
                pow2(f.scale()),
            ),
        );
    }

    /// A difference of numbers in order is not negative, and finite where they are near.
    pub proof fn lemma_difference_nonnegative(self, other: F64)
        requires
            !self.is_nan(),
            !other.is_nan(),
            other.value() < self.value(),
            !self.difference(other).is_nan(),
        ensures
            !self.difference(other).negative(),
            self.difference(other).value() > 0,
    {
        reveal(F64::difference);
        reveal(F64::value);
        let f = Format::Double;
        let a = self.bits as nat;
        let b = f.negation(other.bits as nat);
        f.lemma_negation(other.bits as nat);
        f.lemma_sum_holds(a, b);
        f.lemma_sum_sign(a, b);
        f.lemma_zero(1);
    }

    /// Products commute.
    pub proof fn lemma_product_commutes(self, other: F64)
        ensures
            self.product(other) == other.product(self),
    {
        reveal(F64::product);
        Format::Double.lemma_product_commutes(self.bits as nat, other.bits as nat);
    }

    /// The difference the other way round is the opposite number.
    pub proof fn lemma_difference_opposite(self, other: F64)
        ensures
            self.difference(other).is_nan() == other.difference(self).is_nan(),
            !self.difference(other).is_nan() ==> other.difference(self).value() == -self.difference(other).value(),
    {
        reveal(F64::difference);
        reveal(F64::value);
        let f = Format::Double;
        let a = self.bits as nat;
        let b = other.bits as nat;
        f.lemma_negation(a);
        f.lemma_negation(b);
        f.lemma_sum_holds(a, f.negation(b));
        f.lemma_sum_holds(b, f.negation(a));
        f.lemma_sum_opposite(a, f.negation(b));
        f.lemma_sum_commutes(f.negation(a), b);
    }
}

impl Format {
    /// A sum is a pattern of the format.
    pub(crate) proof fn lemma_sum_holds(self, a: nat, b: nat)
        requires
            self.holds(a),
            self.holds(b),
        ensures
            self.holds(self.sum(a, b)),
    {
        let total = self.value(a) + self.value(b);
        if total < 0 {
            self.lemma_nearest(Exact::Quotient((-total) as nat, 1));
        } else if total > 0 {
            self.lemma_nearest(Exact::Quotient(total as nat, 1));
        }
    }
}

} // verus!
