//! The arithmetic of a [`Format`]: sums, products, quotients and square roots of
//! signed bit patterns, each the exact result rounded once to nearest.

use crate::format::{bit_length, power, Exact, Format};
use vstd::arithmetic::power2::*;
use vstd::prelude::*;

verus! {

impl Format {
    /// The weight of the sign bit.
    pub open spec fn sign_bit(self) -> nat {
        match self {
            Format::Single => 0x8000_0000,
            Format::Double => 0x8000_0000_0000_0000,
        }
    }

    /// The pattern every invalid operation yields.
    pub open spec fn quiet_nan(self) -> nat {
        match self {
            Format::Single => 0x7fc0_0000,
            Format::Double => 0x7ff8_0000_0000_0000,
        }
    }

    /// `x` is a bit pattern of the format.
    pub open spec fn holds(self, x: nat) -> bool {
        x < 2 * self.sign_bit()
    }

    pub open spec fn negative(self, x: nat) -> bool {
        x >= self.sign_bit()
    }

    /// The pattern without its sign.
    pub open spec fn unsigned(self, x: nat) -> nat {
        if self.negative(x) {
            (x - self.sign_bit()) as nat
        } else {
            x
        }
    }

    pub open spec fn signed(self, negative: bool, pattern: nat) -> nat {
        if negative {
            self.sign_bit() + pattern
        } else {
            pattern
        }
    }

    pub open spec fn is_nan(self, x: nat) -> bool {
        self.unsigned(x) > self.infinity()
    }

    pub open spec fn is_infinite(self, x: nat) -> bool {
        self.unsigned(x) == self.infinity()
    }

    pub open spec fn is_finite(self, x: nat) -> bool {
        self.unsigned(x) < self.infinity()
    }

    pub open spec fn is_zero(self, x: nat) -> bool {
        self.unsigned(x) == 0
    }

    /// The signed value, counted in least positive magnitudes.
    pub open spec fn value(self, x: nat) -> int {
        if self.negative(x) {
            -(self.magnitude(self.unsigned(x)) as int)
        } else {
            self.magnitude(self.unsigned(x)) as int
        }
    }

    /// The pattern of a sum.
    pub open spec fn sum(self, a: nat, b: nat) -> nat {
        let total = self.value(a) + self.value(b);
        if self.is_nan(a) || self.is_nan(b) {
            self.quiet_nan()
        } else if self.is_infinite(a) {
            if self.is_infinite(b) && self.negative(a) != self.negative(b) {
                self.quiet_nan()
            } else {
                a
            }
        } else if self.is_infinite(b) {
            b
        } else if total == 0 {
            self.signed(self.negative(a) && self.negative(b), 0)
        } else if total < 0 {
            self.signed(true, self.rounded(Exact::Quotient((-total) as nat, 1)))
        } else {
            self.rounded(Exact::Quotient(total as nat, 1))
        }
    }

    /// The pattern with the opposite sign.
    pub open spec fn negation(self, x: nat) -> nat {
        self.signed(!self.negative(x), self.unsigned(x))
    }

    /// The pattern of a difference.
    pub open spec fn difference(self, a: nat, b: nat) -> nat {
        self.sum(a, self.negation(b))
    }

    /// The pattern of a product.
    pub open spec fn product(self, a: nat, b: nat) -> nat {
        let negative = self.negative(a) != self.negative(b);
        if self.is_nan(a) || self.is_nan(b) {
            self.quiet_nan()
        } else if self.is_infinite(a) || self.is_infinite(b) {
            if self.is_zero(a) || self.is_zero(b) {
                self.quiet_nan()
            } else {
                self.signed(negative, self.infinity())
            }
        } else {
            self.signed(
                negative,
                self.rounded(
                    Exact::Quotient(
                        self.magnitude(self.unsigned(a)) * self.magnitude(self.unsigned(b)),
                        pow2(self.scale()),
                    ),
                ),
            )
        }
    }

    /// The pattern of a quotient.
    pub open spec fn quotient(self, a: nat, b: nat) -> nat {
        let negative = self.negative(a) != self.negative(b);
        if self.is_nan(a) || self.is_nan(b) {
            self.quiet_nan()
        } else if self.is_infinite(a) {
            if self.is_infinite(b) {
                self.quiet_nan()
            } else {
                self.signed(negative, self.infinity())
            }
        } else if self.is_infinite(b) {
            self.signed(negative, 0)
        } else if self.is_zero(b) {
            if self.is_zero(a) {
                self.quiet_nan()
            } else {
                self.signed(negative, self.infinity())
            }
        } else {
            self.signed(
                negative,
                self.rounded(
                    Exact::Quotient(
                        self.magnitude(self.unsigned(a)) * pow2(self.scale()),
                        self.magnitude(self.unsigned(b)),
                    ),
                ),
            )
        }
    }

    /// The pattern of a square root.
    pub open spec fn root(self, x: nat) -> nat {
        if self.is_nan(x) {
            self.quiet_nan()
        } else if self.is_zero(x) {
            x
        } else if self.negative(x) {
            self.quiet_nan()
        } else if self.is_infinite(x) {
            x
        } else {
            self.rounded(Exact::Root(self.magnitude(x) * pow2(self.scale())))
        }
    }

    /// `a < b` as numbers; never where either is not a number.
    pub open spec fn below(self, a: nat, b: nat) -> bool {
        !self.is_nan(a) && !self.is_nan(b) && self.value(a) < self.value(b)
    }

    /// `a == b` as numbers; never where either is not a number.
    pub open spec fn equal(self, a: nat, b: nat) -> bool {
        !self.is_nan(a) && !self.is_nan(b) && self.value(a) == self.value(b)
    }

    /// The same number in the other format, rounded where that one is narrower.
    pub open spec fn converted(self, x: nat) -> nat {
        let negative = self.negative(x);
        let m = self.magnitude(self.unsigned(x));
        match self {
            Format::Single => if self.is_nan(x) {
                Format::Double.quiet_nan()
            } else if self.is_infinite(x) {
                Format::Double.signed(negative, Format::Double.infinity())
            } else {
                Format::Double.signed(negative, Format::Double.rounded(Exact::Quotient(m * pow2(925), 1)))
            },
            Format::Double => if self.is_nan(x) {
                Format::Single.quiet_nan()
            } else if self.is_infinite(x) {
                Format::Single.signed(negative, Format::Single.infinity())
            } else {
                Format::Single.signed(negative, Format::Single.rounded(Exact::Quotient(m, pow2(925))))
            },
        }
    }

    /// The pattern of a whole number.
    pub open spec fn whole(self, n: nat) -> nat {
        self.rounded(Exact::Quotient(n * pow2(self.scale()), 1))
    }

    pub(crate) proof fn lemma_zero(self, den: nat)
        requires
            den > 0,
        ensures
            self.magnitude(0) == 0,
            self.rounded(Exact::Quotient(0, den)) == 0,
            forall|b: nat| b > 0 ==> #[trigger] self.magnitude(b) > 0,
    {
        lemma_pow2_pos(self.fraction());
        assert(0nat / pow2(self.fraction()) == 0 && 0nat % pow2(self.fraction()) == 0) by (nonlinear_arith)
            requires pow2(self.fraction()) > 0;
        assert(self.magnitude(0) == 0);
        self.lemma_rounded_exact(0, den);
        assert forall|b: nat| b > 0 implies #[trigger] self.magnitude(b) > 0 by {
            self.lemma_monotone(0, b);
        }
    }

    fn sign_weight(self) -> (weight: u64)
        ensures
            weight == self.sign_bit(),
    {
        match self {
            Format::Single => 0x8000_0000,
            Format::Double => 0x8000_0000_0000_0000,
        }
    }

    fn quiet_nan_bits(self) -> (bits: u64)
        ensures
            bits == self.quiet_nan(),
    {
        match self {
            Format::Single => 0x7fc0_0000,
            Format::Double => 0x7ff8_0000_0000_0000,
        }
    }

    fn is_negative(self, x: u64) -> (negative: bool)
        ensures
            negative == self.negative(x as nat),
    {
        x >= self.sign_weight()
    }

    fn without_sign(self, x: u64) -> (pattern: u64)
        ensures
            pattern == self.unsigned(x as nat),
    {
        let weight: u64 = self.sign_weight();
        if x >= weight {
            x - weight
        } else {
            x
        }
    }

    fn with_sign(self, negative: bool, pattern: u64) -> (x: u64)
        requires
            pattern < self.sign_bit(),
        ensures
            x == self.signed(negative, pattern as nat),
            self.holds(x as nat),
    {
        if negative {
            self.sign_weight() + pattern
        } else {
            pattern
        }
    }

    /// The sum of two finite magnitudes.
    fn add_magnitudes(self, a: u64, b: u64) -> (pattern: u64)
        requires
            a < self.infinity(),
            b < self.infinity(),
            a > 0 || b > 0,
        ensures
            pattern == self.rounded(
                Exact::Quotient(self.magnitude(a as nat) + self.magnitude(b as nat), 1),
            ),
            pattern <= self.infinity(),
    {
        let (sa, ea) = self.unpack(a);
        let (sb, eb) = self.unpack(b);
        let ghost exact = Exact::Quotient(self.magnitude(a as nat) + self.magnitude(b as nat), 1);
        if ea >= eb {
            self.add_aligned(sa, ea, sb, eb, Ghost(exact))
        } else {
            self.add_aligned(sb, eb, sa, ea, Ghost(exact))
        }
    }

    fn add_aligned(self, s1: u128, e1: u32, s2: u128, e2: u32, Ghost(exact): Ghost<Exact>) -> (pattern: u64)
        requires
            e2 <= e1 < 2046,
            s1 < 0x20_0000_0000_0000,
            s2 < 0x20_0000_0000_0000,
            s1 > 0 || s2 > 0,
            e1 == 0 || s1 >= pow2(self.fraction()),
            exact == Exact::Quotient((s1 * pow2(e1 as nat) + s2 * pow2(e2 as nat)) as nat, 1),
        ensures
            pattern == self.rounded(exact),
            pattern <= self.infinity(),
    {
        let d: u32 = e1 - e2;
        proof {
            lemma2_to64();
            lemma2_to64_rest();
            lemma_pow2_adds(64, 62);
            lemma_pow2_adds(e2 as nat, d as nat);
            lemma_pow2_unfold(64);
        }
        let ghost p2 = pow2(e2 as nat);
        let ghost pd = pow2(d as nat);
        if d <= 64 {
            proof {
                if d < 64 {
                    lemma_pow2_strictly_increases(d as nat, 64);
                }
                lemma_pow2_pos(d as nat);
                assert(s1 * pd <= 0x20_0000_0000_0000 * 0x1_0000_0000_0000_0000) by (nonlinear_arith)
                    requires s1 < 0x20_0000_0000_0000, pd <= 0x1_0000_0000_0000_0000;
                assert(s1 > 0 ==> s1 * pd > 0) by (nonlinear_arith)
                    requires pd > 0;
                assert((s1 * pd + s2) * (1 * p2) == s1 * (p2 * pd) + s2 * p2) by (nonlinear_arith);
            }
            let sig: u128 = s1 * power(d) + s2;
            self.round(sig, false, e2, 0, Ghost(exact))
        } else {
            let g: u32 = d - 64;
            let ghost pg = pow2(g as nat);
            let (high, dropped) = split(s2, g);
            proof {
                lemma_pow2_adds(64, g as nat);
                lemma_pow2_adds(e2 as nat, g as nat);
                lemma_pow2_strictly_increases(self.fraction(), self.fraction() + 2);
                lemma_pow2_adds(2, self.fraction());
                let h = 0x1_0000_0000_0000_0000int;
                let t = high as int;
                let r = s2 - t * pg;
                let low = s1 * h + t;
                // x = (s1 * h * pg + s2) * p2, the unit is p2 * pg
                assert(s1 * (p2 * (h * pg)) + s2 * p2 == low * (p2 * pg) + r * p2) by (nonlinear_arith)
                    requires low == s1 * h + t, r == s2 - t * pg;
                lemma_pow2_pos(e2 as nat);
                assert(0 <= r * p2 && (r > 0 ==> r * p2 > 0) && r * p2 < p2 * pg && (r == 0 ==> r * p2 == 0))
                    by (nonlinear_arith)
                    requires 0 <= r < pg, p2 > 0;
                assert((low + 1) * (p2 * pg) == low * (p2 * pg) + p2 * pg) by (nonlinear_arith);
            }
            let sig: u128 = s1 * power(64) + high;
            self.round(sig, dropped, e1 - 64, 0, Ghost(exact))
        }
    }

    /// The difference of two finite magnitudes, the first one larger.
    fn subtract_magnitudes(self, a: u64, b: u64) -> (pattern: u64)
        requires
            b < a < self.infinity(),
        ensures
            pattern == self.rounded(
                Exact::Quotient((self.magnitude(a as nat) - self.magnitude(b as nat)) as nat, 1),
            ),
            pattern <= self.infinity(),
    {
        let (s1, e1) = self.unpack(a);
        let (s2, e2) = self.unpack(b);
        let ghost exact = Exact::Quotient((self.magnitude(a as nat) - self.magnitude(b as nat)) as nat, 1);
        proof {
            self.lemma_monotone(b as nat, a as nat);
            if e1 < e2 {
                let g = (e2 - e1 - 1) as nat;
                lemma_pow2_adds(e1 as nat, g + 1);
                lemma_pow2_unfold(g + 1);
                lemma_pow2_pos(g);
                lemma_pow2_pos(e1 as nat);
                lemma_pow2_unfold(self.fraction() + 1);
                let w = pow2(self.fraction());
                let p1 = pow2(e1 as nat);
                let pg = pow2(g);
                assert(s1 * p1 < s2 * (p1 * (2 * pg))) by (nonlinear_arith)
                    requires s1 < 2 * w, s2 >= w, p1 > 0, pg >= 1, w >= 0;
                assert(false);
            }
            lemma2_to64();
            lemma2_to64_rest();
            lemma_pow2_adds(64, 62);
            lemma_pow2_adds(e2 as nat, (e1 - e2) as nat);
            lemma_pow2_unfold(64);
        }
        let d: u32 = e1 - e2;
        let ghost p2 = pow2(e2 as nat);
        let ghost pd = pow2(d as nat);
        if d <= 64 {
            proof {
                if d < 64 {
                    lemma_pow2_strictly_increases(d as nat, 64);
                }
                lemma_pow2_pos(d as nat);
                lemma_pow2_pos(e2 as nat);
                assert(s1 * pd <= 0x20_0000_0000_0000 * 0x1_0000_0000_0000_0000) by (nonlinear_arith)
                    requires s1 < 0x20_0000_0000_0000, pd <= 0x1_0000_0000_0000_0000;
                assert((s1 * pd - s2) * (1 * p2) == s1 * (p2 * pd) - s2 * p2) by (nonlinear_arith);
                assert(s1 * pd > s2) by (nonlinear_arith)
                    requires (s1 * pd - s2) * (1 * p2) > 0, p2 > 0;
            }
            let sig: u128 = s1 * power(d) - s2;
            self.round(sig, false, e2, 0, Ghost(exact))
        } else {
            let g: u32 = d - 64;
            let ghost pg = pow2(g as nat);
            let (high, dropped) = split(s2, g);
            proof {
                lemma_pow2_adds(64, g as nat);
                lemma_pow2_adds(e2 as nat, g as nat);
                lemma_pow2_adds(2, self.fraction());
                let h = 0x1_0000_0000_0000_0000int;
                let t = high as int;
                let r = s2 - t * pg;
                let low = s1 * h - t;
                assert(s1 * (p2 * (h * pg)) - s2 * p2 == low * (p2 * pg) - r * p2) by (nonlinear_arith)
                    requires low == s1 * h - t, r == s2 - t * pg;
                lemma_pow2_pos(e2 as nat);
                assert(0 <= r * p2 && (r > 0 ==> r * p2 > 0) && r * p2 < p2 * pg && (r == 0 ==> r * p2 == 0))
                    by (nonlinear_arith)
                    requires 0 <= r < pg, p2 > 0;
                assert((low - 1) * (p2 * pg) == low * (p2 * pg) - p2 * pg) by (nonlinear_arith);
            }
            let base: u128 = s1 * power(64) - high;
            let sig: u128 = if dropped { base - 1 } else { base };
            self.round(sig, dropped, e1 - 64, 0, Ghost(exact))
        }
    }

    /// `a + b`.
    pub fn plus(self, a: u64, b: u64) -> (x: u64)
        requires
            self.holds(a as nat),
            self.holds(b as nat),
        ensures
            x == self.sum(a as nat, b as nat),
            self.holds(x as nat),
    {
        let infinity: u64 = self.infinity_bits();
        let ma: u64 = self.without_sign(a);
        let mb: u64 = self.without_sign(b);
        let na: bool = self.is_negative(a);
        let nb: bool = self.is_negative(b);
        proof {
            self.lemma_zero(1);
            if ma < mb {
                self.lemma_monotone(ma as nat, mb as nat);
            } else if mb < ma {
                self.lemma_monotone(mb as nat, ma as nat);
            }
        }
        if ma > infinity || mb > infinity {
            self.quiet_nan_bits()
        } else if ma == infinity {
            if mb == infinity && na != nb {
                self.quiet_nan_bits()
            } else {
                a
            }
        } else if mb == infinity {
            b
        } else if na == nb {
            if ma == 0 && mb == 0 {
                self.with_sign(na, 0)
            } else {
                self.with_sign(na, self.add_magnitudes(ma, mb))
            }
        } else if ma == mb {
            0
        } else if ma > mb {
            self.with_sign(na, self.subtract_magnitudes(ma, mb))
        } else {
            self.with_sign(nb, self.subtract_magnitudes(mb, ma))
        }
    }

    /// `-x`.
    pub fn negate(self, x: u64) -> (y: u64)
        requires
            self.holds(x as nat),
        ensures
            y == self.negation(x as nat),
            self.holds(y as nat),
    {
        self.with_sign(!self.is_negative(x), self.without_sign(x))
    }

    /// `a * b`.
    pub fn times(self, a: u64, b: u64) -> (x: u64)
        requires
            self.holds(a as nat),
            self.holds(b as nat),
        ensures
            x == self.product(a as nat, b as nat),
            self.holds(x as nat),
    {
        let infinity: u64 = self.infinity_bits();
        let ma: u64 = self.without_sign(a);
        let mb: u64 = self.without_sign(b);
        let negative: bool = self.is_negative(a) != self.is_negative(b);
        proof {
            lemma_pow2_pos(self.scale());
            self.lemma_zero(pow2(self.scale()));
        }
        if ma > infinity || mb > infinity {
            self.quiet_nan_bits()
        } else if ma == infinity || mb == infinity {
            if ma == 0 || mb == 0 {
                self.quiet_nan_bits()
            } else {
                self.with_sign(negative, infinity)
            }
        } else if ma == 0 || mb == 0 {
            proof {
                assert(self.magnitude(ma as nat) * self.magnitude(mb as nat) == 0) by (nonlinear_arith)
                    requires self.magnitude(ma as nat) == 0 || self.magnitude(mb as nat) == 0;
            }
            self.with_sign(negative, 0)
        } else {
            let (s1, e1) = self.unpack(ma);
            let (s2, e2) = self.unpack(mb);
            let ghost num = self.magnitude(ma as nat) * self.magnitude(mb as nat);
            let ghost den = pow2(self.scale());
            proof {
                lemma2_to64();
                lemma2_to64_rest();
                lemma_pow2_adds(63, 63);
                assert(0 < s1 * s2 < 0x20_0000_0000_0000 * 0x20_0000_0000_0000) by (nonlinear_arith)
                    requires 0 < s1 < 0x20_0000_0000_0000, 0 < s2 < 0x20_0000_0000_0000;
                lemma_pow2_adds(e1 as nat, e2 as nat);
                let p1 = pow2(e1 as nat);
                let p2 = pow2(e2 as nat);
                assert(num * den == (s1 * s2) * (den * (p1 * p2))) by (nonlinear_arith)
                    requires num == (s1 * p1) * (s2 * p2);
            }
            let sig: u128 = s1 * s2;
            let pattern: u64 = self.round(
                sig,
                false,
                e1 + e2,
                self.scale_bits(),
                Ghost(Exact::Quotient(num, den)),
            );
            self.with_sign(negative, pattern)
        }
    }

    /// `a / b`.
    pub fn over(self, a: u64, b: u64) -> (x: u64)
        requires
            self.holds(a as nat),
            self.holds(b as nat),
        ensures
            x == self.quotient(a as nat, b as nat),
            self.holds(x as nat),
    {
        let infinity: u64 = self.infinity_bits();
        let ma: u64 = self.without_sign(a);
        let mb: u64 = self.without_sign(b);
        let negative: bool = self.is_negative(a) != self.is_negative(b);
        if ma > infinity || mb > infinity {
            self.quiet_nan_bits()
        } else if ma == infinity {
            if mb == infinity {
                self.quiet_nan_bits()
            } else {
                self.with_sign(negative, infinity)
            }
        } else if mb == infinity {
            self.with_sign(negative, 0)
        } else if mb == 0 {
            if ma == 0 {
                self.quiet_nan_bits()
            } else {
                self.with_sign(negative, infinity)
            }
        } else {
            self.with_sign(negative, self.divide_magnitudes(ma, mb))
        }
    }

    /// The quotient of two finite magnitudes.
    fn divide_magnitudes(self, a: u64, b: u64) -> (pattern: u64)
        requires
            a < self.infinity(),
            0 < b < self.infinity(),
        ensures
            pattern == self.rounded(
                Exact::Quotient(self.magnitude(a as nat) * pow2(self.scale()), self.magnitude(b as nat)),
            ),
            pattern <= self.infinity(),
    {
        let ghost num = self.magnitude(a as nat) * pow2(self.scale());
        let ghost den = self.magnitude(b as nat);
        proof {
            self.lemma_zero(1);
            self.lemma_zero(den);
        }
        if a == 0 {
            proof {
                assert(num == 0) by (nonlinear_arith)
                    requires num == self.magnitude(a as nat) * pow2(self.scale()), self.magnitude(a as nat) == 0;
            }
            return 0;
        }
        let (s1, e1) = self.unpack(a);
        let (s2, e2) = self.unpack(b);
        let scale: u32 = self.scale_bits();
        let p: u32 = self.fraction_bits();
        let n: u32 = bit_length(s1);
        proof {
            lemma2_to64();
            lemma2_to64_rest();
            if n > p + 1 {
                if n > p + 2 {
                    lemma_pow2_strictly_increases(self.fraction() + 1, (n - 1) as nat);
                }
            }
        }
        let lift: u32 = p + 1 - n;
        let total: u32 = lift + 60;
        proof {
            lemma_pow2_adds((n - 1) as nat, total as nat);
            lemma_pow2_adds(n as nat, total as nat);
            lemma_pow2_adds(59, self.fraction() + 1);
            lemma_pow2_adds(63, 63);
            lemma_pow2_strictly_increases(self.fraction() + 61, 126);
            lemma_pow2_strictly_increases(total as nat, 127);
            lemma_pow2_pos(total as nat);
            let w = pow2(total as nat);
            let lo = pow2((n - 1) as nat);
            let hi = pow2(n as nat);
            assert(lo * w <= s1 * w < hi * w) by (nonlinear_arith)
                requires lo <= s1 < hi, w > 0;
        }
        let wide: u128 = s1 * power(total);
        let sig: u128 = wide / s2;
        let sticky: bool = wide % s2 != 0;
        proof {
            let w = pow2(total as nat);
            let r = wide % s2;
            assert(wide == sig * s2 + r && 0 <= r < s2) by (nonlinear_arith)
                requires sig == wide / s2, r == wide % s2, s2 > 0;
            // sig is at least 2^59
            let top = pow2(self.fraction() + 1);
            assert(sig >= pow2(59)) by (nonlinear_arith)
                requires
                    wide == sig * s2 + r,
                    r < s2,
                    s2 < top,
                    wide >= pow2(59) * top,
                    top > 0;
            assert(sig <= wide) by (nonlinear_arith)
                requires wide == sig * s2 + r, r >= 0, s2 >= 1, sig >= 0;
            lemma_pow2_strictly_increases(self.fraction() + 2, 59);
            let p1 = pow2(e1 as nat);
            let p2 = pow2(e2 as nat);
            let ps = pow2(scale as nat);
            lemma_pow2_adds(e1 as nat, scale as nat);
            lemma_pow2_adds(e2 as nat, total as nat);
            lemma_pow2_pos(e1 as nat);
            lemma_pow2_pos(e2 as nat);
            lemma_pow2_pos(scale as nat);
            let unit = p1 * p2 * ps;
            assert(unit > 0) by (nonlinear_arith)
                requires unit == p1 * p2 * ps, p1 > 0, p2 > 0, ps > 0;
            let x = num * (p2 * w);
            let y = den * (p1 * ps);
            assert(x == wide * unit) by (nonlinear_arith)
                requires x == num * (p2 * w), num == (s1 * p1) * ps, wide == s1 * w, unit == p1 * p2 * ps;
            assert(y == s2 * unit) by (nonlinear_arith)
                requires y == den * (p1 * ps), den == s2 * p2, unit == p1 * p2 * ps;
            assert(x == sig * y + r * unit) by (nonlinear_arith)
                requires x == wide * unit, y == s2 * unit, wide == sig * s2 + r;
            assert((r > 0 ==> r * unit > 0) && (r == 0 ==> r * unit == 0) && r * unit < y) by (nonlinear_arith)
                requires unit > 0, 0 <= r < s2, y == s2 * unit;
            assert((sig + 1) * y == sig * y + y) by (nonlinear_arith);
        }
        self.round(sig, sticky, e1 + scale, e2 + total, Ghost(Exact::Quotient(num, den)))
    }

    /// The square root of `x`.
    pub fn square_root(self, x: u64) -> (y: u64)
        requires
            self.holds(x as nat),
        ensures
            y == self.root(x as nat),
            self.holds(y as nat),
    {
        let infinity: u64 = self.infinity_bits();
        let m: u64 = self.without_sign(x);
        if m > infinity {
            self.quiet_nan_bits()
        } else if m == 0 {
            x
        } else if self.is_negative(x) {
            self.quiet_nan_bits()
        } else if m == infinity {
            x
        } else {
            self.root_magnitude(m)
        }
    }

    fn root_magnitude(self, a: u64) -> (pattern: u64)
        requires
            0 < a < self.infinity(),
        ensures
            pattern == self.rounded(Exact::Root(self.magnitude(a as nat) * pow2(self.scale()))),
            pattern <= self.infinity(),
    {
        let (s, e) = self.unpack(a);
        let scale: u32 = self.scale_bits();
        let n: u32 = bit_length(s);
        let whole: u32 = e + scale;
        proof {
            lemma2_to64();
            lemma2_to64_rest();
            if n > 53 {
                if n > 54 {
                    lemma_pow2_strictly_increases(53, (n - 1) as nat);
                }
                assert(false);
            }
        }
        // an even number of places is left over
        let lift: u32 = if (whole + n) % 2 == 1 { 123 - n } else { 124 - n };
        proof {
            assert((whole + lift) % 2 == 0);
            lemma_pow2_adds((n - 1) as nat, lift as nat);
            lemma_pow2_adds(n as nat, lift as nat);
            lemma_pow2_adds(62, 62);
            lemma_pow2_adds(61, 61);
            lemma_pow2_adds(63, 63);
            lemma_pow2_unfold(123);
            lemma_pow2_unfold(124);
            lemma_pow2_strictly_increases(124, 126);
            lemma_pow2_pos(lift as nat);
            let w = pow2(lift as nat);
            let lo = pow2((n - 1) as nat);
            let hi = pow2(n as nat);
            assert(lo * w <= s * w < hi * w) by (nonlinear_arith)
                requires lo <= s < hi, w > 0;
            lemma_pow2_strictly_increases(lift as nat, 127);
        }
        let wide: u128 = s * power(lift);
        let sig: u128 = integer_root(wide);
        let sticky: bool = sig * sig != wide;
        let ghost square = self.magnitude(a as nat) * pow2(self.scale());
        let (up, down): (u32, u32) = if whole >= lift {
            ((whole - lift) / 2, 0)
        } else {
            (0, (lift - whole) / 2)
        };
        proof {
            assert(sig >= pow2(61)) by (nonlinear_arith)
                requires (sig + 1) * (sig + 1) > pow2(61) * pow2(61), sig >= 0;
            lemma_pow2_strictly_increases(62, 126);
            lemma_pow2_strictly_increases(self.fraction() + 2, 61);
            lemma_pow2_adds(e as nat, scale as nat);
            lemma_pow2_adds(whole as nat, 2 * down as nat);
            lemma_pow2_adds(lift as nat, 2 * up as nat);
            let pe = pow2(e as nat);
            let ps = pow2(scale as nat);
            let pl = pow2(lift as nat);
            let x = square * pow2((2 * down) as nat);
            let y = pow2((2 * up) as nat);
            assert(x == s * (pl * y)) by (nonlinear_arith)
                requires
                    square == (s * pe) * ps,
                    x == square * pow2((2 * down) as nat),
                    pl * y == (pe * ps) * pow2((2 * down) as nat);
            assert(x == wide * y) by (nonlinear_arith)
                requires x == s * (pl * y), wide == s * pl;
            lemma_pow2_pos((2 * up) as nat);
            assert(sticky ==> (sig * sig) * y < x < ((sig + 1) * (sig + 1)) * y) by (nonlinear_arith)
                requires
                    x == wide * y,
                    y > 0,
                    sig * sig <= wide < (sig + 1) * (sig + 1),
                    sticky == (sig * sig != wide);
        }
        self.round(sig, sticky, up, down, Ghost(Exact::Root(square)))
    }

    /// `a < b`.
    pub fn less(self, a: u64, b: u64) -> (yes: bool)
        requires
            self.holds(a as nat),
            self.holds(b as nat),
        ensures
            yes == self.below(a as nat, b as nat),
    {
        let infinity: u64 = self.infinity_bits();
        let ma: u64 = self.without_sign(a);
        let mb: u64 = self.without_sign(b);
        let na: bool = self.is_negative(a);
        let nb: bool = self.is_negative(b);
        proof {
            self.lemma_zero(1);
            if ma < mb {
                self.lemma_monotone(ma as nat, mb as nat);
            } else if mb < ma {
                self.lemma_monotone(mb as nat, ma as nat);
            }
        }
        if ma > infinity || mb > infinity {
            false
        } else if na && nb {
            mb < ma
        } else if na {
            ma > 0 || mb > 0
        } else if nb {
            false
        } else {
            ma < mb
        }
    }

    /// `a == b`.
    pub fn same(self, a: u64, b: u64) -> (yes: bool)
        requires
            self.holds(a as nat),
            self.holds(b as nat),
        ensures
            yes == self.equal(a as nat, b as nat),
    {
        let infinity: u64 = self.infinity_bits();
        let ma: u64 = self.without_sign(a);
        let mb: u64 = self.without_sign(b);
        proof {
            self.lemma_zero(1);
            if ma < mb {
                self.lemma_monotone(ma as nat, mb as nat);
            } else if mb < ma {
                self.lemma_monotone(mb as nat, ma as nat);
            }
        }
        if ma > infinity || mb > infinity {
            false
        } else if ma == 0 && mb == 0 {
            true
        } else {
            a == b
        }
    }

    /// The same number in the other format.
    pub fn convert(self, x: u64) -> (y: u64)
        requires
            self.holds(x as nat),
        ensures
            y == self.converted(x as nat),
            self == Format::Single ==> Format::Double.holds(y as nat),
            self == Format::Double ==> Format::Single.holds(y as nat),
    {
        let m: u64 = self.without_sign(x);
        let negative: bool = self.is_negative(x);
        let infinity: u64 = self.infinity_bits();
        let other: Format = match self {
            Format::Single => Format::Double,
            Format::Double => Format::Single,
        };
        let (up, down): (u32, u32) = match self {
            Format::Single => (925, 0),
            Format::Double => (0, 925),
        };
        if m > infinity {
            other.quiet_nan_bits()
        } else if m == infinity {
            other.with_sign(negative, other.infinity_bits())
        } else {
            let ghost num = self.magnitude(m as nat) * pow2(up as nat);
            let ghost den = pow2(down as nat);
            proof {
                lemma2_to64();
                lemma2_to64_rest();
                lemma_pow2_pos(925);
                self.lemma_zero(1);
                other.lemma_zero(den);
                if m == 0 {
                    assert(num == 0) by (nonlinear_arith)
                        requires num == self.magnitude(m as nat) * pow2(up as nat), self.magnitude(m as nat) == 0;
                }
                assert(self.magnitude(m as nat) * pow2(0) == self.magnitude(m as nat));
            }
            if m == 0 {
                other.with_sign(negative, 0)
            } else {
                let (s, e) = self.unpack(m);
                proof {
                    lemma_pow2_strictly_increases(53, 126);
                    lemma_pow2_adds(e as nat, up as nat);
                    let pe = pow2(e as nat);
                    let pu = pow2(up as nat);
                    assert(num * den == s * (den * (pe * pu))) by (nonlinear_arith)
                        requires num == (s * pe) * pu;
                }
                let pattern: u64 = other.round(s, false, e + up, down, Ghost(Exact::Quotient(num, den)));
                other.with_sign(negative, pattern)
            }
        }
    }

    /// A whole number in the format.
    pub fn from_whole(self, n: u64) -> (x: u64)
        ensures
            x == self.whole(n as nat),
            self.holds(x as nat),
    {
        let ghost num = n as nat * pow2(self.scale());
        proof {
            self.lemma_zero(1);
            lemma2_to64();
            lemma2_to64_rest();
            lemma_pow2_adds(63, 63);
        }
        if n == 0 {
            proof {
                assert(num == 0);
            }
            0
        } else {
            proof {
                assert(num * 1 == n as nat * (1 * pow2(self.scale()))) by (nonlinear_arith)
                    requires num == n as nat * pow2(self.scale());
            }
            self.round(n as u128, false, self.scale_bits(), 0, Ghost(Exact::Quotient(num, 1)))
        }
    }
}

/// The whole multiples of `2^places` in a significand, and whether any bit was left over.
fn split(value: u128, places: u32) -> (parts: (u128, bool))
    requires
        value < 0x20_0000_0000_0000,
    ensures
        parts.0 * pow2(places as nat) <= value < (parts.0 + 1) * pow2(places as nat),
        parts.1 == (parts.0 * pow2(places as nat) != value),
        parts.0 < 0x20_0000_0000_0000,
        0 <= value - parts.0 * pow2(places as nat) < pow2(places as nat),
{
    proof {
        lemma2_to64();
        lemma2_to64_rest();
        lemma_pow2_pos(places as nat);
    }
    if places >= 64 {
        proof {
            if places > 64 {
                lemma_pow2_strictly_increases(64, places as nat);
            }
        }
        (0, value != 0)
    } else {
        let w: u128 = power(places);
        proof {
            let q = value / w;
            let r = value % w;
            assert(value == q * w + r && 0 <= r < w && 0 <= q <= value && (q + 1) * w == q * w + w) by (nonlinear_arith)
                requires q == value / w, r == value % w, w > 0, value >= 0;
        }
        (value / w, value % w != 0)
    }
}

/// The whole part of a square root.
fn integer_root(value: u128) -> (root: u128)
    requires
        value < pow2(124),
    ensures
        root * root <= value < (root + 1) * (root + 1),
        root < pow2(62),
{
    let mut root: u128 = 0;
    let mut bit: u32 = 62;
    proof {
        lemma_pow2_adds(62, 62);
    }
    while bit > 0
        invariant
            bit <= 62,
            root * root <= value < (root + pow2(bit as nat)) * (root + pow2(bit as nat)),
            root + pow2(bit as nat) <= pow2(62),
        decreases bit,
    {
        let place: u128 = power(bit - 1);
        proof {
            lemma_pow2_unfold(bit as nat);
            lemma2_to64();
            lemma2_to64_rest();
            let t = root + place;
            assert(t * t <= 0x4000_0000_0000_0000 * 0x4000_0000_0000_0000) by (nonlinear_arith)
                requires 0 <= t <= 0x4000_0000_0000_0000;
        }
        let trial: u128 = root + place;
        if trial * trial <= value {
            root = trial;
        }
        bit = bit - 1;
    }
    proof {
        lemma2_to64();
    }
    root
}

} // verus!
