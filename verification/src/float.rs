//! `F32` and `F64`: floating-point numbers held by their bits.
//!
//! Every operation is the exact result rounded once to nearest, so a walk gives
//! the same bits on every machine. Spec methods name the result of an operation;
//! the executable method of the same row returns it.

use crate::format::{power, Format};
use vstd::arithmetic::power2::*;
use vstd::prelude::*;

verus! {

/// A single-precision number.
#[derive(Clone, Copy, Debug, PartialEq, Eq, Structural)]
pub struct F32 {
    pub bits: u32,
}

/// A double-precision number.
#[derive(Clone, Copy, Debug, PartialEq, Eq, Structural)]
pub struct F64 {
    pub bits: u64,
}

impl F32 {
    /// Positive zero.
    #[verifier::allow_in_spec]
    pub fn zero() -> F32
        returns
            (F32 { bits: 0 }),
    {
        F32 { bits: 0 }
    }

    /// One.
    #[verifier::allow_in_spec]
    pub fn one() -> F32
        returns
            (F32 { bits: 0x3f80_0000 }),
    {
        F32 { bits: 0x3f80_0000 }
    }

    pub open spec fn is_nan(self) -> bool {
        Format::Single.is_nan(self.bits as nat)
    }

    pub open spec fn finite(self) -> bool {
        Format::Single.is_finite(self.bits as nat)
    }

    pub open spec fn negative(self) -> bool {
        self.bits >= 0x8000_0000
    }

    /// The value, counted in least positive magnitudes.
    #[verifier::opaque]
    pub open spec fn value(self) -> int {
        Format::Single.value(self.bits as nat)
    }

    #[verifier::opaque]
    pub open spec fn sum(self, other: F32) -> F32 {
        F32 { bits: Format::Single.sum(self.bits as nat, other.bits as nat) as u32 }
    }

    #[verifier::opaque]
    pub open spec fn difference(self, other: F32) -> F32 {
        F32 { bits: Format::Single.difference(self.bits as nat, other.bits as nat) as u32 }
    }

    #[verifier::opaque]
    pub open spec fn product(self, other: F32) -> F32 {
        F32 { bits: Format::Single.product(self.bits as nat, other.bits as nat) as u32 }
    }

    #[verifier::opaque]
    pub open spec fn quotient(self, other: F32) -> F32 {
        F32 { bits: Format::Single.quotient(self.bits as nat, other.bits as nat) as u32 }
    }

    #[verifier::opaque]
    pub open spec fn root(self) -> F32 {
        F32 { bits: Format::Single.root(self.bits as nat) as u32 }
    }

    pub open spec fn negation(self) -> F32 {
        F32 { bits: Format::Single.negation(self.bits as nat) as u32 }
    }

    pub open spec fn absolute(self) -> F32 {
        F32 { bits: Format::Single.unsigned(self.bits as nat) as u32 }
    }

    pub open spec fn below(self, other: F32) -> bool {
        !self.is_nan() && !other.is_nan() && self.value() < other.value()
    }

    pub open spec fn at_most(self, other: F32) -> bool {
        !self.is_nan() && !other.is_nan() && self.value() <= other.value()
    }

    pub open spec fn equals(self, other: F32) -> bool {
        !self.is_nan() && !other.is_nan() && self.value() == other.value()
    }

    /// The larger of the two; the other one where one is not a number.
    pub open spec fn larger(self, other: F32) -> F32 {
        if self.below(other) || self.is_nan() {
            other
        } else {
            self
        }
    }

    /// The smaller of the two; the other one where one is not a number.
    pub open spec fn smaller(self, other: F32) -> F32 {
        if other.below(self) || self.is_nan() {
            other
        } else {
            self
        }
    }

    /// The same number in double precision.
    #[verifier::opaque]
    pub open spec fn doubled(self) -> F64 {
        F64 { bits: Format::Single.converted(self.bits as nat) as u64 }
    }

    /// A whole number, rounded.
    #[verifier::opaque]
    pub open spec fn whole(n: nat) -> F32 {
        F32 { bits: Format::Single.whole(n) as u32 }
    }

    /// Where the number stands in the total order of bit patterns: negative
    /// numbers by falling magnitude, then positive ones by rising magnitude.
    pub open spec fn rank(self) -> int {
        if self.bits >= 0x8000_0000 {
            0xffff_ffff - self.bits
        } else {
            0x8000_0000 + self.bits
        }
    }

    pub fn from_bits(bits: u32) -> (x: F32)
        ensures
            x.bits == bits,
    {
        F32 { bits }
    }

    pub fn to_bits(self) -> (bits: u32)
        ensures
            bits == self.bits,
    {
        self.bits
    }

    pub fn plus(self, other: F32) -> (x: F32)
        ensures
            x == self.sum(other),
    {
        reveal(F32::sum);
        F32 { bits: Format::Single.plus(self.bits as u64, other.bits as u64) as u32 }
    }

    pub fn minus(self, other: F32) -> (x: F32)
        ensures
            x == self.difference(other),
    {
        reveal(F32::difference);
        let negated: u64 = Format::Single.negate(other.bits as u64);
        F32 { bits: Format::Single.plus(self.bits as u64, negated) as u32 }
    }

    pub fn times(self, other: F32) -> (x: F32)
        ensures
            x == self.product(other),
    {
        reveal(F32::product);
        F32 { bits: Format::Single.times(self.bits as u64, other.bits as u64) as u32 }
    }

    pub fn over(self, other: F32) -> (x: F32)
        ensures
            x == self.quotient(other),
    {
        reveal(F32::quotient);
        F32 { bits: Format::Single.over(self.bits as u64, other.bits as u64) as u32 }
    }

    pub fn sqrt(self) -> (x: F32)
        ensures
            x == self.root(),
    {
        reveal(F32::root);
        F32 { bits: Format::Single.square_root(self.bits as u64) as u32 }
    }

    pub fn negated(self) -> (x: F32)
        ensures
            x == self.negation(),
    {
        F32 { bits: Format::Single.negate(self.bits as u64) as u32 }
    }

    pub fn abs(self) -> (x: F32)
        ensures
            x == self.absolute(),
    {
        if self.bits >= 0x8000_0000 {
            F32 { bits: self.bits - 0x8000_0000 }
        } else {
            self
        }
    }

    pub fn lt(self, other: F32) -> (yes: bool)
        ensures
            yes == self.below(other),
    {
        reveal(F32::value);
        Format::Single.less(self.bits as u64, other.bits as u64)
    }

    pub fn le(self, other: F32) -> (yes: bool)
        ensures
            yes == self.at_most(other),
    {
        reveal(F32::value);
        Format::Single.less(self.bits as u64, other.bits as u64) || Format::Single.same(
            self.bits as u64,
            other.bits as u64,
        )
    }

    pub fn same(self, other: F32) -> (yes: bool)
        ensures
            yes == self.equals(other),
    {
        reveal(F32::value);
        Format::Single.same(self.bits as u64, other.bits as u64)
    }

    pub fn max(self, other: F32) -> (x: F32)
        ensures
            x == self.larger(other),
    {
        if self.lt(other) || self.not_a_number() {
            other
        } else {
            self
        }
    }

    pub fn min(self, other: F32) -> (x: F32)
        ensures
            x == self.smaller(other),
    {
        if other.lt(self) || self.not_a_number() {
            other
        } else {
            self
        }
    }

    pub fn not_a_number(self) -> (yes: bool)
        ensures
            yes == self.is_nan(),
    {
        self.abs().bits > 0x7f80_0000
    }

    pub fn is_finite(self) -> (yes: bool)
        ensures
            yes == self.finite(),
    {
        self.abs().bits < 0x7f80_0000
    }

    pub fn to_double(self) -> (x: F64)
        ensures
            x == self.doubled(),
    {
        reveal(F32::doubled);
        F64 { bits: Format::Single.convert(self.bits as u64) }
    }

    pub fn from_whole(n: u64) -> (x: F32)
        ensures
            x == F32::whole(n as nat),
    {
        reveal(F32::whole);
        F32 { bits: Format::Single.from_whole(n) as u32 }
    }

    /// The largest whole number that is not above, held to 32 bits; zero where there
    /// is no number.
    pub open spec fn floored(self) -> int {
        let whole = self.value() / (pow2(149) as int);
        if self.is_nan() {
            0
        } else if whole < i32::MIN {
            i32::MIN as int
        } else if whole > i32::MAX {
            i32::MAX as int
        } else {
            whole
        }
    }

    pub fn floor(self) -> (whole: i32)
        ensures
            whole == self.floored(),
    {
        reveal(F32::value);
        if self.not_a_number() {
            return 0;
        }
        let negative: bool = self.bits >= 0x8000_0000;
        let pattern: u64 = self.abs().bits as u64;
        let ghost m = Format::Single.magnitude(pattern as nat);
        let ghost one = pow2(149);
        proof {
            lemma_pow2_pos(149);
            lemma2_to64();
        }
        // from here on the whole part does not fit
        if pattern >= 0x4f00_0000 {
            proof {
                lemma_floor_large(pattern as nat);
            }
            return if negative {
                i32::MIN
            } else {
                i32::MAX
            };
        }
        let (sig, e) = Format::Single.unpack(pattern);
        proof {
            lemma_exponent(pattern as nat, sig as nat, e as nat);
        }
        let (whole, rest): (u64, bool) = if e >= 149 {
            let up: u128 = power(e - 149);
            proof {
                lemma_pow2_adds((e - 149) as nat, 149);
                lemma_scaled_up(sig as nat, up as nat, one, m);
                assert(sig * up < 0x8000_0000);
            }
            ((sig * up) as u64, false)
        } else if 149 - e >= 24 {
            proof {
                lemma_pow2_adds((149 - e) as nat, e as nat);
                lemma_small(sig as nat, (149 - e) as nat);
                lemma_pow2_pos((149 - e) as nat);
                lemma_pow2_pos(e as nat);
                lemma_scaled_down(sig as nat, pow2((149 - e) as nat), pow2(e as nat), m);
            }
            (0, sig != 0)
        } else {
            let down: u128 = power(149 - e);
            proof {
                lemma_pow2_adds((149 - e) as nat, e as nat);
                lemma_pow2_pos((149 - e) as nat);
                lemma_pow2_pos(e as nat);
                lemma_scaled_down(sig as nat, down as nat, pow2(e as nat), m);
                assert(sig / down <= sig) by (nonlinear_arith)
                    requires down > 0;
            }
            ((sig / down) as u64, sig % down != 0)
        };
        proof {
            lemma_floor_negative(m, one);
        }
        if !negative {
            whole as i32
        } else if rest {
            -(whole as i64 + 1) as i32
        } else {
            -(whole as i64) as i32
        }
    }

    /// An integer that orders as [`F32::rank`] does.
    pub fn order_key(self) -> (key: u64)
        ensures
            key == self.rank(),
    {
        if self.bits >= 0x8000_0000 {
            (0xffff_ffff - self.bits) as u64
        } else {
            0x8000_0000 + self.bits as u64
        }
    }
}

impl F64 {
    /// Positive zero.
    #[verifier::allow_in_spec]
    pub fn zero() -> F64
        returns
            (F64 { bits: 0 }),
    {
        F64 { bits: 0 }
    }

    /// One.
    #[verifier::allow_in_spec]
    pub fn one() -> F64
        returns
            (F64 { bits: 0x3ff0_0000_0000_0000 }),
    {
        F64 { bits: 0x3ff0_0000_0000_0000 }
    }

    pub open spec fn is_nan(self) -> bool {
        Format::Double.is_nan(self.bits as nat)
    }

    pub open spec fn finite(self) -> bool {
        Format::Double.is_finite(self.bits as nat)
    }

    pub open spec fn negative(self) -> bool {
        self.bits >= 0x8000_0000_0000_0000
    }

    /// The value, counted in least positive magnitudes.
    #[verifier::opaque]
    pub open spec fn value(self) -> int {
        Format::Double.value(self.bits as nat)
    }

    #[verifier::opaque]
    pub open spec fn sum(self, other: F64) -> F64 {
        F64 { bits: Format::Double.sum(self.bits as nat, other.bits as nat) as u64 }
    }

    #[verifier::opaque]
    pub open spec fn difference(self, other: F64) -> F64 {
        F64 { bits: Format::Double.difference(self.bits as nat, other.bits as nat) as u64 }
    }

    #[verifier::opaque]
    pub open spec fn product(self, other: F64) -> F64 {
        F64 { bits: Format::Double.product(self.bits as nat, other.bits as nat) as u64 }
    }

    #[verifier::opaque]
    pub open spec fn quotient(self, other: F64) -> F64 {
        F64 { bits: Format::Double.quotient(self.bits as nat, other.bits as nat) as u64 }
    }

    #[verifier::opaque]
    pub open spec fn root(self) -> F64 {
        F64 { bits: Format::Double.root(self.bits as nat) as u64 }
    }

    pub open spec fn negation(self) -> F64 {
        F64 { bits: Format::Double.negation(self.bits as nat) as u64 }
    }

    pub open spec fn absolute(self) -> F64 {
        F64 { bits: Format::Double.unsigned(self.bits as nat) as u64 }
    }

    pub open spec fn below(self, other: F64) -> bool {
        !self.is_nan() && !other.is_nan() && self.value() < other.value()
    }

    pub open spec fn at_most(self, other: F64) -> bool {
        !self.is_nan() && !other.is_nan() && self.value() <= other.value()
    }

    pub open spec fn equals(self, other: F64) -> bool {
        !self.is_nan() && !other.is_nan() && self.value() == other.value()
    }

    /// The larger of the two; the other one where one is not a number.
    pub open spec fn larger(self, other: F64) -> F64 {
        if self.below(other) || self.is_nan() {
            other
        } else {
            self
        }
    }

    /// The smaller of the two; the other one where one is not a number.
    pub open spec fn smaller(self, other: F64) -> F64 {
        if other.below(self) || self.is_nan() {
            other
        } else {
            self
        }
    }

    /// The same number in single precision, rounded.
    #[verifier::opaque]
    pub open spec fn halved(self) -> F32 {
        F32 { bits: Format::Double.converted(self.bits as nat) as u32 }
    }

    /// A whole number, rounded.
    #[verifier::opaque]
    pub open spec fn whole(n: nat) -> F64 {
        F64 { bits: Format::Double.whole(n) as u64 }
    }

    /// Where the number stands in the total order of bit patterns: negative
    /// numbers by falling magnitude, then positive ones by rising magnitude.
    pub open spec fn rank(self) -> int {
        if self.bits >= 0x8000_0000_0000_0000 {
            0xffff_ffff_ffff_ffff - self.bits
        } else {
            0x8000_0000_0000_0000 + self.bits
        }
    }

    pub fn from_bits(bits: u64) -> (x: F64)
        ensures
            x.bits == bits,
    {
        F64 { bits }
    }

    pub fn to_bits(self) -> (bits: u64)
        ensures
            bits == self.bits,
    {
        self.bits
    }

    pub fn plus(self, other: F64) -> (x: F64)
        ensures
            x == self.sum(other),
    {
        reveal(F64::sum);
        F64 { bits: Format::Double.plus(self.bits, other.bits) }
    }

    pub fn minus(self, other: F64) -> (x: F64)
        ensures
            x == self.difference(other),
    {
        reveal(F64::difference);
        let negated: u64 = Format::Double.negate(other.bits);
        F64 { bits: Format::Double.plus(self.bits, negated) }
    }

    pub fn times(self, other: F64) -> (x: F64)
        ensures
            x == self.product(other),
    {
        reveal(F64::product);
        F64 { bits: Format::Double.times(self.bits, other.bits) }
    }

    pub fn over(self, other: F64) -> (x: F64)
        ensures
            x == self.quotient(other),
    {
        reveal(F64::quotient);
        F64 { bits: Format::Double.over(self.bits, other.bits) }
    }

    pub fn sqrt(self) -> (x: F64)
        ensures
            x == self.root(),
    {
        reveal(F64::root);
        F64 { bits: Format::Double.square_root(self.bits) }
    }

    pub fn negated(self) -> (x: F64)
        ensures
            x == self.negation(),
    {
        F64 { bits: Format::Double.negate(self.bits) }
    }

    pub fn abs(self) -> (x: F64)
        ensures
            x == self.absolute(),
    {
        if self.bits >= 0x8000_0000_0000_0000 {
            F64 { bits: self.bits - 0x8000_0000_0000_0000 }
        } else {
            self
        }
    }

    pub fn lt(self, other: F64) -> (yes: bool)
        ensures
            yes == self.below(other),
    {
        reveal(F64::value);
        Format::Double.less(self.bits, other.bits)
    }

    pub fn le(self, other: F64) -> (yes: bool)
        ensures
            yes == self.at_most(other),
    {
        reveal(F64::value);
        Format::Double.less(self.bits, other.bits) || Format::Double.same(self.bits, other.bits)
    }

    pub fn same(self, other: F64) -> (yes: bool)
        ensures
            yes == self.equals(other),
    {
        reveal(F64::value);
        Format::Double.same(self.bits, other.bits)
    }

    pub fn max(self, other: F64) -> (x: F64)
        ensures
            x == self.larger(other),
    {
        if self.lt(other) || self.not_a_number() {
            other
        } else {
            self
        }
    }

    pub fn min(self, other: F64) -> (x: F64)
        ensures
            x == self.smaller(other),
    {
        if other.lt(self) || self.not_a_number() {
            other
        } else {
            self
        }
    }

    pub fn not_a_number(self) -> (yes: bool)
        ensures
            yes == self.is_nan(),
    {
        self.abs().bits > 0x7ff0_0000_0000_0000
    }

    pub fn is_finite(self) -> (yes: bool)
        ensures
            yes == self.finite(),
    {
        self.abs().bits < 0x7ff0_0000_0000_0000
    }

    pub fn to_single(self) -> (x: F32)
        ensures
            x == self.halved(),
    {
        reveal(F64::halved);
        F32 { bits: Format::Double.convert(self.bits) as u32 }
    }

    pub fn from_whole(n: u64) -> (x: F64)
        ensures
            x == F64::whole(n as nat),
    {
        reveal(F64::whole);
        F64 { bits: Format::Double.from_whole(n) }
    }

    /// An integer that orders as [`F64::rank`] does.
    pub fn order_key(self) -> (key: u64)
        ensures
            key == self.rank(),
    {
        if self.bits >= 0x8000_0000_0000_0000 {
            0xffff_ffff_ffff_ffff - self.bits
        } else {
            0x8000_0000_0000_0000 + self.bits
        }
    }

    /// The total order refines the order of the numbers.
    pub proof fn lemma_rank(self, other: F64)
        requires
            !self.is_nan(),
            !other.is_nan(),
        ensures
            self.rank() <= other.rank() ==> self.value() <= other.value(),
            self.value() < other.value() ==> self.rank() < other.rank(),
    {
        reveal(F64::value);
        let f = Format::Double;
        let a = f.unsigned(self.bits as nat);
        let b = f.unsigned(other.bits as nat);
        if a < b {
            f.lemma_monotone(a, b);
        } else if b < a {
            f.lemma_monotone(b, a);
        }
    }

    /// A number that is neither negative nor zero bears its value in its bits.
    pub proof fn lemma_nonnegative(self)
        requires
            !self.is_nan(),
        ensures
            self.negative() ==> self.value() <= 0,
            !self.negative() ==> self.value() >= 0,
            self.value() == 0 <==> (self.bits == 0 || self.bits == 0x8000_0000_0000_0000),
            F64::zero().value() == 0,
    {
        reveal(F64::value);
        Format::Double.lemma_zero(1);
    }

    /// Numbers of equal value have equal bits, zero aside.
    pub proof fn lemma_same_bits(self, other: F64)
        requires
            self.equals(other),
            self.value() != 0,
        ensures
            self == other,
    {
        reveal(F64::value);
        let f = Format::Double;
        f.lemma_zero(1);
        let a = f.unsigned(self.bits as nat);
        let b = f.unsigned(other.bits as nat);
        if a < b {
            f.lemma_monotone(a, b);
        } else if b < a {
            f.lemma_monotone(b, a);
        }
    }
}

/// Two to the power of 31, in least positive magnitudes.
proof fn lemma_limit()
    ensures
        Format::Single.magnitude(0x4f00_0000) == 0x8000_0000 * pow2(149),
        pow2(180) == 0x8000_0000 * pow2(149),
{
    lemma2_to64();
    lemma_pow2_adds(23, 157);
    lemma_pow2_adds(31, 149);
    assert(0x4f00_0000nat / pow2(23) == 158 && 0x4f00_0000nat % pow2(23) == 0) by (nonlinear_arith)
        requires pow2(23) == 0x80_0000;
}

proof fn lemma_floor_large(pattern: nat)
    requires
        0x4f00_0000 <= pattern,
    ensures
        Format::Single.magnitude(pattern) as int / (pow2(149) as int) >= 0x8000_0000,
        -(Format::Single.magnitude(pattern) as int) / (pow2(149) as int) <= -0x8000_0000,
{
    lemma_limit();
    lemma_pow2_pos(149);
    if pattern > 0x4f00_0000 {
        Format::Single.lemma_monotone(0x4f00_0000, pattern);
    }
    let m = Format::Single.magnitude(pattern) as int;
    let one = pow2(149) as int;
    assert(m / one >= 0x8000_0000 && (-m) / one <= -0x8000_0000) by (nonlinear_arith)
        requires m >= 0x8000_0000 * one, one > 0;
}

proof fn lemma_exponent(pattern: nat, sig: nat, e: nat)
    requires
        pattern < 0x4f00_0000,
        Format::Single.magnitude(pattern) == sig * pow2(e),
        e == 0 || sig >= pow2(23),
        sig < pow2(24),
    ensures
        e <= 156,
        sig * pow2(e) < 0x8000_0000 * pow2(149),
{
    lemma_limit();
    lemma2_to64();
    Format::Single.lemma_monotone(pattern, 0x4f00_0000);
    if e >= 157 {
        lemma_pow2_adds(23, 157);
        lemma_pow2_pos(157);
        if e > 157 {
            lemma_pow2_strictly_increases(157, e);
        }
        assert(sig * pow2(e) >= pow2(23) * pow2(157)) by (nonlinear_arith)
            requires sig >= pow2(23), pow2(e) >= pow2(157), pow2(157) > 0;
    }
}

proof fn lemma_scaled_up(sig: nat, up: nat, one: nat, m: nat)
    requires
        m == sig * (up * one),
        m < 0x8000_0000 * one,
        one > 0,
    ensures
        m as int / (one as int) == sig * up,
        m as int % (one as int) == 0,
        sig * up < 0x8000_0000,
{
    let w = sig * up;
    assert(m == w * one) by (nonlinear_arith)
        requires m == sig * (up * one), w == sig * up;
    assert(m as int / (one as int) == w && m as int % (one as int) == 0 && w < 0x8000_0000) by (nonlinear_arith)
        requires m == w * one, one > 0, m < 0x8000_0000 * one;
}

proof fn lemma_scaled_down(sig: nat, down: nat, unit: nat, m: nat)
    requires
        m == sig * unit,
        down > 0,
        unit > 0,
    ensures
        m as int / ((down * unit) as int) == sig as int / (down as int),
        m as int % ((down * unit) as int) == 0 <==> sig as int % (down as int) == 0,
        sig as int / (down as int) >= 0,
{
    vstd::arithmetic::div_mod::lemma_div_multiples_vanish_quotient(unit as int, sig as int, down as int);
    vstd::arithmetic::div_mod::lemma_truncate_middle(sig as int, unit as int, down as int);
    assert(unit * sig == m && unit * down == down * unit) by (nonlinear_arith)
        requires m == sig * unit;
    let r = sig as int % (down as int);
    assert(unit * r == 0 <==> r == 0) by (nonlinear_arith)
        requires unit > 0;
    assert(sig as int / (down as int) >= 0) by (nonlinear_arith)
        requires down > 0, sig >= 0;
}

proof fn lemma_small(sig: nat, d: nat)
    requires
        sig < pow2(24),
        d >= 24,
    ensures
        sig as int / (pow2(d) as int) == 0,
        sig as int % (pow2(d) as int) == sig,
{
    if d > 24 {
        lemma_pow2_strictly_increases(24, d);
    }
    let p = pow2(d) as int;
    assert(sig as int / p == 0 && sig as int % p == sig) by (nonlinear_arith)
        requires 0 <= sig < p;
}

proof fn lemma_floor_negative(m: nat, one: nat)
    requires
        one > 0,
    ensures
        -(m as int) / (one as int) == if m as int % (one as int) == 0 {
            -(m as int / (one as int))
        } else {
            -(m as int / (one as int)) - 1
        },
{
    let q = m as int / (one as int);
    let r = m as int % (one as int);
    assert(m == q * one + r && 0 <= r < one) by (nonlinear_arith)
        requires q == m as int / (one as int), r == m as int % (one as int), one > 0;
    if r == 0 {
        assert(-(m as int) / (one as int) == -q) by (nonlinear_arith)
            requires m == q * one, one > 0;
    } else {
        assert(-(m as int) / (one as int) == -q - 1) by (nonlinear_arith)
            requires m == q * one + r, 0 < r < one, one > 0;
    }
}

/// The bit length of a positive number.
pub(crate) proof fn lemma_bit_length(q: nat) -> (n: nat)
    requires
        q > 0,
    ensures
        n >= 1,
        pow2((n - 1) as nat) <= q < pow2(n),
    decreases q,
{
    lemma2_to64();
    if q == 1 {
        1
    } else {
        let n = lemma_bit_length(q / 2);
        lemma_pow2_unfold(n);
        lemma_pow2_unfold(n + 1);
        n + 1
    }
}

impl F32 {
    /// Going to double precision keeps the value, which is then counted in the
    /// smaller unit.
    pub proof fn lemma_doubled(self)
        requires
            self.finite(),
        ensures
            self.doubled().finite(),
            self.doubled().negative() == self.negative(),
            self.doubled().value() == self.value() * pow2(925),
    {
        reveal(F32::doubled);
        reveal(F32::value);
        reveal(F64::value);
        let b = Format::Single.unsigned(self.bits as nat);
        let (k, q) = Format::Single.lemma_split(b);
        let m = Format::Single.magnitude(b);
        let wide = m * pow2(925);
        lemma2_to64();
        lemma2_to64_rest();
        Format::Double.lemma_zero(1);
        if q == 0 {
            assert(wide == 0) by (nonlinear_arith)
                requires wide == m * pow2(925), m == q * pow2(k), q == 0;
            assert(k == 0);
        } else {
            let n = lemma_bit_length(q);
            if n > 24 {
                if n > 25 {
                    lemma_pow2_strictly_increases(24, (n - 1) as nat);
                }
                assert(false);
            }
            let lift = (53 - n) as nat;
            let big = q * pow2(lift);
            let exponent = (k + 925 - lift) as nat;
            lemma_pow2_adds((n - 1) as nat, lift);
            lemma_pow2_adds(n, lift);
            lemma_pow2_pos(lift);
            assert(pow2(52) <= big < pow2(53)) by (nonlinear_arith)
                requires
                    big == q * pow2(lift),
                    pow2((n - 1) as nat) <= q < pow2(n),
                    pow2((n - 1) as nat) * pow2(lift) == pow2(52),
                    pow2(n) * pow2(lift) == pow2(53),
                    pow2(lift) > 0;
            Format::Double.lemma_magnitude(exponent, big);
            let pattern = (exponent * pow2(52) + big) as nat;
            lemma_pow2_adds(k, 925);
            lemma_pow2_adds(exponent, lift);
            assert(big * pow2(exponent) == wide) by (nonlinear_arith)
                requires
                    big == q * pow2(lift),
                    wide == (q * pow2(k)) * pow2(925),
                    pow2(exponent) * pow2(lift) == pow2(k) * pow2(925);
            // the exponent of a finite single is at most 254
            let w = pow2(23);
            assert(k <= 254) by (nonlinear_arith)
                requires b == k * w + q, b < 0x7f80_0000, w == 0x80_0000, q >= 0;
            assert(exponent * pow2(52) <= 1178 * pow2(52)) by (nonlinear_arith)
                requires exponent <= 1178, pow2(52) >= 0;
            Format::Double.lemma_rounded_exact(pattern, 1);
            assert(wide * 1 == wide);
        }
        assert(-(m as int) * pow2(925) == -(wide as int)) by (nonlinear_arith)
            requires wide == m * pow2(925);
    }

    /// Numbers of equal value have equal bits, zero aside.
    pub proof fn lemma_same_bits(self, other: F32)
        requires
            self.equals(other),
            self.value() != 0,
        ensures
            self == other,
    {
        reveal(F32::value);
        let f = Format::Single;
        f.lemma_zero(1);
        let a = f.unsigned(self.bits as nat);
        let b = f.unsigned(other.bits as nat);
        if a < b {
            f.lemma_monotone(a, b);
        } else if b < a {
            f.lemma_monotone(b, a);
        }
    }

    /// A number that is neither negative nor zero bears its value in its bits.
    pub proof fn lemma_nonnegative(self)
        requires
            !self.is_nan(),
        ensures
            self.negative() ==> self.value() <= 0,
            !self.negative() ==> self.value() >= 0,
            self.value() == 0 <==> (self.bits == 0 || self.bits == 0x8000_0000),
            F32::zero().value() == 0,
    {
        reveal(F32::value);
        Format::Single.lemma_zero(1);
    }
}

} // verus!
