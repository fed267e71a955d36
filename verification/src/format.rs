//! Binary floating-point formats and correctly rounded arithmetic on their bit patterns.
//!
//! A *magnitude pattern* is a bit pattern without its sign bit. Patterns up to
//! and including the infinity pattern are ordered exactly as the magnitudes they
//! stand for, so "round to nearest, ties to even" has a direct statement: see
//! [`Format::nearest`].

use vstd::arithmetic::power2::*;
use vstd::bits::*;
use vstd::prelude::*;

verus! {

/// The two binary interchange formats the library computes in.
#[derive(Clone, Copy, Debug, PartialEq, Eq, Structural)]
pub enum Format {
    Single,
    Double,
}

/// An exact magnitude, counted in least positive magnitudes of a format.
pub enum Exact {
    /// The quotient of the two numbers, the second one positive.
    Quotient(nat, nat),
    /// The square root of the number.
    Root(nat),
}

impl Exact {
    /// A quotient has a positive denominator.
    pub open spec fn valid(self) -> bool {
        self matches Exact::Quotient(_, den) ==> den > 0
    }

    /// The magnitude is above `m / 2`.
    pub open spec fn exceeds_half(self, m: nat) -> bool {
        match self {
            Exact::Quotient(num, den) => m * den < 2 * num,
            Exact::Root(square) => m * m < 4 * square,
        }
    }

    /// The magnitude is `m / 2`.
    pub open spec fn equals_half(self, m: nat) -> bool {
        match self {
            Exact::Quotient(num, den) => m * den == 2 * num,
            Exact::Root(square) => m * m == 4 * square,
        }
    }

    proof fn lemma_order(self, a: nat, b: nat)
        requires
            self.valid(),
            a < b,
        ensures
            self.exceeds_half(b) || self.equals_half(b) ==> self.exceeds_half(a),
            !(self.exceeds_half(b) && self.equals_half(b)),
    {
        match self {
            Exact::Quotient(num, den) => {
                assert(a * den < b * den) by (nonlinear_arith)
                    requires a < b, den > 0;
            },
            Exact::Root(square) => {
                assert(a * a < b * b) by (nonlinear_arith)
                    requires 0 <= a < b;
            },
        }
    }
}

impl Format {
    /// Stored significand bits.
    pub open spec fn fraction(self) -> nat {
        match self {
            Format::Single => 23,
            Format::Double => 52,
        }
    }

    /// The pattern of positive infinity.
    pub open spec fn infinity(self) -> nat {
        match self {
            Format::Single => 0x7f80_0000,
            Format::Double => 0x7ff0_0000_0000_0000,
        }
    }

    /// The least positive magnitude is two to the power of minus `scale`.
    pub open spec fn scale(self) -> nat {
        match self {
            Format::Single => 149,
            Format::Double => 1074,
        }
    }

    /// What a magnitude pattern stands for, counted in least positive magnitudes.
    /// The infinity pattern counts as the first magnitude past the finite ones,
    /// which is how rounding treats it.
    pub open spec fn magnitude(self, pattern: nat) -> nat {
        let exponent = pattern / pow2(self.fraction());
        let fraction = pattern % pow2(self.fraction());
        if exponent == 0 {
            fraction
        } else {
            (pow2(self.fraction()) + fraction) * pow2((exponent - 1) as nat)
        }
    }

    /// `pattern` is the magnitude nearest to `exact`, a tie going to the even pattern.
    pub open spec fn nearest(self, pattern: nat, exact: Exact) -> bool {
        &&& pattern <= self.infinity()
        &&& pattern > 0 ==> self.reaches(pattern, exact)
        &&& pattern < self.infinity() ==> self.stays(pattern, exact)
    }

    /// `exact` lies above the midpoint below `pattern`, or on it where `pattern` is even.
    pub open spec fn reaches(self, pattern: nat, exact: Exact) -> bool {
        let ends = self.magnitude((pattern - 1) as nat) + self.magnitude(pattern);
        exact.exceeds_half(ends) || (exact.equals_half(ends) && pattern % 2 == 0)
    }

    /// `exact` lies below the midpoint above `pattern`, or on it where `pattern` is even.
    pub open spec fn stays(self, pattern: nat, exact: Exact) -> bool {
        let ends = self.magnitude(pattern) + self.magnitude(pattern + 1);
        !exact.exceeds_half(ends) && (exact.equals_half(ends) ==> pattern % 2 == 0)
    }

    /// The magnitude pattern that `exact` rounds to.
    pub open spec fn rounded(self, exact: Exact) -> nat {
        choose|pattern: nat| self.nearest(pattern, exact)
    }

    /// A pattern splits into a significand `q` and a binary exponent `k`.
    pub(crate) proof fn lemma_magnitude(self, k: nat, q: nat)
        requires
            q <= pow2(self.fraction() + 1),
            k == 0 || q >= pow2(self.fraction()),
        ensures
            self.magnitude(k * pow2(self.fraction()) + q) == q * pow2(k),
    {
        let p = self.fraction();
        let w = pow2(p);
        let b = k * w + q;
        lemma_pow2_pos(p);
        lemma_pow2_unfold(p + 1);
        lemma_pow2_unfold(k + 1);
        lemma2_to64();
        if q < w {
            assert(b / w == 0 && b % w == q) by (nonlinear_arith)
                requires b == q, q < w, w > 0;
            assert(q * pow2(0) == q);
        } else if q < 2 * w {
            assert(b / w == k + 1 && b % w == q - w) by (nonlinear_arith)
                requires b == k * w + q, w <= q < 2 * w, w > 0;
        } else {
            assert(b / w == k + 2 && b % w == 0) by (nonlinear_arith)
                requires b == k * w + q, q == 2 * w, w > 0;
            assert(w * (2 * pow2(k)) == (2 * w) * pow2(k)) by (nonlinear_arith);
        }
    }

    /// The significand and exponent of a pattern, and its successor's magnitude.
    pub(crate) proof fn lemma_split(self, b: nat) -> (kq: (nat, nat))
        ensures
            b == kq.0 * pow2(self.fraction()) + kq.1,
            kq.1 < pow2(self.fraction() + 1),
            kq.0 == 0 || kq.1 >= pow2(self.fraction()),
            self.magnitude(b) == kq.1 * pow2(kq.0),
            self.magnitude(b + 1) == (kq.1 + 1) * pow2(kq.0),
            self.magnitude(b) < self.magnitude(b + 1),
    {
        let w = pow2(self.fraction());
        lemma_pow2_pos(self.fraction());
        lemma_pow2_unfold(self.fraction() + 1);
        let (k, q): (nat, nat) = if b < w {
            (0, b)
        } else {
            ((b / w - 1) as nat, w + b % w)
        };
        if b >= w {
            assert(b / w >= 1 && b == (b / w - 1) * w + (w + b % w) && b % w < w) by (nonlinear_arith)
                requires b >= w, w > 0;
        }
        self.lemma_magnitude(k, q);
        self.lemma_magnitude(k, q + 1);
        lemma_pow2_pos(k);
        assert(q * pow2(k) < (q + 1) * pow2(k)) by (nonlinear_arith)
            requires pow2(k) > 0;
        (k, q)
    }

    /// Larger patterns stand for larger magnitudes.
    pub proof fn lemma_monotone(self, a: nat, b: nat)
        requires
            a < b,
        ensures
            self.magnitude(a) < self.magnitude(b),
        decreases b,
    {
        let _ = self.lemma_split((b - 1) as nat);
        if a < b - 1 {
            self.lemma_monotone(a, (b - 1) as nat);
        }
    }

    /// At most one pattern is nearest to a given magnitude.
    pub proof fn lemma_nearest_unique(self, a: nat, b: nat, exact: Exact)
        requires
            exact.valid(),
            self.nearest(a, exact),
            self.nearest(b, exact),
        ensures
            a == b,
    {
        if a < b {
            self.lemma_nearest_ordered(a, b, exact);
        } else if b < a {
            self.lemma_nearest_ordered(b, a, exact);
        }
    }

    proof fn lemma_nearest_ordered(self, a: nat, b: nat, exact: Exact)
        requires
            exact.valid(),
            a < b,
        ensures
            !(self.nearest(a, exact) && self.nearest(b, exact)),
    {
        if a + 1 < b {
            self.lemma_monotone(a, (b - 1) as nat);
            self.lemma_monotone(a + 1, b);
            exact.lemma_order(
                self.magnitude(a) + self.magnitude(a + 1),
                self.magnitude((b - 1) as nat) + self.magnitude(b),
            );
        }
    }

    /// A nearest pattern is the one that [`Format::rounded`] names.
    pub proof fn lemma_rounded(self, pattern: nat, exact: Exact)
        requires
            exact.valid(),
            self.nearest(pattern, exact),
        ensures
            self.rounded(exact) == pattern,
    {
        self.lemma_nearest_unique(self.rounded(exact), pattern, exact);
    }

    /// A magnitude that the format holds rounds to itself.
    pub proof fn lemma_rounded_exact(self, pattern: nat, den: nat)
        requires
            den > 0,
            pattern <= self.infinity(),
        ensures
            self.rounded(Exact::Quotient(self.magnitude(pattern) * den, den)) == pattern,
    {
        let m = self.magnitude(pattern);
        let exact = Exact::Quotient(m * den, den);
        assert((m + m) * den == 2 * (m * den)) by (nonlinear_arith);
        if pattern > 0 {
            self.lemma_monotone((pattern - 1) as nat, pattern);
            exact.lemma_order(self.magnitude((pattern - 1) as nat) + m, m + m);
        }
        self.lemma_monotone(pattern, pattern + 1);
        exact.lemma_order(m + m, m + self.magnitude(pattern + 1));
        self.lemma_rounded(pattern, exact);
    }

    /// The rounding decision: `exact` sits at `q + rem / 2^d` steps of size `2^k`.
    proof fn lemma_decision(self, k: nat, q: nat, d: nat, rem: nat, sticky: bool, exact: Exact, upward: bool)
        requires
            exact.valid(),
            q < pow2(self.fraction() + 1),
            k == 0 || q >= pow2(self.fraction()),
            rem < pow2(d),
            d == 0 ==> !sticky,
            located((2 * q) as nat, k, d, (q * pow2(d) + rem) as nat, sticky, exact),
            located((2 * q + 1) as nat, k, d, (q * pow2(d) + rem) as nat, sticky, exact),
            located((2 * q + 2) as nat, k, d, (q * pow2(d) + rem) as nat, sticky, exact),
            upward == (2 * rem > pow2(d) || (2 * rem == pow2(d) && (sticky || q % 2 == 1))),
        ensures
            ({
                let b = k * pow2(self.fraction()) + q + if upward { 1nat } else { 0nat };
                &&& b > 0 ==> self.reaches(b, exact)
                &&& self.stays(b, exact)
            }),
    {
        let w = pow2(self.fraction());
        let b0 = (k * w + q) as nat;
        let pd = pow2(d);
        let sig = (q * pd + rem) as nat;
        lemma_pow2_pos(d);
        self.lemma_magnitude(k, q);
        self.lemma_magnitude(k, q + 1);
        let pk = pow2(k);
        lemma_pow2_pos(k);
        let m0 = self.magnitude(b0);
        let m1 = self.magnitude(b0 + 1);
        assert(m0 + m1 == (2 * q + 1) * pk && m0 + m0 == (2 * q) * pk && m1 + m1 == (2 * q + 2) * pk)
            by (nonlinear_arith)
            requires m0 == q * pk, m1 == (q + 1) * pk;
        assert((2 * q) * pd == 2 * sig - 2 * rem && (2 * q + 1) * pd == 2 * sig - 2 * rem + pd && (2 * q + 2) * pd
            == 2 * sig - 2 * rem + 2 * pd) by (nonlinear_arith)
            requires sig == q * pd + rem;
        lemma_pow2_unfold(self.fraction());
        let half = pow2((self.fraction() - 1) as nat);
        assert(k * w == 2 * (k * half)) by (nonlinear_arith)
            requires w == 2 * half;
        assert(b0 % 2 == q % 2);
        if d > 0 {
            lemma_pow2_unfold(d);
        } else {
            lemma2_to64();
        }
        if upward {
            let _ = self.lemma_split(b0 + 1);
            exact.lemma_order(m1 + m1, m1 + self.magnitude(b0 + 2));
        } else {
            if b0 > 0 {
                self.lemma_monotone((b0 - 1) as nat, b0);
                exact.lemma_order(self.magnitude((b0 - 1) as nat) + m0, m0 + m0);
            }
        }
    }
}

/// `exact` lies at `sig` steps of size `2^(k - d)`, or strictly between that and
/// the next step where bits were dropped (`sticky`); read at `c / 2` steps of size `2^k`.
spec fn located(c: nat, k: nat, d: nat, sig: nat, sticky: bool, exact: Exact) -> bool {
    let mark = (c * pow2(k)) as nat;
    &&& c * pow2(d) < 2 * sig ==> exact.exceeds_half(mark)
    &&& c * pow2(d) == 2 * sig ==> if sticky { exact.exceeds_half(mark) } else { exact.equals_half(mark) }
    &&& c * pow2(d) >= 2 * sig + 2 || (c * pow2(d) > 2 * sig && !sticky) ==> !exact.exceeds_half(mark)
        && !exact.equals_half(mark)
}

/// `exact` lies at `sig * 2^up / 2^down`, or strictly between it and the
/// next significand where bits were dropped (`sticky`).
pub open spec fn brackets(sig: nat, sticky: bool, up: nat, down: nat, exact: Exact) -> bool {
    match exact {
        Exact::Quotient(num, den) => between(sig, (sig + 1) as nat, sticky, num * pow2(down), den * pow2(up)),
        Exact::Root(square) => between(
            sig * sig,
            (sig + 1) * (sig + 1),
            sticky,
            square * pow2(2 * down),
            pow2(2 * up),
        ),
    }
}

/// `x` is `low * unit`, or where `open` strictly between that and `high * unit`.
pub open spec fn between(low: nat, high: nat, open: bool, x: nat, unit: nat) -> bool {
    if open {
        low * unit < x < high * unit
    } else {
        x == low * unit
    }
}

proof fn lemma_located(c: nat, k: nat, d: nat, sig: nat, sticky: bool, up: nat, down: nat, exact: Exact)
    requires
        exact.valid(),
        k + down == up + d,
        brackets(sig, sticky, up, down, exact),
    ensures
        located(c, k, d, sig, sticky, exact),
{
    lemma_pow2_pos(down);
    lemma_pow2_pos(up);
    lemma_pow2_adds(k, down);
    lemma_pow2_adds(up, d);
    let pk = pow2(k);
    let pd = pow2(d);
    let m = (c * pk) as nat;
    let e = (c * pd) as nat;
    match exact {
        Exact::Quotient(num, den) => {
            let s = pow2(down);
            let u = pow2(up);
            let x = num * s;
            let y = den * u;
            assert(y > 0) by (nonlinear_arith)
                requires y == den * u, den > 0, u > 0;
            let l = m * den;
            assert(l * s == e * y) by (nonlinear_arith)
                requires l == m * den, m == c * pk, pk * s == u * pd, e == c * pd, y == den * u;
            let r = 2 * num;
            assert(r * s == 2 * x) by (nonlinear_arith)
                requires r == 2 * num, x == num * s;
            assert((l < r) == (l * s < r * s) && (l == r) == (l * s == r * s)) by (nonlinear_arith)
                requires s > 0;
            lemma_compared(e, 2 * sig, (2 * sig + 2) as nat, y);
            assert(2 * (sig * y) == (2 * sig) * y && 2 * ((sig + 1) * y) == (2 * sig + 2) * y) by (nonlinear_arith);
        },
        Exact::Root(square) => {
            let s = pow2(2 * down);
            let y = pow2(2 * up);
            lemma_pow2_pos(2 * down);
            lemma_pow2_pos(2 * up);
            lemma_pow2_adds(down, down);
            lemma_pow2_adds(up, up);
            let x = square * s;
            let l = m * m;
            assert(l * s == (e * e) * y) by (nonlinear_arith)
                requires
                    l == m * m,
                    m == c * pk,
                    e == c * pd,
                    s == pow2(down) * pow2(down),
                    y == pow2(up) * pow2(up),
                    pk * pow2(down) == pow2(up) * pd;
            let r = 4 * square;
            assert(r * s == 4 * x) by (nonlinear_arith)
                requires r == 4 * square, x == square * s;
            assert((l < r) == (l * s < r * s) && (l == r) == (l * s == r * s)) by (nonlinear_arith)
                requires s > 0;
            let low = (2 * sig) * (2 * sig);
            let high = (2 * sig + 2) * (2 * sig + 2);
            lemma_compared((e * e) as nat, low as nat, high as nat, y);
            assert(4 * ((sig * sig) * y) == low * y && 4 * (((sig + 1) * (sig + 1)) * y) == high * y)
                by (nonlinear_arith)
                requires low == (2 * sig) * (2 * sig), high == (2 * sig + 2) * (2 * sig + 2);
            lemma_squares(e, 2 * sig);
            lemma_squares(e, (2 * sig + 2) as nat);
        },
    }
}

proof fn lemma_squares(a: nat, b: nat)
    ensures
        (a < b) == (a * a < b * b),
        (a == b) == (a * a == b * b),
{
    if a < b {
        assert(a * a < b * b) by (nonlinear_arith)
            requires 0 <= a < b;
    } else if b < a {
        assert(b * b < a * a) by (nonlinear_arith)
            requires 0 <= b < a;
    }
}

proof fn lemma_compared(e: nat, low: nat, high: nat, y: nat)
    requires
        y > 0,
    ensures
        (e < low) == (e * y < low * y),
        (e == low) == (e * y == low * y),
        (e >= high) == (e * y >= high * y),
{
    assert((e < low) == (e * y < low * y) && (e == low) == (e * y == low * y) && (e >= high) == (e * y >= high * y))
        by (nonlinear_arith)
        requires y > 0;
}

/// A power of two that fits.
pub(crate) fn power(exponent: u32) -> (value: u128)
    requires
        exponent < 128,
    ensures
        value == pow2(exponent as nat),
        value > 0,
{
    proof {
        lemma_pow2_pos(exponent as nat);
        lemma_shifted_one(exponent as u128);
    }
    1u128 << (exponent as u128)
}

proof fn lemma_shifted_one(n: u128)
    requires
        n < 128,
    ensures
        (1u128 << n) == pow2(n as nat),
    decreases n,
{
    if n == 0 {
        assert(1u128 << 0u128 == 1u128) by (bit_vector);
        lemma2_to64();
    } else {
        let m = (n - 1) as u128;
        lemma_shifted_one(m);
        lemma_pow2_unfold(n as nat);
        assert((1u128 << n) == 2 * (1u128 << m)) by (bit_vector)
            requires 0 < n < 128, m == n - 1;
    }
}

/// The number of bits a positive value occupies.
pub(crate) fn bit_length(value: u128) -> (n: u32)
    requires
        value > 0,
    ensures
        1 <= n <= 128,
        pow2((n - 1) as nat) <= value < pow2(n as nat),
{
    let mut n: u32 = 0;
    let mut v: u128 = value;
    let mut step: u128 = 64;
    let ghost mut bound: nat = 128;
    proof {
        lemma2_to64();
        lemma2_to64_rest();
        lemma_pow2_adds(64, 64);
    }
    while step > 0
        invariant
            step > 0 ==> bound == 2 * step,
            step == 0 ==> bound == 1,
            step == 0 || step == 1 || step == 2 || step == 4 || step == 8 || step == 16 || step == 32 || step == 64,
            n + bound <= 128,
            1 <= v < pow2(bound),
            v * pow2(n as nat) <= value < (v + 1) * pow2(n as nat),
        decreases step,
    {
        proof {
            lemma_u128_shr_is_div(v, step);
            lemma_pow2_pos(step as nat);
            lemma_pow2_pos(n as nat);
            lemma_pow2_adds(step as nat, step as nat);
            lemma_pow2_adds(n as nat, step as nat);
            lemma2_to64();
            let w = pow2(step as nat);
            assert((v as nat / w == 0) == (v < w)) by (nonlinear_arith)
                requires w > 0, v >= 0;
            if v >= w {
                let h = v as nat / w;
                let pn = pow2(n as nat);
                assert(h * w <= v && v + 1 <= (h + 1) * w && h < w && h >= 1) by (nonlinear_arith)
                    requires h == v as nat / w, w > 0, w <= v < w * w;
                assert(h * (pn * w) <= v * pn) by (nonlinear_arith)
                    requires h * w <= v, pn > 0;
                assert((v + 1) * pn <= (h + 1) * (pn * w)) by (nonlinear_arith)
                    requires v + 1 <= (h + 1) * w, pn > 0;
            }
        }
        let high: u128 = v >> step;
        if high > 0 {
            v = high;
            n = n + step as u32;
        }
        proof {
            bound = step as nat;
        }
        step = step / 2;
    }
    proof {
        lemma2_to64();
        lemma_pow2_unfold((n + 1) as nat);
    }
    n + 1
}

impl Format {
    /// Stored significand bits.
    pub(crate) fn fraction_bits(self) -> (bits: u32)
        ensures
            bits == self.fraction(),
    {
        match self {
            Format::Single => 23,
            Format::Double => 52,
        }
    }

    /// The pattern of positive infinity.
    pub(crate) fn infinity_bits(self) -> (bits: u64)
        ensures
            bits == self.infinity(),
    {
        match self {
            Format::Single => 0x7f80_0000,
            Format::Double => 0x7ff0_0000_0000_0000,
        }
    }

    /// The binary order of the least positive magnitude, negated.
    pub(crate) fn scale_bits(self) -> (bits: u32)
        ensures
            bits == self.scale(),
    {
        match self {
            Format::Single => 149,
            Format::Double => 1074,
        }
    }

    /// Splits a finite pattern into its significand and binary exponent.
    pub(crate) fn unpack(self, pattern: u64) -> (parts: (u128, u32))
        requires
            pattern < self.infinity(),
        ensures
            self.magnitude(pattern as nat) == parts.0 * pow2(parts.1 as nat),
            parts.0 < pow2(self.fraction() + 1),
            parts.1 == 0 || parts.0 >= pow2(self.fraction()),
            parts.1 < 2046,
            parts.0 == 0 <==> pattern == 0,
            parts.0 < 0x20_0000_0000_0000,
    {
        let bits: u32 = self.fraction_bits();
        let step: u128 = power(bits);
        let wide: u128 = pattern as u128;
        let exponent: u128 = wide / step;
        let fraction: u128 = wide % step;
        proof {
            lemma2_to64();
            lemma2_to64_rest();
            lemma_pow2_unfold(self.fraction() + 1);
            let kq = self.lemma_split(pattern as nat);
            let w = pow2(self.fraction());
            let p = pattern as nat;
            assert(exponent == p / w && fraction == p % w);
            if p < w {
                assert(p / w == 0 && p % w == p) by (nonlinear_arith)
                    requires p < w, w > 0;
            } else {
                assert(p / w >= 1) by (nonlinear_arith)
                    requires p >= w, w > 0;
            }
            assert(p / w < 2047);
        }
        if exponent == 0 {
            (fraction, 0)
        } else {
            (step + fraction, (exponent - 1) as u32)
        }
    }

    /// Past the largest finite magnitude everything rounds to infinity.
    proof fn lemma_saturates(self, b: nat, exact: Exact)
        requires
            exact.valid(),
            b >= self.infinity(),
            self.reaches(b, exact),
        ensures
            self.nearest(self.infinity(), exact),
    {
        let inf = self.infinity();
        if b > inf {
            self.lemma_monotone((inf - 1) as nat, (b - 1) as nat);
            self.lemma_monotone(inf, b);
            exact.lemma_order(
                self.magnitude((inf - 1) as nat) + self.magnitude(inf),
                self.magnitude((b - 1) as nat) + self.magnitude(b),
            );
        }
    }

    /// Where the significand lands once it is cut to the format's precision.
    proof fn lemma_cut(self, sig: nat, n: nat, up: nat, down: nat, k: nat, d: nat)
        requires
            n >= 1,
            pow2((n - 1) as nat) <= sig < pow2(n),
            k + down == up + d,
            n + up <= self.fraction() + 1 + k + down,
            k > 0 ==> n + up == self.fraction() + 1 + k + down,
        ensures
            sig / pow2(d) < pow2(self.fraction() + 1),
            k > 0 ==> sig / pow2(d) >= pow2(self.fraction()),
            sig == (sig / pow2(d)) * pow2(d) + sig % pow2(d),
            sig % pow2(d) < pow2(d),
    {
        let p = self.fraction();
        let w = pow2(d);
        lemma_pow2_pos(d);
        let q = sig / w;
        assert(sig == q * w + sig % w && 0 <= sig % w < w) by (nonlinear_arith)
            requires q == sig / w, w > 0;
        // n <= p + 1 + d, with equality where k > 0
        lemma_pow2_adds(p + 1, d);
        if n < p + 1 + d {
            lemma_pow2_strictly_increases(n, p + 1 + d);
        }
        let top = pow2(p + 1);
        assert(q < top) by (nonlinear_arith)
            requires q * w <= sig, sig < top * w, w > 0;
        if k > 0 {
            lemma_pow2_adds(p, d);
            let low = pow2(p);
            assert(q >= low) by (nonlinear_arith)
                requires sig == q * w + sig % w, sig % w < w, low * w <= sig, w > 0;
        }
    }

    /// The same where the significand is widened instead.
    proof fn lemma_widened(self, sig: nat, n: nat, up: nat, down: nat, k: nat, g: nat, exact: Exact)
        requires
            n >= 1,
            pow2((n - 1) as nat) <= sig < pow2(n),
            k + down + g == up,
            n + up <= self.fraction() + 1 + k + down,
            k > 0 ==> n + up == self.fraction() + 1 + k + down,
            brackets(sig, false, up, down, exact),
        ensures
            sig * pow2(g) < pow2(self.fraction() + 1),
            k > 0 ==> sig * pow2(g) >= pow2(self.fraction()),
            brackets(sig * pow2(g), false, k + down, down, exact),
    {
        let p = self.fraction();
        let q = sig * pow2(g);
        lemma_pow2_pos(g);
        lemma_pow2_adds(n, g);
        assert(q < pow2(n + g)) by (nonlinear_arith)
            requires q == sig * pow2(g), sig < pow2(n), pow2(n) * pow2(g) == pow2(n + g), pow2(g) > 0;
        if n + g < p + 1 {
            lemma_pow2_strictly_increases(n + g, p + 1);
        }
        if k > 0 {
            lemma_pow2_adds((n - 1) as nat, g);
            let low = pow2((n - 1) as nat);
            assert(q >= low * pow2(g)) by (nonlinear_arith)
                requires q == sig * pow2(g), low <= sig, pow2(g) > 0;
        }
        let c = k + down;
        lemma_pow2_adds(c, g);
        match exact {
            Exact::Quotient(num, den) => {
                assert(q * (den * pow2(c)) == sig * (den * (pow2(c) * pow2(g)))) by (nonlinear_arith)
                    requires q == sig * pow2(g);
            },
            Exact::Root(_) => {
                lemma_pow2_adds(c, c);
                lemma_pow2_adds(up, up);
                assert((q * q) * (pow2(c) * pow2(c)) == (sig * sig) * ((pow2(c) * pow2(g)) * (pow2(c) * pow2(g))))
                    by (nonlinear_arith)
                    requires q == sig * pow2(g);
            },
        }
    }

    /// The magnitude pattern nearest to a bracketed quotient.
    #[verifier::rlimit(60)]
    #[verifier::spinoff_prover]
    pub(crate) fn round(
        self,
        sig: u128,
        sticky: bool,
        up: u32,
        down: u32,
        Ghost(exact): Ghost<Exact>,
    ) -> (pattern: u64)
        requires
            exact.valid(),
            up <= 10000,
            down <= 10000,
            0 < sig < pow2(126),
            sticky ==> sig >= pow2(self.fraction() + 2),
            brackets(sig as nat, sticky, up as nat, down as nat, exact),
        ensures
            self.nearest(pattern as nat, exact),
            pattern == self.rounded(exact),
            pattern <= self.infinity(),
    {
        let p: i32 = self.fraction_bits() as i32;
        let n: i32 = bit_length(sig) as i32;
        let e: i32 = up as i32 - down as i32;
        let t: i32 = n + e - (p + 1);
        let k: i32 = if t > 0 { t } else { 0 };
        let d: i32 = k - e;
        let infinity: u64 = self.infinity_bits();
        let step: u128 = power(self.fraction_bits());
        proof {
            lemma2_to64();
            lemma2_to64_rest();
            lemma_pow2_unfold(self.fraction() + 1);
            if n >= 127 {
                if n > 127 {
                    lemma_pow2_strictly_increases(126, (n - 1) as nat);
                }
                assert(pow2(126) <= pow2((n - 1) as nat));
            }
            assert(n <= 126);
            if sticky && n <= p + 2 {
                if n < p + 2 {
                    lemma_pow2_strictly_increases(n as nat, (p + 2) as nat);
                }
            }
        }
        if d >= 0 {
            let ghost w = pow2(d as nat);
            let ghost q = sig as nat / w;
            let ghost rem = sig as nat % w;
            let ghost upward = 2 * rem > w || (2 * rem == w && (sticky || q % 2 == 1));
            let ghost b = (k as nat) * pow2(self.fraction()) + q + if upward { 1nat } else { 0nat };
            proof {
                self.lemma_cut(sig as nat, n as nat, up as nat, down as nat, k as nat, d as nat);
                lemma_located((2 * q) as nat, k as nat, d as nat, sig as nat, sticky, up as nat, down as nat, exact);
                lemma_located((2 * q + 1) as nat, k as nat, d as nat, sig as nat, sticky, up as nat, down as nat, exact);
                lemma_located((2 * q + 2) as nat, k as nat, d as nat, sig as nat, sticky, up as nat, down as nat, exact);
                self.lemma_decision(k as nat, q, d as nat, rem, sticky, exact, upward);
                if b >= self.infinity() {
                    self.lemma_saturates(b, exact);
                }
            }
            let pattern: u64;
            if k >= 2047 {
                assert(k * step >= 2047 * step) by (nonlinear_arith)
                    requires k >= 2047, step >= 0;
                pattern = infinity;
            } else if d >= 127 {
                proof {
                    lemma_pow2_strictly_increases(126, d as nat);
                    lemma_pow2_unfold(d as nat);
                    assert(pow2((d - 1) as nat) >= pow2(126)) by {
                        if d > 127 {
                            lemma_pow2_strictly_increases(126, (d - 1) as nat);
                        }
                    }
                    assert(sig as nat / w == 0 && sig as nat % w == sig) by (nonlinear_arith)
                        requires sig < w;
                    assert(k == 0);
                    assert(b == 0);
                }
                pattern = 0;
            } else {
                let width: u128 = power(d as u32);
                let quotient: u128 = sig / width;
                let remainder: u128 = sig % width;
                proof {
                    lemma_pow2_strictly_increases(d as nat, 127);
                    lemma_pow2_unfold(127);
                    lemma_pow2_adds(63, 63);
                    assert(k * step <= 2046 * step) by (nonlinear_arith)
                        requires k <= 2046, step >= 0;
                }
                let base: u128 = (k as u128) * step + quotient;
                let rounded: u128 = if 2 * remainder > width || (2 * remainder == width && (sticky || quotient % 2 == 1)) {
                    base + 1
                } else {
                    base
                };
                assert(rounded == b);
                pattern = if rounded >= infinity as u128 { infinity } else { rounded as u64 };
            }
            proof {
                self.lemma_rounded(pattern as nat, exact);
            }
            pattern
        } else {
            let g: u32 = (-d) as u32;
            let ghost q = (sig * pow2(g as nat)) as nat;
            let ghost b = ((k as nat) * pow2(self.fraction()) + q) as nat;
            proof {
                assert(!sticky);
                self.lemma_widened(sig as nat, n as nat, up as nat, down as nat, k as nat, g as nat, exact);
                lemma_located((2 * q) as nat, k as nat, 0, q, false, (k + down) as nat, down as nat, exact);
                lemma_located((2 * q + 1) as nat, k as nat, 0, q, false, (k + down) as nat, down as nat, exact);
                lemma_located((2 * q + 2) as nat, k as nat, 0, q, false, (k + down) as nat, down as nat, exact);
                self.lemma_decision(k as nat, q, 0, 0, false, exact, false);
                if b >= self.infinity() {
                    self.lemma_saturates(b, exact);
                }
            }
            let pattern: u64;
            if k >= 2047 {
                assert(k * step >= 2047 * step) by (nonlinear_arith)
                    requires k >= 2047, step >= 0;
                pattern = infinity;
            } else {
                proof {
                    assert(g <= p);
                    assert(k * step <= 2046 * step) by (nonlinear_arith)
                        requires k <= 2046, step >= 0;
                }
                let rounded: u128 = (k as u128) * step + sig * power(g);
                assert(rounded == b);
                pattern = if rounded >= infinity as u128 { infinity } else { rounded as u64 };
            }
            proof {
                self.lemma_rounded(pattern as nat, exact);
            }
            pattern
        }
    }
}

} // verus!
