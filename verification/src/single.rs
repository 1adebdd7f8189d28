//! IEEE 754 binary32 numbers held as their bit patterns, with the arithmetic
//! that a model runtime does on them.
//!
//! Every operation is the exact result rounded to the nearest number, ties to
//! even. An operation without a numeric result gives the canonical quiet NaN.

use crate::rounding::{
    half_even, lemma_half_even_exact, lemma_half_even_scale, lemma_pow2_le, lemma_round_zero,
    lemma_ulp_shift_is, pow2_u128, round_scaled, round_units, scaled_den, scaled_num, ulp_shift,
    INFINITY_BITS,
};
use vstd::arithmetic::div_mod::{
    lemma_fundamental_div_mod, lemma_fundamental_div_mod_converse, lemma_mod_bound,
};
use vstd::arithmetic::power2::{lemma2_to64, lemma_pow2_adds, lemma_pow2_pos, pow2};
use vstd::prelude::*;

verus! {

/// The bit that carries the sign.
pub const SIGN_BIT: u32 = 0x8000_0000;

/// A binary32 number, by its bit pattern.
#[derive(Clone, Copy, Debug, PartialEq, Eq, Structural)]
pub struct Single {
    pub bits: u32,
}

impl Single {
    #[verifier::allow_in_spec]
    pub fn zero() -> Single
        returns
            (Single { bits: 0 }),
    {
        Single { bits: 0 }
    }

    #[verifier::allow_in_spec]
    pub fn one() -> Single
        returns
            (Single { bits: 0x3f80_0000 }),
    {
        Single { bits: 0x3f80_0000 }
    }

    #[verifier::allow_in_spec]
    pub fn two() -> Single
        returns
            (Single { bits: 0x4000_0000 }),
    {
        Single { bits: 0x4000_0000 }
    }

    #[verifier::allow_in_spec]
    pub fn three() -> Single
        returns
            (Single { bits: 0x4040_0000 }),
    {
        Single { bits: 0x4040_0000 }
    }

    #[verifier::allow_in_spec]
    pub fn ten() -> Single
        returns
            (Single { bits: 0x4120_0000 }),
    {
        Single { bits: 0x4120_0000 }
    }

    #[verifier::allow_in_spec]
    pub fn half() -> Single
        returns
            (Single { bits: 0x3f00_0000 }),
    {
        Single { bits: 0x3f00_0000 }
    }

    /// The gap between one and the next larger number, `2^-23`.
    #[verifier::allow_in_spec]
    pub fn epsilon() -> Single
        returns
            (Single { bits: 0x3400_0000 }),
    {
        Single { bits: 0x3400_0000 }
    }

    /// The quiet NaN that operations without a numeric result give.
    #[verifier::allow_in_spec]
    pub fn not_a_number() -> Single
        returns
            (Single { bits: 0x7fc0_0000 }),
    {
        Single { bits: 0x7fc0_0000 }
    }

    #[verifier::allow_in_spec]
    pub fn infinity() -> Single
        returns
            (Single { bits: 0x7f80_0000 }),
    {
        Single { bits: 0x7f80_0000 }
    }
}

/// How many units of `2^-149` a finite magnitude stands for.
pub open spec fn magnitude_units(mag: nat) -> nat {
    let exponent = mag / 0x80_0000;
    let fraction = mag % 0x80_0000;
    if exponent == 0 {
        fraction
    } else {
        (0x80_0000 + fraction) * pow2((exponent - 1) as nat)
    }
}

/// How many units of `2^-1074` a finite binary64 magnitude stands for.
pub open spec fn double_units(mag: nat) -> nat {
    let exponent = mag / 0x10_0000_0000_0000;
    let fraction = mag % 0x10_0000_0000_0000;
    if exponent == 0 {
        fraction
    } else {
        (0x10_0000_0000_0000 + fraction) * pow2((exponent - 1) as nat)
    }
}

/// The number with the given sign and magnitude bits.
pub open spec fn signed(negative: bool, mag: nat) -> Single {
    Single {
        bits: if negative {
            (mag + 0x8000_0000) as u32
        } else {
            mag as u32
        },
    }
}

/// The significand and exponent of a finite magnitude.
pub fn parts(mag: u32) -> (r: (u32, u32))
    requires
        mag < INFINITY_BITS,
    ensures
        magnitude_units(mag as nat) == r.0 * pow2(r.1 as nat),
        r.0 < 0x100_0000,
        r.1 <= 253,
        r.1 > 0 ==> r.0 >= 0x80_0000,
        mag == r.1 * 0x80_0000 + r.0,
        mag > 0 <==> r.0 > 0,
{
    let exponent: u32 = mag / 0x80_0000;
    let fraction: u32 = mag % 0x80_0000;
    proof {
        lemma2_to64();
    }
    if exponent == 0 {
        assert(fraction * pow2(0) == fraction) by (nonlinear_arith)
            requires
                pow2(0) == 1,
        ;
        (fraction, 0)
    } else {
        (0x80_0000 + fraction, exponent - 1)
    }
}

pub proof fn lemma_ulp_shift_bounds(p: nat, q: nat)
    requires
        q > 0,
    ensures
        p < q * pow2(24 + ulp_shift(p, q)),
        ulp_shift(p, q) == 0 || p >= q * pow2((23 + ulp_shift(p, q)) as nat),
    decreases p - q,
{
    lemma2_to64();
    if p >= q * 0x100_0000 {
        lemma_ulp_shift_bounds(p, 2 * q);
        let j = ulp_shift(p, 2 * q);
        lemma_pow2_adds(1, 24 + j);
        assert((2 * q) * pow2(24 + j) == q * pow2(25 + j)) by (nonlinear_arith)
            requires
                pow2(25 + j) == 2 * pow2(24 + j),
        ;
        if j > 0 {
            lemma_pow2_adds(1, (23 + j) as nat);
            assert((2 * q) * pow2((23 + j) as nat) == q * pow2((24 + j) as nat))
                by (nonlinear_arith)
                requires
                    pow2((24 + j) as nat) == 2 * pow2((23 + j) as nat),
            ;
        }
    }
}

/// Rounding depends on the ratio alone.
pub proof fn lemma_round_units_scale(p: nat, q: nat, c: nat)
    requires
        q > 0,
        c > 0,
    ensures
        round_units(p * c, q * c) == round_units(p, q),
{
    let k = ulp_shift(p, q);
    lemma_ulp_shift_bounds(p, q);
    let high = pow2(24 + k);
    let low = pow2((23 + k) as nat);
    assert(q * c > 0) by (nonlinear_arith)
        requires
            q > 0,
            c > 0,
    ;
    assert(p * c < (q * c) * high) by (nonlinear_arith)
        requires
            p < q * high,
            c > 0,
    ;
    if k > 0 {
        assert(p * c >= (q * c) * low) by (nonlinear_arith)
            requires
                p >= q * low,
                c > 0,
        ;
    }
    lemma_ulp_shift_is(p * c, q * c, k);
    lemma_pow2_pos(k);
    assert(q * pow2(k) > 0) by (nonlinear_arith)
        requires
            q > 0,
            pow2(k) > 0,
    ;
    lemma_half_even_scale(p, q * pow2(k), c);
    assert((q * c) * pow2(k) == (q * pow2(k)) * c) by (nonlinear_arith);
}

/// A finite number rounds to itself.
pub proof fn lemma_round_exact(mag: nat)
    requires
        mag < INFINITY_BITS,
    ensures
        round_units(magnitude_units(mag), 1) == mag,
{
    lemma2_to64();
    let e = mag / 0x80_0000;
    let f = mag % 0x80_0000;
    if e == 0 {
        lemma_ulp_shift_is(f, 1, 0);
        lemma_half_even_exact(f, 1);
    } else {
        let m = 0x80_0000 + f;
        let k = (e - 1) as nat;
        lemma_pow2_pos(k);
        lemma_pow2_adds(24, k);
        lemma_pow2_adds(23, k);
        assert(m * pow2(k) < 0x100_0000 * pow2(k)) by (nonlinear_arith)
            requires
                m < 0x100_0000,
                pow2(k) > 0,
        ;
        assert(m * pow2(k) >= 0x80_0000 * pow2(k)) by (nonlinear_arith)
            requires
                m >= 0x80_0000,
                pow2(k) > 0,
        ;
        lemma_ulp_shift_is(m * pow2(k), 1, k);
        lemma_half_even_exact(m, pow2(k));
    }
}

/// Adding less than a quarter of the last place changes nothing.
proof fn lemma_round_far(m: nat, e: nat, t: nat)
    requires
        0x80_0000 <= m < 0x100_0000,
        61 <= e <= 253,
        t < pow2((e - 37) as nat),
        e * 0x80_0000 + m < INFINITY_BITS,
    ensures
        round_units(m * pow2(e) + t, 1) == e * 0x80_0000 + m,
        m * pow2(e) >= t,
        round_units((m * pow2(e) - t) as nat, 1) == e * 0x80_0000 + m,
{
    lemma2_to64();
    let one = pow2(e);
    lemma_pow2_pos(e);
    lemma_pow2_adds(37, (e - 37) as nat);
    lemma_pow2_adds(5, 32);
    assert(pow2(37) == 0x20_0000_0000);
    assert(8 * t < one) by (nonlinear_arith)
        requires
            one == pow2(37) * pow2((e - 37) as nat),
            pow2(37) == 0x20_0000_0000,
            t < pow2((e - 37) as nat),
    ;
    lemma_pow2_adds(24, e);
    lemma_pow2_adds(23, e);
    assert(m * one <= 0xff_ffff * one) by (nonlinear_arith)
        requires
            m <= 0xff_ffff,
            one > 0,
    ;
    assert(m * one >= 0x80_0000 * one) by (nonlinear_arith)
        requires
            m >= 0x80_0000,
            one > 0,
    ;
    // Above.
    let p = m * one + t;
    lemma_ulp_shift_is(p, 1, e);
    lemma_fundamental_div_mod_converse(p as int, one as int, m as int, t as int);
    // Below.
    if t == 0 {
    } else if m > 0x80_0000 {
        let p = (m * one - t) as nat;
        assert(m * one >= 0x80_0001 * one) by (nonlinear_arith)
            requires
                m >= 0x80_0001,
                one > 0,
        ;
        lemma_ulp_shift_is(p, 1, e);
        assert((m - 1) * one == m * one - one) by (nonlinear_arith);
        lemma_fundamental_div_mod_converse(p as int, one as int, m - 1, one - t);
    } else {
        let p = (m * one - t) as nat;
        let below = pow2((e - 1) as nat);
        lemma_pow2_adds(1, (e - 1) as nat);
        assert(one == 2 * below);
        lemma_pow2_adds(24, (e - 1) as nat);
        lemma_pow2_adds(23, (e - 1) as nat);
        assert(m * one == 0x80_0000 * one);
        lemma_ulp_shift_is(p, 1, (e - 1) as nat);
        lemma_fundamental_div_mod_converse(p as int, below as int, 0xff_ffff, below - t);
    }
}

/// A quotient whose remainder is kept as one lowest bit rounds as the exact ratio.
proof fn lemma_sticky(n: nat, d: nat, half: nat, m: nat, s: nat)
    requires
        d > 0,
        s >= 2,
        2 * half * d <= n < (2 * half + 2) * d,
        m == 2 * half + (if n == 2 * half * d {
            0int
        } else {
            1int
        }),
    ensures
        half_even(n, d * pow2(s)) == half_even(m, pow2(s)),
{
    let place = pow2(s);
    let quarter = pow2((s - 2) as nat);
    lemma2_to64();
    lemma_pow2_adds(2, (s - 2) as nat);
    lemma_pow2_pos((s - 2) as nat);
    lemma_pow2_pos(s);
    assert(place == 4 * quarter);
    let w = (2 * half) / place;
    let r = (2 * half) % place;
    lemma_fundamental_div_mod((2 * half) as int, place as int);
    lemma_mod_bound((2 * half) as int, place as int);
    let g = (n - 2 * half * d) as nat;
    assert(g < 2 * d) by (nonlinear_arith)
        requires
            n < (2 * half + 2) * d,
            g == n - 2 * half * d,
    ;
    // r is even.
    assert(r == 2 * (half - 2 * (w * quarter))) by (nonlinear_arith)
        requires
            2 * half == place * w + r,
            place == 4 * quarter,
    ;
    let hr = half - 2 * (w * quarter);
    assert(r == 2 * hr);
    assert(r + 2 <= place);
    // The two divisions.
    assert(n == w * (d * place) + (r * d + g)) by (nonlinear_arith)
        requires
            n == 2 * half * d + g,
            2 * half == place * w + r,
    ;
    assert(0 <= r * d + g < d * place) by (nonlinear_arith)
        requires
            g < 2 * d,
            r + 2 <= place,
            d > 0,
            0 <= r,
            0 <= g,
    ;
    assert(d * place > 0) by (nonlinear_arith)
        requires
            d > 0,
            place > 0,
    ;
    lemma_fundamental_div_mod_converse(n as int, (d * place) as int, w as int, (r * d + g) as int);
    let extra: int = if g == 0 {
        0
    } else {
        1
    };
    assert(m == w * place + (r + extra)) by (nonlinear_arith)
        requires
            m == 2 * half + extra,
            2 * half == place * w + r,
    ;
    lemma_fundamental_div_mod_converse(m as int, place as int, w as int, r + extra);
    // Comparing the rests with half the place.
    let rest = r * d + g;
    if r < 2 * quarter {
        assert(r + 2 <= 2 * quarter);
        assert(2 * rest < d * place) by (nonlinear_arith)
            requires
                rest == r * d + g,
                g < 2 * d,
                r + 2 <= 2 * quarter,
                place == 4 * quarter,
                d > 0,
        ;
    } else if r == 2 * quarter {
        assert(2 * rest == d * place + 2 * g) by (nonlinear_arith)
            requires
                rest == r * d + g,
                r == 2 * quarter,
                place == 4 * quarter,
        ;
    } else {
        assert(2 * rest > d * place) by (nonlinear_arith)
            requires
                rest == r * d + g,
                r > 2 * quarter,
                place == 4 * quarter,
                d > 0,
                g >= 0,
        ;
    }
}

/// The number with the given sign and magnitude bits.
pub fn with_sign(negative: bool, mag: u32) -> (r: Single)
    requires
        mag <= INFINITY_BITS,
    ensures
        r == signed(negative, mag as nat),
        r.spec_is_negative() == negative,
        r.spec_magnitude() == mag,
{
    if negative {
        Single { bits: mag + SIGN_BIT }
    } else {
        Single { bits: mag }
    }
}

impl Single {
    pub open spec fn spec_is_negative(self) -> bool {
        self.bits >= SIGN_BIT
    }

    /// The bits without the sign.
    pub open spec fn spec_magnitude(self) -> u32 {
        if self.bits >= SIGN_BIT {
            (self.bits - SIGN_BIT) as u32
        } else {
            self.bits
        }
    }

    pub open spec fn spec_is_nan(self) -> bool {
        self.spec_magnitude() > INFINITY_BITS
    }

    pub open spec fn spec_is_infinite(self) -> bool {
        self.spec_magnitude() == INFINITY_BITS
    }

    pub open spec fn spec_is_finite(self) -> bool {
        self.spec_magnitude() < INFINITY_BITS
    }

    /// The magnitude in units of `2^-149`.
    pub open spec fn units(self) -> nat {
        magnitude_units(self.spec_magnitude() as nat)
    }

    /// The exact value of a finite number, in units of `2^-149`.
    pub open spec fn value(self) -> int {
        if self.spec_is_negative() {
            -(self.units() as int)
        } else {
            self.units() as int
        }
    }

    /// A key that orders all numbers but NaN by value, infinities at the ends.
    pub open spec fn rank(self) -> int {
        if self.spec_is_negative() {
            -(self.spec_magnitude() as int)
        } else {
            self.spec_magnitude() as int
        }
    }

    pub open spec fn spec_lt(self, other: Single) -> bool {
        !self.spec_is_nan() && !other.spec_is_nan() && self.rank() < other.rank()
    }

    pub open spec fn spec_le(self, other: Single) -> bool {
        !self.spec_is_nan() && !other.spec_is_nan() && self.rank() <= other.rank()
    }

    /// Numeric equality: NaN differs from everything, both zeros are one number.
    pub open spec fn spec_same(self, other: Single) -> bool {
        !self.spec_is_nan() && !other.spec_is_nan() && self.rank() == other.rank()
    }

    pub open spec fn spec_neg(self) -> Single {
        signed(!self.spec_is_negative(), self.spec_magnitude() as nat)
    }

    pub open spec fn spec_abs(self) -> Single {
        Single { bits: self.spec_magnitude() }
    }

    #[verifier::opaque]
    pub open spec fn spec_plus(self, other: Single) -> Single {
        if self.spec_is_nan() || other.spec_is_nan() {
            Single::not_a_number()
        } else if self.spec_is_infinite() {
            if other.spec_is_infinite() && other.bits != self.bits {
                Single::not_a_number()
            } else {
                self
            }
        } else if other.spec_is_infinite() {
            other
        } else {
            let exact = self.value() + other.value();
            if exact == 0 {
                signed(self.spec_is_negative() && other.spec_is_negative(), 0)
            } else if exact < 0 {
                signed(true, round_units((-exact) as nat, 1))
            } else {
                signed(false, round_units(exact as nat, 1))
            }
        }
    }

    pub open spec fn spec_minus(self, other: Single) -> Single {
        self.spec_plus(other.spec_neg())
    }

    #[verifier::opaque]
    pub open spec fn spec_times(self, other: Single) -> Single {
        let negative = self.spec_is_negative() != other.spec_is_negative();
        if self.spec_is_nan() || other.spec_is_nan() {
            Single::not_a_number()
        } else if self.spec_is_infinite() {
            if other.units() == 0 {
                Single::not_a_number()
            } else {
                signed(negative, INFINITY_BITS as nat)
            }
        } else if other.spec_is_infinite() {
            if self.units() == 0 {
                Single::not_a_number()
            } else {
                signed(negative, INFINITY_BITS as nat)
            }
        } else {
            signed(negative, round_units(self.units() * other.units(), pow2(149)))
        }
    }

    #[verifier::opaque]
    pub open spec fn spec_over(self, other: Single) -> Single {
        let negative = self.spec_is_negative() != other.spec_is_negative();
        if self.spec_is_nan() || other.spec_is_nan() {
            Single::not_a_number()
        } else if self.spec_is_infinite() {
            if other.spec_is_infinite() {
                Single::not_a_number()
            } else {
                signed(negative, INFINITY_BITS as nat)
            }
        } else if other.spec_is_infinite() {
            signed(negative, 0)
        } else if other.units() == 0 {
            if self.units() == 0 {
                Single::not_a_number()
            } else {
                signed(negative, INFINITY_BITS as nat)
            }
        } else {
            signed(negative, round_units(self.units() * pow2(149), other.units()))
        }
    }

    /// The remainder of truncated division, with the sign of the dividend.
    #[verifier::opaque]
    pub open spec fn spec_rem(self, other: Single) -> Single {
        if self.spec_is_nan() || other.spec_is_nan() || self.spec_is_infinite()
            || other.spec_magnitude() == 0 {
            Single::not_a_number()
        } else if other.spec_is_infinite() {
            self
        } else {
            signed(self.spec_is_negative(), round_units(self.units() % other.units(), 1))
        }
    }

    /// The least non-negative remainder, up to rounding.
    pub open spec fn spec_rem_euclid(self, other: Single) -> Single {
        let r = self.spec_rem(other);
        if r.spec_lt(Single::zero()) {
            r.spec_plus(other.spec_abs())
        } else {
            r
        }
    }

    /// The larger number; the other one where one is NaN.
    pub open spec fn spec_max(self, other: Single) -> Single {
        if self.spec_is_nan() || self.spec_lt(other) {
            other
        } else {
            self
        }
    }

    /// The smaller number; the other one where one is NaN.
    pub open spec fn spec_min(self, other: Single) -> Single {
        if self.spec_is_nan() || other.spec_lt(self) {
            other
        } else {
            self
        }
    }

    /// The number moved into `[low, high]`; NaN stays.
    pub open spec fn spec_clamp(self, low: Single, high: Single) -> Single {
        if self.spec_lt(low) {
            low
        } else if high.spec_lt(self) {
            high
        } else {
            self
        }
    }

    /// The number itself where finite, else the fallback.
    pub open spec fn spec_finite_or(self, fallback: Single) -> Single {
        if self.spec_is_finite() {
            self
        } else {
            fallback
        }
    }

    pub open spec fn spec_from_i64(n: i64) -> Single {
        if n < 0 {
            signed(true, round_units((-n) as nat * pow2(149), 1))
        } else {
            signed(false, round_units(n as nat * pow2(149), 1))
        }
    }

    /// The number nearest to a count.
    pub open spec fn spec_from_count(n: usize) -> Single {
        signed(false, round_units(n as nat * pow2(149), 1))
    }

    /// The number nearest to the binary64 number with the given bits.
    pub open spec fn spec_from_double(bits: u64) -> Single {
        let negative = bits >= 0x8000_0000_0000_0000;
        let mag = if negative {
            bits - 0x8000_0000_0000_0000
        } else {
            bits as int
        };
        if mag > 0x7ff0_0000_0000_0000 {
            Single::not_a_number()
        } else if mag == 0x7ff0_0000_0000_0000 {
            signed(negative, INFINITY_BITS as nat)
        } else {
            signed(negative, round_units(double_units(mag as nat), pow2(925)))
        }
    }

    /// The integer part of a number, held in `[0, high]`; zero for NaN.
    pub open spec fn whole_part(self, high: nat) -> nat {
        if self.spec_is_nan() || self.spec_is_negative() {
            0
        } else if self.spec_is_infinite() || self.units() / pow2(149) > high {
            high
        } else {
            self.units() / pow2(149)
        }
    }

    /// Whether a finite number is whole.
    pub open spec fn spec_is_whole(self) -> bool {
        self.units() % pow2(149) == 0
    }

    /// The whole number nearest to a finite number, halves away from zero.
    pub open spec fn nearest_whole(self) -> int {
        let n = ((2 * self.units() + pow2(149)) / (2 * pow2(149))) as int;
        if self.spec_is_negative() {
            -n
        } else {
            n
        }
    }

    /// The nearest whole number, held in `[low, high]`; zero for NaN.
    pub open spec fn rounded_into(self, low: int, high: int) -> int {
        if self.spec_is_nan() {
            0
        } else if self.spec_is_infinite() {
            if self.spec_is_negative() {
                low
            } else {
                high
            }
        } else if self.nearest_whole() < low {
            low
        } else if self.nearest_whole() > high {
            high
        } else {
            self.nearest_whole()
        }
    }

    #[verifier::when_used_as_spec(spec_is_negative)]
    pub fn is_negative(self) -> (r: bool)
        ensures
            r == self.spec_is_negative(),
    {
        self.bits >= SIGN_BIT
    }

    #[verifier::when_used_as_spec(spec_magnitude)]
    pub fn magnitude(self) -> (r: u32)
        ensures
            r == self.spec_magnitude(),
    {
        if self.bits >= SIGN_BIT {
            self.bits - SIGN_BIT
        } else {
            self.bits
        }
    }

    #[verifier::when_used_as_spec(spec_is_nan)]
    pub fn is_nan(self) -> (r: bool)
        ensures
            r == self.spec_is_nan(),
    {
        self.magnitude() > INFINITY_BITS
    }

    #[verifier::when_used_as_spec(spec_is_infinite)]
    pub fn is_infinite(self) -> (r: bool)
        ensures
            r == self.spec_is_infinite(),
    {
        self.magnitude() == INFINITY_BITS
    }

    #[verifier::when_used_as_spec(spec_is_finite)]
    pub fn is_finite(self) -> (r: bool)
        ensures
            r == self.spec_is_finite(),
    {
        self.magnitude() < INFINITY_BITS
    }

    /// Whether `self < other`; false where one is NaN.
    #[verifier::when_used_as_spec(spec_lt)]
    pub fn lt(self, other: Single) -> (r: bool)
        ensures
            r == self.spec_lt(other),
    {
        if self.is_nan() || other.is_nan() {
            return false;
        }
        let a: u32 = self.magnitude();
        let b: u32 = other.magnitude();
        if self.is_negative() {
            if other.is_negative() {
                b < a
            } else {
                a > 0 || b > 0
            }
        } else if other.is_negative() {
            false
        } else {
            a < b
        }
    }

    /// Whether `self <= other`; false where one is NaN.
    #[verifier::when_used_as_spec(spec_le)]
    pub fn le(self, other: Single) -> (r: bool)
        ensures
            r == self.spec_le(other),
    {
        !self.is_nan() && !other.is_nan() && !other.lt(self)
    }

    /// Whether both are one number; false where one is NaN.
    #[verifier::when_used_as_spec(spec_same)]
    pub fn same(self, other: Single) -> (r: bool)
        ensures
            r == self.spec_same(other),
    {
        self.le(other) && other.le(self)
    }

    #[verifier::when_used_as_spec(spec_neg)]
    pub fn neg(self) -> (r: Single)
        ensures
            r == self.spec_neg(),
    {
        if self.bits >= SIGN_BIT {
            Single { bits: self.bits - SIGN_BIT }
        } else {
            Single { bits: self.bits + SIGN_BIT }
        }
    }

    #[verifier::when_used_as_spec(spec_abs)]
    pub fn abs(self) -> (r: Single)
        ensures
            r == self.spec_abs(),
    {
        Single { bits: self.magnitude() }
    }

    #[verifier::when_used_as_spec(spec_max)]
    pub fn max(self, other: Single) -> (r: Single)
        ensures
            r == self.spec_max(other),
    {
        if self.is_nan() || self.lt(other) {
            other
        } else {
            self
        }
    }

    #[verifier::when_used_as_spec(spec_min)]
    pub fn min(self, other: Single) -> (r: Single)
        ensures
            r == self.spec_min(other),
    {
        if self.is_nan() || other.lt(self) {
            other
        } else {
            self
        }
    }

    #[verifier::when_used_as_spec(spec_clamp)]
    pub fn clamp(self, low: Single, high: Single) -> (r: Single)
        requires
            low.spec_le(high),
        ensures
            r == self.spec_clamp(low, high),
    {
        if self.lt(low) {
            low
        } else if high.lt(self) {
            high
        } else {
            self
        }
    }

    #[verifier::when_used_as_spec(spec_finite_or)]
    pub fn finite_or(self, fallback: Single) -> (r: Single)
        ensures
            r == self.spec_finite_or(fallback),
    {
        if self.is_finite() {
            self
        } else {
            fallback
        }
    }

    #[verifier::when_used_as_spec(spec_plus)]
    pub fn plus(self, other: Single) -> (r: Single)
        ensures
            r == self.spec_plus(other),
    {
        proof {
            reveal(Single::spec_plus);
        }
        if self.is_nan() || other.is_nan() {
            return Single::not_a_number();
        }
        if self.is_infinite() {
            if other.is_infinite() && other.bits != self.bits {
                return Single::not_a_number();
            }
            return self;
        }
        if other.is_infinite() {
            return other;
        }
        let (ma, ea) = parts(self.magnitude());
        let (mb, eb) = parts(other.magnitude());
        if ea >= eb {
            sum_by_exponent(self, other, ma, ea, mb, eb)
        } else {
            sum_by_exponent(other, self, mb, eb, ma, ea)
        }
    }

    #[verifier::when_used_as_spec(spec_minus)]
    pub fn minus(self, other: Single) -> (r: Single)
        ensures
            r == self.spec_minus(other),
    {
        self.plus(other.neg())
    }

    #[verifier::when_used_as_spec(spec_times)]
    pub fn times(self, other: Single) -> (r: Single)
        ensures
            r == self.spec_times(other),
    {
        proof {
            reveal(Single::spec_times);
        }
        let negative = self.is_negative() != other.is_negative();
        proof {
            lemma_units_zero(self);
            lemma_units_zero(other);
        }
        if self.is_nan() || other.is_nan() {
            return Single::not_a_number();
        }
        if self.is_infinite() || other.is_infinite() {
            if self.magnitude() == 0 || other.magnitude() == 0 {
                return Single::not_a_number();
            }
            return with_sign(negative, INFINITY_BITS);
        }
        let (ma, ea) = parts(self.magnitude());
        let (mb, eb) = parts(other.magnitude());
        proof {
            lemma2_to64();
            lemma_pow2_le(48, 120);
            lemma_pow2_adds(24, 24);
            assert(ma * mb < 0x100_0000 * 0x100_0000) by (nonlinear_arith)
                requires
                    0 <= ma < 0x100_0000,
                    0 <= mb < 0x100_0000,
            ;
        }
        let m: u128 = ma as u128 * mb as u128;
        let x: i32 = ea as i32 + eb as i32 - 149;
        proof {
            let p = self.units() * other.units();
            lemma_pow2_adds(ea as nat, eb as nat);
            assert(p == m as nat * pow2((ea + eb) as nat)) by (nonlinear_arith)
                requires
                    p == (ma as nat * pow2(ea as nat)) * (mb as nat * pow2(eb as nat)),
                    m == ma * mb,
                    pow2((ea + eb) as nat) == pow2(ea as nat) * pow2(eb as nat),
            ;
            lemma_scaled_ratio(m as nat, (ea + eb) as nat, 149);
        }
        with_sign(negative, round_scaled(m, x))
    }

    #[verifier::when_used_as_spec(spec_over)]
    pub fn over(self, other: Single) -> (r: Single)
        ensures
            r == self.spec_over(other),
    {
        proof {
            reveal(Single::spec_over);
        }
        let negative = self.is_negative() != other.is_negative();
        proof {
            lemma_units_zero(self);
            lemma_units_zero(other);
        }
        if self.is_nan() || other.is_nan() {
            return Single::not_a_number();
        }
        if self.is_infinite() {
            if other.is_infinite() {
                return Single::not_a_number();
            }
            return with_sign(negative, INFINITY_BITS);
        }
        if other.is_infinite() {
            return with_sign(negative, 0);
        }
        if other.magnitude() == 0 {
            if self.magnitude() == 0 {
                return Single::not_a_number();
            }
            return with_sign(negative, INFINITY_BITS);
        }
        let (ma, ea) = parts(self.magnitude());
        let (mb, eb) = parts(other.magnitude());
        if ma == 0 {
            proof {
                assert(self.units() * pow2(149) == 0) by (nonlinear_arith)
                    requires
                        self.units() == 0,
                ;
                lemma_round_zero(other.units());
            }
            return with_sign(negative, 0);
        }
        let (m, x) = quotient_bits(ma, ea, mb, eb);
        with_sign(negative, round_scaled(m, x))
    }

    #[verifier::when_used_as_spec(spec_rem)]
    pub fn rem(self, other: Single) -> (r: Single)
        ensures
            r == self.spec_rem(other),
    {
        proof {
            reveal(Single::spec_rem);
        }
        if self.is_nan() || other.is_nan() || self.is_infinite() || other.magnitude() == 0 {
            return Single::not_a_number();
        }
        if other.is_infinite() {
            return self;
        }
        let (ma, ea) = parts(self.magnitude());
        let (mb, eb) = parts(other.magnitude());
        let (m, e) = rem_bits(ma, ea, mb, eb);
        proof {
            lemma2_to64();
            lemma_pow2_le(24, 120);
        }
        with_sign(self.is_negative(), round_scaled(m as u128, e as i32))
    }

    #[verifier::when_used_as_spec(spec_rem_euclid)]
    pub fn rem_euclid(self, other: Single) -> (r: Single)
        ensures
            r == self.spec_rem_euclid(other),
    {
        let r = self.rem(other);
        if r.lt(Single::zero()) {
            r.plus(other.abs())
        } else {
            r
        }
    }

    pub fn from_double(bits: u64) -> (r: Single)
        ensures
            r == Single::spec_from_double(bits),
    {
        let negative = bits >= 0x8000_0000_0000_0000;
        let mag: u64 = if negative {
            bits - 0x8000_0000_0000_0000
        } else {
            bits
        };
        if mag > 0x7ff0_0000_0000_0000 {
            return Single::not_a_number();
        }
        if mag == 0x7ff0_0000_0000_0000 {
            return with_sign(negative, INFINITY_BITS);
        }
        let exponent: u64 = mag / 0x10_0000_0000_0000;
        let fraction: u64 = mag % 0x10_0000_0000_0000;
        proof {
            lemma2_to64();
            lemma_pow2_le(64, 120);
        }
        if exponent == 0 {
            proof {
                lemma_scaled_ratio(fraction as nat, 0, 925);
                assert(fraction as nat * pow2(0) == fraction) by (nonlinear_arith)
                    requires
                        pow2(0) == 1,
                ;
            }
            with_sign(negative, round_scaled(fraction as u128, -925))
        } else {
            let m: u64 = 0x10_0000_0000_0000 + fraction;
            proof {
                lemma_scaled_ratio(m as nat, (exponent - 1) as nat, 925);
            }
            with_sign(negative, round_scaled(m as u128, exponent as i32 - 926))
        }
    }

    /// The integer part, held in `[0, high]`.
    pub fn whole(self, high: u64) -> (r: u64)
        ensures
            r == self.whole_part(high as nat),
    {
        if self.is_nan() || self.is_negative() {
            return 0;
        }
        if self.is_infinite() {
            return high;
        }
        let (m, e) = parts(self.magnitude());
        let (n, _fraction) = split_whole(m, e);
        if n > high as u128 {
            high
        } else {
            n as u64
        }
    }

    /// Whether a finite number is whole.
    #[verifier::when_used_as_spec(spec_is_whole)]
    pub fn is_whole(self) -> (r: bool)
        requires
            self.spec_is_finite(),
        ensures
            r == self.spec_is_whole(),
    {
        let (m, e) = parts(self.magnitude());
        let (_n, fraction) = split_whole(m, e);
        !fraction
    }

    /// The nearest whole number, held in `[low, high]`.
    pub fn rounded(self, low: i64, high: i64) -> (r: i64)
        requires
            low <= 0 <= high,
        ensures
            r == self.rounded_into(low as int, high as int),
    {
        if self.is_nan() {
            return 0;
        }
        if self.is_infinite() {
            return if self.is_negative() {
                low
            } else {
                high
            };
        }
        let (m, e) = parts(self.magnitude());
        let n: u128 = nearest_bits(m, e);
        if self.is_negative() {
            if n > (-(low as i128)) as u128 {
                low
            } else {
                (-(n as i128)) as i64
            }
        } else if n > high as u128 {
            high
        } else {
            n as i64
        }
    }

    pub fn from_i64(n: i64) -> (r: Single)
        ensures
            r == Single::spec_from_i64(n),
    {
        let m: u128 = if n < 0 {
            (-(n as i128)) as u128
        } else {
            n as u128
        };
        proof {
            lemma2_to64();
            lemma_pow2_le(64, 120);
        }
        with_sign(n < 0, round_scaled(m, 149))
    }

    /// The number nearest to a count.
    #[verifier::when_used_as_spec(spec_from_count)]
    pub fn from_count(n: usize) -> (r: Single)
        ensures
            r == Single::spec_from_count(n),
    {
        proof {
            lemma2_to64();
            lemma_pow2_le(64, 120);
        }
        with_sign(false, round_scaled(n as u128, 149))
    }
}

proof fn lemma_units_zero(a: Single)
    ensures
        a.units() == 0 <==> a.spec_magnitude() == 0,
{
    let mag = a.spec_magnitude() as nat;
    let e = mag / 0x80_0000;
    if e > 0 {
        lemma_pow2_pos((e - 1) as nat);
        assert((0x80_0000 + mag % 0x80_0000) * pow2((e - 1) as nat) > 0) by (nonlinear_arith)
            requires
                pow2((e - 1) as nat) > 0,
                0x80_0000 + mag % 0x80_0000 > 0,
        ;
    }
}

/// `m * 2^a / 2^b` is `m * 2^(a - b)`.
proof fn lemma_scaled_ratio(m: nat, a: nat, b: nat)
    ensures
        round_units(m * pow2(a), pow2(b)) == round_units(scaled_num(m, a - b), scaled_den(a - b)),
{
    lemma_pow2_pos(a);
    lemma_pow2_pos(b);
    if a >= b {
        let c = (a - b) as nat;
        lemma_pow2_adds(c, b);
        assert(m * pow2(a) == (m * pow2(c)) * pow2(b)) by (nonlinear_arith)
            requires
                pow2(a) == pow2(c) * pow2(b),
        ;
        lemma_round_units_scale(m * pow2(c), 1, pow2(b));
    } else {
        let c = (b - a) as nat;
        lemma_pow2_adds(c, a);
        lemma_pow2_pos(c);
        lemma_round_units_scale(m, pow2(c), pow2(a));
    }
}

/// A number far below the last place of another one changes nothing.
proof fn lemma_sum_far(a: Single, b: Single, ma: nat, ea: nat, mb: nat, eb: nat)
    requires
        a.spec_is_finite(),
        b.spec_is_finite(),
        a.units() == ma * pow2(ea),
        b.units() == mb * pow2(eb),
        0x80_0000 <= ma < 0x100_0000,
        mb < 0x100_0000,
        eb + 60 < ea <= 253,
        a.spec_magnitude() == ea * 0x80_0000 + ma,
    ensures
        a.spec_plus(b) == a,
        b.spec_plus(a) == a,
{
    reveal(Single::spec_plus);
    lemma2_to64();
    let t = b.units();
    lemma_pow2_adds(24, eb);
    lemma_pow2_pos(eb);
    assert(t < pow2(24 + eb)) by (nonlinear_arith)
        requires
            t == mb * pow2(eb),
            mb < 0x100_0000,
            pow2(eb) > 0,
            pow2(24 + eb) == 0x100_0000 * pow2(eb),
    ;
    lemma_pow2_le(24 + eb, (ea - 37) as nat);
    lemma_round_far(ma, ea, t);
    lemma_pow2_pos(ea);
    lemma_pow2_adds(37, (ea - 37) as nat);
    assert(ma * pow2(ea) > t) by (nonlinear_arith)
        requires
            ma >= 0x80_0000,
            t < pow2((ea - 37) as nat),
            pow2(ea) == pow2(37) * pow2((ea - 37) as nat),
            pow2(37) >= 1,
    ;
}

/// The sum of two finite numbers, the one with the larger exponent first.
#[verifier::rlimit(30)]
fn sum_by_exponent(a: Single, b: Single, ma: u32, ea: u32, mb: u32, eb: u32) -> (r: Single)
    requires
        a.spec_is_finite(),
        b.spec_is_finite(),
        a.units() == ma * pow2(ea as nat),
        b.units() == mb * pow2(eb as nat),
        ma < 0x100_0000,
        mb < 0x100_0000,
        eb <= ea <= 253,
        ea > 0 ==> ma >= 0x80_0000,
        a.spec_magnitude() == ea * 0x80_0000 + ma,
    ensures
        r == a.spec_plus(b),
        r == b.spec_plus(a),
{
    proof {
        reveal(Single::spec_plus);
    }
    let d: u32 = ea - eb;
    let same_sign = a.is_negative() == b.is_negative();
    if d > 60 {
        proof {
            lemma_sum_far(a, b, ma as nat, ea as nat, mb as nat, eb as nat);
        }
        return a;
    }
    proof {
        lemma2_to64();
        lemma_pow2_le(d as nat, 60);
        lemma_pow2_adds(28, 32);
        lemma_pow2_le(86, 120);
        lemma_pow2_adds(26, 60);
        lemma_pow2_pos(d as nat);
        assert(ma * pow2(d as nat) <= 0xff_ffff * pow2(60)) by (nonlinear_arith)
            requires
                0 <= ma <= 0xff_ffff,
                0 <= pow2(d as nat) <= pow2(60),
        ;
        lemma_pow2_adds(d as nat, eb as nat);
    }
    let factor: u128 = pow2_u128(d);
    let hi: u128 = ma as u128 * factor;
    let lo: u128 = mb as u128;
    let ghost one = pow2(eb as nat);
    proof {
        lemma_pow2_pos(eb as nat);
        assert(a.units() == hi as nat * one) by (nonlinear_arith)
            requires
                a.units() == ma * pow2(ea as nat),
                hi == ma * pow2(d as nat),
                pow2(ea as nat) == pow2(d as nat) * one,
        ;
    }
    if same_sign {
        let s: u128 = hi + lo;
        proof {
            assert(s as nat * one == a.units() + b.units()) by (nonlinear_arith)
                requires
                    s == hi + lo,
                    a.units() == hi as nat * one,
                    b.units() == lo as nat * one,
            ;
        }
        if s == 0 {
            return with_sign(a.is_negative(), 0);
        }
        proof {
            assert(s as nat * one > 0) by (nonlinear_arith)
                requires
                    s > 0,
                    one > 0,
            ;
        }
        return with_sign(a.is_negative(), round_scaled(s, eb as i32));
    }
    if hi == lo {
        return Single::zero();
    }
    if hi > lo {
        let s: u128 = hi - lo;
        proof {
            assert(s as nat * one == a.units() - b.units()) by (nonlinear_arith)
                requires
                    s == hi - lo,
                    a.units() == hi as nat * one,
                    b.units() == lo as nat * one,
            ;
            assert(s as nat * one > 0) by (nonlinear_arith)
                requires
                    s > 0,
                    one > 0,
            ;
        }
        with_sign(a.is_negative(), round_scaled(s, eb as i32))
    } else {
        let s: u128 = lo - hi;
        proof {
            assert(s as nat * one == b.units() - a.units()) by (nonlinear_arith)
                requires
                    s == lo - hi,
                    a.units() == hi as nat * one,
                    b.units() == lo as nat * one,
            ;
            assert(s as nat * one > 0) by (nonlinear_arith)
                requires
                    s > 0,
                    one > 0,
            ;
            lemma_pow2_le(24, 120);
        }
        with_sign(b.is_negative(), round_scaled(s, eb as i32))
    }
}

/// A scaled integer that rounds as `(ma * 2^ea) / (mb * 2^eb)`.
fn quotient_bits(ma: u32, ea: u32, mb: u32, eb: u32) -> (r: (u128, i32))
    requires
        0 < ma < 0x100_0000,
        0 < mb < 0x100_0000,
        ea <= 253,
        eb <= 253,
    ensures
        r.0 < pow2(120),
        -1200 <= r.1 <= 1200,
        round_units(scaled_num(r.0 as nat, r.1 as int), scaled_den(r.1 as int)) == round_units(
            (ma * pow2(ea as nat)) as nat * pow2(149),
            (mb * pow2(eb as nat)) as nat,
        ),
{
    let num: u128 = ma as u128 * 0x1_0000_0000_0000_0000;
    let q: u128 = num / (mb as u128);
    let rest: u128 = num % (mb as u128);
    let m: u128 = if rest == 0 {
        2 * q
    } else {
        2 * q + 1
    };
    let x: i32 = ea as i32 - eb as i32 + 84;
    proof {
        lemma2_to64();
        lemma_pow2_adds(24, 64);
        lemma_pow2_adds(2, 88);
        lemma_pow2_le(90, 120);
        lemma_fundamental_div_mod(num as int, mb as int);
        lemma_mod_bound(num as int, mb as int);
        assert(q <= num) by (nonlinear_arith)
            requires
                num == mb * q + rest,
                mb >= 1,
                rest >= 0,
                q >= 0,
        ;
        let n = (2 * num) as nat;
        let d = mb as nat;
        assert(2 * q * d <= n < (2 * q + 2) * d) by (nonlinear_arith)
            requires
                n == 2 * num,
                num == d * q + rest,
                0 <= rest < d,
        ;
        assert(n == 2 * q * d <==> rest == 0) by (nonlinear_arith)
            requires
                n == 2 * num,
                num == d * q + rest,
        ;
        // The quotient is large enough for the lowest bit to be out of the way.
        lemma_pow2_adds(8, 32);
        assert(q + 1 > 0x100_0000_0000) by (nonlinear_arith)
            requires
                num == mb * q + rest,
                num >= 0x1_0000_0000_0000_0000,
                0 <= rest < mb,
                0 < mb < 0x100_0000,
                q >= 0,
        ;
        lemma_quotient_rounds(n, d, q as nat, m as nat, x as int);
        // The ratio is the wanted one.
        let p1 = (ma * pow2(ea as nat)) as nat * pow2(149);
        let q1 = (mb * pow2(eb as nat)) as nat;
        lemma_quotient_ratio(ma as nat, ea as nat, mb as nat, eb as nat);
    }
    (m, x)
}

/// Rounding a ratio through the quotient with a sticky lowest bit.
proof fn lemma_quotient_rounds(n: nat, d: nat, half: nat, m: nat, x: int)
    requires
        d > 0,
        2 * half * d <= n < (2 * half + 2) * d,
        m == 2 * half + (if n == 2 * half * d {
            0int
        } else {
            1int
        }),
        2 * half >= pow2(40),
    ensures
        round_units(scaled_num(m, x), scaled_den(x)) == round_units(
            scaled_num(n, x),
            d * scaled_den(x),
        ),
{
    let p = scaled_num(m, x);
    let q = scaled_den(x);
    if x < 0 {
        lemma_pow2_pos((-x) as nat);
    }
    lemma_ulp_shift_bounds(p, q);
    let k = ulp_shift(p, q);
    // The last place lies above the lowest bit of m.
    let s = k - x;
    if s <= 16 {
        // Then m * 2^x < 2^(24 + k) would give m < 2^40.
        if x >= 0 {
            let xn = x as nat;
            lemma_pow2_le(24 + k, 40 + xn);
            lemma_pow2_adds(40, xn);
            lemma_pow2_pos(xn);
            assert(m * pow2(xn) < pow2(40) * pow2(xn));
            assert(m < pow2(40)) by (nonlinear_arith)
                requires
                    m * pow2(xn) < pow2(40) * pow2(xn),
                    pow2(xn) > 0,
            ;
        } else {
            let xn = (-x) as nat;
            lemma_pow2_adds(xn, 24 + k);
            lemma_pow2_le(xn + 24 + k, 40);
        }
        assert(false);
    }
    let s = s as nat;
    // Both ratios have the same last place.
    let p2 = scaled_num(n, x);
    let q2 = d * scaled_den(x);
    let j = (24 + s) as nat;
    let i = (23 + s) as nat;
    lemma_same_side(n, d, half, m, j);
    lemma_same_side(n, d, half, m, i);
    if x >= 0 {
        let xn = x as nat;
        lemma_pow2_adds(j, xn);
        lemma_pow2_adds(i, xn);
        lemma_pow2_pos(xn);
        assert(m < pow2(j)) by (nonlinear_arith)
            requires
                m * pow2(xn) < pow2(j) * pow2(xn),
                pow2(xn) > 0,
        ;
        assert(p2 < q2 * pow2(24 + k)) by (nonlinear_arith)
            requires
                p2 == n * pow2(xn),
                q2 == d,
                n < d * pow2(j),
                pow2(24 + k) == pow2(j) * pow2(xn),
                pow2(xn) > 0,
        ;
        if k > 0 {
            assert(m >= pow2(i)) by (nonlinear_arith)
                requires
                    m * pow2(xn) >= pow2(i) * pow2(xn),
                    pow2(xn) > 0,
            ;
            assert(p2 >= q2 * pow2((23 + k) as nat)) by (nonlinear_arith)
                requires
                    p2 == n * pow2(xn),
                    q2 == d,
                    n >= d * pow2(i),
                    pow2((23 + k) as nat) == pow2(i) * pow2(xn),
                    pow2(xn) > 0,
            ;
        }
        lemma_ulp_shift_is(p2, q2, k);
        // The quotient by the last place.
        lemma_pow2_adds(s, xn);
        lemma_pow2_pos(s);
        lemma_half_even_scale(m, pow2(s), pow2(xn));
        assert(d * pow2(s) > 0) by (nonlinear_arith)
            requires
                d > 0,
                pow2(s) > 0,
        ;
        lemma_half_even_scale(n, d * pow2(s), pow2(xn));
        assert(d * pow2(k) == (d * pow2(s)) * pow2(xn)) by (nonlinear_arith)
            requires
                pow2(k) == pow2(s) * pow2(xn),
        ;
    } else {
        let xn = (-x) as nat;
        lemma_pow2_adds(xn, 24 + k);
        lemma_pow2_adds(xn, (23 + k) as nat);
        lemma_pow2_pos(xn);
        assert(q2 * pow2(24 + k) == d * pow2(j)) by (nonlinear_arith)
            requires
                q2 == d * pow2(xn),
                pow2(j) == pow2(xn) * pow2(24 + k),
        ;
        assert(q2 * pow2((23 + k) as nat) == d * pow2(i)) by (nonlinear_arith)
            requires
                q2 == d * pow2(xn),
                pow2(i) == pow2(xn) * pow2((23 + k) as nat),
        ;
        assert(q2 > 0) by (nonlinear_arith)
            requires
                q2 == d * pow2(xn),
                d > 0,
                pow2(xn) > 0,
        ;
        lemma_ulp_shift_is(p2, q2, k);
        lemma_pow2_adds(xn, k);
        assert(q2 * pow2(k) == d * pow2(s)) by (nonlinear_arith)
            requires
                q2 == d * pow2(xn),
                pow2(s) == pow2(xn) * pow2(k),
        ;
    }
    lemma_sticky(n, d, half, m, s);
}

/// The ratio and its quotient with a sticky bit lie on one side of `2^j`.
proof fn lemma_same_side(n: nat, d: nat, half: nat, m: nat, j: nat)
    requires
        d > 0,
        j >= 1,
        2 * half * d <= n < (2 * half + 2) * d,
        2 * half <= m <= 2 * half + 1,
    ensures
        n < d * pow2(j) <==> m < pow2(j),
{
    lemma2_to64();
    lemma_pow2_adds(1, (j - 1) as nat);
    let c = pow2((j - 1) as nat);
    assert(pow2(j) == 2 * c);
    if m < pow2(j) {
        assert(half + 1 <= c);
        assert(n < d * pow2(j)) by (nonlinear_arith)
            requires
                n < (2 * half + 2) * d,
                half + 1 <= c,
                pow2(j) == 2 * c,
                d > 0,
        ;
    } else {
        assert(half >= c);
        assert(n >= d * pow2(j)) by (nonlinear_arith)
            requires
                n >= 2 * half * d,
                half >= c,
                pow2(j) == 2 * c,
                d > 0,
        ;
    }
}

proof fn lemma_quotient_ratio(ma: nat, ea: nat, mb: nat, eb: nat)
    requires
        mb > 0,
        ea <= 253,
        eb <= 253,
    ensures
        round_units(
            scaled_num(2 * (ma * 0x1_0000_0000_0000_0000), ea - eb + 84),
            mb * scaled_den(ea - eb + 84),
        ) == round_units((ma * pow2(ea)) * pow2(149), mb * pow2(eb)),
{
    lemma2_to64();
    let n = 2 * (ma * 0x1_0000_0000_0000_0000);
    lemma_pow2_adds(1, 64);
    lemma_pow2_adds(65, 84);
    let w = pow2(65);
    let v = pow2(84);
    assert(n == ma * w) by (nonlinear_arith)
        requires
            n == 2 * (ma * 0x1_0000_0000_0000_0000),
            w == 2 * 0x1_0000_0000_0000_0000,
    ;
    let x = ea - eb + 84;
    lemma_pow2_pos(eb);
    lemma_pow2_pos(ea);
    lemma_pow2_pos(84);
    lemma_pow2_adds(ea, 84);
    let p = (ma * pow2(ea)) * pow2(149);
    let q = mb * pow2(eb);
    assert(p == n * pow2(ea + 84)) by (nonlinear_arith)
        requires
            p == (ma * pow2(ea)) * pow2(149),
            pow2(149) == w * v,
            n == ma * w,
            pow2(ea + 84) == pow2(ea) * v,
    ;
    if x >= 0 {
        let xn = x as nat;
        lemma_pow2_adds(xn, eb);
        assert(p == (n * pow2(xn)) * pow2(eb)) by (nonlinear_arith)
            requires
                p == n * pow2(ea + 84),
                pow2(ea + 84) == pow2(xn) * pow2(eb),
        ;
        lemma_round_units_scale(n * pow2(xn), mb, pow2(eb));
    } else {
        let xn = (-x) as nat;
        lemma_pow2_adds(xn, ea + 84);
        lemma_pow2_pos(xn);
        lemma_pow2_pos(ea + 84);
        assert(q == (mb * pow2(xn)) * pow2(ea + 84)) by (nonlinear_arith)
            requires
                q == mb * pow2(eb),
                pow2(eb) == pow2(xn) * pow2(ea + 84),
        ;
        assert(mb * pow2(xn) > 0) by (nonlinear_arith)
            requires
                mb > 0,
                pow2(xn) > 0,
        ;
        lemma_round_units_scale(n, mb * pow2(xn), pow2(ea + 84));
    }
}

/// The remainder of `ma * 2^ea` by `mb * 2^eb`, as a scaled integer.
fn rem_bits(ma: u32, ea: u32, mb: u32, eb: u32) -> (r: (u32, u32))
    requires
        ma < 0x100_0000,
        0 < mb < 0x100_0000,
        ea <= 253,
        eb <= 253,
    ensures
        r.0 < 0x100_0000,
        r.1 <= 253,
        r.0 * pow2(r.1 as nat) == (ma * pow2(ea as nat)) as nat % (mb * pow2(eb as nat)) as nat,
{
    if ea >= eb {
        let d: u32 = ea - eb;
        let mut r: u32 = ma % mb;
        let mut i: u32 = 0;
        proof {
            lemma2_to64();
            assert(ma * pow2(0) == ma) by (nonlinear_arith)
                requires
                    pow2(0) == 1,
            ;
        }
        while i < d
            invariant
                i <= d,
                r < mb < 0x100_0000,
                r == (ma * pow2(i as nat)) as nat % mb as nat,
            decreases d - i,
        {
            proof {
                lemma2_to64();
                lemma_pow2_adds(i as nat, 1);
                let w = (ma * pow2(i as nat)) as nat;
                assert(ma * pow2((i + 1) as nat) == 2 * w) by (nonlinear_arith)
                    requires
                        pow2((i + 1) as nat) == pow2(i as nat) * 2,
                        w == ma * pow2(i as nat),
                ;
                vstd::arithmetic::div_mod::lemma_mul_mod_noop_right(2, w as int, mb as int);
            }
            r = (2 * r) % mb;
            i = i + 1;
        }
        proof {
            lemma_pow2_adds(d as nat, eb as nat);
            lemma_pow2_pos(eb as nat);
            let w = (ma * pow2(d as nat)) as nat;
            assert(ma * pow2(ea as nat) == w * pow2(eb as nat)) by (nonlinear_arith)
                requires
                    pow2(ea as nat) == pow2(d as nat) * pow2(eb as nat),
                    w == ma * pow2(d as nat),
            ;
            lemma_mod_scale(w, mb as nat, pow2(eb as nat));
        }
        (r, eb)
    } else {
        let d: u32 = eb - ea;
        proof {
            lemma2_to64();
            lemma_pow2_adds(d as nat, ea as nat);
            lemma_pow2_pos(ea as nat);
            lemma_pow2_pos(d as nat);
            assert(mb * pow2(eb as nat) == (mb * pow2(d as nat)) * pow2(ea as nat))
                by (nonlinear_arith)
                requires
                    pow2(eb as nat) == pow2(d as nat) * pow2(ea as nat),
            ;
            let divisor = (mb * pow2(d as nat)) as nat;
            assert(divisor > 0) by (nonlinear_arith)
                requires
                    divisor == mb * pow2(d as nat),
                    mb > 0,
                    pow2(d as nat) > 0,
            ;
            lemma_mod_scale(ma as nat, divisor, pow2(ea as nat));
        }
        if d > 40 {
            proof {
                lemma_pow2_le(24, d as nat);
                assert(ma < mb * pow2(d as nat)) by (nonlinear_arith)
                    requires
                        ma < 0x100_0000,
                        mb >= 1,
                        pow2(d as nat) >= 0x100_0000,
                ;
                vstd::arithmetic::div_mod::lemma_small_mod(
                    ma as nat,
                    (mb * pow2(d as nat)) as nat,
                );
            }
            (ma, ea)
        } else {
            proof {
                lemma_pow2_le(d as nat, 40);
                lemma_pow2_adds(8, 32);
                assert(mb * pow2(d as nat) <= 0x100_0000 * pow2(40)) by (nonlinear_arith)
                    requires
                        mb <= 0x100_0000,
                        pow2(d as nat) <= pow2(40),
                        mb >= 0,
                        pow2(d as nat) >= 0,
                ;
            }
            let divisor: u128 = mb as u128 * pow2_u128(d);
            let r: u128 = ma as u128 % divisor;
            proof {
                vstd::arithmetic::div_mod::lemma_mod_decreases(ma as nat, divisor as nat);
            }
            (r as u32, ea)
        }
    }
}

/// Scaling both sides scales the remainder.
proof fn lemma_mod_scale(p: nat, q: nat, c: nat)
    requires
        q > 0,
        c > 0,
    ensures
        (p * c) % (q * c) == (p % q) * c,
        (p * c) / (q * c) == p / q,
{
    let f = p / q;
    let r = p % q;
    lemma_fundamental_div_mod(p as int, q as int);
    lemma_mod_bound(p as int, q as int);
    assert(p * c == f * (q * c) + r * c) by (nonlinear_arith)
        requires
            p == q * f + r,
    ;
    assert(0 <= r * c < q * c) by (nonlinear_arith)
        requires
            0 <= r < q,
            c > 0,
    ;
    lemma_fundamental_div_mod_converse((p * c) as int, (q * c) as int, f as int, (r * c) as int);
}

/// The integer part of `m * 2^e` units in whole numbers, and whether a fraction is left.
fn split_whole(m: u32, e: u32) -> (r: (u128, bool))
    requires
        m < 0x100_0000,
        e <= 253,
    ensures
        r.0 == (m * pow2(e as nat)) as nat / pow2(149),
        r.1 == ((m * pow2(e as nat)) as nat % pow2(149) != 0),
{
    proof {
        lemma2_to64();
        lemma_pow2_pos(149);
        lemma_pow2_pos(e as nat);
    }
    if e >= 149 {
        let d: u32 = e - 149;
        proof {
            lemma_pow2_adds(d as nat, 149);
            lemma_pow2_le(d as nat, 104);
            lemma_pow2_adds(40, 64);
            lemma_pow2_adds(8, 32);
            lemma_pow2_pos(d as nat);
            let w = (m * pow2(d as nat)) as nat;
            assert(m * pow2(e as nat) == w * pow2(149)) by (nonlinear_arith)
                requires
                    pow2(e as nat) == pow2(d as nat) * pow2(149),
                    w == m * pow2(d as nat),
            ;
            lemma_fundamental_div_mod_converse(
                (w * pow2(149)) as int,
                pow2(149) as int,
                w as int,
                0,
            );
            assert(m * pow2(d as nat) <= 0xff_ffff * pow2(104)) by (nonlinear_arith)
                requires
                    0 <= m <= 0xff_ffff,
                    0 <= pow2(d as nat) <= pow2(104),
            ;
        }
        (m as u128 * pow2_u128(d), false)
    } else {
        let s: u32 = 149 - e;
        proof {
            lemma_pow2_adds(s as nat, e as nat);
            lemma_pow2_pos(s as nat);
            lemma_mod_scale(m as nat, pow2(s as nat), pow2(e as nat));
            let rest = m as nat % pow2(s as nat);
            assert(rest * pow2(e as nat) == 0 <==> rest == 0) by (nonlinear_arith)
                requires
                    pow2(e as nat) > 0,
                    rest >= 0,
            ;
        }
        if s > 30 {
            proof {
                lemma_pow2_le(30, s as nat);
                lemma_fundamental_div_mod_converse(m as int, pow2(s as nat) as int, 0, m as int);
            }
            (0, m != 0)
        } else {
            let place: u128 = pow2_u128(s);
            (m as u128 / place, m as u128 % place != 0)
        }
    }
}

/// The whole number nearest to `m * 2^e` units, halves up.
fn nearest_bits(m: u32, e: u32) -> (r: u128)
    requires
        m < 0x100_0000,
        e <= 253,
    ensures
        r == (2 * (m * pow2(e as nat)) as nat + pow2(149)) / (2 * pow2(149)),
{
    let (whole, _fraction) = split_whole(m, e);
    let ghost u = (m * pow2(e as nat)) as nat;
    let ghost one = pow2(149);
    let ghost rest = u % one;
    proof {
        lemma2_to64();
        lemma_pow2_pos(149);
        lemma_pow2_pos(e as nat);
        lemma_fundamental_div_mod(u as int, one as int);
        lemma_mod_bound(u as int, one as int);
        // Adding one half carries exactly where the rest is at least a half.
        if 2 * rest >= one {
            assert(2 * u + one == (whole + 1) * (2 * one) + (2 * rest - one)) by (nonlinear_arith)
                requires
                    u == one * whole + rest,
            ;
            lemma_fundamental_div_mod_converse(
                (2 * u + one) as int,
                (2 * one) as int,
                whole + 1,
                2 * rest - one,
            );
        } else {
            assert(2 * u + one == whole * (2 * one) + (2 * rest + one)) by (nonlinear_arith)
                requires
                    u == one * whole + rest,
            ;
            lemma_fundamental_div_mod_converse(
                (2 * u + one) as int,
                (2 * one) as int,
                whole as int,
                (2 * rest + one) as int,
            );
        }
    }
    if e >= 149 {
        proof {
            let d = (e - 149) as nat;
            lemma_pow2_adds(d, 149);
            let w = (m * pow2(d)) as nat;
            assert(u == w * one) by (nonlinear_arith)
                requires
                    u == m * pow2(e as nat),
                    pow2(e as nat) == pow2(d) * one,
                    w == m * pow2(d),
            ;
            lemma_fundamental_div_mod_converse(u as int, one as int, w as int, 0);
        }
        whole
    } else {
        let s: u32 = 149 - e;
        proof {
            lemma_pow2_adds(s as nat, e as nat);
            lemma_pow2_pos(s as nat);
            lemma_mod_scale(m as nat, pow2(s as nat), pow2(e as nat));
            let small = m as nat % pow2(s as nat);
            assert(2 * rest >= one <==> 2 * small >= pow2(s as nat)) by (nonlinear_arith)
                requires
                    rest == small * pow2(e as nat),
                    one == pow2(s as nat) * pow2(e as nat),
                    pow2(e as nat) > 0,
            ;
            assert(whole <= m) by {
                vstd::arithmetic::div_mod::lemma_div_nonincreasing(m as int, pow2(s as nat) as int);
            }
        }
        if s > 30 {
            proof {
                lemma_pow2_le(30, s as nat);
                vstd::arithmetic::div_mod::lemma_small_mod(m as nat, pow2(s as nat));
            }
            whole
        } else {
            let place: u128 = pow2_u128(s);
            proof {
                lemma_pow2_le(s as nat, 30);
                vstd::arithmetic::div_mod::lemma_mod_decreases(m as nat, pow2(s as nat));
            }
            let small: u128 = m as u128 % place;
            if 2 * small >= place {
                whole + 1
            } else {
                whole
            }
        }
    }
}

} // verus!
