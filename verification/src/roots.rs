//! Square roots and lengths, rounded to the nearest binary32 number.

use crate::rounding::{lemma_pow2_le, lemma_ulp_shift_is, pow2_u128, ulp_shift, INFINITY_BITS};
use crate::single::{magnitude_units, parts, signed, with_sign, Single};
use vstd::arithmetic::div_mod::{
    lemma_div_denominator, lemma_fundamental_div_mod, lemma_fundamental_div_mod_converse,
};
use vstd::arithmetic::power2::{lemma2_to64, lemma_pow2_adds, lemma_pow2_pos, pow2};
use vstd::prelude::*;

verus! {

/// The largest number whose square is not above `n`.
pub open spec fn floor_root(n: nat) -> nat
    decreases n,
{
    if n == 0 {
        0
    } else {
        let r = 2 * floor_root(n / 4);
        if (r + 1) * (r + 1) <= n {
            r + 1
        } else {
            r
        }
    }
}

pub proof fn lemma_floor_root(n: nat)
    ensures
        floor_root(n) * floor_root(n) <= n < (floor_root(n) + 1) * (floor_root(n) + 1),
    decreases n,
{
    if n > 0 {
        lemma_floor_root(n / 4);
        let q = floor_root(n / 4);
        let r = 2 * q;
        assert(r * r <= n) by (nonlinear_arith)
            requires
                q * q <= n / 4,
                r == 2 * q,
        ;
        assert(n < (r + 2) * (r + 2)) by (nonlinear_arith)
            requires
                n / 4 < (q + 1) * (q + 1),
                r == 2 * q,
        ;
        if (r + 1) * (r + 1) <= n {
            assert(floor_root(n) == r + 1);
            assert(r + 1 + 1 == r + 2);
        } else {
            assert(floor_root(n) == r);
        }
    } else {
        let f = floor_root(n);
        assert(f * f <= n < (f + 1) * (f + 1)) by (nonlinear_arith)
            requires
                f == 0,
                n == 0,
        ;
    }
}

/// Only one number lies below the root by less than one.
pub proof fn lemma_floor_root_is(n: nat, r: nat)
    requires
        r * r <= n < (r + 1) * (r + 1),
    ensures
        floor_root(n) == r,
{
    lemma_floor_root(n);
    let f = floor_root(n);
    if f < r {
        assert((f + 1) * (f + 1) <= r * r) by (nonlinear_arith)
            requires
                f + 1 <= r,
        ;
    } else if f > r {
        assert((r + 1) * (r + 1) <= f * f) by (nonlinear_arith)
            requires
                r + 1 <= f,
        ;
    }
}

/// The magnitude bits of the number nearest to the square root of `n` units
/// squared, ties to even.
pub open spec fn root_magnitude(n: nat) -> nat {
    let f = floor_root(n);
    let k = ulp_shift(f, 1);
    let s = f / pow2(k);
    let twice_middle = (2 * s + 1) * pow2(k);
    let up = 4 * n > twice_middle * twice_middle || (4 * n == twice_middle * twice_middle && s % 2
        == 1);
    let bits = k * 0x80_0000 + s + (if up {
        1nat
    } else {
        0
    });
    if bits >= INFINITY_BITS {
        INFINITY_BITS as nat
    } else {
        bits
    }
}

fn whole_root(n: u128) -> (r: u128)
    requires
        n < 0x1000_0000_0000_0000_0000,
    ensures
        r == floor_root(n as nat),
        r < 0x100_0000_0000,
{
    let mut low: u128 = 0;
    let mut high: u128 = 0x100_0000_0000;
    while high - low > 1
        invariant
            n < 0x1000_0000_0000_0000_0000,
            low < high <= 0x100_0000_0000,
            low * low <= n < high * high,
        decreases high - low,
    {
        let middle: u128 = low + (high - low) / 2;
        assert(middle * middle < 0x1_0000_0000_0000_0000_0000) by (nonlinear_arith)
            requires
                0 <= middle < 0x100_0000_0000,
        ;
        if middle * middle <= n {
            low = middle;
        } else {
            high = middle;
        }
    }
    proof {
        lemma_floor_root_is(n as nat, low as nat);
    }
    low
}

/// How the root of `m * 4^e` goes back to the root of `m`.
proof fn lemma_scaled_root(m: nat, e: nat, j: nat)
    requires
        floor_root(m) < pow2(24 + j),
        j > 0 ==> floor_root(m) >= pow2((23 + j) as nat),
        j == 0 && e > 0 ==> floor_root(m) >= 0x80_0000,
    ensures
        ulp_shift(floor_root(m * (pow2(e) * pow2(e))), 1) == e + j,
        floor_root(m * (pow2(e) * pow2(e))) / pow2(e + j) == floor_root(m) / pow2(j),
{
    lemma2_to64();
    let w = pow2(e);
    let r = floor_root(m);
    let n = m * (w * w);
    let f = floor_root(n);
    lemma_floor_root(m);
    lemma_floor_root(n);
    lemma_pow2_pos(e);
    lemma_pow2_pos(j);
    // r * 2^e <= f < (r + 1) * 2^e
    assert((r * w) * (r * w) <= n) by (nonlinear_arith)
        requires
            r * r <= m,
            n == m * (w * w),
    ;
    assert(n < ((r + 1) * w) * ((r + 1) * w)) by (nonlinear_arith)
        requires
            m < (r + 1) * (r + 1),
            n == m * (w * w),
            w > 0,
    ;
    assert(r * w <= f) by (nonlinear_arith)
        requires
            (r * w) * (r * w) <= n,
            n < (f + 1) * (f + 1),
            0 <= f,
    ;
    assert(f < (r + 1) * w) by (nonlinear_arith)
        requires
            n < ((r + 1) * w) * ((r + 1) * w),
            f * f <= n,
            0 <= f,
            0 <= r,
            w > 0,
    ;
    assert(f - r * w < w) by (nonlinear_arith)
        requires
            f < (r + 1) * w,
    ;
    lemma_fundamental_div_mod_converse(f as int, w as int, r as int, f - r * w);
    assert(f / w == r);
    lemma_pow2_adds(e, j);
    lemma_div_denominator(f as int, w as int, pow2(j) as int);
    // The place of the last digit.
    lemma_pow2_adds(24 + j, e);
    lemma_pow2_adds((23 + j) as nat, e);
    assert(f < 1 * pow2(24 + (e + j))) by (nonlinear_arith)
        requires
            f < (r + 1) * w,
            r + 1 <= pow2(24 + j),
            pow2(24 + (e + j)) == pow2(24 + j) * w,
            w > 0,
    ;
    if e + j > 0 {
        assert(r >= pow2((23 + j) as nat));
        assert(f >= 1 * pow2((23 + (e + j)) as nat)) by (nonlinear_arith)
            requires
                f >= r * w,
                r >= pow2((23 + j) as nat),
                pow2((23 + (e + j)) as nat) == pow2((23 + j) as nat) * w,
                w > 0,
        ;
    }
    lemma_ulp_shift_is(f, 1, e + j);
}

/// The magnitude bits of the root of `m * 4^e`.
fn root_bits(m: u128, e: u32) -> (bits: u32)
    requires
        m < 0x1000_0000_0000_0000_0000,
        e <= 253,
        e > 0 ==> m >= 0x4000_0000_0000,
    ensures
        bits == root_magnitude(m as nat * (pow2(e as nat) * pow2(e as nat))),
        bits <= INFINITY_BITS,
{
    let r: u128 = whole_root(m);
    let mut j: u32 = 0;
    let mut top: u128 = 0x100_0000;
    proof {
        lemma2_to64();
        lemma_floor_root(m as nat);
        if e > 0 {
            assert(r >= 0x80_0000) by (nonlinear_arith)
                requires
                    m >= 0x4000_0000_0000,
                    m < (r + 1) * (r + 1),
                    r >= 0,
            ;
        }
    }
    while r >= top
        invariant
            r < 0x100_0000_0000,
            j <= 16,
            top == pow2(24 + j as nat),
            j < 16 || top > r,
            j > 0 ==> r >= pow2((23 + j) as nat),
        decreases 16 - j,
    {
        proof {
            lemma_pow2_adds(1, 24 + j as nat);
            lemma2_to64();
            if j == 15 {
                lemma_pow2_adds(8, 32);
            }
            lemma_pow2_le(24 + j as nat, 39);
            lemma_pow2_adds(7, 32);
        }
        j = j + 1;
        top = top * 2;
    }
    let place: u128 = pow2_u128(j);
    let s: u128 = r / place;
    proof {
        lemma_scaled_root(m as nat, e as nat, j as nat);
        lemma_pow2_pos(j as nat);
        lemma_pow2_adds(24, j as nat);
        lemma_pow2_le(j as nat, 16);
        lemma_fundamental_div_mod(r as int, place as int);
        assert(s < 0x100_0000) by (nonlinear_arith)
            requires
                r == place * s + r % place,
                r < 0x100_0000 * place,
                0 <= r % place,
                place > 0,
        ;
    }
    assert((2 * s + 1) * place <= 0x200_0000 * 0x1_0000) by (nonlinear_arith)
        requires
            0 <= s < 0x100_0000,
            0 < place <= 0x1_0000,
    ;
    let middle: u128 = (2 * s + 1) * place;
    assert(middle * middle <= 0x200_0000_0000 * 0x200_0000_0000) by (nonlinear_arith)
        requires
            0 <= middle <= 0x200_0000_0000,
    ;
    let square: u128 = middle * middle;
    let up = 4 * m > square || (4 * m == square && s % 2 == 1);
    proof {
        // The comparison is the same after scaling by 4^e.
        let w = pow2(e as nat);
        lemma_pow2_pos(e as nat);
        lemma_pow2_adds(e as nat, j as nat);
        let n = m as nat * (w * w);
        let scaled = (2 * s as nat + 1) * pow2(e as nat + j as nat);
        assert(scaled == middle * w) by (nonlinear_arith)
            requires
                scaled == (2 * s + 1) * (w * place),
                middle == (2 * s + 1) * place,
        ;
        assert(scaled * scaled == square * (w * w)) by (nonlinear_arith)
            requires
                scaled == middle * w,
                square == middle * middle,
        ;
        assert(w * w > 0) by (nonlinear_arith)
            requires
                w > 0,
        ;
        let ww = w * w;
        assert(4 * n == (4 * m) * ww) by (nonlinear_arith)
            requires
                n == m * ww,
        ;
        assert((4 * m) * ww > square * ww <==> 4 * m > square) by (nonlinear_arith)
            requires
                ww > 0,
        ;
        assert((4 * m) * ww == square * ww <==> 4 * m == square) by (nonlinear_arith)
            requires
                ww > 0,
        ;
    }
    let mut bits: u64 = (e as u64 + j as u64) * 0x80_0000 + s as u64;
    if up {
        bits = bits + 1;
    }
    if bits >= 0x7f80_0000 {
        INFINITY_BITS
    } else {
        bits as u32
    }
}

impl Single {
    /// The square root.
    #[verifier::opaque]
    pub open spec fn spec_sqrt(self) -> Single {
        if self.is_nan() {
            Single::not_a_number()
        } else if self.magnitude() == 0 {
            self
        } else if self.is_negative() {
            Single::not_a_number()
        } else if self.is_infinite() {
            Single::infinity()
        } else {
            signed(false, root_magnitude(self.units() * pow2(149)))
        }
    }

    #[verifier::when_used_as_spec(spec_sqrt)]
    pub fn sqrt(self) -> (r: Single)
        ensures
            r == self.spec_sqrt(),
    {
        proof {
            reveal(Single::spec_sqrt);
        }
        if self.is_nan() {
            return Single::not_a_number();
        }
        let mag: u32 = self.magnitude();
        if mag == 0 {
            return self;
        }
        if self.is_negative() {
            return Single::not_a_number();
        }
        if self.is_infinite() {
            return Single::infinity();
        }
        let (sig, shift) = parts(mag);
        // Makes room below the significand, by a distance that leaves an even power.
        let mut m: u128 = sig as u128;
        let mut below: u32 = 0;
        proof {
            lemma2_to64();
        }
        while m < 0x4000_0000_0000 || (149 + shift - below) % 2 == 1
            invariant
                0 < sig < 0x100_0000,
                shift <= 253,
                below <= 47,
                m == sig * pow2(below as nat),
                m < 0x1_0000_0000_0000,
                below > 0 ==> (m < 0x8000_0000_0000 || (149 + shift - below) % 2 == 0),
            decreases 48 - below,
        {
            proof {
                lemma_pow2_adds(1, below as nat);
                lemma2_to64();
                assert(sig * pow2((below + 1) as nat) == 2 * (sig * pow2(below as nat)))
                    by (nonlinear_arith)
                    requires
                        pow2((below + 1) as nat) == 2 * pow2(below as nat),
                ;
                if below >= 47 {
                    lemma_pow2_le(47, below as nat);
                    lemma_pow2_adds(15, 32);
                    assert(m >= 0x8000_0000_0000) by (nonlinear_arith)
                        requires
                            m == sig * pow2(below as nat),
                            sig >= 1,
                            pow2(below as nat) >= 0x8000_0000_0000,
                    ;
                }
            }
            m = m * 2;
            below = below + 1;
        }
        let e: u32 = (149 + shift - below) / 2;
        proof {
            let w = pow2(e as nat);
            lemma_pow2_adds(e as nat, e as nat);
            lemma_pow2_adds(below as nat, (149 + shift - below) as nat);
            lemma_pow2_adds(shift as nat, 149);
            assert(self.units() * pow2(149) == m * (w * w)) by (nonlinear_arith)
                requires
                    self.units() == sig * pow2(shift as nat),
                    m == sig * pow2(below as nat),
                    pow2(shift as nat) * pow2(149) == pow2(below as nat) * (w * w),
            ;
        }
        with_sign(false, root_bits(m, e))
    }

    /// The length of the vector with the given sides.
    #[verifier::opaque]
    pub open spec fn spec_hypot(self, other: Single) -> Single {
        if self.is_infinite() || other.is_infinite() {
            Single::infinity()
        } else if self.is_nan() || other.is_nan() {
            Single::not_a_number()
        } else {
            signed(
                false,
                root_magnitude(self.units() * self.units() + other.units() * other.units()),
            )
        }
    }

    #[verifier::when_used_as_spec(spec_hypot)]
    pub fn hypot(self, other: Single) -> (r: Single)
        ensures
            r == self.spec_hypot(other),
    {
        proof {
            reveal(Single::spec_hypot);
        }
        if self.is_infinite() || other.is_infinite() {
            return Single::infinity();
        }
        if self.is_nan() || other.is_nan() {
            return Single::not_a_number();
        }
        let a: u32 = self.magnitude();
        let b: u32 = other.magnitude();
        let bits: u32 = if a >= b {
            length_bits(a, b)
        } else {
            length_bits(b, a)
        };
        with_sign(false, bits)
    }
}

/// Behind a side that is much longer the other one vanishes.
proof fn lemma_far_side(sa: nat, ea: nat, sb: nat, eb: nat)
    requires
        0x80_0000 <= sa < 0x100_0000,
        sb < 0x100_0000,
        ea >= eb + 13,
        ea <= 253,
        ea * 0x80_0000 + sa < INFINITY_BITS,
    ensures
        root_magnitude(
            (sa * pow2(ea)) * (sa * pow2(ea)) + (sb * pow2(eb)) * (sb * pow2(eb)),
        ) == ea * 0x80_0000 + sa,
{
    lemma2_to64();
    let w = pow2(ea);
    let v = pow2(eb);
    let d = (ea - eb) as nat;
    let x = sa * w;
    let y = sb * v;
    let n = x * x + y * y;
    lemma_pow2_adds(eb, d);
    lemma_pow2_pos(eb);
    lemma_pow2_pos(ea);
    lemma_pow2_le(13, d);
    lemma_pow2_adds(13, 13);
    let p = pow2(d);
    // 4 y^2 <= 4 sa w^2
    assert(y * y <= 0x1_0000_0000_0000 * (v * v)) by (nonlinear_arith)
        requires
            y == sb * v,
            sb < 0x100_0000,
            v > 0,
    ;
    assert(p * p >= 0x400_0000) by (nonlinear_arith)
        requires
            p >= 0x2000,
    ;
    assert(w * w >= 0x400_0000 * (v * v)) by (nonlinear_arith)
        requires
            w == v * p,
            p * p >= 0x400_0000,
    ;
    let ww = w * w;
    let vv = v * v;
    assert(sa * ww >= 0x80_0000 * ww) by (nonlinear_arith)
        requires
            sa >= 0x80_0000,
            ww >= 0,
    ;
    assert(0x80_0000 * ww >= 0x2_0000_0000_0000 * vv);
    assert(y * y <= sa * ww);
    assert(x * x == sa * (sa * ww)) by (nonlinear_arith)
        requires
            x == sa * w,
            ww == w * w,
    ;
    // (2 sa + 1)^2 w^2 = 4 sa^2 w^2 + 4 sa w^2 + w^2 > 4 n
    let middle = (2 * sa + 1) * w;
    assert(middle * middle == 4 * (sa * (sa * ww)) + 4 * (sa * ww) + ww) by (nonlinear_arith)
        requires
            middle == (2 * sa + 1) * w,
            ww == w * w,
    ;
    assert(ww > 0) by (nonlinear_arith)
        requires
            w > 0,
            ww == w * w,
    ;
    assert(4 * n < middle * middle);
    // The floor of the root.
    let f = floor_root(n);
    lemma_floor_root(n);
    assert(f >= x) by (nonlinear_arith)
        requires
            x * x <= n,
            n < (f + 1) * (f + 1),
            f >= 0,
    ;
    assert(2 * f < middle) by (nonlinear_arith)
        requires
            f * f <= n,
            4 * n < middle * middle,
            f >= 0,
            middle >= 0,
    ;
    assert(2 * f < 2 * x + w) by (nonlinear_arith)
        requires
            2 * f < middle,
            middle == (2 * sa + 1) * w,
            x == sa * w,
    ;
    assert(f - x < w);
    lemma_fundamental_div_mod_converse(f as int, w as int, sa as int, f - x);
    lemma_pow2_adds(24, ea);
    lemma_pow2_adds(23, ea);
    assert(f < 0x100_0000 * w) by (nonlinear_arith)
        requires
            f - x < w,
            x == sa * w,
            sa + 1 <= 0x100_0000,
            w > 0,
    ;
    assert(f >= 0x80_0000 * w) by (nonlinear_arith)
        requires
            f >= x,
            x == sa * w,
            sa >= 0x80_0000,
            w > 0,
    ;
    lemma_ulp_shift_is(f, 1, ea);
}

fn length_bits(a: u32, b: u32) -> (bits: u32)
    requires
        b <= a < INFINITY_BITS,
    ensures
        bits == root_magnitude(
            magnitude_units(a as nat) * magnitude_units(a as nat) + magnitude_units(b as nat)
                * magnitude_units(b as nat),
        ),
        bits <= INFINITY_BITS,
{
    let (sa, ea) = parts(a);
    let (sb, eb) = parts(b);
    assert(eb <= ea);
    let d: u32 = ea - eb;
    if d >= 13 {
        proof {
            lemma_far_side(sa as nat, ea as nat, sb as nat, eb as nat);
        }
        return a;
    }
    proof {
        lemma2_to64();
        lemma_pow2_le(d as nat, 12);
        lemma_pow2_pos(d as nat);
    }
    let lift: u128 = pow2_u128(d);
    assert(sa * lift <= 0xff_ffff * 0x1000) by (nonlinear_arith)
        requires
            0 <= sa <= 0xff_ffff,
            0 <= lift <= 0x1000,
    ;
    let long: u128 = sa as u128 * lift;
    let short: u128 = sb as u128;
    assert(long * long <= 0xf_ffff_f000 * 0xf_ffff_f000) by (nonlinear_arith)
        requires
            0 <= long <= 0xf_ffff_f000,
    ;
    assert(short * short <= 0xff_ffff * 0xff_ffff) by (nonlinear_arith)
        requires
            0 <= short <= 0xff_ffff,
    ;
    let m: u128 = long * long + short * short;
    proof {
        let w = pow2(eb as nat);
        let x = magnitude_units(a as nat);
        let y = magnitude_units(b as nat);
        lemma_pow2_adds(d as nat, eb as nat);
        assert(x == long * w) by (nonlinear_arith)
            requires
                x == sa * pow2(ea as nat),
                pow2(ea as nat) == lift * w,
                long == sa * lift,
        ;
        assert(m * (w * w) == x * x + y * y) by (nonlinear_arith)
            requires
                x == long * w,
                y == short * w,
                m == long * long + short * short,
        ;
        if eb > 0 {
            assert(m >= 0x4000_0000_0000) by (nonlinear_arith)
                requires
                    m == long * long + short * short,
                    short >= 0x80_0000,
            ;
        }
    }
    root_bits(m, eb)
}

} // verus!
