//! Rounding of exact non-negative ratios to the 24-bit significands of IEEE 754
//! binary32, nearest first and ties to even.
//!
//! Magnitudes are measured in units of 2^-149, the smallest positive binary32
//! number, so that every finite number is a whole count of units.

use vstd::arithmetic::div_mod::{
    lemma_fundamental_div_mod, lemma_fundamental_div_mod_converse,
};
use vstd::arithmetic::power2::{
    lemma2_to64, lemma_pow2_adds, lemma_pow2_pos, lemma_pow2_strictly_increases, pow2,
};
use vstd::prelude::*;

verus! {

/// The magnitude bits of positive infinity.
pub const INFINITY_BITS: u32 = 0x7f80_0000;

/// The integer nearest to `p / q`, the even one of two that are equally near.
pub open spec fn half_even(p: nat, q: nat) -> nat {
    let whole = p / q;
    let rest = p % q;
    if 2 * rest < q || (2 * rest == q && whole % 2 == 0) {
        whole
    } else {
        whole + 1
    }
}

/// The least `k` with `p / q < 2^(24 + k)`: how far the last place of the
/// significand lies above one unit.
pub open spec fn ulp_shift(p: nat, q: nat) -> nat
    decreases p - q,
{
    if q == 0 || p < q * 0x100_0000 {
        0
    } else {
        1 + ulp_shift(p, 2 * q)
    }
}

/// The magnitude bits of the binary32 number nearest to `p / q` units.
pub open spec fn round_units(p: nat, q: nat) -> nat {
    let k = ulp_shift(p, q);
    let bits = k * 0x80_0000 + half_even(p, q * pow2(k));
    if bits >= INFINITY_BITS {
        INFINITY_BITS as nat
    } else {
        bits
    }
}

/// The numerator of `m * 2^x`.
pub open spec fn scaled_num(m: nat, x: int) -> nat {
    if x >= 0 {
        m * pow2(x as nat)
    } else {
        m
    }
}

/// The denominator of `m * 2^x`.
pub open spec fn scaled_den(x: int) -> nat {
    if x >= 0 {
        1
    } else {
        pow2((-x) as nat)
    }
}

pub proof fn lemma_ulp_shift_is(p: nat, q: nat, k: nat)
    requires
        q > 0,
        p < q * pow2(24 + k),
        k == 0 || p >= q * pow2((23 + k) as nat),
    ensures
        ulp_shift(p, q) == k,
    decreases k,
{
    lemma2_to64();
    if k > 0 {
        lemma_pow2_adds(24, (k - 1) as nat);
        lemma_pow2_pos((k - 1) as nat);
        assert(pow2((23 + k) as nat) >= 0x100_0000) by (nonlinear_arith)
            requires
                pow2((23 + k) as nat) == 0x100_0000 * pow2((k - 1) as nat),
                pow2((k - 1) as nat) >= 1,
        ;
        assert(p >= q * 0x100_0000) by (nonlinear_arith)
            requires
                p >= q * pow2((23 + k) as nat),
                pow2((23 + k) as nat) >= 0x100_0000,
        ;
        lemma_pow2_adds(1, (23 + k) as nat);
        assert((2 * q) * pow2((23 + k) as nat) == q * pow2(24 + k)) by (nonlinear_arith)
            requires
                pow2(24 + k) == 2 * pow2((23 + k) as nat),
        ;
        if k > 1 {
            lemma_pow2_adds(1, (22 + k) as nat);
            assert((2 * q) * pow2((22 + k) as nat) == q * pow2((23 + k) as nat))
                by (nonlinear_arith)
                requires
                    pow2((23 + k) as nat) == 2 * pow2((22 + k) as nat),
            ;
        }
        lemma_ulp_shift_is(p, 2 * q, (k - 1) as nat);
    }
}

pub proof fn lemma_half_even_scale(p: nat, q: nat, c: nat)
    requires
        q > 0,
        c > 0,
    ensures
        half_even(p * c, q * c) == half_even(p, q),
{
    let f = p / q;
    let r = p % q;
    lemma_fundamental_div_mod(p as int, q as int);
    assert(p * c == f * (q * c) + r * c) by (nonlinear_arith)
        requires
            p == q * f + r,
    ;
    assert(0 <= r * c < q * c) by (nonlinear_arith)
        requires
            0 <= r < q,
            c > 0,
    ;
    lemma_fundamental_div_mod_converse(
        (p * c) as int,
        (q * c) as int,
        f as int,
        (r * c) as int,
    );
    assert(2 * (r * c) < q * c <==> 2 * r < q) by (nonlinear_arith)
        requires
            c > 0,
    ;
    assert(2 * (r * c) == q * c <==> 2 * r == q) by (nonlinear_arith)
        requires
            c > 0,
    ;
}

pub proof fn lemma_half_even_exact(n: nat, q: nat)
    requires
        q > 0,
    ensures
        half_even(n * q, q) == n,
{
    lemma_fundamental_div_mod_converse((n * q) as int, q as int, n as int, 0);
}

/// Nothing rounds to nothing.
pub proof fn lemma_round_zero(q: nat)
    requires
        q > 0,
    ensures
        round_units(0, q) == 0,
{
    lemma2_to64();
    assert(q * pow2(24) > 0);
    lemma_ulp_shift_is(0, q, 0);
    assert(q * pow2(0) == q) by (nonlinear_arith)
        requires
            pow2(0) == 1,
    ;
    lemma_half_even_exact(0, q);
}

/// Powers of two keep the order of their exponents.
pub proof fn lemma_pow2_le(a: nat, b: nat)
    requires
        a <= b,
    ensures
        pow2(a) <= pow2(b),
{
    if a < b {
        lemma_pow2_strictly_increases(a, b);
    }
}

/// `2^128` is one more than the largest `u128`.
pub proof fn lemma_pow2_128()
    ensures
        pow2(128) == u128::MAX + 1,
        pow2(127) * 2 == u128::MAX + 1,
{
    lemma2_to64();
    lemma_pow2_adds(64, 64);
    lemma_pow2_adds(1, 127);
}

/// `2^k` as a machine number.
pub fn pow2_u128(k: u32) -> (r: u128)
    requires
        k < 128,
    ensures
        r == pow2(k as nat),
{
    let mut r: u128 = 1;
    let mut i: u32 = 0;
    proof {
        lemma2_to64();
    }
    while i < k
        invariant
            i <= k < 128,
            r == pow2(i as nat),
        decreases k - i,
    {
        proof {
            lemma2_to64();
            lemma_pow2_adds(1, i as nat);
            lemma_pow2_le((i + 1) as nat, 127);
            lemma_pow2_128();
        }
        r = r * 2;
        i = i + 1;
    }
    r
}

/// The number of binary digits of `m`.
pub fn bit_length(m: u128) -> (l: u32)
    ensures
        l <= 128,
        m < pow2(l as nat),
        m == 0 <==> l == 0,
        m > 0 ==> m >= pow2((l - 1) as nat),
{
    let mut l: u32 = 0;
    let mut rest: u128 = m;
    proof {
        lemma2_to64();
        lemma_pow2_128();
    }
    while rest > 0
        invariant
            l <= 128,
            rest == m as nat / pow2(l as nat),
            rest < pow2((128 - l) as nat),
            m > 0 && l > 0 ==> m >= pow2((l - 1) as nat),
            l > 0 ==> m > 0,
        decreases rest,
    {
        proof {
            lemma2_to64();
            if l == 128 {
                assert(rest < 1);
            }
            lemma_pow2_pos(l as nat);
            lemma_pow2_adds(l as nat, 1);
            lemma_fundamental_div_mod(m as int, pow2(l as nat) as int);
            assert(m >= pow2(l as nat)) by (nonlinear_arith)
                requires
                    m == pow2(l as nat) * rest + (m as nat % pow2(l as nat)),
                    rest >= 1,
                    (m as nat % pow2(l as nat)) >= 0,
            ;
            vstd::arithmetic::div_mod::lemma_div_denominator(m as int, pow2(l as nat) as int, 2);
            lemma_pow2_adds(1, (127 - l) as nat);
        }
        rest = rest / 2;
        l = l + 1;
    }
    proof {
        lemma_pow2_pos(l as nat);
        lemma_fundamental_div_mod(m as int, pow2(l as nat) as int);
        vstd::arithmetic::div_mod::lemma_mod_bound(m as int, pow2(l as nat) as int);
        assert(pow2(l as nat) * 0 == 0);
    }
    l
}

/// The magnitude bits of the number nearest to `m * 2^x` units.
pub fn round_scaled(m: u128, x: i32) -> (r: u32)
    requires
        m < pow2(120),
        -1200 <= x <= 1200,
    ensures
        r == round_units(scaled_num(m as nat, x as int), scaled_den(x as int)),
        r <= INFINITY_BITS,
{
    let ghost p = scaled_num(m as nat, x as int);
    let ghost q = scaled_den(x as int);
    proof {
        lemma2_to64();
        if x < 0 {
            lemma_pow2_pos((-x) as nat);
        }
    }
    if m == 0 {
        proof {
            lemma_pow2_pos(24);
            lemma_ulp_shift_is(p, q, 0);
            lemma_half_even_exact(0, q * pow2(0));
        }
        return 0;
    }
    let l: u32 = bit_length(m);
    proof {
        if l > 120 {
            lemma_pow2_le(120, (l - 1) as nat);
        }
    }
    let l: i32 = l as i32;
    let k: i32 = if l + x > 24 {
        l + x - 24
    } else {
        0
    };
    let shift: i32 = k - x;
    proof {
        lemma_rounded_place(m as nat, x as int, l as nat, k as nat);
        lemma_pow2_pos(k as nat);
    }
    let mant: u64 = if shift <= 0 {
        let ghost up = (-shift) as nat;
        proof {
            // Here x = k + up >= 0, so the value is a whole multiple of the last place.
            lemma_pow2_adds(up, k as nat);
            assert(p == (m as nat * pow2(up)) * pow2(k as nat)) by (nonlinear_arith)
                requires
                    p == m as nat * pow2(x as nat),
                    pow2(x as nat) == pow2(up) * pow2(k as nat),
            ;
            lemma_half_even_exact(m as nat * pow2(up), pow2(k as nat));
            lemma_pow2_adds(24, k as nat);
            assert(m as nat * pow2(up) < 0x100_0000) by (nonlinear_arith)
                requires
                    (m as nat * pow2(up)) * pow2(k as nat) < 0x100_0000 * pow2(k as nat),
                    pow2(k as nat) > 0,
            ;
            lemma_pow2_pos(up);
            assert(pow2(up) <= m as nat * pow2(up)) by (nonlinear_arith)
                requires
                    m >= 1,
            ;
            if up >= 24 {
                lemma_pow2_le(24, up);
            }
        }
        let factor: u128 = pow2_u128((-shift) as u32);
        let wide: u128 = m * factor;
        wide as u64
    } else {
        proof {
            if x >= 0 {
                lemma_pow2_adds(shift as nat, x as nat);
                assert(1 * pow2(k as nat) == pow2(shift as nat) * pow2(x as nat));
                lemma_pow2_pos(x as nat);
                lemma_pow2_pos(shift as nat);
                lemma_half_even_scale(m as nat, pow2(shift as nat), pow2(x as nat));
            } else {
                lemma_pow2_adds((-x) as nat, k as nat);
            }
        }
        assert(half_even(p, q * pow2(k as nat)) == half_even(m as nat, pow2(shift as nat)));
        if shift > 122 {
            proof {
                lemma_pow2_le(122, shift as nat);
                lemma_pow2_adds(2, 120);
                lemma_fundamental_div_mod_converse(
                    m as int,
                    pow2(shift as nat) as int,
                    0,
                    m as int,
                );
            }
            0
        } else {
            let place: u128 = pow2_u128(shift as u32);
            proof {
                lemma_half_even_small(m as nat, l as nat, shift as nat);
                lemma_pow2_le(shift as nat, 122);
                lemma_pow2_le(122, 127);
                lemma_pow2_128();
            }
            let whole: u128 = m / place;
            let rest: u128 = m % place;
            if 2 * rest < place || (2 * rest == place && whole % 2 == 0) {
                whole as u64
            } else {
                (whole + 1) as u64
            }
        }
    };
    let bits: u64 = (k as u64) * 0x80_0000 + mant;
    if bits >= 0x7f80_0000 {
        INFINITY_BITS
    } else {
        bits as u32
    }
}

/// The last place of `m * 2^x` lies `k` above one unit.
proof fn lemma_rounded_place(m: nat, x: int, l: nat, k: nat)
    requires
        m > 0,
        l > 0,
        m < pow2(l),
        m >= pow2((l - 1) as nat),
        k == (if l + x > 24 {
            l + x - 24
        } else {
            0
        }),
    ensures
        ulp_shift(scaled_num(m, x), scaled_den(x)) == k,
        scaled_num(m, x) < scaled_den(x) * pow2(24 + k),
{
    let p = scaled_num(m, x);
    let q = scaled_den(x);
    lemma2_to64();
    if x >= 0 {
        let xn = x as nat;
        lemma_pow2_adds(l, xn);
        lemma_pow2_pos(xn);
        assert(p < pow2(l + xn)) by (nonlinear_arith)
            requires
                p == m * pow2(xn),
                m < pow2(l),
                pow2(xn) > 0,
                pow2(l + xn) == pow2(l) * pow2(xn),
        ;
        lemma_pow2_le(l + xn, 24 + k);
        if k > 0 {
            lemma_pow2_adds((l - 1) as nat, xn);
            assert(p >= pow2((23 + k) as nat)) by (nonlinear_arith)
                requires
                    p == m * pow2(xn),
                    m >= pow2((l - 1) as nat),
                    pow2((23 + k) as nat) == pow2((l - 1) as nat) * pow2(xn),
            ;
        }
        lemma_ulp_shift_is(p, 1, k);
    } else {
        let xn = (-x) as nat;
        lemma_pow2_adds(xn, 24 + k);
        lemma_pow2_le(l, xn + 24 + k);
        lemma_pow2_pos(xn);
        if k > 0 {
            lemma_pow2_adds(xn, (23 + k) as nat);
        }
        lemma_ulp_shift_is(p, q, k);
    }
}

/// The quotient by the last place is a significand.
proof fn lemma_half_even_small(m: nat, l: nat, shift: nat)
    requires
        shift > 0,
        m < pow2(l),
        l <= 24 + shift,
    ensures
        m / pow2(shift) <= 0x100_0000,
        pow2(shift) > 0,
{
    lemma2_to64();
    lemma_pow2_adds(24, shift);
    lemma_pow2_le(l, 24 + shift);
    lemma_pow2_pos(shift);
    lemma_fundamental_div_mod(m as int, pow2(shift) as int);
    assert(m / pow2(shift) <= 0x100_0000) by (nonlinear_arith)
        requires
            m < 0x100_0000 * pow2(shift),
            m == pow2(shift) * (m / pow2(shift)) + m % pow2(shift),
            m % pow2(shift) >= 0,
            pow2(shift) > 0,
    ;
}

} // verus!
