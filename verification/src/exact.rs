//! Laws of binary32 arithmetic: order, symmetry, and results that are exact.

use crate::rounding::{
    half_even, lemma_pow2_le, lemma_round_zero, round_units, ulp_shift, INFINITY_BITS,
};
use crate::single::{
    lemma_round_exact, lemma_round_units_scale, lemma_ulp_shift_bounds, magnitude_units, signed,
    Single, SIGN_BIT,
};
use vstd::arithmetic::div_mod::{
    lemma_fundamental_div_mod, lemma_fundamental_div_mod_converse,
};
use vstd::arithmetic::power2::{lemma2_to64, lemma_pow2_adds, lemma_pow2_pos, pow2};
use vstd::prelude::*;

verus! {

/// A count of units with at most twenty-four digits before its zeros is a number.
pub proof fn lemma_representable(c: nat, t: nat)
    requires
        c < 0x100_0000,
        t <= 229,
    ensures
        round_units(c * pow2(t), 1) < INFINITY_BITS,
        magnitude_units(round_units(c * pow2(t), 1)) == c * pow2(t),
    decreases t,
{
    lemma2_to64();
    if t == 0 || c >= 0x80_0000 {
        let mag = t * 0x80_0000 + c;
        if c >= 0x80_0000 {
            lemma_fundamental_div_mod_converse(
                mag as int,
                0x80_0000,
                (t + 1) as int,
                c - 0x80_0000,
            );
        } else {
            assert(mag / 0x80_0000 == 0);
        }
        assert(c * pow2(t) == magnitude_units(mag)) by (nonlinear_arith)
            requires
                c >= 0x80_0000 ==> magnitude_units(mag) == c * pow2(t),
                c < 0x80_0000 ==> magnitude_units(mag) == c && pow2(t) == 1,
        ;
        lemma_round_exact(mag);
    } else {
        lemma_pow2_adds(1, (t - 1) as nat);
        assert(c * pow2(t) == (2 * c) * pow2((t - 1) as nat)) by (nonlinear_arith)
            requires
                pow2(t) == 2 * pow2((t - 1) as nat),
        ;
        lemma_representable(2 * c, (t - 1) as nat);
    }
}

/// Larger bits stand for more units.
pub proof fn lemma_units_increase(a: nat, b: nat)
    requires
        a < b < INFINITY_BITS,
    ensures
        magnitude_units(a) < magnitude_units(b),
{
    lemma2_to64();
    let ea = a / 0x80_0000;
    let eb = b / 0x80_0000;
    let fa = a % 0x80_0000;
    let fb = b % 0x80_0000;
    assert(ea <= eb);
    if ea == eb {
        assert(fa < fb);
        if ea > 0 {
            lemma_pow2_pos((ea - 1) as nat);
            assert((0x80_0000 + fa) * pow2((ea - 1) as nat) < (0x80_0000 + fb) * pow2(
                (ea - 1) as nat,
            )) by (nonlinear_arith)
                requires
                    fa < fb,
                    pow2((ea - 1) as nat) > 0,
            ;
        }
    } else {
        lemma_pow2_pos((eb - 1) as nat);
        assert((0x80_0000 + fb) * pow2((eb - 1) as nat) >= 0x80_0000 * pow2((eb - 1) as nat))
            by (nonlinear_arith)
            requires
                fb >= 0,
                pow2((eb - 1) as nat) > 0,
        ;
        if ea == 0 {
            assert(0x80_0000 * pow2((eb - 1) as nat) >= 0x80_0000) by (nonlinear_arith)
                requires
                    pow2((eb - 1) as nat) > 0,
            ;
        } else {
            lemma_pow2_pos((ea - 1) as nat);
            lemma_pow2_adds(1, (ea - 1) as nat);
            lemma_pow2_le(ea, (eb - 1) as nat);
            let w = pow2((ea - 1) as nat);
            assert((0x80_0000 + fa) * w < 0x100_0000 * w) by (nonlinear_arith)
                requires
                    fa < 0x80_0000,
                    w > 0,
            ;
        }
    }
}

/// Finite numbers are ordered by their values.
pub proof fn lemma_order_is_by_value(a: Single, b: Single)
    requires
        a.is_finite(),
        b.is_finite(),
    ensures
        a.lt(b) <==> a.value() < b.value(),
        a.le(b) <==> a.value() <= b.value(),
        a.same(b) <==> a.value() == b.value(),
{
    let ma = a.magnitude() as nat;
    let mb = b.magnitude() as nat;
    if ma < mb {
        lemma_units_increase(ma, mb);
    } else if mb < ma {
        lemma_units_increase(mb, ma);
    }
    if ma > 0 {
        lemma_units_increase(0, ma);
    }
    if mb > 0 {
        lemma_units_increase(0, mb);
    }
    assert(magnitude_units(0) == 0);
}

/// A sum does not depend on the order of its terms.
pub proof fn lemma_plus_commutes(a: Single, b: Single)
    ensures
        a.plus(b) == b.plus(a),
{
    reveal(Single::spec_plus);
}

/// A product does not depend on the order of its factors.
pub proof fn lemma_times_commutes(a: Single, b: Single)
    ensures
        a.times(b) == b.times(a),
{
    reveal(Single::spec_times);
    assert(a.units() * b.units() == b.units() * a.units()) by (nonlinear_arith);
    if a.is_infinite() && b.is_infinite() {
        lemma2_to64();
        assert(a.units() > 0 && b.units() > 0) by {
            lemma_pow2_pos(254);
            assert(magnitude_units(INFINITY_BITS as nat) == 0x80_0000 * pow2(254));
        }
    }
}

/// A finite number less itself is zero.
pub proof fn lemma_minus_self(a: Single)
    requires
        a.is_finite(),
    ensures
        a.minus(a) == Single::zero(),
{
    reveal(Single::spec_plus);
}

/// Adding zero keeps every number but a negative zero and NaN.
pub proof fn lemma_plus_zero(a: Single)
    requires
        !a.is_nan(),
        a.bits != SIGN_BIT,
    ensures
        a.plus(Single::zero()) == a,
{
    reveal(Single::spec_plus);
    if a.is_finite() {
        lemma_round_exact(a.magnitude() as nat);
        if a.magnitude() > 0 {
            lemma_units_increase(0, a.magnitude() as nat);
        }
        assert(magnitude_units(0) == 0);
    }
}

/// What is clamped lies within the bounds, and what lies within them stays.
pub proof fn lemma_clamp_within(a: Single, low: Single, high: Single)
    requires
        low.le(high),
        !a.is_nan(),
    ensures
        low.le(a.clamp(low, high)),
        a.clamp(low, high).le(high),
        low.le(a) && a.le(high) ==> a.clamp(low, high) == a,
{
}

/// The whole number `k` below two to the twenty-fourth, exactly.
pub proof fn lemma_whole_is_exact(k: i64)
    requires
        0 <= k <= 0x100_0000,
    ensures
        Single::spec_from_i64(k).is_finite(),
        !Single::spec_from_i64(k).is_negative(),
        Single::spec_from_i64(k).units() == k * pow2(149),
{
    if k == 0x100_0000 {
        lemma2_to64();
        lemma_pow2_adds(1, 149);
        assert(0x100_0000 * pow2(149) == 0x80_0000 * pow2(150));
        lemma_representable(0x80_0000, 150);
    } else {
        lemma_representable(k as nat, 149);
    }
}

/// Counting up by one is exact.
pub proof fn lemma_count_up(k: i64)
    requires
        0 <= k < 0x100_0000,
    ensures
        Single::spec_from_i64(k).plus(Single::one()) == Single::spec_from_i64((k + 1) as i64),
{
    reveal(Single::spec_plus);
    lemma_whole_is_exact(k);
    lemma_whole_is_exact((k + 1) as i64);
    lemma_one();
    let a = Single::spec_from_i64(k);
    lemma_pow2_pos(149);
    assert(a.value() + Single::one().value() == (k + 1) * pow2(149)) by (nonlinear_arith)
        requires
            a.value() == k * pow2(149),
            Single::one().value() == pow2(149),
    ;
    assert((k + 1) * pow2(149) > 0) by (nonlinear_arith)
        requires
            k >= 0,
            pow2(149) > 0,
    ;
}

pub proof fn lemma_one()
    ensures
        Single::one().value() == pow2(149),
        Single::one() == Single::spec_from_i64(1),
{
    lemma2_to64();
    lemma_pow2_adds(23, 126);
    assert(0x3f80_0000nat / 0x80_0000 == 127);
    assert(0x3f80_0000nat % 0x80_0000 == 0);
    assert(magnitude_units(0x3f80_0000) == 0x80_0000 * pow2(126));
    lemma_round_exact(0x3f80_0000);
    assert(1 * pow2(149) == pow2(149));
}

/// The digits of a number end at its last place.
proof fn lemma_last_place(d: Single) -> (r: (nat, nat))
    requires
        d.is_finite(),
        d.units() < 0x100_0000 * pow2(149),
    ensures
        d.units() == r.0 * pow2(r.1),
        r.0 < 0x100_0000,
        r.1 <= 149,
{
    lemma2_to64();
    let mag = d.magnitude() as nat;
    let e = mag / 0x80_0000;
    let f = mag % 0x80_0000;
    if e == 0 {
        assert(f * pow2(0) == f);
        (f, 0)
    } else {
        let t = (e - 1) as nat;
        if t > 149 {
            lemma_pow2_le(150, t);
            lemma_pow2_adds(1, 149);
            assert((0x80_0000 + f) * pow2(t) >= 0x80_0000 * pow2(150)) by (nonlinear_arith)
                requires
                    f >= 0,
                    pow2(t) >= pow2(150),
            ;
            assert(false);
        }
        (0x80_0000 + f, t)
    }
}

/// What is left above a whole number is exact, and adding it back gives the
/// number again.
pub proof fn lemma_rest_is_exact(d: Single, k: i64)
    requires
        d.is_finite(),
        !d.is_negative(),
        0 <= k < 0x100_0000,
        k * pow2(149) <= d.units() < 0x100_0000 * pow2(149),
    ensures
        d.minus(Single::spec_from_i64(k)).is_finite(),
        d.minus(Single::spec_from_i64(k)).value() == d.units() - k * pow2(149),
        Single::spec_from_i64(k).plus(d.minus(Single::spec_from_i64(k))) == d || d.units() == 0,
{
    reveal(Single::spec_plus);
    lemma2_to64();
    lemma_whole_is_exact(k);
    let a = Single::spec_from_i64(k);
    let (c, t) = lemma_last_place(d);
    lemma_pow2_adds(t, (149 - t) as nat);
    lemma_pow2_pos(t);
    lemma_pow2_pos((149 - t) as nat);
    // The whole number has its last place no lower.
    let ck = k as nat * pow2((149 - t) as nat);
    assert(k * pow2(149) == ck * pow2(t)) by (nonlinear_arith)
        requires
            pow2(149) == pow2(t) * pow2((149 - t) as nat),
            ck == k * pow2((149 - t) as nat),
    ;
    assert(ck <= c) by (nonlinear_arith)
        requires
            ck * pow2(t) <= c * pow2(t),
            pow2(t) > 0,
    ;
    let rest = (c - ck) as nat;
    assert(rest * pow2(t) == c * pow2(t) - ck * pow2(t)) by (nonlinear_arith)
        requires
            rest == c - ck,
    ;
    lemma_representable(rest, t);
    lemma_representable(c, t);
    let s = d.minus(a);
    assert(d.value() + a.neg().value() == rest * pow2(t));
    assert(magnitude_units(0) == 0);
    lemma_round_exact(d.magnitude() as nat);
    if rest * pow2(t) == 0 {
        assert(s.units() == 0);
    } else {
        assert(s.units() == rest * pow2(t));
        assert(!s.is_negative());
    }
    assert(a.value() + s.value() == d.units());
    if d.units() > 0 {
        assert(a.plus(s) == signed(false, round_units(d.units(), 1)));
    }
}

/// Away from the ends of the range, rounding moves a ratio by at most its share of one
/// in two to the twenty-fourth.
pub proof fn lemma_round_near(p: nat, q: nat)
    requires
        q > 0,
        q * 0x80_0000 <= p < q * pow2(276),
    ensures
        round_units(p, q) < INFINITY_BITS,
        ({
            let got = magnitude_units(round_units(p, q)) * q;
            (got - p) * 0x100_0000 <= p && (p - got) * 0x100_0000 <= p
        }),
{
    lemma2_to64();
    let k = ulp_shift(p, q);
    lemma_ulp_shift_bounds(p, q);
    let w = pow2(k);
    lemma_pow2_pos(k);
    lemma_pow2_adds(24, k);
    lemma_pow2_adds(23, k);
    if 23 + k >= 276 {
        lemma_pow2_le(276, 23 + k);
        assert(q * pow2(276) <= q * pow2(23 + k)) by (nonlinear_arith)
            requires
                pow2(276) <= pow2(23 + k),
        ;
    }
    let d = q * w;
    assert(p < 0x100_0000 * d && p >= 0x80_0000 * d && d > 0) by (nonlinear_arith)
        requires
            d == q * w,
            q > 0,
            w > 0,
            p < q * (0x100_0000 * w),
            k > 0 ==> p >= q * (0x80_0000 * w),
            k == 0 ==> w == 1 && p >= q * 0x80_0000,
    ;
    let h = half_even(p, d);
    let whole = p / d;
    let rest = p % d;
    lemma_fundamental_div_mod(p as int, d as int);
    assert(d * whole + rest == p);
    assert(0 <= rest < d);
    assert(0x80_0000 <= whole < 0x100_0000) by (nonlinear_arith)
        requires
            d * whole + rest == p,
            0 <= rest < d,
            0x80_0000 * d <= p < 0x100_0000 * d,
    ;
    let bits = k * 0x80_0000 + h;
    if h == 0x100_0000 {
        lemma_fundamental_div_mod_converse(bits as int, 0x80_0000, (k + 2) as int, 0);
        lemma_pow2_adds(1, k);
        assert(magnitude_units(bits) == 0x80_0000 * pow2((k + 1) as nat));
        assert(magnitude_units(bits) == h * w);
    } else {
        lemma_fundamental_div_mod_converse(bits as int, 0x80_0000, (k + 1) as int, h - 0x80_0000);
        assert(magnitude_units(bits) == h * w);
    }
    assert((h * w) * q == h * d) by (nonlinear_arith)
        requires
            d == q * w,
    ;
    let got = h * d;
    assert((h == whole ==> got == d * whole) && (h == whole + 1 ==> got == d * whole + d))
        by (nonlinear_arith)
        requires
            got == h * d,
    ;
    assert(2 * (got - p) <= d && 2 * (p - got) <= d);
    assert(round_units(p, q) == bits);
}

/// A finite number times a whole number, as a rounded count of units.
pub proof fn lemma_times_whole(a: Single, c: Single, n: nat)
    requires
        a.is_finite(),
        c.is_finite(),
        !c.is_negative(),
        c.units() == n * pow2(149),
    ensures
        a.times(c) == signed(a.is_negative(), round_units(n * a.units(), 1)),
{
    reveal(Single::spec_times);
    lemma_pow2_pos(149);
    assert(a.units() * c.units() == (n * a.units()) * pow2(149)) by (nonlinear_arith)
        requires
            c.units() == n * pow2(149),
    ;
    lemma_round_units_scale(n * a.units(), 1, pow2(149));
}

/// A finite number divided by a whole number, as a rounded count of units.
pub proof fn lemma_over_whole(a: Single, c: Single, n: nat)
    requires
        a.is_finite(),
        c.is_finite(),
        !c.is_negative(),
        n > 0,
        c.units() == n * pow2(149),
    ensures
        a.over(c) == signed(a.is_negative(), round_units(a.units(), n)),
{
    reveal(Single::spec_over);
    lemma_pow2_pos(149);
    assert(c.units() > 0) by (nonlinear_arith)
        requires
            c.units() == n * pow2(149),
            n > 0,
            pow2(149) > 0,
    ;
    lemma_round_units_scale(a.units(), n, pow2(149));
}

/// Multiplying by a ratio of two whole numbers and then by its inverse gives a number
/// back, off by at most a millionth of it.
pub proof fn lemma_ratio_undone(a: Single, c: Single, d: Single, m: nat, n: nat)
    requires
        a.is_finite(),
        a.units() == 0 || pow2(28) <= a.units() <= pow2(266),
        c.is_finite(),
        !c.is_negative(),
        c.units() == m * pow2(149),
        d.is_finite(),
        !d.is_negative(),
        d.units() == n * pow2(149),
        60 <= m <= 1000,
        60 <= n <= 1000,
    ensures
        ({
            let back = a.times(c).over(d).times(d).over(c);
            &&& back.is_finite()
            &&& back.is_negative() == a.is_negative()
            &&& (back.units() - a.units()) * 1_000_000 <= a.units()
            &&& (a.units() - back.units()) * 1_000_000 <= a.units()
        }),
{
    lemma2_to64();
    let v = a.units();
    let x = m * v;
    let first = a.times(c);
    let second = first.over(d);
    let third = second.times(d);
    let back = third.over(c);
    lemma_times_whole(a, c, m);
    if v == 0 {
        assert(x == 0) by (nonlinear_arith)
            requires
                x == m * v,
                v == 0,
        ;
        lemma_round_zero(1);
        lemma_round_zero(n);
        lemma_round_zero(m);
        assert(first.units() == 0);
        lemma_over_whole(first, d, n);
        assert(second.units() == 0);
        lemma_times_whole(second, d, n);
        assert(n * second.units() == 0) by (nonlinear_arith)
            requires
                second.units() == 0,
        ;
        assert(third.units() == 0);
        lemma_over_whole(third, c, m);
        assert(back.units() == 0);
    } else {
        let top = pow2(276);
        lemma_pow2_adds(10, 266);
        assert(60 * v <= x <= 1000 * v) by (nonlinear_arith)
            requires
                x == m * v,
                60 <= m <= 1000,
        ;
        assert(n * 0x80_0000 <= 1000 * 0x80_0000 && n * top >= top && m * 0x80_0000
            <= 1000 * 0x80_0000 && m * top >= top) by (nonlinear_arith)
            requires
                60 <= m <= 1000,
                60 <= n <= 1000,
                top >= 0,
        ;
        lemma_round_near(x, 1);
        lemma_over_whole(first, d, n);
        lemma_round_near(first.units(), n);
        let y = n * second.units();
        assert(second.units() * n == y) by (nonlinear_arith)
            requires
                y == n * second.units(),
        ;
        lemma_times_whole(second, d, n);
        lemma_round_near(y, 1);
        lemma_over_whole(third, c, m);
        lemma_round_near(third.units(), m);
        let z = back.units() * m;
        assert((z - x) * 1_000_000 <= x && (x - z) * 1_000_000 <= x);
        assert((back.units() - v) * 1_000_000 <= v && (v - back.units()) * 1_000_000 <= v)
            by (nonlinear_arith)
            requires
                m > 0,
                z == back.units() * m,
                x == m * v,
                (z - x) * 1_000_000 <= x,
                (x - z) * 1_000_000 <= x,
        ;
    }
}

/// A finite number times zero is a zero.
pub proof fn lemma_times_zero(a: Single)
    requires
        a.is_finite(),
    ensures
        a.times(Single::zero()).magnitude() == 0,
{
    reveal(Single::spec_times);
    assert(magnitude_units(0) == 0);
    assert(a.units() * 0 == 0);
    lemma_pow2_pos(149);
    lemma_round_zero(pow2(149));
}

/// A number times one is the number.
pub proof fn lemma_times_one(a: Single)
    requires
        a.is_finite(),
    ensures
        a.times(Single::one()) == a,
{
    lemma_one();
    lemma_times_whole(a, Single::one(), 1);
    lemma_round_exact(a.magnitude() as nat);
}

/// Adding a zero of either sign keeps the value of every number but NaN.
pub proof fn lemma_plus_a_zero(a: Single, z: Single)
    requires
        !a.is_nan(),
        z.magnitude() == 0,
    ensures
        a.plus(z).same(a),
        a.magnitude() > 0 ==> a.plus(z) == a,
        a.is_finite() ==> a.plus(z).is_finite(),
{
    reveal(Single::spec_plus);
    assert(magnitude_units(0) == 0);
    if a.is_finite() {
        lemma_round_exact(a.magnitude() as nat);
        if a.magnitude() > 0 {
            lemma_units_increase(0, a.magnitude() as nat);
        }
    }
}

} // verus!
