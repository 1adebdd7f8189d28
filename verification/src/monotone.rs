//! Laws of binary32 arithmetic: rounding keeps order, so sums and products do.

use crate::exact::{lemma_one, lemma_order_is_by_value, lemma_units_increase};
use crate::rounding::{half_even, lemma_round_zero, round_units, ulp_shift};
use crate::single::{
    lemma_round_exact, lemma_round_units_scale, lemma_ulp_shift_bounds, magnitude_units, Single,
};
use vstd::arithmetic::div_mod::{lemma_div_is_ordered, lemma_fundamental_div_mod};
use vstd::arithmetic::power2::{lemma2_to64, lemma_pow2_adds, lemma_pow2_pos, pow2};
use vstd::prelude::*;

verus! {

/// The rank of the number nearest to `n / q` units.
pub open spec fn nearest(n: int, q: nat) -> int {
    if n < 0 {
        -(round_units((-n) as nat, q) as int)
    } else {
        round_units(n as nat, q) as int
    }
}

/// More is never less after rounding to whole numbers.
proof fn lemma_half_even_ordered(a: nat, b: nat, q: nat)
    requires
        q > 0,
        a <= b,
    ensures
        half_even(a, q) <= half_even(b, q),
{
    lemma_div_is_ordered(a as int, b as int, q as int);
    lemma_fundamental_div_mod(a as int, q as int);
    lemma_fundamental_div_mod(b as int, q as int);
    if a / q == b / q {
        assert(q * (a / q) == q * (b / q));
        assert(a % q <= b % q);
    }
}

/// What is rounded to a place has the digits of that place.
proof fn lemma_place(p: nat, q: nat)
    requires
        q > 0,
    ensures
        ({
            let k = ulp_shift(p, q);
            let h = half_even(p, q * pow2(k));
            &&& q * pow2(k) > 0
            &&& h <= 0x100_0000
            &&& k > 0 ==> h >= 0x80_0000
        }),
{
    lemma2_to64();
    let k = ulp_shift(p, q);
    lemma_ulp_shift_bounds(p, q);
    let w = pow2(k);
    lemma_pow2_pos(k);
    lemma_pow2_adds(24, k);
    lemma_pow2_adds(23, k);
    let d = q * w;
    assert(d > 0 && p < 0x100_0000 * d) by (nonlinear_arith)
        requires
            d == q * w,
            q > 0,
            w > 0,
            p < q * (0x100_0000 * w),
    ;
    if k > 0 {
        assert(p >= 0x80_0000 * d) by (nonlinear_arith)
            requires
                d == q * w,
                p >= q * (0x80_0000 * w),
        ;
    }
    lemma_fundamental_div_mod(p as int, d as int);
    let whole = p / d;
    let rest = p % d;
    assert(whole < 0x100_0000 && (k > 0 ==> whole >= 0x80_0000)) by (nonlinear_arith)
        requires
            d * whole + rest == p,
            0 <= rest < d,
            p < 0x100_0000 * d,
            k > 0 ==> p >= 0x80_0000 * d,
    ;
}

/// A smaller count needs no larger place.
proof fn lemma_shift_ordered(a: nat, b: nat, q: nat)
    requires
        q > 0,
        a <= b,
    ensures
        ulp_shift(a, q) <= ulp_shift(b, q),
    decreases b - q,
{
    if a >= q * 0x100_0000 {
        lemma_shift_ordered(a, b, 2 * q);
    }
}

/// Rounding keeps order.
pub proof fn lemma_round_ordered(a: nat, b: nat, q: nat)
    requires
        q > 0,
        a <= b,
    ensures
        round_units(a, q) <= round_units(b, q),
{
    let i = ulp_shift(a, q);
    let j = ulp_shift(b, q);
    lemma_shift_ordered(a, b, q);
    lemma_place(a, q);
    lemma_place(b, q);
    if i == j {
        lemma_half_even_ordered(a, b, q * pow2(i));
    } else {
        assert(i + 1 <= j);
    }
}

/// Rounding keeps the order of ratios, below zero too.
pub proof fn lemma_nearest_ordered(n: int, q: nat, m: int, r: nat)
    requires
        q > 0,
        r > 0,
        n * r <= m * q,
    ensures
        nearest(n, q) <= nearest(m, r),
{
    assert(q * r > 0 && r * q == q * r) by (nonlinear_arith)
        requires
            q > 0,
            r > 0,
    ;
    if n >= 0 {
        assert(m >= 0 && n * r >= 0) by (nonlinear_arith)
            requires
                n * r <= m * q,
                n >= 0,
                q > 0,
                r > 0,
        ;
        lemma_round_units_scale(n as nat, q, r);
        lemma_round_units_scale(m as nat, r, q);
        lemma_round_ordered((n * r) as nat, (m * q) as nat, q * r);
    } else if m < 0 {
        let a = (-n) as nat;
        let b = (-m) as nat;
        assert(b * q <= a * r && b * q >= 0) by (nonlinear_arith)
            requires
                n * r <= m * q,
                a == -n,
                b == -m,
                q > 0,
                b > 0,
        ;
        lemma_round_units_scale(a, q, r);
        lemma_round_units_scale(b, r, q);
        lemma_round_ordered((b * q) as nat, (a * r) as nat, q * r);
    }
}

/// Rounding a multiple of both parts changes nothing.
pub proof fn lemma_nearest_scale(n: int, q: nat, c: nat)
    requires
        q > 0,
        c > 0,
    ensures
        nearest(n * c, q * c) == nearest(n, q),
{
    if n < 0 {
        lemma_round_units_scale((-n) as nat, q, c);
        assert(n * c < 0 && (-n) * c == -(n * c)) by (nonlinear_arith)
            requires
                n < 0,
                c > 0,
        ;
    } else {
        lemma_round_units_scale(n as nat, q, c);
        assert(n * c >= 0) by (nonlinear_arith)
            requires
                n >= 0,
                c > 0,
        ;
    }
}

/// A finite number is the nearest to itself.
pub proof fn lemma_nearest_self(a: Single)
    requires
        a.is_finite(),
    ensures
        nearest(a.value(), 1) == a.rank(),
        (a.value() == 0) == (a.rank() == 0),
        (a.value() < 0) == (a.rank() < 0),
{
    let mag = a.magnitude() as nat;
    lemma_round_exact(mag);
    assert(magnitude_units(0) == 0);
    if mag > 0 {
        lemma_units_increase(0, mag);
    }
}

/// Any count above zero is nearest to a number above zero.
pub proof fn lemma_nearest_sign(n: int)
    ensures
        nearest(n, 1) < 0 <==> n < 0,
        nearest(n, 1) > 0 <==> n > 0,
{
    lemma_round_zero(1);
    assert(magnitude_units(1) == 1);
    lemma_round_exact(1);
    if n > 0 {
        lemma_round_ordered(1, n as nat, 1);
    } else if n < 0 {
        lemma_round_ordered(1, (-n) as nat, 1);
    }
}

/// Ratios never change their side of zero.
pub proof fn lemma_nearest_side(n: int, q: nat)
    requires
        q > 0,
    ensures
        n >= 0 ==> nearest(n, q) >= 0,
        n <= 0 ==> nearest(n, q) <= 0,
{
    lemma_round_zero(q);
}

/// The rank of a sum of finite numbers is that of the number nearest to it.
pub proof fn lemma_plus_rank(a: Single, b: Single)
    requires
        a.is_finite(),
        b.is_finite(),
    ensures
        a.plus(b).rank() == nearest(a.value() + b.value(), 1),
        !a.plus(b).is_nan(),
{
    reveal(Single::spec_plus);
    lemma_round_zero(1);
    lemma_nearest_sign(a.value() + b.value());
}

/// The rank of a difference of finite numbers is that of the number nearest to it.
pub proof fn lemma_minus_rank(a: Single, b: Single)
    requires
        a.is_finite(),
        b.is_finite(),
    ensures
        a.minus(b).rank() == nearest(a.value() - b.value(), 1),
        !a.minus(b).is_nan(),
{
    let n = b.neg();
    assert(n.magnitude() == b.magnitude());
    assert(magnitude_units(0) == 0);
    assert(n.value() == -b.value());
    lemma_plus_rank(a, n);
}

/// The rank of a product of finite numbers is that of the number nearest to it.
pub proof fn lemma_times_rank(a: Single, b: Single)
    requires
        a.is_finite(),
        b.is_finite(),
    ensures
        a.times(b).rank() == nearest(a.value() * b.value(), pow2(149)),
        !a.times(b).is_nan(),
{
    reveal(Single::spec_times);
    lemma_pow2_pos(149);
    lemma_round_zero(pow2(149));
    let u = a.units();
    let v = b.units();
    assert(a.value() * b.value() == u * v || a.value() * b.value() == -(u * v)) by (nonlinear_arith)
        requires
            a.value() == u || a.value() == -u,
            b.value() == v || b.value() == -v,
    ;
    assert(u * v >= 0) by (nonlinear_arith)
        requires
            u >= 0,
            v >= 0,
    ;
    assert((a.is_negative() == b.is_negative()) ==> a.value() * b.value() == u * v)
        by (nonlinear_arith)
        requires
            a.is_negative() ==> a.value() == -u,
            !a.is_negative() ==> a.value() == u,
            b.is_negative() ==> b.value() == -v,
            !b.is_negative() ==> b.value() == v,
    ;
    assert((a.is_negative() != b.is_negative()) ==> a.value() * b.value() == -(u * v))
        by (nonlinear_arith)
        requires
            a.is_negative() ==> a.value() == -u,
            !a.is_negative() ==> a.value() == u,
            b.is_negative() ==> b.value() == -v,
            !b.is_negative() ==> b.value() == v,
    ;
}

/// The rank of a quotient by a positive number is that of the number nearest to it.
pub proof fn lemma_over_rank(a: Single, b: Single)
    requires
        a.is_finite(),
        b.is_finite(),
        b.value() > 0,
    ensures
        a.over(b).rank() == nearest(a.value() * pow2(149), b.value() as nat),
        !a.over(b).is_nan(),
{
    reveal(Single::spec_over);
    lemma_pow2_pos(149);
    lemma_round_zero(b.units());
    let w = pow2(149);
    assert(a.value() == a.units() ==> a.value() * w == a.units() * w);
    assert(a.units() * w >= 0) by (nonlinear_arith)
        requires
            a.units() >= 0,
            w > 0,
    ;
    if a.is_negative() {
        assert(a.value() * w == -(a.units() * w)) by (nonlinear_arith)
            requires
                a.value() == -a.units(),
        ;
    }
}

/// Sums keep order.
pub proof fn lemma_plus_ordered(a: Single, b: Single, c: Single)
    requires
        a.is_finite(),
        b.is_finite(),
        c.is_finite(),
        a.le(b),
    ensures
        a.plus(c).le(b.plus(c)),
        c.plus(a).le(c.plus(b)),
{
    lemma_order_is_by_value(a, b);
    lemma_plus_rank(a, c);
    lemma_plus_rank(b, c);
    lemma_plus_rank(c, a);
    lemma_plus_rank(c, b);
    lemma_nearest_ordered(a.value() + c.value(), 1, b.value() + c.value(), 1);
}

/// A difference has the sign of the order of its terms.
pub proof fn lemma_minus_sign(a: Single, b: Single)
    requires
        a.is_finite(),
        b.is_finite(),
    ensures
        Single::zero().lt(b.minus(a)) <==> a.lt(b),
        b.minus(a).lt(Single::zero()) <==> b.lt(a),
        b.minus(a).same(Single::zero()) <==> a.same(b),
{
    lemma_minus_rank(b, a);
    lemma_nearest_sign(b.value() - a.value());
    lemma_order_is_by_value(a, b);
    lemma_order_is_by_value(b, a);
}

/// Products by a number that is not negative keep order.
pub proof fn lemma_times_ordered(a: Single, b: Single, c: Single)
    requires
        a.is_finite(),
        b.is_finite(),
        c.is_finite(),
        Single::zero().le(c),
        a.le(b),
    ensures
        a.times(c).le(b.times(c)),
        c.times(a).le(c.times(b)),
{
    lemma_order_is_by_value(a, b);
    lemma_order_is_by_value(Single::zero(), c);
    lemma_nearest_self(Single::zero());
    lemma_times_rank(a, c);
    lemma_times_rank(b, c);
    lemma_times_rank(c, a);
    lemma_times_rank(c, b);
    lemma_pow2_pos(149);
    let w = pow2(149);
    assert(a.value() * c.value() * w <= b.value() * c.value() * w) by (nonlinear_arith)
        requires
            a.value() <= b.value(),
            c.value() >= 0,
            w > 0,
    ;
    assert(a.value() * c.value() == c.value() * a.value()) by (nonlinear_arith);
    assert(b.value() * c.value() == c.value() * b.value()) by (nonlinear_arith);
    lemma_nearest_ordered(a.value() * c.value(), w, b.value() * c.value(), w);
}

/// A product with a number that is not negative is on the side of the other factor.
pub proof fn lemma_times_side(a: Single, c: Single)
    requires
        a.is_finite(),
        c.is_finite(),
        Single::zero().le(c),
    ensures
        Single::zero().le(a) ==> Single::zero().le(a.times(c)) && Single::zero().le(c.times(a)),
        a.le(Single::zero()) ==> a.times(c).le(Single::zero()) && c.times(a).le(Single::zero()),
{
    lemma_order_is_by_value(Single::zero(), c);
    lemma_order_is_by_value(Single::zero(), a);
    lemma_order_is_by_value(a, Single::zero());
    lemma_nearest_self(Single::zero());
    lemma_times_rank(a, c);
    lemma_times_rank(c, a);
    lemma_pow2_pos(149);
    assert(a.value() * c.value() == c.value() * a.value()) by (nonlinear_arith);
    assert((a.value() >= 0 ==> a.value() * c.value() >= 0) && (a.value() <= 0 ==> a.value()
        * c.value() <= 0)) by (nonlinear_arith)
        requires
            c.value() >= 0,
    ;
    lemma_nearest_side(a.value() * c.value(), pow2(149));
}

/// A product with a number between zero and one lies between zero and the other factor.
pub proof fn lemma_times_share(a: Single, t: Single)
    requires
        a.is_finite(),
        t.is_finite(),
        Single::zero().le(t),
        t.le(Single::one()),
    ensures
        Single::zero().le(a) ==> a.times(t).le(a),
        a.le(Single::zero()) ==> a.le(a.times(t)),
        a.times(t).is_finite(),
{
    lemma_one();
    lemma_order_is_by_value(Single::zero(), t);
    lemma_order_is_by_value(t, Single::one());
    lemma_order_is_by_value(Single::zero(), a);
    lemma_order_is_by_value(a, Single::zero());
    lemma_nearest_self(Single::zero());
    lemma_nearest_self(a);
    lemma_times_rank(a, t);
    let w = pow2(149);
    let n = a.value() * t.value();
    lemma_pow2_pos(149);
    assert((a.value() >= 0 ==> 0 <= n <= a.value() * w) && (a.value() <= 0 ==> a.value() * w <= n
        <= 0)) by (nonlinear_arith)
        requires
            n == a.value() * t.value(),
            0 <= t.value() <= w,
    ;
    lemma_nearest_side(n, w);
    assert(n * 1 == n);
    if a.value() >= 0 {
        lemma_nearest_ordered(n, w, a.value(), 1);
    }
    if a.value() <= 0 {
        lemma_nearest_ordered(a.value(), 1, n, w);
    }
}

} // verus!
