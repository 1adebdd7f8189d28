//! Laws of interpolation: where it starts and ends, what it lies between, and that it
//! goes evenly.

use crate::curve::{eased, lerp, unit_clamp};
use crate::dyadic::{
    fits, is_ratio, lemma_finer, lemma_ratio_constants, lemma_ratio_minus, lemma_ratio_order,
    lemma_ratio_plus, lemma_ratio_times,
};
use crate::exact::{
    lemma_one, lemma_order_is_by_value, lemma_plus_a_zero, lemma_times_commutes, lemma_times_one,
};
use crate::monotone::{
    lemma_minus_rank, lemma_minus_sign, lemma_nearest_ordered, lemma_nearest_scale,
    lemma_nearest_self, lemma_nearest_side, lemma_over_rank, lemma_plus_ordered, lemma_plus_rank,
    lemma_times_ordered, lemma_times_rank, lemma_times_share, lemma_times_side,
};
use crate::rounding::lemma_pow2_le;
use crate::single::{magnitude_units, Single};
use vstd::arithmetic::power2::{lemma2_to64, lemma_pow2_adds, lemma_pow2_pos, pow2};
use vstd::prelude::*;

verus! {

/// Whether a number lies between zero and one.
pub open spec fn is_share(t: Single) -> bool {
    Single::zero().le(t) && t.le(Single::one())
}

/// Whether a number lies between two others, in either order.
pub open spec fn lies_between(x: Single, a: Single, b: Single) -> bool {
    (a.le(x) && x.le(b)) || (b.le(x) && x.le(a))
}

/// Whether the difference of two finite numbers needs no rounding.
pub open spec fn differ_exactly(a: Single, b: Single) -> bool {
    &&& a.is_finite()
    &&& b.is_finite()
    &&& b.minus(a).is_finite()
    &&& b.minus(a).value() == b.value() - a.value()
}

/// A zero, of either sign, as a factor from the right.
pub proof fn lemma_times_a_zero(a: Single, z: Single)
    requires
        a.is_finite(),
        z.magnitude() == 0,
    ensures
        a.times(z).magnitude() == 0,
        z.times(a).magnitude() == 0,
{
    lemma_times_rank(a, z);
    lemma_times_rank(z, a);
    assert(magnitude_units(0) == 0);
    assert(a.value() * 0 == 0 && 0 * a.value() == 0);
    lemma_pow2_pos(149);
    lemma_nearest_side(0, pow2(149));
}

/// At the ratio zero an interpolation is where it starts.
pub proof fn lemma_lerp_starts(a: Single, b: Single, t: Single)
    requires
        a.is_finite(),
        b.minus(a).is_finite(),
        t.magnitude() == 0,
    ensures
        lerp(a, b, t).same(a),
{
    lemma_times_a_zero(b.minus(a), t);
    lemma_plus_a_zero(a, b.minus(a).times(t));
}

/// At the ratio one an interpolation is where it ends, where the difference needs no
/// rounding.
pub proof fn lemma_lerp_ends(a: Single, b: Single)
    requires
        differ_exactly(a, b),
    ensures
        lerp(a, b, Single::one()).same(b),
{
    lemma_times_one(b.minus(a));
    lemma_plus_rank(a, b.minus(a));
    lemma_nearest_self(b);
}

/// Between two numbers that are one, an interpolation is that number.
pub proof fn lemma_lerp_rests(a: Single, b: Single, t: Single)
    requires
        a.is_finite(),
        b.is_finite(),
        a.same(b),
        t.is_finite(),
    ensures
        lerp(a, b, t).same(a),
{
    lemma_minus_sign(a, b);
    let d = b.minus(a);
    assert(d.magnitude() == 0);
    lemma_times_a_zero(t, d);
    lemma_plus_a_zero(a, d.times(t));
}

/// An interpolation never leaves the way between its ends, where their difference needs
/// no rounding.
pub proof fn lemma_lerp_between(a: Single, b: Single, t: Single)
    requires
        differ_exactly(a, b),
        is_share(t),
    ensures
        lies_between(lerp(a, b, t), a, b),
        a.le(b) ==> a.le(lerp(a, b, t)) && lerp(a, b, t).le(b),
        b.le(a) ==> b.le(lerp(a, b, t)) && lerp(a, b, t).le(a),
{
    let d = b.minus(a);
    let m = d.times(t);
    lemma_minus_sign(a, b);
    lemma_times_share(d, t);
    lemma_times_side(d, t);
    lemma_order_is_by_value(a, b);
    lemma_order_is_by_value(b, a);
    lemma_order_is_by_value(Single::zero(), m);
    lemma_order_is_by_value(m, Single::zero());
    lemma_order_is_by_value(d, m);
    lemma_order_is_by_value(m, d);
    lemma_nearest_self(Single::zero());
    lemma_plus_rank(a, m);
    lemma_nearest_self(a);
    lemma_nearest_self(b);
    let v = a.value() + m.value();
    if a.value() <= b.value() {
        lemma_nearest_ordered(a.value(), 1, v, 1);
        lemma_nearest_ordered(v, 1, b.value(), 1);
    }
    if b.value() <= a.value() {
        lemma_nearest_ordered(v, 1, a.value(), 1);
        lemma_nearest_ordered(b.value(), 1, v, 1);
    }
}

/// A later ratio lies no nearer to the start.
pub proof fn lemma_lerp_ordered(a: Single, b: Single, t: Single, u: Single)
    requires
        a.is_finite(),
        b.is_finite(),
        b.minus(a).is_finite(),
        is_share(t),
        is_share(u),
        t.le(u),
    ensures
        a.le(b) ==> lerp(a, b, t).le(lerp(a, b, u)),
        b.le(a) ==> lerp(a, b, u).le(lerp(a, b, t)),
{
    let d = b.minus(a);
    lemma_minus_sign(a, b);
    lemma_times_share(d, t);
    lemma_times_share(d, u);
    if a.le(b) {
        lemma_times_ordered(t, u, d);
        lemma_plus_ordered(d.times(t), d.times(u), a);
    }
    if b.le(a) {
        let e = a.minus(b);
        lemma_minus_sign(b, a);
        lemma_order_is_by_value(t, u);
        lemma_times_rank(d, t);
        lemma_times_rank(d, u);
        lemma_order_is_by_value(d, Single::zero());
        lemma_nearest_self(Single::zero());
        let w = pow2(149);
        lemma_pow2_pos(149);
        assert((d.value() * u.value()) * w <= (d.value() * t.value()) * w) by (nonlinear_arith)
            requires
                d.value() <= 0,
                t.value() <= u.value(),
                w > 0,
        ;
        lemma_nearest_ordered(d.value() * u.value(), w, d.value() * t.value(), w);
        lemma_plus_ordered(d.times(u), d.times(t), a);
    }
}

/// The way gone is to the whole way as the ratio is to one: exactly so for whole numbers
/// over powers of two whose digits fit.
pub proof fn lemma_lerp_even(
    a: Single,
    n: int,
    b: Single,
    m: int,
    s: nat,
    t: Single,
    k: int,
    r: nat,
)
    requires
        is_ratio(a, n, s),
        is_ratio(b, m, s),
        is_ratio(t, k, r),
        s + r <= 149,
        fits(m - n),
        fits((m - n) * k),
        fits(n * pow2(r) + (m - n) * k),
    ensures
        is_ratio(lerp(a, b, t), n * pow2(r) + (m - n) * k, s + r),
{
    lemma_ratio_minus(b, m, a, n, s);
    lemma_ratio_times(b.minus(a), m - n, s, t, k, r);
    lemma_finer(a, n, s, r);
    lemma_ratio_plus(a, n * pow2(r), b.minus(a).times(t), (m - n) * k, s + r);
}

/// However a ratio is eased, it starts at zero and ends at one.
pub proof fn lemma_eased_ends(easing: Single)
    ensures
        eased(Single::zero(), easing).same(Single::zero()),
        eased(Single::one(), easing).same(Single::one()),
{
    lemma2_to64();
    lemma_ratio_constants();
    lemma_eased_exact(Single::zero(), 0, 0, easing);
    lemma_eased_exact(Single::one(), 1, 0, easing);
    let z = eased(Single::zero(), easing);
    let o = eased(Single::one(), easing);
    lemma_ratio_order(z, 0, Single::zero(), 0, 0);
    lemma_ratio_order(o, 1, Single::one(), 1, 0);
}

/// No easing is even; a positive one is smooth at both ends, and as far from the start
/// before the middle as from the end behind it; a negative one slows down toward the end.
/// Exactly so for whole numbers over powers of two whose digits fit.
pub proof fn lemma_eased_exact(t: Single, n: int, s: nat, easing: Single)
    requires
        is_fine_share(n, s),
        is_ratio(t, n, s),
    ensures
        !easing.is_finite() || easing.same(Single::zero()) ==> eased(t, easing) == t,
        easing.is_finite() && Single::zero().lt(easing) ==> is_ratio(
            eased(t, easing),
            3 * (n * n) * pow2(s) - 2 * (n * n * n),
            3 * s,
        ),
        easing.is_finite() && easing.lt(Single::zero()) ==> is_ratio(
            eased(t, easing),
            2 * n * pow2(s) - n * n,
            2 * s,
        ),
{
    lemma2_to64();
    lemma_ratio_constants();
    lemma_pow2_pos(s);
    lemma_pow2_le(s, 7);
    let w = pow2(s) as int;
    let one = Single::one();
    let two = Single::two();
    let three = Single::three();
    lemma_order_is_by_value(Single::zero(), Single::zero());
    assert(fits(n * n)) by (nonlinear_arith)
        requires
            -w <= n <= w,
            0 < w <= 128,
    ;
    if easing.is_finite() && Single::zero().lt(easing) {
        lemma_ratio_times(t, n, s, t, n, s);
        lemma_ratio_times(two, 2, 0, t, n, s);
        lemma_finer(three, 3, 0, s);
        lemma_ratio_minus(three, 3 * w, two.times(t), 2 * n, s);
        assert(fits((n * n) * (3 * w - 2 * n))) by (nonlinear_arith)
            requires
                -w <= n <= w,
                0 < w <= 128,
        ;
        lemma_ratio_times(
            t.times(t),
            n * n,
            s + s,
            three.minus(two.times(t)),
            3 * w - 2 * n,
            s,
        );
        assert((n * n) * (3 * w - 2 * n) == 3 * (n * n) * w - 2 * (n * n * n)) by (nonlinear_arith);
    }
    if easing.is_finite() && easing.lt(Single::zero()) {
        lemma_finer(one, 1, 0, s);
        lemma_ratio_minus(one, w, t, n, s);
        let rest = one.minus(t);
        assert(fits((w - n) * (w - n))) by (nonlinear_arith)
            requires
                -w <= n <= w,
                0 < w <= 128,
        ;
        lemma_ratio_times(rest, w - n, s, rest, w - n, s);
        lemma_finer(one, 1, 0, s + s);
        lemma_pow2_adds(s, s);
        assert(fits(w * w - (w - n) * (w - n))) by (nonlinear_arith)
            requires
                -w <= n <= w,
                0 < w <= 128,
        ;
        assert(1 * (w * w) == w * w);
        lemma_ratio_minus(one, w * w, rest.times(rest), (w - n) * (w - n), s + s);
        assert(w * w - (w - n) * (w - n) == 2 * n * w - n * n) by (nonlinear_arith);
    }
}

/// Whether a ratio is none beyond one, in parts of at most a hundred and twenty-eighth.
pub open spec fn is_fine_share(n: int, s: nat) -> bool {
    s <= 7 && -pow2(s) <= n <= pow2(s)
}

/// Smooth easing takes as much before the middle as behind it.
pub proof fn lemma_eased_mirrored(t: Single, u: Single, n: int, s: nat, easing: Single)
    requires
        s <= 7,
        0 <= n <= pow2(s),
        is_ratio(t, n, s),
        is_ratio(u, pow2(s) - n, s),
        easing.is_finite(),
        Single::zero().lt(easing),
    ensures
        eased(t, easing).value() + eased(u, easing).value() == Single::one().value(),
{
    lemma_eased_exact(t, n, s, easing);
    lemma_eased_exact(u, pow2(s) - n, s, easing);
    lemma_one();
    let w = pow2(s) as int;
    let m = w - n;
    lemma_pow2_adds(s, s);
    lemma_pow2_adds(2 * s, s);
    lemma_pow2_adds(3 * s, (149 - 3 * s) as nat);
    let p = pow2((149 - 3 * s) as nat);
    let a = 3 * (n * n) * w - 2 * (n * n * n);
    let b = 3 * (m * m) * w - 2 * (m * m * m);
    assert(a + b == w * w * w) by (nonlinear_arith)
        requires
            m == w - n,
            a == 3 * (n * n) * w - 2 * (n * n * n),
            b == 3 * (m * m) * w - 2 * (m * m * m),
    ;
    assert(a * p + b * p == (w * w * w) * p) by (nonlinear_arith)
        requires
            a + b == w * w * w,
    ;
}

/// An eased ratio is finite and not negative.
pub proof fn lemma_eased_share(t: Single, easing: Single)
    requires
        is_share(t),
    ensures
        eased(t, easing).is_finite(),
        Single::zero().le(eased(t, easing)),
        !Single::zero().lt(easing) ==> is_share(eased(t, easing)),
{
    lemma_one();
    lemma_ratio_constants();
    let one = Single::one();
    let zero = Single::zero();
    if easing.is_finite() && zero.lt(easing) {
        let two = Single::two();
        let three = Single::three();
        let d = two.times(t);
        lemma_times_side(two, t);
        lemma_ratio_order(zero, 0, two, 2, 0);
        lemma_ratio_order(zero, 0, three, 3, 0);
        lemma_times_share(two, t);
        lemma_ratio_order(two, 2, three, 3, 0);
        lemma_minus_sign(d, three);
        let rest = three.minus(d);
        // The rest lies between zero and three.
        lemma_order_is_by_value(zero, d);
        lemma_minus_rank(three, d);
        lemma_nearest_self(three);
        lemma_nearest_self(zero);
        lemma_nearest_ordered(three.value() - d.value(), 1, three.value(), 1);
        assert(rest.le(three));
        assert(rest.is_finite());
        lemma_times_share(t, t);
        lemma_times_side(t, t);
        let q = t.times(t);
        lemma_order_is_by_value(q, t);
        lemma_order_is_by_value(t, one);
        lemma_order_is_by_value(q, one);
        lemma_times_side(rest, q);
        lemma_times_share(rest, q);
        lemma_times_commutes(q, rest);
    } else if easing.is_finite() && !easing.same(zero) {
        let rest = one.minus(t);
        lemma_minus_sign(t, one);
        lemma_minus_rank(one, t);
        lemma_order_is_by_value(zero, t);
        lemma_nearest_self(one);
        lemma_nearest_self(zero);
        lemma_nearest_ordered(one.value() - t.value(), 1, one.value(), 1);
        assert(is_share(rest));
        lemma_times_share(rest, rest);
        lemma_times_side(rest, rest);
        let q = rest.times(rest);
        lemma_order_is_by_value(q, rest);
        lemma_order_is_by_value(rest, one);
        lemma_order_is_by_value(q, one);
        lemma_order_is_by_value(zero, q);
        lemma_minus_sign(q, one);
        lemma_minus_rank(one, q);
        lemma_nearest_ordered(one.value() - q.value(), 1, one.value(), 1);
    }
}

/// The share of a span that has gone by at a time.
pub open spec fn gone(from: Single, span: Single, time: Single) -> Single {
    unit_clamp(time.minus(from).over(span))
}

/// Of a span, nothing has gone by at its start and all at its end; in between it is a
/// share that never falls.
pub proof fn lemma_gone(from: Single, to: Single, time: Single, later: Single)
    requires
        from.is_finite(),
        to.is_finite(),
        from.lt(to),
        to.minus(from).is_finite(),
        time.is_finite(),
        later.is_finite(),
        from.le(time),
        time.le(later),
        later.le(to),
    ensures
        is_share(gone(from, to.minus(from), time)),
        gone(from, to.minus(from), time).le(gone(from, to.minus(from), later)),
        gone(from, to.minus(from), from).magnitude() == 0,
        gone(from, to.minus(from), to) == Single::one(),
        from.minus(from).over(to.minus(from)).magnitude() == 0,
        to.minus(from).over(to.minus(from)) == Single::one(),
{
    let span = to.minus(from);
    lemma_minus_sign(from, to);
    lemma_order_is_by_value(Single::zero(), span);
    lemma_nearest_self(Single::zero());
    lemma_one();
    lemma_ratio_constants();
    lemma_pow2_pos(149);
    let w = pow2(149);
    // The end.
    lemma_over_rank(span, span);
    let v = span.value() as nat;
    assert(span.value() * w == w * v) by (nonlinear_arith)
        requires
            span.value() == v,
    ;
    lemma_nearest_scale(w as int, 1, v);
    lemma_nearest_self(Single::one());
    let all = span.over(span);
    assert(all.rank() == Single::one().rank());
    assert(all == Single::one());
    // The start.
    lemma_minus_sign(from, from);
    let none = from.minus(from);
    lemma_minus_rank(from, from);
    lemma_order_is_by_value(none, Single::zero());
    assert(none.magnitude() == 0);
    assert(magnitude_units(0) == 0);
    lemma_over_rank(none, span);
    assert(0 * w == 0);
    lemma_nearest_side(0, v);
    // In between.
    lemma_order_is_by_value(from, time);
    lemma_order_is_by_value(time, later);
    lemma_order_is_by_value(later, to);
    let a = time.minus(from);
    let b = later.minus(from);
    lemma_minus_rank(time, from);
    lemma_minus_rank(later, from);
    lemma_minus_rank(to, from);
    lemma_nearest_ordered(0, 1, time.value() - from.value(), 1);
    lemma_nearest_ordered(time.value() - from.value(), 1, later.value() - from.value(), 1);
    lemma_nearest_ordered(later.value() - from.value(), 1, to.value() - from.value(), 1);
    lemma_minus_sign(from, time);
    assert(a.is_finite() && b.is_finite());
    lemma_order_is_by_value(a, b);
    lemma_over_rank(a, span);
    lemma_over_rank(b, span);
    assert((a.value() * w) * v <= (b.value() * w) * v) by (nonlinear_arith)
        requires
            a.value() <= b.value(),
            w > 0,
            v > 0,
    ;
    lemma_nearest_ordered(a.value() * w, v, b.value() * w, v);
}

} // verus!
