//! Laws of pictures: what is laid over what, and where it lands.

use crate::assembly::Scene;
use crate::curve_laws::{is_share, lemma_gone, lemma_times_a_zero};
use crate::dyadic::{
    is_ratio, lemma_finer, lemma_ratio_constants, lemma_ratio_minus, lemma_ratio_order,
    lemma_ratio_plus, lemma_ratio_times,
};
use crate::exact::{
    lemma_one, lemma_order_is_by_value, lemma_plus_a_zero, lemma_plus_commutes, lemma_round_near,
    lemma_times_commutes, lemma_times_one, lemma_units_increase, lemma_whole_is_exact,
};
use crate::mesh::Point;
use crate::monotone::{
    lemma_minus_rank, lemma_minus_sign, lemma_nearest_ordered, lemma_nearest_scale,
    lemma_nearest_self, lemma_over_rank, lemma_plus_rank, lemma_times_rank, lemma_times_share,
    lemma_times_side, nearest,
};
use crate::place::{EmoteSceneBounds, Stand};
use crate::raster::{
    blended, edge, final_place, first_place, full_channel, last_place, mixed, on_screen, painted,
    painted_row, painted_rows, pixel_at, share_of, shares, span, texel, tolerance, with_drawn,
    with_triangle, ScreenTriangle,
};
use crate::rounding::{
    half_even, lemma_pow2_le, lemma_round_zero, round_units, ulp_shift, INFINITY_BITS,
};
use crate::single::{lemma_round_units_scale, magnitude_units, Single};
use crate::texture::{Loaded, Pixels};
use vstd::arithmetic::div_mod::{
    lemma_div_is_ordered, lemma_div_multiples_vanish, lemma_fundamental_div_mod,
    lemma_fundamental_div_mod_converse,
};
use vstd::arithmetic::power2::{
    lemma2_to64, lemma_pow2_adds, lemma_pow2_pos, lemma_pow2_strictly_increases, pow2,
};
use vstd::prelude::*;

verus! {

/// Rounding moves a ratio by at most its share of one in two to the twenty-fourth, and a
/// unit.
proof fn lemma_round_close(p: nat, q: nat)
    requires
        q > 0,
        p < q * pow2(276),
    ensures
        round_units(p, q) < INFINITY_BITS,
        ({
            let got = magnitude_units(round_units(p, q)) * q;
            &&& (got - p) * 0x100_0000 <= p + q * 0x100_0000
            &&& (p - got) * 0x100_0000 <= p + q * 0x100_0000
        }),
{
    assert(q * 0x100_0000 > 0);
    if p >= q * 0x80_0000 {
        lemma_round_near(p, q);
    } else {
        lemma2_to64();
        assert(ulp_shift(p, q) == 0);
        assert(q * pow2(0) == q) by (nonlinear_arith)
            requires
                pow2(0) == 1,
        ;
        let h = half_even(p, q);
        lemma_fundamental_div_mod(p as int, q as int);
        let whole = p / q;
        let rest = p % q;
        assert(whole < 0x80_0000) by (nonlinear_arith)
            requires
                q * whole + rest == p,
                rest >= 0,
                p < q * 0x80_0000,
                q > 0,
        ;
        assert(0 * 0x80_0000 + h == h);
        if h == 0x80_0000 {
            lemma_fundamental_div_mod_converse(h as int, 0x80_0000, 1, 0);
            assert(0x80_0000 * 1 == 0x80_0000);
        } else {
            lemma_fundamental_div_mod_converse(h as int, 0x80_0000, 0, h as int);
        }
        assert(magnitude_units(h) == h);
        assert(h * q == q * whole || h * q == q * whole + q) by (nonlinear_arith)
            requires
                h == whole || h == whole + 1,
        ;
    }
}

/// Whether a count is nearly another, up to a share of one in two to the twenty-fourth of
/// some size, and a unit.
pub open spec fn close(got: int, want: int, size: int, unit: int) -> bool {
    &&& (got - want) * 0x100_0000 <= size + unit * 0x100_0000
    &&& (want - got) * 0x100_0000 <= size + unit * 0x100_0000
}

/// The number nearest to a ratio is close to it.
proof fn lemma_nearest_close(r: Single, p: int, q: nat, size: int)
    requires
        !r.is_nan(),
        r.rank() == nearest(p, q),
        0 <= p <= size,
        q > 0,
        p < q * pow2(276),
    ensures
        r.is_finite(),
        r.value() >= 0,
        close(r.value() * q, p, size, q as int),
{
    lemma_round_close(p as nat, q);
    assert(magnitude_units(0) == 0);
    lemma_nearest_self(r);
}

proof fn lemma_small(p: int, q: nat)
    requires
        q > 0,
        p <= q * pow2(150),
    ensures
        p < q * pow2(276),
{
    lemma_pow2_pos(150);
    lemma_pow2_strictly_increases(150, 276);
    assert(q * pow2(150) < q * pow2(276)) by (nonlinear_arith)
        requires
            q > 0,
            pow2(150) < pow2(276),
    ;
}

/// A product of two shares.
proof fn lemma_times_close(a: Single, b: Single)
    requires
        is_share(a),
        is_share(b),
    ensures
        ({
            let w = pow2(149) as int;
            let r = a.times(b);
            &&& is_share(r)
            &&& 0 <= a.value() <= w
            &&& 0 <= b.value() <= w
            &&& 0 <= r.value() <= w
            &&& close(r.value() * w, a.value() * b.value(), w * w, w)
        }),
{
    lemma_one();
    lemma_pow2_pos(149);
    let w = pow2(149) as int;
    lemma_order_is_by_value(Single::zero(), a);
    lemma_order_is_by_value(a, Single::one());
    lemma_order_is_by_value(Single::zero(), b);
    lemma_order_is_by_value(b, Single::one());
    lemma_nearest_self(Single::zero());
    lemma_times_rank(a, b);
    let p = a.value() * b.value();
    assert(0 <= p <= w * w) by (nonlinear_arith)
        requires
            p == a.value() * b.value(),
            0 <= a.value() <= w,
            0 <= b.value() <= w,
    ;
    lemma_pow2_adds(1, 149);
    lemma2_to64();
    assert(w * w <= w * pow2(150)) by (nonlinear_arith)
        requires
            pow2(150) == 2 * w,
            w > 0,
    ;
    lemma_small(p, w as nat);
    lemma_nearest_close(a.times(b), p, w as nat, w * w);
    lemma_times_share(a, b);
    lemma_times_side(a, b);
    let r = a.times(b);
    lemma_order_is_by_value(r, a);
    lemma_order_is_by_value(r, Single::one());
    lemma_order_is_by_value(Single::zero(), r);
}

/// What is left of one after a share.
proof fn lemma_rest_close(a: Single)
    requires
        is_share(a),
    ensures
        ({
            let w = pow2(149) as int;
            let r = Single::one().minus(a);
            &&& is_share(r)
            &&& close(r.value(), w - a.value(), w, 1)
        }),
{
    lemma_one();
    lemma_pow2_pos(149);
    let one = Single::one();
    let w = pow2(149) as int;
    lemma_order_is_by_value(Single::zero(), a);
    lemma_order_is_by_value(a, one);
    lemma_nearest_self(Single::zero());
    lemma_nearest_self(one);
    lemma_minus_rank(one, a);
    lemma_pow2_adds(1, 149);
    lemma2_to64();
    lemma_small(w - a.value(), 1);
    let r = one.minus(a);
    lemma_nearest_close(r, w - a.value(), 1, w);
    assert(r.value() * 1 == r.value());
    lemma_nearest_ordered(w - a.value(), 1, w, 1);
    lemma_order_is_by_value(Single::zero(), r);
}

/// A channel as a share of a full one.
proof fn lemma_share_close(v: u8)
    ensures
        ({
            let w = pow2(149) as int;
            &&& is_share(share_of(v))
            &&& close(share_of(v).value() * 255, v * w, 255 * w, 255)
        }),
{
    lemma_one();
    lemma_pow2_pos(149);
    let w = pow2(149) as int;
    let x = Single::spec_from_i64(v as i64);
    let r = share_of(v);
    lemma_whole_is_exact(v as i64);
    lemma_full();
    lemma_over_rank(x, full_channel());
    // v * w * w over 255 * w is v * w over 255.
    assert((v * w) * w == (v * w) * w && (255 * w) > 0);
    lemma_nearest_scale(v * w, 255, w as nat);
    assert(255nat * (w as nat) == (255 * w) as nat);
    assert(r.rank() == nearest(v * w, 255));
    assert(0 <= v * w <= 255 * w) by (nonlinear_arith)
        requires
            0 <= v <= 255,
            w > 0,
    ;
    lemma_pow2_adds(1, 149);
    lemma2_to64();
    lemma_small(v * w, 255);
    lemma_nearest_close(r, v * w, 255, 255 * w);
    lemma_nearest_self(Single::one());
    lemma_nearest_ordered(v * w, 255, w, 1);
    lemma_order_is_by_value(Single::zero(), r);
    lemma_nearest_self(Single::zero());
}

proof fn lemma_full()
    ensures
        full_channel().is_finite(),
        full_channel().value() == 255 * pow2(149),
{
    lemma2_to64();
    lemma_pow2_adds(16, 133);
    assert(0x437f_0000nat / 0x80_0000 == 134);
    assert(0x437f_0000nat % 0x80_0000 == 0x7f_0000);
    assert(magnitude_units(0x437f_0000) == 0xff_0000 * pow2(133));
    assert(pow2(149) == 0x1_0000 * pow2(133));
}

/// What comes out of a blend before it is rounded lies close to the mean of both channels,
/// each weighted by its part.
proof fn lemma_blend_close(src: u8, dst: u8, alpha: Single)
    requires
        is_share(alpha),
    ensures
        ({
            let w = pow2(149) as int;
            let r = share_of(src).times(alpha).plus(
                share_of(dst).times(Single::one().minus(alpha)),
            ).times(full_channel());
            let mean = src * alpha.value() + dst * (w - alpha.value());
            &&& r.is_finite()
            &&& r.value() >= 0
            &&& (r.value() - mean) * 1000 <= w
            &&& (mean - r.value()) * 1000 <= w
        }),
{
    lemma_one();
    lemma_pow2_pos(149);
    lemma2_to64();
    lemma_pow2_le(64, 149);
    let w = pow2(149) as int;
    let n = 0x100_0000int;
    let sh = share_of(src);
    let dh = share_of(dst);
    let rest = Single::one().minus(alpha);
    let a = sh.times(alpha);
    let b = dh.times(rest);
    let t = a.plus(b);
    let r = t.times(full_channel());
    let al = alpha.value();
    let c = rest.value();
    let s = src as int;
    let d = dst as int;
    lemma_share_close(src);
    lemma_share_close(dst);
    lemma_rest_close(alpha);
    lemma_times_close(sh, alpha);
    lemma_times_close(dh, rest);
    // 255 * a is close to s * alpha.
    let sv = sh.value();
    let dv = dh.value();
    let av = a.value();
    let bv = b.value();
    let e1 = 255 * sv - s * w;
    let e2 = av * w - sv * al;
    assert(255 * (av * w) - (s * al) * w == 255 * e2 + al * e1) by (nonlinear_arith)
        requires
            e1 == 255 * sv - s * w,
            e2 == av * w - sv * al,
    ;
    assert(-(255 * w + 255 * n) <= n * e1 <= 255 * w + 255 * n);
    assert(-(w * w + w * n) <= n * e2 <= w * w + w * n);
    assert(n * (al * e1) <= w * (255 * w + 255 * n) && n * (al * e1) >= -(w * (255 * w + 255 * n)))
        by (nonlinear_arith)
        requires
            0 <= al <= w,
            -(255 * w + 255 * n) <= n * e1 <= 255 * w + 255 * n,
    ;
    let x = 255 * av - s * al;
    assert(n * (x * w) <= 510 * (w * w) + 510 * (w * n) && n * (x * w) >= -(510 * (w * w) + 510 * (w
        * n))) by (nonlinear_arith)
        requires
            x == 255 * av - s * al,
            255 * (av * w) - (s * al) * w == 255 * e2 + al * e1,
            -(w * w + w * n) <= n * e2 <= w * w + w * n,
            n * (al * e1) <= w * (255 * w + 255 * n),
            n * (al * e1) >= -(w * (255 * w + 255 * n)),
    ;
    assert(n * x <= 510 * w + 510 * n && n * x >= -(510 * w + 510 * n)) by (nonlinear_arith)
        requires
            n * (x * w) <= 510 * (w * w) + 510 * (w * n),
            n * (x * w) >= -(510 * (w * w) + 510 * (w * n)),
            w > 0,
    ;
    // 255 * b is close to d * (1 - alpha).
    let f1 = 255 * dv - d * w;
    let f2 = bv * w - dv * c;
    let f3 = c - (w - al);
    assert(-(255 * w + 255 * n) <= n * f1 <= 255 * w + 255 * n);
    assert(-(w * w + w * n) <= n * f2 <= w * w + w * n);
    assert(-(w + n) <= n * f3 <= w + n);
    assert(255 * (bv * w) - (d * (w - al)) * w == 255 * f2 + c * f1 + (d * w) * f3)
        by (nonlinear_arith)
        requires
            f1 == 255 * dv - d * w,
            f2 == bv * w - dv * c,
            f3 == c - (w - al),
    ;
    assert(n * (c * f1) <= w * (255 * w + 255 * n) && n * (c * f1) >= -(w * (255 * w + 255 * n)))
        by (nonlinear_arith)
        requires
            0 <= c <= w,
            -(255 * w + 255 * n) <= n * f1 <= 255 * w + 255 * n,
    ;
    assert(n * ((d * w) * f3) <= (255 * w) * (w + n) && n * ((d * w) * f3) >= -((255 * w) * (w + n)))
        by (nonlinear_arith)
        requires
            0 <= d <= 255,
            w > 0,
            n > 0,
            -(w + n) <= n * f3 <= w + n,
    ;
    let y = 255 * bv - d * (w - al);
    assert(n * (y * w) <= 765 * (w * w) + 765 * (w * n) && n * (y * w) >= -(765 * (w * w) + 765 * (w
        * n))) by (nonlinear_arith)
        requires
            y == 255 * bv - d * (w - al),
            255 * (bv * w) - (d * (w - al)) * w == 255 * f2 + c * f1 + (d * w) * f3,
            -(w * w + w * n) <= n * f2 <= w * w + w * n,
            n * (c * f1) <= w * (255 * w + 255 * n),
            n * (c * f1) >= -(w * (255 * w + 255 * n)),
            n * ((d * w) * f3) <= (255 * w) * (w + n),
            n * ((d * w) * f3) >= -((255 * w) * (w + n)),
    ;
    assert(n * y <= 765 * w + 765 * n && n * y >= -(765 * w + 765 * n)) by (nonlinear_arith)
        requires
            n * (y * w) <= 765 * (w * w) + 765 * (w * n),
            n * (y * w) >= -(765 * (w * w) + 765 * (w * n)),
            w > 0,
    ;
    // The sum, and the product with a full channel.
    lemma_plus_rank(a, b);
    lemma_pow2_adds(1, 149);
    lemma_small(av + bv, 1);
    lemma_nearest_close(t, av + bv, 1, 2 * w);
    let tv = t.value();
    assert(tv * 1 == tv);
    lemma_full();
    lemma_times_rank(t, full_channel());
    assert(tv * (255 * w) == (tv * 255) * w) by (nonlinear_arith);
    lemma_nearest_scale(tv * 255, 1, w as nat);
    assert(1nat * (w as nat) == w as nat);
    lemma_pow2_le(160, 276);
    lemma_pow2_adds(11, 149);
    assert(tv * 255 < 1 * pow2(276)) by {
        assert(tv <= 4 * w);
        lemma_pow2_strictly_increases(160, 276);
    }
    lemma_nearest_close(r, tv * 255, 1, 1020 * w);
    assert(r.value() * 1 == r.value());
    assert(s * al + d * (w - al) == 255 * (av + bv) - x - y);
}

/// A channel laid over another is the mean of both, each weighted by its part, rounded to
/// a whole number: it is off by no more than a half and a thousandth.
pub proof fn lemma_blend_is_the_mean(src: u8, dst: u8, alpha: Single)
    requires
        is_share(alpha),
    ensures
        ({
            let w = pow2(149) as int;
            let mean = src * alpha.value() + dst * (w - alpha.value());
            &&& (blended(src, dst, alpha) * w - mean) * 1000 <= 501 * w
            &&& (mean - blended(src, dst, alpha) * w) * 1000 <= 501 * w
        }),
        src <= dst ==> src <= blended(src, dst, alpha) <= dst,
        dst <= src ==> dst <= blended(src, dst, alpha) <= src,
{
    lemma_one();
    lemma_pow2_pos(149);
    let w = pow2(149) as int;
    let al = alpha.value();
    lemma_order_is_by_value(Single::zero(), alpha);
    lemma_order_is_by_value(alpha, Single::one());
    lemma_nearest_self(Single::zero());
    lemma_blend_close(src, dst, alpha);
    let r = share_of(src).times(alpha).plus(share_of(dst).times(Single::one().minus(alpha))).times(
        full_channel(),
    );
    let s = src as int;
    let d = dst as int;
    let mean = s * al + d * (w - al);
    let lo = if s <= d {
        s
    } else {
        d
    };
    let hi = if s <= d {
        d
    } else {
        s
    };
    assert(lo * w <= mean <= hi * w) by (nonlinear_arith)
        requires
            mean == s * al + d * (w - al),
            0 <= al <= w,
            lo <= s,
            lo <= d,
            s <= hi,
            d <= hi,
    ;
    let u = r.units() as int;
    assert(u == r.value()) by {
        lemma_nearest_self(r);
        assert(magnitude_units(0) == 0);
    }
    let k = (2 * u + w) / (2 * w);
    let left = (2 * u + w) % (2 * w);
    lemma_fundamental_div_mod(2 * u + w, 2 * w);
    assert((2 * w) * k == 2 * (k * w)) by (nonlinear_arith);
    let kw = k * w;
    assert(2 * kw + left == 2 * u + w && 0 <= left < 2 * w);
    // The rounded number is within a half of the unrounded one.
    assert(2 * (kw - u) <= w && 2 * (u - kw) <= w);
    assert(k >= lo) by (nonlinear_arith)
        requires
            kw == k * w,
            2 * (u - kw) <= w,
            (lo * w - u) * 1000 <= w,
            w > 0,
    ;
    assert(k <= hi) by (nonlinear_arith)
        requires
            kw == k * w,
            2 * (kw - u) <= w,
            (u - hi * w) * 1000 <= w,
            w > 0,
    ;
    assert(r.nearest_whole() == k || (r.is_negative() && u == 0)) by {
        lemma_nearest_self(r);
    }
    if r.is_negative() {
        assert(r.value() == -(r.units() as int));
        assert(u == 0);
        lemma_fundamental_div_mod_converse(w, 2 * w, 0, w);
    }
    assert(r.rounded_into(0, 255) == k);
}

/// Laying a channel over the same channel leaves it as it is.
pub proof fn lemma_blend_of_one_channel(v: u8, alpha: Single)
    requires
        is_share(alpha),
    ensures
        blended(v, v, alpha) == v,
{
    lemma_blend_is_the_mean(v, v, alpha);
}

/// An opaque channel hides what lies below, and one that is not there leaves it.
pub proof fn lemma_blend_ends(src: u8, dst: u8)
    ensures
        blended(src, dst, Single::one()) == src,
        blended(src, dst, Single::zero()) == dst,
{
    lemma_one();
    lemma_pow2_pos(149);
    let w = pow2(149) as int;
    assert(Single::zero().value() == 0) by {
        assert(magnitude_units(0) == 0);
    }
    lemma_order_is_by_value(Single::zero(), Single::one());
    lemma_blend_is_the_mean(src, dst, Single::one());
    lemma_blend_is_the_mean(src, dst, Single::zero());
    let a = blended(src, dst, Single::one()) as int;
    let b = blended(src, dst, Single::zero()) as int;
    assert(dst * (w - w) == 0);
    assert(a == src) by (nonlinear_arith)
        requires
            (a * w - src * w) * 1000 <= 501 * w,
            (src * w - a * w) * 1000 <= 501 * w,
            w > 0,
    ;
    assert(src * 0 == 0);
    assert(b == dst) by (nonlinear_arith)
        requires
            (b * w - dst * w) * 1000 <= 501 * w,
            (dst * w - b * w) * 1000 <= 501 * w,
            w > 0,
    ;
}

/// A point of whole numbers, in halves.
pub open spec fn is_half_point(p: Point, x: int, y: int) -> bool {
    &&& is_ratio(p.x, x, 1)
    &&& is_ratio(p.y, y, 1)
    &&& -1000 <= x <= 1000
    &&& -1000 <= y <= 1000
}

/// Twice the signed area of a triangle of whole numbers.
pub open spec fn whole_edge(ax: int, ay: int, bx: int, by: int, cx: int, cy: int) -> int {
    (cx - ax) * (by - ay) - (cy - ay) * (bx - ax)
}

/// The area of a triangle whose corners are small whole numbers of halves: exact, the
/// same from whichever corner it is counted, and of the other sign the other way round.
pub proof fn lemma_edge_exact(
    a: Point,
    ax: int,
    ay: int,
    b: Point,
    bx: int,
    by: int,
    c: Point,
    cx: int,
    cy: int,
)
    requires
        is_half_point(a, ax, ay),
        is_half_point(b, bx, by),
        is_half_point(c, cx, cy),
    ensures
        is_ratio(edge(a, b, c), whole_edge(ax, ay, bx, by, cx, cy), 2),
        edge(a, b, c).same(edge(b, c, a)),
        edge(a, b, c).value() == -edge(b, a, c).value(),
        edge(a, b, a).magnitude() == 0,
        edge(a, b, b).magnitude() == 0,
{
    lemma_one_edge(a, ax, ay, b, bx, by, c, cx, cy);
    lemma_one_edge(b, bx, by, c, cx, cy, a, ax, ay);
    lemma_one_edge(b, bx, by, a, ax, ay, c, cx, cy);
    lemma_one_edge(a, ax, ay, b, bx, by, a, ax, ay);
    lemma_one_edge(a, ax, ay, b, bx, by, b, bx, by);
    let n = whole_edge(ax, ay, bx, by, cx, cy);
    lemma_edge_turns(ax, ay, bx, by, cx, cy);
    lemma_ratio_order(edge(a, b, c), n, edge(b, c, a), n, 2);
    let w = pow2(147) as int;
    assert((-n) * w == -(n * w)) by (nonlinear_arith);
    assert(whole_edge(ax, ay, bx, by, ax, ay) == 0) by (nonlinear_arith);
    assert(whole_edge(ax, ay, bx, by, bx, by) == 0) by (nonlinear_arith);
    assert(0 * w == 0);
    lemma_nearest_self(edge(a, b, a));
    lemma_nearest_self(edge(a, b, b));
}

proof fn lemma_edge_turns(ax: int, ay: int, bx: int, by: int, cx: int, cy: int)
    ensures
        whole_edge(ax, ay, bx, by, cx, cy) == whole_edge(bx, by, cx, cy, ax, ay),
        whole_edge(bx, by, ax, ay, cx, cy) == -whole_edge(ax, ay, bx, by, cx, cy),
{
    assert((cx - ax) * (by - ay) == cx * by - cx * ay - ax * by + ax * ay) by (nonlinear_arith);
    assert((cy - ay) * (bx - ax) == cy * bx - cy * ax - ay * bx + ay * ax) by (nonlinear_arith);
    assert((ax - bx) * (cy - by) == ax * cy - ax * by - bx * cy + bx * by) by (nonlinear_arith);
    assert((ay - by) * (cx - bx) == ay * cx - ay * bx - by * cx + by * bx) by (nonlinear_arith);
    assert((cx - bx) * (ay - by) == cx * ay - cx * by - bx * ay + bx * by) by (nonlinear_arith);
    assert((cy - by) * (ax - bx) == cy * ax - cy * bx - by * ax + by * bx) by (nonlinear_arith);
    assert(cx * by == by * cx && cy * bx == bx * cy && cy * ax == ax * cy && ay * cx == cx * ay && ay
        * bx == bx * ay && ax * by == by * ax && ay * ax == ax * ay && by * bx == bx * by)
        by (nonlinear_arith);
}

proof fn lemma_one_edge(
    a: Point,
    ax: int,
    ay: int,
    b: Point,
    bx: int,
    by: int,
    c: Point,
    cx: int,
    cy: int,
)
    requires
        is_half_point(a, ax, ay),
        is_half_point(b, bx, by),
        is_half_point(c, cx, cy),
    ensures
        is_ratio(edge(a, b, c), whole_edge(ax, ay, bx, by, cx, cy), 2),
{
    lemma_ratio_minus(c.x, cx, a.x, ax, 1);
    lemma_ratio_minus(b.y, by, a.y, ay, 1);
    lemma_ratio_minus(c.y, cy, a.y, ay, 1);
    lemma_ratio_minus(b.x, bx, a.x, ax, 1);
    let p = (cx - ax) * (by - ay);
    let q = (cy - ay) * (bx - ax);
    assert(-4000000 <= p <= 4000000 && -4000000 <= q <= 4000000) by (nonlinear_arith)
        requires
            p == (cx - ax) * (by - ay),
            q == (cy - ay) * (bx - ax),
            -2000 <= cx - ax <= 2000,
            -2000 <= by - ay <= 2000,
            -2000 <= cy - ay <= 2000,
            -2000 <= bx - ax <= 2000,
    ;
    lemma_ratio_times(c.x.minus(a.x), cx - ax, 1, b.y.minus(a.y), by - ay, 1);
    lemma_ratio_times(c.y.minus(a.y), cy - ay, 1, b.x.minus(a.x), bx - ax, 1);
    lemma_ratio_minus(
        c.x.minus(a.x).times(b.y.minus(a.y)),
        p,
        c.y.minus(a.y).times(b.x.minus(a.x)),
        q,
        2,
    );
}

/// The three parts that a point makes of a triangle are together the triangle: the shares
/// of its corners, before they are divided by the area, add up to it.
pub proof fn lemma_shares_add_up(
    a: Point,
    ax: int,
    ay: int,
    b: Point,
    bx: int,
    by: int,
    c: Point,
    cx: int,
    cy: int,
    p: Point,
    px: int,
    py: int,
)
    requires
        is_half_point(a, ax, ay),
        is_half_point(b, bx, by),
        is_half_point(c, cx, cy),
        is_half_point(p, px, py),
    ensures
        edge(b, c, p).value() + edge(c, a, p).value() + edge(a, b, p).value() == edge(
            a,
            b,
            c,
        ).value(),
{
    lemma_one_edge(b, bx, by, c, cx, cy, p, px, py);
    lemma_one_edge(c, cx, cy, a, ax, ay, p, px, py);
    lemma_one_edge(a, ax, ay, b, bx, by, p, px, py);
    lemma_one_edge(a, ax, ay, b, bx, by, c, cx, cy);
    let i = whole_edge(bx, by, cx, cy, px, py);
    let j = whole_edge(cx, cy, ax, ay, px, py);
    let k = whole_edge(ax, ay, bx, by, px, py);
    let n = whole_edge(ax, ay, bx, by, cx, cy);
    assert((px - bx) * (cy - by) == px * cy - px * by - bx * cy + bx * by) by (nonlinear_arith);
    assert((py - by) * (cx - bx) == py * cx - py * bx - by * cx + by * bx) by (nonlinear_arith);
    assert((px - cx) * (ay - cy) == px * ay - px * cy - cx * ay + cx * cy) by (nonlinear_arith);
    assert((py - cy) * (ax - cx) == py * ax - py * cx - cy * ax + cy * cx) by (nonlinear_arith);
    assert((px - ax) * (by - ay) == px * by - px * ay - ax * by + ax * ay) by (nonlinear_arith);
    assert((py - ay) * (bx - ax) == py * bx - py * ax - ay * bx + ay * ax) by (nonlinear_arith);
    assert((cx - ax) * (by - ay) == cx * by - cx * ay - ax * by + ax * ay) by (nonlinear_arith);
    assert((cy - ay) * (bx - ax) == cy * bx - cy * ax - ay * bx + ay * ax) by (nonlinear_arith);
    assert(cx * by == by * cx && cy * bx == bx * cy && cy * ax == ax * cy && ay * cx == cx * ay && ay
        * bx == bx * ay && ax * by == by * ax && ay * ax == ax * ay && by * bx == bx * by && cx * cy
        == cy * cx) by (nonlinear_arith);
    assert(i + j + k == n);
    let w = pow2(147) as int;
    assert(i * w + j * w + k * w == n * w) by (nonlinear_arith)
        requires
            i + j + k == n,
    ;
}

/// A mean that gives all to one of three values is that value.
pub proof fn lemma_mean_of_one(a: Single, b: Single, c: Single)
    requires
        a.is_finite(),
        b.is_finite(),
        c.is_finite(),
    ensures
        mixed((Single::one(), Single::zero(), Single::zero()), a, b, c).same(a),
        mixed((Single::zero(), Single::one(), Single::zero()), a, b, c).same(b),
        mixed((Single::zero(), Single::zero(), Single::one()), a, b, c).same(c),
{
    let zero = Single::zero();
    lemma_times_one(a);
    lemma_times_one(b);
    lemma_times_one(c);
    lemma_times_a_zero(a, zero);
    lemma_times_a_zero(b, zero);
    lemma_times_a_zero(c, zero);
    lemma_plus_a_zero(a, b.times(zero));
    lemma_plus_a_zero(a.plus(b.times(zero)), c.times(zero));
    lemma_plus_commutes(a.times(zero), b);
    lemma_plus_a_zero(b, a.times(zero));
    lemma_plus_a_zero(a.times(zero).plus(b), c.times(zero));
    lemma_plus_a_zero(a.times(zero), b.times(zero));
    lemma_plus_commutes(a.times(zero).plus(b.times(zero)), c);
    lemma_plus_a_zero(c, a.times(zero).plus(b.times(zero)));
}

/// A place in a picture is no pixel before its first and none behind its last: the start
/// of a texture shows the first pixel of a row, its end the last one.
pub proof fn lemma_texel_ends(n: u32)
    requires
        0 < n <= 0x100_0000,
    ensures
        texel(Single::zero(), n) == 0,
        texel(Single::one(), n) == n - 1,
{
    lemma_one();
    lemma_pow2_pos(149);
    lemma_ratio_constants();
    let w = pow2(149) as int;
    lemma_whole_is_exact(n as i64);
    let x = Single::spec_from_i64(n as i64);
    let one = Single::one();
    let zero = Single::zero();
    assert(pow2(149) == pow2((149 - 0) as nat));
    assert(is_ratio(x, n as int, 0));
    lemma_ratio_minus(x, n as int, one, 1, 0);
    let last = last_place(n);
    lemma_ratio_order(zero, 0, one, 1, 0);
    lemma_ratio_order(one, 1, one, 1, 0);
    // The first place.
    lemma_times_a_zero(last, zero);
    let first = zero.times(last);
    assert(magnitude_units(0) == 0);
    assert(first.units() == 0);
    lemma_fundamental_div_mod_converse(w, 2 * w, 0, w);
    assert(first.nearest_whole() == 0);
    // The last place.
    lemma_times_one(last);
    lemma_times_commutes(one, last);
    let m = n - 1;
    lemma_ratio_order(zero, 0, last, m, 0);
    lemma_nearest_self(last);
    assert(m * w >= 0) by (nonlinear_arith)
        requires
            m >= 0,
            w > 0,
    ;
    assert(last.units() == m * w);
    assert(2 * (m * w) + w == (2 * w) * m + w) by (nonlinear_arith);
    lemma_fundamental_div_mod_converse(2 * (m * w) + w, 2 * w, m as int, w);
    assert(last.nearest_whole() == m);
}

/// Bounds are shown from the first place of a screen to the last.
pub proof fn lemma_screen_ends(bounds: EmoteSceneBounds, width: u32, height: u32)
    requires
        0 < width <= 0x100_0000,
        0 < height <= 0x100_0000,
        bounds.min_x.is_finite(),
        bounds.max_x.is_finite(),
        bounds.min_y.is_finite(),
        bounds.max_y.is_finite(),
        bounds.width().is_finite(),
        bounds.height().is_finite(),
        Single::epsilon().lt(bounds.width()),
        Single::epsilon().lt(bounds.height()),
    ensures
        ({
            let p = on_screen(Point { x: bounds.min_x, y: bounds.min_y }, bounds, width, height);
            p.x.magnitude() == 0 && p.y.magnitude() == 0
        }),
        ({
            let p = on_screen(Point { x: bounds.max_x, y: bounds.max_y }, bounds, width, height);
            &&& p.x.value() == (width - 1) * Single::one().value()
            &&& p.y.value() == (height - 1) * Single::one().value()
        }),
{
    lemma_screen_axis(bounds.min_x, bounds.max_x, width);
    lemma_screen_axis(bounds.min_y, bounds.max_y, height);
}

proof fn lemma_screen_axis(low: Single, high: Single, n: u32)
    requires
        0 < n <= 0x100_0000,
        low.is_finite(),
        high.is_finite(),
        high.minus(low).is_finite(),
        Single::epsilon().lt(high.minus(low)),
    ensures
        low.minus(low).over(high.minus(low).max(Single::epsilon())).times(
            last_place(n),
        ).magnitude() == 0,
        high.minus(low).over(high.minus(low).max(Single::epsilon())).times(last_place(n)).value()
            == (n - 1) * Single::one().value(),
{
    lemma_ratio_constants();
    lemma_one();
    let span = high.minus(low);
    assert(span.max(Single::epsilon()) == span);
    lemma_minus_sign(low, high);
    assert(Single::zero().lt(span));
    lemma_order_is_by_value(low, high);
    lemma_order_is_by_value(low, low);
    lemma_order_is_by_value(high, high);
    lemma_gone(low, high, low, low);
    lemma_gone(low, high, high, high);
    lemma_whole_is_exact(n as i64);
    let x = Single::spec_from_i64(n as i64);
    assert(is_ratio(x, n as int, 0));
    lemma_ratio_minus(x, n as int, Single::one(), 1, 0);
    let last = last_place(n);
    let none = low.minus(low).over(span);
    let all = high.minus(low).over(span);
    lemma_times_a_zero(last, none);
    lemma_times_one(last);
    lemma_times_commutes(Single::one(), last);
}

/// A pixel that is drawn leaves all others as they are, and the picture as large as it is.
pub proof fn lemma_paint_touches_one_pixel(
    target: Seq<u8>,
    width: u32,
    t: ScreenTriangle,
    texture: Pixels,
    x: u32,
    y: u32,
    i: int,
)
    requires
        0 <= pixel_at(width, x as nat, y as nat),
        pixel_at(width, x as nat, y as nat) + 4 <= target.len(),
        0 <= i < target.len(),
        i < pixel_at(width, x as nat, y as nat) || i >= pixel_at(width, x as nat, y as nat) + 4,
    ensures
        painted(target, width, t, texture, x, y)[i] == target[i],
        painted(target, width, t, texture, x, y).len() == target.len(),
{
}

/// Whether a texture is of one colour.
pub open spec fn is_plain(texture: Pixels, color: (u8, u8, u8, u8)) -> bool {
    &&& texture.width > 0
    &&& texture.height > 0
    &&& texture.wf()
    &&& forall|x: nat, y: nat|
        x < texture.width && y < texture.height ==> {
            let at = #[trigger] pixel_at(texture.width, x, y);
            &&& texture.rgba[at] == color.0
            &&& texture.rgba[at + 1] == color.1
            &&& texture.rgba[at + 2] == color.2
            &&& texture.rgba[at + 3] == color.3
        }
}

/// A triangle of one colour lays that colour over the pixels that it covers, channel by
/// channel, and leaves those outside. What it lays over a pixel lies between the colour
/// and what was there, and the pixel is opaque then.
pub proof fn lemma_paint_lays_over(
    target: Seq<u8>,
    width: u32,
    t: ScreenTriangle,
    texture: Pixels,
    color: (u8, u8, u8, u8),
    x: u32,
    y: u32,
)
    requires
        is_plain(texture, color),
        0 <= pixel_at(width, x as nat, y as nat),
        pixel_at(width, x as nat, y as nat) + 4 <= target.len(),
        shares(t, x, y) matches Some(w) ==> is_share(
            share_of(color.3).times(
                mixed(w, t.corners.0.alpha, t.corners.1.alpha, t.corners.2.alpha),
            ),
        ),
    ensures
        ({
            let after = painted(target, width, t, texture, x, y);
            let at = pixel_at(width, x as nat, y as nat);
            match shares(t, x, y) {
                None => after == target,
                Some(w) => {
                    let alpha = share_of(color.3).times(
                        mixed(w, t.corners.0.alpha, t.corners.1.alpha, t.corners.2.alpha),
                    );
                    &&& lies_over(after[at], color.0, target[at])
                    &&& lies_over(after[at + 1], color.1, target[at + 1])
                    &&& lies_over(after[at + 2], color.2, target[at + 2])
                    &&& alpha == Single::one() ==> after[at] == color.0 && after[at + 1] == color.1
                        && after[at + 2] == color.2
                    &&& alpha.le(Single::zero()) ==> after == target
                    &&& Single::zero().lt(alpha) ==> after[at + 3] == 255
                },
            }
        }),
{
    if let Some(w) = shares(t, x, y) {
        let (a, b, c) = t.corners;
        let tx = texel(mixed(w, a.texcoord.x, b.texcoord.x, c.texcoord.x), texture.width);
        let ty = texel(mixed(w, a.texcoord.y, b.texcoord.y, c.texcoord.y), texture.height);
        assert(tx < texture.width && ty < texture.height);
        let src = pixel_at(texture.width, tx, ty);
        assert(texture.rgba[src] == color.0);
        let at = pixel_at(width, x as nat, y as nat);
        let alpha = share_of(color.3).times(mixed(w, a.alpha, b.alpha, c.alpha));
        lemma_blend_is_the_mean(color.0, target[at], alpha);
        lemma_blend_is_the_mean(color.1, target[at + 1], alpha);
        lemma_blend_is_the_mean(color.2, target[at + 2], alpha);
        lemma_blend_ends(color.0, target[at]);
        lemma_blend_ends(color.1, target[at + 1]);
        lemma_blend_ends(color.2, target[at + 2]);
        lemma_ratio_constants();
        lemma_ratio_order(Single::zero(), 0, Single::one(), 1, 0);
    }
}

/// Whether a channel lies between one that was laid over and the one below.
pub open spec fn lies_over(after: u8, color: u8, below: u8) -> bool {
    (color <= after <= below) || (below <= after <= color)
}

/// A place counts as inside a triangle where it is on the side of the third corner, seen
/// from each of its sides.
pub proof fn lemma_inside_is_inside(t: ScreenTriangle, x: u32, y: u32)
    requires
        t.area.is_finite(),
        t.area.magnitude() > 0,
        ({
            let p = Point {
                x: Single::spec_from_i64(x as i64).plus(Single::half()),
                y: Single::spec_from_i64(y as i64).plus(Single::half()),
            };
            &&& on_side(edge(t.b, t.c, p), t.area)
            &&& on_side(edge(t.c, t.a, p), t.area)
            &&& on_side(edge(t.a, t.b, p), t.area)
        }),
    ensures
        shares(t, x, y) is Some,
{
    let p = Point {
        x: Single::spec_from_i64(x as i64).plus(Single::half()),
        y: Single::spec_from_i64(y as i64).plus(Single::half()),
    };
    lemma_quotient_side(edge(t.b, t.c, p), t.area);
    lemma_quotient_side(edge(t.c, t.a, p), t.area);
    lemma_quotient_side(edge(t.a, t.b, p), t.area);
}

/// Whether a finite number is on the side of zero that another is on, or is zero.
pub open spec fn on_side(a: Single, b: Single) -> bool {
    a.is_finite() && (a.magnitude() == 0 || a.is_negative() == b.is_negative())
}

proof fn lemma_quotient_side(a: Single, b: Single)
    requires
        b.is_finite(),
        b.magnitude() > 0,
        on_side(a, b),
    ensures
        !a.over(b).lt(tolerance()),
{
    reveal(Single::spec_over);
    assert(magnitude_units(0) == 0);
    lemma_units_increase(0, b.magnitude() as nat);
    lemma_round_zero(b.units());
    lemma_pow2_pos(149);
    assert(0 * pow2(149) == 0);
}

/// Sprites that are not seen, that only add to masks, or whose texture is not there leave
/// a picture as it is.
pub proof fn lemma_hidden_sprites_leave_the_picture(
    scene: Scene,
    stands: Seq<Stand>,
    textures: Seq<Loaded>,
    width: u32,
    height: u32,
    n: nat,
)
    requires
        0 < n <= scene.sprites.len(),
        !scene.sprites[n - 1].visible || scene.sprites[n - 1].opacity.le(Single::zero())
            || scene.sprites[n - 1].info.pass is MaskGeneration || forall|i: int|
            0 <= i < textures.len() ==> (#[trigger] textures[i]).resource_index
                != scene.sprites[n - 1].texture_resource_index,
    ensures
        with_drawn(scene, stands, textures, width, height, n) == with_drawn(
            scene,
            stands,
            textures,
            width,
            height,
            (n - 1) as nat,
        ),
{
}

/// No column or row between the outermost corners of a triangle is left out, and none
/// outside the picture is drawn.
pub proof fn lemma_no_place_is_missed(a: Single, b: Single, c: Single, n: u32, x: u32)
    requires
        a.is_finite(),
        b.is_finite(),
        c.is_finite(),
        0 < n <= 0x100_0000,
        x < n,
        a.min(b).min(c).value() <= x * pow2(149),
        x * pow2(149) <= a.max(b).max(c).value(),
    ensures
        first_place(a, b, c) <= x <= final_place(a, b, c, n) < n,
{
    lemma_pow2_pos(149);
    lemma_ratio_constants();
    let w = pow2(149) as int;
    let low = a.min(b).min(c);
    let high = a.max(b).max(c);
    assert(magnitude_units(0) == 0);
    lemma_nearest_self(low);
    lemma_nearest_self(high);
    assert(x * w >= 0) by (nonlinear_arith)
        requires
            x >= 0,
            w > 0,
    ;
    if !low.is_negative() {
        assert(low.units() as int / w <= x) by {
            lemma_div_is_ordered(low.units() as int, x * w, w);
            lemma_div_multiples_vanish(x as int, w);
            assert(x * w == w * x) by (nonlinear_arith);
        }
    }
    assert(first_place(a, b, c) <= x);
    // The last place.
    lemma_whole_is_exact(n as i64);
    let whole = Single::spec_from_i64(n as i64);
    assert(is_ratio(whole, n as int, 0));
    lemma_ratio_minus(whole, n as int, Single::one(), 1, 0);
    let last = last_place(n);
    lemma_nearest_self(last);
    let m = n - 1;
    assert(m * w == w * m) by (nonlinear_arith);
    lemma_div_multiples_vanish(m, w);
    assert(last.value() == m * w);
    assert(m * w >= 0) by (nonlinear_arith)
        requires
            m >= 0,
            w > 0,
    ;
    assert(last.units() == last.value());
    assert(last.whole_part(u32::MAX as nat) == m) by {
        if last.is_negative() {
            assert(m * w == 0);
            assert(m == 0) by (nonlinear_arith)
                requires
                    m * w == 0,
                    w > 0,
            ;
        }
    }
    if high.is_negative() {
        assert(high.value() == 0);
        assert(x == 0) by (nonlinear_arith)
            requires
                x * w <= 0,
                x >= 0,
                w > 0,
        ;
    } else {
        assert(x <= high.units() as int / w) by {
            lemma_div_is_ordered(x * w, high.units() as int, w);
            lemma_div_multiples_vanish(x as int, w);
            assert(x * w == w * x) by (nonlinear_arith);
        }
    }
}

/// What of a finite area other than zero is the whole of it, and what is nothing.
proof fn lemma_whole_or_nothing(x: Single, area: Single)
    requires
        x.is_finite(),
        area.is_finite(),
        area.value() != 0,
    ensures
        x.value() == area.value() ==> x.over(area) == Single::one(),
        x.value() == 0 ==> x.over(area).magnitude() == 0,
        x.value() == area.value() || x.value() == 0 ==> !x.over(area).lt(tolerance()),
{
    reveal(Single::spec_over);
    assert(magnitude_units(0) == 0);
    lemma_pow2_pos(149);
    lemma_one();
    lemma_round_zero(area.units());
    let w = pow2(149);
    let u = area.units();
    assert(u > 0);
    if x.value() == area.value() {
        lemma_order_is_by_value(x, area);
        assert(x.rank() == area.rank());
        assert(x.units() == u);
        lemma_round_units_scale(w, 1, u);
        assert(u * w == w * u) by (nonlinear_arith);
        assert(1 * u == u);
        lemma_nearest_self(Single::one());
        lemma_ratio_constants();
    }
    if x.value() == 0 {
        assert(x.units() == 0);
        assert(0 * w == 0) by (nonlinear_arith);
    }
}

/// At a corner of a triangle that corner alone counts, and each corner counts at its own
/// place.
pub proof fn lemma_corners_count_at_their_place(
    t: ScreenTriangle,
    ax: int,
    ay: int,
    bx: int,
    by: int,
    cx: int,
    cy: int,
    x: u32,
    y: u32,
)
    requires
        is_half_point(t.a, ax, ay),
        is_half_point(t.b, bx, by),
        is_half_point(t.c, cx, cy),
        t.area == edge(t.a, t.b, t.c),
        whole_edge(ax, ay, bx, by, cx, cy) != 0,
        2 * x + 1 <= 1000,
        2 * y + 1 <= 1000,
    ensures
        ({
            let r = shares(t, x, y);
            let w = r->0;
            let none = |s: Single| s.magnitude() == 0;
            &&& ax == 2 * x + 1 && ay == 2 * y + 1 ==> r is Some && w.0 == Single::one() && none(
                w.1,
            ) && none(w.2)
            &&& bx == 2 * x + 1 && by == 2 * y + 1 ==> r is Some && w.1 == Single::one() && none(
                w.0,
            ) && none(w.2)
            &&& cx == 2 * x + 1 && cy == 2 * y + 1 ==> r is Some && w.2 == Single::one() && none(
                w.0,
            ) && none(w.1)
        }),
{
    lemma2_to64();
    lemma_ratio_constants();
    lemma_pow2_pos(147);
    let px = 2 * x + 1;
    let py = 2 * y + 1;
    lemma_whole_is_exact(x as i64);
    lemma_whole_is_exact(y as i64);
    let sx = Single::spec_from_i64(x as i64);
    let sy = Single::spec_from_i64(y as i64);
    assert(is_ratio(sx, x as int, 0));
    assert(is_ratio(sy, y as int, 0));
    lemma_finer(sx, x as int, 0, 1);
    lemma_finer(sy, y as int, 0, 1);
    lemma_ratio_plus(sx, 2 * x, Single::half(), 1, 1);
    lemma_ratio_plus(sy, 2 * y, Single::half(), 1, 1);
    let p = Point { x: sx.plus(Single::half()), y: sy.plus(Single::half()) };
    assert(is_half_point(p, px, py));
    lemma_one_edge(t.a, ax, ay, t.b, bx, by, t.c, cx, cy);
    lemma_one_edge(t.b, bx, by, t.c, cx, cy, p, px, py);
    lemma_one_edge(t.c, cx, cy, t.a, ax, ay, p, px, py);
    lemma_one_edge(t.a, ax, ay, t.b, bx, by, p, px, py);
    lemma_edge_turns(ax, ay, bx, by, cx, cy);
    lemma_edge_turns(bx, by, cx, cy, ax, ay);
    let n = whole_edge(ax, ay, bx, by, cx, cy);
    let v = pow2(147) as int;
    assert(n * v != 0 && 0 * v == 0) by (nonlinear_arith)
        requires
            n != 0,
            v > 0,
    ;
    lemma_flat_edge(bx, by, cx, cy);
    lemma_flat_edge(cx, cy, ax, ay);
    lemma_flat_edge(ax, ay, bx, by);
    lemma_whole_or_nothing(edge(t.b, t.c, p), t.area);
    lemma_whole_or_nothing(edge(t.c, t.a, p), t.area);
    lemma_whole_or_nothing(edge(t.a, t.b, p), t.area);
}

/// Two points span no area.
proof fn lemma_flat_edge(ax: int, ay: int, bx: int, by: int)
    ensures
        whole_edge(ax, ay, bx, by, ax, ay) == 0,
        whole_edge(ax, ay, bx, by, bx, by) == 0,
{
    assert(0 * (by - ay) == 0 && 0 * (bx - ax) == 0) by (nonlinear_arith);
    assert((bx - ax) * (by - ay) == (by - ay) * (bx - ax)) by (nonlinear_arith);
}

/// A mean in which only the first value counts, where that is zero or one.
proof fn lemma_first_counts(w: (Single, Single, Single), a: Single, b: Single, c: Single)
    requires
        w.0 == Single::one(),
        w.1.magnitude() == 0,
        w.2.magnitude() == 0,
        a == Single::zero() || a == Single::one(),
        b.is_finite(),
        c.is_finite(),
    ensures
        mixed(w, a, b, c) == a,
{
    reveal(Single::spec_plus);
    lemma_ratio_constants();
    lemma_times_one(a);
    lemma_times_a_zero(b, w.1);
    lemma_times_a_zero(c, w.2);
    let y = b.times(w.1);
    let z = c.times(w.2);
    lemma_plus_a_zero(a, y);
    lemma_plus_a_zero(a, z);
    lemma_round_zero(1);
    assert(magnitude_units(0) == 0);
    assert(a.plus(y) == a);
    assert(a.plus(z) == a);
}

/// A pixel at the first corner of a triangle shows the texture at that corner: left or
/// right, and top or bottom, as the corner says. Where both are opaque it takes all four
/// channels over.
pub proof fn lemma_corner_shows_its_texel(
    target: Seq<u8>,
    width: u32,
    t: ScreenTriangle,
    texture: Pixels,
    ax: int,
    ay: int,
    bx: int,
    by: int,
    cx: int,
    cy: int,
    x: u32,
    y: u32,
    right: bool,
    low: bool,
)
    requires
        is_half_point(t.a, ax, ay),
        is_half_point(t.b, bx, by),
        is_half_point(t.c, cx, cy),
        t.area == edge(t.a, t.b, t.c),
        whole_edge(ax, ay, bx, by, cx, cy) != 0,
        2 * x + 1 <= 1000,
        2 * y + 1 <= 1000,
        ax == 2 * x + 1,
        ay == 2 * y + 1,
        0 < texture.width <= 0x100_0000,
        0 < texture.height <= 0x100_0000,
        pixel_at(width, x as nat, y as nat) + 4 <= target.len(),
        t.corners.0.texcoord.x == (if right {
            Single::one()
        } else {
            Single::zero()
        }),
        t.corners.0.texcoord.y == (if low {
            Single::one()
        } else {
            Single::zero()
        }),
        t.corners.0.alpha == Single::one(),
        t.corners.1.texcoord.x.is_finite(),
        t.corners.1.texcoord.y.is_finite(),
        t.corners.1.alpha.is_finite(),
        t.corners.2.texcoord.x.is_finite(),
        t.corners.2.texcoord.y.is_finite(),
        t.corners.2.alpha.is_finite(),
        texture.rgba[corner_texel(texture, right, low) + 3] == 255,
    ensures
        ({
            let after = painted(target, width, t, texture, x, y);
            let at = pixel_at(width, x as nat, y as nat);
            let from = corner_texel(texture, right, low);
            &&& after[at] == texture.rgba[from]
            &&& after[at + 1] == texture.rgba[from + 1]
            &&& after[at + 2] == texture.rgba[from + 2]
            &&& after[at + 3] == 255
        }),
{
    lemma_corners_count_at_their_place(t, ax, ay, bx, by, cx, cy, x, y);
    let w = shares(t, x, y)->0;
    let (a, b, c) = t.corners;
    lemma_first_counts(w, a.texcoord.x, b.texcoord.x, c.texcoord.x);
    lemma_first_counts(w, a.texcoord.y, b.texcoord.y, c.texcoord.y);
    lemma_first_counts(w, a.alpha, b.alpha, c.alpha);
    lemma_texel_ends(texture.width);
    lemma_texel_ends(texture.height);
    let at = pixel_at(width, x as nat, y as nat);
    let from = corner_texel(texture, right, low);
    assert(at >= 0) by (nonlinear_arith)
        requires
            at == (y * width + x) * 4,
            x >= 0,
            y >= 0,
            width >= 0,
    ;
    lemma_full_share();
    lemma_times_one(Single::one());
    lemma_blend_ends(texture.rgba[from], target[at]);
    lemma_blend_ends(texture.rgba[from + 1], target[at + 1]);
    lemma_blend_ends(texture.rgba[from + 2], target[at + 2]);
    lemma_ratio_constants();
    lemma_ratio_order(Single::one(), 1, Single::zero(), 0, 0);
}

/// Where the pixel in a corner of a texture begins.
pub open spec fn corner_texel(texture: Pixels, right: bool, low: bool) -> int {
    let x: int = if right {
        texture.width - 1
    } else {
        0
    };
    let y: int = if low {
        texture.height - 1
    } else {
        0
    };
    4 * (y * texture.width + x)
}

/// A full channel is all of its share.
proof fn lemma_full_share()
    ensures
        share_of(255) == Single::one(),
{
    lemma_whole_is_exact(255);
    lemma_pow2_pos(149);
    lemma2_to64();
    lemma_pow2_adds(16, 133);
    assert(magnitude_units(0x437f_0000) == 0xff_0000 * pow2(133)) by {
        assert(0x437f_0000nat / 0x80_0000 == 134);
        assert(0x437f_0000nat % 0x80_0000 == 0x7f_0000);
    }
    let x = Single::spec_from_i64(255);
    assert(full_channel().value() == 255 * pow2(149));
    lemma_whole_or_nothing(x, full_channel());
}

/// Pixels of a picture lie apart.
proof fn lemma_pixels_lie_apart(width: u32, x: nat, y: nat, x2: nat, y2: nat)
    requires
        x < width,
        x2 < width,
        x != x2 || y != y2,
    ensures
        pixel_at(width, x, y) + 4 <= pixel_at(width, x2, y2) || pixel_at(width, x2, y2) + 4
            <= pixel_at(width, x, y),
{
    let w = width as int;
    if y < y2 {
        assert(y * w + w <= y2 * w) by (nonlinear_arith)
            requires
                y + 1 <= y2,
                w >= 0,
        ;
    } else if y2 < y {
        assert(y2 * w + w <= y * w) by (nonlinear_arith)
            requires
                y2 + 1 <= y,
                w >= 0,
        ;
    }
}

/// Where the pixel of a place lies in a picture.
proof fn lemma_place_of_pixel(width: u32, height: u32, x: nat, y: nat)
    requires
        x < width,
        y < height,
    ensures
        0 <= pixel_at(width, x, y),
        pixel_at(width, x, y) + 4 <= 4 * (width * height),
{
    let w = width as int;
    assert(y * w >= 0 && y * w + w <= w * height) by (nonlinear_arith)
        requires
            0 <= y,
            y + 1 <= height,
            w >= 0,
    ;
}

proof fn lemma_row_paints_each(
    target: Seq<u8>,
    width: u32,
    height: u32,
    t: ScreenTriangle,
    texture: Pixels,
    row: u32,
    from: nat,
    n: nat,
    x: u32,
    y: u32,
    k: int,
)
    requires
        target.len() == 4 * (width * height),
        from + n <= width,
        row < height,
        x < width,
        y < height,
        0 <= k < 4,
    ensures
        ({
            let r = painted_row(target, width, t, texture, row, from, n);
            let at = pixel_at(width, x as nat, y as nat) + k;
            &&& r.len() == target.len()
            &&& r[at] == (if y == row && from <= x < from + n {
                painted(target, width, t, texture, x, y)[at]
            } else {
                target[at]
            })
        }),
    decreases n,
{
    if n > 0 {
        let fewer = (n - 1) as nat;
        lemma_row_paints_each(target, width, height, t, texture, row, from, fewer, x, y, 0);
        lemma_row_paints_each(target, width, height, t, texture, row, from, fewer, x, y, 1);
        lemma_row_paints_each(target, width, height, t, texture, row, from, fewer, x, y, 2);
        lemma_row_paints_each(target, width, height, t, texture, row, from, fewer, x, y, 3);
        let last = (from + n - 1) as u32;
        lemma_place_of_pixel(width, height, x as nat, y as nat);
        lemma_place_of_pixel(width, height, last as nat, row as nat);
        if x != last || y != row {
            lemma_pixels_lie_apart(width, x as nat, y as nat, last as nat, row as nat);
        }
    }
}

proof fn lemma_rows_paint_each(
    target: Seq<u8>,
    width: u32,
    height: u32,
    t: ScreenTriangle,
    texture: Pixels,
    from_x: nat,
    n: nat,
    from_y: nat,
    m: nat,
    x: u32,
    y: u32,
    k: int,
)
    requires
        target.len() == 4 * (width * height),
        from_x + n <= width,
        from_y + m <= height,
        x < width,
        y < height,
        0 <= k < 4,
    ensures
        ({
            let r = painted_rows(target, width, t, texture, from_x, n, from_y, m);
            let at = pixel_at(width, x as nat, y as nat) + k;
            &&& r.len() == target.len()
            &&& r[at] == (if from_y <= y < from_y + m && from_x <= x < from_x + n {
                painted(target, width, t, texture, x, y)[at]
            } else {
                target[at]
            })
        }),
    decreases m,
{
    if m > 0 {
        let fewer = (m - 1) as nat;
        let rest = painted_rows(target, width, t, texture, from_x, n, from_y, fewer);
        lemma_rows_paint_each(
            target,
            width,
            height,
            t,
            texture,
            from_x,
            n,
            from_y,
            fewer,
            x,
            y,
            0,
        );
        lemma_rows_paint_each(
            target,
            width,
            height,
            t,
            texture,
            from_x,
            n,
            from_y,
            fewer,
            x,
            y,
            1,
        );
        lemma_rows_paint_each(
            target,
            width,
            height,
            t,
            texture,
            from_x,
            n,
            from_y,
            fewer,
            x,
            y,
            2,
        );
        lemma_rows_paint_each(
            target,
            width,
            height,
            t,
            texture,
            from_x,
            n,
            from_y,
            fewer,
            x,
            y,
            3,
        );
        let last = (from_y + m - 1) as u32;
        lemma_row_paints_each(rest, width, height, t, texture, last, from_x, n, x, y, k);
        lemma_place_of_pixel(width, height, x as nat, y as nat);
    }
}

/// A triangle paints every pixel that it can reach once, with its own colour over what was
/// there, and no other.
pub proof fn lemma_triangle_paints_each_pixel_once(
    target: Seq<u8>,
    width: u32,
    height: u32,
    t: ScreenTriangle,
    texture: Pixels,
    x: u32,
    y: u32,
    k: int,
)
    requires
        target.len() == 4 * (width * height),
        x < width,
        y < height,
        0 <= k < 4,
        Single::epsilon().lt(t.area.abs()),
        ({
            let low = first_place(t.a.x, t.b.x, t.c.x);
            let high = first_place(t.a.y, t.b.y, t.c.y);
            low <= final_place(t.a.x, t.b.x, t.c.x, width) && high <= final_place(
                t.a.y,
                t.b.y,
                t.c.y,
                height,
            )
        }),
    ensures
        ({
            let at = pixel_at(width, x as nat, y as nat) + k;
            let r = with_triangle(target, width, height, t, texture);
            let reached = first_place(t.a.x, t.b.x, t.c.x) <= x <= final_place(
                t.a.x,
                t.b.x,
                t.c.x,
                width,
            ) && first_place(t.a.y, t.b.y, t.c.y) <= y <= final_place(
                t.a.y,
                t.b.y,
                t.c.y,
                height,
            );
            &&& r.len() == target.len()
            &&& r[at] == (if reached {
                painted(target, width, t, texture, x, y)[at]
            } else {
                target[at]
            })
        }),
{
    let x0 = first_place(t.a.x, t.b.x, t.c.x);
    let x1 = final_place(t.a.x, t.b.x, t.c.x, width);
    let y0 = first_place(t.a.y, t.b.y, t.c.y);
    let y1 = final_place(t.a.y, t.b.y, t.c.y, height);
    lemma_rows_paint_each(
        target,
        width,
        height,
        t,
        texture,
        x0,
        span(x0, x1),
        y0,
        span(y0, y1),
        x,
        y,
        k,
    );
}

} // verus!
