//! Laws of placing: turns turn, maps are applied one after the other, and bounds hold
//! what they are the bounds of.

use crate::curve_laws::lemma_times_a_zero;
use crate::dyadic::{
    is_ratio, lemma_finer, lemma_ratio_constants, lemma_ratio_minus, lemma_ratio_neg,
    lemma_ratio_order, lemma_ratio_plus, lemma_ratio_times,
};
use crate::exact::{
    lemma_order_is_by_value, lemma_plus_a_zero, lemma_plus_commutes, lemma_times_commutes,
    lemma_times_one,
};
use crate::mesh::{point_bounds, Point};
use crate::mesh_laws::lemma_point_bounds_hold;
use crate::monotone::{
    lemma_nearest_self, lemma_nearest_side, lemma_plus_ordered, lemma_plus_rank,
    lemma_times_ordered, lemma_times_rank,
};
use crate::physics::down;
use crate::place::{chained, scene_bounds, EmoteSceneBounds, EmoteTransform2D, Stand, Turn};
use crate::scene::{Sprite, TransformStep};
use crate::single::{magnitude_units, Single};
use vstd::arithmetic::power2::{lemma2_to64, lemma_pow2_pos, pow2};
use vstd::prelude::*;

verus! {

impl Point {
    /// Whether both coordinates are the same numbers.
    pub open spec fn same(self, other: Point) -> bool {
        self.x.same(other.x) && self.y.same(other.y)
    }

    /// Whether both coordinates are finite.
    pub open spec fn is_finite(self) -> bool {
        self.x.is_finite() && self.y.is_finite()
    }
}

impl EmoteTransform2D {
    /// Whether all numbers of a map are finite.
    pub open spec fn is_finite(self) -> bool {
        &&& self.m11.is_finite()
        &&& self.m12.is_finite()
        &&& self.m21.is_finite()
        &&& self.m22.is_finite()
        &&& self.tx.is_finite()
        &&& self.ty.is_finite()
    }
}

/// The other sign of a factor is the other sign of the product.
proof fn lemma_times_neg(a: Single, b: Single)
    requires
        a.is_finite(),
        b.is_finite(),
    ensures
        a.neg().times(b) == a.times(b).neg(),
        b.times(a.neg()) == b.times(a).neg(),
{
    reveal(Single::spec_times);
    assert(a.neg().magnitude() == a.magnitude());
}

/// A finite number, a zero and another zero.
proof fn lemma_only_first(a: Single, z: Single, y: Single)
    requires
        a.is_finite(),
        z.magnitude() == 0,
        y.magnitude() == 0,
    ensures
        a.plus(z).plus(y).same(a),
        z.plus(a).plus(y).same(a),
{
    lemma_plus_a_zero(a, z);
    lemma_plus_commutes(z, a);
    lemma_plus_a_zero(a.plus(z), y);
}

/// A turn takes the first axis to its cosine and sine, and the second axis, a right angle
/// ahead, to the negative sine and the cosine. It has no other part: no point is moved but
/// by the turn, and the origin stays.
pub proof fn lemma_turn_of_the_axes(turn: Turn)
    requires
        turn.cos.is_finite(),
        turn.sin.is_finite(),
    ensures
        ({
            let m = EmoteTransform2D::scale_rotation(Single::one(), Single::one(), turn);
            let one = Single::one();
            let zero = Single::zero();
            &&& m.apply(Point { x: one, y: zero }).same(Point { x: turn.cos, y: turn.sin })
            &&& m.apply(Point { x: zero, y: one }).same(Point { x: turn.sin.neg(), y: turn.cos })
            &&& m.apply(Point { x: zero, y: zero }).same(Point { x: zero, y: zero })
        }),
{
    let one = Single::one();
    let zero = Single::zero();
    lemma_ratio_constants();
    lemma_times_one(turn.cos);
    lemma_times_one(turn.sin);
    lemma_times_one(turn.sin.neg());
    assert(turn.sin.neg().magnitude() == turn.sin.magnitude());
    lemma_times_a_zero(turn.cos, zero);
    lemma_times_a_zero(turn.sin, zero);
    lemma_times_a_zero(turn.sin.neg(), zero);
    lemma_only_first(turn.cos, turn.sin.neg().times(zero), zero);
    lemma_only_first(turn.sin, turn.cos.times(zero), zero);
    lemma_only_first(turn.sin.neg(), turn.cos.times(zero), zero);
    lemma_only_first(turn.cos, turn.sin.times(zero), zero);
    lemma_only_first(turn.cos.times(zero), turn.sin.neg().times(zero), zero);
    lemma_only_first(turn.sin.times(zero), turn.cos.times(zero), zero);
}

/// Where both scales are one number, the images of the axes stand at a right angle to
/// each other and are of one length: a turn and a scaling mirror nothing.
pub proof fn lemma_turn_keeps_angles(scale: Single, turn: Turn)
    requires
        turn.cos.is_finite(),
        turn.sin.is_finite(),
        turn.cos.times(scale.finite_or(Single::one())).is_finite(),
        turn.sin.times(scale.finite_or(Single::one())).is_finite(),
    ensures
        ({
            let m = EmoteTransform2D::scale_rotation(scale, scale, turn);
            &&& m.m11.value() * m.m12.value() + m.m21.value() * m.m22.value() == 0
            &&& m.m11.value() == m.m22.value()
            &&& m.m21.value() == -m.m12.value()
            &&& m.m11.value() * m.m22.value() - m.m12.value() * m.m21.value() >= 0
        }),
{
    let s = scale.finite_or(Single::one());
    lemma_ratio_constants();
    lemma_times_neg(turn.sin, s);
    let a = turn.cos.times(s);
    let b = turn.sin.times(s);
    assert(b.neg().magnitude() == b.magnitude());
    assert(magnitude_units(0) == 0);
    assert(b.neg().value() == -b.value());
    assert(a.value() * (-b.value()) + b.value() * a.value() == 0) by (nonlinear_arith);
    assert(a.value() * a.value() - (-b.value()) * b.value() >= 0) by (nonlinear_arith);
}

/// Positive scales mirror nothing; two negative ones neither, and one of each does.
pub proof fn lemma_turn_mirrors_by_its_scales(scale_x: Single, scale_y: Single, turn: Turn)
    requires
        turn.cos.is_finite(),
        turn.sin.is_finite(),
        scale_x.is_finite(),
        scale_y.is_finite(),
        turn.cos.times(scale_x).is_finite(),
        turn.cos.times(scale_y).is_finite(),
        turn.sin.times(scale_x).is_finite(),
        turn.sin.times(scale_y).is_finite(),
        Single::zero().le(scale_x),
    ensures
        ({
            let m = EmoteTransform2D::scale_rotation(scale_x, scale_y, turn);
            let turned = m.m11.value() * m.m22.value() - m.m12.value() * m.m21.value();
            &&& Single::zero().le(scale_y) ==> turned >= 0
            &&& scale_y.le(Single::zero()) ==> turned <= 0
        }),
{
    let zero = Single::zero();
    lemma_ratio_constants();
    let a = turn.cos.times(scale_x);
    let b = turn.cos.times(scale_y);
    let c = turn.sin.times(scale_x);
    let d = turn.sin.times(scale_y);
    lemma_times_neg(turn.sin, scale_y);
    assert(d.neg().magnitude() == d.magnitude());
    assert(magnitude_units(0) == 0);
    assert(d.neg().value() == -d.value());
    lemma_sides(turn.cos, scale_x);
    lemma_sides(turn.cos, scale_y);
    lemma_sides(turn.sin, scale_x);
    lemma_sides(turn.sin, scale_y);
    lemma_order_is_by_value(zero, scale_x);
    lemma_order_is_by_value(zero, scale_y);
    lemma_order_is_by_value(scale_y, zero);
    lemma_nearest_self(zero);
    let p = a.value() * b.value();
    let q = c.value() * d.value();
    lemma_like_signs(turn.cos.value(), scale_x.value(), scale_y.value(), a.value(), b.value());
    lemma_like_signs(turn.sin.value(), scale_x.value(), scale_y.value(), c.value(), d.value());
    assert((-d.value()) * c.value() == -q) by (nonlinear_arith)
        requires
            q == c.value() * d.value(),
    ;
}

/// A product is on the side that its factors say.
proof fn lemma_sides(a: Single, b: Single)
    requires
        a.is_finite(),
        b.is_finite(),
        a.times(b).is_finite(),
    ensures
        a.value() >= 0 && b.value() >= 0 ==> a.times(b).value() >= 0,
        a.value() <= 0 && b.value() >= 0 ==> a.times(b).value() <= 0,
        a.value() >= 0 && b.value() <= 0 ==> a.times(b).value() <= 0,
        a.value() <= 0 && b.value() <= 0 ==> a.times(b).value() >= 0,
{
    lemma_times_rank(a, b);
    lemma_pow2_pos(149);
    let n = a.value() * b.value();
    lemma_nearest_side(n, pow2(149));
    assert((a.value() >= 0 && b.value() >= 0 ==> n >= 0) && (a.value() <= 0 && b.value() >= 0 ==> n
        <= 0) && (a.value() >= 0 && b.value() <= 0 ==> n <= 0) && (a.value() <= 0 && b.value() <= 0
        ==> n >= 0)) by (nonlinear_arith)
        requires
            n == a.value() * b.value(),
    ;
    lemma_nearest_self(a.times(b));
}

proof fn lemma_like_signs(t: int, x: int, y: int, a: int, b: int)
    requires
        x >= 0,
        t >= 0 ==> a >= 0,
        t <= 0 ==> a <= 0,
        t >= 0 && y >= 0 ==> b >= 0,
        t <= 0 && y >= 0 ==> b <= 0,
        t >= 0 && y <= 0 ==> b <= 0,
        t <= 0 && y <= 0 ==> b >= 0,
    ensures
        y >= 0 ==> a * b >= 0,
        y <= 0 ==> a * b <= 0,
{
    assert((a >= 0 && b >= 0 ==> a * b >= 0) && (a <= 0 && b <= 0 ==> a * b >= 0) && (a >= 0 && b
        <= 0 ==> a * b <= 0) && (a <= 0 && b >= 0 ==> a * b <= 0)) by (nonlinear_arith);
}

/// Gravity falls where the turn of its angle takes the second axis.
pub proof fn lemma_down_is_turned(turn: Turn)
    requires
        turn.cos.is_finite(),
        turn.sin.is_finite(),
    ensures
        ({
            let m = EmoteTransform2D::scale_rotation(Single::one(), Single::one(), turn);
            let axis = m.apply(Point { x: Single::zero(), y: Single::one() });
            &&& down(turn).x.same(axis.x)
            &&& down(turn).y.same(axis.y)
            &&& down(turn).z.magnitude() == 0
        }),
{
    lemma_turn_of_the_axes(turn);
}

/// A map of whole numbers.
pub struct WholeMap {
    pub m11: int,
    pub m12: int,
    pub m21: int,
    pub m22: int,
    pub tx: int,
    pub ty: int,
}

impl WholeMap {
    /// Whether all numbers are small enough to be held on the way.
    pub open spec fn is_small(self) -> bool {
        &&& -64 <= self.m11 <= 64
        &&& -64 <= self.m12 <= 64
        &&& -64 <= self.m21 <= 64
        &&& -64 <= self.m22 <= 64
        &&& -1024 <= self.tx <= 1024
        &&& -1024 <= self.ty <= 1024
    }

    /// Whether a map is this one.
    pub open spec fn is(self, m: EmoteTransform2D) -> bool {
        &&& is_ratio(m.m11, self.m11, 0)
        &&& is_ratio(m.m12, self.m12, 0)
        &&& is_ratio(m.m21, self.m21, 0)
        &&& is_ratio(m.m22, self.m22, 0)
        &&& is_ratio(m.tx, self.tx, 0)
        &&& is_ratio(m.ty, self.ty, 0)
    }

    /// Where a whole place comes to stand, its first coordinate.
    pub open spec fn image_x(self, x: int, y: int) -> int {
        self.m11 * x + self.m12 * y + self.tx
    }

    /// The other coordinate of that place.
    pub open spec fn image_y(self, x: int, y: int) -> int {
        self.m21 * x + self.m22 * y + self.ty
    }
}

proof fn lemma_row(
    a: Single,
    i: int,
    b: Single,
    j: int,
    c: Single,
    k: int,
    x: Single,
    p: int,
    y: Single,
    q: int,
)
    requires
        is_ratio(a, i, 0),
        is_ratio(b, j, 0),
        is_ratio(c, k, 0),
        is_ratio(x, p, 0),
        is_ratio(y, q, 0),
        -0x40_0000 <= i * p <= 0x40_0000,
        -0x40_0000 <= j * q <= 0x40_0000,
        -0x40_0000 <= k <= 0x40_0000,
    ensures
        is_ratio(a.times(x).plus(b.times(y)), i * p + j * q, 0),
        is_ratio(a.times(x).plus(b.times(y)).plus(c), i * p + j * q + k, 0),
{
    lemma_ratio_times(a, i, 0, x, p, 0);
    lemma_ratio_times(b, j, 0, y, q, 0);
    lemma_ratio_plus(a.times(x), i * p, b.times(y), j * q, 0);
    lemma_ratio_plus(a.times(x).plus(b.times(y)), i * p + j * q, c, k, 0);
}

proof fn lemma_bound(i: int, p: int, m: int, n: int)
    requires
        -m <= i <= m,
        -n <= p <= n,
    ensures
        -(m * n) <= i * p <= m * n,
{
    assert(-(m * n) <= i * p <= m * n) by (nonlinear_arith)
        requires
            -m <= i <= m,
            -n <= p <= n,
    ;
}

/// A map moves points as its numbers say, exactly for small whole numbers.
pub proof fn lemma_map_exact(m: EmoteTransform2D, w: WholeMap, p: Point, x: int, y: int)
    requires
        w.is(m),
        w.is_small(),
        -10000 <= x <= 10000,
        -10000 <= y <= 10000,
        is_ratio(p.x, x, 0),
        is_ratio(p.y, y, 0),
    ensures
        is_ratio(m.apply(p).x, w.image_x(x, y), 0),
        is_ratio(m.apply(p).y, w.image_y(x, y), 0),
{
    lemma_bound(w.m11, x, 64, 10000);
    lemma_bound(w.m12, y, 64, 10000);
    lemma_bound(w.m21, x, 64, 10000);
    lemma_bound(w.m22, y, 64, 10000);
    lemma_row(m.m11, w.m11, m.m12, w.m12, m.tx, w.tx, p.x, x, p.y, y);
    lemma_row(m.m21, w.m21, m.m22, w.m22, m.ty, w.ty, p.x, x, p.y, y);
}

proof fn lemma_composed(
    a: int,
    b: int,
    t: int,
    e: int,
    f: int,
    p: int,
    g: int,
    h: int,
    q: int,
    x: int,
    y: int,
)
    ensures
        (a * e + b * g) * x + (a * f + b * h) * y + (a * p + b * q + t) == a * (e * x + f * y + p)
            + b * (g * x + h * y + q) + t,
{
    assert((a * e + b * g) * x == a * (e * x) + b * (g * x)) by (nonlinear_arith);
    assert((a * f + b * h) * y == a * (f * y) + b * (h * y)) by (nonlinear_arith);
    assert(a * (e * x + f * y + p) == a * (e * x) + a * (f * y) + a * p) by (nonlinear_arith);
    assert(b * (g * x + h * y + q) == b * (g * x) + b * (h * y) + b * q) by (nonlinear_arith);
}

/// A map around another applies the other one first: exactly so for small whole numbers.
pub proof fn lemma_map_around(
    a: EmoteTransform2D,
    v: WholeMap,
    b: EmoteTransform2D,
    w: WholeMap,
    p: Point,
    x: int,
    y: int,
)
    requires
        v.is(a),
        v.is_small(),
        w.is(b),
        w.is_small(),
        -64 <= x <= 64,
        -64 <= y <= 64,
        is_ratio(p.x, x, 0),
        is_ratio(p.y, y, 0),
    ensures
        a.around(b).apply(p).same(a.apply(b.apply(p))),
        is_ratio(
            a.around(b).apply(p).x,
            v.image_x(w.image_x(x, y), w.image_y(x, y)),
            0,
        ),
        is_ratio(
            a.around(b).apply(p).y,
            v.image_y(w.image_x(x, y), w.image_y(x, y)),
            0,
        ),
{
    reveal(EmoteTransform2D::spec_around);
    lemma_bound(w.m11, x, 64, 64);
    lemma_bound(w.m12, y, 64, 64);
    lemma_bound(w.m21, x, 64, 64);
    lemma_bound(w.m22, y, 64, 64);
    lemma_map_exact(b, w, p, x, y);
    let q = b.apply(p);
    lemma_map_exact(a, v, q, w.image_x(x, y), w.image_y(x, y));
    let c = a.around(b);
    lemma_bound(v.m11, w.m11, 64, 64);
    lemma_bound(v.m12, w.m21, 64, 64);
    lemma_bound(v.m11, w.m12, 64, 64);
    lemma_bound(v.m12, w.m22, 64, 64);
    lemma_bound(v.m21, w.m11, 64, 64);
    lemma_bound(v.m22, w.m21, 64, 64);
    lemma_bound(v.m21, w.m12, 64, 64);
    lemma_bound(v.m22, w.m22, 64, 64);
    lemma_bound(v.m11, w.tx, 64, 1024);
    lemma_bound(v.m12, w.ty, 64, 1024);
    lemma_bound(v.m21, w.tx, 64, 1024);
    lemma_bound(v.m22, w.ty, 64, 1024);
    lemma_ratio_constants();
    let zero = Single::zero();
    lemma_row(a.m11, v.m11, a.m12, v.m12, zero, 0, b.m11, w.m11, b.m21, w.m21);
    lemma_row(a.m11, v.m11, a.m12, v.m12, zero, 0, b.m12, w.m12, b.m22, w.m22);
    lemma_row(a.m21, v.m21, a.m22, v.m22, zero, 0, b.m11, w.m11, b.m21, w.m21);
    lemma_row(a.m21, v.m21, a.m22, v.m22, zero, 0, b.m12, w.m12, b.m22, w.m22);
    lemma_row(a.m11, v.m11, a.m12, v.m12, a.tx, v.tx, b.tx, w.tx, b.ty, w.ty);
    lemma_row(a.m21, v.m21, a.m22, v.m22, a.ty, v.ty, b.tx, w.tx, b.ty, w.ty);
    let c11 = v.m11 * w.m11 + v.m12 * w.m21;
    let c12 = v.m11 * w.m12 + v.m12 * w.m22;
    let c21 = v.m21 * w.m11 + v.m22 * w.m21;
    let c22 = v.m21 * w.m12 + v.m22 * w.m22;
    let ctx = v.m11 * w.tx + v.m12 * w.ty + v.tx;
    let cty = v.m21 * w.tx + v.m22 * w.ty + v.ty;
    lemma_bound(c11, x, 8192, 64);
    lemma_bound(c12, y, 8192, 64);
    lemma_bound(c21, x, 8192, 64);
    lemma_bound(c22, y, 8192, 64);
    lemma_row(c.m11, c11, c.m12, c12, c.tx, ctx, p.x, x, p.y, y);
    lemma_row(c.m21, c21, c.m22, c22, c.ty, cty, p.x, x, p.y, y);
    lemma_composed(v.m11, v.m12, v.tx, w.m11, w.m12, w.tx, w.m21, w.m22, w.ty, x, y);
    lemma_composed(v.m21, v.m22, v.ty, w.m11, w.m12, w.tx, w.m21, w.m22, w.ty, x, y);
    lemma_ratio_order(
        c.apply(p).x,
        v.image_x(w.image_x(x, y), w.image_y(x, y)),
        a.apply(q).x,
        v.image_x(w.image_x(x, y), w.image_y(x, y)),
        0,
    );
    lemma_ratio_order(
        c.apply(p).y,
        v.image_y(w.image_x(x, y), w.image_y(x, y)),
        a.apply(q).y,
        v.image_y(w.image_x(x, y), w.image_y(x, y)),
        0,
    );
}

/// A chain of steps takes a point through its last step first, and from there outward:
/// exactly so for small whole numbers.
pub proof fn lemma_chain_goes_outward(
    steps: Seq<TransformStep>,
    turns: Seq<Turn>,
    v: WholeMap,
    w: WholeMap,
    p: Point,
    x: int,
    y: int,
)
    requires
        steps.len() > 0,
        turns.len() == steps.len(),
        v.is(chained(steps.drop_last(), turns.drop_last())),
        v.is_small(),
        w.is(steps.last().matrix(turns.last())),
        w.is_small(),
        -64 <= x <= 64,
        -64 <= y <= 64,
        is_ratio(p.x, x, 0),
        is_ratio(p.y, y, 0),
    ensures
        chained(steps, turns).apply(p).same(
            chained(steps.drop_last(), turns.drop_last()).apply(
                steps.last().matrix(turns.last()).apply(p),
            ),
        ),
{
    lemma_map_around(
        chained(steps.drop_last(), turns.drop_last()),
        v,
        steps.last().matrix(turns.last()),
        w,
        p,
        x,
        y,
    );
}

/// No steps leave every point where it is.
pub proof fn lemma_no_steps(p: Point)
    requires
        p.is_finite(),
    ensures
        chained(Seq::empty(), Seq::empty()).apply(p).same(p),
{
    lemma_identity(p);
}

proof fn lemma_identity(p: Point)
    requires
        p.is_finite(),
    ensures
        EmoteTransform2D::identity().apply(p).same(p),
{
    let zero = Single::zero();
    let one = Single::one();
    lemma_times_one(p.x);
    lemma_times_one(p.y);
    lemma_times_commutes(one, p.x);
    lemma_times_commutes(one, p.y);
    lemma_times_a_zero(p.x, zero);
    lemma_times_a_zero(p.y, zero);
    lemma_only_first(p.x, zero.times(p.y), zero);
    lemma_only_first(p.y, zero.times(p.x), zero);
}

/// A move moves every point by its numbers.
pub proof fn lemma_move_moves(x: Single, y: Single, p: Point, turn: Turn)
    requires
        p.is_finite(),
        x.is_finite(),
        y.is_finite(),
    ensures
        ({
            let r = (TransformStep::Translate { x, y }).matrix(turn).apply(p);
            &&& r.x.same(p.x.plus(x))
            &&& r.y.same(p.y.plus(y))
        }),
{
    reveal(TransformStep::spec_matrix);
    let zero = Single::zero();
    let one = Single::one();
    lemma_times_one(p.x);
    lemma_times_one(p.y);
    lemma_times_commutes(one, p.x);
    lemma_times_commutes(one, p.y);
    lemma_times_a_zero(p.x, zero);
    lemma_times_a_zero(p.y, zero);
    lemma_moved(p.x, zero.times(p.y), x);
    lemma_moved(p.y, zero.times(p.x), y);
}

proof fn lemma_moved(a: Single, z: Single, x: Single)
    requires
        a.is_finite(),
        x.is_finite(),
        z.magnitude() == 0,
    ensures
        a.plus(z).plus(x).same(a.plus(x)),
        z.plus(a).plus(x).same(a.plus(x)),
{
    lemma_plus_a_zero(a, z);
    lemma_plus_commutes(z, a);
    lemma_order_is_by_value(a.plus(z), a);
    lemma_plus_rank(a.plus(z), x);
    lemma_plus_rank(a, x);
}

/// A layer that is moved last stands, with its origin, where its place says.
pub proof fn lemma_layer_stands_at_its_place(
    x: Single,
    y: Single,
    scale_x: Single,
    scale_y: Single,
    rotation_degrees: Single,
    turn: Turn,
)
    requires
        x.is_finite(),
        y.is_finite(),
        turn.cos.times(scale_x.finite_or(Single::one())).is_finite(),
        turn.cos.times(scale_y.finite_or(Single::one())).is_finite(),
        turn.sin.times(scale_x.finite_or(Single::one())).is_finite(),
        turn.sin.neg().times(scale_y.finite_or(Single::one())).is_finite(),
    ensures
        (TransformStep::Layer {
            x,
            y,
            scale_x,
            scale_y,
            rotation_degrees,
            scale_first: false,
        }).matrix(turn).apply(Point { x: Single::zero(), y: Single::zero() }).same(Point { x, y }),
{
    reveal(TransformStep::spec_matrix);
    reveal(EmoteTransform2D::spec_around);
    let zero = Single::zero();
    let one = Single::one();
    let t = EmoteTransform2D::translation(x, y);
    let m = EmoteTransform2D::scale_rotation(scale_x, scale_y, turn);
    let c = t.around(m);
    lemma_ratio_constants();
    lemma_entry(one, m.m11, zero, m.m21);
    lemma_entry(one, m.m12, zero, m.m22);
    lemma_entry(zero, m.m11, one, m.m21);
    lemma_entry(zero, m.m12, one, m.m22);
    lemma_times_a_zero(one, zero);
    lemma_times_a_zero(zero, zero);
    lemma_only_last(one.times(zero), zero.times(zero), x);
    lemma_only_last(zero.times(zero), one.times(zero), y);
    lemma_times_a_zero(c.m11, zero);
    lemma_times_a_zero(c.m12, zero);
    lemma_times_a_zero(c.m21, zero);
    lemma_times_a_zero(c.m22, zero);
    lemma_only_last(c.m11.times(zero), c.m12.times(zero), c.tx);
    lemma_only_last(c.m21.times(zero), c.m22.times(zero), c.ty);
}

/// An entry of a product with a move.
proof fn lemma_entry(a: Single, x: Single, b: Single, y: Single)
    requires
        x.is_finite(),
        y.is_finite(),
        (a == Single::one() && b == Single::zero()) || (a == Single::zero() && b == Single::one()),
    ensures
        a.times(x).plus(b.times(y)).is_finite(),
        a == Single::one() ==> a.times(x).plus(b.times(y)).same(x),
        b == Single::one() ==> a.times(x).plus(b.times(y)).same(y),
{
    lemma_times_one(x);
    lemma_times_one(y);
    lemma_times_commutes(Single::one(), x);
    lemma_times_commutes(Single::one(), y);
    lemma_times_a_zero(x, Single::zero());
    lemma_times_a_zero(y, Single::zero());
    if a == Single::one() {
        lemma_plus_a_zero(x, b.times(y));
    } else {
        lemma_plus_commutes(a.times(x), y);
        lemma_plus_a_zero(y, a.times(x));
    }
}

proof fn lemma_only_last(z: Single, y: Single, a: Single)
    requires
        a.is_finite(),
        z.magnitude() == 0,
        y.magnitude() == 0,
    ensures
        z.plus(y).plus(a).same(a),
        z.plus(y).plus(a).is_finite(),
{
    lemma_plus_a_zero(z, y);
    lemma_plus_commutes(z.plus(y), a);
    lemma_plus_a_zero(a, z.plus(y));
}

/// Whether a point lies in a rectangle.
pub open spec fn holds(b: EmoteSceneBounds, p: Point) -> bool {
    b.min_x.le(p.x) && p.x.le(b.max_x) && b.min_y.le(p.y) && p.y.le(b.max_y)
}

/// Whether the edges of bounds are all numbers.
pub open spec fn no_nan(b: EmoteSceneBounds) -> bool {
    !b.min_x.is_nan() && !b.min_y.is_nan() && !b.max_x.is_nan() && !b.max_y.is_nan()
}

/// The corners of a sprite before it is moved: a half of its size to each side of its
/// center where it has no mesh.
pub open spec fn corner(sprite: Sprite, right: bool, low: bool) -> Point {
    let f = sprite.flat();
    Point {
        x: if right {
            f.max_x
        } else {
            f.min_x
        },
        y: if low {
            f.max_y
        } else {
            f.min_y
        },
    }
}

/// The rectangle of a sprite holds all of its corners, and each of its sides goes through
/// one of them.
pub proof fn lemma_bounds_hold_the_corners(sprite: Sprite, stand: Stand)
    requires
        forall|r: bool, l: bool|
            !(#[trigger] sprite.point(stand, corner(sprite, r, l))).x.is_nan() && !sprite.point(
                stand,
                corner(sprite, r, l),
            ).y.is_nan(),
    ensures
        no_nan(sprite.bounds(stand)),
        forall|r: bool, l: bool|
            holds(sprite.bounds(stand), #[trigger] sprite.point(stand, corner(sprite, r, l))),
        exists|r: bool, l: bool|
            (#[trigger] sprite.point(stand, corner(sprite, r, l))).x == sprite.bounds(stand).min_x,
        exists|r: bool, l: bool|
            (#[trigger] sprite.point(stand, corner(sprite, r, l))).x == sprite.bounds(stand).max_x,
        exists|r: bool, l: bool|
            (#[trigger] sprite.point(stand, corner(sprite, r, l))).y == sprite.bounds(stand).min_y,
        exists|r: bool, l: bool|
            (#[trigger] sprite.point(stand, corner(sprite, r, l))).y == sprite.bounds(stand).max_y,
{
    let a = sprite.point(stand, corner(sprite, false, false));
    let b = sprite.point(stand, corner(sprite, false, true));
    let c = sprite.point(stand, corner(sprite, true, false));
    let d = sprite.point(stand, corner(sprite, true, true));
    assert forall|r: bool, l: bool|
        holds(sprite.bounds(stand), #[trigger] sprite.point(stand, corner(sprite, r, l))) by {
        let p = sprite.point(stand, corner(sprite, r, l));
        assert(p == a || p == b || p == c || p == d);
    }
}

/// The bounds of a scene hold the rectangle of every sprite that is seen, and a scene
/// without any has none.
pub proof fn lemma_scene_bounds_hold_the_sprites(
    sprites: Seq<Sprite>,
    stands: Seq<Stand>,
    i: int,
    p: Point,
)
    requires
        sprites.len() == stands.len(),
        0 <= i < sprites.len(),
        sprites[i].seen(),
        forall|k: int|
            0 <= k < sprites.len() && sprites[k].seen() ==> no_nan(
                (#[trigger] sprites[k]).bounds(stands[k]),
            ),
        holds(sprites[i].bounds(stands[i]), p),
    ensures
        scene_bounds(sprites, stands) matches Some(b) && holds(b, p) && no_nan(b),
    decreases sprites.len(),
{
    let n = sprites.len() as int;
    let before = sprites.drop_last();
    let places = stands.drop_last();
    assert forall|k: int| 0 <= k < before.len() && before[k].seen() implies no_nan(
        (#[trigger] before[k]).bounds(places[k]),
    ) by {
        assert(sprites[k].seen());
    }
    if i < n - 1 {
        lemma_scene_bounds_hold_the_sprites(before, places, i, p);
    } else {
        lemma_scene_bounds_no_nan(before, places);
    }
}

proof fn lemma_scene_bounds_no_nan(sprites: Seq<Sprite>, stands: Seq<Stand>)
    requires
        sprites.len() == stands.len(),
        forall|k: int|
            0 <= k < sprites.len() && sprites[k].seen() ==> no_nan(
                (#[trigger] sprites[k]).bounds(stands[k]),
            ),
    ensures
        scene_bounds(sprites, stands) matches Some(b) ==> no_nan(b),
    decreases sprites.len(),
{
    if sprites.len() > 0 {
        let before = sprites.drop_last();
        let places = stands.drop_last();
        assert forall|k: int| 0 <= k < before.len() && before[k].seen() implies no_nan(
            (#[trigger] before[k]).bounds(places[k]),
        ) by {
            assert(sprites[k].seen());
        }
        lemma_scene_bounds_no_nan(before, places);
    }
}

/// Nothing is around nothing: a scene of which nothing is seen has no bounds.
pub proof fn lemma_scene_bounds_of_nothing(sprites: Seq<Sprite>, stands: Seq<Stand>)
    requires
        sprites.len() == stands.len(),
        forall|k: int| 0 <= k < sprites.len() ==> !(#[trigger] sprites[k]).seen(),
    ensures
        scene_bounds(sprites, stands) is None,
    decreases sprites.len(),
{
    if sprites.len() > 0 {
        assert(!sprites[sprites.len() - 1].seen());
        assert forall|k: int| 0 <= k < sprites.len() - 1 implies !(
        #[trigger] sprites.drop_last()[k]).seen() by {
            assert(!sprites[k].seen());
        }
        lemma_scene_bounds_of_nothing(sprites.drop_last(), stands.drop_last());
    }
}

/// A flat sprite reaches as far to the left of its center as to the right, and as far up
/// as down, together its width and height: exactly so for small whole numbers.
pub proof fn lemma_flat_is_centered(sprite: Sprite, x: int, y: int, w: int, h: int)
    requires
        sprite.mesh is None,
        -100000 <= x <= 100000,
        -100000 <= y <= 100000,
        -100000 <= w <= 100000,
        -100000 <= h <= 100000,
        is_ratio(sprite.center_x, x, 0),
        is_ratio(sprite.center_y, y, 0),
        is_ratio(sprite.width, w, 0),
        is_ratio(sprite.height, h, 0),
    ensures
        is_ratio(sprite.flat().min_x, 2 * x - w, 1),
        is_ratio(sprite.flat().max_x, 2 * x + w, 1),
        is_ratio(sprite.flat().min_y, 2 * y - h, 1),
        is_ratio(sprite.flat().max_y, 2 * y + h, 1),
{
    lemma2_to64();
    lemma_ratio_constants();
    let half = Single::half();
    lemma_finer(sprite.center_x, x, 0, 1);
    lemma_finer(sprite.center_y, y, 0, 1);
    lemma_ratio_times(sprite.width, w, 0, half, 1, 1);
    lemma_ratio_times(sprite.height, h, 0, half, 1, 1);
    lemma_ratio_minus(sprite.center_x, x * 2, sprite.width.times(half), w, 1);
    lemma_ratio_plus(sprite.center_x, x * 2, sprite.width.times(half), w, 1);
    lemma_ratio_minus(sprite.center_y, y * 2, sprite.height.times(half), h, 1);
    lemma_ratio_plus(sprite.center_y, y * 2, sprite.height.times(half), h, 1);
}

/// A sprite with a mesh reaches over all of its control points.
pub proof fn lemma_flat_holds_the_mesh(sprite: Sprite, i: int)
    requires
        sprite.mesh matches Some(mesh) && mesh.wf() && forall|k: int|
            0 <= k < 16 ==> (#[trigger] mesh.points[k]).is_finite(),
        0 <= i < 16,
        sprite.left().is_finite(),
        sprite.top().is_finite(),
        sprite.width.is_finite(),
        sprite.height.is_finite(),
        Single::zero().le(sprite.width),
        Single::zero().le(sprite.height),
        forall|k: int|
            0 <= k < 16 ==> (#[trigger] sprite.mesh->0.points[k]).x.times(sprite.width).is_finite()
                && sprite.mesh->0.points[k].y.times(sprite.height).is_finite(),
    ensures
        ({
            let p = sprite.mesh->0.points[i];
            holds(
                sprite.flat(),
                Point {
                    x: sprite.left().plus(p.x.times(sprite.width)),
                    y: sprite.top().plus(p.y.times(sprite.height)),
                },
            )
        }),
{
    let mesh = sprite.mesh->0;
    let p = mesh.points[i];
    lemma_point_bounds_hold(mesh.points, 16, i);
    lemma_point_bounds_met(mesh.points, 16);
    let (low, high) = point_bounds(mesh.points, 16);
    lemma_stretch(sprite.left(), low.x, p.x, sprite.width);
    lemma_stretch(sprite.left(), p.x, high.x, sprite.width);
    lemma_stretch(sprite.top(), low.y, p.y, sprite.height);
    lemma_stretch(sprite.top(), p.y, high.y, sprite.height);
}

proof fn lemma_stretch(from: Single, a: Single, b: Single, size: Single)
    requires
        from.is_finite(),
        a.is_finite(),
        b.is_finite(),
        size.is_finite(),
        a.le(b),
        Single::zero().le(size),
        a.times(size).is_finite(),
        b.times(size).is_finite(),
    ensures
        from.plus(a.times(size)).le(from.plus(b.times(size))),
{
    lemma_times_ordered(a, b, size);
    lemma_plus_ordered(a.times(size), b.times(size), from);
}

/// The bounds of points are coordinates of points.
proof fn lemma_point_bounds_met(points: Seq<Point>, n: int)
    requires
        0 < n <= points.len(),
        forall|k: int| 0 <= k < n ==> (#[trigger] points[k]).is_finite(),
    ensures
        ({
            let (low, high) = point_bounds(points, n);
            &&& exists|k: int| 0 <= k < n && (#[trigger] points[k]).x == low.x
            &&& exists|k: int| 0 <= k < n && (#[trigger] points[k]).y == low.y
            &&& exists|k: int| 0 <= k < n && (#[trigger] points[k]).x == high.x
            &&& exists|k: int| 0 <= k < n && (#[trigger] points[k]).y == high.y
        }),
    decreases n,
{
    let (low, high) = point_bounds(points, n);
    if n > 1 {
        lemma_point_bounds_met(points, n - 1);
        let (l, h) = point_bounds(points, n - 1);
        assert(low.x == l.x || low.x == points[n - 1].x);
        assert(low.y == l.y || low.y == points[n - 1].y);
        assert(high.x == h.x || high.x == points[n - 1].x);
        assert(high.y == h.y || high.y == points[n - 1].y);
    } else {
        assert(points[0].x == low.x);
    }
}

/// A scaling by whole numbers with a turn of whole numbers: every axis is stretched by its
/// own scale, and then turned.
pub proof fn lemma_scale_rotation_exact(
    scale_x: Single,
    a: int,
    scale_y: Single,
    b: int,
    turn: Turn,
    c: int,
    n: int,
)
    requires
        -8 <= a <= 8,
        -8 <= b <= 8,
        -8 <= c <= 8,
        -8 <= n <= 8,
        is_ratio(scale_x, a, 0),
        is_ratio(scale_y, b, 0),
        is_ratio(turn.cos, c, 0),
        is_ratio(turn.sin, n, 0),
    ensures
        (WholeMap { m11: c * a, m12: -(n * b), m21: n * a, m22: c * b, tx: 0, ty: 0 }).is(
            EmoteTransform2D::scale_rotation(scale_x, scale_y, turn),
        ),
{
    lemma_ratio_constants();
    lemma_bound(c, a, 8, 8);
    lemma_bound(n, b, 8, 8);
    lemma_bound(n, a, 8, 8);
    lemma_bound(c, b, 8, 8);
    lemma_ratio_times(turn.cos, c, 0, scale_x, a, 0);
    lemma_ratio_times(turn.cos, c, 0, scale_y, b, 0);
    lemma_ratio_times(turn.sin, n, 0, scale_x, a, 0);
    lemma_ratio_neg(turn.sin, n, 0);
    assert((-n) * b == -(n * b)) by (nonlinear_arith);
    lemma_ratio_times(turn.sin.neg(), -n, 0, scale_y, b, 0);
}

/// A scale that is not finite counts as one.
pub proof fn lemma_odd_scales_count_as_one(scale_x: Single, scale_y: Single, turn: Turn)
    requires
        !scale_x.is_finite(),
        !scale_y.is_finite(),
    ensures
        EmoteTransform2D::scale_rotation(scale_x, scale_y, turn) == EmoteTransform2D::scale_rotation(
            Single::one(),
            Single::one(),
            turn,
        ),
{
    lemma_ratio_constants();
}

/// The step of a layer: where it scales first, a point is moved before it is scaled and
/// turned, else behind that. Exactly so for small whole numbers.
pub proof fn lemma_layer_step_exact(
    x: Single,
    i: int,
    y: Single,
    j: int,
    scale_x: Single,
    a: int,
    scale_y: Single,
    b: int,
    rotation_degrees: Single,
    scale_first: bool,
    turn: Turn,
    c: int,
    n: int,
    p: Point,
    q: int,
    r: int,
)
    requires
        -64 <= i <= 64,
        -64 <= j <= 64,
        -8 <= a <= 8,
        -8 <= b <= 8,
        -8 <= c <= 8,
        -8 <= n <= 8,
        -64 <= q <= 64,
        -64 <= r <= 64,
        is_ratio(x, i, 0),
        is_ratio(y, j, 0),
        is_ratio(scale_x, a, 0),
        is_ratio(scale_y, b, 0),
        is_ratio(turn.cos, c, 0),
        is_ratio(turn.sin, n, 0),
        is_ratio(p.x, q, 0),
        is_ratio(p.y, r, 0),
    ensures
        ({
            let step = TransformStep::Layer {
                x,
                y,
                scale_x,
                scale_y,
                rotation_degrees,
                scale_first,
            };
            let got = step.matrix(turn).apply(p);
            &&& scale_first ==> is_ratio(got.x, (c * a) * (q + i) - (n * b) * (r + j), 0)
                && is_ratio(got.y, (n * a) * (q + i) + (c * b) * (r + j), 0)
            &&& !scale_first ==> is_ratio(got.x, (c * a) * q - (n * b) * r + i, 0) && is_ratio(
                got.y,
                (n * a) * q + (c * b) * r + j,
                0,
            )
        }),
{
    reveal(TransformStep::spec_matrix);
    lemma_ratio_constants();
    lemma_bound(c, a, 8, 8);
    lemma_bound(n, b, 8, 8);
    lemma_bound(n, a, 8, 8);
    lemma_bound(c, b, 8, 8);
    let turned = WholeMap { m11: c * a, m12: -(n * b), m21: n * a, m22: c * b, tx: 0, ty: 0 };
    let moved = WholeMap { m11: 1, m12: 0, m21: 0, m22: 1, tx: i, ty: j };
    let m = EmoteTransform2D::scale_rotation(scale_x, scale_y, turn);
    let t = EmoteTransform2D::translation(x, y);
    lemma_scale_rotation_exact(scale_x, a, scale_y, b, turn, c, n);
    assert(moved.is(t));
    assert(moved.image_x(q, r) == q + i && moved.image_y(q, r) == r + j);
    assert((-(n * b)) * (r + j) == -((n * b) * (r + j))) by (nonlinear_arith);
    assert((-(n * b)) * r == -((n * b) * r)) by (nonlinear_arith);
    if scale_first {
        lemma_map_around(m, turned, t, moved, p, q, r);
    } else {
        lemma_map_around(t, moved, m, turned, p, q, r);
        let u = turned.image_x(q, r);
        let v = turned.image_y(q, r);
        assert(moved.image_x(u, v) == u + i && moved.image_y(u, v) == v + j);
    }
}

/// A point of a sprite: its way from the center is scaled, then turned, and then taken
/// through the world. Exactly so for small whole numbers.
pub proof fn lemma_sprite_point_exact(
    sprite: Sprite,
    stand: Stand,
    p: Point,
    cx: int,
    cy: int,
    a: int,
    b: int,
    c: int,
    n: int,
    x: int,
    y: int,
    w: WholeMap,
)
    requires
        w.is_small(),
        w.is(stand.world),
        -16 <= cx <= 16,
        -16 <= cy <= 16,
        -16 <= x <= 16,
        -16 <= y <= 16,
        -8 <= a <= 8,
        -8 <= b <= 8,
        -8 <= c <= 8,
        -8 <= n <= 8,
        is_ratio(sprite.center_x, cx, 0),
        is_ratio(sprite.center_y, cy, 0),
        is_ratio(sprite.scale_x, a, 0),
        is_ratio(sprite.scale_y, b, 0),
        is_ratio(stand.turn.cos, c, 0),
        is_ratio(stand.turn.sin, n, 0),
        is_ratio(p.x, x, 0),
        is_ratio(p.y, y, 0),
    ensures
        ({
            let dx = (x - cx) * a;
            let dy = (y - cy) * b;
            let u = cx + dx * c - dy * n;
            let v = cy + dx * n + dy * c;
            &&& is_ratio(sprite.point(stand, p).x, w.image_x(u, v), 0)
            &&& is_ratio(sprite.point(stand, p).y, w.image_y(u, v), 0)
        }),
{
    lemma_ratio_constants();
    let dx = (x - cx) * a;
    let dy = (y - cy) * b;
    lemma_bound(x - cx, a, 32, 8);
    lemma_bound(y - cy, b, 32, 8);
    lemma_bound(dx, c, 256, 8);
    lemma_bound(dy, n, 256, 8);
    lemma_bound(dx, n, 256, 8);
    lemma_bound(dy, c, 256, 8);
    lemma_ratio_minus(p.x, x, sprite.center_x, cx, 0);
    lemma_ratio_minus(p.y, y, sprite.center_y, cy, 0);
    let sx = p.x.minus(sprite.center_x).times(sprite.scale_x);
    let sy = p.y.minus(sprite.center_y).times(sprite.scale_y);
    lemma_ratio_times(p.x.minus(sprite.center_x), x - cx, 0, sprite.scale_x, a, 0);
    lemma_ratio_times(p.y.minus(sprite.center_y), y - cy, 0, sprite.scale_y, b, 0);
    let turn = stand.turn;
    lemma_ratio_times(sx, dx, 0, turn.cos, c, 0);
    lemma_ratio_times(sy, dy, 0, turn.sin, n, 0);
    lemma_ratio_times(sx, dx, 0, turn.sin, n, 0);
    lemma_ratio_times(sy, dy, 0, turn.cos, c, 0);
    lemma_ratio_plus(sprite.center_x, cx, sx.times(turn.cos), dx * c, 0);
    lemma_ratio_minus(
        sprite.center_x.plus(sx.times(turn.cos)),
        cx + dx * c,
        sy.times(turn.sin),
        dy * n,
        0,
    );
    lemma_ratio_plus(sprite.center_y, cy, sx.times(turn.sin), dx * n, 0);
    lemma_ratio_plus(
        sprite.center_y.plus(sx.times(turn.sin)),
        cy + dx * n,
        sy.times(turn.cos),
        dy * c,
        0,
    );
    let at = Point {
        x: sprite.center_x.plus(sx.times(turn.cos)).minus(sy.times(turn.sin)),
        y: sprite.center_y.plus(sx.times(turn.sin)).plus(sy.times(turn.cos)),
    };
    lemma_map_exact(stand.world, w, at, cx + dx * c - dy * n, cy + dx * n + dy * c);
}

} // verus!
