//! Laws of patches and of the triangles that sprites are drawn with.

use crate::combinator::{mesh_value, patch_at, raw_value};
use crate::curve::unit_clamp;
use crate::curve_laws::{
    differ_exactly, is_share, lemma_lerp_between, lemma_lerp_ends, lemma_lerp_even,
    lemma_lerp_starts, lemma_times_a_zero, lies_between,
};
use crate::dyadic::{
    fits, is_ratio, lemma_finer, lemma_ratio_constants, lemma_ratio_minus, lemma_ratio_order,
    lemma_ratio_over, lemma_ratio_plus, lemma_ratio_times,
};
use crate::exact::{
    lemma_order_is_by_value, lemma_plus_a_zero, lemma_plus_commutes, lemma_times_one,
    lemma_whole_is_exact,
};
use crate::mesh::{
    cubic_weight, identity_point, point_bounds, spec_third, weighted_sum, Patch, Point,
};
use crate::monotone::{lemma_nearest_ordered, lemma_nearest_self, lemma_over_rank};
use crate::place::Stand;
use crate::place_laws::corner;
use crate::rounding::lemma_pow2_le;
use crate::scene::{Ctx, Sprite};
use crate::single::{magnitude_units, Single};
use crate::texture_laws::lemma_word_bytes;
use crate::vertices::parts;
use vstd::arithmetic::div_mod::lemma_fundamental_div_mod_converse;
use vstd::arithmetic::power2::{lemma2_to64, lemma_pow2_adds, lemma_pow2_pos, pow2};
use vstd::prelude::*;

verus! {

/// The weight of one of four points at `n` over `w`, over `w` to the third.
pub open spec fn bernstein(n: int, w: int, i: int) -> int {
    if i == 0 {
        (w - n) * (w - n) * (w - n)
    } else if i == 1 {
        3 * n * (w - n) * (w - n)
    } else if i == 2 {
        3 * n * n * (w - n)
    } else {
        n * n * n
    }
}

/// The weights of four points are those of a cubic curve, exactly for whole numbers over
/// small powers of two: none is negative, together they are one, and seen from the other
/// end they come in the other order.
pub proof fn lemma_cubic_weights(t: Single, n: int, s: nat)
    requires
        s <= 4,
        0 <= n <= pow2(s),
        is_ratio(t, n, s),
    ensures
        is_ratio(cubic_weight(t, 0), bernstein(n, pow2(s) as int, 0), 3 * s),
        is_ratio(cubic_weight(t, 1), bernstein(n, pow2(s) as int, 1), 3 * s),
        is_ratio(cubic_weight(t, 2), bernstein(n, pow2(s) as int, 2), 3 * s),
        is_ratio(cubic_weight(t, 3), bernstein(n, pow2(s) as int, 3), 3 * s),
{
    lemma2_to64();
    lemma_ratio_constants();
    lemma_pow2_le(s, 4);
    lemma_pow2_pos(s);
    let w = pow2(s) as int;
    let one = Single::one();
    let three = Single::three();
    lemma_finer(one, 1, 0, s);
    lemma_ratio_minus(one, w, t, n, s);
    let r = one.minus(t);
    let m = w - n;
    assert(0 <= m * m <= 256 && 0 <= n * n <= 256 && 0 <= m * n <= 256 && n * m == m * n)
        by (nonlinear_arith)
        requires
            0 <= m <= 16,
            0 <= n <= 16,
    ;
    assert(0 <= (m * m) * m <= 4096 && 0 <= (n * n) * n <= 4096 && 0 <= (3 * m) * m <= 768 && 0 <= ((
    3 * m) * m) * n <= 12288 && 0 <= (3 * m) * n <= 768 && 0 <= ((3 * m) * n) * n <= 12288)
        by (nonlinear_arith)
        requires
            0 <= m <= 16,
            0 <= n <= 16,
    ;
    lemma_ratio_times(r, m, s, r, m, s);
    lemma_ratio_times(r.times(r), m * m, 2 * s, r, m, s);
    lemma_ratio_times(three, 3, 0, r, m, s);
    lemma_ratio_times(three.times(r), 3 * m, s, r, m, s);
    lemma_ratio_times(three.times(r).times(r), (3 * m) * m, 2 * s, t, n, s);
    lemma_ratio_times(three.times(r), 3 * m, s, t, n, s);
    lemma_ratio_times(three.times(r).times(t), (3 * m) * n, 2 * s, t, n, s);
    lemma_ratio_times(t, n, s, t, n, s);
    lemma_ratio_times(t.times(t), n * n, 2 * s, t, n, s);
    assert(((3 * m) * m) * n == 3 * n * m * m) by (nonlinear_arith);
    assert(((3 * m) * n) * n == 3 * n * n * m) by (nonlinear_arith);
}

/// The weights of a curve are parts of one whole.
pub proof fn lemma_bernstein(n: int, w: int)
    requires
        0 <= n <= w <= 16,
    ensures
        bernstein(n, w, 0) + bernstein(n, w, 1) + bernstein(n, w, 2) + bernstein(n, w, 3) == w * w
            * w,
        bernstein(n, w, 0) >= 0,
        bernstein(n, w, 1) >= 0,
        bernstein(n, w, 2) >= 0,
        bernstein(n, w, 3) >= 0,
        bernstein(w - n, w, 0) == bernstein(n, w, 3),
        bernstein(w - n, w, 1) == bernstein(n, w, 2),
{
    let m = w - n;
    assert(m * m * m + 3 * n * m * m + 3 * n * n * m + n * n * n == w * w * w) by (nonlinear_arith)
        requires
            m == w - n,
    ;
    assert(m * m * m >= 0 && 3 * n * m * m >= 0 && 3 * n * n * m >= 0 && n * n * n >= 0)
        by (nonlinear_arith)
        requires
            m >= 0,
            n >= 0,
    ;
    assert(3 * (w - n) * (w - (w - n)) * (w - (w - n)) == 3 * n * n * (w - n)) by (nonlinear_arith);
}

/// The sum of the first points of a patch of whole numbers, each times its weights.
pub open spec fn whole_sum(xs: Seq<int>, a: int, b: int, w: int, k: int) -> int
    decreases k,
{
    if k <= 0 {
        0
    } else {
        whole_sum(xs, a, b, w, k - 1) + xs[k - 1] * (bernstein(b, w, (k - 1) / 4) * bernstein(
            a,
            w,
            (k - 1) % 4,
        ))
    }
}

proof fn lemma_weight_bound(n: int, w: int, i: int)
    requires
        0 <= n <= w <= 4,
        0 <= i < 4,
    ensures
        0 <= bernstein(n, w, i) <= 64,
{
    lemma_bernstein(n, w);
    assert(w * w * w <= 64) by (nonlinear_arith)
        requires
            0 <= w <= 4,
    ;
}

/// A row of numbers, weighted over a patch.
proof fn lemma_weighted(
    points: Seq<Point>,
    xs: Seq<int>,
    ys: Seq<int>,
    u: Single,
    a: int,
    v: Single,
    b: int,
    s: nat,
    k: int,
)
    requires
        points.len() == 16,
        xs.len() == 16,
        ys.len() == 16,
        forall|i: int| 0 <= i < 16 ==> is_ratio((#[trigger] points[i]).x, xs[i], 0),
        forall|i: int| 0 <= i < 16 ==> is_ratio((#[trigger] points[i]).y, ys[i], 0),
        forall|i: int| 0 <= i < 16 ==> -64 <= #[trigger] xs[i] <= 64,
        forall|i: int| 0 <= i < 16 ==> -64 <= #[trigger] ys[i] <= 64,
        s <= 2,
        0 <= a <= pow2(s),
        0 <= b <= pow2(s),
        is_ratio(u, a, s),
        is_ratio(v, b, s),
        0 <= k <= 16,
    ensures
        is_ratio(
            weighted_sum(points, u, v, k).x,
            whole_sum(xs, a, b, pow2(s) as int, k),
            6 * s,
        ),
        is_ratio(
            weighted_sum(points, u, v, k).y,
            whole_sum(ys, a, b, pow2(s) as int, k),
            6 * s,
        ),
        -(k * 262144) <= whole_sum(xs, a, b, pow2(s) as int, k) <= k * 262144,
        -(k * 262144) <= whole_sum(ys, a, b, pow2(s) as int, k) <= k * 262144,
    decreases k,
{
    lemma2_to64();
    lemma_pow2_le(s, 2);
    lemma_ratio_constants();
    let w = pow2(s) as int;
    if k == 0 {
        lemma_finer(Single::zero(), 0, 0, 6 * s);
        assert(0 * pow2(6 * s) == 0);
    } else {
        lemma_weighted(points, xs, ys, u, a, v, b, s, k - 1);
        lemma_cubic_weights(u, a, s);
        lemma_cubic_weights(v, b, s);
        let i = (k - 1) / 4;
        let j = (k - 1) % 4;
        let p = bernstein(b, w, i);
        let q = bernstein(a, w, j);
        lemma_weight_bound(b, w, i);
        lemma_weight_bound(a, w, j);
        assert(0 <= p * q <= 4096) by (nonlinear_arith)
            requires
                0 <= p <= 64,
                0 <= q <= 64,
        ;
        lemma_ratio_times(cubic_weight(v, i), p, 3 * s, cubic_weight(u, j), q, 3 * s);
        let g = cubic_weight(v, i).times(cubic_weight(u, j));
        let x = xs[k - 1];
        let y = ys[k - 1];
        assert(-262144 <= x * (p * q) <= 262144 && -262144 <= y * (p * q) <= 262144)
            by (nonlinear_arith)
            requires
                0 <= p * q <= 4096,
                -64 <= x <= 64,
                -64 <= y <= 64,
        ;
        lemma_ratio_times(points[k - 1].x, x, 0, g, p * q, 6 * s);
        lemma_ratio_times(points[k - 1].y, y, 0, g, p * q, 6 * s);
        let before = weighted_sum(points, u, v, k - 1);
        lemma_ratio_plus(
            before.x,
            whole_sum(xs, a, b, w, k - 1),
            points[k - 1].x.times(g),
            x * (p * q),
            6 * s,
        );
        lemma_ratio_plus(
            before.y,
            whole_sum(ys, a, b, w, k - 1),
            points[k - 1].y.times(g),
            y * (p * q),
            6 * s,
        );
    }
}

/// The surface of a patch whose sixteen points are small whole numbers, at places that are
/// whole numbers over a small power of two: the points weighted by row and column, exactly.
pub proof fn lemma_patch_exact(
    patch: Patch,
    xs: Seq<int>,
    ys: Seq<int>,
    u: Single,
    a: int,
    v: Single,
    b: int,
    s: nat,
)
    requires
        patch.wf(),
        xs.len() == 16,
        ys.len() == 16,
        forall|i: int| 0 <= i < 16 ==> is_ratio((#[trigger] patch.points[i]).x, xs[i], 0),
        forall|i: int| 0 <= i < 16 ==> is_ratio((#[trigger] patch.points[i]).y, ys[i], 0),
        forall|i: int| 0 <= i < 16 ==> -64 <= #[trigger] xs[i] <= 64,
        forall|i: int| 0 <= i < 16 ==> -64 <= #[trigger] ys[i] <= 64,
        s <= 2,
        0 <= a <= pow2(s),
        0 <= b <= pow2(s),
        is_ratio(u, a, s),
        is_ratio(v, b, s),
    ensures
        is_ratio(patch.sample(u, v).x, whole_sum(xs, a, b, pow2(s) as int, 16), 6 * s),
        is_ratio(patch.sample(u, v).y, whole_sum(ys, a, b, pow2(s) as int, 16), 6 * s),
{
    lemma2_to64();
    lemma_pow2_le(s, 2);
    lemma_ratio_constants();
    lemma_finer(Single::zero(), 0, 0, s);
    lemma_finer(Single::one(), 1, 0, s);
    lemma_ratio_order(u, a, Single::zero(), 0, s);
    lemma_ratio_order(Single::one(), pow2(s) as int, u, a, s);
    lemma_ratio_order(v, b, Single::zero(), 0, s);
    lemma_ratio_order(Single::one(), pow2(s) as int, v, b, s);
    lemma_weighted(patch.points, xs, ys, u, a, v, b, s, 16);
}

/// Whether a number is one or zero, as a flag says.
spec fn is_flag(x: Single, flag: bool) -> bool {
    if flag {
        x == Single::one()
    } else {
        x.magnitude() == 0
    }
}

/// At an end of a curve only the point at that end has a weight.
proof fn lemma_end_weights(end: bool, i: int)
    requires
        0 <= i < 4,
    ensures
        ({
            let t = if end {
                Single::one()
            } else {
                Single::zero()
            };
            is_flag(
                cubic_weight(t, i),
                i == (if end {
                    3int
                } else {
                    0
                }),
            )
        }),
{
    lemma2_to64();
    lemma_ratio_constants();
    let t = if end {
        Single::one()
    } else {
        Single::zero()
    };
    let n: int = if end {
        1
    } else {
        0
    };
    lemma_cubic_weights(t, n, 0);
    let x = cubic_weight(t, i);
    let b = bernstein(n, 1, i);
    assert(b == (if i == (if end {
        3int
    } else {
        0
    }) {
        1int
    } else {
        0
    })) by {
        assert(bernstein(0, 1, 0) == 1 && bernstein(0, 1, 1) == 0 && bernstein(0, 1, 2) == 0
            && bernstein(0, 1, 3) == 0) by (nonlinear_arith);
        assert(bernstein(1, 1, 0) == 0 && bernstein(1, 1, 1) == 0 && bernstein(1, 1, 2) == 0
            && bernstein(1, 1, 3) == 1) by (nonlinear_arith);
    }
    lemma_ratio_order(x, b, Single::one(), 1, 0);
    lemma_ratio_order(x, b, Single::zero(), 0, 0);
}

proof fn lemma_corner_sum(points: Seq<Point>, right: bool, low: bool, k: int)
    requires
        points.len() == 16,
        forall|i: int|
            0 <= i < 16 ==> (#[trigger] points[i]).x.is_finite() && points[i].y.is_finite(),
        0 <= k <= 16,
    ensures
        ({
            let u = if right {
                Single::one()
            } else {
                Single::zero()
            };
            let v = if low {
                Single::one()
            } else {
                Single::zero()
            };
            let c = corner_index(right, low);
            let p = weighted_sum(points, u, v, k);
            &&& k <= c ==> p.x.magnitude() == 0 && p.y.magnitude() == 0
            &&& k > c ==> p.x.same(points[c].x) && p.y.same(points[c].y) && p.x.is_finite()
                && p.y.is_finite()
        }),
    decreases k,
{
    if k > 0 {
        lemma_corner_sum(points, right, low, k - 1);
        let u = if right {
            Single::one()
        } else {
            Single::zero()
        };
        let v = if low {
            Single::one()
        } else {
            Single::zero()
        };
        let c = corner_index(right, low);
        let i = (k - 1) / 4;
        let j = (k - 1) % 4;
        lemma_end_weights(low, i);
        lemma_end_weights(right, j);
        let a = cubic_weight(v, i);
        let b = cubic_weight(u, j);
        let g = a.times(b);
        lemma_ratio_constants();
        if k - 1 == c {
            lemma_times_one(Single::one());
            assert(g == Single::one());
            lemma_times_one(points[c].x);
            lemma_times_one(points[c].y);
        } else {
            if a.magnitude() == 0 {
                lemma_times_a_zero(b, a);
            } else {
                lemma_times_a_zero(a, b);
            }
            lemma_times_a_zero(points[k - 1].x, g);
            lemma_times_a_zero(points[k - 1].y, g);
        }
        let before = weighted_sum(points, u, v, k - 1);
        let x = points[k - 1].x.times(g);
        let y = points[k - 1].y.times(g);
        if k - 1 == c {
            lemma_plus_commutes(before.x, x);
            lemma_plus_commutes(before.y, y);
            lemma_plus_a_zero(x, before.x);
            lemma_plus_a_zero(y, before.y);
        } else {
            lemma_plus_a_zero(before.x, x);
            lemma_plus_a_zero(before.y, y);
        }
    }
}

/// Which of the sixteen points is a corner.
pub open spec fn corner_index(right: bool, low: bool) -> int {
    (if low {
        12int
    } else {
        0
    }) + (if right {
        3int
    } else {
        0
    })
}

/// A patch goes through its four corner points: the first number runs along the rows, the
/// second one down the columns.
pub proof fn lemma_patch_meets_its_corners(patch: Patch, right: bool, low: bool)
    requires
        patch.wf(),
        forall|i: int|
            0 <= i < 16 ==> (#[trigger] patch.points[i]).x.is_finite() && patch.points[i].y.is_finite(),
    ensures
        ({
            let u = if right {
                Single::one()
            } else {
                Single::zero()
            };
            let v = if low {
                Single::one()
            } else {
                Single::zero()
            };
            patch.sample(u, v).same(patch.points[corner_index(right, low)])
        }),
{
    lemma_ratio_constants();
    lemma_ratio_order(Single::zero(), 0, Single::one(), 1, 0);
    lemma_ratio_order(Single::one(), 1, Single::one(), 1, 0);
    lemma_corner_sum(patch.points, right, low, 16);
}

/// A point that a first patch puts into a corner comes to stand at that corner of the
/// patch behind it.
pub proof fn lemma_combined_corners(first: Patch, next: Patch, i: int, right: bool, low: bool)
    requires
        first.wf(),
        next.wf(),
        0 <= i < 16,
        forall|k: int|
            0 <= k < 16 ==> (#[trigger] next.points[k]).x.is_finite() && next.points[k].y.is_finite(),
        first.points[i] == (Point {
            x: if right {
                Single::one()
            } else {
                Single::zero()
            },
            y: if low {
                Single::one()
            } else {
                Single::zero()
            },
        }),
    ensures
        first.combined_with(next).points[i].same(next.points[corner_index(right, low)]),
{
    lemma_patch_meets_its_corners(next, right, low);
}

/// Between two patches every point starts at the first, ends at the second, and stays
/// between them.
pub proof fn lemma_patches_mix(a: Patch, b: Patch, t: Single, i: int)
    requires
        a.wf(),
        b.wf(),
        0 <= i < 16,
        differ_exactly(a.points[i].x, b.points[i].x),
        differ_exactly(a.points[i].y, b.points[i].y),
        is_share(t),
    ensures
        Patch::interpolate(a, b, Single::zero()).points[i].same(a.points[i]),
        Patch::interpolate(a, b, Single::one()).points[i].same(b.points[i]),
        lies_between(Patch::interpolate(a, b, t).points[i].x, a.points[i].x, b.points[i].x),
        lies_between(Patch::interpolate(a, b, t).points[i].y, a.points[i].y, b.points[i].y),
{
    lemma_ratio_constants();
    lemma_ratio_order(Single::zero(), 0, Single::one(), 1, 0);
    let p = a.points[i];
    let q = b.points[i];
    lemma_lerp_starts(p.x, q.x, Single::zero());
    lemma_lerp_starts(p.y, q.y, Single::zero());
    lemma_lerp_ends(p.x, q.x);
    lemma_lerp_ends(p.y, q.y);
    lemma_lerp_between(p.x, q.x, t);
    lemma_lerp_between(p.y, q.y, t);
    lemma_order_is_by_value(p.x, q.x);
    lemma_order_is_by_value(q.x, p.x);
    lemma_order_is_by_value(p.y, q.y);
    lemma_order_is_by_value(q.y, p.y);
}

/// The bounds of points hold them all.
pub proof fn lemma_point_bounds_hold(points: Seq<Point>, n: int, i: int)
    requires
        0 <= i < n <= points.len(),
        forall|k: int| 0 <= k < n ==> !(#[trigger] points[k]).x.is_nan() && !points[k].y.is_nan(),
    ensures
        ({
            let (low, high) = point_bounds(points, n);
            &&& low.x.le(points[i].x) && points[i].x.le(high.x)
            &&& low.y.le(points[i].y) && points[i].y.le(high.y)
            &&& !low.x.is_nan() && !low.y.is_nan() && !high.x.is_nan() && !high.y.is_nan()
        }),
    decreases n,
{
    if n > 1 {
        if i < n - 1 {
            lemma_point_bounds_hold(points, n - 1, i);
        } else {
            lemma_point_bounds_hold(points, n - 1, 0);
        }
    }
}

/// A flat sprite is drawn with two triangles that share a side and meet all four corners.
/// Every corner shows the corner of the picture that it stands for: left is left, and top
/// is top.
pub proof fn lemma_quad_shows_its_corners(sprite: Sprite, stand: Stand, k: int)
    requires
        sprite.mesh is None,
        0 <= k < 6,
    ensures
        sprite.triangles(stand).len() == 6,
        ({
            let v = sprite.triangles(stand)[k];
            let right = k == 2 || k == 3 || k == 5;
            let low = k == 1 || k == 4 || k == 5;
            &&& v.position == sprite.point(stand, corner(sprite, right, low))
            &&& v.texcoord.x == (if right {
                sprite.uv_right
            } else {
                sprite.uv_left
            })
            &&& v.texcoord.y == (if low {
                sprite.uv_bottom
            } else {
                sprite.uv_top
            })
            &&& v.alpha == sprite.opacity
        }),
        sprite.triangles(stand)[1] == sprite.triangles(stand)[4],
        sprite.triangles(stand)[2] == sprite.triangles(stand)[3],
{
}

/// On whole numbers: from one mesh of a list to the next, every control point goes evenly,
/// and at a whole position it is the point of that mesh.
pub proof fn lemma_mesh_list_goes_evenly(
    meshes: Seq<Seq<Single>>,
    pos: Single,
    k: int,
    s: nat,
    i: int,
    neutral_index: i64,
    division_x: u32,
    division_y: u32,
    j: int,
    from: (int, int),
    to: (int, int),
)
    requires
        0 <= i < meshes.len(),
        i < 0x100_0000,
        0 <= j < 16,
        s <= 24,
        is_ratio(pos, k, s),
        fits(k),
        i * pow2(s) <= k < (i + 1) * pow2(s),
        k > i * pow2(s) ==> i + 1 < meshes.len(),
        neutral_index != i,
        neutral_index != i + 1,
        is_ratio(meshes[i][2 * j], from.0, 0),
        is_ratio(meshes[i][2 * j + 1], from.1, 0),
        i + 1 < meshes.len() ==> is_ratio(meshes[i + 1][2 * j], to.0, 0) && is_ratio(
            meshes[i + 1][2 * j + 1],
            to.1,
            0,
        ),
        fits(to.0 - from.0),
        fits(to.1 - from.1),
        fits((to.0 - from.0) * (k - i * pow2(s))),
        fits((to.1 - from.1) * (k - i * pow2(s))),
        fits(from.0 * pow2(s) + (to.0 - from.0) * (k - i * pow2(s))),
        fits(from.1 * pow2(s) + (to.1 - from.1) * (k - i * pow2(s))),
    ensures
        ({
            let r = patch_at(meshes, pos, neutral_index, division_x, division_y);
            let gone = k - i * pow2(s);
            &&& r is Some
            &&& is_ratio(r->0.points[j].x, from.0 * pow2(s) + (to.0 - from.0) * gone, s)
            &&& is_ratio(r->0.points[j].y, from.1 * pow2(s) + (to.1 - from.1) * gone, s)
        }),
{
    lemma2_to64();
    lemma_pow2_pos(149);
    lemma_pow2_pos(s);
    lemma_pow2_pos((149 - s) as nat);
    lemma_pow2_adds(s, (149 - s) as nat);
    let one = pow2(s) as int;
    let step = pow2((149 - s) as nat) as int;
    let w = pow2(149) as int;
    let gone = k - i * one;
    assert(0 <= gone < one) by (nonlinear_arith)
        requires
            gone == k - i * one,
            i * one <= k < (i + 1) * one,
    ;
    assert(k >= 0) by (nonlinear_arith)
        requires
            i * one <= k,
            i >= 0,
            one > 0,
    ;
    assert(pos.value() == i * w + gone * step && 0 <= gone * step < w && pos.value() >= 0)
        by (nonlinear_arith)
        requires
            pos.value() == k * step,
            w == one * step,
            gone == k - i * one,
            0 <= gone < one,
            step > 0,
            i >= 0,
    ;
    assert((gone * step == 0) == (gone == 0)) by (nonlinear_arith)
        requires
            step > 0,
    ;
    lemma_fundamental_div_mod_converse(pos.value(), w, i, gone * step);
    assert(magnitude_units(0) == 0);
    lemma_nearest_self(pos);
    assert(pos.units() == pos.value());
    let i0 = pos.whole_part(u64::MAX as nat);
    assert(i0 == i) by {
        if pos.is_negative() {
            assert(pos.value() == 0);
            assert(i * w == 0);
            assert(i == 0) by (nonlinear_arith)
                requires
                    i * w == 0,
                    w > 0,
                    i >= 0,
            ;
        }
    }
    assert(pos.is_whole() == (gone == 0));
    lemma_whole_is_exact(i as i64);
    let at = Single::spec_from_i64(i as i64);
    assert(is_ratio(at, i, 0));
    lemma_finer(at, i, 0, s);
    lemma_ratio_minus(pos, k, at, i * one, s);
    let t = pos.minus(at);
    lemma_ratio_constants();
    lemma_finer(Single::zero(), 0, 0, s);
    lemma_finer(Single::one(), 1, 0, s);
    assert(0 * one == 0) by (nonlinear_arith);
    lemma_ratio_order(t, gone, Single::zero(), 0, s);
    lemma_ratio_order(Single::one(), one, t, gone, s);
    assert(unit_clamp(t) == t);
    if gone == 0 {
        let a = meshes[i];
        assert((to.0 - from.0) * gone == 0 && (to.1 - from.1) * gone == 0) by (nonlinear_arith)
            requires
                gone == 0,
        ;
        lemma_lerp_even(a[2 * j], from.0, a[2 * j], from.0, 0, t, 0, s);
        lemma_lerp_even(a[2 * j + 1], from.1, a[2 * j + 1], from.1, 0, t, 0, s);
    } else {
        let a = meshes[i];
        let b = meshes[i + 1];
        lemma_lerp_even(a[2 * j], from.0, b[2 * j], to.0, 0, t, gone, s);
        lemma_lerp_even(a[2 * j + 1], from.1, b[2 * j + 1], to.1, 0, t, gone, s);
    }
}

/// A third against a ratio: they are ordered as the exact numbers are.
proof fn lemma_third_against(n: i64, x: Single, m: int, s: nat)
    requires
        0 <= n <= 3,
        is_ratio(x, m, s),
    ensures
        spec_third(n).is_finite(),
        n * pow2(s) <= 3 * m ==> spec_third(n).le(x),
        n * pow2(s) >= 3 * m ==> x.le(spec_third(n)),
{
    lemma_ratio_constants();
    lemma_whole_is_exact(n);
    lemma_pow2_pos(149);
    lemma_pow2_adds(s, (149 - s) as nat);
    let w = pow2(149) as int;
    let v = pow2(s) as int;
    let u = pow2((149 - s) as nat) as int;
    let a = Single::spec_from_i64(n);
    let three = Single::three();
    assert(is_ratio(a, n as int, 0));
    lemma_over_rank(a, three);
    lemma_nearest_self(x);
    let top = a.value() * w;
    let q = three.value() as nat;
    assert(n * v <= 3 * m ==> top * 1 <= x.value() * q) by (nonlinear_arith)
        requires
            top == (n * w) * w,
            q == 3 * w,
            w == v * u,
            x.value() == m * u,
            u >= 0,
            w >= 0,
    {
        if n * v <= 3 * m {
            assert((n * v) * u <= (3 * m) * u);
            assert((n * w) * w <= (3 * m * u) * w);
        }
    }
    assert(n * v >= 3 * m ==> x.value() * q <= top * 1) by (nonlinear_arith)
        requires
            top == (n * w) * w,
            q == 3 * w,
            w == v * u,
            x.value() == m * u,
            u >= 0,
            w >= 0,
    {
        if n * v >= 3 * m {
            assert((n * v) * u >= (3 * m) * u);
            assert((n * w) * w >= (3 * m * u) * w);
        }
    }
    if n * v <= 3 * m {
        lemma_nearest_ordered(top, q, x.value(), 1);
    }
    if n * v >= 3 * m {
        lemma_nearest_ordered(x.value(), 1, top, q);
    }
    let zero = Single::zero();
    let one = Single::one();
    lemma_nearest_self(zero);
    lemma_nearest_self(one);
    assert(0 * (w * w) == 0);
    assert(0 * q <= top * 1) by (nonlinear_arith)
        requires
            top == (n * w) * w,
            n >= 0,
            w >= 0,
    ;
    assert(top * 1 <= one.value() * q) by (nonlinear_arith)
        requires
            top == (n * w) * w,
            q == 3 * w,
            one.value() == w,
            n <= 3,
            w >= 0,
    {
        assert(n * w <= 3 * w);
        assert((n * w) * w <= (3 * w) * w);
    }
    lemma_nearest_ordered(0, 1, top, q);
    lemma_nearest_ordered(top, q, one.value(), 1);
}

/// The control points of the identity stand in a grid from corner to corner: columns from
/// zero to one to the right, rows from zero to one downward.
pub proof fn lemma_identity_grid(i: int)
    requires
        0 <= i < 16,
    ensures
        i % 4 == 0 ==> is_ratio(identity_point(i).x, 0, 0),
        i % 4 == 3 ==> is_ratio(identity_point(i).x, 1, 0),
        i < 4 ==> is_ratio(identity_point(i).y, 0, 0),
        i >= 12 ==> is_ratio(identity_point(i).y, 1, 0),
        i % 4 < 3 ==> identity_point(i).x.lt(identity_point(i + 1).x) && identity_point(i).y
            == identity_point(i + 1).y,
        i < 12 ==> identity_point(i).y.lt(identity_point(i + 4).y) && identity_point(i).x
            == identity_point(i + 4).x,
{
    lemma_thirds();
}

proof fn lemma_thirds()
    ensures
        is_ratio(spec_third(0), 0, 0),
        is_ratio(spec_third(3), 1, 0),
        spec_third(0).lt(spec_third(1)),
        spec_third(1).lt(spec_third(2)),
        spec_third(2).lt(spec_third(3)),
{
    lemma2_to64();
    lemma_pow2_pos(149);
    lemma_ratio_constants();
    let half = Single::half();
    let zero = Single::zero();
    let one = Single::one();
    lemma_ratio_times(half, 1, 1, half, 1, 1);
    let quarter = half.times(half);
    lemma_ratio_times(Single::three(), 3, 0, quarter, 1, 2);
    let three_quarters = Single::three().times(quarter);
    lemma_ratio_times(three_quarters, 3, 2, half, 1, 1);
    let three_eighths = three_quarters.times(half);
    lemma_third_against(0, zero, 0, 0);
    lemma_third_against(3, one, 1, 0);
    lemma_third_against(1, quarter, 1, 2);
    lemma_third_against(1, three_eighths, 3, 3);
    lemma_third_against(2, half, 1, 1);
    lemma_third_against(2, three_quarters, 3, 2);
    lemma_finer(half, 1, 1, 2);
    lemma_finer(zero, 0, 0, 2);
    lemma_finer(one, 1, 0, 2);
    assert(0 * pow2(2) == 0);
    lemma_ratio_order(zero, 0, quarter, 1, 2);
    lemma_ratio_order(three_eighths, 3, half, 4, 3);
    lemma_ratio_order(three_quarters, 3, one, 4, 2);
    lemma_order_is_by_value(spec_third(0), zero);
    lemma_order_is_by_value(zero, spec_third(0));
    lemma_order_is_by_value(spec_third(3), one);
    lemma_order_is_by_value(one, spec_third(3));
    assert(0 * pow2(149) == 0);
}

/// How far a knot stands along a side that is divided by a power of two.
proof fn lemma_knot_share(n: usize, division: u32, a: nat)
    requires
        a <= 24,
        division == pow2(a),
        n <= pow2(a),
    ensures
        is_ratio(Single::from_count(n).over(Single::from_count(parts(division))), n as int, a),
{
    lemma2_to64();
    lemma_pow2_pos(a);
    lemma_pow2_le(a, 24);
    lemma_whole_is_exact(n as i64);
    lemma_whole_is_exact(division as i64);
    let x = Single::from_count(n);
    let d = Single::from_count(parts(division));
    assert(x == Single::spec_from_i64(n as i64));
    assert(d == Single::spec_from_i64(division as i64));
    assert(is_ratio(x, n as int, 0));
    assert(is_ratio(d, division as int, 0));
    lemma_ratio_over(x, n as int, d, a, 0);
}

/// A mesh that is divided by powers of two has its knots at even steps: each knot shows
/// the texture at its share of the icon, and stands at the same share of the patch laid
/// over the sprite.
pub proof fn lemma_knot_exact(
    sprite: Sprite,
    mesh: Patch,
    stand: Stand,
    x: usize,
    y: usize,
    a: nat,
    b: nat,
    s: nat,
    across: (int, int),
    down: (int, int),
)
    requires
        a <= 24,
        b <= 24,
        mesh.division_x == pow2(a),
        mesh.division_y == pow2(b),
        x <= pow2(a),
        y <= pow2(b),
        s <= 24,
        is_ratio(sprite.uv_left, across.0, s),
        is_ratio(sprite.uv_right, across.1, s),
        is_ratio(sprite.uv_top, down.0, s),
        is_ratio(sprite.uv_bottom, down.1, s),
        fits(across.1 - across.0),
        fits((across.1 - across.0) * x),
        fits(across.0 * pow2(a) + (across.1 - across.0) * x),
        fits(down.1 - down.0),
        fits((down.1 - down.0) * y),
        fits(down.0 * pow2(b) + (down.1 - down.0) * y),
    ensures
        ({
            let r = sprite.knot(mesh, stand, x, y);
            &&& is_ratio(
                r.texcoord.x,
                across.0 * pow2(a) + (across.1 - across.0) * x,
                s + a,
            )
            &&& is_ratio(r.texcoord.y, down.0 * pow2(b) + (down.1 - down.0) * y, s + b)
            &&& r.alpha == sprite.opacity
            &&& exists|u: Single, v: Single, at: Point|
                is_ratio(u, x as int, a) && is_ratio(v, y as int, b) && #[trigger] laid_over(
                    sprite,
                    mesh.sample(u, v),
                    at,
                ) && r.position == sprite.point(stand, at)
        }),
{
    let u = Single::from_count(x).over(Single::from_count(parts(mesh.division_x)));
    let v = Single::from_count(y).over(Single::from_count(parts(mesh.division_y)));
    lemma_knot_share(x, mesh.division_x, a);
    lemma_knot_share(y, mesh.division_y, b);
    lemma_lerp_even(sprite.uv_left, across.0, sprite.uv_right, across.1, s, u, x as int, a);
    lemma_lerp_even(sprite.uv_top, down.0, sprite.uv_bottom, down.1, s, v, y as int, b);
    let p = mesh.sample(u, v);
    let at = Point {
        x: sprite.left().plus(p.x.times(sprite.width)),
        y: sprite.top().plus(p.y.times(sprite.height)),
    };
    assert forall|l: int, w: int, n: int, t: nat| #[trigger]
        is_span(sprite.left(), l, sprite.width, w, p.x, n, t) implies is_ratio(
        at.x,
        l * pow2(t) + n * w,
        t,
    ) by {
        lemma_laid(sprite.left(), l, sprite.width, w, p.x, n, t);
    }
    assert forall|l: int, w: int, n: int, t: nat| #[trigger]
        is_span(sprite.top(), l, sprite.height, w, p.y, n, t) implies is_ratio(
        at.y,
        l * pow2(t) + n * w,
        t,
    ) by {
        lemma_laid(sprite.top(), l, sprite.height, w, p.y, n, t);
    }
    assert(laid_over(sprite, mesh.sample(u, v), at));
}

/// A whole side of a sprite, and a place along it.
pub open spec fn is_span(
    from: Single,
    l: int,
    size: Single,
    w: int,
    place: Single,
    n: int,
    t: nat,
) -> bool {
    &&& t <= 24
    &&& is_ratio(from, l, 0)
    &&& is_ratio(size, w, 0)
    &&& is_ratio(place, n, t)
    &&& fits(n * w)
    &&& fits(l * pow2(t) + n * w)
}

/// Whether a place of the unit square lies at a point of a sprite: as far from its left
/// and its top edge as it says, on whole sprites.
pub open spec fn laid_over(sprite: Sprite, p: Point, at: Point) -> bool {
    &&& forall|l: int, w: int, n: int, t: nat| #[trigger]
        is_span(sprite.left(), l, sprite.width, w, p.x, n, t) ==> is_ratio(
            at.x,
            l * pow2(t) + n * w,
            t,
        )
    &&& forall|l: int, w: int, n: int, t: nat| #[trigger]
        is_span(sprite.top(), l, sprite.height, w, p.y, n, t) ==> is_ratio(
            at.y,
            l * pow2(t) + n * w,
            t,
        )
}

proof fn lemma_laid(from: Single, l: int, size: Single, w: int, place: Single, n: int, t: nat)
    requires
        is_span(from, l, size, w, place, n, t),
    ensures
        is_ratio(from.plus(place.times(size)), l * pow2(t) + n * w, t),
{
    lemma_ratio_times(place, n, t, size, w, 0);
    lemma_finer(from, l, 0, t);
    lemma_ratio_plus(from, l * pow2(t), place.times(size), n * w, t);
}

/// The cells of a mesh follow each other row by row; the two triangles of each meet its
/// four knots and share a side.
pub proof fn lemma_cells_in_order(
    sprite: Sprite,
    mesh: Patch,
    stand: Stand,
    x: nat,
    y: nat,
    k: int,
)
    requires
        sprite.mesh == Some(mesh),
        x < parts(mesh.division_x),
        y < parts(mesh.division_y),
        0 <= k < 6,
    ensures
        ({
            let columns = parts(mesh.division_x) as int;
            let right: int = if k == 2 || k == 3 || k == 5 {
                1
            } else {
                0
            };
            let low: int = if k == 1 || k == 4 || k == 5 {
                1
            } else {
                0
            };
            &&& sprite.triangles(stand).len() == 6 * (parts(mesh.division_y) * columns)
            &&& sprite.triangles(stand)[6 * (y * columns + x) + k] == sprite.knot(
                mesh,
                stand,
                (x + right) as usize,
                (y + low) as usize,
            )
        }),
{
    lemma_cells_of_rows(sprite, mesh, stand, x, y, k, parts(mesh.division_y) as nat);
}

proof fn lemma_cells_of_row(
    sprite: Sprite,
    mesh: Patch,
    stand: Stand,
    x: nat,
    y: usize,
    k: int,
    n: nat,
)
    requires
        x < n <= parts(mesh.division_x),
        0 <= k < 6,
    ensures
        sprite.row(mesh, stand, y, n).len() == 6 * n,
        sprite.row(mesh, stand, y, n)[6 * x + k] == sprite.cell(mesh, stand, x as usize, y)[k],
    decreases n,
{
    let fewer = (n - 1) as nat;
    if fewer == 0 {
        assert(sprite.row(mesh, stand, y, fewer).len() == 0);
    } else if x < fewer {
        lemma_cells_of_row(sprite, mesh, stand, x, y, k, fewer);
    } else {
        lemma_cells_of_row(sprite, mesh, stand, 0, y, k, fewer);
    }
}

proof fn lemma_cells_of_rows(
    sprite: Sprite,
    mesh: Patch,
    stand: Stand,
    x: nat,
    y: nat,
    k: int,
    n: nat,
)
    requires
        x < parts(mesh.division_x),
        y < n <= parts(mesh.division_y),
        0 <= k < 6,
    ensures
        sprite.rows(mesh, stand, n).len() == 6 * (n * parts(mesh.division_x)),
        sprite.rows(mesh, stand, n)[6 * (y * parts(mesh.division_x) + x) + k] == sprite.cell(
            mesh,
            stand,
            x as usize,
            y as usize,
        )[k],
    decreases n,
{
    let fewer = (n - 1) as nat;
    let c = parts(mesh.division_x) as int;
    assert(n * c == fewer * c + c && fewer * c >= 0) by (nonlinear_arith)
        requires
            n == fewer + 1,
            c >= 0,
    ;
    lemma_cells_of_row(sprite, mesh, stand, x, fewer as usize, k, c as nat);
    if fewer == 0 {
        assert(fewer * c == 0) by (nonlinear_arith)
            requires
                fewer == 0,
        ;
        assert(sprite.rows(mesh, stand, fewer).len() == 0);
    } else if y < fewer {
        lemma_cells_of_rows(sprite, mesh, stand, x, y, k, fewer);
        assert(y * c + x < fewer * c) by (nonlinear_arith)
            requires
                y + 1 <= fewer,
                x < c,
        ;
        assert(y * c >= 0) by (nonlinear_arith)
            requires
                c >= 0,
        ;
    } else {
        lemma_cells_of_rows(sprite, mesh, stand, x, 0, k, fewer);
    }
}

/// The numbers of a mesh list with differences are taken from the identity: no difference
/// is the identity, and at the corners of the square a difference is added to zero or one.
/// Numbers of any other list are taken as they are.
pub proof fn lemma_differences_are_taken_from_the_identity(
    raw: Seq<u8>,
    mesh_count: nat,
    mesh: int,
    j: int,
    n: int,
    s: nat,
)
    requires
        0 <= j < 32,
        s <= 24,
        is_ratio(raw_value(raw, mesh_count, 32 * mesh + j), n, s),
        fits(n),
        fits(n + pow2(s)),
    ensures
        ({
            let r = mesh_value(raw, mesh_count, true, mesh, j);
            let i = j / 2;
            let place = if j % 2 == 0 {
                i % 4
            } else {
                i / 4
            };
            &&& mesh_value(raw, mesh_count, false, mesh, j) == raw_value(
                raw,
                mesh_count,
                32 * mesh + j,
            )
            &&& n == 0 ==> r.same(
                if j % 2 == 0 {
                    identity_point(i).x
                } else {
                    identity_point(i).y
                },
            )
            &&& place == 0 ==> is_ratio(r, n, s)
            &&& place == 3 ==> is_ratio(r, n + pow2(s), s)
        }),
{
    let v = raw_value(raw, mesh_count, 32 * mesh + j);
    let i = j / 2;
    let place = if j % 2 == 0 {
        i % 4
    } else {
        i / 4
    };
    lemma_thirds();
    let third = spec_third(place as i64);
    lemma_pow2_pos(s);
    lemma_finer(spec_third(0), 0, 0, s);
    lemma_finer(spec_third(3), 1, 0, s);
    assert(0 * pow2(s) == 0) by (nonlinear_arith);
    if place == 0 {
        lemma_ratio_plus(v, n, third, 0, s);
    }
    if place == 3 {
        lemma_ratio_plus(v, n, third, pow2(s) as int, s);
    }
    if n == 0 {
        assert(0 * pow2((149 - s) as nat) == 0) by (nonlinear_arith);
        lemma_nearest_self(v);
        assert(v.magnitude() == 0);
        lemma_ratio_constants();
        lemma_third_against(place as i64, Single::one(), 1, 0);
        lemma_plus_a_zero(third, v);
        lemma_plus_commutes(third, v);
    }
}

/// A list that is too short for doubles holds floats, four bytes each, lowest byte first.
pub proof fn lemma_floats_of_a_list(raw: Seq<u8>, mesh_count: nat, i: int)
    requires
        raw.len() < mesh_count * 32 * 8,
    ensures
        raw_value(raw, mesh_count, i).bits % 0x100 == raw[4 * i],
        raw_value(raw, mesh_count, i).bits / 0x100 % 0x100 == raw[4 * i + 1],
        raw_value(raw, mesh_count, i).bits / 0x1_0000 % 0x100 == raw[4 * i + 2],
        raw_value(raw, mesh_count, i).bits / 0x100_0000 == raw[4 * i + 3],
{
    lemma_word_bytes(raw, 4 * i);
}

/// A patch that a layer takes on works behind the one that it has: what that one puts into
/// a corner comes to stand at the corner of the new one.
pub proof fn lemma_new_patches_work_behind(
    ctx: Ctx,
    next: Patch,
    id: Option<Seq<char>>,
    i: int,
    right: bool,
    low: bool,
)
    requires
        ctx.mesh_patch is Some,
        ctx.mesh_patch->0.wf(),
        next.wf(),
        0 <= i < 16,
        forall|k: int|
            0 <= k < 16 ==> (#[trigger] next.points[k]).x.is_finite()
                && next.points[k].y.is_finite(),
        ctx.mesh_patch->0.points[i] == (Point {
            x: if right {
                Single::one()
            } else {
                Single::zero()
            },
            y: if low {
                Single::one()
            } else {
                Single::zero()
            },
        }),
    ensures
        ctx.patched(Some(next)).mesh_patch is Some,
        ctx.patched(Some(next)).mesh_patch->0.points[i].same(
            next.points[corner_index(right, low)],
        ),
        ctx.synced(Some(next), id).mesh_patch == ctx.patched(Some(next)).mesh_patch,
        ctx.patched(None) == ctx,
        ctx.synced(None, id) == ctx,
        id matches Some(name) ==> ctx.synced(Some(next), id).mesh_parameters.contains(name),
{
    lemma_combined_corners(ctx.mesh_patch->0, next, i, right, low);
}

} // verus!
