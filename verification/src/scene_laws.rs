//! What holds of sprites and of what drives them: how they fade, which part of a texture
//! they show, where a parameter stands in its range, and what fits a viewport.

use crate::assembly::Scene;
use crate::bodies::{spec_anchor, BasePose};
use crate::combinator::{mesh_position, variable_in_range};
use crate::curve_laws::{gone, is_share, lemma_gone, lemma_times_a_zero};
use crate::dyadic::{
    fits, is_ratio, lemma_finer, lemma_ratio_constants, lemma_ratio_minus, lemma_ratio_order,
    lemma_ratio_over, lemma_ratio_plus, lemma_ratio_times,
};
use crate::exact::{
    lemma_one, lemma_order_is_by_value, lemma_plus_a_zero, lemma_plus_commutes,
    lemma_times_commutes, lemma_times_one, lemma_whole_is_exact,
};
use crate::frame_plan::{filled_share, fitted, side};
use crate::frames::{spec_content_coord, Coord, FrameState};
use crate::layers::{first_content_with, motion_parameters, parameter_time};
use crate::mesh::Point;
use crate::monotone::{
    lemma_minus_sign, lemma_nearest_ordered, lemma_nearest_scale, lemma_nearest_self,
    lemma_nearest_side, lemma_over_rank, lemma_plus_ordered, lemma_times_ordered, lemma_times_share,
    lemma_times_side,
};
use crate::place::{EmoteSceneBounds, EmoteTransform2D};
use crate::rounding::lemma_pow2_le;
use crate::scene::{faded, layer_name, sprite_of, Ctx};
use crate::schema::Texture;
use crate::single::{magnitude_units, Single};
use crate::step::{combined_contexts, frame_patch, inherited, step_task, Posed, StepTask, StepWorld};
use crate::text::{joined, lemma_pieces_of_joined};
use crate::travel::{filled, frame_task, located, motion_target, moved, FrameTask, StaticWorld};
use crate::value::PsbValue;
use vstd::arithmetic::power2::{
    lemma2_to64, lemma_pow2_adds, lemma_pow2_pos, lemma_pow2_strictly_increases, pow2,
};
use vstd::prelude::*;

verus! {

/// A number above zero goes once into itself.
proof fn lemma_over_itself(x: Single)
    requires
        x.is_finite(),
        Single::zero().lt(x),
    ensures
        x.over(x) == Single::one(),
{
    lemma_order_is_by_value(Single::zero(), x);
    lemma_nearest_self(Single::zero());
    lemma_one();
    lemma_ratio_constants();
    lemma_pow2_pos(149);
    let w = pow2(149);
    lemma_over_rank(x, x);
    let v = x.value() as nat;
    assert(x.value() * w == w * v) by (nonlinear_arith)
        requires
            x.value() == v,
    ;
    lemma_nearest_scale(w as int, 1, v);
    lemma_nearest_self(Single::one());
    assert(x.over(x).rank() == Single::one().rank());
}

/// Quotients by a number above zero keep order, and their side of zero.
proof fn lemma_over_ordered(a: Single, b: Single, c: Single)
    requires
        a.is_finite(),
        b.is_finite(),
        c.is_finite(),
        Single::zero().lt(c),
        a.le(b),
    ensures
        a.over(c).le(b.over(c)),
        Single::zero().le(a) ==> Single::zero().le(a.over(c)),
        a.value() == 0 ==> a.over(c).magnitude() == 0,
{
    lemma_order_is_by_value(Single::zero(), c);
    lemma_order_is_by_value(Single::zero(), a);
    lemma_order_is_by_value(a, b);
    lemma_nearest_self(Single::zero());
    lemma_pow2_pos(149);
    lemma_over_rank(a, c);
    lemma_over_rank(b, c);
    let w = pow2(149);
    let v = c.value() as nat;
    assert(a.value() * w * v <= b.value() * w * v) by (nonlinear_arith)
        requires
            a.value() <= b.value(),
            w >= 0,
            v >= 0,
    ;
    lemma_nearest_ordered(a.value() * w, v, b.value() * w, v);
    lemma_nearest_side(a.value() * w, v);
    assert((a.value() >= 0 ==> a.value() * w >= 0) && (a.value() == 0 ==> a.value() * w == 0))
        by (nonlinear_arith)
        requires
            w >= 0,
    ;
}

/// At the full opacity of ten a layer shows what lies below as it is; at none it hides it.
pub proof fn lemma_fade_ends(opacity: Single, opa: Single)
    requires
        is_share(opacity),
    ensures
        faded(opacity, Single::ten()) == opacity,
        opa.magnitude() == 0 ==> faded(opacity, opa).magnitude() == 0,
{
    lemma_ratio_constants();
    lemma_ratio_order(Single::zero(), 0, Single::ten(), 10, 0);
    lemma_ratio_order(Single::zero(), 0, Single::one(), 1, 0);
    lemma_over_itself(Single::ten());
    lemma_times_one(opacity);
    if opa.magnitude() == 0 {
        lemma_nearest_self(opa);
        lemma_order_is_by_value(opa, opa);
        lemma_over_ordered(opa, opa, Single::ten());
        lemma_times_a_zero(opacity, opa.over(Single::ten()));
    }
}

/// What has faded is no clearer than before, and clearer where its own opacity is higher.
pub proof fn lemma_fade_is_ordered(opacity: Single, opa: Single, more: Single)
    requires
        is_share(opacity),
        Single::zero().le(opa),
        opa.le(more),
        more.le(Single::ten()),
    ensures
        is_share(faded(opacity, opa)),
        faded(opacity, opa).le(opacity),
        faded(opacity, opa).le(faded(opacity, more)),
{
    lemma_ratio_constants();
    let ten = Single::ten();
    let zero = Single::zero();
    lemma_ratio_order(zero, 0, ten, 10, 0);
    lemma_ratio_order(zero, 0, Single::one(), 1, 0);
    lemma_over_itself(ten);
    lemma_over_ordered(opa, more, ten);
    lemma_over_ordered(more, ten, ten);
    let a = opa.over(ten);
    let b = more.over(ten);
    assert(zero.le(a) && a.le(b) && b.le(Single::one()));
    lemma_times_share(opacity, a);
    lemma_times_share(opacity, b);
    lemma_times_ordered(a, b, opacity);
    lemma_times_side(a, opacity);
    lemma_times_side(b, opacity);
    lemma_times_one(opacity);
}

/// On whole numbers, with a texture whose sides are powers of two: the sprite is as large
/// as the icon at its resolution, shows the texture from the icon's left and top edge on
/// over that size, and without a mesh is drawn around the icon's origin.
pub proof fn lemma_sprite_shows_its_icon(
    textures: Map<Seq<char>, Texture>,
    texture_name: Seq<char>,
    icon_name: Seq<char>,
    motion_name: Seq<char>,
    base: Coord,
    ox: Single,
    oy: Single,
    visible: bool,
    opa: Single,
    ctx: Ctx,
    left: int,
    top: int,
    width: int,
    height: int,
    resolution: int,
    origin: (int, int),
    offset: (int, int),
    sides: (nat, nat),
)
    requires
        textures.dom().contains(texture_name),
        textures[texture_name].icons.dom().contains(icon_name),
        is_ratio(textures[texture_name].icons[icon_name].left, left, 0),
        is_ratio(textures[texture_name].icons[icon_name].top, top, 0),
        is_ratio(textures[texture_name].icons[icon_name].width, width, 0),
        is_ratio(textures[texture_name].icons[icon_name].height, height, 0),
        is_ratio(textures[texture_name].icons[icon_name].resolution, resolution, 0),
        is_ratio(textures[texture_name].icons[icon_name].origin_x, origin.0, 0),
        is_ratio(textures[texture_name].icons[icon_name].origin_y, origin.1, 0),
        is_ratio(ox, offset.0, 0),
        is_ratio(oy, offset.1, 0),
        sides.0 <= 24,
        sides.1 <= 24,
        textures[texture_name].width == pow2(sides.0),
        textures[texture_name].height == pow2(sides.1),
        fits(width * resolution),
        fits(height * resolution),
        fits(left),
        fits(top),
        fits(left + width * resolution),
        fits(top + height * resolution),
        fits(offset.0 - origin.0),
        fits(offset.1 - origin.1),
    ensures
        ({
            let r = sprite_of(
                textures,
                texture_name,
                icon_name,
                None,
                motion_name,
                base,
                ox,
                oy,
                visible,
                opa,
                ctx,
            );
            let s = r->0;
            &&& r is Some
            &&& is_ratio(s.width, width * resolution, 0)
            &&& is_ratio(s.height, height * resolution, 0)
            &&& is_ratio(s.uv_left, left, sides.0)
            &&& is_ratio(s.uv_right, left + width * resolution, sides.0)
            &&& is_ratio(s.uv_top, top, sides.1)
            &&& is_ratio(s.uv_bottom, top + height * resolution, sides.1)
            &&& ctx.mesh_transform == 0 ==> is_ratio(s.center_x, offset.0 - origin.0, 0)
                && is_ratio(s.center_y, offset.1 - origin.1, 0)
            &&& ctx.mesh_transform != 0 ==> is_ratio(s.center_x, offset.0, 0) && is_ratio(
                s.center_y,
                offset.1,
                0,
            )
            &&& s.z == base.z
            &&& s.visible == visible
        }),
{
    let t = textures[texture_name];
    let icon = t.icons[icon_name];
    lemma_ratio_times(icon.width, width, 0, icon.resolution, resolution, 0);
    lemma_ratio_times(icon.height, height, 0, icon.resolution, resolution, 0);
    let w = icon.width.times(icon.resolution);
    let h = icon.height.times(icon.resolution);
    lemma_ratio_plus(icon.left, left, w, width * resolution, 0);
    lemma_ratio_plus(icon.top, top, h, height * resolution, 0);
    lemma_ratio_minus(ox, offset.0, icon.origin_x, origin.0, 0);
    lemma_ratio_minus(oy, offset.1, icon.origin_y, origin.1, 0);
    lemma_side_is_whole(t.width, sides.0);
    lemma_side_is_whole(t.height, sides.1);
    let a = Single::spec_from_i64(t.width as i64);
    let b = Single::spec_from_i64(t.height as i64);
    lemma_ratio_over(icon.left, left, a, sides.0, 0);
    lemma_ratio_over(icon.left.plus(w), left + width * resolution, a, sides.0, 0);
    lemma_ratio_over(icon.top, top, b, sides.1, 0);
    lemma_ratio_over(icon.top.plus(h), top + height * resolution, b, sides.1, 0);
}

proof fn lemma_side_is_whole(n: u32, k: nat)
    requires
        k <= 24,
        n == pow2(k),
    ensures
        n <= 0x100_0000,
        is_ratio(Single::spec_from_i64(n as i64), pow2(k) as int, 0),
{
    lemma2_to64();
    lemma_pow2_le(k, 24);
    lemma_whole_is_exact(n as i64);
}

/// An icon that lies in its texture is shown from a part of it, left to right.
pub proof fn lemma_sprite_shows_a_part(
    textures: Map<Seq<char>, Texture>,
    texture_name: Seq<char>,
    icon_name: Seq<char>,
    motion_name: Seq<char>,
    base: Coord,
    ox: Single,
    oy: Single,
    visible: bool,
    opa: Single,
    ctx: Ctx,
)
    requires
        textures.dom().contains(texture_name),
        textures[texture_name].icons.dom().contains(icon_name),
        0 < textures[texture_name].width <= 0x100_0000,
        0 < textures[texture_name].height <= 0x100_0000,
        ({
            let t = textures[texture_name];
            let icon = t.icons[icon_name];
            let w = icon.width.times(icon.resolution);
            let h = icon.height.times(icon.resolution);
            &&& Single::zero().le(icon.left) && icon.left.is_finite()
            &&& Single::zero().le(icon.top) && icon.top.is_finite()
            &&& Single::zero().le(w) && w.is_finite()
            &&& Single::zero().le(h) && h.is_finite()
            &&& icon.left.plus(w).le(Single::spec_from_i64(t.width as i64))
            &&& icon.top.plus(h).le(Single::spec_from_i64(t.height as i64))
        }),
    ensures
        ({
            let s = sprite_of(
                textures,
                texture_name,
                icon_name,
                None,
                motion_name,
                base,
                ox,
                oy,
                visible,
                opa,
                ctx,
            )->0;
            &&& is_share(s.uv_left) && is_share(s.uv_right) && s.uv_left.le(s.uv_right)
            &&& is_share(s.uv_top) && is_share(s.uv_bottom) && s.uv_top.le(s.uv_bottom)
        }),
{
    let t = textures[texture_name];
    let icon = t.icons[icon_name];
    let w = icon.width.times(icon.resolution);
    let h = icon.height.times(icon.resolution);
    lemma_part(icon.left, w, t.width);
    lemma_part(icon.top, h, t.height);
}

proof fn lemma_part(from: Single, size: Single, n: u32)
    requires
        0 < n <= 0x100_0000,
        from.is_finite(),
        size.is_finite(),
        Single::zero().le(from),
        Single::zero().le(size),
        from.plus(size).le(Single::spec_from_i64(n as i64)),
    ensures
        ({
            let whole = Single::spec_from_i64(n as i64);
            &&& is_share(from.over(whole))
            &&& is_share(from.plus(size).over(whole))
            &&& from.over(whole).le(from.plus(size).over(whole))
        }),
{
    let whole = Single::spec_from_i64(n as i64);
    let zero = Single::zero();
    lemma_whole_is_exact(n as i64);
    lemma_ratio_constants();
    lemma_pow2_pos(149);
    assert(is_ratio(whole, n as int, 0));
    lemma_ratio_order(zero, 0, whole, n as int, 0);
    lemma_plus_ordered(zero, size, from);
    lemma_plus_a_zero(from, zero);
    let end = from.plus(size);
    assert(from.le(end));
    lemma_over_ordered(from, end, whole);
    lemma_over_ordered(end, whole, whole);
    lemma_over_itself(whole);
}

/// A range that is wide enough to stand in.
pub open spec fn is_range(begin: Single, end: Single) -> bool {
    begin.is_finite() && end.is_finite() && end.minus(begin).is_finite() && Single::epsilon().lt(
        end.minus(begin),
    )
}

proof fn lemma_range(begin: Single, end: Single)
    requires
        is_range(begin, end),
    ensures
        begin.lt(end),
        Single::zero().lt(end.minus(begin)),
        !end.minus(begin).abs().le(Single::epsilon()),
{
    let span = end.minus(begin);
    assert(Single::epsilon().is_finite());
    lemma_ratio_constants();
    lemma_nearest_self(Single::epsilon());
    assert(Single::zero().le(Single::epsilon()));
    lemma_order_is_by_value(Single::zero(), Single::epsilon());
    lemma_order_is_by_value(Single::epsilon(), span);
    lemma_order_is_by_value(Single::zero(), span);
    lemma_minus_sign(begin, end);
    lemma_nearest_self(span);
    assert(span.abs() == span);
}

/// Below a range a value stands at its start, above it at its end.
proof fn lemma_outside(value: Single, begin: Single, end: Single)
    requires
        is_range(begin, end),
        value.is_finite(),
        value.minus(begin).is_finite(),
    ensures
        value.le(begin) ==> gone(begin, end.minus(begin), value).magnitude() == 0,
        end.le(value) ==> gone(begin, end.minus(begin), value) == Single::one(),
{
    let span = end.minus(begin);
    let far = value.minus(begin);
    let zero = Single::zero();
    lemma_range(begin, end);
    lemma_ratio_constants();
    lemma_ratio_order(zero, 0, Single::one(), 1, 0);
    lemma_order_is_by_value(zero, zero);
    lemma_order_is_by_value(value, begin);
    lemma_order_is_by_value(end, value);
    lemma_order_is_by_value(begin, end);
    lemma_minus_sign(begin, value);
    lemma_order_is_by_value(far, zero);
    lemma_order_is_by_value(zero, far);
    if value.le(begin) {
        lemma_over_ordered(far, zero, span);
        lemma_over_ordered(zero, zero, span);
        let q = far.over(span);
        assert(q.le(zero));
        assert(gone(begin, span, value).magnitude() == 0);
    }
    if end.le(value) {
        lemma_plus_ordered(end, value, begin.neg());
        assert(span.le(far));
        lemma_over_ordered(span, far, span);
        lemma_over_itself(span);
        let q = far.over(span);
        assert(Single::one().le(q));
        assert(!q.lt(zero));
        if !Single::one().lt(q) {
            lemma_nearest_self(Single::one());
            assert(q == Single::one());
        }
    }
}

/// The time of a parameter starts at zero and ends at the last frame; outside its range it
/// stays there.
pub proof fn lemma_parameter_time_ends(value: Single, begin: Single, end: Single, latest: Single)
    requires
        is_range(begin, end),
        value.is_finite(),
        value.minus(begin).is_finite(),
        latest.is_finite(),
        Single::zero().lt(latest),
    ensures
        value.le(begin) ==> parameter_time(value, begin, end, latest).magnitude() == 0,
        end.le(value) ==> parameter_time(value, begin, end, latest) == latest,
{
    lemma_range(begin, end);
    lemma_outside(value, begin, end);
    lemma_order_is_by_value(Single::zero(), latest);
    lemma_order_is_by_value(latest, Single::zero());
    let t = gone(begin, end.minus(begin), value);
    lemma_times_one(latest);
    lemma_times_commutes(Single::one(), latest);
    if value.le(begin) {
        lemma_times_a_zero(latest, t);
    }
}

/// The time of a parameter never falls while the value rises, and stays among the frames.
pub proof fn lemma_parameter_time_rises(
    value: Single,
    higher: Single,
    begin: Single,
    end: Single,
    latest: Single,
)
    requires
        is_range(begin, end),
        begin.le(value),
        value.le(higher),
        higher.le(end),
        latest.is_finite(),
        Single::zero().lt(latest),
    ensures
        Single::zero().le(parameter_time(value, begin, end, latest)),
        parameter_time(value, begin, end, latest).le(parameter_time(higher, begin, end, latest)),
        parameter_time(higher, begin, end, latest).le(latest),
{
    lemma_range(begin, end);
    lemma_order_is_by_value(Single::zero(), latest);
    lemma_order_is_by_value(latest, Single::zero());
    lemma_gone(begin, end, value, higher);
    lemma_gone(begin, end, higher, higher);
    let span = end.minus(begin);
    let a = gone(begin, span, value);
    let b = gone(begin, span, higher);
    lemma_times_ordered(a, b, latest);
    lemma_times_side(a, latest);
    lemma_times_share(latest, b);
    lemma_times_commutes(latest, b);
}

proof fn lemma_whole_range(begin: Single, b: int, end: Single, e: int, value: Single, v: int, r: nat)
    requires
        is_ratio(begin, b, 0),
        is_ratio(end, e, 0),
        is_ratio(value, v, 0),
        e - b == pow2(r),
        r <= 24,
        b <= v <= e,
    ensures
        is_range(begin, end),
        is_ratio(gone(begin, end.minus(begin), value), v - b, r),
{
    lemma2_to64();
    lemma_pow2_pos(r);
    lemma_pow2_le(r, 24);
    lemma_ratio_minus(end, e, begin, b, 0);
    lemma_ratio_minus(value, v, begin, b, 0);
    let span = end.minus(begin);
    let far = value.minus(begin);
    lemma_ratio_over(far, v - b, span, r, 0);
    lemma_ratio_constants();
    let q = far.over(span);
    lemma_finer(Single::zero(), 0, 0, r);
    lemma_finer(Single::one(), 1, 0, r);
    assert(0 * pow2(r) == 0) by (nonlinear_arith);
    assert(1 * pow2(r) == pow2(r));
    lemma_ratio_order(q, v - b, Single::zero(), 0, r);
    lemma_ratio_order(Single::one(), pow2(r) as int, q, v - b, r);
    lemma_ratio_order(Single::one(), 1, span, pow2(r) as int, 0);
    assert(Single::epsilon().lt(Single::one()));
    assert(Single::epsilon().is_finite());
    lemma_order_is_by_value(Single::epsilon(), Single::one());
    lemma_order_is_by_value(Single::one(), span);
    lemma_order_is_by_value(Single::epsilon(), span);
}

/// In a range of a power of two, a whole value stands at exactly its share of the frames.
pub proof fn lemma_parameter_time_exact(
    value: Single,
    v: int,
    begin: Single,
    b: int,
    end: Single,
    e: int,
    latest: Single,
    l: int,
    r: nat,
)
    requires
        is_ratio(begin, b, 0),
        is_ratio(end, e, 0),
        is_ratio(value, v, 0),
        is_ratio(latest, l, 0),
        e - b == pow2(r),
        r <= 24,
        b <= v <= e,
        l > 0,
        fits((v - b) * l),
    ensures
        is_ratio(parameter_time(value, begin, end, latest), (v - b) * l, r),
{
    lemma_whole_range(begin, b, end, e, value, v, r);
    lemma_range(begin, end);
    lemma_ratio_constants();
    lemma_ratio_order(latest, l, Single::zero(), 0, 0);
    lemma_ratio_times(gone(begin, end.minus(begin), value), v - b, r, latest, l, 0);
}

/// In a range of a power of two, a whole value stands at exactly its share of the way from
/// the first mesh to the last.
pub proof fn lemma_mesh_position_exact(
    value: Single,
    v: int,
    begin: Single,
    b: int,
    end: Single,
    e: int,
    mesh_count: i64,
    r: nat,
)
    requires
        is_ratio(begin, b, 0),
        is_ratio(end, e, 0),
        is_ratio(value, v, 0),
        e - b == pow2(r),
        r <= 24,
        b <= v <= e,
        1 < mesh_count <= 0x100_0000,
        fits((v - b) * (mesh_count - 1)),
    ensures
        is_ratio(mesh_position(value, begin, end, mesh_count), (v - b) * (mesh_count - 1), r),
{
    lemma_whole_range(begin, b, end, e, value, v, r);
    lemma_range(begin, end);
    lemma_ratio_constants();
    lemma_whole_is_exact(mesh_count);
    let count = Single::spec_from_i64(mesh_count);
    assert(is_ratio(count, mesh_count as int, 0));
    lemma_ratio_minus(count, mesh_count as int, Single::one(), 1, 0);
    lemma_ratio_times(
        gone(begin, end.minus(begin), value),
        v - b,
        r,
        count.minus(Single::one()),
        mesh_count - 1,
        0,
    );
}

/// Below its range a value takes the first mesh, above it the last.
pub proof fn lemma_mesh_position_ends(value: Single, begin: Single, end: Single, mesh_count: i64)
    requires
        is_range(begin, end),
        value.is_finite(),
        value.minus(begin).is_finite(),
        1 < mesh_count <= 0x100_0000,
    ensures
        value.le(begin) ==> is_ratio(mesh_position(value, begin, end, mesh_count), 0, 0),
        end.le(value) ==> is_ratio(
            mesh_position(value, begin, end, mesh_count),
            mesh_count - 1,
            0,
        ),
{
    lemma_range(begin, end);
    lemma_outside(value, begin, end);
    lemma_ratio_constants();
    lemma_whole_is_exact(mesh_count);
    let count = Single::spec_from_i64(mesh_count);
    assert(is_ratio(count, mesh_count as int, 0));
    lemma_ratio_minus(count, mesh_count as int, Single::one(), 1, 0);
    let last = count.minus(Single::one());
    let t = gone(begin, end.minus(begin), value);
    lemma_times_one(last);
    lemma_times_commutes(Single::one(), last);
    if value.le(begin) {
        lemma_times_a_zero(last, t);
        lemma_nearest_self(mesh_position(value, begin, end, mesh_count));
    }
}

/// A variable that is not set stands at zero where its range holds it, and else halfway.
pub proof fn lemma_unset_variable(
    variables: Map<Seq<char>, Single>,
    key: Seq<char>,
    begin: Single,
    b: int,
    end: Single,
    e: int,
)
    requires
        !variables.dom().contains(key),
        is_ratio(begin, b, 0),
        is_ratio(end, e, 0),
        fits(b + e),
    ensures
        is_ratio(
            variable_in_range(variables, key, begin, end),
            if b <= 0 <= e {
                0
            } else {
                b + e
            },
            1,
        ),
{
    lemma_ratio_constants();
    lemma_ratio_order(begin, b, Single::zero(), 0, 0);
    lemma_ratio_order(Single::zero(), 0, end, e, 0);
    lemma_ratio_plus(begin, b, end, e, 0);
    lemma_ratio_times(begin.plus(end), b + e, 0, Single::half(), 1, 1);
    lemma_finer(Single::zero(), 0, 0, 1);
    assert(0 * pow2(1) == 0) by (nonlinear_arith);
}

/// On whole numbers the size of bounds is how far their edges are apart, and their center
/// is halfway.
pub proof fn lemma_bounds_exact(bounds: EmoteSceneBounds, x: int, y: int, right: int, bottom: int)
    requires
        is_ratio(bounds.min_x, x, 0),
        is_ratio(bounds.min_y, y, 0),
        is_ratio(bounds.max_x, right, 0),
        is_ratio(bounds.max_y, bottom, 0),
        fits(right - x),
        fits(bottom - y),
        fits(x + right),
        fits(y + bottom),
    ensures
        is_ratio(bounds.width(), right - x, 0),
        is_ratio(bounds.height(), bottom - y, 0),
        is_ratio(bounds.center().x, x + right, 1),
        is_ratio(bounds.center().y, y + bottom, 1),
{
    lemma_ratio_constants();
    lemma_ratio_minus(bounds.max_x, right, bounds.min_x, x, 0);
    lemma_ratio_minus(bounds.max_y, bottom, bounds.min_y, y, 0);
    lemma_ratio_plus(bounds.min_x, x, bounds.max_x, right, 0);
    lemma_ratio_plus(bounds.min_y, y, bounds.max_y, bottom, 0);
    lemma_ratio_times(bounds.min_x.plus(bounds.max_x), x + right, 0, Single::half(), 1, 1);
    lemma_ratio_times(bounds.min_y.plus(bounds.max_y), y + bottom, 0, Single::half(), 1, 1);
}

/// Nine tenths, as the number that stands for them.
proof fn lemma_nine_tenths()
    ensures
        is_ratio(filled_share(), 7549747, 23),
{
    lemma2_to64();
    lemma_pow2_adds(1, 125);
    let bits = 0x3f66_6666nat;
    assert(bits / 0x80_0000 == 126 && bits % 0x80_0000 == 0x66_6666);
    assert(magnitude_units(bits) == (0x80_0000 + 0x66_6666) * pow2(125));
    assert(15099494 * pow2(125) == 7549747 * pow2(126));
}

/// A side of a viewport against a side of a scene, both powers of two.
proof fn lemma_fit(w: Single, a: nat, size: Single, p: nat)
    requires
        a <= p <= 24,
        is_ratio(w, pow2(a) as int, 0),
        is_ratio(size, pow2(p) as int, 0),
    ensures
        size.max(Single::one()) == size,
        is_ratio(w.over(size), 1, (p - a) as nat),
{
    lemma2_to64();
    lemma_pow2_pos(p);
    lemma_pow2_le(a, 24);
    lemma_ratio_constants();
    lemma_ratio_order(size, pow2(p) as int, Single::one(), 1, 0);
    lemma_ratio_over(w, pow2(a) as int, size, p, 0);
    lemma_pow2_adds(a, (149 - p) as nat);
}

/// A scene of powers of two that is no smaller than the viewport fills nine tenths of the
/// direction in which it is the larger, as much in the other direction as it keeps its
/// shape with, and stands in the middle.
pub proof fn lemma_viewport_fits(
    bounds: EmoteSceneBounds,
    width: u32,
    height: u32,
    a: nat,
    b: nat,
    p: nat,
    q: nat,
    x: int,
    y: int,
)
    requires
        a <= p <= 24,
        b <= q <= 24,
        width == pow2(a),
        height == pow2(b),
        is_ratio(bounds.min_x, x, 0),
        is_ratio(bounds.min_y, y, 0),
        is_ratio(bounds.max_x, x + pow2(p), 0),
        is_ratio(bounds.max_y, y + pow2(q), 0),
        fits(2 * x + pow2(p)),
        fits(2 * y + pow2(q)),
    ensures
        ({
            let r = fitted(bounds, width, height);
            let smaller = if p - a >= q - b {
                (p - a) as nat
            } else {
                (q - b) as nat
            };
            &&& is_ratio(r.scale.x, 15099494, 23 + a + smaller)
            &&& is_ratio(r.scale.y, 15099494, 23 + b + smaller)
            &&& is_ratio(r.center.x, 2 * x + pow2(p), 1)
            &&& is_ratio(r.center.y, 2 * y + pow2(q), 1)
        }),
{
    lemma2_to64();
    lemma_pow2_pos(a);
    lemma_pow2_pos(b);
    lemma_pow2_le(p, 24);
    lemma_pow2_le(q, 24);
    lemma_ratio_constants();
    lemma_nine_tenths();
    lemma_bounds_exact(bounds, x, y, x + pow2(p), y + pow2(q));
    lemma_side_is_whole(width, a);
    lemma_side_is_whole(height, b);
    let w = side(width);
    let h = side(height);
    lemma_fit(w, a, bounds.width(), p);
    lemma_fit(h, b, bounds.height(), q);
    let across = w.over(bounds.width());
    let down = h.over(bounds.height());
    let c = (p - a) as nat;
    let d = (q - b) as nat;
    lemma_finer(across, 1, c, d);
    lemma_finer(down, 1, d, c);
    lemma_ratio_order(down, pow2(c) as int, across, pow2(d) as int, c + d);
    let smaller = if c >= d {
        c
    } else {
        d
    };
    if c >= d {
        lemma_pow2_le(d, c);
        if !(d < c) {
            assert(is_ratio(across.min(down), 1, smaller));
        }
    } else {
        lemma_pow2_strictly_increases(c, d);
    }
    let least = across.min(down);
    assert(is_ratio(least, 1, smaller));
    lemma_ratio_times(filled_share(), 7549747, 23, least, 1, smaller);
    let fit = filled_share().times(least);
    lemma_ratio_times(fit, 7549747, 23 + smaller, Single::two(), 2, 0);
    let twice = fit.times(Single::two());
    let s = 23 + smaller;
    lemma_finer(w, pow2(a) as int, 0, s);
    lemma_finer(h, pow2(b) as int, 0, s);
    lemma_pow2_adds(a, s);
    lemma_pow2_adds(b, s);
    lemma_ratio_over(twice, 15099494, w, a + s, s);
    lemma_ratio_over(twice, 15099494, h, b + s, s);
}

/// On whole numbers a place is moved by as much as the move says, in every direction.
pub proof fn lemma_place_moves(base: Coord, b: (int, int, int), delta: Coord, d: (int, int, int))
    requires
        is_ratio(base.x, b.0, 0),
        is_ratio(base.y, b.1, 0),
        is_ratio(base.z, b.2, 0),
        is_ratio(delta.x, d.0, 0),
        is_ratio(delta.y, d.1, 0),
        is_ratio(delta.z, d.2, 0),
        fits(b.0 + d.0),
        fits(b.1 + d.1),
        fits(b.2 + d.2),
    ensures
        is_ratio(moved(Some(base), delta).x, b.0 + d.0, 0),
        is_ratio(moved(Some(base), delta).y, b.1 + d.1, 0),
        is_ratio(moved(Some(base), delta).z, b.2 + d.2, 0),
        moved(None, delta) == delta,
{
    lemma_ratio_plus(base.x, b.0, delta.x, d.0, 0);
    lemma_ratio_plus(base.y, b.1, delta.y, d.1, 0);
    lemma_ratio_plus(base.z, b.2, delta.z, d.2, 0);
}

/// A layer adds one step to those of the layers above, and that step goes as far as the
/// layer's place does.
pub proof fn lemma_step_goes_with_the_place(ctx: Ctx, state: FrameState, b: (int, int), d: (int, int))
    requires
        ctx.base_location is Some,
        state.coord is Some,
        is_ratio(ctx.base_location->0.x, b.0, 0),
        is_ratio(ctx.base_location->0.y, b.1, 0),
        is_ratio(state.coord->0.x, d.0, 0),
        is_ratio(state.coord->0.y, d.1, 0),
        fits(b.0 + d.0),
        fits(b.1 + d.1),
    ensures
        ({
            let r = ctx.placed(state);
            let step = r.transform.last();
            &&& r.transform.len() == ctx.transform.len() + 1
            &&& r.transform.drop_last() == ctx.transform
            &&& step is Layer
            &&& is_ratio(step->Layer_x, d.0, 0)
            &&& is_ratio(step->Layer_y, d.1, 0)
            &&& is_ratio(r.base_location->0.x, b.0 + d.0, 0)
            &&& is_ratio(r.base_location->0.y, b.1 + d.1, 0)
            &&& r.opacity_multiplier == ctx.opacity_multiplier
        }),
{
    let base = ctx.base_location->0;
    let delta = state.coord->0;
    lemma_ratio_plus(base.x, b.0, delta.x, d.0, 0);
    lemma_ratio_plus(base.y, b.1, delta.y, d.1, 0);
    assert(ctx.placed(state).transform.drop_last() =~= ctx.transform);
}

/// What stands on a hidden layer is hidden, and so is what stands on one that has faded
/// away; all else is shown.
pub proof fn lemma_hidden_layers_show_nothing(
    world: StepWorld,
    motion_name: Seq<char>,
    time: Single,
    layer: PsbValue,
    pose: Posed,
)
    ensures
        ({
            let shown = pose.draw.base_visible && Single::zero().lt(
                pose.draw.opacity_multiplier,
            );
            match step_task(world, motion_name, time, layer, pose) {
                StepTask::Skip => true,
                StepTask::Enter { object, motion, ctx, time } => ctx.base_visible == shown,
                StepTask::Draw { sprite } => match sprite {
                    Some(s) => s.visible == shown,
                    None => true,
                },
            }
        }),
{
    reveal(step_task);
}

/// A motion is entered where the layer that leads to it stands, as faded as that layer,
/// and on whole numbers at the time moved on by the layer's offset.
pub proof fn lemma_motions_are_entered(
    world: StepWorld,
    motion_name: Seq<char>,
    time: Single,
    n: int,
    layer: PsbValue,
    pose: Posed,
    offset: int,
)
    requires
        is_ratio(time, n, 0),
        is_ratio(pose.state.time_offset_ticks, offset, 0),
        fits(n + offset),
    ensures
        match step_task(world, motion_name, time, layer, pose) {
            StepTask::Enter { object, motion, ctx, time } => {
                &&& ctx.transform == pose.child.transform
                &&& ctx.base_location == pose.child.base_location
                &&& ctx.opacity_multiplier == pose.child.opacity_multiplier
                &&& is_ratio(time, n + offset, 0)
            },
            _ => true,
        },
{
    reveal(step_task);
    lemma_ratio_plus(time, n, pose.state.time_offset_ticks, offset, 0);
}

/// A sprite that a layer draws is as clear as the layer, and deep as the layer stands.
pub proof fn lemma_sprites_are_as_clear_as_their_layer(
    world: StepWorld,
    motion_name: Seq<char>,
    time: Single,
    layer: PsbValue,
    pose: Posed,
)
    requires
        is_share(pose.draw.opacity_multiplier),
        pose.draw.base_location is Some,
    ensures
        match step_task(world, motion_name, time, layer, pose) {
            StepTask::Draw { sprite } => match sprite {
                Some(s) => {
                    &&& s.opacity == pose.draw.opacity_multiplier
                    &&& s.world_transform == pose.draw.transform
                    &&& s.z == pose.draw.base_location->0.z
                    &&& s.mesh == pose.draw.mesh_patch
                },
                None => true,
            },
            _ => true,
        },
{
    reveal(step_task);
    lemma_fade_ends(pose.draw.opacity_multiplier, Single::zero());
}

/// Of the frames of a layer only the ones at the start are shown, and only where the layer
/// is shown and they are not faded away.
pub proof fn lemma_later_frames_are_hidden(
    world: StaticWorld,
    motion_name: Seq<char>,
    ctx: Ctx,
    label: Option<Seq<char>>,
    ox: Single,
    oy: Single,
    frame: PsbValue,
)
    requires
        !ctx.base_visible || frame.field_i64("time").unwrap_or(0) > 0 || (frame.field("content")
            is Some && frame.field("content")->0.field_single("opa") == Some(Single::zero())),
    ensures
        match frame_task(world, motion_name, ctx, label, ox, oy, frame) {
            FrameTask::Skip => true,
            FrameTask::Enter { object, motion, ctx } => !ctx.base_visible,
            FrameTask::Draw { sprite } => match sprite {
                Some(s) => !s.visible,
                None => true,
            },
        },
{
}

/// A place that a layer names moves its step and its location alike.
pub proof fn lemma_located_moves(
    ctx: Ctx,
    frames: Seq<PsbValue>,
    content: PsbValue,
    delta: Coord,
    b: (int, int),
    d: (int, int),
)
    requires
        first_content_with(frames, "coord"@) == Some(content),
        spec_content_coord(content) == Some(delta),
        ctx.base_location is Some,
        is_ratio(ctx.base_location->0.x, b.0, 0),
        is_ratio(ctx.base_location->0.y, b.1, 0),
        is_ratio(delta.x, d.0, 0),
        is_ratio(delta.y, d.1, 0),
        fits(b.0 + d.0),
        fits(b.1 + d.1),
    ensures
        ({
            let r = located(ctx, frames).0;
            let step = r.transform.last();
            &&& r.transform.len() == ctx.transform.len() + 1
            &&& r.transform.drop_last() == ctx.transform
            &&& step is Translate
            &&& is_ratio(step->Translate_x, d.0, 0)
            &&& is_ratio(step->Translate_y, d.1, 0)
            &&& is_ratio(r.base_location->0.x, b.0 + d.0, 0)
            &&& is_ratio(r.base_location->0.y, b.1 + d.1, 0)
        }),
{
    let base = ctx.base_location->0;
    lemma_ratio_plus(base.x, b.0, delta.x, d.0, 0);
    lemma_ratio_plus(base.y, b.1, delta.y, d.1, 0);
    assert(located(ctx, frames).0.transform.drop_last() =~= ctx.transform);
}

/// What hangs on a layer is drawn to where the layer puts its own origin; what hangs on a
/// sprite, to where the sprite's center comes to stand.
pub proof fn lemma_anchor_stands_where_it_hangs(
    scene: Scene,
    pose: BasePose,
    world: EmoteTransform2D,
)
    requires
        world.m11.is_finite(),
        world.m12.is_finite(),
        world.m21.is_finite(),
        world.m22.is_finite(),
        world.tx.is_finite(),
        world.ty.is_finite(),
    ensures
        match pose {
            BasePose::Nowhere => spec_anchor(scene, pose, world) == Coord::origin(),
            BasePose::Layer(_) => {
                let p = world.apply(Point { x: Single::zero(), y: Single::zero() });
                let r = spec_anchor(scene, pose, world);
                p.x.same(r.x) && p.y.same(r.y)
            },
            BasePose::Sprite(n) => {
                let sprite = scene.sprites[n as int];
                let p = world.apply(Point { x: sprite.center_x, y: sprite.center_y });
                let r = spec_anchor(scene, pose, world);
                p.x == r.x && p.y == r.y
            },
        },
{
    let zero = Single::zero();
    lemma_origin_stays(world.m11, world.m12, world.tx);
    lemma_origin_stays(world.m21, world.m22, world.ty);
}

proof fn lemma_origin_stays(a: Single, b: Single, t: Single)
    requires
        a.is_finite(),
        b.is_finite(),
        t.is_finite(),
    ensures
        a.times(Single::zero()).plus(b.times(Single::zero())).plus(t).same(t),
{
    let zero = Single::zero();
    lemma_times_a_zero(a, zero);
    lemma_times_a_zero(b, zero);
    let x = a.times(zero);
    let y = b.times(zero);
    lemma_plus_a_zero(x, y);
    let z = x.plus(y);
    assert(z.magnitude() == 0);
    lemma_plus_a_zero(t, z);
    lemma_plus_commutes(t, z);
}

/// A motion takes over the shape of the layer that leads to it where the layer hands it
/// down anyway, or where the two share at least four parameters; nothing else of the layer
/// is held back.
pub proof fn lemma_shape_is_handed_down(
    table: PsbValue,
    layer: PsbValue,
    object: Seq<char>,
    motion: Seq<char>,
    ctx: Ctx,
    ids: Set<Seq<char>>,
)
    requires
        motion_parameters(table, object, motion) == Some(ids),
    ensures
        ({
            let r = inherited(table, layer, object, motion, ctx);
            let free = layer.field_i64("motionIndependentLayerInherit") == Some(0i64);
            let common = ids.intersect(ctx.mesh_parameters).len();
            &&& !free || common > 3 ==> r.mesh_patch == ctx.mesh_patch && r.mesh_parameters
                == ctx.mesh_parameters
            &&& free && common < 4 ==> r.mesh_patch is None && r.mesh_parameters.len() == 0
            &&& r.transform == ctx.transform && r.opacity_multiplier == ctx.opacity_multiplier
                && r.base_location == ctx.base_location && r.path == ctx.path
        }),
{
}

/// The patch of a frame is divided at least as finely as the layer and as the frame say.
pub proof fn lemma_finer_division_counts(entered: Ctx, state: FrameState)
    requires
        state.mesh_patch is Some,
    ensures
        ({
            let r = frame_patch(entered, state);
            let p = state.mesh_patch->0;
            &&& r is Some
            &&& r->0.division_x >= entered.mesh_division_x && r->0.division_x >= p.division_x
            &&& r->0.division_y >= entered.mesh_division_y && r->0.division_y >= p.division_y
            &&& r->0.division_x == entered.mesh_division_x || r->0.division_x == p.division_x
            &&& r->0.division_y == entered.mesh_division_y || r->0.division_y == p.division_y
            &&& r->0.points == p.points
        }),
{
}

/// A layer that does not share its shape leaves its children as they are; one that does
/// hands them the mark of its parameter.
pub proof fn lemma_children_take_the_shape(
    world: StepWorld,
    params: Option<&Vec<PsbValue>>,
    entered: Ctx,
    layer: PsbValue,
)
    ensures
        ({
            let (draw, child) = combined_contexts(world, params, entered, layer);
            &&& (entered.mesh_sync_child / 8) % 2 == 0 && entered.mesh_sync_child >= 0
                ==> child.mesh_patch == entered.mesh_patch && child.mesh_parameters
                == entered.mesh_parameters
            &&& child.transform == entered.transform && draw.transform == entered.transform
            &&& draw.parent_mask_path == entered.parent_mask_path
            &&& entered.mesh_parameters.subset_of(child.mesh_parameters)
        }),
{
    reveal(combined_contexts);
    let n = entered.mesh_sync_child;
    if (n / 8) % 2 == 0 && n >= 0 {
        assert((n & 8) == 0) by (bit_vector)
            requires
                n >= 0,
                (n / 8) % 2 == 0,
        ;
    }
}

/// The path of a layer is the path of the layer above, then its own label.
pub proof fn lemma_path_goes_down(ctx: Ctx, layer: PsbValue, sibling_index: usize)
    ensures
        ({
            let r = ctx.entered(layer, sibling_index);
            let label = layer_name(layer, sibling_index);
            &&& r.path.len() == ctx.path.len() + label.len() + (if ctx.path.len() == 0 {
                0int
            } else {
                1
            })
            &&& r.path.take(ctx.path.len() as int) == ctx.path
            &&& r.path.skip(r.path.len() - label.len()) == label
            &&& ctx.path.len() > 0 ==> r.path[ctx.path.len() as int] == '/'
            &&& r.transform == ctx.transform && r.opacity_multiplier == ctx.opacity_multiplier
                && r.base_visible == ctx.base_visible && r.mesh_patch == ctx.mesh_patch
        }),
{
    reveal_strlit("/");
    let r = ctx.entered(layer, sibling_index);
    let label = layer_name(layer, sibling_index);
    assert(r.path.take(ctx.path.len() as int) =~= ctx.path);
    assert(r.path.skip(r.path.len() - label.len()) =~= label);
}

/// A layer is drawn at its rank where the motion gives it one, else at its turn, counted
/// from where its motion starts.
pub proof fn lemma_layers_are_drawn_by_rank(ctx: Ctx, layer: PsbValue, sibling_index: usize)
    requires
        ctx.draw_order_base + sibling_index <= usize::MAX,
        ctx.priority_ranks.dom().contains(layer_name(layer, sibling_index)) ==> ctx.draw_order_base
            + ctx.priority_ranks[layer_name(layer, sibling_index)] <= usize::MAX,
    ensures
        ({
            let r = ctx.entered(layer, sibling_index);
            let label = layer_name(layer, sibling_index);
            r.draw_index - ctx.draw_order_base == (if ctx.priority_ranks.dom().contains(label) {
                ctx.priority_ranks[label]
            } else {
                sibling_index
            })
        }),
{
}

/// A path of an object and a motion names the two, in that order.
pub proof fn lemma_motion_path(object: Seq<char>, motion: Seq<char>)
    requires
        object.len() > 0,
        motion.len() > 0,
        !object.contains('/'),
        !motion.contains('/'),
    ensures
        motion_target(object + seq!['/'] + motion) == Some((object, motion)),
{
    let parts = seq![object, motion];
    assert(parts.drop_last() =~= seq![object]);
    assert(seq![object].drop_last() =~= Seq::<Seq<char>>::empty());
    reveal_with_fuel(joined, 3);
    reveal_with_fuel(filled, 3);
    assert(joined(parts, seq!['/']) =~= object + seq!['/'] + motion);
    lemma_pieces_of_joined(parts, '/');
    assert(filled(parts) =~= parts);
}

/// A layer that shows `motion/` with the path of a motion leads to that motion of that
/// object.
pub proof fn lemma_layer_leads_to_its_motion(
    world: StepWorld,
    motion_name: Seq<char>,
    time: Single,
    layer: PsbValue,
    pose: Posed,
    target: (Seq<char>, Seq<char>),
)
    requires
        target.0.len() > 0,
        target.1.len() > 0,
        !target.0.contains('/'),
        !target.1.contains('/'),
        pose.state.src == Some("motion/"@ + (target.0 + seq!['/'] + target.1)),
    ensures
        match step_task(world, motion_name, time, layer, pose) {
            StepTask::Enter { object, motion, ctx, time } => object == target.0 && motion
                == target.1,
            _ => false,
        },
{
    reveal(step_task);
    lemma_motion_path(target.0, target.1);
    let path = target.0 + seq!['/'] + target.1;
    let src = "motion/"@ + path;
    assert("motion/"@.is_prefix_of(src));
    assert(src.skip("motion/"@.len() as int) =~= path);
}

} // verus!
