//! Laws of what changes in time: the tracks of timelines and the frame lists of layers.

use crate::curve::{eased, lerp, unit_clamp};
use crate::curve_laws::{
    differ_exactly, gone, is_share, lemma_eased_ends, lemma_eased_exact, lemma_eased_share,
    lemma_gone, lemma_lerp_between, lemma_lerp_ends, lemma_lerp_even, lemma_lerp_ordered,
    lemma_lerp_rests, lemma_lerp_starts, lies_between,
};
use crate::dyadic::{
    fits, is_ratio, lemma_finer, lemma_ratio_constants, lemma_ratio_minus, lemma_ratio_order,
    lemma_ratio_over,
};
use crate::exact::lemma_order_is_by_value;
use crate::frames::{
    angle_at, frame_angle, frame_list_at, leading, slot_after, spec_content_rotation,
    spec_content_scale_x, spec_content_scale_y, spec_frame_time, Coord, FrameState,
};
use crate::monotone::{lemma_minus_sign, lemma_nearest_self};
use crate::rounding::lemma_pow2_le;
use crate::single::{magnitude_units, Single};
use crate::timelines::{passed, track_value, EmoteTimelineFrame};
use crate::value::PsbValue;
use vstd::arithmetic::power2::{lemma2_to64, lemma_pow2_adds, lemma_pow2_pos, pow2};
use vstd::prelude::*;

verus! {

/// Whether the times of a track never fall.
pub open spec fn ascends(frames: Seq<EmoteTimelineFrame>) -> bool {
    forall|i: int, j: int|
        0 <= i < j < frames.len() ==> (#[trigger] frames[i]).time_ticks.le(
            (#[trigger] frames[j]).time_ticks,
        )
}

/// Whether a time lies behind a frame of a track, and not behind the next one.
pub open spec fn is_after(frames: Seq<EmoteTimelineFrame>, i: int, time: Single) -> bool {
    &&& 0 <= i
    &&& i + 1 < frames.len()
    &&& frames[i].time_ticks.lt(time)
    &&& time.le(frames[i + 1].time_ticks)
}

proof fn lemma_passed_is(frames: Seq<EmoteTimelineFrame>, time: Single, n: int)
    requires
        0 <= n <= frames.len(),
        forall|k: int| 0 <= k < n ==> !time.le((#[trigger] frames[k]).time_ticks),
        n < frames.len() ==> time.le(frames[n].time_ticks),
    ensures
        passed(frames, time) == n,
    decreases n,
{
    if n > 0 {
        let rest = frames.drop_first();
        assert forall|k: int| 0 <= k < n - 1 implies !time.le((#[trigger] rest[k]).time_ticks) by {
            assert(rest[k] == frames[k + 1]);
        }
        lemma_passed_is(rest, time, n - 1);
    }
}

proof fn lemma_passed_after(frames: Seq<EmoteTimelineFrame>, i: int, time: Single)
    requires
        ascends(frames),
        is_after(frames, i, time),
    ensures
        passed(frames, time) == i + 1,
{
    assert forall|k: int| 0 <= k < i + 1 implies !time.le((#[trigger] frames[k]).time_ticks) by {
        if k < i {
            assert(frames[k].time_ticks.le(frames[i].time_ticks));
        }
    }
    lemma_passed_is(frames, time, i + 1);
}

/// Between two neighbouring frames the value of a track follows from these two alone: two
/// tracks that share both frames, wherever they stand in them, have one value there.
/// Of the earlier frame, the easing does not count.
pub proof fn lemma_track_is_local(
    a: Seq<EmoteTimelineFrame>,
    i: int,
    b: Seq<EmoteTimelineFrame>,
    j: int,
    time: Single,
)
    requires
        ascends(a),
        ascends(b),
        is_after(a, i, time),
        0 <= j,
        j + 1 < b.len(),
        a[i].time_ticks == b[j].time_ticks,
        a[i].value == b[j].value,
        a[i + 1] == b[j + 1],
    ensures
        track_value(a, time) == track_value(b, time),
{
    lemma_passed_after(a, i, time);
    lemma_passed_after(b, j, time);
}

/// Up to its first frame a track has the value of the first frame, behind its last frame
/// that of the last.
pub proof fn lemma_track_rests_outside(frames: Seq<EmoteTimelineFrame>, time: Single)
    requires
        frames.len() > 0,
        ascends(frames),
    ensures
        time.le(frames[0].time_ticks) ==> track_value(frames, time) == frames[0].value,
        frames.last().time_ticks.lt(time) ==> track_value(frames, time) == frames.last().value,
{
    if time.le(frames[0].time_ticks) {
        lemma_passed_is(frames, time, 0);
    } else if frames.last().time_ticks.lt(time) {
        let n = frames.len() as int;
        assert forall|k: int| 0 <= k < n implies !time.le((#[trigger] frames[k]).time_ticks) by {
            if k < n - 1 {
                assert(frames[k].time_ticks.le(frames[n - 1].time_ticks));
            }
        }
        lemma_passed_is(frames, time, n);
    }
}

/// Whether two neighbouring frames are finite and lie a while apart.
pub open spec fn apart(prev: EmoteTimelineFrame, next: EmoteTimelineFrame) -> bool {
    &&& prev.time_ticks.is_finite()
    &&& next.time_ticks.is_finite()
    &&& prev.time_ticks.lt(next.time_ticks)
    &&& next.time_ticks.minus(prev.time_ticks).is_finite()
    &&& prev.value.is_finite()
    &&& next.value.is_finite()
}

/// A track that rests between two frames has their value there.
pub proof fn lemma_track_rests(frames: Seq<EmoteTimelineFrame>, i: int, time: Single)
    requires
        ascends(frames),
        is_after(frames, i, time),
        apart(frames[i], frames[i + 1]),
        frames[i].value.same(frames[i + 1].value),
    ensures
        track_value(frames, time).same(frames[i].value),
{
    lemma_passed_after(frames, i, time);
    let prev = frames[i];
    let next = frames[i + 1];
    let span = next.time_ticks.minus(prev.time_ticks);
    lemma_minus_sign(prev.time_ticks, next.time_ticks);
    lemma_gone(prev.time_ticks, next.time_ticks, time, time);
    let t = gone(prev.time_ticks, span, time);
    lemma_eased_share(t, next.easing);
    lemma_lerp_rests(prev.value, next.value, eased(t, next.easing));
}

/// At the time of a frame a track has the value of the frame.
pub proof fn lemma_track_meets_its_frames(frames: Seq<EmoteTimelineFrame>, i: int)
    requires
        ascends(frames),
        0 <= i,
        i + 1 < frames.len(),
        apart(frames[i], frames[i + 1]),
        differ_exactly(frames[i].value, frames[i + 1].value),
    ensures
        track_value(frames, frames[i + 1].time_ticks).same(frames[i + 1].value),
{
    let prev = frames[i];
    let next = frames[i + 1];
    let time = next.time_ticks;
    lemma_passed_after(frames, i, time);
    lemma_minus_sign(prev.time_ticks, next.time_ticks);
    lemma_gone(prev.time_ticks, next.time_ticks, time, time);
    lemma_eased_ends(next.easing);
    let e = eased(Single::one(), next.easing);
    assert(e == Single::one()) by {
        assert(e.rank() == Single::one().rank());
    }
    lemma_lerp_ends(prev.value, next.value);
}

/// Whether the way to a frame is an even one, or one that slows down.
pub open spec fn is_not_smooth(frame: EmoteTimelineFrame) -> bool {
    !Single::zero().lt(frame.easing)
}

/// Between two frames the value of a track lies between theirs.
pub proof fn lemma_track_stays_between(frames: Seq<EmoteTimelineFrame>, i: int, time: Single)
    requires
        ascends(frames),
        is_after(frames, i, time),
        apart(frames[i], frames[i + 1]),
        differ_exactly(frames[i].value, frames[i + 1].value),
        is_not_smooth(frames[i + 1]),
    ensures
        lies_between(track_value(frames, time), frames[i].value, frames[i + 1].value),
{
    lemma_passed_after(frames, i, time);
    let prev = frames[i];
    let next = frames[i + 1];
    let span = next.time_ticks.minus(prev.time_ticks);
    lemma_minus_sign(prev.time_ticks, next.time_ticks);
    lemma_gone(prev.time_ticks, next.time_ticks, time, time);
    let t = gone(prev.time_ticks, span, time);
    lemma_eased_share(t, next.easing);
    lemma_lerp_between(prev.value, next.value, eased(t, next.easing));
    lemma_order_is_by_value(prev.value, next.value);
    lemma_order_is_by_value(next.value, prev.value);
}

/// Between two frames without easing a track only rises, or only falls.
pub proof fn lemma_track_goes_one_way(
    frames: Seq<EmoteTimelineFrame>,
    i: int,
    time: Single,
    later: Single,
)
    requires
        ascends(frames),
        is_after(frames, i, time),
        is_after(frames, i, later),
        time.le(later),
        apart(frames[i], frames[i + 1]),
        frames[i + 1].value.minus(frames[i].value).is_finite(),
        frames[i + 1].easing.same(Single::zero()),
    ensures
        frames[i].value.le(frames[i + 1].value) ==> track_value(frames, time).le(
            track_value(frames, later),
        ),
        frames[i + 1].value.le(frames[i].value) ==> track_value(frames, later).le(
            track_value(frames, time),
        ),
{
    lemma_passed_after(frames, i, time);
    lemma_passed_after(frames, i, later);
    let prev = frames[i];
    let next = frames[i + 1];
    let span = next.time_ticks.minus(prev.time_ticks);
    lemma_minus_sign(prev.time_ticks, next.time_ticks);
    lemma_gone(prev.time_ticks, next.time_ticks, time, later);
    lemma_gone(prev.time_ticks, next.time_ticks, later, later);
    lemma_lerp_ordered(
        prev.value,
        next.value,
        gone(prev.time_ticks, span, time),
        gone(prev.time_ticks, span, later),
    );
}

/// The share `k` over two to the power `r` of the way from one value to another, after
/// easing, as a whole number over a power of two: even, smooth or slowing down.
pub open spec fn way(n: int, m: int, k: int, r: nat, easing: Single) -> (int, nat) {
    let w = pow2(r) as int;
    if !easing.is_finite() || easing.same(Single::zero()) {
        (n * w + (m - n) * k, r)
    } else if Single::zero().lt(easing) {
        (n * (w * w * w) + (m - n) * (3 * (k * k) * w - 2 * (k * k * k)), 3 * r)
    } else {
        (n * (w * w) + (m - n) * (2 * k * w - k * k), 2 * r)
    }
}

/// The way to a frame is eased as the frame says. Exactly so for whole values, and times
/// that part the way in a power of two, as long as the digits fit.
pub proof fn lemma_track_eases(
    frames: Seq<EmoteTimelineFrame>,
    i: int,
    time: Single,
    from: int,
    k: int,
    r: nat,
    n: int,
    m: int,
)
    requires
        ascends(frames),
        is_after(frames, i, time),
        r <= 5,
        0 <= from <= 0x10_0000,
        0 < k <= pow2(r),
        -100 <= n <= 100,
        -100 <= m <= 100,
        is_ratio(frames[i].time_ticks, from, 0),
        is_ratio(frames[i + 1].time_ticks, from + pow2(r), 0),
        is_ratio(time, from + k, 0),
        is_ratio(frames[i].value, n, 0),
        is_ratio(frames[i + 1].value, m, 0),
    ensures
        ({
            let (c, s) = way(n, m, k, r, frames[i + 1].easing);
            is_ratio(track_value(frames, time), c, s)
        }),
{
    lemma_passed_after(frames, i, time);
    let prev = frames[i];
    let next = frames[i + 1];
    let span = next.time_ticks.minus(prev.time_ticks);
    let w = pow2(r) as int;
    lemma2_to64();
    lemma_pow2_le(r, 5);
    lemma_pow2_pos(r);
    lemma_ratio_constants();
    lemma_ratio_minus(next.time_ticks, from + w, prev.time_ticks, from, 0);
    lemma_ratio_minus(time, from + k, prev.time_ticks, from, 0);
    lemma_ratio_order(Single::zero(), 0, span, w, 0);
    lemma_ratio_order(prev.time_ticks, from, next.time_ticks, from + w, 0);
    lemma_epsilon_below(span, w);
    lemma_ratio_over(time.minus(prev.time_ticks), k, span, r, 0);
    let t = time.minus(prev.time_ticks).over(span);
    lemma_finer(Single::zero(), 0, 0, r);
    lemma_finer(Single::one(), 1, 0, r);
    lemma_ratio_order(Single::zero(), 0, t, k, r);
    lemma_ratio_order(t, k, Single::one(), w, r);
    assert(unit_clamp(t) == t);
    lemma_eased_exact(t, k, r, next.easing);
    let e = eased(t, next.easing);
    lemma_pow2_adds(r, r);
    lemma_pow2_adds(2 * r, r);
    if !next.easing.is_finite() || next.easing.same(Single::zero()) {
        lemma_small_way(n, m, k, w, k, w);
        lemma_lerp_even(prev.value, n, next.value, m, 0, e, k, r);
    } else if Single::zero().lt(next.easing) {
        let g = 3 * (k * k) * w - 2 * (k * k * k);
        assert(0 <= g <= w * w * w) by (nonlinear_arith)
            requires
                g == 3 * (k * k) * w - 2 * (k * k * k),
                0 < k <= w,
        ;
        lemma_small_way(n, m, g, w * w * w, k, w);
        lemma_lerp_even(prev.value, n, next.value, m, 0, e, g, 3 * r);
    } else {
        let g = 2 * k * w - k * k;
        assert(0 <= g <= w * w) by (nonlinear_arith)
            requires
                g == 2 * k * w - k * k,
                0 < k <= w,
        ;
        lemma_small_way(n, m, g, w * w, k, w);
        lemma_lerp_even(prev.value, n, next.value, m, 0, e, g, 2 * r);
    }
}

proof fn lemma_epsilon_below(span: Single, w: int)
    requires
        is_ratio(span, w, 0),
        w >= 1,
    ensures
        !span.le(Single::epsilon()),
{
    lemma_ratio_constants();
    lemma_ratio_order(Single::one(), 1, span, w, 0);
}

/// What is at most a hundred whole parts of a small power fits.
proof fn lemma_small_way(n: int, m: int, g: int, p: int, k: int, w: int)
    requires
        -100 <= n <= 100,
        -100 <= m <= 100,
        0 <= g <= p,
        0 < w <= 32,
        p == w || p == w * w || p == w * w * w,
    ensures
        fits((m - n) * g),
        fits(n * p + (m - n) * g),
{
    assert(0 < p <= 32768) by (nonlinear_arith)
        requires
            0 < w <= 32,
            p == w || p == w * w || p == w * w * w,
    ;
    assert(-200 * 32768 <= (m - n) * g <= 200 * 32768) by (nonlinear_arith)
        requires
            -200 <= m - n <= 200,
            0 <= g <= 32768,
    ;
    assert(-100 * 32768 <= n * p <= 100 * 32768) by (nonlinear_arith)
        requires
            -100 <= n <= 100,
            0 < p <= 32768,
    ;
}

/// One of the numbers that a content lists as its place: x, y or z.
pub open spec fn place_part(content: PsbValue, i: int) -> Option<Single> {
    match content.field("coord") {
        Some(list) => match *list {
            PsbValue::List(items) => if items@.len() >= 3 {
                Some(items@[i].as_single().unwrap_or(Single::zero()))
            } else {
                None
            },
            _ => None,
        },
        None => None,
    }
}

/// Whether a number is where the way between two begins, where both are given.
pub open spec fn begins(x: Single, a: Option<Single>, b: Option<Single>) -> bool {
    match (a, b) {
        (Some(m), Some(n)) => m.is_finite() && n.minus(m).is_finite() ==> x.same(m),
        _ => true,
    }
}

/// Whether a number is where the way between two ends, where both are given.
pub open spec fn arrives(x: Single, a: Option<Single>, b: Option<Single>) -> bool {
    match (a, b) {
        (Some(m), Some(n)) => differ_exactly(m, n) ==> x.same(n),
        _ => true,
    }
}

/// Whether a number lies on the way between two, where both are given.
pub open spec fn on_way(x: Single, a: Option<Single>, b: Option<Single>) -> bool {
    match (a, b) {
        (Some(m), Some(n)) => differ_exactly(m, n) ==> lies_between(x, m, n),
        _ => true,
    }
}

/// Whether one of three things holds of every number that two contents name.
pub open spec fn holds_of_all(
    r: FrameState,
    prev: PsbValue,
    next: PsbValue,
    what: spec_fn(Single, Option<Single>, Option<Single>) -> bool,
) -> bool {
    &&& place_part(prev, 0) is Some && place_part(next, 0) is Some ==> {
        &&& r.coord is Some
        &&& what(r.coord->0.x, place_part(prev, 0), place_part(next, 0))
        &&& what(r.coord->0.y, place_part(prev, 1), place_part(next, 1))
        &&& what(r.coord->0.z, place_part(prev, 2), place_part(next, 2))
    }
    &&& what(r.ox, prev.field_single("ox"), next.field_single("ox"))
    &&& what(r.oy, prev.field_single("oy"), next.field_single("oy"))
    &&& what(r.opa, prev.field_single("opa"), next.field_single("opa"))
    &&& what(r.scale_x, spec_content_scale_x(prev), spec_content_scale_x(next))
    &&& what(r.scale_y, spec_content_scale_y(prev), spec_content_scale_y(next))
    &&& what(r.rotation_degrees, spec_content_rotation(prev), spec_content_rotation(next))
}

proof fn lemma_begins(a: Option<Single>, b: Option<Single>, t: Single)
    requires
        t.magnitude() == 0,
    ensures
        a is Some && b is Some ==> begins(lerp(a->0, b->0, t), a, b),
{
    if a is Some && b is Some && a->0.is_finite() && b->0.minus(a->0).is_finite() {
        lemma_lerp_starts(a->0, b->0, t);
    }
}

proof fn lemma_arrives(a: Option<Single>, b: Option<Single>)
    ensures
        a is Some && b is Some ==> arrives(lerp(a->0, b->0, Single::one()), a, b),
{
    if a is Some && b is Some && differ_exactly(a->0, b->0) {
        lemma_lerp_ends(a->0, b->0);
    }
}

proof fn lemma_on_way(a: Option<Single>, b: Option<Single>, t: Single)
    requires
        is_share(t),
    ensures
        a is Some && b is Some ==> on_way(lerp(a->0, b->0, t), a, b),
{
    if a is Some && b is Some && differ_exactly(a->0, b->0) {
        lemma_lerp_between(a->0, b->0, t);
        lemma_order_is_by_value(a->0, b->0);
        lemma_order_is_by_value(b->0, a->0);
    }
}

/// At the ratio zero a layer is as the earlier of two contents says, in every number that
/// both name.
pub proof fn lemma_frames_begin(state: FrameState, prev: PsbValue, next: PsbValue, t: Single)
    requires
        t.magnitude() == 0,
    ensures
        holds_of_all(
            state.between(prev, next, t),
            prev,
            next,
            |x: Single, a: Option<Single>, b: Option<Single>| begins(x, a, b),
        ),
{
    lemma_begins(place_part(prev, 0), place_part(next, 0), t);
    lemma_begins(place_part(prev, 1), place_part(next, 1), t);
    lemma_begins(place_part(prev, 2), place_part(next, 2), t);
    lemma_begins(prev.field_single("ox"), next.field_single("ox"), t);
    lemma_begins(prev.field_single("oy"), next.field_single("oy"), t);
    lemma_begins(prev.field_single("opa"), next.field_single("opa"), t);
    lemma_begins(spec_content_scale_x(prev), spec_content_scale_x(next), t);
    lemma_begins(spec_content_scale_y(prev), spec_content_scale_y(next), t);
    lemma_begins(spec_content_rotation(prev), spec_content_rotation(next), t);
}

/// At the ratio one a layer is as the later of two contents says, in every number that
/// both name and whose difference needs no rounding.
pub proof fn lemma_frames_arrive(state: FrameState, prev: PsbValue, next: PsbValue)
    ensures
        holds_of_all(
            state.between(prev, next, Single::one()),
            prev,
            next,
            |x: Single, a: Option<Single>, b: Option<Single>| arrives(x, a, b),
        ),
{
    lemma_arrives(place_part(prev, 0), place_part(next, 0));
    lemma_arrives(place_part(prev, 1), place_part(next, 1));
    lemma_arrives(place_part(prev, 2), place_part(next, 2));
    lemma_arrives(prev.field_single("ox"), next.field_single("ox"));
    lemma_arrives(prev.field_single("oy"), next.field_single("oy"));
    lemma_arrives(prev.field_single("opa"), next.field_single("opa"));
    lemma_arrives(spec_content_scale_x(prev), spec_content_scale_x(next));
    lemma_arrives(spec_content_scale_y(prev), spec_content_scale_y(next));
    lemma_arrives(spec_content_rotation(prev), spec_content_rotation(next));
}

/// In between a layer is between the two contents, in every number that both name and
/// whose difference needs no rounding.
pub proof fn lemma_frames_stay_between(
    state: FrameState,
    prev: PsbValue,
    next: PsbValue,
    t: Single,
)
    requires
        is_share(t),
    ensures
        holds_of_all(
            state.between(prev, next, t),
            prev,
            next,
            |x: Single, a: Option<Single>, b: Option<Single>| on_way(x, a, b),
        ),
{
    lemma_on_way(place_part(prev, 0), place_part(next, 0), t);
    lemma_on_way(place_part(prev, 1), place_part(next, 1), t);
    lemma_on_way(place_part(prev, 2), place_part(next, 2), t);
    lemma_on_way(prev.field_single("ox"), next.field_single("ox"), t);
    lemma_on_way(prev.field_single("oy"), next.field_single("oy"), t);
    lemma_on_way(prev.field_single("opa"), next.field_single("opa"), t);
    lemma_on_way(spec_content_scale_x(prev), spec_content_scale_x(next), t);
    lemma_on_way(spec_content_scale_y(prev), spec_content_scale_y(next), t);
    lemma_on_way(spec_content_rotation(prev), spec_content_rotation(next), t);
}

/// Whether a frame of a list is the last one that is not later than a time.
pub open spec fn is_current(frames: Seq<PsbValue>, i: int, time: Single) -> bool {
    &&& 0 <= i < frames.len()
    &&& forall|k: int| 0 <= k <= i ==> !time.lt(spec_frame_time(#[trigger] frames[k]))
    &&& i + 1 < frames.len() ==> time.lt(spec_frame_time(frames[i + 1]))
}

proof fn lemma_leading_is(frames: Seq<PsbValue>, time: Single, n: int)
    requires
        0 <= n <= frames.len(),
        forall|k: int| 0 <= k < n ==> !time.lt(spec_frame_time(#[trigger] frames[k])),
        n < frames.len() ==> time.lt(spec_frame_time(frames[n])),
    ensures
        leading(frames, time) == n,
    decreases n,
{
    if n > 0 {
        let rest = frames.drop_first();
        assert forall|k: int| 0 <= k < n - 1 implies !time.lt(
            spec_frame_time(#[trigger] rest[k]),
        ) by {
            assert(rest[k] == frames[k + 1]);
        }
        lemma_leading_is(rest, time, n - 1);
    }
}

/// A ratio of zero is eased to zero.
pub proof fn lemma_eased_nothing(t: Single, easing: Single)
    requires
        t.magnitude() == 0,
    ensures
        eased(t, easing).magnitude() == 0,
{
    lemma2_to64();
    assert(t.value() == 0) by {
        assert(magnitude_units(0) == 0);
    }
    assert(0 * pow2(149) == 0);
    lemma_eased_exact(t, 0, 0, easing);
    let e = eased(t, easing);
    lemma_nearest_self(e);
}

/// Whether a number of a layer is the one that a content names, unless the way to the next
/// content cannot be told.
pub open spec fn meets(x: Single, a: Option<Single>, b: Option<Single>) -> bool {
    match a {
        Some(m) => m.is_finite() && (b matches Some(n) ==> n.minus(m).is_finite()) ==> x.same(m),
        None => true,
    }
}

/// The content that a layer goes on to behind a frame.
pub open spec fn content_behind(frames: Seq<PsbValue>, i: int) -> PsbValue {
    if i + 1 < frames.len() && frames[i + 1].field("content") is Some {
        *frames[i + 1].field("content")->0
    } else {
        PsbValue::Null
    }
}

/// At the time of a frame a layer is where the frame says, and as opaque.
pub proof fn lemma_frame_list_meets_its_frames(frames: Seq<PsbValue>, i: int)
    requires
        is_current(frames, i, spec_frame_time(frames[i])),
        frames[i].field("content") is Some,
        spec_frame_time(frames[i]).is_finite(),
        i + 1 < frames.len() ==> spec_frame_time(frames[i + 1]).is_finite(),
    ensures
        ({
            let r = frame_list_at(frames, spec_frame_time(frames[i]));
            let now = *frames[i].field("content")->0;
            let next = content_behind(frames, i);
            &&& place_part(now, 0) is Some ==> {
                &&& r.coord is Some
                &&& meets(r.coord->0.x, place_part(now, 0), place_part(next, 0))
                &&& meets(r.coord->0.y, place_part(now, 1), place_part(next, 1))
                &&& meets(r.coord->0.z, place_part(now, 2), place_part(next, 2))
            }
            &&& meets(r.ox, now.field_single("ox"), next.field_single("ox"))
            &&& meets(r.oy, now.field_single("oy"), next.field_single("oy"))
            &&& meets(r.opa, now.field_single("opa"), next.field_single("opa"))
            &&& meets(r.scale_x, spec_content_scale_x(now), spec_content_scale_x(next))
            &&& meets(r.scale_y, spec_content_scale_y(now), spec_content_scale_y(next))
        }),
{
    let time = spec_frame_time(frames[i]);
    let now = *frames[i].field("content")->0;
    lemma_leading_is(frames, time, i + 1);
    let slot = slot_after(frames, i + 1);
    assert(slot.prev == Some(now));
    assert(slot.prev_time == time);
    if i + 1 < frames.len() && frames[i + 1].field("content") is Some {
        let next = *frames[i + 1].field("content")->0;
        let span = spec_frame_time(frames[i + 1]).minus(time);
        if span.is_finite() && Single::epsilon().lt(span) {
            lemma_gone(time, spec_frame_time(frames[i + 1]), time, time);
            let g = gone(time, span, time);
            let easing = next.field_single("easing").unwrap_or(Single::zero());
            lemma_eased_nothing(g, easing);
            let t = eased(g, easing);
            let state = FrameState {
                interpolation_t: t,
                next_frame_index: Some((i + 1) as usize),
                ..slot.state
            };
            lemma_frames_begin(state, now, next, t);
        }
    }
}

/// Between two frames whose contents both name a number, that number follows from these
/// two frames alone.
pub proof fn lemma_frame_list_is_local(
    a: Seq<PsbValue>,
    i: int,
    b: Seq<PsbValue>,
    j: int,
    time: Single,
)
    requires
        is_current(a, i, time),
        is_current(b, j, time),
        i + 1 < a.len(),
        j + 1 < b.len(),
        a[i] == b[j],
        a[i + 1] == b[j + 1],
        a[i].field("content") is Some,
        a[i + 1].field("content") is Some,
        spec_frame_time(a[i + 1]).minus(spec_frame_time(a[i])).is_finite(),
        Single::epsilon().lt(spec_frame_time(a[i + 1]).minus(spec_frame_time(a[i]))),
    ensures
        ({
            let p = frame_list_at(a, time);
            let q = frame_list_at(b, time);
            let now = *a[i].field("content")->0;
            let next = *a[i + 1].field("content")->0;
            &&& p.interpolation_t == q.interpolation_t
            &&& place_part(now, 0) is Some && place_part(next, 0) is Some ==> p.coord == q.coord
            &&& now.field_single("ox") is Some && next.field_single("ox") is Some ==> p.ox == q.ox
            &&& now.field_single("oy") is Some && next.field_single("oy") is Some ==> p.oy == q.oy
            &&& now.field_single("opa") is Some && next.field_single("opa") is Some ==> p.opa
                == q.opa
            &&& spec_content_scale_x(now) is Some && spec_content_scale_x(next) is Some
                ==> p.scale_x == q.scale_x
            &&& spec_content_scale_y(now) is Some && spec_content_scale_y(next) is Some
                ==> p.scale_y == q.scale_y
        }),
{
    lemma_leading_is(a, time, i + 1);
    lemma_leading_is(b, time, j + 1);
    assert(slot_after(a, i + 1).prev == slot_after(b, j + 1).prev);
}

/// A number that a frame does not name is the one of the frames before it, and one that
/// it names is its own, whatever came before.
pub proof fn lemma_frames_build_up(state: FrameState, other: FrameState, content: PsbValue)
    ensures
        place_part(content, 0) matches Some(x) ==> state.merged(content).coord == Some(
            Coord { x, y: place_part(content, 1)->0, z: place_part(content, 2)->0 },
        ),
        place_part(content, 0) is None ==> state.merged(content).coord == state.coord,
        content.field_single("ox") matches Some(x) ==> state.merged(content).ox == x,
        content.field_single("ox") is None ==> state.merged(content).ox == state.ox,
        content.field_single("oy") matches Some(y) ==> state.merged(content).oy == y,
        content.field_single("oy") is None ==> state.merged(content).oy == state.oy,
        content.field_single("opa") matches Some(o) ==> state.merged(content).opa == o,
        content.field_single("opa") is None ==> state.merged(content).opa == state.opa,
        content.text_field("src") is Some ==> state.merged(content).src == content.text_field(
            "src",
        ),
        content.text_field("src") is None ==> state.merged(content).src == state.src,
        content.text_field("icon") is Some ==> state.merged(content).icon == content.text_field(
            "icon",
        ),
        content.text_field("icon") is None ==> state.merged(content).icon == state.icon,
        state.merged(content).merged(content) == state.merged(content),
        state.merged(content).frame_index == state.frame_index,
        state.merged(content).interpolation_t == state.interpolation_t,
{
}

/// What a content names as its scales: its own name for an axis comes first, and a zoom is
/// meant for both.
pub proof fn lemma_scale_names(content: PsbValue)
    ensures
        content.field_single("scale_x") matches Some(x) ==> spec_content_scale_x(content) == Some(x),
        content.field_single("scale_y") matches Some(y) ==> spec_content_scale_y(content) == Some(y),
        content.field_single("scale_x") is None && content.field_single("scaleX") is Some
            ==> spec_content_scale_x(content) == content.field_single("scaleX"),
        content.field_single("scale_y") is None && content.field_single("scaleY") is Some
            ==> spec_content_scale_y(content) == content.field_single("scaleY"),
        content.field_single("scale_x") is None && content.field_single("scaleX") is None
            && content.field_single("scale_y") is None && content.field_single("scaleY") is None
            ==> spec_content_scale_x(content) == spec_content_scale_y(content),
        content.field_single("angle") matches Some(a) ==> spec_content_rotation(content) == Some(a),
{
}

/// A frame of type zero without a content clears what the frames before it have shown.
pub proof fn lemma_frame_list_clears(frames: Seq<PsbValue>, i: int, time: Single)
    requires
        is_current(frames, i, time),
        frames[i].field_i64("type") == Some(0i64),
        frames[i].field("content") is None,
    ensures
        frame_list_at(frames, time).src is None,
        frame_list_at(frames, time).icon is None,
        frame_list_at(frames, time).coord is None,
        frame_list_at(frames, time).frame_index == Some(i as usize),
{
    lemma_leading_is(frames, time, i + 1);
    assert(slot_after(frames, i + 1).prev is None);
}

/// Up to a frame that names an angle, only that angle counts.
proof fn lemma_angle_from(
    frames: Seq<PsbValue>,
    time: Single,
    prev: Option<(Single, Single)>,
    i: int,
)
    requires
        0 <= i < frames.len(),
        forall|k: int| 0 <= k <= i ==> spec_frame_time(#[trigger] frames[k]).le(time),
        frame_angle(frames[i]) is Some,
    ensures
        angle_at(frames, time, prev) == angle_at(
            frames.skip(i + 1),
            time,
            Some((spec_frame_time(frames[i]), frame_angle(frames[i])->0)),
        ),
    decreases i,
{
    let rest = frames.drop_first();
    if i == 0 {
        assert(frames.skip(1) =~= rest);
    } else {
        assert(rest.skip(i) =~= frames.skip(i + 1));
        assert(rest[i - 1] == frames[i]);
        assert forall|k: int| 0 <= k <= i - 1 implies spec_frame_time(#[trigger] rest[k]).le(
            time,
        ) by {
            assert(rest[k] == frames[k + 1]);
        }
        match frame_angle(frames[0]) {
            None => {
                lemma_angle_from(rest, time, prev, i - 1);
            },
            Some(angle) => {
                lemma_angle_from(
                    rest,
                    time,
                    Some((spec_frame_time(frames[0]), angle)),
                    i - 1,
                );
            },
        }
    }
}

/// Ahead of all frames that are left, at the time of the last angle, that angle holds.
proof fn lemma_angle_holds(frames: Seq<PsbValue>, time: Single, angle: Single)
    requires
        time.is_finite(),
        angle.is_finite(),
        forall|k: int|
            0 <= k < frames.len() ==> {
                &&& time.lt(spec_frame_time(#[trigger] frames[k]))
                &&& spec_frame_time(frames[k]).is_finite()
                &&& spec_frame_time(frames[k]).minus(time).is_finite()
                &&& frame_angle(frames[k]) matches Some(a) ==> a.minus(angle).is_finite()
            },
    ensures
        angle_at(frames, time, Some((time, angle))) matches Some(a) && a.same(angle),
    decreases frames.len(),
{
    if frames.len() > 0 {
        let at = spec_frame_time(frames[0]);
        match frame_angle(frames[0]) {
            None => {
                let rest = frames.drop_first();
                assert forall|k: int| 0 <= k < rest.len() implies {
                    &&& time.lt(spec_frame_time(#[trigger] rest[k]))
                    &&& spec_frame_time(rest[k]).is_finite()
                    &&& spec_frame_time(rest[k]).minus(time).is_finite()
                    &&& frame_angle(rest[k]) matches Some(a) ==> a.minus(angle).is_finite()
                } by {
                    assert(rest[k] == frames[k + 1]);
                }
                lemma_angle_holds(rest, time, angle);
            },
            Some(next) => {
                lemma_gone(time, at, time, time);
                let g = gone(time, at.minus(time), time);
                let easing = frames[0].field_single("easing").unwrap_or(Single::zero());
                lemma_eased_nothing(g, easing);
                lemma_lerp_starts(angle, next, eased(g, easing));
            },
        }
    }
}

/// At the time of a frame that names an angle a layer is turned by that angle.
pub proof fn lemma_angle_meets_its_frames(frames: Seq<PsbValue>, i: int)
    requires
        0 <= i < frames.len(),
        frame_angle(frames[i]) matches Some(a) && a.is_finite(),
        spec_frame_time(frames[i]).is_finite(),
        forall|k: int|
            0 <= k < i ==> spec_frame_time(#[trigger] frames[k]).le(spec_frame_time(frames[i])),
        forall|k: int|
            i < k < frames.len() ==> {
                let time = spec_frame_time(frames[i]);
                &&& time.lt(spec_frame_time(#[trigger] frames[k]))
                &&& spec_frame_time(frames[k]).is_finite()
                &&& spec_frame_time(frames[k]).minus(time).is_finite()
                &&& frame_angle(frames[k]) matches Some(b) ==> b.minus(
                    frame_angle(frames[i])->0,
                ).is_finite()
            },
    ensures
        frame_list_at(frames, spec_frame_time(frames[i])).rotation_degrees.same(
            frame_angle(frames[i])->0,
        ),
{
    let time = spec_frame_time(frames[i]);
    let angle = frame_angle(frames[i])->0;
    lemma_order_is_by_value(time, time);
    lemma_angle_from(frames, time, None, i);
    let rest = frames.skip(i + 1);
    assert forall|k: int| 0 <= k < rest.len() implies {
        &&& time.lt(spec_frame_time(#[trigger] rest[k]))
        &&& spec_frame_time(rest[k]).is_finite()
        &&& spec_frame_time(rest[k]).minus(time).is_finite()
        &&& frame_angle(rest[k]) matches Some(a) ==> a.minus(angle).is_finite()
    } by {
        assert(rest[k] == frames[k + i + 1]);
    }
    lemma_angle_holds(rest, time, angle);
}

} // verus!
