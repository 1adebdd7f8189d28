//! What holds of ranges and lengths: they hold what they are found from, loops come round,
//! and what is looked for is found where it stands.

use crate::controls::Looper;
use crate::draws::{mask_of, reference_at, slot_of};
use crate::drive::{after_loop, total_duration};
use crate::dyadic::{
    fits, is_ratio, lemma_ratio_constants, lemma_ratio_minus, lemma_ratio_order, lemma_ratio_plus,
};
use crate::exact::lemma_order_is_by_value;
use crate::frames::{
    latest_frame, layer_latest, layers_latest, lemma_list_smaller, motion_duration, spec_frame_time,
    wrapped_time,
};
use crate::layers::rank_of;
use crate::monotone::lemma_nearest_self;
use crate::panel::slider_range_of;
use crate::play_laws::lemma_rem_exact;
use crate::single::{magnitude_units, Single};
use crate::start::{introduced, widened_by_frames};
use crate::timelines::{latest_time, EmoteTimelineFrame};
use crate::value::{either, items_of, list_of, PsbValue};
use crate::variables::{greatest, least, total_rank, widened, FrameLabel, VarInfo, VarState};
use vstd::arithmetic::div_mod::lemma_mod_multiples_vanish;
use vstd::arithmetic::power2::{lemma_pow2_pos, pow2};
use vstd::prelude::*;

verus! {

/// Whether a value lies in a range whose ends are known.
pub open spec fn in_range(range: (Option<Single>, Option<Single>), value: Single) -> bool {
    range.0 is Some && range.1 is Some && range.0->0.le(value) && value.le(range.1->0)
}

/// A widened range holds the value and all that it held before, and nothing else is an end
/// of it.
pub proof fn lemma_widened_holds(
    range: (Option<Single>, Option<Single>),
    value: Single,
    other: Single,
)
    requires
        value.is_finite(),
        range.0 matches Some(a) ==> !a.is_nan(),
        range.1 matches Some(b) ==> !b.is_nan(),
    ensures
        in_range(widened(range, value), value),
        in_range(range, other) ==> in_range(widened(range, value), other),
        in_range(range, value) ==> widened(range, value) == range,
        widened(range, value).0 == range.0 || widened(range, value).0 == Some(value),
        widened(range, value).1 == range.1 || widened(range, value).1 == Some(value),
{
}

/// A description that another one is added to holds the whole range of that one.
pub proof fn lemma_merged_holds(info: VarInfo, next: VarInfo)
    requires
        next.min_value matches Some(a) ==> a.is_finite(),
        next.max_value matches Some(b) ==> b.is_finite(),
        info.min_value matches Some(a) ==> !a.is_nan(),
        info.max_value matches Some(b) ==> !b.is_nan(),
        forall|i: int| 0 <= i < next.frames.len() ==> (#[trigger] next.frames[i]).value.is_finite(),
    ensures
        next.min_value matches Some(a) ==> in_range(
            (info.merged(next).min_value, info.merged(next).max_value),
            a,
        ),
        next.max_value matches Some(b) ==> in_range(
            (info.merged(next).min_value, info.merged(next).max_value),
            b,
        ),
        info.merged(next).name == info.name,
{
    let own = if info.frames.len() == 0 && next.frames.len() > 0 {
        VarInfo { default_value: next.default_value, ..info }
    } else {
        info
    };
    let wide = own.widened_by(next.min_value).widened_by(next.max_value);
    lemma_frames_keep_the_range(wide, next.frames);
}

proof fn lemma_frames_keep_the_range(info: VarInfo, frames: Seq<FrameLabel>)
    requires
        info.min_value matches Some(a) ==> !a.is_nan(),
        info.max_value matches Some(b) ==> !b.is_nan(),
    ensures
        ({
            let after = info.with_frames(frames);
            &&& after.name == info.name
            &&& after.min_value matches Some(a) ==> !a.is_nan()
            &&& after.max_value matches Some(b) ==> !b.is_nan()
            &&& forall|v: Single|
                in_range((info.min_value, info.max_value), v) ==> #[trigger] in_range(
                    (after.min_value, after.max_value),
                    v,
                )
        }),
    decreases frames.len(),
{
    if frames.len() > 0 {
        lemma_frames_keep_the_range(info, frames.drop_last());
        let before = info.with_frames(frames.drop_last());
        let after = info.with_frames(frames);
        assert forall|v: Single|
            in_range((info.min_value, info.max_value), v) implies #[trigger] in_range(
            (after.min_value, after.max_value),
            v,
        ) by {
            assert(in_range((before.min_value, before.max_value), v));
        }
    }
}

/// The smallest and the largest value are among the values, and none lies outside them.
pub proof fn lemma_extremes(frames: Seq<FrameLabel>, i: int)
    requires
        forall|k: int| 0 <= k < frames.len() ==> !(#[trigger] frames[k]).value.is_nan(),
        0 <= i < frames.len(),
    ensures
        least(frames) is Some,
        greatest(frames) is Some,
        least(frames)->0.le(frames[i].value),
        frames[i].value.le(greatest(frames)->0),
        exists|k: int| 0 <= k < frames.len() && (#[trigger] frames[k]).value == least(frames)->0,
        exists|k: int| 0 <= k < frames.len() && (#[trigger] frames[k]).value == greatest(frames)->0,
    decreases frames.len(),
{
    let rest = frames.drop_last();
    let n = rest.len() as int;
    assert(frames[n] == frames.last());
    if n > 0 {
        assert forall|k: int| 0 <= k < n implies !(#[trigger] rest[k]).value.is_nan() by {
            assert(rest[k] == frames[k]);
        }
        let j = if i < n {
            i
        } else {
            0
        };
        lemma_extremes(rest, j);
        let a = choose|k: int| 0 <= k < n && (#[trigger] rest[k]).value == least(rest)->0;
        let b = choose|k: int| 0 <= k < n && (#[trigger] rest[k]).value == greatest(rest)->0;
        assert(rest[j] == frames[j]);
        assert(rest[a] == frames[a]);
        assert(rest[b] == frames[b]);
    } else {
        assert(least(rest) is None);
        assert(greatest(rest) is None);
    }
}

/// The order that values are sorted by is that of the numbers.
pub proof fn lemma_sorted_by_value(a: Single, b: Single)
    requires
        a.lt(b),
    ensures
        total_rank(a) < total_rank(b),
{
}

/// No frame comes later than the latest one.
pub proof fn lemma_latest_frame(frames: Seq<PsbValue>, start: Single, i: int)
    requires
        !start.is_nan(),
        0 <= i < frames.len(),
    ensures
        !spec_frame_time(frames[i]).is_nan() ==> spec_frame_time(frames[i]).le(
            latest_frame(frames, start),
        ),
        start.le(latest_frame(frames, start)),
    decreases frames.len(),
{
    let rest = frames.drop_last();
    lemma_latest_is_a_number(rest, start);
    if i < rest.len() {
        lemma_latest_frame(rest, start, i);
        assert(rest[i] == frames[i]);
    }
}

proof fn lemma_latest_is_a_number(frames: Seq<PsbValue>, start: Single)
    requires
        !start.is_nan(),
    ensures
        !latest_frame(frames, start).is_nan(),
        start.le(latest_frame(frames, start)),
    decreases frames.len(),
{
    if frames.len() > 0 {
        lemma_latest_is_a_number(frames.drop_last(), start);
    }
}

/// No frame of a track comes later than the latest one.
pub proof fn lemma_latest_time(frames: Seq<EmoteTimelineFrame>, start: Single, i: int)
    requires
        !start.is_nan(),
        0 <= i < frames.len(),
        !frames[i].time_ticks.is_nan(),
    ensures
        frames[i].time_ticks.le(latest_time(frames, start)),
        start.le(latest_time(frames, start)),
    decreases frames.len(),
{
    let rest = frames.drop_last();
    lemma_latest_time_is_a_number(rest, start);
    if i < rest.len() {
        assert(rest[i] == frames[i]);
        lemma_latest_time(rest, start, i);
    }
}

proof fn lemma_latest_time_is_a_number(frames: Seq<EmoteTimelineFrame>, start: Single)
    requires
        !start.is_nan(),
    ensures
        !latest_time(frames, start).is_nan(),
        start.le(latest_time(frames, start)),
    decreases frames.len(),
{
    if frames.len() > 0 {
        lemma_latest_time_is_a_number(frames.drop_last(), start);
    }
}

/// No frame of a layer, nor of a layer below it, comes later than its latest.
pub proof fn lemma_layer_latest(layer: PsbValue, i: int)
    requires
        0 <= i < items_of(layer.field("frameList")).len(),
        !spec_frame_time(items_of(layer.field("frameList"))[i]).is_nan(),
    ensures
        spec_frame_time(items_of(layer.field("frameList"))[i]).le(layer_latest(layer)),
        !layer_latest(layer).is_nan(),
{
    lemma_latest_frame(items_of(layer.field("frameList")), Single::zero(), i);
    lemma_layer_has_a_latest(layer);
}

proof fn lemma_layer_has_a_latest(layer: PsbValue)
    ensures
        !layer_latest(layer).is_nan(),
        latest_frame(items_of(layer.field("frameList")), Single::zero()).le(layer_latest(layer)),
        forall|i: int|
            #![trigger items_of(layer.field("children"))[i]]
            0 <= i < items_of(layer.field("children")).len() ==> layer_latest(
                items_of(layer.field("children"))[i],
            ).le(layer_latest(layer)),
        forall|i: int|
            #![trigger items_of(layer.field("layer"))[i]]
            0 <= i < items_of(layer.field("layer")).len() ==> layer_latest(
                items_of(layer.field("layer"))[i],
            ).le(layer_latest(layer)),
    decreases layer, 1int,
{
    let own = latest_frame(items_of(layer.field("frameList")), Single::zero());
    lemma_latest_is_a_number(items_of(layer.field("frameList")), Single::zero());
    let below = match list_of(layer.field("children")) {
        Some(v) => {
            lemma_list_smaller(layer, "children");
            lemma_layers_have_a_latest(v@, own);
            layers_latest(v@, own)
        },
        None => own,
    };
    match list_of(layer.field("layer")) {
        Some(v) => {
            lemma_list_smaller(layer, "layer");
            lemma_layers_have_a_latest(v@, below);
        },
        None => {},
    }
}

proof fn lemma_layers_have_a_latest(layers: Seq<PsbValue>, start: Single)
    requires
        !start.is_nan(),
    ensures
        !layers_latest(layers, start).is_nan(),
        start.le(layers_latest(layers, start)),
        forall|i: int|
            0 <= i < layers.len() ==> layer_latest(#[trigger] layers[i]).le(
                layers_latest(layers, start),
            ),
    decreases layers, 0int,
{
    if layers.len() > 0 {
        let rest = layers.drop_last();
        lemma_layers_have_a_latest(rest, start);
        lemma_layer_has_a_latest(layers.last());
        assert forall|i: int| 0 <= i < layers.len() implies layer_latest(#[trigger] layers[i]).le(
            layers_latest(layers, start),
        ) by {
            if i < rest.len() {
                assert(rest[i] == layers[i]);
            }
        }
    }
}

/// A layer runs at least as long as each layer below it.
pub proof fn lemma_layer_outlasts_those_below(layer: PsbValue, i: int)
    ensures
        0 <= i < items_of(layer.field("children")).len() ==> layer_latest(
            items_of(layer.field("children"))[i],
        ).le(layer_latest(layer)),
        0 <= i < items_of(layer.field("layer")).len() ==> layer_latest(
            items_of(layer.field("layer"))[i],
        ).le(layer_latest(layer)),
{
    lemma_layer_has_a_latest(layer);
}

/// A motion runs at least as long as each of its layers and as its own mark.
pub proof fn lemma_motion_outlasts_its_layers(motion: PsbValue, i: int)
    requires
        0 <= i < items_of(motion.field("layer")).len(),
        Single::zero().lt(layer_latest(items_of(motion.field("layer"))[i])),
    ensures
        motion_duration(motion) is Some,
        layer_latest(items_of(motion.field("layer"))[i]).le(motion_duration(motion)->0),
        motion.field_single("lastTime") matches Some(t) ==> t.is_nan() || t.le(
            motion_duration(motion)->0,
        ),
{
    let mark = either(
        motion.field_single("lastTime"),
        motion.field_single("loopTime"),
    ).unwrap_or(Single::zero()).max(Single::zero());
    lemma_layers_have_a_latest(items_of(motion.field("layer")), mark);
}

/// On whole ticks the time in a motion that loops is what is left after whole rounds.
pub proof fn lemma_motion_comes_round(time: Single, n: int, duration: Single, d: int)
    requires
        is_ratio(time, n, 0),
        is_ratio(duration, d, 0),
        fits(n),
        0 < d <= 0x100_0000,
    ensures
        n <= 0 ==> is_ratio(wrapped_time(time, duration), 0, 0),
        n > 0 ==> is_ratio(wrapped_time(time, duration), n % d, 0),
{
    lemma_ratio_constants();
    lemma_ratio_order(time, n, Single::zero(), 0, 0);
    lemma_ratio_order(Single::zero(), 0, duration, d, 0);
    lemma_ratio_order(duration, d, Single::one(), 1, 0);
    if n > 0 {
        let m = duration.max(Single::one());
        assert(is_ratio(m, d, 0));
        lemma_rem_exact(time, n, m, d);
    }
}

/// What loops is after whole rounds where it was.
pub proof fn lemma_loop_comes_round(
    vars: Map<Seq<char>, VarState>,
    control: Looper,
    elapsed: Single,
    n: int,
    later: Single,
    rounds: int,
    total: int,
)
    requires
        is_ratio(total_duration(control.stretches), total, 0),
        is_ratio(elapsed, n, 0),
        is_ratio(later, n + rounds * total, 0),
        0 < total <= 0x100_0000,
        0 <= n <= 0x100_0000,
        0 <= n + rounds * total <= 0x100_0000,
        !elapsed.is_negative(),
        !later.is_negative(),
    ensures
        after_loop(vars, control, elapsed) == after_loop(vars, control, later),
{
    let t = total_duration(control.stretches);
    lemma_rem_exact(elapsed, n, t, total);
    lemma_rem_exact(later, n + rounds * total, t, total);
    assert(rounds * total == total * rounds) by (nonlinear_arith);
    lemma_mod_multiples_vanish(rounds, n, total);
    let a = elapsed.rem_euclid(t);
    let b = later.rem_euclid(t);
    lemma_ratio_order(a, n % total, b, n % total, 0);
    reveal(Single::spec_rem);
    assert(a == b);
}

/// The rank of an index is where the list holds it, and the list holds it nowhere behind.
pub proof fn lemma_rank_is_the_last_place(content: Seq<PsbValue>, index: i64, i: int)
    requires
        content.len() <= usize::MAX,
        0 <= i < content.len(),
        content[i].as_i64() == Some(index),
    ensures
        ({
            let r = rank_of(content, index);
            &&& r is Some
            &&& i <= r->0 < content.len()
            &&& content[r->0 as int].as_i64() == Some(index)
        }),
    decreases content.len(),
{
    let rest = content.drop_last();
    if content.last().as_i64() != Some(index) {
        assert(rest[i] == content[i]);
        lemma_rank_is_the_last_place(rest, index, i);
        assert(rest[rank_of(rest, index)->0 as int] == content[rank_of(rest, index)->0 as int]);
    }
}

/// The place of a resource holds it and is the first one that does.
pub proof fn lemma_slot_is_the_first_place(slots: Seq<u32>, resource: u32, i: int)
    requires
        0 <= i < slots.len(),
        slots[i] == resource,
    ensures
        slot_of(slots, resource) is Some,
        0 <= slot_of(slots, resource)->0 <= i,
        slots[slot_of(slots, resource)->0] == resource,
    decreases slots.len(),
{
    if slots[0] != resource {
        let rest = slots.drop_first();
        assert(rest[i - 1] == slots[i]);
        lemma_slot_is_the_first_place(rest, resource, i - 1);
        assert(rest[slot_of(rest, resource)->0] == slots[slot_of(rest, resource)->0 + 1]);
    }
}

/// Each owner has a mask of its own, apart from the last number, which the owners that are
/// too many share; a path that owns none has none.
pub proof fn lemma_masks_are_apart(owners: Seq<Seq<char>>, a: int, b: int)
    requires
        0 <= a < b < owners.len(),
        owners.no_duplicates(),
    ensures
        0 < mask_of(owners, owners[a], owners.len()) <= 255,
        a < 254 ==> mask_of(owners, owners[a], owners.len()) != mask_of(
            owners,
            owners[b],
            owners.len(),
        ),
{
    lemma_mask_is_found(owners, a, owners.len());
    lemma_mask_is_found(owners, b, owners.len());
}

/// The mask of an owner has the number of its place.
pub proof fn lemma_mask_is_found(owners: Seq<Seq<char>>, a: int, n: nat)
    requires
        0 <= a < n <= owners.len(),
        owners.no_duplicates(),
    ensures
        mask_of(owners, owners[a], n) == reference_at(a),
    decreases n,
{
    if a < n - 1 {
        lemma_mask_is_found(owners, a, (n - 1) as nat);
    }
}

/// On whole numbers: a slider goes from the least to the greatest value, and with one
/// value known from one below it to one above it.
pub proof fn lemma_slider_range(value: Single, v: int, min: Option<Single>, max: Option<Single>)
    requires
        is_ratio(value, v, 0),
        fits(v - 1),
        fits(v + 1),
    ensures
        ({
            let r = slider_range_of(value, min, max);
            &&& min is Some && max is Some && min->0.lt(max->0) ==> r.min == min->0 && r.max
                == max->0
            &&& min is None && max is None ==> is_ratio(r.min, v - 1, 0) && is_ratio(
                r.max,
                v + 1,
                0,
            )
        }),
        ({
            let r = slider_range_of(value, Some(value), None);
            is_ratio(r.min, v - 1, 0) && is_ratio(r.max, v + 1, 0)
        }),
        ({
            let r = slider_range_of(value, None, Some(value));
            is_ratio(r.min, v - 1, 0) && is_ratio(r.max, v + 1, 0)
        }),
{
    lemma_ratio_constants();
    lemma_ratio_minus(value, v, Single::one(), 1, 0);
    lemma_ratio_plus(value, v, Single::one(), 1, 0);
}

proof fn lemma_frames_are_in_range(info: VarInfo, frames: Seq<EmoteTimelineFrame>, i: int)
    requires
        info.min_value matches Some(a) ==> !a.is_nan(),
        info.max_value matches Some(b) ==> !b.is_nan(),
        forall|k: int| 0 <= k < frames.len() ==> (#[trigger] frames[k]).value.is_finite(),
    ensures
        ({
            let r = widened_by_frames(info, frames);
            &&& r.min_value matches Some(a) ==> !a.is_nan()
            &&& r.max_value matches Some(b) ==> !b.is_nan()
            &&& r.default_value == info.default_value
            &&& 0 <= i < frames.len() ==> in_range((r.min_value, r.max_value), frames[i].value)
        }),
    decreases frames.len(),
{
    if frames.len() > 0 {
        let rest = frames.drop_last();
        assert forall|k: int| 0 <= k < rest.len() implies (#[trigger] rest[k]).value.is_finite() by {
            assert(rest[k] == frames[k]);
        }
        lemma_frames_are_in_range(info, rest, i);
        let before = widened_by_frames(info, rest);
        let range = (before.min_value, before.max_value);
        let last = frames.last().value;
        assert(frames[frames.len() - 1].value.is_finite());
        if i < rest.len() {
            lemma_widened_holds(range, last, frames[i].value);
        } else {
            lemma_widened_holds(range, last, last);
        }
    }
}

/// The range of a variable that a track is found for holds all values of the track.
pub proof fn lemma_tracks_are_in_range(info: VarInfo, frames: Seq<EmoteTimelineFrame>, i: int)
    requires
        info.min_value matches Some(a) ==> !a.is_nan(),
        info.max_value matches Some(b) ==> !b.is_nan(),
        forall|k: int| 0 <= k < frames.len() ==> (#[trigger] frames[k]).value.is_finite(),
        0 <= i < frames.len(),
    ensures
        ({
            let r = widened_by_frames(info, frames);
            in_range((r.min_value, r.max_value), frames[i].value)
        }),
{
    lemma_frames_are_in_range(info, frames, i);
}

/// A variable at its default takes the first value of a track that is found for it; one
/// that stands elsewhere stays there.
pub proof fn lemma_variables_start_with_their_track(
    state: VarState,
    frames: Seq<EmoteTimelineFrame>,
    v: int,
    home: int,
)
    requires
        state.info.min_value matches Some(a) ==> !a.is_nan(),
        state.info.max_value matches Some(b) ==> !b.is_nan(),
        forall|k: int| 0 <= k < frames.len() ==> (#[trigger] frames[k]).value.is_finite(),
        frames.len() > 0,
        is_ratio(state.value, v, 0),
        is_ratio(state.info.default_value, home, 0),
        fits(v - home),
    ensures
        v == home ==> introduced(state, frames).value.same(frames[0].value),
        v != home ==> introduced(state, frames).value == state.value,
        introduced(state, frames).target == state.target,
{
    lemma_frames_are_in_range(state.info, frames, 0);
    lemma_ratio_constants();
    let d = state.value.minus(state.info.default_value);
    lemma_ratio_minus(state.value, v, state.info.default_value, home, 0);
    lemma_whole_against_epsilon(d, v - home);
}

proof fn lemma_whole_against_epsilon(d: Single, n: int)
    requires
        is_ratio(d, n, 0),
    ensures
        d.abs().le(Single::epsilon()) <==> n == 0,
{
    lemma_ratio_constants();
    lemma_pow2_pos(149);
    let w = pow2(149) as int;
    assert(magnitude_units(0) == 0);
    lemma_nearest_self(d);
    lemma_nearest_self(d.abs());
    lemma_nearest_self(Single::one());
    assert(Single::epsilon().lt(Single::one()));
    assert((n != 0 ==> n * w >= w || n * w <= -w) && (n == 0 ==> n * w == 0)) by (nonlinear_arith)
        requires
            w > 0,
    ;
    if n != 0 {
        assert(d.abs().units() == d.units());
        lemma_order_is_by_value(Single::one(), d.abs());
    }
}

} // verus!
