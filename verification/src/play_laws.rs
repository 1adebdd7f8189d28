//! Laws of playing: what is sent somewhere arrives there, what loops runs round, and what
//! a control holds stays where it holds it.

use crate::api::{
    in_milliseconds, in_ticks, milliseconds_per_second, ticks_per_second, TimelinePlayMode,
};
use crate::arrange::views;
use crate::calls::{sent, share_sent};
use crate::controls::{EmoteRuntimePipeline, LoopTransition, Selector};
use crate::curve::{eased, lerp, unit_clamp};
use crate::curve_laws::{
    differ_exactly, is_share, lemma_eased_ends, lemma_eased_share, lemma_lerp_between,
    lemma_lerp_ends, lemma_lerp_starts, lemma_times_a_zero, lies_between,
};
use crate::drive::{after_selector, spec_held, stretch_value, with_choices};
use crate::dyadic::{
    fits, is_ratio, lemma_held, lemma_ratio_constants, lemma_ratio_minus, lemma_ratio_order,
    lemma_ratio_plus, lemma_ratio_times,
};
use crate::exact::{
    lemma_one, lemma_order_is_by_value, lemma_plus_a_zero, lemma_plus_commutes, lemma_times_one,
};
use crate::laws::lemma_one_main_timeline;
use crate::monotone::{
    lemma_nearest_ordered, lemma_nearest_scale, lemma_nearest_self, lemma_nearest_side,
    lemma_over_rank, lemma_times_share, lemma_times_side,
};
use crate::order::{ascending, before, lemma_before_total, lemma_ordered_is, ordered};
use crate::playback::{
    after_all_plays, after_plays, is_tracked, track_applied, tracked_reset, tracks_variable, way,
    with_tracks_applied, ActiveTimelineState, Play,
};
use crate::player::{drives_controls, Player};
use crate::rounding::lemma_round_zero;
use crate::single::{magnitude_units, Single};
use crate::time_laws::lemma_eased_nothing;
use crate::timelines::{track_value, Timeline};
use crate::variables::{VarInfo, VarState};
use crate::viewer::first_playing;
use vstd::arithmetic::div_mod::{lemma_fundamental_div_mod, lemma_fundamental_div_mod_converse};
use vstd::arithmetic::power2::{lemma2_to64, lemma_pow2_adds, lemma_pow2_pos, pow2};
use vstd::prelude::*;

verus! {

/// A positive number over itself is one, and what is less over it is a share.
pub proof fn lemma_part_of(a: Single, b: Single)
    requires
        a.is_finite(),
        b.is_finite(),
        Single::zero().le(a),
        Single::zero().lt(b),
        a.le(b),
    ensures
        is_share(a.over(b)),
        b.over(b) == Single::one(),
        a.magnitude() == 0 ==> a.over(b).magnitude() == 0,
{
    lemma_one();
    lemma_pow2_pos(149);
    lemma_order_is_by_value(Single::zero(), a);
    lemma_order_is_by_value(Single::zero(), b);
    lemma_order_is_by_value(a, b);
    lemma_nearest_self(Single::zero());
    lemma_nearest_self(Single::one());
    let w = pow2(149);
    let v = b.value() as nat;
    lemma_over_rank(a, b);
    lemma_over_rank(b, b);
    assert(b.value() * w == w * v) by (nonlinear_arith)
        requires
            b.value() == v,
    ;
    lemma_nearest_scale(w as int, 1, v);
    assert((a.value() * w) * 1 <= (w as int) * v && a.value() * w >= 0) by (nonlinear_arith)
        requires
            0 <= a.value() <= v,
            w > 0,
    ;
    lemma_nearest_ordered(a.value() * w, v, w as int, 1);
    lemma_nearest_side(a.value() * w, v);
    if a.magnitude() == 0 {
        assert(magnitude_units(0) == 0);
        assert(0 * w == 0);
        lemma_round_zero(v);
    }
}

/// Whether the range of a variable is in order, where it has one.
pub open spec fn has_range(info: VarInfo) -> bool {
    &&& info.min_value matches Some(a) ==> !a.is_nan()
    &&& info.max_value matches Some(b) ==> !b.is_nan()
    &&& info.min_value is Some && info.max_value is Some ==> info.min_value->0.le(
        info.max_value->0,
    )
}

/// Whether a number lies in the range of a variable.
pub open spec fn in_range(info: VarInfo, x: Single) -> bool {
    &&& !x.is_nan()
    &&& info.min_value matches Some(a) ==> a.le(x)
    &&& info.max_value matches Some(b) ==> x.le(b)
}

/// A variable that is sent to a value is there when its time is over, and rests.
pub proof fn lemma_sent_arrives(state: VarState, value: Single, time: Single, easing: Single)
    requires
        time.is_finite(),
        Single::zero().lt(time),
        has_range(state.info),
        in_range(state.info, value),
        differ_exactly(state.value, value),
    ensures
        sent(state, value, time, easing).moved_on(time).value.same(value),
        sent(state, value, time, easing).moved_on(time).target is None,
        sent(state, value, time, easing).value == state.value,
        sent(state, value, Single::zero(), easing).value == value,
        sent(state, value, Single::zero(), easing).target is None,
{
    lemma_ratio_constants();
    lemma_order_is_by_value(Single::zero(), Single::zero());
    lemma_plus_commutes(Single::zero(), time);
    lemma_plus_a_zero(time, Single::zero());
    assert(Single::zero().plus(time) == time);
    lemma_order_is_by_value(time, time);
    lemma_part_of(time, time);
    lemma_ratio_order(Single::one(), 1, Single::one(), 1, 0);
    lemma_ratio_order(Single::zero(), 0, Single::one(), 1, 0);
    assert(way(time, time) == Single::one());
    lemma_eased_ends(easing);
    let e = eased(Single::one(), easing);
    assert(e == Single::one()) by {
        assert(e.rank() == Single::one().rank());
    }
    assert(state.info.clamp(value) == value);
    lemma_lerp_ends(state.value, value);
    let got = lerp(state.value, value, Single::one());
    assert(got.rank() == value.rank());
    assert(state.info.clamp(got).rank() == value.rank());
}

/// On its way a variable lies between where it was and where it is sent, and its time goes
/// by as it is moved on.
pub proof fn lemma_sent_stays_between(
    state: VarState,
    value: Single,
    time: Single,
    easing: Single,
    delta: Single,
)
    requires
        time.is_finite(),
        Single::zero().lt(time),
        delta.is_finite(),
        Single::zero().le(delta),
        delta.lt(time),
        !Single::zero().lt(easing),
        has_range(state.info),
        in_range(state.info, value),
        in_range(state.info, state.value),
        differ_exactly(state.value, value),
    ensures
        ({
            let after = sent(state, value, time, easing).moved_on(delta);
            &&& lies_between(after.value, state.value, value)
            &&& after.target is Some ==> after.target->0.elapsed_ticks.same(delta)
                && after.target->0.duration_ticks == time && after.target->0.target_value == value
            &&& delta.magnitude() == 0 ==> after.value.same(state.value)
        }),
{
    lemma_ratio_constants();
    let zero = Single::zero();
    lemma_plus_commutes(zero, delta);
    lemma_plus_a_zero(delta, zero);
    let elapsed = zero.plus(delta);
    assert(elapsed.rank() == delta.rank());
    assert(elapsed.is_finite());
    lemma_order_is_by_value(elapsed, delta);
    lemma_order_is_by_value(zero, elapsed);
    lemma_part_of(elapsed, time);
    lemma_ratio_order(zero, 0, Single::one(), 1, 0);
    let t = way(elapsed, time);
    assert(t == elapsed.over(time));
    lemma_eased_share(t, easing);
    let e = eased(t, easing);
    lemma_lerp_between(state.value, value, e);
    lemma_order_is_by_value(state.value, value);
    lemma_order_is_by_value(value, state.value);
    let got = lerp(state.value, value, e);
    assert(state.info.clamp(got).rank() == got.rank());
    if delta.magnitude() == 0 {
        lemma_eased_nothing(t, easing);
        lemma_lerp_starts(state.value, value, e);
    }
}

/// A timeline whose share is sent to a value has that share when its time is over.
pub proof fn lemma_share_arrives(
    state: ActiveTimelineState,
    value: Single,
    time: Single,
    easing: Single,
    stop: bool,
)
    requires
        time.is_finite(),
        Single::zero().lt(time),
        is_share(value),
        differ_exactly(state.blend_ratio, value),
    ensures
        ({
            let (after, ratio) = share_sent(state, value, time, easing, stop).blended(time);
            &&& ratio.same(value)
            &&& after.blend_ratio.same(value)
            &&& after.blend_target is None
            &&& stop && value.magnitude() == 0 ==> after.elapsed_ticks.magnitude() == 0
            &&& !stop ==> after.elapsed_ticks == state.elapsed_ticks
        }),
{
    lemma_ratio_constants();
    let zero = Single::zero();
    lemma_order_is_by_value(zero, time);
    assert(time.max(zero) == time);
    lemma_plus_commutes(zero, time);
    lemma_plus_a_zero(time, zero);
    assert(zero.plus(time) == time);
    lemma_order_is_by_value(time, time);
    lemma_part_of(time, time);
    lemma_ratio_order(Single::one(), 1, Single::one(), 1, 0);
    lemma_ratio_order(zero, 0, Single::one(), 1, 0);
    lemma_eased_ends(easing);
    let e = eased(Single::one(), easing);
    assert(e == Single::one()) by {
        assert(e.rank() == Single::one().rank());
    }
    lemma_lerp_ends(state.blend_ratio, value);
    let got = lerp(state.blend_ratio, value, Single::one());
    assert(got.rank() == value.rank());
    assert(unit_clamp(got).rank() == value.rank());
}

/// A timeline with all of its share sets a variable to the value of its track, with none
/// of it leaves the variable at its default. One that adds differences with none of its
/// share leaves it where it is.
pub proof fn lemma_track_share(state: VarState, evaluated: Single)
    requires
        has_range(state.info),
        in_range(state.info, evaluated),
        in_range(state.info, state.info.default_value),
        in_range(state.info, state.value),
        state.value.is_finite(),
        differ_exactly(state.info.default_value, evaluated),
    ensures
        track_applied(state, evaluated, false, Single::one()).value.same(evaluated),
        track_applied(state, evaluated, false, Single::zero()).value.same(
            state.info.default_value,
        ),
        track_applied(state, evaluated, true, Single::zero()).value.same(state.value),
{
    let home = state.info.default_value;
    lemma_lerp_ends(home, evaluated);
    lemma_lerp_starts(home, evaluated, Single::zero());
    let all = lerp(home, evaluated, Single::one());
    let none = lerp(home, evaluated, Single::zero());
    assert(state.info.clamp(all).rank() == evaluated.rank());
    assert(state.info.clamp(none).rank() == home.rank());
    let d = evaluated.minus(home).times(Single::zero());
    lemma_times_a_zero(evaluated.minus(home), Single::zero());
    lemma_plus_a_zero(state.value, d);
    assert(state.info.clamp(state.value.plus(d)).rank() == state.value.rank());
}

/// A share in between leaves a variable between its default and the value of the track.
pub proof fn lemma_track_share_between(state: VarState, evaluated: Single, ratio: Single)
    requires
        has_range(state.info),
        in_range(state.info, evaluated),
        in_range(state.info, state.info.default_value),
        differ_exactly(state.info.default_value, evaluated),
        is_share(ratio),
    ensures
        lies_between(
            track_applied(state, evaluated, false, ratio).value,
            state.info.default_value,
            evaluated,
        ),
{
    let home = state.info.default_value;
    lemma_lerp_between(home, evaluated, ratio);
    lemma_order_is_by_value(home, evaluated);
    lemma_order_is_by_value(evaluated, home);
    let got = lerp(home, evaluated, ratio);
    assert(state.info.clamp(got).rank() == got.rank());
}

/// A difference is added to what is there: exactly so for small whole numbers, with all of
/// its share and without a range.
pub proof fn lemma_difference_is_added(
    state: VarState,
    evaluated: Single,
    e: int,
    d: int,
    v: int,
)
    requires
        state.info.min_value is None,
        state.info.max_value is None,
        -100000 <= e <= 100000,
        -100000 <= d <= 100000,
        -100000 <= v <= 100000,
        is_ratio(evaluated, e, 0),
        is_ratio(state.info.default_value, d, 0),
        is_ratio(state.value, v, 0),
    ensures
        is_ratio(track_applied(state, evaluated, true, Single::one()).value, v + e - d, 0),
{
    lemma_ratio_minus(evaluated, e, state.info.default_value, d, 0);
    let way = evaluated.minus(state.info.default_value);
    lemma_times_one(way);
    lemma_ratio_plus(state.value, v, way, e - d, 0);
}

/// The remainder of whole numbers.
pub proof fn lemma_rem_exact(a: Single, n: int, b: Single, m: int)
    requires
        is_ratio(a, n, 0),
        is_ratio(b, m, 0),
        0 <= n <= 0x100_0000,
        0 < m <= 0x100_0000,
    ensures
        is_ratio(a.rem_euclid(b), n % m, 0),
{
    reveal(Single::spec_rem);
    lemma_ratio_constants();
    lemma_pow2_pos(149);
    let w = pow2(149) as int;
    assert(n * w >= 0 && m * w > 0) by (nonlinear_arith)
        requires
            n >= 0,
            m > 0,
            w > 0,
    ;
    lemma_nearest_self(a);
    lemma_nearest_self(b);
    assert(magnitude_units(0) == 0);
    assert(a.units() == n * w);
    assert(b.units() == m * w);
    assert(b.magnitude() != 0);
    let k = n / m;
    let r = n % m;
    lemma_fundamental_div_mod(n, m);
    assert(n * w == k * (m * w) + r * w) by (nonlinear_arith)
        requires
            n == m * k + r,
    ;
    assert(0 <= r * w < m * w) by (nonlinear_arith)
        requires
            0 <= r < m,
            w > 0,
    ;
    lemma_fundamental_div_mod_converse(n * w, m * w, k, r * w);
    let x = a.rem(b);
    lemma_held(
        x,
        r,
        149,
    );
    lemma_ratio_order(x, r, Single::zero(), 0, 0);
}

/// A timeline runs on with time. Behind its end it stays there, or runs round by whole
/// rounds if it loops: exactly so for whole ticks.
pub proof fn lemma_timeline_runs(
    state: ActiveTimelineState,
    delta: Single,
    duration: Single,
    i: int,
    j: int,
    d: int,
)
    requires
        0 <= i <= 0x80_0000,
        0 <= j <= 0x80_0000,
        0 < d <= 0x100_0000,
        is_ratio(state.elapsed_ticks, i, 0),
        is_ratio(delta, j, 0),
        is_ratio(duration, d, 0),
    ensures
        ({
            let after = state.advanced(delta, duration);
            &&& is_ratio(
                after.elapsed_ticks,
                if i + j <= d {
                    i + j
                } else if state.mode.is_looping() {
                    (i + j) % d
                } else {
                    d
                },
                0,
            )
            &&& after.mode == state.mode
            &&& after.blend_ratio == state.blend_ratio
            &&& after.blend_target == state.blend_target
        }),
{
    lemma_ratio_constants();
    lemma_ratio_plus(state.elapsed_ticks, i, delta, j, 0);
    let time = state.elapsed_ticks.plus(delta);
    lemma_ratio_order(duration, d, Single::zero(), 0, 0);
    lemma_ratio_order(Single::zero(), 0, duration, d, 0);
    lemma_ratio_order(duration, d, time, i + j, 0);
    lemma_rem_exact(time, i + j, duration, d);
}

/// A stretch of a loop starts where it says and ends where it says.
pub proof fn lemma_stretch_ends(row: Seq<LoopTransition>)
    requires
        row.len() > 0,
        row[0].duration_ticks.is_finite(),
        Single::epsilon().lt(row[0].duration_ticks),
        differ_exactly(row[0].start, row[0].end),
    ensures
        stretch_value(row, Single::zero()) matches Some(v) && v.same(row[0].start),
        stretch_value(row, row[0].duration_ticks) matches Some(v) && v.same(row[0].end),
{
    lemma_ratio_constants();
    let d = row[0].duration_ticks;
    assert(Single::zero().lt(d));
    assert(d.max(Single::zero()) == d);
    lemma_order_is_by_value(Single::zero(), Single::zero());
    lemma_order_is_by_value(d, d);
    lemma_ratio_order(Single::zero(), 0, Single::one(), 1, 0);
    lemma_part_of(Single::zero(), d);
    lemma_part_of(d, d);
    lemma_lerp_starts(row[0].start, row[0].end, unit_clamp(Single::zero().over(d)));
    lemma_lerp_ends(row[0].start, row[0].end);
}

/// Within a stretch the value lies between its ends; behind it the next stretches go on
/// with the time that is left.
pub proof fn lemma_stretches_follow(row: Seq<LoopTransition>, t: Single)
    requires
        row.len() > 0,
        row[0].duration_ticks.is_finite(),
        Single::epsilon().lt(row[0].duration_ticks),
        differ_exactly(row[0].start, row[0].end),
        t.is_finite(),
        Single::zero().le(t),
    ensures
        t.le(row[0].duration_ticks) ==> (stretch_value(row, t) matches Some(v) && lies_between(
            v,
            row[0].start,
            row[0].end,
        )),
        row[0].duration_ticks.lt(t) ==> stretch_value(row, t) == stretch_value(
            row.drop_first(),
            t.minus(row[0].duration_ticks),
        ),
{
    lemma_ratio_constants();
    let d = row[0].duration_ticks;
    assert(Single::zero().lt(d));
    assert(d.max(Single::zero()) == d);
    lemma_ratio_order(Single::zero(), 0, Single::one(), 1, 0);
    if t.le(d) {
        lemma_part_of(t, d);
        let r = t.over(d);
        assert(unit_clamp(r) == r);
        lemma_lerp_between(row[0].start, row[0].end, r);
        lemma_order_is_by_value(row[0].start, row[0].end);
        lemma_order_is_by_value(row[0].end, row[0].start);
    }
}

/// A square clamp leaves a pair that lies in it and brings every other one to its border.
pub proof fn lemma_square_holds(min: Single, max: Single, lr: Single, ud: Single)
    requires
        min.le(max),
        !lr.is_nan(),
        !ud.is_nan(),
    ensures
        ({
            let (a, b) = spec_held(0, min, max, lr, ud);
            &&& min.le(a) && a.le(max)
            &&& min.le(b) && b.le(max)
            &&& min.le(lr) && lr.le(max) ==> a == lr
            &&& min.le(ud) && ud.le(max) ==> b == ud
            &&& max.lt(lr) ==> a == max
            &&& lr.lt(min) ==> a == min
            &&& max.lt(ud) ==> b == max
            &&& ud.lt(min) ==> b == min
        }),
{
}

/// A circle clamp leaves a pair within its radius. It draws any other one in: no number
/// changes its side, and none grows.
pub proof fn lemma_circle_holds(kind: i64, min: Single, max: Single, lr: Single, ud: Single)
    requires
        kind != 0,
        lr.is_finite(),
        ud.is_finite(),
        max.is_finite(),
        lr.hypot(ud).is_finite(),
    ensures
        ({
            let (a, b) = spec_held(kind, min, max, lr, ud);
            let reach = max.abs().max(Single::epsilon());
            &&& !reach.lt(lr.hypot(ud)) ==> a == lr && b == ud
            &&& Single::zero().le(lr) ==> Single::zero().le(a) && a.le(lr)
            &&& lr.le(Single::zero()) ==> lr.le(a) && a.le(Single::zero())
            &&& Single::zero().le(ud) ==> Single::zero().le(b) && b.le(ud)
            &&& ud.le(Single::zero()) ==> ud.le(b) && b.le(Single::zero())
        }),
{
    lemma_ratio_constants();
    let reach = max.abs().max(Single::epsilon());
    let radius = lr.hypot(ud);
    lemma_order_is_by_value(lr, lr);
    lemma_order_is_by_value(ud, ud);
    if reach.lt(radius) {
        assert(reach.is_finite());
        assert(Single::zero().lt(reach));
        lemma_part_of(reach, radius);
        let scale = reach.over(radius);
        lemma_times_share(lr, scale);
        lemma_times_share(ud, scale);
        lemma_times_side(lr, scale);
        lemma_times_side(ud, scale);
    }
}

/// Whether the labels of the choices of a selector differ, and their values can be set.
pub open spec fn has_choices(control: Selector) -> bool {
    &&& control.enabled
    &&& forall|i: int|
        0 <= i < control.choices.len() ==> {
            &&& (#[trigger] control.choices[i]).label.len() > 0
            &&& control.choices[i].on_value.is_finite()
            &&& control.choices[i].off_value.is_finite()
        }
    &&& forall|i: int, j: int|
        0 <= i < j < control.choices.len() ==> (#[trigger] control.choices[i]).label != (
        #[trigger] control.choices[j]).label
}

proof fn lemma_choices_set(
    vars: Map<Seq<char>, VarState>,
    control: Selector,
    selected: int,
    n: nat,
    k: int,
)
    requires
        has_choices(control),
        0 <= k < n <= control.choices.len(),
    ensures
        ({
            let after = with_choices(vars, control.choices, selected, n);
            let choice = control.choices[k];
            &&& after.dom().contains(choice.label)
            &&& after[choice.label].value == after[choice.label].info.clamp(
                if selected == k {
                    choice.on_value
                } else {
                    choice.off_value
                },
            )
            &&& after[choice.label].target is None
        }),
    decreases n,
{
    if k < n - 1 {
        lemma_choices_set(vars, control, selected, (n - 1) as nat, k);
        assert(control.choices[k].label != control.choices[n - 1].label);
    }
}

/// A selector switches exactly one of its choices on, the one whose number its own
/// variable has, and all others off.
pub proof fn lemma_selector_selects_one(
    vars: Map<Seq<char>, VarState>,
    control: Selector,
    selected: int,
    k: int,
)
    requires
        has_choices(control),
        0 <= k < control.choices.len(),
        -0x100_0000 <= selected <= 0x100_0000,
        vars.dom().contains(control.label),
        is_ratio(vars[control.label].value, selected, 0),
    ensures
        ({
            let after = after_selector(vars, control);
            let choice = control.choices[k];
            &&& after.dom().contains(choice.label)
            &&& after[choice.label].value == after[choice.label].info.clamp(
                if selected == k {
                    choice.on_value
                } else {
                    choice.off_value
                },
            )
            &&& after[choice.label].target is None
        }),
{
    let x = vars[control.label].value;
    lemma_whole_rounds(x, selected);
    lemma_choices_set(vars, control, selected, control.choices.len(), k);
}

/// A whole number is the nearest to itself.
pub proof fn lemma_whole_rounds(x: Single, n: int)
    requires
        is_ratio(x, n, 0),
        -0x100_0000 <= n <= 0x100_0000,
    ensures
        x.nearest_whole() == n,
        x.rounded_into(i64::MIN as int, i64::MAX as int) == n,
{
    lemma_pow2_pos(149);
    let w = pow2(149) as int;
    let m = if n < 0 {
        -n
    } else {
        n
    };
    assert((n >= 0 ==> n * w == m * w) && (n < 0 ==> n * w == -(m * w)) && m * w >= 0 && (n != 0 ==> m
        * w > 0)) by (nonlinear_arith)
        requires
            n >= 0 ==> m == n,
            n < 0 ==> m == -n,
            w > 0,
    ;
    lemma_nearest_self(x);
    assert(magnitude_units(0) == 0);
    assert(x.units() == m * w);
    assert(2 * (m * w) + w == (2 * w) * m + w) by (nonlinear_arith);
    lemma_fundamental_div_mod_converse(2 * (m * w) + w, 2 * w, m, w);
    assert((2 * x.units() + pow2(149)) / (2 * pow2(149)) == m);
    assert(n > 0 ==> !x.is_negative());
    assert(n < 0 ==> x.is_negative());
}

/// A whole multiple of a whole number over that number is how often it goes into it.
pub proof fn lemma_whole_quotient(a: Single, b: Single, c: int, m: int)
    requires
        is_ratio(a, c * m, 0),
        is_ratio(b, m, 0),
        m > 0,
        fits(c),
    ensures
        is_ratio(a.over(b), c, 0),
{
    lemma_pow2_pos(149);
    let w = pow2(149) as int;
    assert(m * w > 0 && (c * m * w) * w == (c * w) * (m * w)) by (nonlinear_arith)
        requires
            m > 0,
            w > 0,
    ;
    lemma_over_rank(a, b);
    let v = (m * w) as nat;
    lemma_nearest_scale(c * w, 1, v);
    assert(1 * v == v);
    lemma_held(a.over(b), c, 149);
}

/// A second has sixty ticks and a thousand milliseconds: exactly so for whole seconds.
pub proof fn lemma_seconds(ms: Single, ticks: Single, n: int)
    requires
        0 <= n <= 250,
        is_ratio(ms, 1000 * n, 0),
        is_ratio(ticks, 60 * n, 0),
    ensures
        is_ratio(in_ticks(ms), 60 * n, 0),
        is_ratio(in_milliseconds(ticks), 1000 * n, 0),
{
    lemma2_to64();
    lemma_pow2_adds(18, 131);
    lemma_pow2_adds(14, 135);
    assert(magnitude_units(0x4270_0000) == 0xf0_0000 * pow2(131)) by {
        assert(0x4270_0000nat / 0x80_0000 == 132);
        assert(0x4270_0000nat % 0x80_0000 == 0x70_0000);
    }
    assert(magnitude_units(0x447a_0000) == 0xfa_0000 * pow2(135)) by {
        assert(0x447a_0000nat / 0x80_0000 == 136);
        assert(0x447a_0000nat % 0x80_0000 == 0x7a_0000);
    }
    assert(is_ratio(ticks_per_second(), 60, 0));
    assert(is_ratio(milliseconds_per_second(), 1000, 0));
    lemma_ratio_times(ms, 1000 * n, 0, ticks_per_second(), 60, 0);
    lemma_ratio_times(ticks, 60 * n, 0, milliseconds_per_second(), 1000, 0);
    lemma_whole_quotient(
        ms.times(ticks_per_second()),
        milliseconds_per_second(),
        60 * n,
        1000,
    );
    lemma_whole_quotient(
        ticks.times(milliseconds_per_second()),
        ticks_per_second(),
        1000 * n,
        60,
    );
}

/// The clock of a player goes on by every step, paused or not: exactly so for whole ticks.
pub proof fn lemma_clock_goes_on(
    player: Player,
    delta: Single,
    pipeline: EmoteRuntimePipeline,
    n: int,
    d: int,
)
    requires
        is_ratio(player.elapsed_ticks, n, 0),
        is_ratio(delta, d, 0),
        fits(n + d),
    ensures
        is_ratio(player.begun(delta, pipeline).finished(delta).elapsed_ticks, n + d, 0),
{
    lemma_ratio_plus(player.elapsed_ticks, n, delta, d, 0);
}

/// A step moves every timeline that runs on by itself and by no other.
pub proof fn lemma_timelines_run_alone(
    player: Player,
    delta: Single,
    pipeline: EmoteRuntimePipeline,
    name: Seq<char>,
)
    requires
        !player.paused,
        player.running.dom().contains(name),
        player.timelines.dom().contains(name),
    ensures
        ({
            let after = player.begun(delta, pipeline);
            let alone = player.running[name].advanced(
                delta,
                player.timelines[name].duration_ticks,
            );
            &&& after.running.dom().contains(name)
            &&& after.running[name].mode == player.running[name].mode
            &&& player.running[name].blend_target is None ==> after.running[name] == alone
                && after.ratios[name] == unit_clamp(alone.blend_ratio)
        }),
{
}

/// The share that a step leaves a timeline with is the one that it is played with next.
pub proof fn lemma_share_is_kept(
    player: Player,
    delta: Single,
    pipeline: EmoteRuntimePipeline,
    name: Seq<char>,
    mode: TimelinePlayMode,
)
    requires
        !player.paused,
        name.len() > 0,
        mode.is_difference(),
        player.running.dom().contains(name),
        player.timelines.dom().contains(name),
    ensures
        ({
            let after = player.begun(delta, pipeline);
            after.played(name, mode, pipeline).running[name].blend_ratio == after.ratios[name]
        }),
{
    reveal(Player::with_running);
}

/// Two names in their order.
proof fn lemma_order_of_two(a: Seq<char>, b: Seq<char>, set: Set<Seq<char>>)
    requires
        a != b,
        set == set![a, b],
    ensures
        ordered(set) == seq![a, b] || ordered(set) == seq![b, a],
{
    lemma_before_total(a, b);
    let row = if before(a, b) {
        seq![a, b]
    } else {
        seq![b, a]
    };
    assert(row.to_set() =~= set) by {
        assert forall|x: Seq<char>| row.to_set().contains(x) == set.contains(x) by {
            assert(row[0] == a || row[0] == b);
            assert(row[1] == a || row[1] == b);
            assert(row.contains(row[0]));
            assert(row.contains(row[1]));
        }
    }
    assert(ascending(row));
    lemma_ordered_is(row, set);
}

/// A timeline with one track that plays with all of its share.
pub open spec fn plays_alone(timeline: Timeline, play: Play, variable: Seq<char>) -> bool {
    &&& timeline.tracks.len() == 1
    &&& timeline.tracks[0].name == variable
    &&& play.ratio == Single::one()
}

/// What a side timeline adds, it adds to what the main timeline shows, whatever the two
/// are called: the variable stands at the value of the main track, and as far from there
/// as the side track goes from the default.
pub proof fn lemma_side_timelines_add_to_the_main_one(
    vars: Map<Seq<char>, VarState>,
    timelines: Map<Seq<char>, Timeline>,
    plays: Map<Seq<char>, Play>,
    main: Seq<char>,
    side: Seq<char>,
    variable: Seq<char>,
    home: int,
    shown: int,
    added: int,
)
    requires
        main != side,
        plays.dom() == set![main, side],
        timelines.dom().contains(main),
        timelines.dom().contains(side),
        !plays[main].mode.is_difference(),
        plays[side].mode.is_difference(),
        plays_alone(timelines[main], plays[main], variable),
        plays_alone(timelines[side], plays[side], variable),
        vars.dom().contains(variable),
        vars[variable].info.min_value is None,
        vars[variable].info.max_value is None,
        is_ratio(vars[variable].info.default_value, home, 0),
        is_ratio(track_value(timelines[main].tracks[0].frames, plays[main].time), shown, 0),
        is_ratio(track_value(timelines[side].tracks[0].frames, plays[side].time), added, 0),
        -100000 <= home <= 100000,
        -100000 <= shown <= 100000,
        -100000 <= added <= 100000,
    ensures
        is_ratio(
            after_all_plays(vars, timelines, plays)[variable].value,
            shown + (added - home),
            0,
        ),
        forall|other: Seq<char>|
            other != variable && #[trigger] vars.dom().contains(other) ==> after_all_plays(
                vars,
                timelines,
                plays,
            )[other] == vars[other],
{
    lemma_order_of_two(main, side, plays.dom());
    lemma_ratio_constants();
    lemma_ratio_order(Single::zero(), 0, Single::one(), 1, 0);
    lemma_ratio_order(Single::one(), 1, Single::one(), 1, 0);
    let one = Single::one();
    assert(unit_clamp(one) == one);
    reveal_with_fuel(after_plays, 3);
    reveal_with_fuel(with_tracks_applied, 2);
    let state = vars[variable];
    let default = state.info.default_value;
    let e = track_value(timelines[main].tracks[0].frames, plays[main].time);
    lemma_ratio_minus(e, shown, default, home, 0);
    lemma_times_one(e.minus(default));
    lemma_ratio_plus(default, home, e.minus(default), shown - home, 0);
    let after = track_applied(state, e, false, one);
    assert(is_ratio(after.value, shown, 0));
    let d = track_value(timelines[side].tracks[0].frames, plays[side].time);
    lemma_difference_is_added(after, d, added, home, shown);
}

/// Clamps have the last word: whatever selectors and loops set, a pair that the last square
/// clamp holds lies in its square, where the variables have no range of their own.
pub proof fn lemma_clamps_have_the_last_word(
    pipeline: EmoteRuntimePipeline,
    vars: Map<Seq<char>, VarState>,
    elapsed: Single,
)
    requires
        pipeline.clamp_controls@.len() > 0,
        pipeline.clamp_controls@.last()@.enabled,
        pipeline.clamp_controls@.last()@.kind == 0,
        pipeline.clamp_controls@.last()@.min.is_finite(),
        pipeline.clamp_controls@.last()@.max.is_finite(),
        pipeline.clamp_controls@.last()@.min.le(pipeline.clamp_controls@.last()@.max),
        pipeline.clamp_controls@.last()@.var_lr.len() > 0,
        pipeline.clamp_controls@.last()@.var_ud.len() > 0,
        pipeline.clamp_controls@.last()@.var_lr != pipeline.clamp_controls@.last()@.var_ud,
    ensures
        ({
            let clamp = pipeline.clamp_controls@.last()@;
            let r = pipeline.applied(vars, elapsed);
            let a = r[clamp.var_lr];
            let b = r[clamp.var_ud];
            &&& a.info.min_value is None && a.info.max_value is None ==> a.value.is_nan() || (
            clamp.min.le(a.value) && a.value.le(clamp.max))
            &&& b.info.min_value is None && b.info.max_value is None ==> b.value.is_nan() || (
            clamp.min.le(b.value) && b.value.le(clamp.max))
        }),
{
    let row = views(pipeline.clamp_controls@);
    let clamp = pipeline.clamp_controls@.last()@;
    assert(row.last() == clamp);
}

/// Before timelines are applied anew, what any of them moves goes back to its default, and
/// nothing else changes.
pub proof fn lemma_only_tracked_variables_go_back(
    vars: Map<Seq<char>, VarState>,
    timelines: Map<Seq<char>, Timeline>,
    timeline: Seq<char>,
    i: int,
    variable: Seq<char>,
)
    requires
        vars.dom().contains(variable),
    ensures
        ({
            let r = tracked_reset(vars, timelines);
            &&& r.dom() == vars.dom()
            &&& timelines.dom().contains(timeline) && 0 <= i < timelines[timeline].tracks.len()
                && timelines[timeline].tracks[i].name == variable ==> r[variable].value
                == vars[variable].info.default_value && r[variable].target is None
            &&& (forall|k: Seq<char>, j: int|
                #![trigger timelines[k].tracks[j]]
                timelines.dom().contains(k) && 0 <= j < timelines[k].tracks.len()
                    ==> timelines[k].tracks[j].name != variable) ==> r[variable] == vars[variable]
        }),
{
    let r = tracked_reset(vars, timelines);
    assert(r.dom() =~= vars.dom());
    if timelines.dom().contains(timeline) && 0 <= i < timelines[timeline].tracks.len()
        && timelines[timeline].tracks[i].name == variable {
        assert(tracks_variable(timelines[timeline], variable));
        assert(is_tracked(timelines, variable));
    }
}

proof fn lemma_first_playing(
    active: Map<Seq<char>, TimelinePlayMode>,
    row: Seq<Seq<char>>,
    name: Seq<char>,
)
    requires
        row.contains(name),
        !drives_controls(name),
        !active[name].is_difference(),
        forall|i: int|
            0 <= i < row.len() && row[i] != name ==> drives_controls(#[trigger] row[i])
                || active[row[i]].is_difference(),
    ensures
        first_playing(active, row) == Some(name),
    decreases row.len(),
{
    if row[0] != name {
        let rest = row.drop_first();
        let k = choose|k: int| 0 <= k < row.len() && row[k] == name;
        assert(rest[k - 1] == name);
        assert forall|i: int| 0 <= i < rest.len() && rest[i] != name implies drives_controls(
            #[trigger] rest[i],
        ) || active[rest[i]].is_difference() by {
            assert(rest[i] == row[i + 1]);
        }
        lemma_first_playing(active, rest, name);
    }
}

/// A main timeline that is played is the one that plays, and the time shown is its own:
/// the start.
pub proof fn lemma_what_is_played_plays(
    player: Player,
    name: Seq<char>,
    mode: TimelinePlayMode,
    pipeline: EmoteRuntimePipeline,
    names: Seq<Seq<char>>,
)
    requires
        name.len() > 0,
        !mode.is_difference(),
        !drives_controls(name),
        ascending(names),
        names.to_set() == player.played(name, mode, pipeline).active.dom(),
    ensures
        player.played(name, mode, pipeline).playing_main() == Some(name),
        player.played(name, mode, pipeline).shown_time() == Single::zero(),
{
    let after = player.played(name, mode, pipeline);
    lemma_ordered_is(names, after.active.dom());
    lemma_one_main_timeline(player, name, mode, pipeline, name);
    assert(names.to_set().contains(name));
    assert forall|i: int| 0 <= i < names.len() && names[i] != name implies drives_controls(
        #[trigger] names[i],
    ) || after.active[names[i]].is_difference() by {
        assert(names.to_set().contains(names[i]));
        lemma_one_main_timeline(player, name, mode, pipeline, names[i]);
    }
    lemma_first_playing(after.active, names, name);
    reveal(Player::with_running);
    assert(after.running.dom().contains(name));
}

} // verus!
