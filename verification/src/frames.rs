//! Frame lists: what a layer shows at a time, and how long a motion runs.

use crate::combinator::{find_icon_domain, opt_icon_domain};
use crate::curve::{eased, lerp, unit_clamp};
use crate::mesh::{
    content_patch, opt_patch, opt_patch_wf, parse_content_mesh_patch, EmoteMeshPatch, Patch,
};
use crate::single::Single;
use crate::text::opt_string;
use crate::value::{either, items_of, lemma_field_smaller, list_of, PsbValue};
use vstd::prelude::*;

verus! {

/// A place with its depth.
#[derive(Clone, Copy, Debug, PartialEq, Eq, Structural)]
pub struct Coord {
    pub x: Single,
    pub y: Single,
    pub z: Single,
}

/// What a layer shows at a time.
#[derive(Clone, Debug)]
pub struct DynamicFrameState {
    pub coord: Option<Coord>,
    pub ox: Single,
    pub oy: Single,
    pub scale_x: Single,
    pub scale_y: Single,
    pub rotation_degrees: Single,
    pub src: Option<String>,
    pub icon: Option<String>,
    pub opa: Single,
    pub time_offset_ticks: Single,
    pub mesh_patch: Option<EmoteMeshPatch>,
    pub frame_index: Option<usize>,
    pub next_frame_index: Option<usize>,
    pub interpolation_t: Single,
}

/// A `DynamicFrameState` by its characters and points.
#[verifier::ext_equal]
pub struct FrameState {
    pub coord: Option<Coord>,
    pub ox: Single,
    pub oy: Single,
    pub scale_x: Single,
    pub scale_y: Single,
    pub rotation_degrees: Single,
    pub src: Option<Seq<char>>,
    pub icon: Option<Seq<char>>,
    pub opa: Single,
    pub time_offset_ticks: Single,
    pub mesh_patch: Option<Patch>,
    pub frame_index: Option<usize>,
    pub next_frame_index: Option<usize>,
    pub interpolation_t: Single,
}

impl View for DynamicFrameState {
    type V = FrameState;

    open spec fn view(&self) -> FrameState {
        FrameState {
            coord: self.coord,
            ox: self.ox,
            oy: self.oy,
            scale_x: self.scale_x,
            scale_y: self.scale_y,
            rotation_degrees: self.rotation_degrees,
            src: opt_string(self.src),
            icon: opt_string(self.icon),
            opa: self.opa,
            time_offset_ticks: self.time_offset_ticks,
            mesh_patch: opt_patch(self.mesh_patch),
            frame_index: self.frame_index,
            next_frame_index: self.next_frame_index,
            interpolation_t: self.interpolation_t,
        }
    }
}

impl FrameState {
    /// Nothing shown yet: at rest, fully opaque.
    pub open spec fn start() -> FrameState {
        FrameState {
            coord: None,
            ox: Single::zero(),
            oy: Single::zero(),
            scale_x: Single::one(),
            scale_y: Single::one(),
            rotation_degrees: Single::zero(),
            src: None,
            icon: None,
            opa: Single::ten(),
            time_offset_ticks: Single::zero(),
            mesh_patch: None,
            frame_index: None,
            next_frame_index: None,
            interpolation_t: Single::zero(),
        }
    }

    /// The patch, if any, has all its points.
    pub open spec fn wf(self) -> bool {
        opt_patch_wf(self.mesh_patch)
    }
}

impl Default for DynamicFrameState {
    fn default() -> (r: DynamicFrameState)
        ensures
            r@ == FrameState::start(),
            r@.wf(),
    {
        DynamicFrameState {
            coord: None,
            ox: Single::zero(),
            oy: Single::zero(),
            scale_x: Single::one(),
            scale_y: Single::one(),
            rotation_degrees: Single::zero(),
            src: None,
            icon: None,
            opa: Single::ten(),
            time_offset_ticks: Single::zero(),
            mesh_patch: None,
            frame_index: None,
            next_frame_index: None,
            interpolation_t: Single::zero(),
        }
    }
}

/// The time of a frame, zero where it has none.
pub open spec fn spec_frame_time(frame: PsbValue) -> Single {
    frame.field_single("time").unwrap_or(Single::zero())
}

pub fn frame_time(frame: &PsbValue) -> (r: Single)
    ensures
        r == spec_frame_time(*frame),
{
    frame.field_single("time").unwrap_or(Single::zero())
}

/// How many frames from the front are not later than `time`.
pub open spec fn leading(frames: Seq<PsbValue>, time: Single) -> nat
    decreases frames.len(),
{
    if frames.len() == 0 || time.lt(spec_frame_time(frames[0])) {
        0
    } else {
        1 + leading(frames.drop_first(), time)
    }
}

pub proof fn lemma_leading(frames: Seq<PsbValue>, time: Single)
    ensures
        leading(frames, time) <= frames.len(),
    decreases frames.len(),
{
    if frames.len() > 0 {
        lemma_leading(frames.drop_first(), time);
    }
}

fn count_leading(frames: &Vec<PsbValue>, time: Single) -> (n: usize)
    ensures
        n == leading(frames@, time),
        n <= frames@.len(),
{
    let mut n: usize = 0;
    assert(frames@.skip(0) =~= frames@);
    while n < frames.len() && !time.lt(frame_time(&frames[n]))
        invariant
            n <= frames@.len(),
            leading(frames@, time) == n + leading(frames@.skip(n as int), time),
        decreases frames@.len() - n,
    {
        assert(frames@.skip(n as int).drop_first() =~= frames@.skip(n + 1));
        n = n + 1;
    }
    n
}

/// The place that a content names, where it has three coordinates.
pub open spec fn spec_content_coord(content: PsbValue) -> Option<Coord> {
    match list_of(content.field("coord")) {
        Some(items) => if items@.len() >= 3 {
            Some(
                Coord {
                    x: items@[0].as_single().unwrap_or(Single::zero()),
                    y: items@[1].as_single().unwrap_or(Single::zero()),
                    z: items@[2].as_single().unwrap_or(Single::zero()),
                },
            )
        } else {
            None
        },
        None => None,
    }
}

pub fn content_coord(content: &PsbValue) -> (r: Option<Coord>)
    ensures
        r == spec_content_coord(*content),
{
    match list_of(content.field("coord")) {
        Some(items) => if items.len() >= 3 {
            Some(
                Coord {
                    x: items[0].as_single().unwrap_or(Single::zero()),
                    y: items[1].as_single().unwrap_or(Single::zero()),
                    z: items[2].as_single().unwrap_or(Single::zero()),
                },
            )
        } else {
            None
        },
        None => None,
    }
}

pub open spec fn spec_content_scale_x(content: PsbValue) -> Option<Single> {
    either(
        content.field_single("scale_x"),
        either(
            content.field_single("scaleX"),
            either(content.field_single("scale"), content.field_single("zoom")),
        ),
    )
}

fn content_scale_x(content: &PsbValue) -> (r: Option<Single>)
    ensures
        r == spec_content_scale_x(*content),
{
    either(
        content.field_single("scale_x"),
        either(
            content.field_single("scaleX"),
            either(content.field_single("scale"), content.field_single("zoom")),
        ),
    )
}

pub open spec fn spec_content_scale_y(content: PsbValue) -> Option<Single> {
    either(
        content.field_single("scale_y"),
        either(
            content.field_single("scaleY"),
            either(content.field_single("scale"), content.field_single("zoom")),
        ),
    )
}

fn content_scale_y(content: &PsbValue) -> (r: Option<Single>)
    ensures
        r == spec_content_scale_y(*content),
{
    either(
        content.field_single("scale_y"),
        either(
            content.field_single("scaleY"),
            either(content.field_single("scale"), content.field_single("zoom")),
        ),
    )
}

pub open spec fn spec_content_rotation(content: PsbValue) -> Option<Single> {
    either(
        content.field_single("angle"),
        either(content.field_single("rot"), content.field_single("rotation")),
    )
}

fn content_rotation(content: &PsbValue) -> (r: Option<Single>)
    ensures
        r == spec_content_rotation(*content),
{
    either(
        content.field_single("angle"),
        either(content.field_single("rot"), content.field_single("rotation")),
    )
}

/// The patch of a content, laid out over the domain that its icon names where it
/// has none of its own.
pub open spec fn placed_patch(content: PsbValue) -> Option<Patch> {
    match content_patch(content, 1, 1) {
        Some(patch) => Some(patch.with_domain(opt_icon_domain(content.text_field("icon")))),
        None => None,
    }
}

fn find_placed_patch(content: &PsbValue) -> (r: Option<EmoteMeshPatch>)
    ensures
        opt_patch(r) == placed_patch(*content),
        opt_patch_wf(opt_patch(r)),
{
    match parse_content_mesh_patch(content, 1, 1) {
        Some(patch) => Some(patch.with_domain(find_icon_domain(content.field_str("icon")))),
        None => None,
    }
}

/// How far a content shifts the time of the motion that it shows.
pub open spec fn content_time_offset(content: PsbValue) -> Option<Single> {
    either(
        match content.field("motion") {
            Some(motion) => motion.field_single("timeOffset"),
            None => None,
        },
        content.field_single("timeOffset"),
    )
}

impl FrameState {
    /// The state with what a content names put in place.
    pub open spec fn merged(self, content: PsbValue) -> FrameState {
        FrameState {
            coord: either(spec_content_coord(content), self.coord),
            ox: content.field_single("ox").unwrap_or(self.ox),
            oy: content.field_single("oy").unwrap_or(self.oy),
            scale_x: spec_content_scale_x(content).unwrap_or(self.scale_x),
            scale_y: spec_content_scale_y(content).unwrap_or(self.scale_y),
            rotation_degrees: spec_content_rotation(content).unwrap_or(self.rotation_degrees),
            src: either(content.text_field("src"), self.src),
            icon: either(content.text_field("icon"), self.icon),
            opa: content.field_single("opa").unwrap_or(self.opa),
            time_offset_ticks: content_time_offset(content).unwrap_or(self.time_offset_ticks),
            mesh_patch: either(placed_patch(content), self.mesh_patch),
            ..self
        }
    }

    /// The state with every number that both contents name taken between them.
    pub open spec fn between(self, prev: PsbValue, next: PsbValue, t: Single) -> FrameState {
        FrameState {
            coord: match (spec_content_coord(prev), spec_content_coord(next)) {
                (Some(a), Some(b)) => Some(
                    Coord { x: lerp(a.x, b.x, t), y: lerp(a.y, b.y, t), z: lerp(a.z, b.z, t) },
                ),
                _ => self.coord,
            },
            ox: opt_lerp(prev.field_single("ox"), next.field_single("ox"), t, self.ox),
            oy: opt_lerp(prev.field_single("oy"), next.field_single("oy"), t, self.oy),
            opa: opt_lerp(prev.field_single("opa"), next.field_single("opa"), t, self.opa),
            scale_x: opt_lerp(
                spec_content_scale_x(prev),
                spec_content_scale_x(next),
                t,
                self.scale_x,
            ),
            scale_y: opt_lerp(
                spec_content_scale_y(prev),
                spec_content_scale_y(next),
                t,
                self.scale_y,
            ),
            rotation_degrees: opt_lerp(
                spec_content_rotation(prev),
                spec_content_rotation(next),
                t,
                self.rotation_degrees,
            ),
            mesh_patch: match (placed_patch(prev), placed_patch(next)) {
                (Some(a), Some(b)) => Some(Patch::interpolate(a, b, t)),
                _ => self.mesh_patch,
            },
            ..self
        }
    }
}

/// A number between two given ones, the current one where one is missing.
pub open spec fn opt_lerp(
    a: Option<Single>,
    b: Option<Single>,
    t: Single,
    current: Single,
) -> Single {
    match (a, b) {
        (Some(x), Some(y)) => lerp(x, y, t),
        _ => current,
    }
}

fn lerp_or(a: Option<Single>, b: Option<Single>, t: Single, current: Single) -> (r: Single)
    ensures
        r == opt_lerp(a, b, t, current),
{
    match (a, b) {
        (Some(x), Some(y)) => lerp(x, y, t),
        _ => current,
    }
}

/// Puts what a content names in place.
pub fn merge_frame_content(state: &mut DynamicFrameState, content: &PsbValue)
    requires
        old(state)@.wf(),
    ensures
        final(state)@ == old(state)@.merged(*content),
        final(state)@.wf(),
{
    if let Some(coord) = content_coord(content) {
        state.coord = Some(coord);
    }
    state.ox = content.field_single("ox").unwrap_or(state.ox);
    state.oy = content.field_single("oy").unwrap_or(state.oy);
    state.scale_x = content_scale_x(content).unwrap_or(state.scale_x);
    state.scale_y = content_scale_y(content).unwrap_or(state.scale_y);
    state.rotation_degrees = content_rotation(content).unwrap_or(state.rotation_degrees);
    if let Some(src) = content.field_str("src") {
        state.src = Some(src.to_owned());
    }
    if let Some(icon) = content.field_str("icon") {
        state.icon = Some(icon.to_owned());
    }
    state.opa = content.field_single("opa").unwrap_or(state.opa);
    let offset = either(
        match content.field("motion") {
            Some(motion) => motion.field_single("timeOffset"),
            None => None,
        },
        content.field_single("timeOffset"),
    );
    state.time_offset_ticks = offset.unwrap_or(state.time_offset_ticks);
    if let Some(patch) = find_placed_patch(content) {
        state.mesh_patch = Some(patch);
    }
}

/// Takes every number that both contents name between them.
pub fn interpolate_frame_content(
    state: &mut DynamicFrameState,
    prev: &PsbValue,
    next: &PsbValue,
    t: Single,
)
    requires
        old(state)@.wf(),
    ensures
        final(state)@ == old(state)@.between(*prev, *next, t),
        final(state)@.wf(),
{
    if let (Some(a), Some(b)) = (content_coord(prev), content_coord(next)) {
        state.coord = Some(
            Coord { x: lerp(a.x, b.x, t), y: lerp(a.y, b.y, t), z: lerp(a.z, b.z, t) },
        );
    }
    state.ox = lerp_or(prev.field_single("ox"), next.field_single("ox"), t, state.ox);
    state.oy = lerp_or(prev.field_single("oy"), next.field_single("oy"), t, state.oy);
    state.opa = lerp_or(prev.field_single("opa"), next.field_single("opa"), t, state.opa);
    state.scale_x = lerp_or(content_scale_x(prev), content_scale_x(next), t, state.scale_x);
    state.scale_y = lerp_or(content_scale_y(prev), content_scale_y(next), t, state.scale_y);
    state.rotation_degrees = lerp_or(
        content_rotation(prev),
        content_rotation(next),
        t,
        state.rotation_degrees,
    );
    if let (Some(a), Some(b)) = (find_placed_patch(prev), find_placed_patch(next)) {
        state.mesh_patch = Some(EmoteMeshPatch::interpolate(&a, &b, t));
    }
}

/// What a frame list has built up after some frames: the state, and the content
/// and time of the frame that it goes on from.
#[verifier::ext_equal]
pub struct Slot {
    pub state: FrameState,
    pub prev: Option<PsbValue>,
    pub prev_time: Single,
}

/// Whether a frame empties the slot: type zero and nothing to show.
pub open spec fn empties(frame: PsbValue) -> bool {
    frame.field_i64("type").unwrap_or(3) == 0 && frame.field("content") is None
}

/// The slot after the first `n` frames.
pub open spec fn slot_after(frames: Seq<PsbValue>, n: int) -> Slot
    decreases n,
{
    if n <= 0 {
        Slot { state: FrameState::start(), prev: None, prev_time: Single::zero() }
    } else {
        let before = slot_after(frames, n - 1);
        let frame = frames[n - 1];
        if empties(frame) {
            Slot {
                state: FrameState {
                    frame_index: Some((n - 1) as usize),
                    ..FrameState::start()
                },
                prev: None,
                prev_time: spec_frame_time(frame),
            }
        } else {
            match frame.field("content") {
                None => before,
                Some(content) => Slot {
                    state: FrameState {
                        frame_index: Some((n - 1) as usize),
                        ..before.state.merged(*content)
                    },
                    prev: Some(*content),
                    prev_time: spec_frame_time(frame),
                },
            }
        }
    }
}

/// The angle of a frame, where its content names one.
pub open spec fn frame_angle(frame: PsbValue) -> Option<Single> {
    match frame.field("content") {
        Some(content) => spec_content_rotation(*content),
        None => None,
    }
}

/// The angle at a time, from the frames that name one: `prev` is the time and
/// angle of the last such frame that is not later.
pub open spec fn angle_at(
    frames: Seq<PsbValue>,
    time: Single,
    prev: Option<(Single, Single)>,
) -> Option<Single>
    decreases frames.len(),
{
    if frames.len() == 0 {
        match prev {
            Some((_, angle)) => Some(angle),
            None => None,
        }
    } else {
        let at = spec_frame_time(frames[0]);
        match frame_angle(frames[0]) {
            None => angle_at(frames.drop_first(), time, prev),
            Some(angle) => if at.le(time) {
                angle_at(frames.drop_first(), time, Some((at, angle)))
            } else {
                match prev {
                    None => None,
                    Some((t0, a0)) => if t0.lt(at) {
                        let easing = frames[0].field_single("easing").unwrap_or(Single::zero());
                        let t = eased(unit_clamp(time.minus(t0).over(at.minus(t0))), easing);
                        Some(lerp(a0, angle, t))
                    } else {
                        Some(a0)
                    },
                }
            },
        }
    }
}

/// What a frame list shows at a time.
pub open spec fn frame_list_at(frames: Seq<PsbValue>, time: Single) -> FrameState {
    let n = leading(frames, time) as int;
    let slot = slot_after(frames, n);
    let state = if n < frames.len() {
        FrameState { next_frame_index: Some(n as usize), ..slot.state }
    } else {
        slot.state
    };
    let mixed = if n < frames.len() {
        match (slot.prev, frames[n].field("content")) {
            (Some(prev), Some(next)) => {
                let span = spec_frame_time(frames[n]).minus(slot.prev_time);
                if span.is_finite() && Single::epsilon().lt(span) {
                    let t = eased(
                        unit_clamp(time.minus(slot.prev_time).over(span)),
                        next.field_single("easing").unwrap_or(Single::zero()),
                    );
                    FrameState { interpolation_t: t, ..state }.between(prev, *next, t)
                } else {
                    state
                }
            },
            _ => state,
        }
    } else {
        state
    };
    FrameState {
        rotation_degrees: angle_at(frames, time, None).unwrap_or(mixed.rotation_degrees),
        ..mixed
    }
}

fn evaluate_rotation_keyframes(frames: &Vec<PsbValue>, time: Single) -> (r: Option<Single>)
    ensures
        r == angle_at(frames@, time, None),
{
    let mut prev: Option<(Single, Single)> = None;
    let mut i: usize = 0;
    assert(frames@.skip(0) =~= frames@);
    while i < frames.len()
        invariant
            i <= frames@.len(),
            angle_at(frames@, time, None) == angle_at(frames@.skip(i as int), time, prev),
        decreases frames@.len() - i,
    {
        assert(frames@.skip(i as int).drop_first() =~= frames@.skip(i + 1));
        assert(frames@.skip(i as int)[0] == frames@[i as int]);
        let at = frame_time(&frames[i]);
        if let Some(content) = frames[i].field("content") {
            if let Some(angle) = content_rotation(content) {
                if at.le(time) {
                    prev = Some((at, angle));
                } else {
                    return match prev {
                        None => None,
                        Some((t0, a0)) => if t0.lt(at) {
                            let easing = frames[i].field_single("easing").unwrap_or(Single::zero());
                            let t = eased(unit_clamp(time.minus(t0).over(at.minus(t0))), easing);
                            Some(lerp(a0, angle, t))
                        } else {
                            Some(a0)
                        },
                    };
                }
            }
        }
        i = i + 1;
    }
    assert(frames@.skip(i as int).len() == 0);
    match prev {
        Some((_, angle)) => Some(angle),
        None => None,
    }
}

/// What a frame list shows at a time.
pub fn evaluate_frame_list(frames: &Vec<PsbValue>, time: Single) -> (r: DynamicFrameState)
    ensures
        r@ == frame_list_at(frames@, time),
        r@.wf(),
{
    let n: usize = count_leading(frames, time);
    let mut state = DynamicFrameState::default();
    let mut prev: Option<&PsbValue> = None;
    let mut prev_time = Single::zero();
    let mut i: usize = 0;
    while i < n
        invariant
            i <= n <= frames@.len(),
            state@.wf(),
            (Slot {
                state: state@,
                prev: match prev {
                    Some(p) => Some(*p),
                    None => None,
                },
                prev_time,
            }) == slot_after(frames@, i as int),
        decreases n - i,
    {
        let frame = &frames[i];
        let content = frame.field("content");
        if frame.field_i64("type").unwrap_or(3) == 0 && content.is_none() {
            state = DynamicFrameState::default();
            prev = None;
            prev_time = frame_time(frame);
            state.frame_index = Some(i);
        } else if let Some(c) = content {
            merge_frame_content(&mut state, c);
            prev = Some(c);
            prev_time = frame_time(frame);
            state.frame_index = Some(i);
        }
        i = i + 1;
    }
    if n < frames.len() {
        state.next_frame_index = Some(n);
        if let (Some(p), Some(next)) = (prev, frames[n].field("content")) {
            let span = frame_time(&frames[n]).minus(prev_time);
            if span.is_finite() && Single::epsilon().lt(span) {
                let t = eased(
                    unit_clamp(time.minus(prev_time).over(span)),
                    next.field_single("easing").unwrap_or(Single::zero()),
                );
                state.interpolation_t = t;
                interpolate_frame_content(&mut state, p, next, t);
            }
        }
    }
    if let Some(rotation) = evaluate_rotation_keyframes(frames, time) {
        state.rotation_degrees = rotation;
    }
    state
}

/// The largest of a number and the times of the frames.
pub open spec fn latest_frame(frames: Seq<PsbValue>, start: Single) -> Single
    decreases frames.len(),
{
    if frames.len() == 0 {
        start
    } else {
        latest_frame(frames.drop_last(), start).max(spec_frame_time(frames.last()))
    }
}

/// The largest of a number and the frame times of the frames.
pub fn max_frame_list_time(frames: &Vec<PsbValue>) -> (r: Single)
    ensures
        r == latest_frame(frames@, Single::zero()),
{
    let mut r = Single::zero();
    let mut i: usize = 0;
    while i < frames.len()
        invariant
            i <= frames@.len(),
            r == latest_frame(frames@.take(i as int), Single::zero()),
        decreases frames@.len() - i,
    {
        assert(frames@.take(i + 1).drop_last() =~= frames@.take(i as int));
        r = r.max(frame_time(&frames[i]));
        i = i + 1;
    }
    assert(frames@.take(i as int) =~= frames@);
    r
}

/// The list in a field lies deeper than the value.
pub proof fn lemma_list_smaller(value: PsbValue, name: &str)
    requires
        list_of(value.field(name)) is Some,
    ensures
        decreases_to!(value => list_of(value.field(name))->0@),
{
    lemma_field_smaller(value, name);
    let v = *value.field(name)->0;
    assert(decreases_to!(v => v->List_0));
    assert(decreases_to!(v->List_0 => v->List_0@));
}

/// The latest frame time in a layer and in all layers below it.
pub open spec fn layer_latest(layer: PsbValue) -> Single
    decreases layer, 1int,
{
    let own = latest_frame(items_of(layer.field("frameList")), Single::zero());
    let below = match list_of(layer.field("children")) {
        Some(v) => {
            proof {
                lemma_list_smaller(layer, "children");
            }
            layers_latest(v@, own)
        },
        None => own,
    };
    match list_of(layer.field("layer")) {
        Some(v) => {
            proof {
                lemma_list_smaller(layer, "layer");
            }
            layers_latest(v@, below)
        },
        None => below,
    }
}

/// The largest of a number and the latest frame times of the layers.
pub open spec fn layers_latest(layers: Seq<PsbValue>, start: Single) -> Single
    decreases layers, 0int,
{
    if layers.len() == 0 {
        start
    } else {
        layers_latest(layers.drop_last(), start).max(layer_latest(layers.last()))
    }
}

/// The latest frame time in a layer and in all layers below it.
pub fn max_layer_frame_time(layer: &PsbValue) -> (r: Single)
    ensures
        r == layer_latest(*layer),
    decreases layer,
{
    let mut r = Single::zero();
    if let Some(frames) = list_of(layer.field("frameList")) {
        r = max_frame_list_time(frames);
    }
    if let Some(children) = list_of(layer.field("children")) {
        proof {
            lemma_list_smaller(*layer, "children");
        }
        r = max_layers_time(children, r);
    }
    if let Some(children) = list_of(layer.field("layer")) {
        proof {
            lemma_list_smaller(*layer, "layer");
        }
        r = max_layers_time(children, r);
    }
    r
}

/// The largest of a number and the latest frame times of the layers.
fn max_layers_time(layers: &Vec<PsbValue>, start: Single) -> (r: Single)
    ensures
        r == layers_latest(layers@, start),
    decreases layers@,
{
    let mut r = start;
    let mut i: usize = 0;
    while i < layers.len()
        invariant
            i <= layers@.len(),
            r == layers_latest(layers@.take(i as int), start),
        decreases layers@.len() - i,
    {
        assert(layers@.take(i + 1).drop_last() =~= layers@.take(i as int));
        assert(decreases_to!(layers@ => layers@[i as int]));
        r = r.max(max_layer_frame_time(&layers[i]));
        i = i + 1;
    }
    assert(layers@.take(i as int) =~= layers@);
    r
}

/// How long a motion runs: the largest of its own mark and of all frame times in
/// it; none where that is not above zero.
pub open spec fn motion_duration(motion: PsbValue) -> Option<Single> {
    let mark = either(motion.field_single("lastTime"), motion.field_single("loopTime")).unwrap_or(
        Single::zero(),
    ).max(Single::zero());
    let latest = layers_latest(items_of(motion.field("layer")), mark);
    if Single::zero().lt(latest) {
        Some(latest)
    } else {
        None
    }
}

pub fn motion_duration_ticks(motion: &PsbValue) -> (r: Option<Single>)
    ensures
        r == motion_duration(*motion),
{
    let mut latest = either(
        motion.field_single("lastTime"),
        motion.field_single("loopTime"),
    ).unwrap_or(Single::zero()).max(Single::zero());
    if let Some(layers) = list_of(motion.field("layer")) {
        latest = max_layers_time(layers, latest);
    }
    if Single::zero().lt(latest) {
        Some(latest)
    } else {
        None
    }
}

/// The time within a motion that loops; at the start for times that are not
/// positive.
pub open spec fn wrapped_time(time: Single, duration: Single) -> Single {
    if !time.is_finite() || time.le(Single::zero()) {
        Single::zero()
    } else if duration.is_finite() && Single::zero().lt(duration) {
        time.rem_euclid(duration.max(Single::one()))
    } else {
        time
    }
}

pub fn wrap_motion_time(time: Single, duration: Single) -> (r: Single)
    ensures
        r == wrapped_time(time, duration),
{
    if !time.is_finite() || time.le(Single::zero()) {
        return Single::zero();
    }
    if duration.is_finite() && Single::zero().lt(duration) {
        time.rem_euclid(duration.max(Single::one()))
    } else {
        time
    }
}

} // verus!
