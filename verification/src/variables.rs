//! Variables of a model: their ranges, their labelled frames and their state.

use crate::arrange::{arrange, arranged, views, Ranked};
use crate::order::{before, comes_before, TextMap};
use crate::single::Single;
use crate::text::{opt_text, same_text};
use crate::tree::{
    all_nodes, control_leaf_names, control_leaves, list_members, members, names, nodes, unref,
};
use crate::value::{either, field_of, items_of, list_of, PsbValue};
use vstd::prelude::*;

verus! {

/// A labelled value of a variable.
#[derive(Clone, Debug)]
pub struct EmoteVariableFrameInfo {
    pub label: String,
    pub value: Single,
}

/// An `EmoteVariableFrameInfo` by its characters.
#[verifier::ext_equal]
pub struct FrameLabel {
    pub label: Seq<char>,
    pub value: Single,
}

impl View for EmoteVariableFrameInfo {
    type V = FrameLabel;

    open spec fn view(&self) -> FrameLabel {
        FrameLabel { label: self.label@, value: self.value }
    }
}

/// A variable, its range and its labelled values.
#[derive(Clone, Debug)]
pub struct EmoteVariableInfo {
    pub name: String,
    pub default_value: Single,
    pub min_value: Option<Single>,
    pub max_value: Option<Single>,
    pub frames: Vec<EmoteVariableFrameInfo>,
}

/// An `EmoteVariableInfo` by its characters.
#[verifier::ext_equal]
pub struct VarInfo {
    pub name: Seq<char>,
    pub default_value: Single,
    pub min_value: Option<Single>,
    pub max_value: Option<Single>,
    pub frames: Seq<FrameLabel>,
}

impl View for EmoteVariableInfo {
    type V = VarInfo;

    open spec fn view(&self) -> VarInfo {
        VarInfo {
            name: self.name@,
            default_value: self.default_value,
            min_value: self.min_value,
            max_value: self.max_value,
            frames: views(self.frames@),
        }
    }
}

/// Where a variable is moving.
#[derive(Clone, Copy, Debug, PartialEq, Eq, Structural)]
pub struct EmoteVariableTarget {
    pub start_value: Single,
    pub target_value: Single,
    pub elapsed_ticks: Single,
    pub duration_ticks: Single,
    pub easing: Single,
}

/// A variable and its current value.
#[derive(Clone, Debug)]
pub struct EmoteVariableState {
    pub info: EmoteVariableInfo,
    pub value: Single,
    pub target: Option<EmoteVariableTarget>,
}

/// An `EmoteVariableState` by its characters.
#[verifier::ext_equal]
pub struct VarState {
    pub info: VarInfo,
    pub value: Single,
    pub target: Option<EmoteVariableTarget>,
}

impl View for EmoteVariableState {
    type V = VarState;

    open spec fn view(&self) -> VarState {
        VarState { info: self.info@, value: self.value, target: self.target }
    }
}

/// The infos of a map by their characters.
pub open spec fn infos_by_name(m: TextMap<EmoteVariableInfo>) -> Map<Seq<char>, VarInfo> {
    m@.map_values(|i: EmoteVariableInfo| i@)
}

/// A key that orders all numbers, negative zero before zero and NaN at the ends.
pub open spec fn total_rank(x: Single) -> int {
    if x.is_negative() {
        -1 - x.magnitude()
    } else {
        x.magnitude() as int
    }
}

pub fn total_rank_of(x: Single) -> (r: i64)
    ensures
        r == total_rank(x),
{
    if x.is_negative() {
        -1 - x.magnitude() as i64
    } else {
        x.magnitude() as i64
    }
}

impl Ranked for EmoteVariableFrameInfo {
    open spec fn ahead(a: FrameLabel, b: FrameLabel) -> bool {
        if total_rank(a.value) != total_rank(b.value) {
            total_rank(a.value) < total_rank(b.value)
        } else {
            before(a.label, b.label)
        }
    }

    fn goes_ahead(&self, other: &EmoteVariableFrameInfo) -> (r: bool) {
        let own: i64 = total_rank_of(self.value);
        let others: i64 = total_rank_of(other.value);
        if own != others {
            own < others
        } else {
            comes_before(self.label.as_str(), other.label.as_str())
        }
    }
}

impl FrameLabel {
    /// Whether two frames have one label and, but for rounding, one value.
    pub open spec fn repeats(self, other: FrameLabel) -> bool {
        self.label == other.label && self.value.minus(other.value).abs().le(Single::epsilon())
    }
}

impl EmoteVariableFrameInfo {
    pub fn duplicate(&self) -> (r: EmoteVariableFrameInfo)
        ensures
            r@ == self@,
    {
        EmoteVariableFrameInfo { label: self.label.clone(), value: self.value }
    }

    fn repeats(&self, other: &EmoteVariableFrameInfo) -> (r: bool)
        ensures
            r == self@.repeats(other@),
    {
        same_text(self.label.as_str(), other.label.as_str()) && self.value.minus(
            other.value,
        ).abs().le(Single::epsilon())
    }
}

pub fn copy_frames(frames: &Vec<EmoteVariableFrameInfo>) -> (r: Vec<EmoteVariableFrameInfo>)
    ensures
        views(r@) == views(frames@),
{
    let mut r: Vec<EmoteVariableFrameInfo> = Vec::new();
    let mut i: usize = 0;
    while i < frames.len()
        invariant
            i <= frames@.len(),
            r@.len() == i,
            views(r@) == views(frames@).take(i as int),
        decreases frames@.len() - i,
    {
        r.push(frames[i].duplicate());
        assert(views(r@) =~= views(frames@).take(i + 1));
        i = i + 1;
    }
    assert(views(frames@).take(i as int) =~= views(frames@));
    r
}

impl EmoteVariableInfo {
    pub fn duplicate(&self) -> (r: EmoteVariableInfo)
        ensures
            r@ == self@,
    {
        EmoteVariableInfo {
            name: self.name.clone(),
            default_value: self.default_value,
            min_value: self.min_value,
            max_value: self.max_value,
            frames: copy_frames(&self.frames),
        }
    }
}

/// The row without a frame that repeats the one kept before it.
pub open spec fn without_repeats(frames: Seq<FrameLabel>) -> Seq<FrameLabel>
    decreases frames.len(),
{
    if frames.len() == 0 {
        Seq::empty()
    } else {
        let kept = without_repeats(frames.drop_last());
        if kept.len() > 0 && frames.last().repeats(kept.last()) {
            kept
        } else {
            kept.push(frames.last())
        }
    }
}

fn drop_repeats(frames: &Vec<EmoteVariableFrameInfo>) -> (r: Vec<EmoteVariableFrameInfo>)
    ensures
        views(r@) == without_repeats(views(frames@)),
{
    let mut r: Vec<EmoteVariableFrameInfo> = Vec::new();
    let mut i: usize = 0;
    let ghost all = views(frames@);
    assert(views(r@) =~= without_repeats(all.take(0)));
    while i < frames.len()
        invariant
            i <= frames@.len(),
            all == views(frames@),
            views(r@) == without_repeats(all.take(i as int)),
        decreases frames@.len() - i,
    {
        assert(all.take(i + 1).drop_last() =~= all.take(i as int));
        assert(all.take(i + 1).last() == frames@[i as int]@);
        let ghost kept = views(r@);
        assert(kept.len() == r@.len());
        let repeated = if r.len() > 0 {
            assert(kept.last() == r@[r@.len() - 1]@);
            frames[i].repeats(&r[r.len() - 1])
        } else {
            false
        };
        if !repeated {
            r.push(frames[i].duplicate());
            assert(views(r@) =~= kept.push(frames@[i as int]@));
        }
        i = i + 1;
    }
    assert(all.take(i as int) =~= all);
    r
}

/// A text field of the content of a frame.
pub open spec fn content_text(frame: PsbValue, name: &str) -> Option<Seq<char>> {
    match frame.field("content") {
        Some(content) => content.text_field(name),
        None => None,
    }
}

/// A number in the content of a frame.
pub open spec fn spec_content_single(frame: PsbValue, name: &str) -> Option<Single> {
    match frame.field("content") {
        Some(content) => content.field_single(name),
        None => None,
    }
}

fn content_single(frame: &PsbValue, name: &str) -> (r: Option<Single>)
    ensures
        r == spec_content_single(*frame, name),
{
    match frame.field("content") {
        Some(content) => content.field_single(name),
        None => None,
    }
}

/// The label of a frame, on it or in its content.
pub open spec fn frame_label(frame: PsbValue) -> Option<Seq<char>> {
    either(frame.text_field("label"), content_text(frame, "label"))
}

pub fn find_frame_label<'a>(frame: &'a PsbValue) -> (r: Option<&'a str>)
    ensures
        opt_text(r) == frame_label(*frame),
{
    match frame.field_str("label") {
        Some(s) => Some(s),
        None => match frame.field("content") {
            Some(content) => content.field_str("label"),
            None => None,
        },
    }
}

/// The value of a frame, as frame number or value, on it or in its content.
pub open spec fn frame_value(frame: PsbValue) -> Option<Single> {
    either(
        frame.field_single("frame"),
        either(
            spec_content_single(frame, "frame"),
            either(frame.field_single("value"), spec_content_single(frame, "value")),
        ),
    )
}

pub fn find_frame_value(frame: &PsbValue) -> (r: Option<Single>)
    ensures
        r == frame_value(*frame),
{
    either(
        frame.field_single("frame"),
        either(
            content_single(frame, "frame"),
            either(frame.field_single("value"), content_single(frame, "value")),
        ),
    )
}

/// The labelled values that the frames name, as they come.
pub open spec fn labelled_frames(frames: Seq<PsbValue>) -> Seq<FrameLabel>
    decreases frames.len(),
{
    if frames.len() == 0 {
        Seq::empty()
    } else {
        let rest = labelled_frames(frames.drop_last());
        match frame_value(frames.last()) {
            Some(value) => if value.is_finite() {
                rest.push(
                    FrameLabel {
                        label: frame_label(frames.last()).unwrap_or(Seq::empty()),
                        value,
                    },
                )
            } else {
                rest
            },
            None => rest,
        }
    }
}

/// The labelled values of a variable, by value and label, none repeated.
pub open spec fn frames_of(value: PsbValue) -> Seq<FrameLabel> {
    without_repeats(
        arranged::<EmoteVariableFrameInfo>(labelled_frames(items_of(value.field("frameList")))),
    )
}

pub fn variable_frame_infos(value: &PsbValue) -> (r: Vec<EmoteVariableFrameInfo>)
    ensures
        views(r@) == frames_of(*value),
{
    let mut found: Vec<EmoteVariableFrameInfo> = Vec::new();
    assert(views(found@) =~= labelled_frames(Seq::empty()));
    if let Some(list) = list_of(value.field("frameList")) {
        let mut i: usize = 0;
        assert(list@.take(0) =~= Seq::<PsbValue>::empty());
        while i < list.len()
            invariant
                i <= list@.len(),
                views(found@) == labelled_frames(list@.take(i as int)),
            decreases list@.len() - i,
        {
            assert(list@.take(i + 1).drop_last() =~= list@.take(i as int));
            let ghost was = views(found@);
            if let Some(v) = find_frame_value(&list[i]) {
                if v.is_finite() {
                    let label = match find_frame_label(&list[i]) {
                        Some(s) => s.to_owned(),
                        None => String::new(),
                    };
                    found.push(EmoteVariableFrameInfo { label, value: v });
                    assert(views(found@) =~= was.push(
                        FrameLabel {
                            label: frame_label(list@[i as int]).unwrap_or(Seq::empty()),
                            value: v,
                        },
                    ));
                }
            }
            i = i + 1;
        }
        assert(list@.take(i as int) =~= list@);
    }
    let sorted = arrange(found);
    drop_repeats(&sorted)
}

/// The smallest value, where there is one.
pub open spec fn least(frames: Seq<FrameLabel>) -> Option<Single>
    decreases frames.len(),
{
    if frames.len() == 0 {
        None
    } else {
        match least(frames.drop_last()) {
            Some(v) => Some(v.min(frames.last().value)),
            None => Some(frames.last().value),
        }
    }
}

/// The largest value, where there is one.
pub open spec fn greatest(frames: Seq<FrameLabel>) -> Option<Single>
    decreases frames.len(),
{
    if frames.len() == 0 {
        None
    } else {
        match greatest(frames.drop_last()) {
            Some(v) => Some(v.max(frames.last().value)),
            None => Some(frames.last().value),
        }
    }
}

pub fn find_least(frames: &Vec<EmoteVariableFrameInfo>) -> (r: Option<Single>)
    ensures
        r == least(views(frames@)),
{
    let mut r: Option<Single> = None;
    let mut i: usize = 0;
    let ghost all = views(frames@);
    while i < frames.len()
        invariant
            i <= frames@.len(),
            all == views(frames@),
            r == least(all.take(i as int)),
        decreases frames@.len() - i,
    {
        assert(all.take(i + 1).drop_last() =~= all.take(i as int));
        assert(all.take(i + 1).last() == frames@[i as int]@);
        r = match r {
            Some(v) => Some(v.min(frames[i].value)),
            None => Some(frames[i].value),
        };
        i = i + 1;
    }
    assert(all.take(i as int) =~= all);
    r
}

pub fn find_greatest(frames: &Vec<EmoteVariableFrameInfo>) -> (r: Option<Single>)
    ensures
        r == greatest(views(frames@)),
{
    let mut r: Option<Single> = None;
    let mut i: usize = 0;
    let ghost all = views(frames@);
    while i < frames.len()
        invariant
            i <= frames@.len(),
            all == views(frames@),
            r == greatest(all.take(i as int)),
        decreases frames@.len() - i,
    {
        assert(all.take(i + 1).drop_last() =~= all.take(i as int));
        assert(all.take(i + 1).last() == frames@[i as int]@);
        r = match r {
            Some(v) => Some(v.max(frames[i].value)),
            None => Some(frames[i].value),
        };
        i = i + 1;
    }
    assert(all.take(i as int) =~= all);
    r
}

/// A text field that is not empty.
pub open spec fn filled_field(value: PsbValue, name: &str) -> Option<Seq<char>> {
    match value.text_field(name) {
        Some(s) => if s.len() > 0 {
            Some(s)
        } else {
            None
        },
        None => None,
    }
}

fn find_filled_field<'a>(value: &'a PsbValue, name: &str) -> (r: Option<&'a str>)
    ensures
        opt_text(r) == filled_field(*value, name),
{
    match value.field_str(name) {
        Some(s) => if s.is_empty() {
            None
        } else {
            Some(s)
        },
        None => None,
    }
}

/// The name that an object gives a variable.
pub open spec fn object_name(value: PsbValue) -> Option<Seq<char>> {
    either(
        filled_field(value, "id"),
        either(
            filled_field(value, "key"),
            either(filled_field(value, "name"), filled_field(value, "label")),
        ),
    )
}

pub fn variable_object_name<'a>(value: &'a PsbValue) -> (r: Option<&'a str>)
    ensures
        opt_text(r) == object_name(*value),
{
    either(
        find_filled_field(value, "id"),
        either(
            find_filled_field(value, "key"),
            either(find_filled_field(value, "name"), find_filled_field(value, "label")),
        ),
    )
}

/// A range with one more value in it; what is not finite is left out.
pub open spec fn widened(
    range: (Option<Single>, Option<Single>),
    value: Single,
) -> (Option<Single>, Option<Single>) {
    if !value.is_finite() {
        range
    } else {
        (
            match range.0 {
                Some(min) => Some(min.min(value)),
                None => Some(value),
            },
            match range.1 {
                Some(max) => Some(max.max(value)),
                None => Some(value),
            },
        )
    }
}

impl VarInfo {
    pub open spec fn widened(self, value: Single) -> VarInfo {
        let range = widened((self.min_value, self.max_value), value);
        VarInfo { min_value: range.0, max_value: range.1, ..self }
    }

    pub open spec fn widened_by(self, value: Option<Single>) -> VarInfo {
        match value {
            Some(v) => self.widened(v),
            None => self,
        }
    }

    /// With one more labelled value, where it repeats none.
    pub open spec fn with_frame(self, frame: FrameLabel) -> VarInfo {
        if exists|i: int| 0 <= i < self.frames.len() && (#[trigger] self.frames[i]).repeats(frame) {
            self
        } else {
            VarInfo { frames: self.frames.push(frame), ..self.widened(frame.value) }
        }
    }

    pub open spec fn with_frames(self, frames: Seq<FrameLabel>) -> VarInfo
        decreases frames.len(),
    {
        if frames.len() == 0 {
            self
        } else {
            self.with_frames(frames.drop_last()).with_frame(frames.last())
        }
    }

    /// With what another description of the variable adds. The default is taken
    /// over from the first description that has labelled values.
    pub open spec fn merged(self, next: VarInfo) -> VarInfo {
        let own = if self.frames.len() == 0 && next.frames.len() > 0 {
            VarInfo { default_value: next.default_value, ..self }
        } else {
            self
        };
        own.widened_by(next.min_value).widened_by(next.max_value).with_frames(next.frames)
    }

    /// The value held in the range.
    pub open spec fn clamp(self, value: Single) -> Single {
        let low = match self.min_value {
            Some(min) => value.max(min),
            None => value,
        };
        match self.max_value {
            Some(max) => low.min(max),
            None => low,
        }
    }
}

/// A variable known by its name and a value only.
pub open spec fn fresh_info(name: Seq<char>, value: Single) -> VarInfo {
    VarInfo {
        name,
        default_value: value,
        min_value: None,
        max_value: None,
        frames: Seq::empty(),
    }
}

pub open spec fn fresh_state(name: Seq<char>, value: Single) -> VarState {
    VarState { info: fresh_info(name, value), value, target: None }
}

impl EmoteVariableInfo {
    pub fn fresh(name: &str, value: Single) -> (r: EmoteVariableInfo)
        ensures
            r@ == fresh_info(name@, value),
    {
        let r = EmoteVariableInfo {
            name: name.to_owned(),
            default_value: value,
            min_value: None,
            max_value: None,
            frames: Vec::new(),
        };
        assert(r@.frames =~= Seq::<FrameLabel>::empty());
        r
    }

    pub fn widen(&mut self, value: Single)
        ensures
            final(self)@ == old(self)@.widened(value),
    {
        if value.is_finite() {
            self.min_value = match self.min_value {
                Some(min) => Some(min.min(value)),
                None => Some(value),
            };
            self.max_value = match self.max_value {
                Some(max) => Some(max.max(value)),
                None => Some(value),
            };
        }
    }

    fn widen_by(&mut self, value: Option<Single>)
        ensures
            final(self)@ == old(self)@.widened_by(value),
    {
        if let Some(v) = value {
            self.widen(v);
        }
    }

    fn add_frame(&mut self, frame: &EmoteVariableFrameInfo)
        ensures
            final(self)@ == old(self)@.with_frame(frame@),
    {
        let mut i: usize = 0;
        while i < self.frames.len()
            invariant
                i <= self.frames@.len(),
                self@ == old(self)@,
                forall|j: int| 0 <= j < i ==> !(#[trigger] self.frames@[j])@.repeats(frame@),
            decreases self.frames@.len() - i,
        {
            if self.frames[i].repeats(frame) {
                assert(self@.frames[i as int].repeats(frame@));
                return;
            }
            i = i + 1;
        }
        proof {
            assert forall|j: int| 0 <= j < self@.frames.len() implies !(#[trigger] self@.frames[j]).repeats(
                frame@,
            ) by {
                assert(!self.frames@[j]@.repeats(frame@));
            }
        }
        self.widen(frame.value);
        let ghost was = self@.frames;
        self.frames.push(frame.duplicate());
        assert(self@.frames =~= was.push(frame@));
    }

    /// Takes over what another description of the variable adds.
    pub fn merge(&mut self, next: &EmoteVariableInfo)
        ensures
            final(self)@ == old(self)@.merged(next@),
    {
        assert(self@.frames.len() == self.frames@.len());
        assert(next@.frames.len() == next.frames@.len());
        if self.frames.len() == 0 && next.frames.len() > 0 {
            self.default_value = next.default_value;
        }
        self.widen_by(next.min_value);
        self.widen_by(next.max_value);
        let ghost start = self@;
        let mut i: usize = 0;
        let ghost all = next@.frames;
        while i < next.frames.len()
            invariant
                i <= next.frames@.len(),
                all == views(next.frames@),
                self@ == start.with_frames(all.take(i as int)),
            decreases next.frames@.len() - i,
        {
            assert(all.take(i + 1).drop_last() =~= all.take(i as int));
            assert(all.take(i + 1).last() == next.frames@[i as int]@);
            self.add_frame(&next.frames[i]);
            i = i + 1;
        }
        assert(all.take(i as int) =~= all);
    }

    /// The value held in the range.
    pub fn clamp(&self, value: Single) -> (r: Single)
        ensures
            r == self@.clamp(value),
    {
        let low = match self.min_value {
            Some(min) => value.max(min),
            None => value,
        };
        match self.max_value {
            Some(max) => low.min(max),
            None => low,
        }
    }
}

impl EmoteVariableState {
    pub fn fresh(name: &str, value: Single) -> (r: EmoteVariableState)
        ensures
            r@ == fresh_state(name@, value),
    {
        EmoteVariableState { info: EmoteVariableInfo::fresh(name, value), value, target: None }
    }

    pub fn duplicate(&self) -> (r: EmoteVariableState)
        ensures
            r@ == self@,
    {
        EmoteVariableState { info: self.info.duplicate(), value: self.value, target: self.target }
    }
}

/// The variable that a value describes.
pub open spec fn described(value: PsbValue, name: Seq<char>) -> VarInfo {
    let frames = frames_of(value);
    let first = if frames.len() > 0 {
        Some(frames[0].value)
    } else {
        None
    };
    VarInfo {
        name,
        default_value: either(
            value.field_single("default"),
            either(
                value.field_single("defaultValue"),
                either(
                    value.field_single("initial"),
                    either(
                        value.field_single("curValue"),
                        either(value.field_single("value"), first),
                    ),
                ),
            ),
        ).unwrap_or(Single::zero()),
        min_value: either(
            value.field_single("min"),
            either(
                value.field_single("minValue"),
                either(value.field_single("rangeBegin"), least(frames)),
            ),
        ),
        max_value: either(
            value.field_single("max"),
            either(
                value.field_single("maxValue"),
                either(value.field_single("rangeEnd"), greatest(frames)),
            ),
        ),
        frames,
    }
}

fn describe(value: &PsbValue, name: &str) -> (r: EmoteVariableInfo)
    ensures
        r@ == described(*value, name@),
{
    let frames = variable_frame_infos(value);
    let lowest = find_least(&frames);
    let highest = find_greatest(&frames);
    assert(views(frames@).len() == frames@.len());
    let first = if frames.len() > 0 {
        Some(frames[0].value)
    } else {
        None
    };
    EmoteVariableInfo {
        name: name.to_owned(),
        default_value: either(
            value.field_single("default"),
            either(
                value.field_single("defaultValue"),
                either(
                    value.field_single("initial"),
                    either(
                        value.field_single("curValue"),
                        either(value.field_single("value"), first),
                    ),
                ),
            ),
        ).unwrap_or(Single::zero()),
        min_value: either(
            value.field_single("min"),
            either(
                value.field_single("minValue"),
                either(value.field_single("rangeBegin"), lowest),
            ),
        ),
        max_value: either(
            value.field_single("max"),
            either(
                value.field_single("maxValue"),
                either(value.field_single("rangeEnd"), highest),
            ),
        ),
        frames,
    }
}

/// The variables with one more description.
pub open spec fn with_info(m: Map<Seq<char>, VarInfo>, next: VarInfo) -> Map<Seq<char>, VarInfo> {
    let old_info = if m.dom().contains(next.name) {
        m[next.name]
    } else {
        next
    };
    m.insert(next.name, old_info.merged(next))
}

/// Adds a description to the variables.
pub fn merge_variable_info(next: EmoteVariableInfo, out: &mut TextMap<EmoteVariableInfo>)
    requires
        old(out).wf(),
    ensures
        final(out).wf(),
        infos_by_name(*final(out)) == with_info(infos_by_name(*old(out)), next@),
{
    let ghost start = *out;
    match out.find(next.name.as_str()) {
        Some(i) => {
            let entry = out.value_mut(i);
            entry.merge(&next);
            let ghost now = *entry;
            proof {
                out.lemma_changed(start, i as int, now);
                assert(infos_by_name(*out) =~= with_info(infos_by_name(start), next@));
            }
        },
        None => {
            let mut entry = next.duplicate();
            entry.merge(&next);
            out.insert(next.name.clone(), entry);
            assert(infos_by_name(*out) =~= with_info(infos_by_name(start), next@));
        },
    }
}

/// The variables with the one that a value describes, if it names one.
pub open spec fn with_described(m: Map<Seq<char>, VarInfo>, value: PsbValue) -> Map<
    Seq<char>,
    VarInfo,
> {
    match object_name(value) {
        Some(name) => with_info(m, described(value, name)),
        None => m,
    }
}

/// The variables with those that a row describes.
pub open spec fn with_all(m: Map<Seq<char>, VarInfo>, row: Seq<PsbValue>) -> Map<
    Seq<char>,
    VarInfo,
>
    decreases row.len(),
{
    if row.len() == 0 {
        m
    } else {
        with_described(with_all(m, row.drop_last()), row.last())
    }
}

pub fn collect_one_variable(value: &PsbValue, out: &mut TextMap<EmoteVariableInfo>)
    requires
        old(out).wf(),
    ensures
        final(out).wf(),
        infos_by_name(*final(out)) == with_described(infos_by_name(*old(out)), *value),
{
    if let Some(name) = variable_object_name(value) {
        let next = describe(value, name);
        merge_variable_info(next, out);
    }
}

pub fn collect_variable_list(value: Option<&PsbValue>, out: &mut TextMap<EmoteVariableInfo>)
    requires
        old(out).wf(),
    ensures
        final(out).wf(),
        infos_by_name(*final(out)) == with_all(infos_by_name(*old(out)), members(value)),
{
    let row = list_members(value);
    let ghost start = infos_by_name(*out);
    let ghost all = unref(row@);
    let mut i: usize = 0;
    while i < row.len()
        invariant
            i <= row@.len(),
            out.wf(),
            all == unref(row@),
            infos_by_name(*out) == with_all(start, all.take(i as int)),
        decreases row@.len() - i,
    {
        assert(all.take(i + 1).drop_last() =~= all.take(i as int));
        assert(all.take(i + 1).last() == *row@[i as int]);
        collect_one_variable(row[i], out);
        i = i + 1;
    }
    assert(all.take(i as int) =~= all);
}

/// The variables with those that a control and the controls below it describe.
pub open spec fn with_controls(m: Map<Seq<char>, VarInfo>, row: Seq<PsbValue>) -> Map<
    Seq<char>,
    VarInfo,
>
    decreases row.len(),
{
    if row.len() == 0 {
        m
    } else {
        let node = row.last();
        let own = with_described(with_controls(m, row.drop_last()), node);
        let listed = with_all(
            with_all(own, members(node.field("variableList"))),
            members(node.field("variables")),
        );
        match node.field("variable") {
            Some(variable) => with_described(listed, *variable),
            None => listed,
        }
    }
}

pub fn collect_control_variables(value: &PsbValue, out: &mut TextMap<EmoteVariableInfo>)
    requires
        old(out).wf(),
    ensures
        final(out).wf(),
        infos_by_name(*final(out)) == with_controls(
            infos_by_name(*old(out)),
            nodes(*value, control_leaves()),
        ),
{
    let leaves = control_leaf_names();
    let row = all_nodes(value, &leaves);
    let ghost start = infos_by_name(*out);
    let ghost all = unref(row@);
    let mut i: usize = 0;
    while i < row.len()
        invariant
            i <= row@.len(),
            out.wf(),
            all == unref(row@),
            infos_by_name(*out) == with_controls(start, all.take(i as int)),
        decreases row@.len() - i,
    {
        assert(all.take(i + 1).drop_last() =~= all.take(i as int));
        let node = row[i];
        assert(all.take(i + 1).last() == *node);
        collect_one_variable(node, out);
        collect_variable_list(node.field("variableList"), out);
        collect_variable_list(node.field("variables"), out);
        if let Some(variable) = node.field("variable") {
            collect_one_variable(variable, out);
        }
        i = i + 1;
    }
    assert(all.take(i as int) =~= all);
}

/// The variables with those of all parameter lists of a row of nodes.
pub open spec fn with_parameters(m: Map<Seq<char>, VarInfo>, row: Seq<PsbValue>) -> Map<
    Seq<char>,
    VarInfo,
>
    decreases row.len(),
{
    if row.len() == 0 {
        m
    } else {
        with_all(
            with_parameters(m, row.drop_last()),
            members(row.last().field("parameter")),
        )
    }
}

pub fn collect_parameter_variables(value: &PsbValue, out: &mut TextMap<EmoteVariableInfo>)
    requires
        old(out).wf(),
    ensures
        final(out).wf(),
        infos_by_name(*final(out)) == with_parameters(
            infos_by_name(*old(out)),
            nodes(*value, seq!["parameter"@]),
        ),
{
    let mut skip: Vec<&str> = Vec::new();
    skip.push("parameter");
    assert(names(skip@) =~= seq!["parameter"@]);
    let row = all_nodes(value, &skip);
    let ghost start = infos_by_name(*out);
    let ghost all = unref(row@);
    let mut i: usize = 0;
    while i < row.len()
        invariant
            i <= row@.len(),
            out.wf(),
            all == unref(row@),
            infos_by_name(*out) == with_parameters(start, all.take(i as int)),
        decreases row@.len() - i,
    {
        assert(all.take(i + 1).drop_last() =~= all.take(i as int));
        let node = row[i];
        assert(all.take(i + 1).last() == *node);
        collect_variable_list(node.field("parameter"), out);
        i = i + 1;
    }
    assert(all.take(i as int) =~= all);
}

/// The variables with those of a row of combinators.
pub open spec fn with_combinators(m: Map<Seq<char>, VarInfo>, row: Seq<PsbValue>) -> Map<
    Seq<char>,
    VarInfo,
>
    decreases row.len(),
{
    if row.len() == 0 {
        m
    } else {
        let rest = with_combinators(m, row.drop_last());
        match row.last().field("variable") {
            Some(variable) => with_described(rest, *variable),
            None => rest,
        }
    }
}

/// The combinators of a node.
pub open spec fn node_combinators(node: PsbValue) -> Seq<PsbValue> {
    items_of(field_of(node.field("meshCombinator"), "combinatorList"))
}

/// The variables with those of all combinators of a row of nodes.
pub open spec fn with_meshes(m: Map<Seq<char>, VarInfo>, row: Seq<PsbValue>) -> Map<
    Seq<char>,
    VarInfo,
>
    decreases row.len(),
{
    if row.len() == 0 {
        m
    } else {
        with_combinators(with_meshes(m, row.drop_last()), node_combinators(row.last()))
    }
}

fn collect_combinators(node: &PsbValue, out: &mut TextMap<EmoteVariableInfo>)
    requires
        old(out).wf(),
    ensures
        final(out).wf(),
        infos_by_name(*final(out)) == with_combinators(
            infos_by_name(*old(out)),
            node_combinators(*node),
        ),
{
    let ghost start = infos_by_name(*out);
    if let Some(list) = list_of(field_of(node.field("meshCombinator"), "combinatorList")) {
        let mut i: usize = 0;
        while i < list.len()
            invariant
                i <= list@.len(),
                out.wf(),
                infos_by_name(*out) == with_combinators(start, list@.take(i as int)),
            decreases list@.len() - i,
        {
            assert(list@.take(i + 1).drop_last() =~= list@.take(i as int));
            if let Some(variable) = list[i].field("variable") {
                collect_one_variable(variable, out);
            }
            i = i + 1;
        }
        assert(list@.take(i as int) =~= list@);
    }
}

pub fn collect_mesh_combinator_variables(value: &PsbValue, out: &mut TextMap<EmoteVariableInfo>)
    requires
        old(out).wf(),
    ensures
        final(out).wf(),
        infos_by_name(*final(out)) == with_meshes(
            infos_by_name(*old(out)),
            nodes(*value, Seq::empty()),
        ),
{
    let skip: Vec<&str> = Vec::new();
    assert(names(skip@) =~= Seq::<Seq<char>>::empty());
    let row = all_nodes(value, &skip);
    let ghost start = infos_by_name(*out);
    let ghost all = unref(row@);
    let mut i: usize = 0;
    while i < row.len()
        invariant
            i <= row@.len(),
            out.wf(),
            all == unref(row@),
            infos_by_name(*out) == with_meshes(start, all.take(i as int)),
        decreases row@.len() - i,
    {
        assert(all.take(i + 1).drop_last() =~= all.take(i as int));
        assert(all.take(i + 1).last() == *row@[i as int]);
        collect_combinators(row[i], out);
        i = i + 1;
    }
    assert(all.take(i as int) =~= all);
}

} // verus!
