//! Timelines: tracks of variable values, and the timelines that a document holds.

use crate::arrange::{
    arrange, arranged, lemma_arranged_in_order, lemma_arranged_same_items, views, Ranked,
};
use crate::curve::{eased, lerp, unit_clamp};
use crate::decimal::{decimal_number, parse_single};
use crate::numerals::{decimal, decimal_u64};
use crate::order::{
    before, comes_before, lemma_before_irreflexive, lemma_before_total, lemma_before_transitive,
    TextMap,
};
use crate::single::Single;
use crate::text::{clone_opt, concat_text, join_two, opt_owned, opt_string, same_text};
use crate::tree::{
    all_nodes, control_key, control_keys, control_leaf_names, control_leaves, list_members, members,
    nodes, unref,
};
use crate::value::{
    either, lemma_entry_smaller, lemma_field_smaller, lemma_item_smaller, list_of, PsbValue,
};
use crate::variables::{
    find_frame_label, find_frame_value, frame_label, frame_value, object_name, total_rank,
    total_rank_of, variable_object_name,
};
use vstd::prelude::*;

verus! {

/// A value at a time, with the easing that leads to it.
#[derive(Clone, Copy, Debug, PartialEq, Eq, Structural)]
pub struct EmoteTimelineFrame {
    pub time_ticks: Single,
    pub value: Single,
    pub easing: Single,
}

impl View for EmoteTimelineFrame {
    type V = EmoteTimelineFrame;

    open spec fn view(&self) -> EmoteTimelineFrame {
        *self
    }
}

/// The values of one variable over time.
#[derive(Clone, Debug)]
pub struct EmoteTimelineVariable {
    pub name: String,
    pub frames: Vec<EmoteTimelineFrame>,
}

/// An `EmoteTimelineVariable` by its characters.
#[verifier::ext_equal]
pub struct Track {
    pub name: Seq<char>,
    pub frames: Seq<EmoteTimelineFrame>,
}

impl View for EmoteTimelineVariable {
    type V = Track;

    open spec fn view(&self) -> Track {
        Track { name: self.name@, frames: self.frames@ }
    }
}

/// A named row of tracks.
#[derive(Clone, Debug)]
pub struct EmoteTimeline {
    pub name: String,
    pub path: Option<String>,
    pub duration_ticks: Single,
    pub variables: Vec<EmoteTimelineVariable>,
    pub is_difference: bool,
}

/// An `EmoteTimeline` by its characters.
#[verifier::ext_equal]
pub struct Timeline {
    pub name: Seq<char>,
    pub path: Option<Seq<char>>,
    pub duration_ticks: Single,
    pub tracks: Seq<Track>,
    pub is_difference: bool,
}

impl View for EmoteTimeline {
    type V = Timeline;

    open spec fn view(&self) -> Timeline {
        Timeline {
            name: self.name@,
            path: opt_string(self.path),
            duration_ticks: self.duration_ticks,
            tracks: views(self.variables@),
            is_difference: self.is_difference,
        }
    }
}

fn copy_track(track: &EmoteTimelineVariable) -> (r: EmoteTimelineVariable)
    ensures
        r@ == track@,
{
    let mut frames: Vec<EmoteTimelineFrame> = Vec::new();
    let mut i: usize = 0;
    while i < track.frames.len()
        invariant
            i <= track.frames@.len(),
            frames@ == track.frames@.take(i as int),
        decreases track.frames@.len() - i,
    {
        frames.push(track.frames[i]);
        assert(frames@ =~= track.frames@.take(i + 1));
        i = i + 1;
    }
    assert(track.frames@.take(i as int) =~= track.frames@);
    EmoteTimelineVariable { name: track.name.clone(), frames }
}

impl EmoteTimeline {
    pub fn duplicate(&self) -> (r: EmoteTimeline)
        ensures
            r@ == self@,
    {
        let mut variables: Vec<EmoteTimelineVariable> = Vec::new();
        let mut i: usize = 0;
        while i < self.variables.len()
            invariant
                i <= self.variables@.len(),
                variables@.len() == i,
                views(variables@) == views(self.variables@).take(i as int),
            decreases self.variables@.len() - i,
        {
            variables.push(copy_track(&self.variables[i]));
            assert(views(variables@) =~= views(self.variables@).take(i + 1));
            i = i + 1;
        }
        assert(views(self.variables@).take(i as int) =~= views(self.variables@));
        EmoteTimeline {
            name: self.name.clone(),
            path: clone_opt(&self.path),
            duration_ticks: self.duration_ticks,
            variables,
            is_difference: self.is_difference,
        }
    }
}

/// How many leading frames lie before the time.
pub open spec fn passed(frames: Seq<EmoteTimelineFrame>, time: Single) -> nat
    decreases frames.len(),
{
    if frames.len() > 0 && !time.le(frames[0].time_ticks) {
        1 + passed(frames.drop_first(), time)
    } else {
        0
    }
}

pub proof fn lemma_passed(frames: Seq<EmoteTimelineFrame>, time: Single)
    ensures
        passed(frames, time) <= frames.len(),
    decreases frames.len(),
{
    if frames.len() > 0 {
        lemma_passed(frames.drop_first(), time);
    }
}

/// The value on the way from one frame to the next.
pub open spec fn spec_on_the_way(
    prev: EmoteTimelineFrame,
    next: EmoteTimelineFrame,
    time: Single,
) -> Single {
    let span = next.time_ticks.minus(prev.time_ticks).max(Single::zero());
    if span.le(Single::epsilon()) {
        next.value
    } else {
        let t = unit_clamp(time.minus(prev.time_ticks).over(span));
        lerp(prev.value, next.value, eased(t, next.easing))
    }
}

fn on_the_way(prev: EmoteTimelineFrame, next: EmoteTimelineFrame, time: Single) -> (r: Single)
    ensures
        r == spec_on_the_way(prev, next, time),
{
    let span = next.time_ticks.minus(prev.time_ticks).max(Single::zero());
    if span.le(Single::epsilon()) {
        next.value
    } else {
        let t = unit_clamp(time.minus(prev.time_ticks).over(span));
        lerp(prev.value, next.value, eased(t, next.easing))
    }
}

/// The value of a track at a time: the first value up to the first frame, the last
/// one behind the last, in between on the way to the first frame not passed.
pub open spec fn track_value(frames: Seq<EmoteTimelineFrame>, time: Single) -> Single {
    let n = passed(frames, time) as int;
    if frames.len() == 0 {
        Single::zero()
    } else if n == 0 {
        frames[0].value
    } else if n < frames.len() {
        spec_on_the_way(frames[n - 1], frames[n], time)
    } else {
        frames.last().value
    }
}

pub fn evaluate_timeline_variable(variable: &EmoteTimelineVariable, time: Single) -> (r: Single)
    ensures
        r == track_value(variable@.frames, time),
{
    let frames = &variable.frames;
    if frames.len() == 0 {
        return Single::zero();
    }
    let mut n: usize = 0;
    assert(frames@.skip(0) =~= frames@);
    while n < frames.len() && !time.le(frames[n].time_ticks)
        invariant
            n <= frames@.len(),
            passed(frames@, time) == n + passed(frames@.skip(n as int), time),
        decreases frames@.len() - n,
    {
        assert(frames@.skip(n as int).drop_first() =~= frames@.skip(n + 1));
        n = n + 1;
    }
    if n == 0 {
        frames[0].value
    } else if n < frames.len() {
        on_the_way(frames[n - 1], frames[n], time)
    } else {
        frames[frames.len() - 1].value
    }
}

/// What the labels of each variable stand for.
pub open spec fn aliases_view(m: TextMap<TextMap<Single>>) -> Map<Seq<char>, Map<Seq<char>, Single>> {
    m@.map_values(|t: TextMap<Single>| t@)
}

/// Both the map and the maps in it are in order.
pub open spec fn aliases_wf(m: TextMap<TextMap<Single>>) -> bool {
    &&& m.wf()
    &&& forall|k: Seq<char>| #[trigger] m@.dom().contains(k) ==> m@[k].wf()
}

/// The labels with those of a row of frames.
pub open spec fn with_labels(labels: Map<Seq<char>, Single>, frames: Seq<PsbValue>) -> Map<
    Seq<char>,
    Single,
>
    decreases frames.len(),
{
    if frames.len() == 0 {
        labels
    } else {
        let rest = with_labels(labels, frames.drop_last());
        match (frame_label(frames.last()), frame_value(frames.last())) {
            (Some(label), Some(value)) => if label.len() > 0 && value.is_finite() {
                rest.insert(label, value)
            } else {
                rest
            },
            _ => rest,
        }
    }
}

/// The aliases with those of one variable.
pub open spec fn with_alias(
    m: Map<Seq<char>, Map<Seq<char>, Single>>,
    variable: PsbValue,
) -> Map<Seq<char>, Map<Seq<char>, Single>> {
    match (object_name(variable), list_of(variable.field("frameList"))) {
        (Some(name), Some(frames)) => m.insert(name, with_labels(labels_of(m, name), frames@)),
        _ => m,
    }
}

/// The labels of a variable.
pub open spec fn labels_of(m: Map<Seq<char>, Map<Seq<char>, Single>>, name: Seq<char>) -> Map<
    Seq<char>,
    Single,
> {
    if m.dom().contains(name) {
        m[name]
    } else {
        Map::empty()
    }
}

pub open spec fn with_aliases(
    m: Map<Seq<char>, Map<Seq<char>, Single>>,
    row: Seq<PsbValue>,
) -> Map<Seq<char>, Map<Seq<char>, Single>>
    decreases row.len(),
{
    if row.len() == 0 {
        m
    } else {
        with_alias(with_aliases(m, row.drop_last()), row.last())
    }
}

fn add_labels(labels: &mut TextMap<Single>, frames: &Vec<PsbValue>)
    requires
        old(labels).wf(),
    ensures
        final(labels).wf(),
        final(labels)@ == with_labels(old(labels)@, frames@),
{
    let ghost start = labels@;
    let mut i: usize = 0;
    while i < frames.len()
        invariant
            i <= frames@.len(),
            labels.wf(),
            labels@ == with_labels(start, frames@.take(i as int)),
        decreases frames@.len() - i,
    {
        assert(frames@.take(i + 1).drop_last() =~= frames@.take(i as int));
        let frame = &frames[i];
        if let Some(label) = find_frame_label(frame) {
            if let Some(value) = find_frame_value(frame) {
                if !label.is_empty() && value.is_finite() {
                    labels.insert(label.to_owned(), value);
                }
            }
        }
        i = i + 1;
    }
    assert(frames@.take(i as int) =~= frames@);
}

fn collect_one_alias(variable: &PsbValue, out: &mut TextMap<TextMap<Single>>)
    requires
        aliases_wf(*old(out)),
    ensures
        aliases_wf(*final(out)),
        aliases_view(*final(out)) == with_alias(aliases_view(*old(out)), *variable),
{
    let name = match variable_object_name(variable) {
        Some(n) => n,
        None => {
            return;
        },
    };
    let frames = match list_of(variable.field("frameList")) {
        Some(f) => f,
        None => {
            return;
        },
    };
    let ghost start = *out;
    let mut labels: TextMap<Single> = match out.get(name) {
        Some(l) => l.duplicate(),
        None => TextMap::new(),
    };
    assert(labels@ == labels_of(aliases_view(start), name@));
    add_labels(&mut labels, frames);
    out.insert(name.to_owned(), labels);
    proof {
        assert(aliases_view(*out) =~= with_alias(aliases_view(start), *variable));
        assert forall|k: Seq<char>| #[trigger] out@.dom().contains(k) implies out@[k].wf() by {
            if k != name@ {
                assert(start@.dom().contains(k));
            }
        }
    }
}

fn collect_alias_list(value: Option<&PsbValue>, out: &mut TextMap<TextMap<Single>>)
    requires
        aliases_wf(*old(out)),
    ensures
        aliases_wf(*final(out)),
        aliases_view(*final(out)) == with_aliases(aliases_view(*old(out)), members(value)),
{
    let row = list_members(value);
    let ghost start = aliases_view(*out);
    let ghost all = unref(row@);
    let mut i: usize = 0;
    while i < row.len()
        invariant
            i <= row@.len(),
            aliases_wf(*out),
            all == unref(row@),
            aliases_view(*out) == with_aliases(start, all.take(i as int)),
        decreases row@.len() - i,
    {
        assert(all.take(i + 1).drop_last() =~= all.take(i as int));
        assert(all.take(i + 1).last() == *row@[i as int]);
        collect_one_alias(row[i], out);
        i = i + 1;
    }
    assert(all.take(i as int) =~= all);
}

/// The aliases with those of a control and the controls below it.
pub open spec fn with_control_aliases(
    m: Map<Seq<char>, Map<Seq<char>, Single>>,
    row: Seq<PsbValue>,
) -> Map<Seq<char>, Map<Seq<char>, Single>>
    decreases row.len(),
{
    if row.len() == 0 {
        m
    } else {
        let node = row.last();
        let own = with_alias(with_control_aliases(m, row.drop_last()), node);
        let listed = with_aliases(
            with_aliases(own, members(node.field("variableList"))),
            members(node.field("variables")),
        );
        match node.field("variable") {
            Some(variable) => with_alias(listed, *variable),
            None => listed,
        }
    }
}

fn collect_control_aliases(value: &PsbValue, out: &mut TextMap<TextMap<Single>>)
    requires
        aliases_wf(*old(out)),
    ensures
        aliases_wf(*final(out)),
        aliases_view(*final(out)) == with_control_aliases(
            aliases_view(*old(out)),
            nodes(*value, control_leaves()),
        ),
{
    let leaves = control_leaf_names();
    let row = all_nodes(value, &leaves);
    let ghost start = aliases_view(*out);
    let ghost all = unref(row@);
    let mut i: usize = 0;
    while i < row.len()
        invariant
            i <= row@.len(),
            aliases_wf(*out),
            all == unref(row@),
            aliases_view(*out) == with_control_aliases(start, all.take(i as int)),
        decreases row@.len() - i,
    {
        assert(all.take(i + 1).drop_last() =~= all.take(i as int));
        let node = row[i];
        assert(all.take(i + 1).last() == *node);
        collect_one_alias(node, out);
        collect_alias_list(node.field("variableList"), out);
        collect_alias_list(node.field("variables"), out);
        if let Some(variable) = node.field("variable") {
            collect_one_alias(variable, out);
        }
        i = i + 1;
    }
    assert(all.take(i as int) =~= all);
}

/// The aliases with those of the first `n` control fields of the metadata.
pub open spec fn with_control_fields(
    m: Map<Seq<char>, Map<Seq<char>, Single>>,
    metadata: PsbValue,
    n: nat,
) -> Map<Seq<char>, Map<Seq<char>, Single>>
    decreases n,
{
    if n == 0 {
        m
    } else {
        let rest = with_control_fields(m, metadata, (n - 1) as nat);
        match metadata.named(control_keys()[n - 1]) {
            Some(control) => with_control_aliases(rest, nodes(*control, control_leaves())),
            None => rest,
        }
    }
}

/// What the labels of the variables of a document stand for.
pub open spec fn document_aliases(root: PsbValue) -> Map<Seq<char>, Map<Seq<char>, Single>> {
    match root.field("metadata") {
        None => Map::empty(),
        Some(metadata) => {
            let listed = with_aliases(
                with_aliases(
                    with_aliases(Map::empty(), members(metadata.field("variableList"))),
                    members(metadata.field("instantVariableList")),
                ),
                members(metadata.field("physicsVariableList")),
            );
            let timed = match metadata.field("timelineControl") {
                Some(control) => with_aliases(listed, members(control.field("variableList"))),
                None => listed,
            };
            with_control_fields(timed, *metadata, 12)
        },
    }
}

pub fn collect_variable_frame_aliases(root: &PsbValue) -> (r: TextMap<TextMap<Single>>)
    ensures
        aliases_wf(r),
        aliases_view(r) == document_aliases(*root),
{
    let mut out: TextMap<TextMap<Single>> = TextMap::new();
    assert(aliases_view(out) =~= Map::<Seq<char>, Map<Seq<char>, Single>>::empty());
    if let Some(metadata) = root.field("metadata") {
        collect_alias_list(metadata.field("variableList"), &mut out);
        collect_alias_list(metadata.field("instantVariableList"), &mut out);
        collect_alias_list(metadata.field("physicsVariableList"), &mut out);
        if let Some(control) = metadata.field("timelineControl") {
            collect_alias_list(control.field("variableList"), &mut out);
        }
        let ghost timed = aliases_view(out);
        let mut i: usize = 0;
        while i < 12
            invariant
                i <= 12,
                aliases_wf(out),
                aliases_view(out) == with_control_fields(timed, *metadata, i as nat),
            decreases 12 - i,
        {
            if let Some(control) = metadata.field(control_key(i)) {
                collect_control_aliases(control, &mut out);
            }
            i = i + 1;
        }
    }
    out
}

/// The number that a value stands for: itself, its text, or what the text labels.
pub open spec fn read_value(value: Option<&PsbValue>, labels: Map<Seq<char>, Single>) -> Option<
    Single,
> {
    match value {
        None => None,
        Some(v) => if v.as_single() is Some {
            v.as_single()
        } else {
            match v.text() {
                None => None,
                Some(text) => if decimal_number(text) is Some {
                    decimal_number(text)
                } else if labels.dom().contains(text) {
                    Some(labels[text])
                } else {
                    None
                },
            }
        },
    }
}

/// The value of a frame's content.
pub open spec fn content_value(
    name: Seq<char>,
    content: PsbValue,
    aliases: Map<Seq<char>, Map<Seq<char>, Single>>,
) -> Option<Single> {
    let labels = labels_of(aliases, name);
    let labelled = match content.text_field("label") {
        Some(label) => if labels.dom().contains(label) {
            Some(labels[label])
        } else {
            None
        },
        None => None,
    };
    either(
        read_value(content.field("value"), labels),
        either(
            read_value(content.field("frame"), labels),
            either(
                read_value(content.field("curValue"), labels),
                either(
                    read_value(content.field("targetValue"), labels),
                    either(read_value(content.named(name), labels), labelled),
                ),
            ),
        ),
    )
}

fn find_value(value: Option<&PsbValue>, labels: &TextMap<Single>) -> (r: Option<Single>)
    requires
        labels.wf(),
    ensures
        r == read_value(value, labels@),
{
    let v = match value {
        Some(v) => v,
        None => {
            return None;
        },
    };
    if let Some(n) = v.as_single() {
        return Some(n);
    }
    let text = match v.as_str() {
        Some(s) => s,
        None => {
            return None;
        },
    };
    if let Some(n) = parse_single(text) {
        return Some(n);
    }
    match labels.get(text) {
        Some(n) => Some(*n),
        None => None,
    }
}

pub fn timeline_content_value(
    name: &str,
    content: &PsbValue,
    aliases: &TextMap<TextMap<Single>>,
) -> (r: Option<Single>)
    requires
        aliases_wf(*aliases),
    ensures
        r == content_value(name@, *content, aliases_view(*aliases)),
{
    let none: TextMap<Single> = TextMap::new();
    let labels = match aliases.get(name) {
        Some(l) => l,
        None => &none,
    };
    assert(labels@ == labels_of(aliases_view(*aliases), name@));
    let labelled = match content.field_str("label") {
        Some(label) => match labels.get(label) {
            Some(n) => Some(*n),
            None => None,
        },
        None => None,
    };
    either(
        find_value(content.field("value"), labels),
        either(
            find_value(content.field("frame"), labels),
            either(
                find_value(content.field("curValue"), labels),
                either(
                    find_value(content.field("targetValue"), labels),
                    either(find_value(content.field(name), labels), labelled),
                ),
            ),
        ),
    )
}

/// A yes or no, however it is written.
pub open spec fn truth(value: Option<&PsbValue>) -> Option<bool> {
    match value {
        Some(PsbValue::Bool(v)) => Some(*v),
        Some(PsbValue::Int(v)) => Some(*v != 0),
        Some(PsbValue::Float(v)) => Some(!v.same(Single::zero())),
        Some(PsbValue::Double(bits)) => Some(
            *bits != 0 && *bits != 0x8000_0000_0000_0000,
        ),
        Some(PsbValue::String(s)) => if s@ == "true"@ || s@ == "TRUE"@ || s@ == "True"@ || s@
            == "1"@ {
            Some(true)
        } else if s@ == "false"@ || s@ == "FALSE"@ || s@ == "False"@ || s@ == "0"@ {
            Some(false)
        } else {
            None
        },
        _ => None,
    }
}

pub fn psb_field_bool_like(value: &PsbValue, name: &str) -> (r: Option<bool>)
    ensures
        r == truth(value.field(name)),
{
    match value.field(name) {
        Some(PsbValue::Bool(v)) => Some(*v),
        Some(PsbValue::Int(v)) => Some(*v != 0),
        Some(PsbValue::Float(v)) => Some(!v.same(Single::zero())),
        Some(PsbValue::Double(bits)) => Some(*bits != 0 && *bits != 0x8000_0000_0000_0000),
        Some(PsbValue::String(s)) => {
            let t = s.as_str();
            if same_text(t, "true") || same_text(t, "TRUE") || same_text(t, "True") || same_text(
                t,
                "1",
            ) {
                Some(true)
            } else if same_text(t, "false") || same_text(t, "FALSE") || same_text(t, "False")
                || same_text(t, "0") {
                Some(false)
            } else {
                None
            }
        },
        _ => None,
    }
}

/// A path with one more part; empty parts leave no trace.
pub open spec fn joined_path(path: Seq<char>, label: Seq<char>) -> Seq<char> {
    if path.len() == 0 {
        label
    } else if label.len() == 0 {
        path
    } else {
        path + "/"@ + label
    }
}

pub fn join_timeline_path(path: &str, label: &str) -> (r: String)
    ensures
        r@ == joined_path(path@, label@),
{
    if path.is_empty() {
        label.to_owned()
    } else if label.is_empty() {
        path.to_owned()
    } else {
        join_two(path, "/", label)
    }
}

impl Ranked for EmoteTimelineFrame {
    open spec fn ahead(a: EmoteTimelineFrame, b: EmoteTimelineFrame) -> bool {
        total_rank(a.time_ticks) < total_rank(b.time_ticks)
    }

    fn goes_ahead(&self, other: &EmoteTimelineFrame) -> (r: bool) {
        total_rank_of(self.time_ticks) < total_rank_of(other.time_ticks)
    }
}

impl Ranked for EmoteTimeline {
    open spec fn ahead(a: Timeline, b: Timeline) -> bool {
        before(a.name, b.name)
    }

    fn goes_ahead(&self, other: &EmoteTimeline) -> (r: bool) {
        comes_before(self.name.as_str(), other.name.as_str())
    }
}

/// The frame that a value describes, where it has content with a finite value.
pub open spec fn timeline_frame(
    frame: PsbValue,
    name: Seq<char>,
    aliases: Map<Seq<char>, Map<Seq<char>, Single>>,
) -> Option<EmoteTimelineFrame> {
    match frame.field("content") {
        None => None,
        Some(content) => {
            let value = content_value(name, *content, aliases).unwrap_or(Single::zero());
            if value.is_finite() {
                Some(
                    EmoteTimelineFrame {
                        time_ticks: frame.field_single("time").unwrap_or(Single::zero()).max(
                            Single::zero(),
                        ),
                        value,
                        easing: either(
                            content.field_single("easing"),
                            frame.field_single("easing"),
                        ).unwrap_or(Single::zero()),
                    },
                )
            } else {
                None
            }
        },
    }
}

fn read_frame(frame: &PsbValue, name: &str, aliases: &TextMap<TextMap<Single>>) -> (r: Option<
    EmoteTimelineFrame,
>)
    requires
        aliases_wf(*aliases),
    ensures
        r == timeline_frame(*frame, name@, aliases_view(*aliases)),
{
    let content = match frame.field("content") {
        Some(c) => c,
        None => {
            return None;
        },
    };
    let value = timeline_content_value(name, content, aliases).unwrap_or(Single::zero());
    if value.is_finite() {
        Some(
            EmoteTimelineFrame {
                time_ticks: frame.field_single("time").unwrap_or(Single::zero()).max(
                    Single::zero(),
                ),
                value,
                easing: either(
                    content.field_single("easing"),
                    frame.field_single("easing"),
                ).unwrap_or(Single::zero()),
            },
        )
    } else {
        None
    }
}

/// The frames that a row of values describes, as they come.
pub open spec fn timeline_frames(
    frames: Seq<PsbValue>,
    name: Seq<char>,
    aliases: Map<Seq<char>, Map<Seq<char>, Single>>,
) -> Seq<EmoteTimelineFrame>
    decreases frames.len(),
{
    if frames.len() == 0 {
        Seq::empty()
    } else {
        let rest = timeline_frames(frames.drop_last(), name, aliases);
        match timeline_frame(frames.last(), name, aliases) {
            Some(frame) => rest.push(frame),
            None => rest,
        }
    }
}

/// The latest time of the frames, the given one where none is later.
pub open spec fn latest_time(frames: Seq<EmoteTimelineFrame>, start: Single) -> Single
    decreases frames.len(),
{
    if frames.len() == 0 {
        start
    } else {
        latest_time(frames.drop_last(), start).max(frames.last().time_ticks)
    }
}

/// The tracks that a row of variables describes, and the latest time of their
/// frames.
pub open spec fn tracks_of(
    variables: Seq<PsbValue>,
    aliases: Map<Seq<char>, Map<Seq<char>, Single>>,
    start: Single,
) -> (Seq<Track>, Single)
    decreases variables.len(),
{
    if variables.len() == 0 {
        (Seq::empty(), start)
    } else {
        let (tracks, latest) = tracks_of(variables.drop_last(), aliases, start);
        let variable = variables.last();
        match (object_name(variable), list_of(variable.field("frameList"))) {
            (Some(name), Some(list)) => {
                let frames = timeline_frames(list@, name, aliases);
                if frames.len() == 0 {
                    (tracks, latest)
                } else {
                    (
                        tracks.push(Track { name, frames: arranged::<EmoteTimelineFrame>(frames) }),
                        latest_time(frames, latest),
                    )
                }
            },
            _ => (tracks, latest),
        }
    }
}

fn read_frames(
    list: &Vec<PsbValue>,
    name: &str,
    aliases: &TextMap<TextMap<Single>>,
    start: Single,
) -> (r: (Vec<EmoteTimelineFrame>, Single))
    requires
        aliases_wf(*aliases),
    ensures
        r.0@ == timeline_frames(list@, name@, aliases_view(*aliases)),
        r.1 == latest_time(r.0@, start),
{
    let mut frames: Vec<EmoteTimelineFrame> = Vec::new();
    let mut latest = start;
    let mut i: usize = 0;
    while i < list.len()
        invariant
            i <= list@.len(),
            aliases_wf(*aliases),
            frames@ == timeline_frames(list@.take(i as int), name@, aliases_view(*aliases)),
            latest == latest_time(frames@, start),
        decreases list@.len() - i,
    {
        assert(list@.take(i + 1).drop_last() =~= list@.take(i as int));
        let ghost was = frames@;
        if let Some(frame) = read_frame(&list[i], name, aliases) {
            latest = latest.max(frame.time_ticks);
            frames.push(frame);
            assert(frames@.drop_last() =~= was);
        }
        i = i + 1;
    }
    assert(list@.take(i as int) =~= list@);
    (frames, latest)
}

fn read_tracks(variables: &Vec<PsbValue>, aliases: &TextMap<TextMap<Single>>, start: Single) -> (r: (
    Vec<EmoteTimelineVariable>,
    Single,
))
    requires
        aliases_wf(*aliases),
    ensures
        (views(r.0@), r.1) == tracks_of(variables@, aliases_view(*aliases), start),
{
    let mut tracks: Vec<EmoteTimelineVariable> = Vec::new();
    let mut latest = start;
    let mut i: usize = 0;
    assert(views(tracks@) =~= Seq::<Track>::empty());
    while i < variables.len()
        invariant
            i <= variables@.len(),
            aliases_wf(*aliases),
            (views(tracks@), latest) == tracks_of(
                variables@.take(i as int),
                aliases_view(*aliases),
                start,
            ),
        decreases variables@.len() - i,
    {
        assert(variables@.take(i + 1).drop_last() =~= variables@.take(i as int));
        let ghost was = views(tracks@);
        let variable = &variables[i];
        if let Some(name) = variable_object_name(variable) {
            if let Some(list) = list_of(variable.field("frameList")) {
                let (frames, later) = read_frames(list, name, aliases, latest);
                if frames.len() > 0 {
                    latest = later;
                    assert(views(frames@) =~= frames@);
                    let sorted = arrange(frames);
                    assert(views(sorted@) =~= sorted@);
                    let track = EmoteTimelineVariable { name: name.to_owned(), frames: sorted };
                    tracks.push(track);
                    assert(views(tracks@) =~= was.push(track@));
                }
            }
        }
        i = i + 1;
    }
    assert(variables@.take(i as int) =~= variables@);
    (tracks, latest)
}

/// The label of a node: the first of three fields.
pub open spec fn node_label(value: PsbValue, fallback: Seq<char>) -> Seq<char> {
    either(
        value.text_field("label"),
        either(value.text_field("name"), value.text_field("id")),
    ).unwrap_or(fallback)
}

fn find_node_label<'a>(value: &'a PsbValue, fallback: &'a str) -> (r: &'a str)
    ensures
        r@ == node_label(*value, fallback@),
{
    match value.field_str("label") {
        Some(s) => s,
        None => match value.field_str("name") {
            Some(s) => s,
            None => match value.field_str("id") {
                Some(s) => s,
                None => fallback,
            },
        },
    }
}

/// The timeline that an object is itself, where it has tracks.
pub open spec fn own_timeline(
    value: PsbValue,
    path: Seq<char>,
    difference: bool,
    aliases: Map<Seq<char>, Map<Seq<char>, Single>>,
) -> Option<Timeline> {
    match list_of(value.field("variableList")) {
        None => None,
        Some(list) => {
            let label = node_label(value, "timeline"@);
            let hint = either(value.text_field("path_hint"), value.text_field("hint_path"));
            let full = hint.unwrap_or(joined_path(path, label));
            let start = either(
                value.field_single("lastTime"),
                value.field_single("loopTime"),
            ).unwrap_or(Single::zero()).max(Single::zero());
            let (tracks, duration) = tracks_of(list@, aliases, start);
            if tracks.len() == 0 {
                None
            } else {
                Some(
                    Timeline {
                        name: if full.len() == 0 {
                            label
                        } else {
                            full
                        },
                        path: hint,
                        duration_ticks: duration,
                        tracks,
                        is_difference: truth(value.field("diff")).unwrap_or(difference),
                    },
                )
            }
        },
    }
}

pub open spec fn opt_timeline(t: Option<EmoteTimeline>) -> Option<Timeline> {
    match t {
        Some(v) => Some(v@),
        None => None,
    }
}

fn read_timeline(
    value: &PsbValue,
    path: &str,
    difference: bool,
    aliases: &TextMap<TextMap<Single>>,
) -> (r: Option<EmoteTimeline>)
    requires
        aliases_wf(*aliases),
    ensures
        opt_timeline(r) == own_timeline(*value, path@, difference, aliases_view(*aliases)),
{
    let list = match list_of(value.field("variableList")) {
        Some(l) => l,
        None => {
            return None;
        },
    };
    let label = find_node_label(value, "timeline");
    let hint = match value.field_str("path_hint") {
        Some(s) => Some(s),
        None => value.field_str("hint_path"),
    };
    let full = match hint {
        Some(s) => s.to_owned(),
        None => join_timeline_path(path, label),
    };
    let start = either(
        value.field_single("lastTime"),
        value.field_single("loopTime"),
    ).unwrap_or(Single::zero()).max(Single::zero());
    let (variables, duration) = read_tracks(list, aliases, start);
    assert(views(variables@).len() == variables@.len());
    if variables.len() == 0 {
        return None;
    }
    let name = if full.as_str().is_empty() {
        label.to_owned()
    } else {
        full
    };
    Some(
        EmoteTimeline {
            name,
            path: opt_owned(hint),
            duration_ticks: duration,
            variables,
            is_difference: psb_field_bool_like(value, "diff").unwrap_or(difference),
        },
    )
}

/// The fields of an object that hold no further timelines.
pub open spec fn holds_no_timelines(key: Seq<char>) -> bool {
    key == "variableList"@ || key == "frameList"@ || key == "content"@ || key == "variable"@
}

/// The timelines in a node. Folders lead on to their children; any other object is
/// a timeline where it has tracks, and is searched field by field.
pub open spec fn timelines_in(
    value: PsbValue,
    path: Seq<char>,
    difference: bool,
    aliases: Map<Seq<char>, Map<Seq<char>, Single>>,
) -> Seq<Timeline>
    decreases value, 1int, 0nat,
{
    match value {
        PsbValue::List(items) => timelines_in_items(value, items@.len(), path, difference, aliases),
        PsbValue::Object(fields) => if value.text_field("type") == Some("folder"@) {
            match value.field("children") {
                Some(children) => {
                    proof {
                        lemma_field_smaller(value, "children");
                    }
                    timelines_in(
                        *children,
                        joined_path(path, value.text_field("label").unwrap_or(Seq::empty())),
                        truth(value.field("diff")).unwrap_or(difference),
                        aliases,
                    )
                },
                None => Seq::empty(),
            }
        } else {
            let own = match own_timeline(value, path, difference, aliases) {
                Some(t) => seq![t],
                None => Seq::empty(),
            };
            own + timelines_in_fields(value, fields@.len(), path, difference, aliases)
        },
        _ => Seq::empty(),
    }
}

/// The timelines in the first `n` items of a list.
pub open spec fn timelines_in_items(
    value: PsbValue,
    n: nat,
    path: Seq<char>,
    difference: bool,
    aliases: Map<Seq<char>, Map<Seq<char>, Single>>,
) -> Seq<Timeline>
    decreases value, 0int, n,
{
    if value is List && 0 < n <= value->List_0@.len() {
        proof {
            lemma_item_smaller(value, n - 1);
        }
        timelines_in_items(value, (n - 1) as nat, path, difference, aliases) + timelines_in(
            value->List_0@[n - 1],
            joined_path(path, decimal(n - 1)),
            difference,
            aliases,
        )
    } else {
        Seq::empty()
    }
}

/// The timelines in the first `n` fields of an object.
pub open spec fn timelines_in_fields(
    value: PsbValue,
    n: nat,
    path: Seq<char>,
    difference: bool,
    aliases: Map<Seq<char>, Map<Seq<char>, Single>>,
) -> Seq<Timeline>
    decreases value, 0int, n,
{
    if value is Object && 0 < n <= value->Object_0@.len() {
        proof {
            lemma_entry_smaller(value, n - 1);
        }
        let (key, child) = value->Object_0@[n - 1];
        let rest = timelines_in_fields(value, (n - 1) as nat, path, difference, aliases);
        if holds_no_timelines(key@) {
            rest
        } else {
            rest + timelines_in(
                child,
                joined_path(path, node_label(child, key@)),
                truth(child.field("diff")).unwrap_or(difference),
                aliases,
            )
        }
    } else {
        Seq::empty()
    }
}

fn skips(key: &str) -> (r: bool)
    ensures
        r == holds_no_timelines(key@),
{
    same_text(key, "variableList") || same_text(key, "frameList") || same_text(key, "content")
        || same_text(key, "variable")
}

/// Gathers the timelines in a node.
pub fn collect_timeline_nodes(
    value: &PsbValue,
    path: &str,
    difference: bool,
    aliases: &TextMap<TextMap<Single>>,
    out: &mut Vec<EmoteTimeline>,
)
    requires
        aliases_wf(*aliases),
    ensures
        views(final(out)@) == views(old(out)@) + timelines_in(
            *value,
            path@,
            difference,
            aliases_view(*aliases),
        ),
    decreases value,
{
    let ghost start = views(out@);
    let ghost known = aliases_view(*aliases);
    match value {
        PsbValue::List(items) => {
            let mut i: usize = 0;
            assert(start =~= start + timelines_in_items(*value, 0, path@, difference, known));
            while i < items.len()
                invariant
                    i <= items@.len(),
                    aliases_wf(*aliases),
                    known == aliases_view(*aliases),
                    *value == PsbValue::List(*items),
                    views(out@) == start + timelines_in_items(
                        *value,
                        i as nat,
                        path@,
                        difference,
                        known,
                    ),
                decreases items@.len() - i,
            {
                proof {
                    lemma_item_smaller(*value, i as int);
                }
                let number = decimal_u64(i as u64);
                let next = join_timeline_path(path, number.as_str());
                collect_timeline_nodes(&items[i], next.as_str(), difference, aliases, out);
                assert(views(out@) =~= start + timelines_in_items(
                    *value,
                    (i + 1) as nat,
                    path@,
                    difference,
                    known,
                ));
                i = i + 1;
            }
        },
        PsbValue::Object(fields) => {
            let is_folder = match value.field_str("type") {
                Some(s) => same_text(s, "folder"),
                None => false,
            };
            if is_folder {
                if let Some(children) = value.field("children") {
                    proof {
                        lemma_field_smaller(*value, "children");
                    }
                    let label = match value.field_str("label") {
                        Some(s) => s.to_owned(),
                        None => String::new(),
                    };
                    let next = join_timeline_path(path, label.as_str());
                    collect_timeline_nodes(
                        children,
                        next.as_str(),
                        psb_field_bool_like(value, "diff").unwrap_or(difference),
                        aliases,
                        out,
                    );
                } else {
                    assert(views(out@) =~= start + Seq::<Timeline>::empty());
                }
                return;
            }
            let ghost own = match own_timeline(*value, path@, difference, known) {
                Some(t) => seq![t],
                None => Seq::empty(),
            };
            if let Some(timeline) = read_timeline(value, path, difference, aliases) {
                out.push(timeline);
                assert(views(out@) =~= start + seq![timeline@]);
            }
            assert(views(out@) =~= start + own);
            let mut i: usize = 0;
            assert(views(out@) =~= start + own + timelines_in_fields(
                *value,
                0,
                path@,
                difference,
                known,
            ));
            while i < fields.len()
                invariant
                    i <= fields@.len(),
                    aliases_wf(*aliases),
                    known == aliases_view(*aliases),
                    *value == PsbValue::Object(*fields),
                    views(out@) == start + own + timelines_in_fields(
                        *value,
                        i as nat,
                        path@,
                        difference,
                        known,
                    ),
                decreases fields@.len() - i,
            {
                proof {
                    lemma_entry_smaller(*value, i as int);
                }
                let key = fields[i].0.as_str();
                let child = &fields[i].1;
                if !skips(key) {
                    let label = find_node_label(child, key);
                    let next = join_timeline_path(path, label);
                    collect_timeline_nodes(
                        child,
                        next.as_str(),
                        psb_field_bool_like(child, "diff").unwrap_or(difference),
                        aliases,
                        out,
                    );
                }
                assert(views(out@) =~= start + own + timelines_in_fields(
                    *value,
                    (i + 1) as nat,
                    path@,
                    difference,
                    known,
                ));
                i = i + 1;
            }
            assert(views(out@) =~= start + timelines_in(*value, path@, difference, known));
        },
        _ => {
            assert(views(out@) =~= start + Seq::<Timeline>::empty());
        },
    }
}

/// The row without timelines that have the name of the one kept before them.
pub open spec fn without_namesakes(row: Seq<Timeline>) -> Seq<Timeline>
    decreases row.len(),
{
    if row.len() == 0 {
        Seq::empty()
    } else {
        let kept = without_namesakes(row.drop_last());
        if kept.len() > 0 && row.last().name == kept.last().name {
            kept
        } else {
            kept.push(row.last())
        }
    }
}

fn drop_namesakes(row: &Vec<EmoteTimeline>) -> (r: Vec<EmoteTimeline>)
    ensures
        views(r@) == without_namesakes(views(row@)),
{
    let mut r: Vec<EmoteTimeline> = Vec::new();
    let mut i: usize = 0;
    let ghost all = views(row@);
    assert(views(r@) =~= without_namesakes(all.take(0)));
    while i < row.len()
        invariant
            i <= row@.len(),
            all == views(row@),
            views(r@) == without_namesakes(all.take(i as int)),
        decreases row@.len() - i,
    {
        assert(all.take(i + 1).drop_last() =~= all.take(i as int));
        assert(all.take(i + 1).last() == row@[i as int]@);
        let ghost kept = views(r@);
        assert(kept.len() == r@.len());
        let repeated = if r.len() > 0 {
            assert(kept.last() == r@[r@.len() - 1]@);
            same_text(row[i].name.as_str(), r[r.len() - 1].name.as_str())
        } else {
            false
        };
        if !repeated {
            r.push(row[i].duplicate());
            assert(views(r@) =~= kept.push(row@[i as int]@));
        }
        i = i + 1;
    }
    assert(all.take(i as int) =~= all);
    r
}

/// The timelines in the first `n` control fields of the metadata.
pub open spec fn control_timelines(
    metadata: PsbValue,
    n: nat,
    aliases: Map<Seq<char>, Map<Seq<char>, Single>>,
) -> Seq<Timeline>
    decreases n,
{
    if n == 0 {
        Seq::empty()
    } else {
        let rest = control_timelines(metadata, (n - 1) as nat, aliases);
        let key = control_keys()[n - 1];
        match metadata.named(key) {
            Some(control) => rest + timelines_in(*control, "@control/"@ + key, false, aliases),
            None => rest,
        }
    }
}

/// The timelines of a document, as they come.
pub open spec fn found_timelines(root: PsbValue) -> Seq<Timeline> {
    let aliases = document_aliases(root);
    match root.field("metadata") {
        None => Seq::empty(),
        Some(metadata) => {
            let own = match metadata.field("timelineControl") {
                Some(control) => timelines_in(*control, Seq::empty(), false, aliases),
                None => Seq::empty(),
            };
            own + control_timelines(*metadata, 12, aliases)
        },
    }
}

/// The timelines of a document by name, the first of each name.
pub open spec fn document_timelines(root: PsbValue) -> Seq<Timeline> {
    without_namesakes(arranged::<EmoteTimeline>(found_timelines(root)))
}

pub fn collect_emote_timelines(root: &PsbValue) -> (r: Vec<EmoteTimeline>)
    ensures
        views(r@) == document_timelines(*root),
{
    let aliases = collect_variable_frame_aliases(root);
    let ghost known = aliases_view(aliases);
    let mut out: Vec<EmoteTimeline> = Vec::new();
    assert(views(out@) =~= Seq::<Timeline>::empty());
    if let Some(metadata) = root.field("metadata") {
        if let Some(control) = metadata.field("timelineControl") {
            collect_timeline_nodes(control, "", false, &aliases, &mut out);
            proof {
                reveal_strlit("");
                assert(""@ =~= Seq::<char>::empty());
                assert(views(out@) =~= timelines_in(*control, Seq::empty(), false, known));
            }
        }
        let ghost own = views(out@);
        let mut i: usize = 0;
        assert(own =~= own + control_timelines(*metadata, 0, known));
        while i < 12
            invariant
                i <= 12,
                aliases_wf(aliases),
                known == aliases_view(aliases),
                views(out@) == own + control_timelines(*metadata, i as nat, known),
            decreases 12 - i,
        {
            let key = control_key(i);
            if let Some(control) = metadata.field(key) {
                let path = concat_text("@control/", key);
                collect_timeline_nodes(control, path.as_str(), false, &aliases, &mut out);
            }
            assert(views(out@) =~= own + control_timelines(*metadata, (i + 1) as nat, known));
            i = i + 1;
        }
    }
    let sorted = arrange(out);
    drop_namesakes(&sorted)
}

/// The timelines of a document stand in ascending order of their names, so no name
/// occurs twice.
pub proof fn lemma_timeline_names_ascend(root: PsbValue, i: int, j: int)
    requires
        0 <= i < j < document_timelines(root).len(),
    ensures
        before(document_timelines(root)[i].name, document_timelines(root)[j].name),
{
    let found = found_timelines(root);
    let row = arranged::<EmoteTimeline>(found);
    assert forall|a: int, b: int|
        0 <= a < found.len() && 0 <= b < found.len() && #[trigger] EmoteTimeline::ahead(
            found[a],
            found[b],
        ) implies !EmoteTimeline::ahead(found[b], found[a]) by {
        lemma_before_irreflexive(found[a].name);
        if before(found[b].name, found[a].name) {
            lemma_before_transitive(found[a].name, found[b].name, found[a].name);
        }
    }
    assert forall|a: int, b: int, c: int|
        0 <= a < found.len() && 0 <= b < found.len() && 0 <= c < found.len() && !(
        #[trigger] EmoteTimeline::ahead(found[b], found[a])) && !(#[trigger] EmoteTimeline::ahead(
            found[c],
            found[b],
        )) implies !EmoteTimeline::ahead(found[c], found[a]) by {
        let (x, y, z) = (found[a].name, found[b].name, found[c].name);
        lemma_before_total(x, y);
        lemma_before_total(y, z);
        if before(z, x) {
            if before(x, y) {
                lemma_before_transitive(z, x, y);
            }
        }
    }
    lemma_arranged_in_order::<EmoteTimeline>(found);
    lemma_arranged_same_items::<EmoteTimeline>(found);
    assert forall|a: int, b: int| 0 <= a < b < row.len() implies !before(
        (#[trigger] row[b]).name,
        (#[trigger] row[a]).name,
    ) by {
        assert(!EmoteTimeline::ahead(row[b], row[a]));
    }
    lemma_namesakes_leave_ascending(row);
}

proof fn lemma_namesakes_leave_ascending(row: Seq<Timeline>)
    requires
        forall|a: int, b: int|
            0 <= a < b < row.len() ==> !before((#[trigger] row[b]).name, (#[trigger] row[a]).name),
    ensures
        forall|a: int, b: int|
            0 <= a < b < without_namesakes(row).len() ==> before(
                (#[trigger] without_namesakes(row)[a]).name,
                (#[trigger] without_namesakes(row)[b]).name,
            ),
        without_namesakes(row).len() > 0 ==> without_namesakes(row).last().name
            == row.last().name,
    decreases row.len(),
{
    if row.len() > 0 {
        let first = row.drop_last();
        let kept = without_namesakes(first);
        assert forall|a: int, b: int| 0 <= a < b < first.len() implies !before(
            (#[trigger] first[b]).name,
            (#[trigger] first[a]).name,
        ) by {
            assert(row[a] == first[a] && row[b] == first[b]);
        }
        lemma_namesakes_leave_ascending(first);
        if kept.len() > 0 && row.last().name != kept.last().name {
            let n = row.len() - 1;
            let m = kept.len() - 1;
            assert(first.len() > 0);
            assert(row[n - 1] == first.last());
            assert(!before(row[n].name, row[n - 1].name));
            lemma_before_total(kept.last().name, row.last().name);
            assert(before(kept[m].name, row.last().name));
            let done = without_namesakes(row);
            assert forall|a: int, b: int| 0 <= a < b < done.len() implies before(
                (#[trigger] done[a]).name,
                (#[trigger] done[b]).name,
            ) by {
                if b == done.len() - 1 && a < m {
                    assert(before(kept[a].name, kept[m].name));
                    lemma_before_transitive(kept[a].name, kept[m].name, row.last().name);
                } else if b < done.len() - 1 {
                    assert(before(kept[a].name, kept[b].name));
                }
            }
        }
    }
}

} // verus!
