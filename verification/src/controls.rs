//! Controls of a model: what the metadata says of them, and how they drive the
//! variables.

use crate::arrange::views;
use crate::order::TextMap;
use crate::scene::{collect_item_texts, item_texts};
use crate::single::Single;
use crate::text::{opt_owned, opt_string, texts};
use crate::value::{either, items_of, list_of, PsbValue};
use vstd::prelude::*;

verus! {

/// One choice of a selector.
#[derive(Clone, Debug)]
pub struct SelectorOption {
    pub label: String,
    pub off_value: Single,
    pub on_value: Single,
}

/// A `SelectorOption` by its characters.
#[verifier::ext_equal]
pub struct Choice {
    pub label: Seq<char>,
    pub off_value: Single,
    pub on_value: Single,
}

impl View for SelectorOption {
    type V = Choice;

    open spec fn view(&self) -> Choice {
        Choice { label: self.label@, off_value: self.off_value, on_value: self.on_value }
    }
}

/// A variable that switches one of several others on.
#[derive(Clone, Debug)]
pub struct SelectorControl {
    pub label: String,
    pub enabled: bool,
    pub option_list: Vec<SelectorOption>,
}

/// A `SelectorControl` by its characters.
#[verifier::ext_equal]
pub struct Selector {
    pub label: Seq<char>,
    pub enabled: bool,
    pub choices: Seq<Choice>,
}

impl View for SelectorControl {
    type V = Selector;

    open spec fn view(&self) -> Selector {
        Selector {
            label: self.label@,
            enabled: self.enabled,
            choices: views(self.option_list@),
        }
    }
}

/// A pair of variables held in a square or a circle.
#[derive(Clone, Debug)]
pub struct ClampControl {
    pub label: String,
    pub enabled: bool,
    pub kind: i64,
    pub var_lr: String,
    pub var_ud: String,
    pub min: Single,
    pub max: Single,
}

/// A `ClampControl` by its characters.
#[verifier::ext_equal]
pub struct Clamp {
    pub label: Seq<char>,
    pub enabled: bool,
    pub kind: i64,
    pub var_lr: Seq<char>,
    pub var_ud: Seq<char>,
    pub min: Single,
    pub max: Single,
}

impl View for ClampControl {
    type V = Clamp;

    open spec fn view(&self) -> Clamp {
        Clamp {
            label: self.label@,
            enabled: self.enabled,
            kind: self.kind,
            var_lr: self.var_lr@,
            var_ud: self.var_ud@,
            min: self.min,
            max: self.max,
        }
    }
}

/// One stretch of a loop.
#[derive(Clone, Copy, Debug, PartialEq, Eq, Structural)]
pub struct LoopTransition {
    pub start: Single,
    pub end: Single,
    pub duration_ticks: Single,
}

/// A variable that runs round through a row of stretches.
#[derive(Clone, Debug)]
pub struct LoopControl {
    pub label: Option<String>,
    pub enabled: bool,
    pub var_loop: Option<String>,
    pub transition_list: Vec<LoopTransition>,
}

/// A `LoopControl` by its characters.
#[verifier::ext_equal]
pub struct Looper {
    pub label: Option<Seq<char>>,
    pub enabled: bool,
    pub var_loop: Option<Seq<char>>,
    pub stretches: Seq<LoopTransition>,
}

impl View for LoopControl {
    type V = Looper;

    open spec fn view(&self) -> Looper {
        Looper {
            label: opt_string(self.label),
            enabled: self.enabled,
            var_loop: opt_string(self.var_loop),
            stretches: self.transition_list@,
        }
    }
}

/// The variables that a mirrored model exchanges.
#[derive(Clone, Debug)]
pub struct MirrorControl {
    pub variable_match_list: Vec<String>,
}

/// How a part fades when it changes.
#[derive(Clone, Debug)]
pub struct TransitionControl {
    pub label: String,
    pub enabled: bool,
    pub fade: Option<Single>,
    pub diff: Option<Single>,
}

/// A `TransitionControl` by its characters.
#[verifier::ext_equal]
pub struct Transition {
    pub label: Seq<char>,
    pub enabled: bool,
    pub fade: Option<Single>,
    pub diff: Option<Single>,
}

impl View for TransitionControl {
    type V = Transition;

    open spec fn view(&self) -> Transition {
        Transition {
            label: self.label@,
            enabled: self.enabled,
            fade: self.fade,
            diff: self.diff,
        }
    }
}

/// What a physics control is made of.
#[derive(Clone, Debug)]
pub struct PhysicsControlDefinition {
    pub label: String,
    pub enabled: bool,
    pub base_layer: Option<String>,
    pub parameter: Option<String>,
    pub var_lr: Option<String>,
    pub var_ud: Option<String>,
    pub var_lrm: Option<String>,
    pub fields: TextMap<PsbValue>,
}

/// Which body a physics control moves.
#[derive(Clone, Copy, Debug, PartialEq, Eq, Structural)]
pub enum PhysicsControlKind {
    Bust,
    Hair,
    Parts,
}

/// A physics control, by the body that it moves.
#[derive(Clone, Debug)]
pub enum PhysicsControl {
    Bust(PhysicsControlDefinition),
    Hair(PhysicsControlDefinition),
    Parts(PhysicsControlDefinition),
}

impl PhysicsControl {
    pub open spec fn spec_kind(&self) -> PhysicsControlKind {
        match self {
            PhysicsControl::Bust(_) => PhysicsControlKind::Bust,
            PhysicsControl::Hair(_) => PhysicsControlKind::Hair,
            PhysicsControl::Parts(_) => PhysicsControlKind::Parts,
        }
    }

    #[verifier::when_used_as_spec(spec_kind)]
    pub fn kind(&self) -> (r: PhysicsControlKind)
        ensures
            r == self.spec_kind(),
    {
        match self {
            PhysicsControl::Bust(_) => PhysicsControlKind::Bust,
            PhysicsControl::Hair(_) => PhysicsControlKind::Hair,
            PhysicsControl::Parts(_) => PhysicsControlKind::Parts,
        }
    }

    pub open spec fn spec_definition(&self) -> &PhysicsControlDefinition {
        match self {
            PhysicsControl::Bust(d) => d,
            PhysicsControl::Hair(d) => d,
            PhysicsControl::Parts(d) => d,
        }
    }

    #[verifier::when_used_as_spec(spec_definition)]
    pub fn definition(&self) -> (r: &PhysicsControlDefinition)
        ensures
            r == self.spec_definition(),
    {
        match self {
            PhysicsControl::Bust(d) => d,
            PhysicsControl::Hair(d) => d,
            PhysicsControl::Parts(d) => d,
        }
    }
}

/// A control that is read and kept as it is.
#[derive(Clone, Debug)]
pub struct OpaqueControl {
    pub label: Option<String>,
    pub enabled: bool,
    pub fields: TextMap<PsbValue>,
}

/// All controls of a model.
#[derive(Clone, Debug)]
pub struct EmoteRuntimePipeline {
    pub instant_variables: Vec<String>,
    pub selector_controls: Vec<SelectorControl>,
    pub clamp_controls: Vec<ClampControl>,
    pub loop_controls: Vec<LoopControl>,
    pub mirror_control: Option<MirrorControl>,
    pub transition_controls: Vec<TransitionControl>,
    pub physics_controls: Vec<PhysicsControl>,
    pub parts_controls: Vec<OpaqueControl>,
    pub eye_controls: Vec<OpaqueControl>,
    pub eyebrow_controls: Vec<OpaqueControl>,
    pub mouth_controls: Vec<OpaqueControl>,
    pub unsupported_fields: Vec<String>,
}

/// Whether a control is switched on; it is unless the document says no.
pub open spec fn spec_is_enabled(control: PsbValue) -> bool {
    control.field_i64("enabled").unwrap_or(1) != 0
}

fn is_enabled(control: &PsbValue) -> (r: bool)
    ensures
        r == spec_is_enabled(*control),
{
    control.field_i64("enabled").unwrap_or(1) != 0
}

/// The choices that a row of values describes; one without all three fields is
/// left out.
pub open spec fn choices_of(row: Seq<PsbValue>) -> Seq<Choice>
    decreases row.len(),
{
    if row.len() == 0 {
        Seq::empty()
    } else {
        let rest = choices_of(row.drop_last());
        let option = row.last();
        match (
            option.text_field("label"),
            option.field_single("offValue"),
            option.field_single("onValue"),
        ) {
            (Some(label), Some(off_value), Some(on_value)) => rest.push(
                Choice { label, off_value, on_value },
            ),
            _ => rest,
        }
    }
}

fn parse_choices(value: Option<&PsbValue>) -> (r: Vec<SelectorOption>)
    ensures
        views(r@) == choices_of(items_of(value)),
{
    let mut r: Vec<SelectorOption> = Vec::new();
    assert(views(r@) =~= Seq::<Choice>::empty());
    if let Some(list) = list_of(value) {
        let mut i: usize = 0;
        while i < list.len()
            invariant
                i <= list@.len(),
                views(r@) == choices_of(list@.take(i as int)),
            decreases list@.len() - i,
        {
            assert(list@.take(i + 1).drop_last() =~= list@.take(i as int));
            let ghost was = views(r@);
            let option = &list[i];
            if let (Some(label), Some(off_value), Some(on_value)) = (
                option.field_str("label"),
                option.field_single("offValue"),
                option.field_single("onValue"),
            ) {
                let choice = SelectorOption { label: label.to_owned(), off_value, on_value };
                r.push(choice);
                assert(views(r@) =~= was.push(choice@));
            }
            i = i + 1;
        }
        assert(list@.take(i as int) =~= list@);
    }
    r
}

/// The selectors that a row of values describes; one without a label is left out.
pub open spec fn selectors_of(row: Seq<PsbValue>) -> Seq<Selector>
    decreases row.len(),
{
    if row.len() == 0 {
        Seq::empty()
    } else {
        let rest = selectors_of(row.drop_last());
        match row.last().text_field("label") {
            Some(label) => rest.push(
                Selector {
                    label,
                    enabled: spec_is_enabled(row.last()),
                    choices: choices_of(items_of(row.last().field("optionList"))),
                },
            ),
            None => rest,
        }
    }
}

pub fn parse_selector_controls(value: Option<&PsbValue>) -> (r: Vec<SelectorControl>)
    ensures
        views(r@) == selectors_of(items_of(value)),
{
    let mut r: Vec<SelectorControl> = Vec::new();
    assert(views(r@) =~= Seq::<Selector>::empty());
    if let Some(list) = list_of(value) {
        let mut i: usize = 0;
        while i < list.len()
            invariant
                i <= list@.len(),
                views(r@) == selectors_of(list@.take(i as int)),
            decreases list@.len() - i,
        {
            assert(list@.take(i + 1).drop_last() =~= list@.take(i as int));
            let ghost was = views(r@);
            let control = &list[i];
            if let Some(label) = control.field_str("label") {
                let selector = SelectorControl {
                    label: label.to_owned(),
                    enabled: is_enabled(control),
                    option_list: parse_choices(control.field("optionList")),
                };
                r.push(selector);
                assert(views(r@) =~= was.push(selector@));
            }
            i = i + 1;
        }
        assert(list@.take(i as int) =~= list@);
    }
    r
}

/// The clamp that a value describes, where it has all fields but the label.
pub open spec fn clamp_of(control: PsbValue) -> Option<Clamp> {
    match (
        control.field_i64("type"),
        control.text_field("var_lr"),
        control.text_field("var_ud"),
        control.field_single("min"),
        control.field_single("max"),
    ) {
        (Some(kind), Some(var_lr), Some(var_ud), Some(min), Some(max)) => Some(
            Clamp {
                label: control.text_field("label").unwrap_or(Seq::empty()),
                enabled: spec_is_enabled(control),
                kind,
                var_lr,
                var_ud,
                min,
                max,
            },
        ),
        _ => None,
    }
}

pub open spec fn clamps_of(row: Seq<PsbValue>) -> Seq<Clamp>
    decreases row.len(),
{
    if row.len() == 0 {
        Seq::empty()
    } else {
        let rest = clamps_of(row.drop_last());
        match clamp_of(row.last()) {
            Some(clamp) => rest.push(clamp),
            None => rest,
        }
    }
}

pub fn parse_clamp_controls(value: Option<&PsbValue>) -> (r: Vec<ClampControl>)
    ensures
        views(r@) == clamps_of(items_of(value)),
{
    let mut r: Vec<ClampControl> = Vec::new();
    assert(views(r@) =~= Seq::<Clamp>::empty());
    if let Some(list) = list_of(value) {
        let mut i: usize = 0;
        while i < list.len()
            invariant
                i <= list@.len(),
                views(r@) == clamps_of(list@.take(i as int)),
            decreases list@.len() - i,
        {
            assert(list@.take(i + 1).drop_last() =~= list@.take(i as int));
            let ghost was = views(r@);
            let control = &list[i];
            if let (Some(kind), Some(var_lr), Some(var_ud), Some(min), Some(max)) = (
                control.field_i64("type"),
                control.field_str("var_lr"),
                control.field_str("var_ud"),
                control.field_single("min"),
                control.field_single("max"),
            ) {
                let label = match control.field_str("label") {
                    Some(s) => s.to_owned(),
                    None => String::new(),
                };
                let clamp = ClampControl {
                    label,
                    enabled: is_enabled(control),
                    kind,
                    var_lr: var_lr.to_owned(),
                    var_ud: var_ud.to_owned(),
                    min,
                    max,
                };
                r.push(clamp);
                assert(views(r@) =~= was.push(clamp@));
            }
            i = i + 1;
        }
        assert(list@.take(i as int) =~= list@);
    }
    r
}

/// The number at a place of a row.
pub open spec fn single_at(items: Seq<PsbValue>, i: int) -> Option<Single> {
    if i < items.len() {
        items[i].as_single()
    } else {
        None
    }
}

fn find_single_at(items: &Vec<PsbValue>, i: usize) -> (r: Option<Single>)
    ensures
        r == single_at(items@, i as int),
{
    if i < items.len() {
        items[i].as_single()
    } else {
        None
    }
}

/// The stretch that a value describes, as a list or as an object.
pub open spec fn loop_transition_of(value: PsbValue) -> Option<LoopTransition> {
    let fields = match value.as_list() {
        Some(items) => (single_at(items@, 0), single_at(items@, 1), single_at(items@, 2)),
        None => (
            value.field_single("start"),
            value.field_single("end"),
            either(value.field_single("duration"), value.field_single("duration_ticks")),
        ),
    };
    match fields {
        (Some(start), Some(end), Some(duration)) => Some(
            LoopTransition { start, end, duration_ticks: duration.max(Single::zero()) },
        ),
        _ => None,
    }
}

pub fn parse_loop_transition(value: &PsbValue) -> (r: Option<LoopTransition>)
    ensures
        r == loop_transition_of(*value),
{
    let fields = match value.as_list() {
        Some(items) => (
            find_single_at(items, 0),
            find_single_at(items, 1),
            find_single_at(items, 2),
        ),
        None => (
            value.field_single("start"),
            value.field_single("end"),
            either(value.field_single("duration"), value.field_single("duration_ticks")),
        ),
    };
    match fields {
        (Some(start), Some(end), Some(duration)) => Some(
            LoopTransition { start, end, duration_ticks: duration.max(Single::zero()) },
        ),
        _ => None,
    }
}

pub open spec fn stretches_of(row: Seq<PsbValue>) -> Seq<LoopTransition>
    decreases row.len(),
{
    if row.len() == 0 {
        Seq::empty()
    } else {
        let rest = stretches_of(row.drop_last());
        match loop_transition_of(row.last()) {
            Some(t) => rest.push(t),
            None => rest,
        }
    }
}

fn parse_stretches(value: Option<&PsbValue>) -> (r: Vec<LoopTransition>)
    ensures
        r@ == stretches_of(items_of(value)),
{
    let mut r: Vec<LoopTransition> = Vec::new();
    if let Some(list) = list_of(value) {
        let mut i: usize = 0;
        while i < list.len()
            invariant
                i <= list@.len(),
                r@ == stretches_of(list@.take(i as int)),
            decreases list@.len() - i,
        {
            assert(list@.take(i + 1).drop_last() =~= list@.take(i as int));
            if let Some(t) = parse_loop_transition(&list[i]) {
                r.push(t);
            }
            i = i + 1;
        }
        assert(list@.take(i as int) =~= list@);
    }
    r
}

pub open spec fn loop_of(control: PsbValue) -> Looper {
    Looper {
        label: control.text_field("label"),
        enabled: spec_is_enabled(control),
        var_loop: control.text_field("var_loop"),
        stretches: stretches_of(items_of(control.field("transitionList"))),
    }
}

pub fn parse_loop_controls(value: Option<&PsbValue>) -> (r: Vec<LoopControl>)
    ensures
        views(r@) == items_of(value).map_values(|c: PsbValue| loop_of(c)),
{
    let mut r: Vec<LoopControl> = Vec::new();
    let ghost want = items_of(value).map_values(|c: PsbValue| loop_of(c));
    if let Some(list) = list_of(value) {
        let mut i: usize = 0;
        while i < list.len()
            invariant
                i <= list@.len(),
                r@.len() == i,
                want == list@.map_values(|c: PsbValue| loop_of(c)),
                views(r@) == want.take(i as int),
            decreases list@.len() - i,
        {
            let control = &list[i];
            r.push(
                LoopControl {
                    label: opt_owned(control.field_str("label")),
                    enabled: is_enabled(control),
                    var_loop: opt_owned(control.field_str("var_loop")),
                    transition_list: parse_stretches(control.field("transitionList")),
                },
            );
            assert(r@[i as int]@ == want[i as int]);
            assert(views(r@) =~= want.take(i + 1));
            i = i + 1;
        }
        assert(want.take(i as int) =~= want);
    } else {
        assert(views(r@) =~= want);
    }
    r
}

/// The names that a mirror control lists.
pub open spec fn mirror_names(m: Option<MirrorControl>) -> Option<Seq<Seq<char>>> {
    match m {
        Some(c) => Some(texts(c.variable_match_list@)),
        None => None,
    }
}

pub fn parse_mirror_control(value: Option<&PsbValue>) -> (r: Option<MirrorControl>)
    ensures
        mirror_names(r) == (match value {
            Some(v) => Some(item_texts(items_of(v.field("variableMatchList")))),
            None => None,
        }),
{
    match value {
        Some(v) => Some(
            MirrorControl { variable_match_list: collect_item_texts(v.field("variableMatchList")) },
        ),
        None => None,
    }
}

pub open spec fn transitions_of(row: Seq<PsbValue>) -> Seq<Transition>
    decreases row.len(),
{
    if row.len() == 0 {
        Seq::empty()
    } else {
        let rest = transitions_of(row.drop_last());
        let control = row.last();
        match control.text_field("label") {
            Some(label) => rest.push(
                Transition {
                    label,
                    enabled: spec_is_enabled(control),
                    fade: control.field_single("fade"),
                    diff: control.field_single("diff"),
                },
            ),
            None => rest,
        }
    }
}

pub fn parse_transition_controls(value: Option<&PsbValue>) -> (r: Vec<TransitionControl>)
    ensures
        views(r@) == transitions_of(items_of(value)),
{
    let mut r: Vec<TransitionControl> = Vec::new();
    assert(views(r@) =~= Seq::<Transition>::empty());
    if let Some(list) = list_of(value) {
        let mut i: usize = 0;
        while i < list.len()
            invariant
                i <= list@.len(),
                views(r@) == transitions_of(list@.take(i as int)),
            decreases list@.len() - i,
        {
            assert(list@.take(i + 1).drop_last() =~= list@.take(i as int));
            let ghost was = views(r@);
            let control = &list[i];
            if let Some(label) = control.field_str("label") {
                let transition = TransitionControl {
                    label: label.to_owned(),
                    enabled: is_enabled(control),
                    fade: control.field_single("fade"),
                    diff: control.field_single("diff"),
                };
                r.push(transition);
                assert(views(r@) =~= was.push(transition@));
            }
            i = i + 1;
        }
        assert(list@.take(i as int) =~= list@);
    }
    r
}

/// The fields of an object by name; of several with one name the last counts.
pub open spec fn fields_by_name(entries: Seq<(String, PsbValue)>) -> Map<Seq<char>, PsbValue>
    decreases entries.len(),
{
    if entries.len() == 0 {
        Map::empty()
    } else {
        fields_by_name(entries.drop_last()).insert(entries.last().0@, entries.last().1)
    }
}

/// Whether a map is a copy of another one all the way down.
pub open spec fn copies(copy: Map<Seq<char>, PsbValue>, of: Map<Seq<char>, PsbValue>) -> bool {
    &&& copy.dom() =~= of.dom()
    &&& forall|k: Seq<char>| #[trigger] of.dom().contains(k) ==> of[k].alike(copy[k])
}

/// Copies the fields of an object.
pub fn object_to_map(value: &PsbValue) -> (r: Option<TextMap<PsbValue>>)
    ensures
        match r {
            Some(m) => value is Object && m.wf() && copies(
                m@,
                fields_by_name(value->Object_0@),
            ),
            None => !(value is Object),
        },
{
    match value.as_object() {
        None => None,
        Some(entries) => {
            let mut m: TextMap<PsbValue> = TextMap::new();
            let mut i: usize = 0;
            while i < entries.len()
                invariant
                    i <= entries@.len(),
                    m.wf(),
                    copies(m@, fields_by_name(entries@.take(i as int))),
                decreases entries@.len() - i,
            {
                assert(entries@.take(i + 1).drop_last() =~= entries@.take(i as int));
                m.insert(entries[i].0.clone(), entries[i].1.copy());
                i = i + 1;
            }
            assert(entries@.take(i as int) =~= entries@);
            Some(m)
        },
    }
}

impl PhysicsControl {
    /// Whether the control is what a value describes.
    pub open spec fn reads(&self, kind: PhysicsControlKind, control: PsbValue) -> bool {
        let d = *self.definition();
        &&& self.kind() == kind
        &&& control is Object
        &&& d.label@ == control.text_field("label").unwrap_or(Seq::empty())
        &&& d.enabled == spec_is_enabled(control)
        &&& opt_string(d.base_layer) == control.text_field("baseLayer")
        &&& opt_string(d.parameter) == control.text_field("parameter")
        &&& opt_string(d.var_lr) == control.text_field("var_lr")
        &&& opt_string(d.var_ud) == control.text_field("var_ud")
        &&& opt_string(d.var_lrm) == control.text_field("var_lrm")
        &&& d.fields.wf()
        &&& copies(d.fields@, fields_by_name(control->Object_0@))
    }
}

/// The objects of a row.
pub open spec fn objects(row: Seq<PsbValue>) -> Seq<PsbValue>
    decreases row.len(),
{
    if row.len() == 0 {
        Seq::empty()
    } else if row.last() is Object {
        objects(row.drop_last()).push(row.last())
    } else {
        objects(row.drop_last())
    }
}

/// Reads the physics controls of one kind behind those that are there already;
/// what is no object is left out.
pub fn parse_physics_controls(
    value: Option<&PsbValue>,
    kind: PhysicsControlKind,
    out: &mut Vec<PhysicsControl>,
)
    ensures
        final(out)@.len() == old(out)@.len() + objects(items_of(value)).len(),
        final(out)@.take(old(out)@.len() as int) == old(out)@,
        forall|i: int|
            0 <= i < objects(items_of(value)).len() ==> (#[trigger] final(out)@[old(out)@.len()
                + i]).reads(kind, objects(items_of(value))[i]),
{
    let ghost start = out@;
    assert(out@.take(start.len() as int) =~= start);
    if let Some(list) = list_of(value) {
        let mut i: usize = 0;
        while i < list.len()
            invariant
                i <= list@.len(),
                out@.len() == start.len() + objects(list@.take(i as int)).len(),
                out@.take(start.len() as int) == start,
                forall|j: int|
                    0 <= j < objects(list@.take(i as int)).len() ==> (#[trigger] out@[start.len()
                        + j]).reads(kind, objects(list@.take(i as int))[j]),
            decreases list@.len() - i,
        {
            assert(list@.take(i + 1).drop_last() =~= list@.take(i as int));
            let control = &list[i];
            let ghost was = out@;
            let ghost known = objects(list@.take(i as int));
            if let Some(fields) = object_to_map(control) {
                let label = match control.field_str("label") {
                    Some(s) => s.to_owned(),
                    None => String::new(),
                };
                let definition = PhysicsControlDefinition {
                    label,
                    enabled: is_enabled(control),
                    base_layer: opt_owned(control.field_str("baseLayer")),
                    parameter: opt_owned(control.field_str("parameter")),
                    var_lr: opt_owned(control.field_str("var_lr")),
                    var_ud: opt_owned(control.field_str("var_ud")),
                    var_lrm: opt_owned(control.field_str("var_lrm")),
                    fields,
                };
                out.push(
                    match kind {
                        PhysicsControlKind::Bust => PhysicsControl::Bust(definition),
                        PhysicsControlKind::Hair => PhysicsControl::Hair(definition),
                        PhysicsControlKind::Parts => PhysicsControl::Parts(definition),
                    },
                );
                proof {
                    assert(out@[was.len() as int].reads(kind, *control));
                    assert(out@.take(start.len() as int) =~= was.take(start.len() as int));
                    assert forall|j: int|
                        0 <= j < objects(list@.take(i + 1)).len() implies (#[trigger] out@[
                    start.len() + j]).reads(kind, objects(list@.take(i + 1))[j]) by {
                        if j < known.len() {
                            assert(out@[start.len() + j] == was[start.len() + j]);
                            assert(objects(list@.take(i + 1))[j] == known[j]);
                        }
                    }
                }
            }
            i = i + 1;
        }
        assert(list@.take(i as int) =~= list@);
    }
}

impl OpaqueControl {
    /// Whether the control is what a value describes.
    pub open spec fn reads(&self, control: PsbValue) -> bool {
        &&& control is Object
        &&& opt_string(self.label) == control.text_field("label")
        &&& self.enabled == spec_is_enabled(control)
        &&& self.fields.wf()
        &&& copies(self.fields@, fields_by_name(control->Object_0@))
    }
}

/// Whether the controls are what a row describes, in order.
pub open spec fn reads_all(controls: Seq<OpaqueControl>, row: Seq<PsbValue>) -> bool {
    &&& controls.len() == row.len()
    &&& forall|i: int| 0 <= i < row.len() ==> (#[trigger] controls[i]).reads(row[i])
}

pub fn parse_opaque_controls(value: Option<&PsbValue>) -> (r: Vec<OpaqueControl>)
    ensures
        reads_all(r@, objects(items_of(value))),
{
    let mut r: Vec<OpaqueControl> = Vec::new();
    if let Some(list) = list_of(value) {
        let mut i: usize = 0;
        while i < list.len()
            invariant
                i <= list@.len(),
                reads_all(r@, objects(list@.take(i as int))),
            decreases list@.len() - i,
        {
            assert(list@.take(i + 1).drop_last() =~= list@.take(i as int));
            let control = &list[i];
            let ghost was = r@;
            let ghost known = objects(list@.take(i as int));
            if let Some(fields) = object_to_map(control) {
                r.push(
                    OpaqueControl {
                        label: opt_owned(control.field_str("label")),
                        enabled: is_enabled(control),
                        fields,
                    },
                );
                proof {
                    assert(r@[was.len() as int].reads(*control));
                    assert forall|j: int|
                        0 <= j < objects(list@.take(i + 1)).len() implies (#[trigger] r@[j]).reads(
                        objects(list@.take(i + 1))[j],
                    ) by {
                        if j < known.len() {
                            assert(r@[j] == was[j]);
                            assert(objects(list@.take(i + 1))[j] == known[j]);
                        }
                    }
                }
            }
            i = i + 1;
        }
        assert(list@.take(i as int) =~= list@);
    }
    r
}

impl EmoteRuntimePipeline {
    /// No controls at all.
    pub open spec fn is_empty(&self) -> bool {
        &&& self.instant_variables@.len() == 0
        &&& self.selector_controls@.len() == 0
        &&& self.clamp_controls@.len() == 0
        &&& self.loop_controls@.len() == 0
        &&& self.mirror_control is None
        &&& self.transition_controls@.len() == 0
        &&& self.physics_controls@.len() == 0
        &&& self.parts_controls@.len() == 0
        &&& self.eye_controls@.len() == 0
        &&& self.eyebrow_controls@.len() == 0
        &&& self.mouth_controls@.len() == 0
        &&& self.unsupported_fields@.len() == 0
    }

    /// Whether the physics controls are those of three rows in turn.
    pub open spec fn has_physics(
        &self,
        bust: Seq<PsbValue>,
        hair: Seq<PsbValue>,
        parts: Seq<PsbValue>,
    ) -> bool {
        let p = self.physics_controls@;
        &&& p.len() == bust.len() + hair.len() + parts.len()
        &&& forall|i: int|
            0 <= i < bust.len() ==> (#[trigger] p[i]).reads(PhysicsControlKind::Bust, bust[i])
        &&& forall|i: int|
            0 <= i < hair.len() ==> (#[trigger] p[bust.len() + i]).reads(
                PhysicsControlKind::Hair,
                hair[i],
            )
        &&& forall|i: int|
            0 <= i < parts.len() ==> (#[trigger] p[bust.len() + hair.len() + i]).reads(
                PhysicsControlKind::Parts,
                parts[i],
            )
    }

    /// Whether the pipeline is what the metadata describes.
    pub open spec fn reads(&self, metadata: PsbValue) -> bool {
        let parts = objects(items_of(metadata.field("partsControl")));
        &&& texts(self.instant_variables@) == item_texts(
            items_of(metadata.field("instantVariableList")),
        )
        &&& views(self.selector_controls@) == selectors_of(
            items_of(metadata.field("selectorControl")),
        )
        &&& views(self.clamp_controls@) == clamps_of(items_of(metadata.field("clampControl")))
        &&& views(self.loop_controls@) == items_of(metadata.field("loopControl")).map_values(
            |c: PsbValue| loop_of(c),
        )
        &&& mirror_names(self.mirror_control) == (match metadata.field("mirrorControl") {
            Some(v) => Some(item_texts(items_of(v.field("variableMatchList")))),
            None => None,
        })
        &&& views(self.transition_controls@) == transitions_of(
            items_of(metadata.field("transitionControl")),
        )
        &&& self.has_physics(
            objects(items_of(metadata.field("bustControl"))),
            objects(items_of(metadata.field("hairControl"))),
            parts,
        )
        &&& reads_all(self.parts_controls@, parts)
        &&& reads_all(self.eye_controls@, objects(items_of(metadata.field("eyeControl"))))
        &&& reads_all(self.eyebrow_controls@, objects(items_of(metadata.field("eyebrowControl"))))
        &&& reads_all(self.mouth_controls@, objects(items_of(metadata.field("mouthControl"))))
        &&& texts(self.unsupported_fields@) == (if metadata.field("physicsVariableList") is None {
            seq!["metadata.physicsVariableList is absent in this PSB"@]
        } else {
            Seq::empty()
        })
    }
}

impl Default for EmoteRuntimePipeline {
    /// No controls at all.
    fn default() -> (r: EmoteRuntimePipeline)
        ensures
            r.is_empty(),
    {
        EmoteRuntimePipeline {
            instant_variables: Vec::new(),
            selector_controls: Vec::new(),
            clamp_controls: Vec::new(),
            loop_controls: Vec::new(),
            mirror_control: None,
            transition_controls: Vec::new(),
            physics_controls: Vec::new(),
            parts_controls: Vec::new(),
            eye_controls: Vec::new(),
            eyebrow_controls: Vec::new(),
            mouth_controls: Vec::new(),
            unsupported_fields: Vec::new(),
        }
    }
}

/// Reads the controls of a document.
pub fn collect_emote_runtime_pipeline(root: &PsbValue) -> (r: EmoteRuntimePipeline)
    ensures
        match root.field("metadata") {
            Some(metadata) => r.reads(*metadata),
            None => r.is_empty(),
        },
{
    let metadata = match root.field("metadata") {
        Some(m) => m,
        None => {
            return EmoteRuntimePipeline::default();
        },
    };
    let ghost bust = objects(items_of(metadata.field("bustControl")));
    let ghost hair = objects(items_of(metadata.field("hairControl")));
    let ghost parts = objects(items_of(metadata.field("partsControl")));
    let mut physics_controls: Vec<PhysicsControl> = Vec::new();
    parse_physics_controls(
        metadata.field("bustControl"),
        PhysicsControlKind::Bust,
        &mut physics_controls,
    );
    let ghost one = physics_controls@;
    assert forall|i: int| 0 <= i < bust.len() implies (#[trigger] one[i]).reads(
        PhysicsControlKind::Bust,
        bust[i],
    ) by {
        assert(one[0 + i].reads(PhysicsControlKind::Bust, bust[i]));
    }
    parse_physics_controls(
        metadata.field("hairControl"),
        PhysicsControlKind::Hair,
        &mut physics_controls,
    );
    let ghost two = physics_controls@;
    parse_physics_controls(
        metadata.field("partsControl"),
        PhysicsControlKind::Parts,
        &mut physics_controls,
    );
    let ghost all = physics_controls@;
    proof {
        assert forall|i: int| 0 <= i < bust.len() implies (#[trigger] all[i]).reads(
            PhysicsControlKind::Bust,
            bust[i],
        ) by {
            assert(all[i] == all.take(two.len() as int)[i]);
            assert(two[i] == two.take(one.len() as int)[i]);
        }
        assert forall|i: int| 0 <= i < hair.len() implies (#[trigger] all[bust.len() + i]).reads(
            PhysicsControlKind::Hair,
            hair[i],
        ) by {
            assert(all[bust.len() + i] == all.take(two.len() as int)[bust.len() + i]);
            assert(two[one.len() + i].reads(PhysicsControlKind::Hair, hair[i]));
        }
        assert forall|i: int| 0 <= i < parts.len() implies (#[trigger] all[bust.len() + hair.len()
            + i]).reads(PhysicsControlKind::Parts, parts[i]) by {
            assert(all[two.len() + i].reads(PhysicsControlKind::Parts, parts[i]));
        }
    }
    let mut unsupported_fields: Vec<String> = Vec::new();
    if metadata.field("physicsVariableList").is_none() {
        unsupported_fields.push("metadata.physicsVariableList is absent in this PSB".to_owned());
        assert(texts(unsupported_fields@) =~= seq![
            "metadata.physicsVariableList is absent in this PSB"@,
        ]);
    } else {
        assert(texts(unsupported_fields@) =~= Seq::<Seq<char>>::empty());
    }
    EmoteRuntimePipeline {
        instant_variables: collect_item_texts(metadata.field("instantVariableList")),
        selector_controls: parse_selector_controls(metadata.field("selectorControl")),
        clamp_controls: parse_clamp_controls(metadata.field("clampControl")),
        loop_controls: parse_loop_controls(metadata.field("loopControl")),
        mirror_control: parse_mirror_control(metadata.field("mirrorControl")),
        transition_controls: parse_transition_controls(metadata.field("transitionControl")),
        physics_controls,
        parts_controls: parse_opaque_controls(metadata.field("partsControl")),
        eye_controls: parse_opaque_controls(metadata.field("eyeControl")),
        eyebrow_controls: parse_opaque_controls(metadata.field("eyebrowControl")),
        mouth_controls: parse_opaque_controls(metadata.field("mouthControl")),
        unsupported_fields,
    }
}

} // verus!
