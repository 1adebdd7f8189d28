//! What a player can be told and asked.

use crate::api::{
    entries_of_lines, lines, read_log, write_log, LogEntry, TimelinePlayMode, VariableWrite, Write,
};
use crate::arrange::views;
use crate::assembly::EmoteStaticScene;
use crate::controls::EmoteRuntimePipeline;
use crate::curve::unit_clamp;
use crate::drive::states;
use crate::numerals::{decimal, decimal_u64};
use crate::order::{ordered, TextMap};
use crate::physics::{init_bust_states, init_hair_states, new_busts, new_pendulums};
use crate::place::{scene_bounds, EmoteSceneBounds, Stand};
use crate::playback::{all_changed, change_all, ActiveTimelineState, TimelineBlendTarget, VarChange};
use crate::player::{
    drives_controls, is_auto_control_timeline_name, ElunaPlayer, OuterForce, Player, WindState,
};
use crate::show::{number_text, show_single};
use crate::single::Single;
use crate::text::{concat_text, join_two, opt_text, same_text, texts};
use crate::variables::{fresh_state, EmoteVariableState, EmoteVariableTarget, VarState};
use vstd::prelude::*;

verus! {

/// A row of one text.
fn one_text(a: String) -> (r: Vec<String>)
    ensures
        texts(r@) == seq![a@],
{
    let mut r: Vec<String> = Vec::new();
    r.push(a);
    assert(texts(r@) =~= seq![a@]);
    r
}

fn two_texts(a: String, b: String) -> (r: Vec<String>)
    ensures
        texts(r@) == seq![a@, b@],
{
    let mut r: Vec<String> = Vec::new();
    r.push(a);
    r.push(b);
    assert(texts(r@) =~= seq![a@, b@]);
    r
}

fn three_texts(a: String, b: String, c: String) -> (r: Vec<String>)
    ensures
        texts(r@) == seq![a@, b@, c@],
{
    let mut r: Vec<String> = Vec::new();
    r.push(a);
    r.push(b);
    r.push(c);
    assert(texts(r@) =~= seq![a@, b@, c@]);
    r
}

fn four_texts(a: String, b: String, c: String, d: String) -> (r: Vec<String>)
    ensures
        texts(r@) == seq![a@, b@, c@, d@],
{
    let mut r: Vec<String> = Vec::new();
    r.push(a);
    r.push(b);
    r.push(c);
    r.push(d);
    assert(texts(r@) =~= seq![a@, b@, c@, d@]);
    r
}

fn five_texts(a: String, b: String, c: String, d: String, e: String) -> (r: Vec<String>)
    ensures
        texts(r@) == seq![a@, b@, c@, d@, e@],
{
    let mut r: Vec<String> = Vec::new();
    r.push(a);
    r.push(b);
    r.push(c);
    r.push(d);
    r.push(e);
    assert(texts(r@) =~= seq![a@, b@, c@, d@, e@]);
    r
}

/// A variable on its way to a value: there at once where the time is not above
/// zero or not finite.
pub open spec fn sent(state: VarState, value: Single, time: Single, easing: Single) -> VarState {
    let target_value = state.info.clamp(value);
    if time.le(Single::zero()) || !time.is_finite() {
        VarState { value: target_value, target: None, ..state }
    } else {
        VarState {
            target: Some(
                EmoteVariableTarget {
                    start_value: state.value,
                    target_value,
                    elapsed_ticks: Single::zero(),
                    duration_ticks: time,
                    easing,
                },
            ),
            ..state
        }
    }
}

fn send(state: &mut EmoteVariableState, value: Single, time: Single, easing: Single) -> (r: Single)
    ensures
        final(state)@ == sent(old(state)@, value, time, easing),
        r == old(state)@.info.clamp(value),
{
    let target_value = state.info.clamp(value);
    if time.le(Single::zero()) || !time.is_finite() {
        state.value = target_value;
        state.target = None;
    } else {
        state.target = Some(
            EmoteVariableTarget {
                start_value: state.value,
                target_value,
                elapsed_ticks: Single::zero(),
                duration_ticks: time,
                easing,
            },
        );
    }
    target_value
}

/// A timeline with its share on its way to a value: there at once where the time
/// is not above zero or not finite.
pub open spec fn share_sent(
    state: ActiveTimelineState,
    target_value: Single,
    time: Single,
    easing: Single,
    stop_when_done: bool,
) -> ActiveTimelineState {
    if time.le(Single::zero()) || !time.is_finite() {
        ActiveTimelineState { blend_ratio: target_value, blend_target: None, ..state }
    } else {
        ActiveTimelineState {
            blend_target: Some(
                TimelineBlendTarget {
                    start_value: state.blend_ratio,
                    target_value,
                    elapsed_ticks: Single::zero(),
                    duration_ticks: time,
                    easing,
                    stop_when_done,
                },
            ),
            ..state
        }
    }
}

fn send_share(
    state: &mut ActiveTimelineState,
    target_value: Single,
    time: Single,
    easing: Single,
    stop_when_done: bool,
)
    ensures
        *final(state) == share_sent(*old(state), target_value, time, easing, stop_when_done),
{
    if time.le(Single::zero()) || !time.is_finite() {
        state.blend_ratio = target_value;
        state.blend_target = None;
    } else {
        state.blend_target = Some(
            TimelineBlendTarget {
                start_value: state.blend_ratio,
                target_value,
                elapsed_ticks: Single::zero(),
                duration_ticks: time,
                easing,
                stop_when_done,
            },
        );
    }
}

impl Player {
    /// The variable, a new one at zero where there is none.
    pub open spec fn variable(self, name: Seq<char>) -> VarState {
        if self.vars.dom().contains(name) {
            self.vars[name]
        } else {
            fresh_state(name, Single::zero())
        }
    }

    /// The player with a variable that is there set at once, and the controls behind.
    pub open spec fn set_now(
        self,
        name: Seq<char>,
        value: Single,
        pipeline: EmoteRuntimePipeline,
    ) -> Player {
        if self.vars.dom().contains(name) {
            (Player {
                vars: self.vars.insert(
                    name,
                    VarState {
                        value: self.vars[name].info.clamp(value),
                        target: None,
                        ..self.vars[name]
                    },
                ),
                modified: true,
                ..self
            }).controlled(pipeline)
        } else {
            self
        }
    }

    /// The player with all variables at their defaults, and the controls behind.
    pub open spec fn all_reset(self, pipeline: EmoteRuntimePipeline) -> Player {
        (Player {
            vars: all_changed(self.vars, VarChange::Reset),
            modified: true,
            ..self
        }).controlled(pipeline)
    }

    /// The player with every variable at the end of its way.
    pub open spec fn skipped(self) -> Player {
        Player { vars: all_changed(self.vars, VarChange::Settle), ..self }
    }

    /// The player with springs and pendulums as they were made.
    pub open spec fn bodies_reset(self, pipeline: EmoteRuntimePipeline) -> Player {
        Player {
            bust: new_busts(pipeline.physics_controls@),
            hair: new_pendulums(pipeline.physics_controls@),
            ..self
        }
    }

    /// The player with a timeline set to a time, held between its start and its end,
    /// and running from there in the mode that it has.
    pub open spec fn sought(
        self,
        name: Seq<char>,
        ticks: Single,
        pipeline: EmoteRuntimePipeline,
    ) -> Player {
        let duration = self.timelines[name].duration_ticks.max(Single::zero());
        let time = if Single::zero().lt(duration) {
            ticks.clamp(Single::zero(), duration)
        } else {
            ticks.max(Single::zero())
        };
        let mode = if self.running.dom().contains(name) {
            self.running[name].mode
        } else if self.active.dom().contains(name) {
            self.active[name]
        } else {
            TimelinePlayMode::once()
        };
        self.with_running(name, mode, time).reapplied().controlled(pipeline)
    }

    /// Whether a write to a variable is taken.
    pub open spec fn takes(self, name: Seq<char>, value: Single) -> bool {
        name.len() > 0 && value.is_finite()
    }

    /// The player after a write to a variable that is taken.
    pub open spec fn written(
        self,
        name: Seq<char>,
        value: Single,
        time: Single,
        easing: Single,
    ) -> Player {
        let state = self.variable(name);
        Player {
            vars: self.vars.insert(name, sent(state, value, time, easing)),
            pending: self.pending.push(
                Write {
                    name,
                    value: state.info.clamp(value),
                    time_ticks: time.max(Single::zero()),
                    easing,
                },
            ),
            modified: true,
            ..self
        }
    }

    /// Whether a timeline gives way when another main timeline is played.
    pub open spec fn gives_way(self, name: Seq<char>, to: Seq<char>) -> bool {
        self.active.dom().contains(name) && !drives_controls(name)
            && !self.active[name].is_difference() && name != to
    }

    /// The player without the main timelines that give way.
    #[verifier::opaque]
    pub open spec fn cleared_for(self, name: Seq<char>) -> Player {
        let gone = Set::new(|k: Seq<char>| self.gives_way(k, name));
        Player {
            active: self.active.remove_keys(gone),
            running: self.running.remove_keys(gone),
            ratios: self.ratios.remove_keys(gone),
            ..self
        }
    }

    /// With a timeline running in a mode from a time on, with its last share.
    #[verifier::opaque]
    pub open spec fn with_running(self, name: Seq<char>, mode: TimelinePlayMode, time: Single)
        -> Player {
        Player {
            active: self.active.insert(name, mode),
            running: self.running.insert(
                name,
                ActiveTimelineState {
                    mode,
                    elapsed_ticks: time,
                    blend_ratio: if self.ratios.dom().contains(name) {
                        self.ratios[name]
                    } else {
                        Single::one()
                    },
                    blend_target: None,
                },
            ),
            ..self
        }
    }

    /// The player after a timeline is played. A main timeline takes the place of the
    /// other main ones.
    pub open spec fn played(
        self,
        name: Seq<char>,
        mode: TimelinePlayMode,
        pipeline: EmoteRuntimePipeline,
    ) -> Player {
        if name.len() == 0 {
            self
        } else {
            let cleared = if !mode.is_difference() && !drives_controls(name) {
                self.cleared_for(name)
            } else {
                self
            };
            cleared.with_running(name, mode, Single::zero()).reapplied().controlled(pipeline).noted(
                "PlayTimeline"@,
                seq![name, decimal(mode.flags as int)],
            )
        }
    }

    /// The player after a timeline is stopped, all of them where no name is given.
    pub open spec fn stopped(self, name: Seq<char>, pipeline: EmoteRuntimePipeline) -> Player {
        let quiet = if name.len() == 0 {
            Player { active: Map::empty(), running: Map::empty(), ratios: Map::empty(), ..self }
        } else {
            Player {
                active: self.active.remove(name),
                running: self.running.remove(name),
                ratios: self.ratios.remove(name),
                ..self
            }
        };
        quiet.reapplied().controlled(pipeline).noted("StopTimeline"@, seq![name])
    }

    /// The running state of a timeline, a new one where there is none.
    pub open spec fn running_or_new(self, name: Seq<char>) -> ActiveTimelineState {
        if self.running.dom().contains(name) {
            self.running[name]
        } else {
            ActiveTimelineState {
                mode: if self.active.dom().contains(name) {
                    self.active[name]
                } else {
                    TimelinePlayMode::parallel()
                },
                elapsed_ticks: Single::zero(),
                blend_ratio: if self.ratios.dom().contains(name) {
                    self.ratios[name]
                } else {
                    Single::one()
                },
                blend_target: None,
            }
        }
    }

    /// The player after the share of a timeline is sent to a value.
    pub open spec fn faded(
        self,
        name: Seq<char>,
        value: Single,
        time: Single,
        easing: Single,
        stop_when_done: bool,
    ) -> Player {
        if name.len() == 0 || !value.is_finite() {
            self
        } else {
            let target_value = unit_clamp(value);
            let next = share_sent(
                self.running_or_new(name),
                target_value,
                time,
                easing,
                stop_when_done,
            );
            (Player {
                running: self.running.insert(name, next),
                ratios: self.ratios.insert(name, next.blend_ratio),
                ..self
            }).noted(
                "SetTimelineBlendRatio"@,
                seq![
                    name,
                    number_text(target_value),
                    number_text(time.max(Single::zero())),
                    number_text(easing),
                    truth_text(stop_when_done),
                ],
            )
        }
    }

    /// The player after a variable is sent to a value.
    pub open spec fn variable_sent(
        self,
        name: Seq<char>,
        value: Single,
        time: Single,
        easing: Single,
    ) -> Player {
        if self.takes(name, value) {
            self.written(name, value, time, easing).logged(
                "SetVariable"@,
                seq![
                    name,
                    number_text(self.variable(name).info.clamp(value)),
                    number_text(time.max(Single::zero())),
                    number_text(easing),
                ],
            )
        } else {
            self
        }
    }

    /// The player after a variable of a module is sent to a value.
    pub open spec fn module_variable_sent(
        self,
        module: Seq<char>,
        name: Seq<char>,
        value: Single,
        time: Single,
        easing: Single,
    ) -> Player {
        if module.len() > 0 && name.len() > 0 && value.is_finite() {
            self.written(module + "/"@ + name, value, time, easing).logged(
                "SetVariableDiff"@,
                seq![
                    module,
                    name,
                    number_text(value),
                    number_text(time.max(Single::zero())),
                    number_text(easing),
                ],
            )
        } else {
            self
        }
    }

    /// The player after the model is moved.
    pub open spec fn moved_to(self, x: Single, y: Single) -> Player {
        if x.is_finite() && y.is_finite() {
            (Player { coord_x: x, coord_y: y, ..self }).noted(
                "SetCoord"@,
                seq![number_text(x), number_text(y), "0"@, "0"@],
            )
        } else {
            self
        }
    }

    /// The player after the model is scaled.
    pub open spec fn scaled_to(self, scale: Single) -> Player {
        if scale.is_finite() && Single::zero().lt(scale) {
            (Player { scale, ..self }).noted(
                "SetScale"@,
                seq![number_text(scale), "0"@, "0"@],
            )
        } else {
            self
        }
    }

    /// The player after the model is turned.
    pub open spec fn turned_to(self, rot: Single) -> Player {
        if rot.is_finite() {
            (Player { rot, ..self }).noted(
                "SetRot"@,
                seq![number_text(rot), "0"@, "0"@],
            )
        } else {
            self
        }
    }

    /// The player after a force is set.
    pub open spec fn pushed(
        self,
        label: Seq<char>,
        x: Single,
        y: Single,
        time: Single,
        easing: Single,
    ) -> Player {
        if label.len() > 0 && x.is_finite() && y.is_finite() {
            (Player {
                forces: self.forces.insert(label, OuterForce { x, y }),
                ..self
            }).noted(
                "SetOuterForce"@,
                seq![
                    label,
                    number_text(x),
                    number_text(y),
                    number_text(time.max(Single::zero())),
                    number_text(easing),
                ],
            )
        } else {
            self
        }
    }

    /// The player after gravity is turned.
    pub open spec fn gravity_turned(self, rot: Single, time: Single, easing: Single) -> Player {
        if rot.is_finite() {
            (Player { outer_rot: rot, ..self }).noted(
                "SetOuterRot"@,
                seq![
                    number_text(rot),
                    number_text(time.max(Single::zero())),
                    number_text(easing),
                ],
            )
        } else {
            self
        }
    }
}

/// A yes or no as text.
pub open spec fn truth_text(v: bool) -> Seq<char> {
    if v {
        "true"@
    } else {
        "false"@
    }
}

pub fn show_truth(v: bool) -> (r: String)
    ensures
        r@ == truth_text(v),
{
    if v {
        "true".to_owned()
    } else {
        "false".to_owned()
    }
}

/// Takes out all entries with one of the names.
fn remove_all<V>(map: &mut TextMap<V>, names: &Vec<String>)
    requires
        old(map).wf(),
    ensures
        final(map).wf(),
        final(map)@ == old(map)@.remove_keys(texts(names@).to_set()),
{
    let ghost start = map@;
    let ghost all = texts(names@);
    let mut i: usize = 0;
    assert(map@ =~= start.remove_keys(all.take(0).to_set()));
    while i < names.len()
        invariant
            i <= names@.len(),
            all == texts(names@),
            map.wf(),
            map@ == start.remove_keys(all.take(i as int).to_set()),
        decreases names@.len() - i,
    {
        let ghost before = map@;
        map.remove(names[i].as_str());
        proof {
            let x = all[i as int];
            let longer = all.take(i + 1);
            let shorter = all.take(i as int);
            assert forall|k: Seq<char>| #[trigger] longer.to_set().contains(k) <==> (
            shorter.to_set().contains(k) || k == x) by {
                if longer.contains(k) {
                    let j = choose|j: int| 0 <= j < longer.len() && longer[j] == k;
                    if j < i {
                        assert(shorter[j] == k);
                    }
                }
                if shorter.contains(k) {
                    let j = choose|j: int| 0 <= j < shorter.len() && shorter[j] == k;
                    assert(longer[j] == k);
                }
                assert(longer[i as int] == x);
            }
            assert(map@ =~= start.remove_keys(longer.to_set()));
        }
        i = i + 1;
    }
    assert(all.take(i as int) =~= all);
}

impl ElunaPlayer {
    pub fn scene(&self) -> (r: &EmoteStaticScene)
        ensures
            *r == self.shown_scene(),
    {
        &self.scene
    }

    /// Takes another scene.
    pub fn replace_scene(&mut self, scene: EmoteStaticScene)
        requires
            old(self).wf(),
        ensures
            final(self).wf(),
            final(self)@ == old(self)@,
            final(self).shown_scene() == scene,
            final(self).pipeline() == old(self).pipeline(),
    {
        self.scene = scene;
    }

    /// The bounds of the scene that is shown, given where its sprites stand; none where
    /// nothing is seen.
    pub fn bounds(&self, stands: &Vec<Stand>) -> (r: Option<EmoteSceneBounds>)
        requires
            self.shown_scene().wf(),
            stands@.len() == self.shown_scene().sprites@.len(),
        ensures
            r == scene_bounds(self.shown_scene()@.sprites, stands@),
    {
        self.scene.bounds(stands)
    }

    pub fn show(&mut self)
        requires
            old(self).wf(),
        ensures
            final(self).wf(),
            final(self).same_model(old(self)),
            final(self)@ == (Player { shown: true, ..old(self)@ }),
    {
        self.shown = true;
    }

    pub fn conceal(&mut self)
        requires
            old(self).wf(),
        ensures
            final(self).wf(),
            final(self).same_model(old(self)),
            final(self)@ == (Player { shown: false, ..old(self)@ }),
    {
        self.shown = false;
    }

    pub fn is_shown(&self) -> (r: bool)
        ensures
            r == self@.shown,
    {
        self.shown
    }

    pub fn smoothing(&self) -> (r: bool)
        ensures
            r == self@.smoothing,
    {
        self.smoothing
    }

    pub fn set_smoothing(&mut self, state: bool)
        requires
            old(self).wf(),
        ensures
            final(self).wf(),
            final(self).same_model(old(self)),
            final(self)@ == (Player { smoothing: state, modified: true, ..old(self)@ }),
    {
        self.smoothing = state;
        self.modified = true;
    }

    pub fn mesh_division_ratio(&self) -> (r: Single)
        ensures
            r == self@.mesh_division_ratio,
    {
        self.mesh_division_ratio
    }

    /// Sets how finely meshes are divided; only a finite ratio above zero counts.
    pub fn set_mesh_division_ratio(&mut self, ratio: Single)
        requires
            old(self).wf(),
        ensures
            final(self).wf(),
            final(self).same_model(old(self)),
            final(self)@ == (if ratio.is_finite() && Single::zero().lt(ratio) {
                Player { mesh_division_ratio: ratio, modified: true, ..old(self)@ }
            } else {
                old(self)@
            }),
    {
        if ratio.is_finite() && Single::zero().lt(ratio) {
            self.mesh_division_ratio = ratio;
            self.modified = true;
        }
    }

    pub fn queuing(&self) -> (r: bool)
        ensures
            r == self@.queuing,
    {
        self.queuing
    }

    pub fn set_queuing(&mut self, state: bool)
        requires
            old(self).wf(),
        ensures
            final(self).wf(),
            final(self).same_model(old(self)),
            final(self)@ == (Player { queuing: state, modified: true, ..old(self)@ }),
    {
        self.queuing = state;
        self.modified = true;
    }

    pub fn color_rgba(&self) -> (r: u32)
        ensures
            r == self@.color_rgba,
    {
        self.color_rgba
    }

    /// Sets the colour at once; time and easing are logged only.
    pub fn set_color_rgba(&mut self, rgba: u32, frame_count: Single, easing: Single)
        requires
            old(self).wf(),
        ensures
            final(self).wf(),
            final(self).same_model(old(self)),
            final(self)@ == (Player { color_rgba: rgba, ..old(self)@ }).noted(
                "SetColor"@,
                seq![
                    decimal(rgba as int),
                    number_text(frame_count.max(Single::zero())),
                    number_text(easing),
                ],
            ),
    {
        self.color_rgba = rgba;
        self.note_api_call(
            "SetColor",
            three_texts(
                decimal_u64(rgba as u64),
                show_single(frame_count.max(Single::zero())),
                show_single(easing),
            ),
        );
    }

    pub fn grayscale(&self) -> (r: Single)
        ensures
            r == self@.grayscale,
    {
        self.grayscale
    }

    /// Sets the share of gray at once, held in `[0, 1]`; time and easing are logged
    /// only.
    pub fn set_grayscale(&mut self, rate: Single, frame_count: Single, easing: Single)
        requires
            old(self).wf(),
        ensures
            final(self).wf(),
            final(self).same_model(old(self)),
            final(self)@ == (if rate.is_finite() {
                (Player { grayscale: unit_clamp(rate), ..old(self)@ }).noted(
                    "SetGrayscale"@,
                    seq![
                        number_text(unit_clamp(rate)),
                        number_text(frame_count.max(Single::zero())),
                        number_text(easing),
                    ],
                )
            } else {
                old(self)@
            }),
    {
        if rate.is_finite() {
            self.grayscale = unit_clamp(rate);
            let args = three_texts(
                show_single(self.grayscale),
                show_single(frame_count.max(Single::zero())),
                show_single(easing),
            );
            self.note_api_call("SetGrayscale", args);
        }
    }

    pub fn as_original_scale(&self) -> (r: bool)
        ensures
            r == self@.as_original_scale,
    {
        self.as_original_scale
    }

    pub fn set_as_original_scale(&mut self, state: bool)
        requires
            old(self).wf(),
        ensures
            final(self).wf(),
            final(self).same_model(old(self)),
            final(self)@ == (Player { as_original_scale: state, modified: true, ..old(self)@ }),
    {
        self.as_original_scale = state;
        self.modified = true;
    }

    /// A value by its label: a part of the placement, else a variable, zero where
    /// there is none.
    pub fn state_value(&self, label: &str) -> (r: Single)
        requires
            self.wf(),
        ensures
            r == (if label@ == "scale"@ {
                self@.scale
            } else if label@ == "rot"@ {
                self@.rot
            } else if label@ == "x"@ {
                self@.coord_x
            } else if label@ == "y"@ {
                self@.coord_y
            } else if self@.vars.dom().contains(label@) {
                self@.vars[label@].value
            } else {
                Single::zero()
            }),
    {
        if same_text(label, "scale") {
            self.scale
        } else if same_text(label, "rot") {
            self.rot
        } else if same_text(label, "x") {
            self.coord_x
        } else if same_text(label, "y") {
            self.coord_y
        } else {
            match self.variables.get(label) {
                Some(s) => s.value,
                None => Single::zero(),
            }
        }
    }

    pub fn elapsed_ticks(&self) -> (r: Single)
        ensures
            r == self@.elapsed_ticks,
    {
        self.elapsed_ticks
    }

    pub fn variables(&self) -> (r: &TextMap<EmoteVariableState>)
        ensures
            states(*r) == self@.vars,
            self.wf() ==> r.wf(),
    {
        &self.variables
    }

    /// The first timeline by name.
    pub fn default_timeline_name(&self) -> (r: Option<&str>)
        requires
            self.wf(),
        ensures
            opt_text(r) == (if ordered(self@.timelines.dom()).len() > 0 {
                Some(ordered(self@.timelines.dom())[0])
            } else {
                None
            }),
    {
        proof {
            self.timelines.lemma_ordered();
            assert(self@.timelines.dom() =~= self.timelines@.dom());
        }
        if self.timelines.entries.len() > 0 {
            Some(self.timelines.entries[0].0.as_str())
        } else {
            None
        }
    }

    pub fn timeline_total_frame_count(&self, name: &str) -> (r: Option<Single>)
        requires
            self.wf(),
        ensures
            r == (if self@.timelines.dom().contains(name@) {
                Some(self@.timelines[name@].duration_ticks)
            } else {
                None
            }),
    {
        match self.timelines.get(name) {
            Some(t) => Some(t.duration_ticks),
            None => None,
        }
    }

    /// The share of a timeline: that of its running, else the last one it had.
    pub fn timeline_blend_ratio(&self, name: &str) -> (r: Single)
        requires
            self.wf(),
        ensures
            r == (if self@.running.dom().contains(name@) {
                self@.running[name@].blend_ratio
            } else if self@.ratios.dom().contains(name@) {
                self@.ratios[name@]
            } else {
                Single::zero()
            }),
    {
        match self.active_timeline_states.get(name) {
            Some(s) => s.blend_ratio,
            None => match self.timeline_blend_ratios.get(name) {
                Some(v) => *v,
                None => Single::zero(),
            },
        }
    }

    /// Whether a timeline is playing, any of them where no name is given.
    pub fn is_timeline_playing(&self, name: &str) -> (r: bool)
        requires
            self.wf(),
        ensures
            r == (if name@.len() == 0 {
                exists|k: Seq<char>| self@.active.dom().contains(k)
            } else {
                self@.active.dom().contains(name@)
            }),
    {
        if name.is_empty() {
            proof {
                if self.active_timelines.entries@.len() > 0 {
                    self.active_timelines.lemma_entry(0);
                    assert(self@.active.dom().contains(self.active_timelines.entries@[0].0@));
                }
            }
            self.active_timelines.entries.len() > 0
        } else {
            self.active_timelines.contains_key(name)
        }
    }

    pub fn is_loop_timeline(&self, name: &str) -> (r: bool)
        requires
            self.wf(),
        ensures
            r == (if self@.running.dom().contains(name@) {
                self@.running[name@].mode.is_looping()
            } else if self@.active.dom().contains(name@) {
                self@.active[name@].is_looping()
            } else {
                false
            }),
    {
        match self.active_timeline_states.get(name) {
            Some(s) => s.mode.is_looping(),
            None => match self.active_timelines.get(name) {
                Some(m) => m.is_looping(),
                None => false,
            },
        }
    }

    pub fn variable_value(&self, name: &str) -> (r: Option<Single>)
        requires
            self.wf(),
        ensures
            r == (if self@.vars.dom().contains(name@) {
                Some(self@.vars[name@].value)
            } else {
                None
            }),
    {
        match self.variables.get(name) {
            Some(s) => Some(s.value),
            None => None,
        }
    }

    /// The value of a variable of a module.
    pub fn variable_diff_value(&self, module: &str, name: &str) -> (r: Option<Single>)
        requires
            self.wf(),
        ensures
            r == (if self@.vars.dom().contains(module@ + "/"@ + name@) {
                Some(self@.vars[module@ + "/"@ + name@].value)
            } else {
                None
            }),
    {
        let full = join_two(module, "/", name);
        self.variable_value(full.as_str())
    }

    pub fn variable_frame_count(&self, name: &str) -> (r: usize)
        requires
            self.wf(),
        ensures
            r == (if self@.vars.dom().contains(name@) {
                self@.vars[name@].info.frames.len()
            } else {
                0
            }),
    {
        match self.variables.get(name) {
            Some(s) => {
                assert(s@.info.frames.len() == s.info.frames@.len());
                s.info.frames.len()
            },
            None => 0,
        }
    }

    pub fn variable_frame_label_at(&self, name: &str, index: usize) -> (r: Option<&str>)
        requires
            self.wf(),
        ensures
            opt_text(r) == (if self@.vars.dom().contains(name@) && index
                < self@.vars[name@].info.frames.len() {
                Some(self@.vars[name@].info.frames[index as int].label)
            } else {
                None
            }),
    {
        match self.variables.get(name) {
            Some(s) => {
                assert(s@.info.frames.len() == s.info.frames@.len());
                if index < s.info.frames.len() {
                    Some(s.info.frames[index].label.as_str())
                } else {
                    None
                }
            },
            None => None,
        }
    }

    pub fn variable_frame_value_at(&self, name: &str, index: usize) -> (r: Option<Single>)
        requires
            self.wf(),
        ensures
            r == (if self@.vars.dom().contains(name@) && index
                < self@.vars[name@].info.frames.len() {
                Some(self@.vars[name@].info.frames[index as int].value)
            } else {
                None
            }),
    {
        match self.variables.get(name) {
            Some(s) => {
                assert(s@.info.frames.len() == s.info.frames@.len());
                if index < s.info.frames.len() {
                    Some(s.info.frames[index].value)
                } else {
                    None
                }
            },
            None => None,
        }
    }

    pub fn set_paused(&mut self, paused: bool)
        requires
            old(self).wf(),
        ensures
            final(self).wf(),
            final(self).same_model(old(self)),
            final(self)@ == (Player { paused, ..old(self)@ }),
    {
        self.paused = paused;
    }

    pub fn is_paused(&self) -> (r: bool)
        ensures
            r == self@.paused,
    {
        self.paused
    }

    pub fn set_physics_enabled(&mut self, enabled: bool)
        requires
            old(self).wf(),
        ensures
            final(self).wf(),
            final(self).same_model(old(self)),
            final(self)@ == (Player { physics_enabled: enabled, ..old(self)@ }),
    {
        self.physics_enabled = enabled;
    }

    pub fn is_physics_enabled(&self) -> (r: bool)
        ensures
            r == self@.physics_enabled,
    {
        self.physics_enabled
    }

    /// Sets a variable that is there at once, and lets the controls follow.
    pub fn set_variable_immediate(&mut self, name: &str, value: Single)
        requires
            old(self).wf(),
        ensures
            final(self).wf(),
            final(self).same_model(old(self)),
            final(self)@ == old(self)@.set_now(name@, value, old(self).pipeline()),
    {
        let ghost start = self.variables;
        if let Some(i) = self.variables.find(name) {
            let state = self.variables.value_mut(i);
            state.value = state.info.clamp(value);
            state.target = None;
            let ghost now = *state;
            proof {
                self.variables.lemma_changed(start, i as int, now);
                assert(states(self.variables) =~= states(start).insert(name@, now@));
            }
            self.modified = true;
            self.evaluate_runtime_pipeline();
        }
    }

    /// Sets a variable that is there to its default.
    pub fn reset_variable_to_default(&mut self, name: &str)
        requires
            old(self).wf(),
        ensures
            final(self).wf(),
            final(self).same_model(old(self)),
            final(self)@ == (if old(self)@.vars.dom().contains(name@) {
                Player {
                    vars: old(self)@.vars.insert(name@, old(self)@.vars[name@].at_default()),
                    modified: true,
                    ..old(self)@
                }
            } else {
                old(self)@
            }),
    {
        let ghost start = self.variables;
        if let Some(i) = self.variables.find(name) {
            let state = self.variables.value_mut(i);
            state.value = state.info.default_value;
            state.target = None;
            let ghost now = *state;
            proof {
                self.variables.lemma_changed(start, i as int, now);
                assert(states(self.variables) =~= states(start).insert(name@, now@));
            }
            self.modified = true;
        }
    }

    /// Puts springs and pendulums back as they were made.
    pub fn reset_physics(&mut self)
        requires
            old(self).wf(),
        ensures
            final(self).wf(),
            final(self).same_model(old(self)),
            final(self)@ == old(self)@.bodies_reset(old(self).pipeline()),
    {
        self.bust_states = init_bust_states(&self.runtime_pipeline);
        self.hair_states = init_hair_states(&self.runtime_pipeline);
    }

    pub fn timeline_elapsed_ticks(&self, name: &str) -> (r: Single)
        requires
            self.wf(),
        ensures
            r == (if self@.running.dom().contains(name@) {
                self@.running[name@].elapsed_ticks
            } else {
                Single::zero()
            }),
    {
        match self.active_timeline_states.get(name) {
            Some(s) => s.elapsed_ticks,
            None => Single::zero(),
        }
    }

    /// Sets the variables anew from the running timelines and the controls.
    fn settle(&mut self)
        requires
            old(self).wf(),
        ensures
            final(self).wf(),
            final(self).same_model(old(self)),
            final(self)@ == old(self)@.reapplied().controlled(old(self).pipeline()),
    {
        self.reapply_active_timelines_at_current_time();
        self.evaluate_runtime_pipeline();
    }

    fn run_timeline(&mut self, name: &str, mode: TimelinePlayMode, time: Single)
        requires
            old(self).wf(),
        ensures
            final(self).wf(),
            final(self).same_model(old(self)),
            final(self)@ == old(self)@.with_running(name@, mode, time),
    {
        proof {
            reveal(Player::with_running);
        }
        self.active_timelines.insert(name.to_owned(), mode);
        let blend_ratio = match self.timeline_blend_ratios.get(name) {
            Some(v) => *v,
            None => Single::one(),
        };
        self.active_timeline_states.insert(
            name.to_owned(),
            ActiveTimelineState { mode, elapsed_ticks: time, blend_ratio, blend_target: None },
        );
    }

    /// Sets a timeline to a time, held between its start and its end, and runs it
    /// from there in the mode that it has.
    pub fn set_timeline_time(&mut self, name: &str, ticks: Single) -> (r: Result<(), String>)
        requires
            old(self).wf(),
        ensures
            final(self).wf(),
            final(self).same_model(old(self)),
            if old(self)@.timelines.dom().contains(name@) {
                r is Ok && final(self)@ == old(self)@.sought(
                    name@,
                    ticks,
                    old(self).pipeline(),
                )
            } else {
                final(self)@ == old(self)@ && r is Err && r->Err_0@ == "timeline not found: "@
                    + name@
            },
    {
        let duration = match self.timelines.get(name) {
            Some(t) => t.duration_ticks.max(Single::zero()),
            None => {
                return Err(concat_text("timeline not found: ", name));
            },
        };
        let time = if Single::zero().lt(duration) {
            ticks.clamp(Single::zero(), duration)
        } else {
            ticks.max(Single::zero())
        };
        let mode = match self.active_timeline_states.get(name) {
            Some(s) => s.mode,
            None => match self.active_timelines.get(name) {
                Some(m) => *m,
                None => TimelinePlayMode::once(),
            },
        };
        self.run_timeline(name, mode, time);
        self.settle();
        Ok(())
    }

    /// Sets all variables to their defaults and lets the controls follow.
    pub fn reset_all_variables_to_default(&mut self)
        requires
            old(self).wf(),
        ensures
            final(self).wf(),
            final(self).same_model(old(self)),
            final(self)@ == old(self)@.all_reset(old(self).pipeline()),
    {
        change_all(&mut self.variables, VarChange::Reset);
        self.modified = true;
        self.evaluate_runtime_pipeline();
    }

    /// Takes every variable to the end of its way.
    pub fn skip(&mut self)
        requires
            old(self).wf(),
        ensures
            final(self).wf(),
            final(self).same_model(old(self)),
            final(self)@ == old(self)@.skipped(),
    {
        change_all(&mut self.variables, VarChange::Settle);
    }

    fn set_variable_timed_internal(
        &mut self,
        name: &str,
        value: Single,
        time: Single,
        easing: Single,
    ) -> (r: Option<Single>)
        requires
            old(self).wf(),
        ensures
            final(self).wf(),
            final(self).same_model(old(self)),
            if old(self)@.takes(name@, value) {
                r == Some(old(self)@.variable(name@).info.clamp(value)) && final(self)@ == old(
                    self,
                )@.written(name@, value, time, easing)
            } else {
                r is None && final(self)@ == old(self)@
            },
    {
        if name.is_empty() || !value.is_finite() {
            return None;
        }
        let ghost start = self.variables;
        let target_value = match self.variables.find(name) {
            Some(i) => {
                let state = self.variables.value_mut(i);
                let v = send(state, value, time, easing);
                let ghost now = *state;
                proof {
                    self.variables.lemma_changed(start, i as int, now);
                    assert(states(self.variables) =~= states(start).insert(name@, now@));
                }
                v
            },
            None => {
                let mut state = EmoteVariableState::fresh(name, Single::zero());
                let v = send(&mut state, value, time, easing);
                self.variables.insert(name.to_owned(), state);
                assert(states(self.variables) =~= states(start).insert(name@, state@));
                v
            },
        };
        let ghost was = views(self.pending_writes@);
        let write = VariableWrite::timed(name, target_value, time.max(Single::zero()), easing);
        self.pending_writes.push(write);
        self.modified = true;
        assert(views(self.pending_writes@) =~= was.push(write@));
        Some(target_value)
    }

    /// Sends a variable to a value within a time. No name and no finite value change
    /// nothing; a variable that is not there is made.
    pub fn set_variable_timed(&mut self, name: &str, value: Single, time: Single, easing: Single)
        requires
            old(self).wf(),
        ensures
            final(self).wf(),
            final(self).same_model(old(self)),
            final(self)@ == old(self)@.variable_sent(name@, value, time, easing),
    {
        if let Some(v) = self.set_variable_timed_internal(name, value, time, easing) {
            self.record_api_call(
                "SetVariable",
                four_texts(
                    name.to_owned(),
                    show_single(v),
                    show_single(time.max(Single::zero())),
                    show_single(easing),
                ),
            );
        }
    }

    /// Sets a variable at once.
    pub fn set_variable(&mut self, name: &str, value: Single)
        requires
            old(self).wf(),
        ensures
            final(self).wf(),
            final(self).same_model(old(self)),
            final(self)@ == old(self)@.variable_sent(
                name@,
                value,
                Single::zero(),
                Single::zero(),
            ),
    {
        self.set_variable_timed(name, value, Single::zero(), Single::zero());
    }

    /// Does what a write asks for.
    pub fn apply_write(&mut self, write: &VariableWrite)
        requires
            old(self).wf(),
        ensures
            final(self).wf(),
            final(self).same_model(old(self)),
            final(self)@ == old(self)@.variable_sent(
                write@.name,
                write.value,
                write.time_ticks,
                write.easing,
            ),
    {
        self.set_variable_timed(write.name.as_str(), write.value, write.time_ticks, write.easing);
    }

    /// Sends a variable of a module to a value within a time.
    pub fn set_variable_diff(
        &mut self,
        module: &str,
        name: &str,
        value: Single,
        time: Single,
        easing: Single,
    )
        requires
            old(self).wf(),
        ensures
            final(self).wf(),
            final(self).same_model(old(self)),
            final(self)@ == old(self)@.module_variable_sent(module@, name@, value, time, easing),
    {
        if module.is_empty() || name.is_empty() {
            return;
        }
        let full = join_two(module, "/", name);
        assert(full@.len() > 0);
        if self.set_variable_timed_internal(full.as_str(), value, time, easing).is_some() {
            self.record_api_call(
                "SetVariableDiff",
                five_texts(
                    module.to_owned(),
                    name.to_owned(),
                    show_single(value),
                    show_single(time.max(Single::zero())),
                    show_single(easing),
                ),
            );
        }
    }

    /// Plays a timeline from its start.
    #[verifier::rlimit(40)]
    pub fn play_timeline(&mut self, name: &str, mode: TimelinePlayMode)
        requires
            old(self).wf(),
        ensures
            final(self).wf(),
            final(self).same_model(old(self)),
            final(self)@ == old(self)@.played(name@, mode, old(self).pipeline()),
    {
        if name.is_empty() {
            return;
        }
        if !mode.is_difference() && !is_auto_control_timeline_name(name) {
            self.clear_for(name);
        }
        self.run_timeline(name, mode, Single::zero());
        self.settle();
        let args = two_texts(name.to_owned(), decimal_u64(mode.flags as u64));
        self.note_api_call("PlayTimeline", args);
    }

    /// Lets the other main timelines give way.
    fn clear_for(&mut self, name: &str)
        requires
            old(self).wf(),
        ensures
            final(self).wf(),
            final(self).same_model(old(self)),
            final(self)@ == old(self)@.cleared_for(name@),
    {
        proof {
            reveal(Player::cleared_for);
        }
        let ghost start = self@;
        let mut gone: Vec<String> = Vec::new();
        let entries = &self.active_timelines.entries;
        let mut i: usize = 0;
        while i < entries.len()
            invariant
                i <= entries@.len(),
                *entries == self.active_timelines.entries,
                self.wf(),
                start == self@,
                forall|k: Seq<char>| #[trigger]
                    texts(gone@).contains(k) <==> exists|j: int|
                        0 <= j < i && (#[trigger] entries@[j]).0@ == k && start.gives_way(k, name@),
            decreases entries@.len() - i,
        {
            let ghost key = entries@[i as int].0@;
            let ghost was = texts(gone@);
            proof {
                self.active_timelines.lemma_entry(i as int);
            }
            let away = !is_auto_control_timeline_name(entries[i].0.as_str())
                && !entries[i].1.is_difference() && !same_text(entries[i].0.as_str(), name);
            assert(away == start.gives_way(key, name@));
            if away {
                gone.push(entries[i].0.clone());
                assert(texts(gone@) =~= was.push(key));
            }
            proof {
                assert forall|k: Seq<char>| #[trigger]
                    texts(gone@).contains(k) <==> exists|j: int|
                        0 <= j < i + 1 && (#[trigger] entries@[j]).0@ == k && start.gives_way(
                            k,
                            name@,
                        ) by {
                    if texts(gone@).contains(k) {
                        if was.contains(k) {
                            let j = choose|j: int|
                                0 <= j < i && (#[trigger] entries@[j]).0@ == k && start.gives_way(
                                    k,
                                    name@,
                                );
                            assert(0 <= j < i + 1 && entries@[j].0@ == k);
                        } else {
                            let p = choose|p: int|
                                0 <= p < texts(gone@).len() && texts(gone@)[p] == k;
                            if p < was.len() {
                                assert(was[p] == k);
                            }
                            assert(k == key);
                            assert(entries@[i as int].0@ == k);
                        }
                    }
                    if exists|j: int|
                        0 <= j < i + 1 && (#[trigger] entries@[j]).0@ == k && start.gives_way(
                            k,
                            name@,
                        ) {
                        let j = choose|j: int|
                            0 <= j < i + 1 && (#[trigger] entries@[j]).0@ == k && start.gives_way(
                                k,
                                name@,
                            );
                        if j < i {
                            assert(was.contains(k));
                            let p = choose|p: int| 0 <= p < was.len() && was[p] == k;
                            assert(texts(gone@)[p] == k);
                        } else {
                            assert(texts(gone@)[was.len() as int] == key);
                        }
                    }
                }
            }
            i = i + 1;
        }
        proof {
            let set = Set::new(|k: Seq<char>| start.gives_way(k, name@));
            assert forall|k: Seq<char>| #[trigger]
                texts(gone@).to_set().contains(k) <==> set.contains(k) by {
                if texts(gone@).contains(k) {
                    let j = choose|j: int|
                        0 <= j < entries@.len() && (#[trigger] entries@[j]).0@ == k
                            && start.gives_way(k, name@);
                }
                if start.gives_way(k, name@) {
                    self.active_timelines.lemma_position(k);
                    let p = self.active_timelines.position(k);
                    assert(entries@[p].0@ == k);
                    assert(texts(gone@).contains(k));
                }
            }
            assert(texts(gone@).to_set() =~= set);
        }
        remove_all(&mut self.active_timelines, &gone);
        remove_all(&mut self.active_timeline_states, &gone);
        remove_all(&mut self.timeline_blend_ratios, &gone);
    }

    /// Stops a timeline, all of them where no name is given.
    pub fn stop_timeline(&mut self, name: &str)
        requires
            old(self).wf(),
        ensures
            final(self).wf(),
            final(self).same_model(old(self)),
            final(self)@ == old(self)@.stopped(name@, old(self).pipeline()),
    {
        if name.is_empty() {
            self.active_timelines = TextMap::new();
            self.active_timeline_states = TextMap::new();
            self.timeline_blend_ratios = TextMap::new();
        } else {
            self.active_timelines.remove(name);
            self.active_timeline_states.remove(name);
            self.timeline_blend_ratios.remove(name);
        }
        self.settle();
        self.note_api_call("StopTimeline", one_text(name.to_owned()));
    }

    /// The running state of a timeline, a new one where there is none.
    fn running_or_new(&self, name: &str) -> (r: ActiveTimelineState)
        requires
            self.wf(),
        ensures
            r == self@.running_or_new(name@),
    {
        match self.active_timeline_states.get(name) {
            Some(s) => *s,
            None => {
                let mode = match self.active_timelines.get(name) {
                    Some(m) => *m,
                    None => TimelinePlayMode::parallel(),
                };
                let blend_ratio = match self.timeline_blend_ratios.get(name) {
                    Some(v) => *v,
                    None => Single::one(),
                };
                ActiveTimelineState {
                    mode,
                    elapsed_ticks: Single::zero(),
                    blend_ratio,
                    blend_target: None,
                }
            },
        }
    }

    /// Sends the share of a timeline to a value within a time.
    pub fn set_timeline_blend_ratio(
        &mut self,
        name: &str,
        value: Single,
        time: Single,
        easing: Single,
        stop_when_done: bool,
    )
        requires
            old(self).wf(),
        ensures
            final(self).wf(),
            final(self).same_model(old(self)),
            final(self)@ == old(self)@.faded(name@, value, time, easing, stop_when_done),
    {
        if name.is_empty() || !value.is_finite() {
            return;
        }
        let target_value = unit_clamp(value);
        let mut state = self.running_or_new(name);
        send_share(&mut state, target_value, time, easing, stop_when_done);
        let ghost start = self@;
        self.active_timeline_states.insert(name.to_owned(), state);
        self.timeline_blend_ratios.insert(name.to_owned(), state.blend_ratio);
        assert(self@ == (Player {
            running: start.running.insert(name@, state),
            ratios: start.ratios.insert(name@, state.blend_ratio),
            ..start
        }));
        self.note_api_call(
            "SetTimelineBlendRatio",
            five_texts(
                name.to_owned(),
                show_single(target_value),
                show_single(time.max(Single::zero())),
                show_single(easing),
                show_truth(stop_when_done),
            ),
        );
    }

    /// Fades a timeline in; one that is not playing is played beside the others.
    pub fn fade_in_timeline(&mut self, name: &str, time: Single, easing: Single)
        requires
            old(self).wf(),
        ensures
            final(self).wf(),
            final(self).same_model(old(self)),
            final(self)@ == (if old(self)@.active.dom().contains(name@) {
                old(self)@
            } else {
                old(self)@.played(
                    name@,
                    TimelinePlayMode::parallel(),
                    old(self).pipeline(),
                )
            }).faded(name@, Single::one(), time, easing, false),
    {
        if !self.active_timelines.contains_key(name) {
            self.play_timeline(name, TimelinePlayMode::parallel());
        }
        self.set_timeline_blend_ratio(name, Single::one(), time, easing, false);
    }

    /// Fades a timeline out.
    pub fn fade_out_timeline(&mut self, name: &str, time: Single, easing: Single)
        requires
            old(self).wf(),
        ensures
            final(self).wf(),
            final(self).same_model(old(self)),
            final(self)@ == old(self)@.faded(name@, Single::zero(), time, easing, true),
    {
        self.set_timeline_blend_ratio(name, Single::zero(), time, easing, true);
    }

    pub fn coord(&self) -> (r: (Single, Single))
        ensures
            r == (self@.coord_x, self@.coord_y),
    {
        (self.coord_x, self.coord_y)
    }

    /// Moves the model; both numbers must be finite.
    pub fn set_coord(&mut self, x: Single, y: Single)
        requires
            old(self).wf(),
        ensures
            final(self).wf(),
            final(self).same_model(old(self)),
            final(self)@ == old(self)@.moved_to(x, y),
    {
        if x.is_finite() && y.is_finite() {
            self.coord_x = x;
            self.coord_y = y;
            self.note_api_call(
                "SetCoord",
                four_texts(show_single(x), show_single(y), "0".to_owned(), "0".to_owned()),
            );
        }
    }

    pub fn scale(&self) -> (r: Single)
        ensures
            r == self@.scale,
    {
        self.scale
    }

    /// Scales the model; the factor must be finite and above zero.
    pub fn set_scale(&mut self, scale: Single)
        requires
            old(self).wf(),
        ensures
            final(self).wf(),
            final(self).same_model(old(self)),
            final(self)@ == old(self)@.scaled_to(scale),
    {
        if scale.is_finite() && Single::zero().lt(scale) {
            self.scale = scale;
            self.note_api_call(
                "SetScale",
                three_texts(show_single(scale), "0".to_owned(), "0".to_owned()),
            );
        }
    }

    pub fn rot(&self) -> (r: Single)
        ensures
            r == self@.rot,
    {
        self.rot
    }

    /// Turns the model; the angle must be finite.
    pub fn set_rot(&mut self, rot: Single)
        requires
            old(self).wf(),
        ensures
            final(self).wf(),
            final(self).same_model(old(self)),
            final(self)@ == old(self)@.turned_to(rot),
    {
        if rot.is_finite() {
            self.rot = rot;
            self.note_api_call(
                "SetRot",
                three_texts(show_single(rot), "0".to_owned(), "0".to_owned()),
            );
        }
    }

    /// Sets the force on the bodies with a label; time and easing are logged only.
    pub fn set_outer_force(
        &mut self,
        label: &str,
        x: Single,
        y: Single,
        time: Single,
        easing: Single,
    )
        requires
            old(self).wf(),
        ensures
            final(self).wf(),
            final(self).same_model(old(self)),
            final(self)@ == old(self)@.pushed(label@, x, y, time, easing),
    {
        if label.is_empty() || !x.is_finite() || !y.is_finite() {
            return;
        }
        self.outer_forces.insert(label.to_owned(), OuterForce { x, y });
        self.note_api_call(
            "SetOuterForce",
            five_texts(
                label.to_owned(),
                show_single(x),
                show_single(y),
                show_single(time.max(Single::zero())),
                show_single(easing),
            ),
        );
    }

    /// The force on the bodies with a label, none where none was set.
    pub fn outer_force(&self, label: &str) -> (r: OuterForce)
        requires
            self.wf(),
        ensures
            r == (if self@.forces.dom().contains(label@) {
                self@.forces[label@]
            } else {
                OuterForce { x: Single::zero(), y: Single::zero() }
            }),
    {
        match self.outer_forces.get(label) {
            Some(f) => *f,
            None => OuterForce { x: Single::zero(), y: Single::zero() },
        }
    }

    /// Turns gravity; time and easing are logged only.
    pub fn set_outer_rot(&mut self, rot: Single, time: Single, easing: Single)
        requires
            old(self).wf(),
        ensures
            final(self).wf(),
            final(self).same_model(old(self)),
            final(self)@ == old(self)@.gravity_turned(rot, time, easing),
    {
        if rot.is_finite() {
            self.outer_rot = rot;
            self.note_api_call(
                "SetOuterRot",
                three_texts(
                    show_single(rot),
                    show_single(time.max(Single::zero())),
                    show_single(easing),
                ),
            );
        }
    }

    pub fn outer_rot(&self) -> (r: Single)
        ensures
            r == self@.outer_rot,
    {
        self.outer_rot
    }

    pub fn start_wind(
        &mut self,
        start: Single,
        goal: Single,
        speed: Single,
        pow_min: Single,
        pow_max: Single,
    )
        requires
            old(self).wf(),
        ensures
            final(self).wf(),
            final(self).same_model(old(self)),
            final(self)@ == (Player {
                wind: Some(
                    WindState {
                        start,
                        goal,
                        speed,
                        pow_min,
                        pow_max,
                        elapsed_ticks: Single::zero(),
                    },
                ),
                ..old(self)@
            }).noted(
                "StartWind"@,
                seq![
                    number_text(start),
                    number_text(goal),
                    number_text(speed),
                    number_text(pow_min),
                    number_text(pow_max),
                ],
            ),
    {
        self.wind = Some(
            WindState {
                start,
                goal,
                speed,
                pow_min,
                pow_max,
                elapsed_ticks: Single::zero(),
            },
        );
        self.note_api_call(
            "StartWind",
            five_texts(
                show_single(start),
                show_single(goal),
                show_single(speed),
                show_single(pow_min),
                show_single(pow_max),
            ),
        );
    }

    pub fn stop_wind(&mut self)
        requires
            old(self).wf(),
        ensures
            final(self).wf(),
            final(self).same_model(old(self)),
            final(self)@ == (Player { wind: None, ..old(self)@ }).noted(
                "StopWind"@,
                Seq::empty(),
            ),
    {
        self.wind = None;
        let args: Vec<String> = Vec::new();
        assert(texts(args@) =~= Seq::<Seq<char>>::empty());
        self.note_api_call("StopWind", args);
    }

    pub fn set_transform_order_mask(&mut self, mask: u32)
        requires
            old(self).wf(),
        ensures
            final(self).wf(),
            final(self).same_model(old(self)),
            final(self)@ == (Player { transform_order_mask: mask, ..old(self)@ }),
    {
        self.transform_order_mask = mask;
    }

    pub fn transform_order_mask(&self) -> (r: u32)
        ensures
            r == self@.transform_order_mask,
    {
        self.transform_order_mask
    }

    /// Scales what hair does; the factor must be finite and not below zero.
    pub fn set_hair_scale(&mut self, scale: Single)
        requires
            old(self).wf(),
        ensures
            final(self).wf(),
            final(self).same_model(old(self)),
            final(self)@ == (if scale.is_finite() && Single::zero().le(scale) {
                Player { hair_scale: scale, ..old(self)@ }
            } else {
                old(self)@
            }),
    {
        if scale.is_finite() && Single::zero().le(scale) {
            self.hair_scale = scale;
        }
    }

    pub fn hair_scale(&self) -> (r: Single)
        ensures
            r == self@.hair_scale,
    {
        self.hair_scale
    }

    /// Scales what parts do; the factor must be finite and not below zero.
    pub fn set_parts_scale(&mut self, scale: Single)
        requires
            old(self).wf(),
        ensures
            final(self).wf(),
            final(self).same_model(old(self)),
            final(self)@ == (if scale.is_finite() && Single::zero().le(scale) {
                Player { parts_scale: scale, ..old(self)@ }
            } else {
                old(self)@
            }),
    {
        if scale.is_finite() && Single::zero().le(scale) {
            self.parts_scale = scale;
        }
    }

    pub fn parts_scale(&self) -> (r: Single)
        ensures
            r == self@.parts_scale,
    {
        self.parts_scale
    }

    /// Scales what the bust does; the factor must be finite and not below zero.
    pub fn set_bust_scale(&mut self, scale: Single)
        requires
            old(self).wf(),
        ensures
            final(self).wf(),
            final(self).same_model(old(self)),
            final(self)@ == (if scale.is_finite() && Single::zero().le(scale) {
                Player { bust_scale: scale, ..old(self)@ }
            } else {
                old(self)@
            }),
    {
        if scale.is_finite() && Single::zero().le(scale) {
            self.bust_scale = scale;
        }
    }

    pub fn bust_scale(&self) -> (r: Single)
        ensures
            r == self@.bust_scale,
    {
        self.bust_scale
    }

    pub fn is_modified(&self) -> (r: bool)
        ensures
            r == self@.modified,
    {
        self.modified
    }

    pub fn clear_modified(&mut self)
        requires
            old(self).wf(),
        ensures
            final(self).wf(),
            final(self).same_model(old(self)),
            final(self)@ == (Player { modified: false, ..old(self)@ }),
    {
        self.modified = false;
    }

    /// Sets the variables anew from timelines and controls, without moving on.
    pub fn pass(&mut self)
        requires
            old(self).wf(),
        ensures
            final(self).wf(),
            final(self).same_model(old(self)),
            final(self)@ == old(self)@.reapplied().controlled(old(self).pipeline()).noted(
                "Pass"@,
                Seq::empty(),
            ),
    {
        self.settle();
        let args: Vec<String> = Vec::new();
        assert(texts(args@) =~= Seq::<Seq<char>>::empty());
        self.note_api_call("Pass", args);
    }

    /// Starts a new log.
    pub fn start_record_api_log(&mut self)
        requires
            old(self).wf(),
        ensures
            final(self).wf(),
            final(self).same_model(old(self)),
            final(self)@ == (Player { log: Seq::empty(), recording: true, ..old(self)@ }),
    {
        self.api_log = Vec::new();
        self.recording_api_log = true;
        assert(views(self.api_log@) =~= Seq::<LogEntry>::empty());
    }

    pub fn stop_record_api_log(&mut self)
        requires
            old(self).wf(),
        ensures
            final(self).wf(),
            final(self).same_model(old(self)),
            final(self)@ == (Player { recording: false, ..old(self)@ }),
    {
        self.recording_api_log = false;
    }

    pub fn is_recording_api_log(&self) -> (r: bool)
        ensures
            r == self@.recording,
    {
        self.recording_api_log
    }

    pub fn start_replay_api_log(&mut self)
        requires
            old(self).wf(),
        ensures
            final(self).wf(),
            final(self).same_model(old(self)),
            final(self)@ == (Player { replaying: true, ..old(self)@ }),
    {
        self.replaying_api_log = true;
    }

    pub fn stop_replay_api_log(&mut self)
        requires
            old(self).wf(),
        ensures
            final(self).wf(),
            final(self).same_model(old(self)),
            final(self)@ == (Player { replaying: false, ..old(self)@ }),
    {
        self.replaying_api_log = false;
    }

    pub fn is_replaying_api_log(&self) -> (r: bool)
        ensures
            r == self@.replaying,
    {
        self.replaying_api_log
    }

    pub fn clear_api_log(&mut self)
        requires
            old(self).wf(),
        ensures
            final(self).wf(),
            final(self).same_model(old(self)),
            final(self)@ == (Player { log: Seq::empty(), ..old(self)@ }),
    {
        self.api_log = Vec::new();
        assert(views(self.api_log@) =~= Seq::<LogEntry>::empty());
    }

    /// The log as text, a line for each call.
    pub fn api_log(&self) -> (r: String)
        ensures
            r@ == crate::text::joined(crate::api::entry_lines(self@.log), seq!['\n']),
    {
        write_log(&self.api_log)
    }

    /// Takes a log over from text.
    pub fn set_api_log(&mut self, log: &str)
        requires
            old(self).wf(),
        ensures
            final(self).wf(),
            final(self).same_model(old(self)),
            final(self)@ == (Player { log: entries_of_lines(lines(log@)), ..old(self)@ }),
    {
        self.api_log = read_log(log);
    }
}

} // verus!
