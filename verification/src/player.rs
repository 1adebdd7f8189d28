//! The player of a model: its variables, its timelines and its settings.

use crate::api::{EmoteApiLogEntry, LogEntry, TimelinePlayMode, VariableWrite, Write};
use crate::arrange::views;
use crate::assembly::EmoteStaticScene;
use crate::controls::EmoteRuntimePipeline;
use crate::drive::states;
use crate::order::{ascending, keys, lemma_ordered_is, TextMap};
use crate::physics::{BustPhysicsState, HairPhysicsState};
use crate::playback::{
    advance_timeline, advance_timeline_blend, after_all_plays, apply_plays, lists_plays, play_names,
    timelines_view, tracked_reset, ActiveTimelineState, Play, PlayEntry,
};
use crate::single::Single;
use crate::text::{starts_with, texts};
use crate::timelines::{EmoteTimeline, Timeline};
use crate::variables::{EmoteVariableState, VarState};
use vstd::prelude::*;

verus! {

/// A trait of a character, by name.
#[derive(Clone, Debug)]
pub struct EmoteCharaProfileInfo {
    pub label: String,
    pub value: Single,
}

/// A wind that blows over a model.
#[derive(Clone, Copy, Debug, PartialEq, Eq, Structural)]
pub struct WindState {
    pub start: Single,
    pub goal: Single,
    pub speed: Single,
    pub pow_min: Single,
    pub pow_max: Single,
    pub elapsed_ticks: Single,
}

/// A force from outside.
#[derive(Clone, Copy, Debug, PartialEq, Eq, Structural)]
pub struct OuterForce {
    pub x: Single,
    pub y: Single,
}

/// A player of a model.
#[derive(Clone, Debug)]
pub struct ElunaPlayer {
    pub(crate) shown: bool,
    pub(crate) smoothing: bool,
    pub(crate) mesh_division_ratio: Single,
    pub(crate) queuing: bool,
    pub(crate) color_rgba: u32,
    pub(crate) grayscale: Single,
    pub(crate) as_original_scale: bool,
    pub(crate) coord_x: Single,
    pub(crate) coord_y: Single,
    pub(crate) scale: Single,
    pub(crate) rot: Single,
    pub(crate) elapsed_ticks: Single,
    pub(crate) paused: bool,
    pub(crate) physics_enabled: bool,
    pub(crate) scene: EmoteStaticScene,
    pub(crate) variables: TextMap<EmoteVariableState>,
    pub(crate) timelines: TextMap<EmoteTimeline>,
    pub(crate) pending_writes: Vec<VariableWrite>,
    pub(crate) active_timelines: TextMap<TimelinePlayMode>,
    pub(crate) active_timeline_states: TextMap<ActiveTimelineState>,
    pub(crate) timeline_blend_ratios: TextMap<Single>,
    pub(crate) runtime_pipeline: EmoteRuntimePipeline,
    pub(crate) bust_states: Vec<BustPhysicsState>,
    pub(crate) hair_states: Vec<HairPhysicsState>,
    pub(crate) outer_forces: TextMap<OuterForce>,
    pub(crate) outer_rot: Single,
    pub(crate) transform_order_mask: u32,
    pub(crate) hair_scale: Single,
    pub(crate) parts_scale: Single,
    pub(crate) bust_scale: Single,
    pub(crate) wind: Option<WindState>,
    pub(crate) modified: bool,
    pub(crate) recording_api_log: bool,
    pub(crate) replaying_api_log: bool,
    pub(crate) api_log: Vec<EmoteApiLogEntry>,
}

/// An `ElunaPlayer` by its characters, but for its scene and its controls.
#[verifier::ext_equal]
pub struct Player {
    pub shown: bool,
    pub smoothing: bool,
    pub mesh_division_ratio: Single,
    pub queuing: bool,
    pub color_rgba: u32,
    pub grayscale: Single,
    pub as_original_scale: bool,
    pub coord_x: Single,
    pub coord_y: Single,
    pub scale: Single,
    pub rot: Single,
    pub elapsed_ticks: Single,
    pub paused: bool,
    pub physics_enabled: bool,
    pub vars: Map<Seq<char>, VarState>,
    pub timelines: Map<Seq<char>, Timeline>,
    pub pending: Seq<Write>,
    pub active: Map<Seq<char>, TimelinePlayMode>,
    pub running: Map<Seq<char>, ActiveTimelineState>,
    pub ratios: Map<Seq<char>, Single>,
    pub bust: Seq<BustPhysicsState>,
    pub hair: Seq<HairPhysicsState>,
    pub forces: Map<Seq<char>, OuterForce>,
    pub outer_rot: Single,
    pub transform_order_mask: u32,
    pub hair_scale: Single,
    pub parts_scale: Single,
    pub bust_scale: Single,
    pub wind: Option<WindState>,
    pub modified: bool,
    pub recording: bool,
    pub replaying: bool,
    pub log: Seq<LogEntry>,
}

impl View for ElunaPlayer {
    type V = Player;

    open(crate) spec fn view(&self) -> Player {
        Player {
            shown: self.shown,
            smoothing: self.smoothing,
            mesh_division_ratio: self.mesh_division_ratio,
            queuing: self.queuing,
            color_rgba: self.color_rgba,
            grayscale: self.grayscale,
            as_original_scale: self.as_original_scale,
            coord_x: self.coord_x,
            coord_y: self.coord_y,
            scale: self.scale,
            rot: self.rot,
            elapsed_ticks: self.elapsed_ticks,
            paused: self.paused,
            physics_enabled: self.physics_enabled,
            vars: states(self.variables),
            timelines: timelines_view(self.timelines),
            pending: views(self.pending_writes@),
            active: self.active_timelines@,
            running: self.active_timeline_states@,
            ratios: self.timeline_blend_ratios@,
            bust: self.bust_states@,
            hair: self.hair_states@,
            forces: self.outer_forces@,
            outer_rot: self.outer_rot,
            transform_order_mask: self.transform_order_mask,
            hair_scale: self.hair_scale,
            parts_scale: self.parts_scale,
            bust_scale: self.bust_scale,
            wind: self.wind,
            modified: self.modified,
            recording: self.recording_api_log,
            replaying: self.replaying_api_log,
            log: views(self.api_log@),
        }
    }
}

/// Whether a timeline drives controls by itself.
pub open spec fn drives_controls(name: Seq<char>) -> bool {
    "@control/"@.is_prefix_of(name)
}

pub fn is_auto_control_timeline_name(name: &str) -> (r: bool)
    ensures
        r == drives_controls(name@),
{
    starts_with(name, "@control/")
}

impl Player {
    /// With one more call in the log, while calls are recorded.
    pub open spec fn logged(self, command: Seq<char>, args: Seq<Seq<char>>) -> Player {
        if self.recording && !self.replaying {
            Player { log: self.log.push(LogEntry { command, args }), ..self }
        } else {
            self
        }
    }

    /// Modified, with the call in the log.
    pub open spec fn noted(self, command: Seq<char>, args: Seq<Seq<char>>) -> Player {
        (Player { modified: true, ..self }).logged(command, args)
    }

    /// What of the running timelines is applied at their current times.
    pub open spec fn current_plays(self) -> Map<Seq<char>, Play> {
        self.running.map_values(
            |s: ActiveTimelineState|
                Play { time: s.elapsed_ticks, mode: s.mode, ratio: s.blend_ratio },
        )
    }

    /// The variables set anew by the running timelines.
    pub open spec fn reapplied(self) -> Player {
        Player {
            vars: after_all_plays(
                tracked_reset(self.vars, self.timelines),
                self.timelines,
                self.current_plays(),
            ),
            ..self
        }
    }

    /// The variables set by the controls.
    pub open spec fn controlled(self, pipeline: EmoteRuntimePipeline) -> Player {
        Player { vars: pipeline.applied(self.vars, self.elapsed_ticks), ..self }
    }

    /// The state of a running timeline moved on, and the share that it has then.
    pub open spec fn timeline_moved(self, name: Seq<char>, delta: Single) -> (
        ActiveTimelineState,
        Single,
    ) {
        self.running[name].advanced(delta, self.timelines[name].duration_ticks).blended(delta)
    }

    /// Whether a running timeline is known.
    pub open spec fn runs(self, name: Seq<char>) -> bool {
        self.running.dom().contains(name) && self.timelines.dom().contains(name)
    }

    /// What of the running timelines is applied when they are moved on.
    pub open spec fn moved_plays(self, delta: Single) -> Map<Seq<char>, Play> {
        Map::new(
            |k: Seq<char>| self.runs(k),
            |k: Seq<char>|
                Play {
                    time: self.running[k].advanced(
                        delta,
                        self.timelines[k].duration_ticks,
                    ).elapsed_ticks,
                    mode: self.running[k].mode,
                    ratio: self.timeline_moved(k, delta).1,
                },
        )
    }

    /// The running timelines moved on. One that is not known any more stops.
    pub open spec fn timelines_moved(self, delta: Single) -> Player {
        Player {
            running: Map::new(
                |k: Seq<char>| self.runs(k),
                |k: Seq<char>| self.timeline_moved(k, delta).0,
            ),
            active: Map::new(
                |k: Seq<char>|
                    self.active.dom().contains(k) && (self.running.dom().contains(k)
                        ==> self.timelines.dom().contains(k)),
                |k: Seq<char>| self.active[k],
            ),
            ratios: Map::new(
                |k: Seq<char>| self.ratios.dom().contains(k) || self.runs(k),
                |k: Seq<char>|
                    if self.runs(k) {
                        self.timeline_moved(k, delta).1
                    } else {
                        self.ratios[k]
                    },
            ),
            vars: after_all_plays(
                tracked_reset(self.vars, self.timelines),
                self.timelines,
                self.moved_plays(delta),
            ),
            ..self
        }
    }
}

impl ElunaPlayer {
    /// All maps are in order, and so are the bounds of the controls.
    pub open(crate) spec fn wf(&self) -> bool {
        &&& self.variables.wf()
        &&& self.timelines.wf()
        &&& self.active_timelines.wf()
        &&& self.active_timeline_states.wf()
        &&& self.timeline_blend_ratios.wf()
        &&& self.outer_forces.wf()
        &&& self.runtime_pipeline.clamps_in_order()
        &&& self.runtime_pipeline.physics_wf()
    }

    /// The scene that is shown.
    pub open(crate) spec fn shown_scene(&self) -> EmoteStaticScene {
        self.scene
    }

    /// The controls of the model.
    pub open(crate) spec fn pipeline(&self) -> EmoteRuntimePipeline {
        self.runtime_pipeline
    }

    /// Whether two players have one scene and the same controls.
    pub open spec fn same_model(&self, other: &ElunaPlayer) -> bool {
        &&& self.shown_scene() == other.shown_scene()
        &&& self.pipeline() == other.pipeline()
    }

    pub(crate) fn record_api_call(&mut self, command: &str, args: Vec<String>)
        requires
            old(self).wf(),
        ensures
            final(self).wf(),
            final(self).same_model(old(self)),
            final(self)@ == old(self)@.logged(command@, texts(args@)),
    {
        if self.recording_api_log && !self.replaying_api_log {
            let entry = EmoteApiLogEntry { command: command.to_owned(), args };
            self.api_log.push(entry);
            assert(self@.log =~= old(self)@.log.push(entry@));
        }
    }

    /// Marks the player as modified and logs a call.
    pub(crate) fn note_api_call(&mut self, command: &str, args: Vec<String>)
        requires
            old(self).wf(),
        ensures
            final(self).wf(),
            final(self).same_model(old(self)),
            final(self)@ == old(self)@.noted(command@, texts(args@)),
    {
        self.modified = true;
        self.record_api_call(command, args);
    }

    /// Lists what of the running timelines is applied at their current times.
    fn list_current_plays(&self) -> (r: Vec<PlayEntry>)
        requires
            self.wf(),
        ensures
            lists_plays(r@, self@.current_plays()),
    {
        let mut r: Vec<PlayEntry> = Vec::new();
        let entries = &self.active_timeline_states.entries;
        let mut i: usize = 0;
        while i < entries.len()
            invariant
                i <= entries@.len(),
                r@.len() == i,
                forall|j: int|
                    0 <= j < i ==> (#[trigger] r@[j]).name@ == entries@[j].0@ && r@[j].time
                        == entries@[j].1.elapsed_ticks && r@[j].mode == entries@[j].1.mode
                        && r@[j].ratio == entries@[j].1.blend_ratio,
            decreases entries@.len() - i,
        {
            let state = entries[i].1;
            r.push(
                PlayEntry {
                    name: entries[i].0.clone(),
                    time: state.elapsed_ticks,
                    mode: state.mode,
                    ratio: state.blend_ratio,
                },
            );
            i = i + 1;
        }
        proof {
            let map = self.active_timeline_states;
            let plays = self@.current_plays();
            assert(plays.dom() =~= map@.dom());
            map.lemma_ordered();
            assert(play_names(r@) =~= keys(map.entries@));
            assert forall|j: int| 0 <= j < r@.len() implies plays[(#[trigger] r@[j]).name@] == (
            Play { time: r@[j].time, mode: r@[j].mode, ratio: r@[j].ratio }) by {
                map.lemma_entry(j);
            }
        }
        r
    }

    /// Sets the variables anew from the running timelines.
    pub(crate) fn reapply_active_timelines_at_current_time(&mut self)
        requires
            old(self).wf(),
        ensures
            final(self).wf(),
            final(self).same_model(old(self)),
            final(self)@ == old(self)@.reapplied(),
    {
        let row = self.list_current_plays();
        let ghost plays = self@.current_plays();
        apply_plays(&mut self.variables, &self.timelines, &row, Ghost(plays));
        assert(self@ =~= old(self)@.reapplied());
    }

    /// Lets the controls set the variables. The bodies that physics moves are left
    /// as they are.
    pub(crate) fn evaluate_runtime_pipeline(&mut self)
        requires
            old(self).wf(),
        ensures
            final(self).wf(),
            final(self).same_model(old(self)),
            final(self)@ == old(self)@.controlled(old(self).pipeline()),
    {
        let elapsed = self.elapsed_ticks;
        self.runtime_pipeline.apply(&mut self.variables, elapsed);
        assert(self@ =~= old(self)@.controlled(old(self).runtime_pipeline));
    }
}

/// Whether a name is among the first `n` of a row.
spec fn among<V>(entries: Seq<(String, V)>, n: int, name: Seq<char>) -> bool {
    exists|j: int| 0 <= j < n && (#[trigger] entries[j]).0@ == name
}

impl ElunaPlayer {
    /// Moves the running timelines on and applies them.
    #[verifier::rlimit(40)]
    pub(crate) fn progress_active_timelines(&mut self, delta: Single)
        requires
            old(self).wf(),
        ensures
            final(self).wf(),
            final(self).same_model(old(self)),
            final(self)@ == old(self)@.timelines_moved(delta),
    {
        let before = self.active_timeline_states.duplicate();
        let ghost start = self@;
        let mut running: TextMap<ActiveTimelineState> = TextMap::new();
        let mut row: Vec<PlayEntry> = Vec::new();
        let mut i: usize = 0;
        while i < before.entries.len()
            invariant
                i <= before.entries@.len(),
                before.wf(),
                before@ == start.running,
                start == old(self)@,
                self.wf(),
                self.same_model(old(self)),
                self@ == (Player { active: self@.active, ratios: self@.ratios, ..start }),
                running.wf(),
                forall|k: Seq<char>| #[trigger]
                    running@.dom().contains(k) <==> among(before.entries@, i as int, k)
                        && start.timelines.dom().contains(k),
                forall|k: Seq<char>| #[trigger]
                    running@.dom().contains(k) ==> running@[k] == start.timeline_moved(k, delta).0,
                forall|k: Seq<char>| #[trigger]
                    self@.active.dom().contains(k) <==> start.active.dom().contains(k) && (among(
                        before.entries@,
                        i as int,
                        k,
                    ) ==> start.timelines.dom().contains(k)),
                forall|k: Seq<char>| #[trigger]
                    self@.active.dom().contains(k) ==> self@.active[k] == start.active[k],
                forall|k: Seq<char>| #[trigger]
                    self@.ratios.dom().contains(k) <==> start.ratios.dom().contains(k) || (among(
                        before.entries@,
                        i as int,
                        k,
                    ) && start.timelines.dom().contains(k)),
                forall|k: Seq<char>| #[trigger]
                    self@.ratios.dom().contains(k) ==> self@.ratios[k] == (if among(
                        before.entries@,
                        i as int,
                        k,
                    ) && start.timelines.dom().contains(k) {
                        start.timeline_moved(k, delta).1
                    } else {
                        start.ratios[k]
                    }),
                ascending(play_names(row@)),
                forall|j: int|
                    0 <= j < row@.len() ==> among(
                        before.entries@,
                        i as int,
                        (#[trigger] row@[j]).name@,
                    ) && start.timelines.dom().contains(row@[j].name@) && row@[j].time
                        == start.running[row@[j].name@].advanced(
                        delta,
                        start.timelines[row@[j].name@].duration_ticks,
                    ).elapsed_ticks && row@[j].mode == start.running[row@[j].name@].mode
                        && row@[j].ratio == start.timeline_moved(row@[j].name@, delta).1,
                forall|k: Seq<char>|
                    among(before.entries@, i as int, k) && start.timelines.dom().contains(k)
                        ==> #[trigger] play_names(row@).contains(k),
            decreases before.entries@.len() - i,
        {
            let name = before.entries[i].0.clone();
            let mut state = before.entries[i].1;
            let ghost key = name@;
            let ghost active = self@.active;
            let ghost ratios = self@.ratios;
            let ghost known = running@;
            let ghost names = play_names(row@);
            let ghost old_row = row@;
            proof {
                before.lemma_entry(i as int);
                assert(start.running[key] == state);
                assert forall|k: Seq<char>| #[trigger]
                    among(before.entries@, i + 1, k) <==> among(before.entries@, i as int, k) || k
                        == key by {
                    if among(before.entries@, i + 1, k) {
                        let j = choose|j: int| 0 <= j < i + 1 && (#[trigger] before.entries@[j]).0@ == k;
                        if j < i {
                            assert(among(before.entries@, i as int, k));
                        }
                    }
                    if among(before.entries@, i as int, k) {
                        let j = choose|j: int| 0 <= j < i && (#[trigger] before.entries@[j]).0@ == k;
                        assert(before.entries@[j].0@ == k);
                    }
                    if k == key {
                        assert(before.entries@[i as int].0@ == k);
                    }
                }
                assert(!among(before.entries@, i as int, key)) by {
                    if among(before.entries@, i as int, key) {
                        let j = choose|j: int|
                            0 <= j < i && (#[trigger] before.entries@[j]).0@ == key;
                        before.lemma_entry(j);
                    }
                }
            }
            let found = match self.timelines.get(name.as_str()) {
                Some(timeline) => Some(timeline.duration_ticks),
                None => None,
            };
            match found {
                None => {
                    self.active_timelines.remove(name.as_str());
                    assert(self@.active =~= active.remove(key));
                },
                Some(duration) => {
                    assert(start.timelines[key].duration_ticks == duration);
                    advance_timeline(&mut state, delta, duration);
                    let time = state.elapsed_ticks;
                    let ratio = advance_timeline_blend(&mut state, delta);
                    assert((state, ratio) == start.timeline_moved(key, delta));
                    self.timeline_blend_ratios.insert(name.clone(), ratio);
                    running.insert(name.clone(), state);
                    let mode = before.entries[i].1.mode;
                    row.push(PlayEntry { name, time, mode, ratio });
                    proof {
                        assert(play_names(row@) =~= names.push(key));
                        assert forall|p: int, q: int|
                            0 <= p < q < play_names(row@).len() implies crate::order::before(
                            #[trigger] play_names(row@)[p],
                            #[trigger] play_names(row@)[q],
                        ) by {
                            if q == names.len() {
                                let n = old_row[p].name@;
                                let j = choose|j: int|
                                    0 <= j < i && (#[trigger] before.entries@[j]).0@ == n;
                                assert(keys(before.entries@)[j] == n);
                                assert(keys(before.entries@)[i as int] == key);
                            } else {
                                assert(names[p] == play_names(row@)[p]);
                                assert(names[q] == play_names(row@)[q]);
                            }
                        }
                        assert forall|j: int| 0 <= j < row@.len() implies among(
                            before.entries@,
                            i + 1,
                            (#[trigger] row@[j]).name@,
                        ) && start.timelines.dom().contains(row@[j].name@) && row@[j].time
                            == start.running[row@[j].name@].advanced(
                            delta,
                            start.timelines[row@[j].name@].duration_ticks,
                        ).elapsed_ticks && row@[j].mode == start.running[row@[j].name@].mode
                            && row@[j].ratio == start.timeline_moved(row@[j].name@, delta).1 by {
                            if j < old_row.len() {
                                assert(row@[j] == old_row[j]);
                            }
                        }
                        assert forall|k: Seq<char>|
                            among(before.entries@, i + 1, k) && start.timelines.dom().contains(
                                k,
                            ) implies #[trigger] play_names(row@).contains(k) by {
                            if k == key {
                                assert(play_names(row@)[names.len() as int] == key);
                            } else {
                                assert(names.contains(k));
                                let j = choose|j: int| 0 <= j < names.len() && names[j] == k;
                                assert(play_names(row@)[j] == k);
                            }
                        }
                    }
                },
            }
            i = i + 1;
        }
        let ghost plays = start.moved_plays(delta);
        proof {
            let n = before.entries@.len() as int;
            assert forall|k: Seq<char>| #[trigger]
                among(before.entries@, n, k) <==> start.running.dom().contains(k) by {
                if among(before.entries@, n, k) {
                    let j = choose|j: int| 0 <= j < n && (#[trigger] before.entries@[j]).0@ == k;
                    before.lemma_entry(j);
                }
                if start.running.dom().contains(k) {
                    before.lemma_position(k);
                    assert(before.entries@[before.position(k)].0@ == k);
                }
            }
            let names = play_names(row@);
            assert forall|k: Seq<char>| #[trigger]
                names.to_set().contains(k) <==> plays.dom().contains(k) by {
                if names.contains(k) {
                    let j = choose|j: int| 0 <= j < names.len() && names[j] == k;
                    assert(row@[j].name@ == k);
                }
                if plays.dom().contains(k) {
                    assert(among(before.entries@, n, k));
                    assert(names.contains(k));
                }
            }
            assert(names.to_set() =~= plays.dom());
            lemma_ordered_is(names, plays.dom());
            assert forall|j: int| 0 <= j < row@.len() implies plays[(#[trigger] row@[j]).name@] == (
            Play { time: row@[j].time, mode: row@[j].mode, ratio: row@[j].ratio }) by {
                assert(among(before.entries@, n, row@[j].name@));
                assert(start.runs(row@[j].name@));
            }
            assert(running@ =~= start.timelines_moved(delta).running);
            assert(self@.active =~= start.timelines_moved(delta).active);
            assert(self@.ratios =~= start.timelines_moved(delta).ratios);
        }
        self.active_timeline_states = running;
        apply_plays(&mut self.variables, &self.timelines, &row, Ghost(plays));
        assert(self@ =~= start.timelines_moved(delta));
    }
}

} // verus!
