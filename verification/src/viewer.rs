//! The preview of a model: loading it, its keys, and how its frames follow.

use crate::api::{
    milliseconds_per_second, milliseconds_to_emote_ticks, ticks_per_second, TimelinePlayMode,
    VariableWrite, Write,
};
use crate::arguments::{PlayerOptions, Playing};
use crate::arrange::views;
use crate::assembly::Scene;
use crate::catalog::{collect_emote_variables, document_variables, initial_variable_values, lists};
use crate::controls::{collect_emote_runtime_pipeline, EmoteRuntimePipeline};
use crate::model::motion_scene;
use crate::order::{keys, ordered};
use crate::player::{drives_controls, is_auto_control_timeline_name, ElunaPlayer, Player};
use crate::psb::PsbFile;
use crate::schema::{motions_of, schema_of, EmoteModelSchema, Schema, SchemaFault};
use crate::sdk::{
    current_values, first_scene, player_variable_values, EmoteRuntime, EmoteRuntimeError, Loaded,
    RuntimeFault,
};
use crate::show::{show_thousandths, thousandths_text};
use crate::single::Single;
use crate::start::{document_clamps, is_pipeline_of, lemma_fields_in_order, new_player};
use crate::text::{clone_opt, concat_text, ends_with, opt_string, opt_text, same_text};
use crate::timelines::{collect_emote_timelines, document_timelines, Timeline};
use crate::value::PsbValue;
use crate::variables::VarInfo;
use vstd::prelude::*;

verus! {

/// Whether a timeline can be the main one.
pub open spec fn is_main(t: Timeline) -> bool {
    !drives_controls(t.name) && !t.is_difference
}

/// The name of the first main timeline of a row of keys that ends in a suffix.
pub open spec fn first_main(
    timelines: Map<Seq<char>, Timeline>,
    row: Seq<Seq<char>>,
    suffix: Seq<char>,
) -> Option<Seq<char>>
    decreases row.len(),
{
    if row.len() == 0 {
        None
    } else {
        let t = timelines[row[0]];
        if is_main(t) && suffix.is_suffix_of(t.name) {
            Some(t.name)
        } else {
            first_main(timelines, row.drop_first(), suffix)
        }
    }
}

/// The timeline that a motion is shown with: the one of its name, else the first main
/// one whose path ends in it, else the first main one.
pub open spec fn main_timeline_for(timelines: Map<Seq<char>, Timeline>, motion: Seq<char>) -> Option<
    Seq<char>,
> {
    let row = ordered(timelines.dom());
    if timelines.dom().contains(motion) {
        Some(motion)
    } else {
        match first_main(timelines, row, "/"@ + motion) {
            Some(name) => Some(name),
            None => first_main(timelines, row, Seq::empty()),
        }
    }
}

fn seek_main(player: &ElunaPlayer, suffix: &str) -> (r: Option<String>)
    requires
        player.wf(),
    ensures
        opt_string(r) == first_main(
            player@.timelines,
            ordered(player@.timelines.dom()),
            suffix@,
        ),
{
    let entries = &player.timelines.entries;
    let ghost all = keys(entries@);
    let ghost map = player@.timelines;
    let mut i: usize = 0;
    proof {
        player.timelines.lemma_ordered();
        assert(map.dom() =~= player.timelines@.dom());
        assert(all.skip(0) =~= all);
    }
    while i < entries.len()
        invariant
            i <= entries@.len(),
            player.wf(),
            *entries == player.timelines.entries,
            map == player@.timelines,
            all == keys(entries@),
            all == ordered(player@.timelines.dom()),
            first_main(map, all, suffix@) == first_main(map, all.skip(i as int), suffix@),
        decreases entries@.len() - i,
    {
        let ghost rest = all.skip(i as int);
        proof {
            player.timelines.lemma_entry(i as int);
            assert(rest[0] == entries@[i as int].0@);
            assert(map[rest[0]] == entries@[i as int].1@);
            assert(rest.drop_first() =~= all.skip(i + 1));
        }
        let t = &entries[i].1;
        if !is_auto_control_timeline_name(t.name.as_str()) && !t.is_difference && ends_with(
            t.name.as_str(),
            suffix,
        ) {
            return Some(t.name.clone());
        }
        i = i + 1;
    }
    None
}

/// Finds the timeline that a motion is shown with.
pub fn find_main_timeline_for_motion(player: &ElunaPlayer, motion: &str) -> (r: Option<String>)
    requires
        player.wf(),
    ensures
        opt_string(r) == main_timeline_for(player@.timelines, motion@),
{
    if player.timelines.contains_key(motion) {
        return Some(motion.to_owned());
    }
    let suffix = concat_text("/", motion);
    match seek_main(player, suffix.as_str()) {
        Some(name) => Some(name),
        None => {
            proof {
                reveal_strlit("");
                assert(""@ =~= Seq::<char>::empty());
            }
            seek_main(player, "")
        },
    }
}

/// The first of a row of playing timelines that is a main one.
pub open spec fn first_playing(
    active: Map<Seq<char>, TimelinePlayMode>,
    row: Seq<Seq<char>>,
) -> Option<Seq<char>>
    decreases row.len(),
{
    if row.len() == 0 {
        None
    } else if !drives_controls(row[0]) && !active[row[0]].is_difference() {
        Some(row[0])
    } else {
        first_playing(active, row.drop_first())
    }
}

impl Player {
    /// The main timeline that is playing.
    pub open spec fn playing_main(self) -> Option<Seq<char>> {
        first_playing(self.active, ordered(self.active.dom()))
    }

    /// The time of the main timeline that is playing.
    pub open spec fn main_time(self) -> Option<Single> {
        match self.playing_main() {
            Some(name) => Some(
                if self.running.dom().contains(name) {
                    self.running[name].elapsed_ticks
                } else {
                    Single::zero()
                },
            ),
            None => None,
        }
    }

    /// The time that is shown: that of the main timeline, else the clock.
    pub open spec fn shown_time(self) -> Single {
        match self.main_time() {
            Some(t) => t,
            None => self.elapsed_ticks,
        }
    }

    /// The player after a row of writes.
    pub open spec fn after_writes(self, writes: Seq<Write>) -> Player
        decreases writes.len(),
    {
        if writes.len() == 0 {
            self
        } else {
            let w = writes.last();
            self.after_writes(writes.drop_last()).variable_sent(
                w.name,
                w.value,
                w.time_ticks,
                w.easing,
            )
        }
    }
}

/// Finds the main timeline that is playing.
pub fn find_playing_main(player: &ElunaPlayer) -> (r: Option<String>)
    requires
        player.wf(),
    ensures
        opt_string(r) == player@.playing_main(),
{
    let entries = &player.active_timelines.entries;
    let ghost all = keys(entries@);
    let ghost map = player@.active;
    let mut i: usize = 0;
    proof {
        player.active_timelines.lemma_ordered();
        assert(all.skip(0) =~= all);
    }
    while i < entries.len()
        invariant
            i <= entries@.len(),
            player.wf(),
            *entries == player.active_timelines.entries,
            map == player@.active,
            all == keys(entries@),
            all == ordered(player@.active.dom()),
            first_playing(map, all) == first_playing(map, all.skip(i as int)),
        decreases entries@.len() - i,
    {
        let ghost rest = all.skip(i as int);
        proof {
            player.active_timelines.lemma_entry(i as int);
            assert(rest[0] == entries@[i as int].0@);
            assert(rest.drop_first() =~= all.skip(i + 1));
        }
        if !is_auto_control_timeline_name(entries[i].0.as_str()) && !entries[i].1.is_difference() {
            return Some(entries[i].0.clone());
        }
        i = i + 1;
    }
    None
}

/// The time of the main timeline that is playing.
pub fn active_main_timeline_time_ticks(player: &ElunaPlayer) -> (r: Option<Single>)
    requires
        player.wf(),
    ensures
        r == player@.main_time(),
{
    match find_playing_main(player) {
        Some(name) => Some(player.timeline_elapsed_ticks(name.as_str())),
        None => None,
    }
}

/// A model that is previewed.
#[derive(Debug)]
pub struct LoadedModel {
    pub runtime: EmoteRuntime,
    pub debug_frame_count: usize,
    pub debug_frames: bool,
}

/// The scene of a motion at the time that a player shows.
pub open spec fn preview_scene(
    psb: PsbFile,
    data: Seq<u8>,
    schema: Schema,
    motion: Seq<char>,
    player: Player,
    depth: nat,
) -> Result<Scene, SchemaFault> {
    motion_scene(
        psb,
        Some(data),
        schema.base_object,
        schema.textures,
        motion,
        player.shown_time(),
        current_values(player),
        depth,
    )
}

/// The player once the timeline of a preview has started.
pub open spec fn preview_started(
    player: Player,
    options: Playing,
    motion: Option<Seq<char>>,
    pipeline: EmoteRuntimePipeline,
) -> Result<Player, RuntimeFault> {
    let asked = if options.no_timeline {
        None
    } else if options.timeline is Some {
        options.timeline
    } else {
        match motion {
            Some(m) => main_timeline_for(player.timelines, m),
            None => None,
        }
    };
    match asked {
        None => Ok(player),
        Some(name) => {
            let played = player.played(
                name,
                TimelinePlayMode::parallel().with_looping(true),
                pipeline,
            );
            match options.timeline_time {
                None => Ok(played),
                Some(ticks) => if played.timelines.dom().contains(name) {
                    Ok(played.sought(name, ticks, pipeline))
                } else {
                    Err(RuntimeFault::RuntimeControl("timeline not found: "@ + name))
                },
            }
        },
    }
}

/// The motion that a preview shows.
pub open spec fn preview_motion(root: PsbValue, schema: Schema, options: Playing) -> Option<
    Seq<char>,
> {
    if options.motion is Some {
        options.motion
    } else {
        match motions_of(root, schema.base_object) {
            Ok(row) => if row.len() > 0 {
                Some(row[0].0@)
            } else {
                None
            },
            Err(_) => None,
        }
    }
}

/// What loading a preview comes to.
pub open spec fn preview_loaded(
    psb: PsbFile,
    data: Seq<u8>,
    options: Playing,
    depth: nat,
    infos: Seq<VarInfo>,
    pipeline: EmoteRuntimePipeline,
) -> Result<Loaded, RuntimeFault> {
    match schema_of(psb.root) {
        Err(e) => Err(RuntimeFault::Schema(e)),
        Ok(schema) => {
            let motion = preview_motion(psb.root, schema, options);
            match first_scene(psb, data, schema, motion, infos, depth) {
                Err(e) => Err(RuntimeFault::Schema(e)),
                Ok(first) => match preview_started(
                    new_player(infos, document_timelines(psb.root), pipeline).after_writes(
                        options.initial_writes,
                    ),
                    options,
                    motion,
                    pipeline,
                ) {
                    Err(e) => Err(e),
                    Ok(player) => match motion {
                        None => Ok(Loaded { schema, motion, player, scene: first }),
                        Some(m) => match preview_scene(psb, data, schema, m, player, depth) {
                            Err(e) => Err(RuntimeFault::Schema(e)),
                            Ok(scene) => Ok(Loaded { schema, motion, player, scene }),
                        },
                    },
                },
            }
        },
    }
}

/// Whether a result of loading is that one.
pub open spec fn is_preview(
    r: Result<LoadedModel, EmoteRuntimeError>,
    want: Result<Loaded, RuntimeFault>,
) -> bool {
    match r {
        Ok(m) => want == Ok::<Loaded, RuntimeFault>(
            Loaded {
                schema: m.runtime.model()@,
                motion: opt_string(m.runtime.motion()),
                player: m.runtime.inner()@,
                scene: m.runtime.inner().shown_scene()@,
            },
        ),
        Err(e) => want == Err::<Loaded, RuntimeFault>(e@),
    }
}

fn apply_writes(player: &mut ElunaPlayer, writes: &Vec<VariableWrite>)
    requires
        old(player).wf(),
    ensures
        final(player).wf(),
        final(player).same_model(old(player)),
        final(player)@ == old(player)@.after_writes(views(writes@)),
{
    let ghost start = player@;
    let ghost all = views(writes@);
    let mut i: usize = 0;
    while i < writes.len()
        invariant
            i <= writes@.len(),
            all == views(writes@),
            start == old(player)@,
            player.wf(),
            player.same_model(old(player)),
            player@ == start.after_writes(all.take(i as int)),
        decreases writes@.len() - i,
    {
        assert(all.take(i + 1).drop_last() =~= all.take(i as int));
        assert(all.take(i + 1).last() == writes@[i as int]@);
        player.apply_write(&writes[i]);
        i = i + 1;
    }
    assert(all.take(i as int) =~= all);
}

fn start_preview(player: &mut ElunaPlayer, options: &PlayerOptions, motion: &Option<String>) -> (r:
    Result<(), EmoteRuntimeError>)
    requires
        old(player).wf(),
    ensures
        final(player).wf(),
        final(player).same_model(old(player)),
        match preview_started(
            old(player)@,
            options@,
            opt_string(*motion),
            old(player).pipeline(),
        ) {
            Ok(p) => r is Ok && final(player)@ == p,
            Err(e) => r is Err && r->Err_0@ == e,
        },
{
    if options.no_timeline {
        return Ok(());
    }
    let asked = if options.timeline.is_some() {
        clone_opt(&options.timeline)
    } else {
        match motion {
            Some(m) => find_main_timeline_for_motion(player, m.as_str()),
            None => None,
        }
    };
    let name = match asked {
        Some(n) => n,
        None => {
            return Ok(());
        },
    };
    player.play_timeline(name.as_str(), TimelinePlayMode::parallel().with_looping(true));
    match options.timeline_time {
        None => Ok(()),
        Some(ticks) => match player.set_timeline_time(name.as_str(), ticks) {
            Ok(()) => Ok(()),
            Err(m) => Err(EmoteRuntimeError::RuntimeControl(m)),
        },
    }
}

impl LoadedModel {
    /// The player, its scene and the textures are in order.
    pub open spec fn wf(&self) -> bool {
        self.runtime.wf()
    }

    /// Whether the model shows a player of an earlier one, its scene built anew where a
    /// motion is shown; where that fails the scene stays.
    pub open spec fn shows(
        &self,
        before: &LoadedModel,
        player: Player,
        r: Result<(), EmoteRuntimeError>,
    ) -> bool {
        &&& self.runtime.same_document(&before.runtime)
        &&& self.debug_frames == before.debug_frames
        &&& self.debug_frame_count == before.debug_frame_count
        &&& self.runtime.motion() == before.runtime.motion()
        &&& self.runtime.inner()@ == player
        &&& match opt_string(self.runtime.motion()) {
            None => r is Ok && self.runtime.inner().shown_scene() == before.runtime.inner().shown_scene(),
            Some(motion) => match preview_scene(
                before.runtime.document(),
                before.runtime.data()@,
                before.runtime.model()@,
                motion,
                player,
                before.runtime.deepest() as nat,
            ) {
                Ok(scene) => r is Ok && self.runtime.inner().shown_scene()@ == scene,
                Err(e) => {
                    &&& r is Err
                    &&& r->Err_0@ == RuntimeFault::Schema(e)
                    &&& self.runtime.inner().shown_scene() == before.runtime.inner().shown_scene()
                },
            },
        }
    }

    /// Builds the scene of the motion anew, at the time that the player shows.
    pub fn rebuild_scene(&mut self) -> (r: Result<(), EmoteRuntimeError>)
        requires
            old(self).wf(),
        ensures
            final(self).wf(),
            final(self).shows(old(self), old(self).runtime.inner()@, r),
    {
        let values = player_variable_values(&self.runtime.player);
        let time = match active_main_timeline_time_ticks(&self.runtime.player) {
            Some(t) => t,
            None => self.runtime.player.elapsed_ticks,
        };
        let built = match &self.runtime.active_motion {
            None => {
                return Ok(());
            },
            Some(motion) => {
                self.runtime.schema.build_motion_scene_at_with_resources_and_variables(
                    &self.runtime.psb,
                    self.runtime.normalized_data.as_slice(),
                    motion.as_str(),
                    time,
                    &values,
                    self.runtime.depth,
                )
            },
        };
        match built {
            Ok(scene) => {
                self.runtime.player.replace_scene(scene);
                Ok(())
            },
            Err(e) => Err(EmoteRuntimeError::Schema(e)),
        }
    }

    /// Whether a frame moves the bodies, and needs its scene a second time after them.
    pub fn moves_bodies(&self, delta: Single) -> (r: bool)
        ensures
            r == (self.runtime.motion() is Some && Single::zero().lt(delta)
                && self.runtime.inner()@.physics_enabled),
    {
        self.runtime.active_motion.is_some() && Single::zero().lt(delta)
            && self.runtime.player.physics_enabled
    }

    /// Selects the motion that the next scene is built of.
    pub fn select_motion(&mut self, name: &str)
        requires
            old(self).wf(),
        ensures
            final(self).wf(),
            opt_string(final(self).runtime.motion()) == Some(name@),
            final(self).runtime.same_document(&old(self).runtime),
            final(self).runtime.inner() == old(self).runtime.inner(),
            final(self).debug_frames == old(self).debug_frames,
            final(self).debug_frame_count == old(self).debug_frame_count,
    {
        self.runtime.active_motion = Some(name.to_owned());
    }

    /// Counts a frame that is told of. Only the first thirty are, and none unless the
    /// model was loaded to be told of.
    pub fn count_debug_frame(&mut self) -> (r: Option<usize>)
        requires
            old(self).wf(),
        ensures
            final(self).wf(),
            final(self).runtime == old(self).runtime,
            final(self).debug_frames == old(self).debug_frames,
            r == (if old(self).debug_frames && old(self).debug_frame_count < 30 {
                Some((old(self).debug_frame_count + 1) as usize)
            } else {
                None
            }),
            final(self).debug_frame_count == (match r {
                Some(n) => n,
                None => old(self).debug_frame_count,
            }),
    {
        if self.debug_frames && self.debug_frame_count < 30 {
            self.debug_frame_count = self.debug_frame_count + 1;
            Some(self.debug_frame_count)
        } else {
            None
        }
    }

    /// Loads a preview from a parsed document and the bytes of its resources. The
    /// bounds of its clamps must be in order.
    pub fn from_document(
        psb: PsbFile,
        normalized_data: Vec<u8>,
        options: &PlayerOptions,
        depth: usize,
    ) -> (r: Result<LoadedModel, EmoteRuntimeError>)
        requires
            forall|i: int|
                0 <= i < document_clamps(psb.root).len() ==> (#[trigger] document_clamps(
                    psb.root,
                )[i]).in_order(),
        ensures
            r matches Ok(m) ==> m.wf() && m.runtime.document() == psb && m.runtime.data()
                == normalized_data && m.runtime.deepest() == depth && m.debug_frame_count == 0
                && m.debug_frames == options.debug_frames && is_pipeline_of(
                m.runtime.inner().pipeline(),
                psb.root,
            ),
            exists|infos: Seq<VarInfo>, pipeline: EmoteRuntimePipeline|
                {
                    &&& #[trigger] lists(infos, document_variables(psb.root))
                    &&& #[trigger] is_pipeline_of(pipeline, psb.root)
                    &&& r matches Ok(m) ==> m.runtime.inner().pipeline() == pipeline
                    &&& is_preview(
                        r,
                        preview_loaded(
                            psb,
                            normalized_data@,
                            options@,
                            depth as nat,
                            infos,
                            pipeline,
                        ),
                    )
                },
    {
        let pipeline = collect_emote_runtime_pipeline(&psb.root);
        let variables = collect_emote_variables(&psb.root);
        let timelines = collect_emote_timelines(&psb.root);
        let ghost infos = views(variables@);
        let ghost controls = pipeline;
        proof {
            assert(lists(infos, document_variables(psb.root)));
            assert(is_pipeline_of(controls, psb.root));
            assert(views(pipeline.clamp_controls@) =~= document_clamps(psb.root));
            assert forall|i: int| 0 <= i < pipeline.clamp_controls@.len() implies (
            #[trigger] pipeline.clamp_controls@[i])@.in_order() by {
                assert(document_clamps(psb.root)[i].in_order());
            }
            lemma_fields_in_order(pipeline, psb.root);
        }
        let schema = match EmoteModelSchema::from_psb(&psb.root) {
            Ok(s) => s,
            Err(e) => {
                return Err(EmoteRuntimeError::Schema(e));
            },
        };
        let active_motion = if options.motion.is_some() {
            clone_opt(&options.motion)
        } else {
            match schema.default_motion_name(&psb.root) {
                Ok(name) => name,
                Err(_e) => None,
            }
        };
        assert(opt_string(active_motion) == preview_motion(psb.root, schema@, options@));
        let initial_values = initial_variable_values(&variables, &timelines);
        let first = match &active_motion {
            Some(motion) => schema.build_motion_scene_at_with_resources_and_variables(
                &psb,
                normalized_data.as_slice(),
                motion.as_str(),
                Single::zero(),
                &initial_values,
                depth,
            ),
            None => schema.build_static_scene(&psb.root, depth),
        };
        let scene = match first {
            Ok(s) => s,
            Err(e) => {
                return Err(EmoteRuntimeError::Schema(e));
            },
        };
        let mut player = ElunaPlayer::from_scene_variables_timelines_runtime(
            scene,
            variables,
            timelines,
            pipeline,
        );
        apply_writes(&mut player, &options.initial_writes);
        match start_preview(&mut player, options, &active_motion) {
            Ok(()) => {},
            Err(e) => {
                return Err(e);
            },
        }
        let runtime = EmoteRuntime {
            normalized_data,
            psb,
            schema,
            active_motion,
            player,
            depth,
        };
        let mut model = LoadedModel {
            runtime,
            debug_frame_count: 0,
            debug_frames: options.debug_frames,
        };
        match model.rebuild_scene() {
            Ok(()) => Ok(model),
            Err(e) => Err(e),
        }
    }
}

/// A key that was pressed.
#[derive(Debug)]
pub enum KeyPress<'a> {
    Escape,
    Left,
    Right,
    Up,
    Down,
    Space,
    Text(&'a str),
    Other,
}

/// What comes of a key: nothing, the end of the program, a new frame, a new frame
/// with a line for the user, or a report on the player.
#[derive(Debug)]
pub enum KeyAction {
    Ignored,
    Exit,
    Redraw,
    RedrawWithNote(String),
    Report,
}

/// A `KeyPress` by its characters.
pub enum Key {
    Escape,
    Left,
    Right,
    Up,
    Down,
    Space,
    Text(Seq<char>),
    Other,
}

impl<'a> View for KeyPress<'a> {
    type V = Key;

    open spec fn view(&self) -> Key {
        match self {
            KeyPress::Escape => Key::Escape,
            KeyPress::Left => Key::Left,
            KeyPress::Right => Key::Right,
            KeyPress::Up => Key::Up,
            KeyPress::Down => Key::Down,
            KeyPress::Space => Key::Space,
            KeyPress::Text(s) => Key::Text(s@),
            KeyPress::Other => Key::Other,
        }
    }
}

/// A `KeyAction` by its characters.
#[verifier::ext_equal]
pub enum KeyOutcome {
    Ignored,
    Exit,
    Redraw,
    RedrawWithNote(Seq<char>),
    Report,
}

impl View for KeyAction {
    type V = KeyOutcome;

    open spec fn view(&self) -> KeyOutcome {
        match self {
            KeyAction::Ignored => KeyOutcome::Ignored,
            KeyAction::Exit => KeyOutcome::Exit,
            KeyAction::Redraw => KeyOutcome::Redraw,
            KeyAction::RedrawWithNote(s) => KeyOutcome::RedrawWithNote(s@),
            KeyAction::Report => KeyOutcome::Report,
        }
    }
}

/// One and a twentieth, by which a key scales the model.
#[verifier::allow_in_spec]
pub fn zoom_step() -> (r: Single)
    returns
        (Single { bits: 0x3f86_6666 }),
{
    Single { bits: 0x3f86_6666 }
}

/// A hundredth, the least scale that a key leads to.
#[verifier::allow_in_spec]
pub fn least_zoom() -> (r: Single)
    returns
        (Single { bits: 0x3c23_d70a }),
{
    Single { bits: 0x3c23_d70a }
}

/// A twentieth, by which a key turns the model.
#[verifier::allow_in_spec]
pub fn turn_step() -> (r: Single)
    returns
        (Single { bits: 0x3d4c_cccd }),
{
    Single { bits: 0x3d4c_cccd }
}

/// A tenth, by which a key moves a variable.
#[verifier::allow_in_spec]
pub fn variable_step() -> (r: Single)
    returns
        (Single { bits: 0x3dcc_cccd }),
{
    Single { bits: 0x3dcc_cccd }
}

/// The line that tells of a write to a variable.
pub open spec fn write_note(name: Seq<char>, value: Single) -> Seq<char> {
    "set_variable "@ + name + "="@ + thousandths_text(value)
}

fn note_write(name: &str, value: Single) -> (r: String)
    ensures
        r@ == write_note(name@, value),
{
    let head = concat_text("set_variable ", name);
    let mut r = head;
    r.append("=");
    r.append(show_thousandths(value).as_str());
    r
}

impl Player {
    /// The value of a variable, zero where there is none.
    pub open spec fn value_of(self, name: Seq<char>) -> Single {
        if self.vars.dom().contains(name) {
            self.vars[name].value
        } else {
            Single::zero()
        }
    }

    /// The player with a variable written by a key.
    pub open spec fn key_write(self, name: Option<Seq<char>>, value: Single) -> (
        Player,
        KeyOutcome,
    ) {
        match name {
            Some(n) => (
                self.variable_sent(n, value, Single::zero(), Single::zero()),
                KeyOutcome::RedrawWithNote(write_note(n, value)),
            ),
            None => (self, KeyOutcome::Ignored),
        }
    }

    /// What a key with a text does: it scales and turns the model, or works on the
    /// controlled variable.
    pub open spec fn typed(self, text: Seq<char>, name: Option<Seq<char>>) -> (Player, KeyOutcome) {
        let value = match name {
            Some(n) => self.value_of(n),
            None => Single::zero(),
        };
        if text == "+"@ || text == "="@ {
            (self.scaled_to(self.scale.times(zoom_step())), KeyOutcome::Redraw)
        } else if text == "-"@ || text == "_"@ {
            (
                self.scaled_to(self.scale.over(zoom_step()).max(least_zoom())),
                KeyOutcome::Redraw,
            )
        } else if text == "q"@ || text == "Q"@ {
            (self.turned_to(self.rot.minus(turn_step())), KeyOutcome::Redraw)
        } else if text == "e"@ || text == "E"@ {
            (self.turned_to(self.rot.plus(turn_step())), KeyOutcome::Redraw)
        } else if text == "a"@ || text == "A"@ {
            self.key_write(name, value.minus(variable_step()))
        } else if text == "d"@ || text == "D"@ {
            self.key_write(name, value.plus(variable_step()))
        } else if text == "r"@ || text == "R"@ {
            self.key_write(name, Single::zero())
        } else if text == "k"@ || text == "K"@ {
            (self, KeyOutcome::Report)
        } else {
            (self, KeyOutcome::Ignored)
        }
    }

    /// What a key does.
    pub open spec fn keyed(self, key: Key, name: Option<Seq<char>>) -> (Player, KeyOutcome) {
        let ten = Single::ten();
        match key {
            Key::Escape => (self, KeyOutcome::Exit),
            Key::Left => (self.moved_to(self.coord_x.minus(ten), self.coord_y), KeyOutcome::Redraw),
            Key::Right => (self.moved_to(self.coord_x.plus(ten), self.coord_y), KeyOutcome::Redraw),
            Key::Up => (self.moved_to(self.coord_x, self.coord_y.minus(ten)), KeyOutcome::Redraw),
            Key::Down => (self.moved_to(self.coord_x, self.coord_y.plus(ten)), KeyOutcome::Redraw),
            Key::Space => (Player { shown: !self.shown, ..self }, KeyOutcome::Redraw),
            Key::Text(text) => self.typed(text, name),
            Key::Other => (self, KeyOutcome::Ignored),
        }
    }
}

fn key_write(player: &mut ElunaPlayer, name: Option<&str>, value: Single) -> (r: KeyAction)
    requires
        old(player).wf(),
    ensures
        final(player).wf(),
        final(player).same_model(old(player)),
        (final(player)@, r@) == old(player)@.key_write(opt_text(name), value),
{
    match name {
        Some(n) => {
            player.set_variable(n, value);
            KeyAction::RedrawWithNote(note_write(n, value))
        },
        None => KeyAction::Ignored,
    }
}

fn handle_text(player: &mut ElunaPlayer, text: &str, name: Option<&str>) -> (r: KeyAction)
    requires
        old(player).wf(),
    ensures
        final(player).wf(),
        final(player).same_model(old(player)),
        (final(player)@, r@) == old(player)@.typed(text@, opt_text(name)),
{
    let value = match name {
        Some(n) => match player.variable_value(n) {
            Some(v) => v,
            None => Single::zero(),
        },
        None => Single::zero(),
    };
    if same_text(text, "+") || same_text(text, "=") {
        let scale = player.scale;
        player.set_scale(scale.times(zoom_step()));
        KeyAction::Redraw
    } else if same_text(text, "-") || same_text(text, "_") {
        let scale = player.scale;
        player.set_scale(scale.over(zoom_step()).max(least_zoom()));
        KeyAction::Redraw
    } else if same_text(text, "q") || same_text(text, "Q") {
        let rot = player.rot;
        player.set_rot(rot.minus(turn_step()));
        KeyAction::Redraw
    } else if same_text(text, "e") || same_text(text, "E") {
        let rot = player.rot;
        player.set_rot(rot.plus(turn_step()));
        KeyAction::Redraw
    } else if same_text(text, "a") || same_text(text, "A") {
        key_write(player, name, value.minus(variable_step()))
    } else if same_text(text, "d") || same_text(text, "D") {
        key_write(player, name, value.plus(variable_step()))
    } else if same_text(text, "r") || same_text(text, "R") {
        key_write(player, name, Single::zero())
    } else if same_text(text, "k") || same_text(text, "K") {
        KeyAction::Report
    } else {
        KeyAction::Ignored
    }
}

/// Does what a key asks for, and says what comes of it.
pub fn handle_keyboard(player: &mut ElunaPlayer, key: &KeyPress, control_variable: Option<&str>) -> (r:
    KeyAction)
    requires
        old(player).wf(),
    ensures
        final(player).wf(),
        final(player).same_model(old(player)),
        (final(player)@, r@) == old(player)@.keyed(key@, opt_text(control_variable)),
{
    let ten = Single::ten();
    let x = player.coord_x;
    let y = player.coord_y;
    match key {
        KeyPress::Escape => KeyAction::Exit,
        KeyPress::Left => {
            player.set_coord(x.minus(ten), y);
            KeyAction::Redraw
        },
        KeyPress::Right => {
            player.set_coord(x.plus(ten), y);
            KeyAction::Redraw
        },
        KeyPress::Up => {
            player.set_coord(x, y.minus(ten));
            KeyAction::Redraw
        },
        KeyPress::Down => {
            player.set_coord(x, y.plus(ten));
            KeyAction::Redraw
        },
        KeyPress::Space => {
            if player.shown {
                player.conceal();
            } else {
                player.show();
            }
            KeyAction::Redraw
        },
        KeyPress::Text(text) => handle_text(player, text, control_variable),
        KeyPress::Other => KeyAction::Ignored,
    }
}

/// What a window tells.
#[derive(Clone, Copy, Debug, PartialEq, Eq, Structural)]
pub enum WindowNews {
    CloseRequested,
    Resized,
    Occluded(bool),
    RedrawRequested,
    Other,
}

/// What is done about it.
#[derive(Clone, Copy, Debug, PartialEq, Eq, Structural)]
pub enum WindowAction {
    Nothing,
    Exit,
    /// Fit the surface to the window, and ask for a frame.
    Resize,
    /// Ask for a frame.
    RequestRedraw,
    /// Draw a frame.
    Draw,
}

/// What of a window is remembered.
#[derive(Clone, Copy, Debug, PartialEq, Eq, Structural)]
pub struct WindowState {
    pub occluded: bool,
}

impl WindowState {
    pub open spec fn told(self, news: WindowNews) -> (WindowState, WindowAction) {
        match news {
            WindowNews::CloseRequested => (self, WindowAction::Exit),
            WindowNews::Resized => (self, WindowAction::Resize),
            WindowNews::Occluded(occluded) => (
                WindowState { occluded },
                if occluded {
                    WindowAction::Nothing
                } else {
                    WindowAction::RequestRedraw
                },
            ),
            WindowNews::RedrawRequested => (
                self,
                if self.occluded {
                    WindowAction::Nothing
                } else {
                    WindowAction::Draw
                },
            ),
            WindowNews::Other => (self, WindowAction::Nothing),
        }
    }

    /// Takes in what a window tells. Nothing is drawn while the window is covered.
    pub fn tell(&mut self, news: WindowNews) -> (r: WindowAction)
        ensures
            (*final(self), r) == old(self).told(news),
    {
        match news {
            WindowNews::CloseRequested => WindowAction::Exit,
            WindowNews::Resized => WindowAction::Resize,
            WindowNews::Occluded(occluded) => {
                self.occluded = occluded;
                if occluded {
                    WindowAction::Nothing
                } else {
                    WindowAction::RequestRedraw
                }
            },
            WindowNews::RedrawRequested => if self.occluded {
                WindowAction::Nothing
            } else {
                WindowAction::Draw
            },
            WindowNews::Other => WindowAction::Nothing,
        }
    }
}

/// The ticks of a frame: the time since the last one, held below a cap, times the
/// speed of playback.
pub fn frame_ticks(raw_ms: Single, cap_ms: Single, speed: Single) -> (r: Single)
    ensures
        r == raw_ms.min(cap_ms).times(ticks_per_second()).over(milliseconds_per_second()).times(
            speed,
        ),
{
    milliseconds_to_emote_ticks(raw_ms.min(cap_ms)).times(speed)
}

/// How a frame moves the player on.
#[derive(Clone, Copy, Debug, PartialEq, Eq, Structural)]
pub enum FrameMove {
    Rest,
    /// One tick, and the variables set anew.
    Step,
    Progress,
}

/// Step by step, a frame moves on only where something has changed.
pub fn frame_move(step_update: bool, dirty: bool, modified: bool) -> (r: FrameMove)
    ensures
        r == (if !step_update {
            FrameMove::Progress
        } else if dirty || modified {
            FrameMove::Step
        } else {
            FrameMove::Rest
        }),
{
    if !step_update {
        FrameMove::Progress
    } else if dirty || modified {
        FrameMove::Step
    } else {
        FrameMove::Rest
    }
}

/// The ticks before an exported frame: none before the first, four before any other.
pub fn export_ticks(index: usize) -> (r: Single)
    ensures
        r == (if index == 0 {
            Single::zero()
        } else {
            Single::spec_from_i64(4)
        }),
{
    if index == 0 {
        Single::zero()
    } else {
        Single::from_i64(4)
    }
}

} // verus!
