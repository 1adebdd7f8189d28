//! A player before its first call.

use crate::api::{LogEntry, TimelinePlayMode, Write};
use crate::arrange::views;
use crate::assembly::{EmoteStaticScene, Scene};
use crate::catalog::{collect_emote_variables, document_variables, lists};
use crate::controls::{
    clamps_of, collect_emote_runtime_pipeline, objects, Clamp, EmoteRuntimePipeline,
};
use crate::drive::states;
use crate::model::{load_emote_static_scene, static_scene};
use crate::order::{keys, ordered, TextMap};
use crate::physics::{init_bust_states, init_hair_states, new_busts, new_pendulums};
use crate::playback::{timelines_view, ActiveTimelineState};
use crate::player::{drives_controls, is_auto_control_timeline_name, ElunaPlayer, Player};
use crate::schema::{schema_of, EmoteSchemaError, SchemaFault};
use crate::single::Single;
use crate::timelines::{
    collect_emote_timelines, document_timelines, evaluate_timeline_variable, track_value,
    EmoteTimeline, EmoteTimelineFrame, EmoteTimelineVariable, Timeline, Track,
};
use crate::value::{items_of, PsbValue};
use crate::variables::{
    fresh_state, EmoteVariableInfo, EmoteVariableState, VarInfo, VarState,
};
use vstd::prelude::*;

verus! {

/// The variables that a row describes, each at its default. The first description
/// of a name counts.
pub open spec fn described_states(infos: Seq<VarInfo>) -> Map<Seq<char>, VarState>
    decreases infos.len(),
{
    if infos.len() == 0 {
        Map::empty()
    } else {
        let known = described_states(infos.drop_last());
        let info = infos.last();
        if known.dom().contains(info.name) {
            known
        } else {
            known.insert(info.name, VarState { value: info.default_value, info, target: None })
        }
    }
}

/// The description with the values of all frames in its range.
pub open spec fn widened_by_frames(info: VarInfo, frames: Seq<EmoteTimelineFrame>) -> VarInfo
    decreases frames.len(),
{
    if frames.len() == 0 {
        info
    } else {
        widened_by_frames(info, frames.drop_last()).widened(frames.last().value)
    }
}

fn widen_by_frames(info: &mut EmoteVariableInfo, frames: &Vec<EmoteTimelineFrame>)
    ensures
        final(info)@ == widened_by_frames(old(info)@, frames@),
{
    let ghost start = info@;
    let mut i: usize = 0;
    while i < frames.len()
        invariant
            i <= frames@.len(),
            info@ == widened_by_frames(start, frames@.take(i as int)),
        decreases frames@.len() - i,
    {
        assert(frames@.take(i + 1).drop_last() =~= frames@.take(i as int));
        info.widen(frames[i].value);
        i = i + 1;
    }
    assert(frames@.take(i as int) =~= frames@);
}

/// The value of the first frame.
pub open spec fn first_value(frames: Seq<EmoteTimelineFrame>) -> Single {
    if frames.len() > 0 {
        frames[0].value
    } else {
        Single::zero()
    }
}

fn find_first_value(frames: &Vec<EmoteTimelineFrame>) -> (r: Single)
    ensures
        r == first_value(frames@),
{
    if frames.len() > 0 {
        frames[0].value
    } else {
        Single::zero()
    }
}

/// A variable that a track is found for: its range holds the frames, and where it
/// stands at its default it takes the first of them.
pub open spec fn introduced(state: VarState, frames: Seq<EmoteTimelineFrame>) -> VarState {
    let info = widened_by_frames(state.info, frames);
    VarState {
        info,
        value: if state.value.minus(info.default_value).abs().le(Single::epsilon()) {
            info.clamp(first_value(frames))
        } else {
            state.value
        },
        target: state.target,
    }
}

fn introduce(state: &mut EmoteVariableState, frames: &Vec<EmoteTimelineFrame>)
    ensures
        final(state)@ == introduced(old(state)@, frames@),
{
    widen_by_frames(&mut state.info, frames);
    if state.value.minus(state.info.default_value).abs().le(Single::epsilon()) {
        state.value = state.info.clamp(find_first_value(frames));
    }
}

/// The variables with those of the tracks; one that is not there is made.
pub open spec fn with_tracks_introduced(vars: Map<Seq<char>, VarState>, tracks: Seq<Track>) -> Map<
    Seq<char>,
    VarState,
>
    decreases tracks.len(),
{
    if tracks.len() == 0 {
        vars
    } else {
        let known = with_tracks_introduced(vars, tracks.drop_last());
        let track = tracks.last();
        let state = if known.dom().contains(track.name) {
            known[track.name]
        } else {
            fresh_state(track.name, first_value(track.frames))
        };
        known.insert(track.name, introduced(state, track.frames))
    }
}

pub open spec fn with_timelines_introduced(
    vars: Map<Seq<char>, VarState>,
    row: Seq<Timeline>,
) -> Map<Seq<char>, VarState>
    decreases row.len(),
{
    if row.len() == 0 {
        vars
    } else {
        with_tracks_introduced(
            with_timelines_introduced(vars, row.drop_last()),
            row.last().tracks,
        )
    }
}

/// The timelines by their names; the last of a name counts.
pub open spec fn timelines_by_name(row: Seq<Timeline>) -> Map<Seq<char>, Timeline>
    decreases row.len(),
{
    if row.len() == 0 {
        Map::empty()
    } else {
        timelines_by_name(row.drop_last()).insert(row.last().name, row.last())
    }
}

/// A variable that a control timeline has set at its start.
pub open spec fn set_at_start(state: VarState, frames: Seq<EmoteTimelineFrame>) -> VarState {
    let info = widened_by_frames(state.info, frames);
    VarState { info, value: info.clamp(track_value(frames, Single::zero())), target: None }
}

fn set_to_start(state: &mut EmoteVariableState, track: &EmoteTimelineVariable)
    ensures
        final(state)@ == set_at_start(old(state)@, track.frames@),
{
    widen_by_frames(&mut state.info, &track.frames);
    state.value = state.info.clamp(evaluate_timeline_variable(track, Single::zero()));
    state.target = None;
}

pub open spec fn with_tracks_at_start(vars: Map<Seq<char>, VarState>, tracks: Seq<Track>) -> Map<
    Seq<char>,
    VarState,
>
    decreases tracks.len(),
{
    if tracks.len() == 0 {
        vars
    } else {
        let known = with_tracks_at_start(vars, tracks.drop_last());
        let track = tracks.last();
        let state = if known.dom().contains(track.name) {
            known[track.name]
        } else {
            fresh_state(track.name, track_value(track.frames, Single::zero()))
        };
        known.insert(track.name, set_at_start(state, track.frames))
    }
}

/// The variables after the control timelines among a row of names.
pub open spec fn with_controls_at_start(
    vars: Map<Seq<char>, VarState>,
    timelines: Map<Seq<char>, Timeline>,
    names: Seq<Seq<char>>,
) -> Map<Seq<char>, VarState>
    decreases names.len(),
{
    if names.len() == 0 {
        vars
    } else {
        let known = with_controls_at_start(vars, timelines, names.drop_last());
        if drives_controls(names.last()) {
            with_tracks_at_start(known, timelines[names.last()].tracks)
        } else {
            known
        }
    }
}

/// The running state of a control timeline at its start.
pub open spec fn control_run() -> ActiveTimelineState {
    ActiveTimelineState {
        mode: TimelinePlayMode::looped(),
        elapsed_ticks: Single::zero(),
        blend_ratio: Single::one(),
        blend_target: None,
    }
}

/// The names of the control timelines.
pub open spec fn control_names(timelines: Map<Seq<char>, Timeline>) -> Set<Seq<char>> {
    timelines.dom().filter(|k: Seq<char>| drives_controls(k))
}

/// A new player: its variables stand at their defaults or at the first value of a
/// track, and its control timelines run.
pub open spec fn new_player(
    infos: Seq<VarInfo>,
    row: Seq<Timeline>,
    pipeline: EmoteRuntimePipeline,
) -> Player {
    let timelines = timelines_by_name(row);
    (Player {
        shown: true,
        smoothing: true,
        mesh_division_ratio: Single::one(),
        queuing: false,
        color_rgba: 0xffff_ffff,
        grayscale: Single::zero(),
        as_original_scale: false,
        coord_x: Single::zero(),
        coord_y: Single::zero(),
        scale: Single::one(),
        rot: Single::zero(),
        elapsed_ticks: Single::zero(),
        paused: false,
        physics_enabled: true,
        vars: with_controls_at_start(
            with_timelines_introduced(described_states(infos), row),
            timelines,
            ordered(timelines.dom()),
        ),
        timelines,
        pending: Seq::empty(),
        active: Map::new(
            |k: Seq<char>| control_names(timelines).contains(k),
            |k: Seq<char>| TimelinePlayMode::looped(),
        ),
        running: Map::new(
            |k: Seq<char>| control_names(timelines).contains(k),
            |k: Seq<char>| control_run(),
        ),
        ratios: Map::empty(),
        bust: new_busts(pipeline.physics_controls@),
        hair: new_pendulums(pipeline.physics_controls@),
        forces: Map::empty(),
        outer_rot: Single::zero(),
        transform_order_mask: DEFAULT_TRANSFORM_ORDER,
        hair_scale: Single::one(),
        parts_scale: Single::one(),
        bust_scale: Single::one(),
        wind: None,
        modified: false,
        recording: false,
        replaying: false,
        log: Seq::empty(),
    }).controlled(pipeline)
}

/// The order of transforms that a new player has.
pub const DEFAULT_TRANSFORM_ORDER: u32 = 0;

fn describe_states(infos: Vec<EmoteVariableInfo>) -> (r: TextMap<EmoteVariableState>)
    ensures
        r.wf(),
        states(r) == described_states(views(infos@)),
{
    let ghost all = views(infos@);
    let mut out: TextMap<EmoteVariableState> = TextMap::new();
    let mut i: usize = 0;
    assert(states(out) =~= Map::<Seq<char>, VarState>::empty());
    while i < infos.len()
        invariant
            i <= infos@.len(),
            all == views(infos@),
            out.wf(),
            states(out) == described_states(all.take(i as int)),
        decreases infos@.len() - i,
    {
        assert(all.take(i + 1).drop_last() =~= all.take(i as int));
        assert(all.take(i + 1).last() == infos@[i as int]@);
        let ghost known = states(out);
        let info = &infos[i];
        if !out.contains_key(info.name.as_str()) {
            let state = EmoteVariableState {
                value: info.default_value,
                info: info.duplicate(),
                target: None,
            };
            out.insert(info.name.clone(), state);
            assert(states(out) =~= known.insert(info.name@, state@));
        }
        i = i + 1;
    }
    assert(all.take(i as int) =~= all);
    out
}

fn introduce_tracks(variables: &mut TextMap<EmoteVariableState>, tracks: &Vec<EmoteTimelineVariable>)
    requires
        old(variables).wf(),
    ensures
        final(variables).wf(),
        states(*final(variables)) == with_tracks_introduced(
            states(*old(variables)),
            views(tracks@),
        ),
{
    let ghost start = states(*variables);
    let ghost all = views(tracks@);
    let mut i: usize = 0;
    while i < tracks.len()
        invariant
            i <= tracks@.len(),
            variables.wf(),
            all == views(tracks@),
            states(*variables) == with_tracks_introduced(start, all.take(i as int)),
        decreases tracks@.len() - i,
    {
        assert(all.take(i + 1).drop_last() =~= all.take(i as int));
        assert(all.take(i + 1).last() == tracks@[i as int]@);
        let track = &tracks[i];
        let ghost before = *variables;
        let ghost known = states(*variables);
        match variables.find(track.name.as_str()) {
            Some(at) => {
                let state = variables.value_mut(at);
                introduce(state, &track.frames);
                let ghost now = *state;
                proof {
                    variables.lemma_changed(before, at as int, now);
                    assert(states(*variables) =~= known.insert(track.name@, now@));
                }
            },
            None => {
                let mut state = EmoteVariableState::fresh(
                    track.name.as_str(),
                    find_first_value(&track.frames),
                );
                introduce(&mut state, &track.frames);
                variables.insert(track.name.clone(), state);
                assert(states(*variables) =~= known.insert(track.name@, state@));
            },
        }
        i = i + 1;
    }
    assert(all.take(i as int) =~= all);
}

fn set_tracks_to_start(
    variables: &mut TextMap<EmoteVariableState>,
    tracks: &Vec<EmoteTimelineVariable>,
)
    requires
        old(variables).wf(),
    ensures
        final(variables).wf(),
        states(*final(variables)) == with_tracks_at_start(states(*old(variables)), views(tracks@)),
{
    let ghost start = states(*variables);
    let ghost all = views(tracks@);
    let mut i: usize = 0;
    while i < tracks.len()
        invariant
            i <= tracks@.len(),
            variables.wf(),
            all == views(tracks@),
            states(*variables) == with_tracks_at_start(start, all.take(i as int)),
        decreases tracks@.len() - i,
    {
        assert(all.take(i + 1).drop_last() =~= all.take(i as int));
        assert(all.take(i + 1).last() == tracks@[i as int]@);
        let track = &tracks[i];
        let ghost before = *variables;
        let ghost known = states(*variables);
        match variables.find(track.name.as_str()) {
            Some(at) => {
                let state = variables.value_mut(at);
                set_to_start(state, track);
                let ghost now = *state;
                proof {
                    variables.lemma_changed(before, at as int, now);
                    assert(states(*variables) =~= known.insert(track.name@, now@));
                }
            },
            None => {
                let mut state = EmoteVariableState::fresh(
                    track.name.as_str(),
                    evaluate_timeline_variable(track, Single::zero()),
                );
                set_to_start(&mut state, track);
                variables.insert(track.name.clone(), state);
                assert(states(*variables) =~= known.insert(track.name@, state@));
            },
        }
        i = i + 1;
    }
    assert(all.take(i as int) =~= all);
}

fn introduce_timelines(
    variables: &mut TextMap<EmoteVariableState>,
    timelines: &Vec<EmoteTimeline>,
) -> (r: TextMap<EmoteTimeline>)
    requires
        old(variables).wf(),
    ensures
        final(variables).wf(),
        states(*final(variables)) == with_timelines_introduced(
            states(*old(variables)),
            views(timelines@),
        ),
        r.wf(),
        timelines_view(r) == timelines_by_name(views(timelines@)),
{
    let ghost start = states(*variables);
    let ghost all = views(timelines@);
    let mut out: TextMap<EmoteTimeline> = TextMap::new();
    let mut i: usize = 0;
    assert(timelines_view(out) =~= Map::<Seq<char>, Timeline>::empty());
    while i < timelines.len()
        invariant
            i <= timelines@.len(),
            variables.wf(),
            out.wf(),
            all == views(timelines@),
            states(*variables) == with_timelines_introduced(start, all.take(i as int)),
            timelines_view(out) == timelines_by_name(all.take(i as int)),
        decreases timelines@.len() - i,
    {
        assert(all.take(i + 1).drop_last() =~= all.take(i as int));
        assert(all.take(i + 1).last() == timelines@[i as int]@);
        let timeline = &timelines[i];
        introduce_tracks(variables, &timeline.variables);
        let ghost known = timelines_view(out);
        let copy = timeline.duplicate();
        out.insert(timeline.name.clone(), copy);
        assert(timelines_view(out) =~= known.insert(timeline.name@, timeline@));
        i = i + 1;
    }
    assert(all.take(i as int) =~= all);
    out
}

/// What runs of a new player.
struct Runs {
    active: TextMap<TimelinePlayMode>,
    running: TextMap<ActiveTimelineState>,
}

fn start_controls(
    variables: &mut TextMap<EmoteVariableState>,
    timelines: &TextMap<EmoteTimeline>,
) -> (r: Runs)
    requires
        old(variables).wf(),
        timelines.wf(),
    ensures
        final(variables).wf(),
        states(*final(variables)) == with_controls_at_start(
            states(*old(variables)),
            timelines_view(*timelines),
            ordered(timelines_view(*timelines).dom()),
        ),
        r.active.wf(),
        r.active@ == Map::new(
            |k: Seq<char>| control_names(timelines_view(*timelines)).contains(k),
            |k: Seq<char>| TimelinePlayMode::looped(),
        ),
        r.running.wf(),
        r.running@ == Map::new(
            |k: Seq<char>| control_names(timelines_view(*timelines)).contains(k),
            |k: Seq<char>| control_run(),
        ),
{
    let ghost start = states(*variables);
    let ghost map = timelines_view(*timelines);
    let ghost names = keys(timelines.entries@);
    let mut r = Runs { active: TextMap::new(), running: TextMap::new() };
    let mut i: usize = 0;
    proof {
        timelines.lemma_ordered();
        assert(map.dom() =~= timelines@.dom());
    }
    while i < timelines.entries.len()
        invariant
            i <= timelines.entries@.len(),
            timelines.wf(),
            map == timelines_view(*timelines),
            names == keys(timelines.entries@),
            variables.wf(),
            states(*variables) == with_controls_at_start(start, map, names.take(i as int)),
            r.active.wf(),
            r.running.wf(),
            forall|k: Seq<char>| #[trigger]
                r.active@.dom().contains(k) <==> names.take(i as int).contains(k)
                    && drives_controls(k),
            forall|k: Seq<char>| #[trigger]
                r.running@.dom().contains(k) <==> names.take(i as int).contains(k)
                    && drives_controls(k),
            forall|k: Seq<char>| #[trigger]
                r.active@.dom().contains(k) ==> r.active@[k] == TimelinePlayMode::looped(),
            forall|k: Seq<char>| #[trigger]
                r.running@.dom().contains(k) ==> r.running@[k] == control_run(),
        decreases timelines.entries@.len() - i,
    {
        proof {
            let shorter = names.take(i as int);
            let longer = names.take(i + 1);
            assert(longer.drop_last() =~= shorter);
            assert(longer =~= shorter.push(names[i as int]));
            assert forall|k: Seq<char>| #[trigger]
                longer.contains(k) <==> shorter.contains(k) || k == names[i as int] by {
                if shorter.contains(k) {
                    let j = choose|j: int| 0 <= j < shorter.len() && shorter[j] == k;
                    assert(longer[j] == k);
                }
                assert(longer[i as int] == names[i as int]);
            }
            timelines.lemma_entry(i as int);
        }
        let name = timelines.entries[i].0.as_str();
        if is_auto_control_timeline_name(name) {
            r.active.insert(name.to_owned(), TimelinePlayMode::looped());
            r.running.insert(
                name.to_owned(),
                ActiveTimelineState {
                    mode: TimelinePlayMode::looped(),
                    elapsed_ticks: Single::zero(),
                    blend_ratio: Single::one(),
                    blend_target: None,
                },
            );
            set_tracks_to_start(variables, &timelines.entries[i].1.variables);
        }
        i = i + 1;
    }
    proof {
        assert(names.take(i as int) =~= names);
        assert forall|k: Seq<char>| #[trigger] names.contains(k) <==> map.dom().contains(k) by {
            assert(timelines@.dom().contains(k) == timelines.has(k));
        }
        assert(r.active@ =~= Map::new(
            |k: Seq<char>| control_names(map).contains(k),
            |k: Seq<char>| TimelinePlayMode::looped(),
        ));
        assert(r.running@ =~= Map::new(
            |k: Seq<char>| control_names(map).contains(k),
            |k: Seq<char>| control_run(),
        ));
    }
    r
}

/// The clamps of a document.
pub open spec fn document_clamps(root: PsbValue) -> Seq<Clamp> {
    match root.field("metadata") {
        Some(metadata) => clamps_of(items_of(metadata.field("clampControl"))),
        None => Seq::empty(),
    }
}

/// Whether a pipeline is that of a document.
pub open spec fn is_pipeline_of(pipeline: EmoteRuntimePipeline, root: PsbValue) -> bool {
    match root.field("metadata") {
        Some(metadata) => pipeline.reads(*metadata),
        None => pipeline.is_empty(),
    }
}

/// The physics controls of a document have their fields in order.
pub proof fn lemma_fields_in_order(pipeline: EmoteRuntimePipeline, root: PsbValue)
    requires
        is_pipeline_of(pipeline, root),
    ensures
        pipeline.physics_wf(),
{
    let p = pipeline.physics_controls@;
    if let Some(metadata) = root.field("metadata") {
        let bust = objects(items_of(metadata.field("bustControl"))).len();
        let hair = objects(items_of(metadata.field("hairControl"))).len();
        assert forall|i: int| 0 <= i < p.len() implies (#[trigger] p[i]).definition().fields.wf() by {
            if i < bust {
            } else if i < bust + hair {
                assert(p[bust + (i - bust)].definition().fields.wf());
            } else {
                assert(p[bust + hair + (i - bust - hair)].definition().fields.wf());
            }
        }
    }
}

impl ElunaPlayer {
    /// A player of a scene with variables, timelines and controls.
    pub fn from_scene_variables_timelines_runtime(
        scene: EmoteStaticScene,
        infos: Vec<EmoteVariableInfo>,
        timelines: Vec<EmoteTimeline>,
        runtime_pipeline: EmoteRuntimePipeline,
    ) -> (r: ElunaPlayer)
        requires
            runtime_pipeline.clamps_in_order(),
            runtime_pipeline.physics_wf(),
        ensures
            r.wf(),
            r.shown_scene() == scene,
            r.pipeline() == runtime_pipeline,
            r@ == new_player(views(infos@), views(timelines@), runtime_pipeline),
    {
        let ghost row = views(timelines@);
        let ghost all = views(infos@);
        let mut variables = describe_states(infos);
        let timeline_map = introduce_timelines(&mut variables, &timelines);
        let runs = start_controls(&mut variables, &timeline_map);
        let bust_states = init_bust_states(&runtime_pipeline);
        let hair_states = init_hair_states(&runtime_pipeline);
        let mut player = ElunaPlayer {
            shown: true,
            smoothing: true,
            mesh_division_ratio: Single::one(),
            queuing: false,
            color_rgba: 0xffff_ffff,
            grayscale: Single::zero(),
            as_original_scale: false,
            coord_x: Single::zero(),
            coord_y: Single::zero(),
            scale: Single::one(),
            rot: Single::zero(),
            elapsed_ticks: Single::zero(),
            paused: false,
            physics_enabled: true,
            scene,
            variables,
            timelines: timeline_map,
            pending_writes: Vec::new(),
            active_timelines: runs.active,
            active_timeline_states: runs.running,
            timeline_blend_ratios: TextMap::new(),
            runtime_pipeline,
            bust_states,
            hair_states,
            outer_forces: TextMap::new(),
            outer_rot: Single::zero(),
            transform_order_mask: DEFAULT_TRANSFORM_ORDER,
            hair_scale: Single::one(),
            parts_scale: Single::one(),
            bust_scale: Single::one(),
            wind: None,
            modified: false,
            recording_api_log: false,
            replaying_api_log: false,
            api_log: Vec::new(),
        };
        assert(player@.pending =~= Seq::<Write>::empty());
        assert(player@.log =~= Seq::<LogEntry>::empty());
        player.evaluate_runtime_pipeline();
        player
    }

    /// A player of a scene with variables and timelines.
    pub fn from_scene_variables_timelines(
        scene: EmoteStaticScene,
        infos: Vec<EmoteVariableInfo>,
        timelines: Vec<EmoteTimeline>,
    ) -> (r: ElunaPlayer)
        ensures
            r.wf(),
            r.shown_scene() == scene,
            r.pipeline().is_empty(),
            r@ == new_player(views(infos@), views(timelines@), r.pipeline()),
    {
        ElunaPlayer::from_scene_variables_timelines_runtime(
            scene,
            infos,
            timelines,
            EmoteRuntimePipeline::default(),
        )
    }

    /// A player of a scene with variables.
    pub fn from_scene_and_variables(scene: EmoteStaticScene, infos: Vec<EmoteVariableInfo>) -> (r:
        ElunaPlayer)
        ensures
            r.wf(),
            r.shown_scene() == scene,
            r.pipeline().is_empty(),
            r@ == new_player(views(infos@), Seq::empty(), r.pipeline()),
    {
        let timelines: Vec<EmoteTimeline> = Vec::new();
        assert(views(timelines@) =~= Seq::<Timeline>::empty());
        ElunaPlayer::from_scene_variables_timelines(scene, infos, timelines)
    }

    /// A player of a scene alone.
    pub fn from_scene(scene: EmoteStaticScene) -> (r: ElunaPlayer)
        ensures
            r.wf(),
            r.shown_scene() == scene,
            r.pipeline().is_empty(),
            r@ == new_player(Seq::empty(), Seq::empty(), r.pipeline()),
    {
        let infos: Vec<EmoteVariableInfo> = Vec::new();
        assert(views(infos@) =~= Seq::<VarInfo>::empty());
        ElunaPlayer::from_scene_and_variables(scene, infos)
    }

    /// A player of what a document describes. The bounds of its clamps must be in
    /// order.
    pub fn from_psb(root: &PsbValue, depth: usize) -> (r: Result<ElunaPlayer, EmoteSchemaError>)
        requires
            forall|i: int|
                0 <= i < document_clamps(*root).len() ==> (#[trigger] document_clamps(
                    *root,
                )[i]).in_order(),
        ensures
            match r {
                Ok(player) => {
                    &&& player.wf()
                    &&& player.shown_scene().wf()
                    &&& schema_of(*root) matches Ok(schema)
                    &&& static_scene(*root, schema.base_object, schema.textures, depth as nat)
                        == Ok::<Scene, SchemaFault>(player.shown_scene()@)
                    &&& is_pipeline_of(player.pipeline(), *root)
                    &&& exists|infos: Seq<VarInfo>| #[trigger]
                        lists(infos, document_variables(*root)) && player@ == new_player(
                            infos,
                            document_timelines(*root),
                            player.pipeline(),
                        )
                },
                Err(e) => match schema_of(*root) {
                    Err(fault) => fault == e@,
                    Ok(schema) => static_scene(
                        *root,
                        schema.base_object,
                        schema.textures,
                        depth as nat,
                    ) == Err::<Scene, SchemaFault>(e@),
                },
            },
    {
        let (_schema, scene) = match load_emote_static_scene(root, depth) {
            Ok(x) => x,
            Err(e) => {
                return Err(e);
            },
        };
        let pipeline = collect_emote_runtime_pipeline(root);
        proof {
            assert(views(pipeline.clamp_controls@) =~= document_clamps(*root));
            assert forall|i: int| 0 <= i < pipeline.clamp_controls@.len() implies (
            #[trigger] pipeline.clamp_controls@[i])@.in_order() by {
                assert(document_clamps(*root)[i].in_order());
            }
            lemma_fields_in_order(pipeline, *root);
        }
        let infos = collect_emote_variables(root);
        let timelines = collect_emote_timelines(root);
        let ghost row = views(infos@);
        assert(lists(row, document_variables(*root)));
        let player = ElunaPlayer::from_scene_variables_timelines_runtime(
            scene,
            infos,
            timelines,
            pipeline,
        );
        Ok(player)
    }
}

} // verus!
