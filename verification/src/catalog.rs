//! The variables of a document, and the values that they start with.

use crate::arrange::views;
use crate::order::{ascending, keys, TextMap};
use crate::show::{show_thousandths, thousandths_text};
use crate::single::Single;
use crate::timelines::{
    collect_emote_timelines, document_timelines, EmoteTimeline, EmoteTimelineFrame,
    EmoteTimelineVariable, Timeline, Track,
};
use crate::tree::{control_key, control_keys, control_leaves, members, nodes};
use crate::value::PsbValue;
use crate::variables::{
    collect_control_variables, collect_mesh_combinator_variables, collect_parameter_variables,
    collect_variable_list, find_greatest, find_least, greatest, infos_by_name, least,
    merge_variable_info, with_all, with_controls, with_info, with_meshes, with_parameters,
    EmoteVariableFrameInfo, EmoteVariableInfo, FrameLabel, VarInfo,
};
use vstd::prelude::*;

verus! {

/// The frames of a track, labelled by their times.
pub open spec fn timed_labels(frames: Seq<EmoteTimelineFrame>) -> Seq<FrameLabel> {
    frames.map_values(
        |f: EmoteTimelineFrame| FrameLabel { label: thousandths_text(f.time_ticks), value: f.value },
    )
}

/// The variable that a track describes.
pub open spec fn track_info(track: Track) -> VarInfo {
    let frames = timed_labels(track.frames);
    VarInfo {
        name: track.name,
        default_value: if track.frames.len() > 0 {
            track.frames[0].value
        } else {
            Single::zero()
        },
        min_value: least(frames),
        max_value: greatest(frames),
        frames,
    }
}

/// The variables with the one that a track describes.
pub open spec fn with_track(m: Map<Seq<char>, VarInfo>, track: Track) -> Map<Seq<char>, VarInfo> {
    if track.name.len() == 0 {
        m
    } else {
        with_info(m, track_info(track))
    }
}

pub fn merge_timeline_variable_info(
    variable: &EmoteTimelineVariable,
    out: &mut TextMap<EmoteVariableInfo>,
)
    requires
        old(out).wf(),
    ensures
        final(out).wf(),
        infos_by_name(*final(out)) == with_track(infos_by_name(*old(out)), variable@),
{
    if variable.name.as_str().is_empty() {
        return;
    }
    let mut frames: Vec<EmoteVariableFrameInfo> = Vec::new();
    let mut i: usize = 0;
    let ghost want = timed_labels(variable.frames@);
    while i < variable.frames.len()
        invariant
            i <= variable.frames@.len(),
            frames@.len() == i,
            want == timed_labels(variable.frames@),
            views(frames@) == want.take(i as int),
        decreases variable.frames@.len() - i,
    {
        let frame = variable.frames[i];
        frames.push(
            EmoteVariableFrameInfo {
                label: show_thousandths(frame.time_ticks),
                value: frame.value,
            },
        );
        assert(frames@[i as int]@ == want[i as int]);
        assert(views(frames@) =~= want.take(i + 1));
        i = i + 1;
    }
    assert(want.take(i as int) =~= want);
    let default_value = if variable.frames.len() > 0 {
        variable.frames[0].value
    } else {
        Single::zero()
    };
    let next = EmoteVariableInfo {
        name: variable.name.clone(),
        default_value,
        min_value: find_least(&frames),
        max_value: find_greatest(&frames),
        frames,
    };
    merge_variable_info(next, out);
}

/// The variables with those that a row of tracks describes.
pub open spec fn with_tracks(m: Map<Seq<char>, VarInfo>, tracks: Seq<Track>) -> Map<
    Seq<char>,
    VarInfo,
>
    decreases tracks.len(),
{
    if tracks.len() == 0 {
        m
    } else {
        with_track(with_tracks(m, tracks.drop_last()), tracks.last())
    }
}

/// The variables with those that the tracks of a row of timelines describe.
pub open spec fn with_timelines(m: Map<Seq<char>, VarInfo>, row: Seq<Timeline>) -> Map<
    Seq<char>,
    VarInfo,
>
    decreases row.len(),
{
    if row.len() == 0 {
        m
    } else {
        with_tracks(with_timelines(m, row.drop_last()), row.last().tracks)
    }
}

fn merge_tracks(variables: &Vec<EmoteTimelineVariable>, out: &mut TextMap<EmoteVariableInfo>)
    requires
        old(out).wf(),
    ensures
        final(out).wf(),
        infos_by_name(*final(out)) == with_tracks(infos_by_name(*old(out)), views(variables@)),
{
    let ghost start = infos_by_name(*out);
    let ghost all = views(variables@);
    let mut i: usize = 0;
    while i < variables.len()
        invariant
            i <= variables@.len(),
            out.wf(),
            all == views(variables@),
            infos_by_name(*out) == with_tracks(start, all.take(i as int)),
        decreases variables@.len() - i,
    {
        assert(all.take(i + 1).drop_last() =~= all.take(i as int));
        assert(all.take(i + 1).last() == variables@[i as int]@);
        merge_timeline_variable_info(&variables[i], out);
        i = i + 1;
    }
    assert(all.take(i as int) =~= all);
}

/// The variables with those of the first `n` control fields of the metadata.
pub open spec fn with_control_variables(
    m: Map<Seq<char>, VarInfo>,
    metadata: PsbValue,
    n: nat,
) -> Map<Seq<char>, VarInfo>
    decreases n,
{
    if n == 0 {
        m
    } else {
        let rest = with_control_variables(m, metadata, (n - 1) as nat);
        match metadata.named(control_keys()[n - 1]) {
            Some(control) => with_controls(rest, nodes(*control, control_leaves())),
            None => rest,
        }
    }
}

/// The variables that the metadata of a document describes.
pub open spec fn metadata_variables(root: PsbValue) -> Map<Seq<char>, VarInfo> {
    match root.field("metadata") {
        None => Map::empty(),
        Some(metadata) => {
            let listed = with_all(
                with_all(
                    with_all(Map::empty(), members(metadata.field("variableList"))),
                    members(metadata.field("instantVariableList")),
                ),
                members(metadata.field("physicsVariableList")),
            );
            let timed = match metadata.field("timelineControl") {
                Some(control) => with_controls(
                    with_all(listed, members(control.field("variableList"))),
                    nodes(*control, control_leaves()),
                ),
                None => listed,
            };
            with_control_variables(timed, *metadata, 12)
        },
    }
}

/// The variables that a document describes.
pub open spec fn document_variables(root: PsbValue) -> Map<Seq<char>, VarInfo> {
    let listed = with_all(
        with_all(metadata_variables(root), members(root.field("parameter"))),
        members(root.field("parameters")),
    );
    let nested = with_meshes(
        with_parameters(listed, nodes(root, seq!["parameter"@])),
        nodes(root, Seq::empty()),
    );
    with_timelines(nested, document_timelines(root))
}

/// Whether a row lists the variables of a map in ascending order of their keys.
pub open spec fn lists(row: Seq<VarInfo>, m: Map<Seq<char>, VarInfo>) -> bool {
    exists|order: Seq<Seq<char>>|
        #![trigger ascending(order)]
        {
            &&& ascending(order)
            &&& order.len() == row.len()
            &&& forall|k: Seq<char>| m.dom().contains(k) <==> order.contains(k)
            &&& forall|i: int| 0 <= i < row.len() ==> m[#[trigger] order[i]] == row[i]
        }
}

fn collect_metadata_variables(root: &PsbValue) -> (r: TextMap<EmoteVariableInfo>)
    ensures
        r.wf(),
        infos_by_name(r) == metadata_variables(*root),
{
    let mut out: TextMap<EmoteVariableInfo> = TextMap::new();
    assert(infos_by_name(out) =~= Map::<Seq<char>, VarInfo>::empty());
    if let Some(metadata) = root.field("metadata") {
        collect_variable_list(metadata.field("variableList"), &mut out);
        collect_variable_list(metadata.field("instantVariableList"), &mut out);
        collect_variable_list(metadata.field("physicsVariableList"), &mut out);
        if let Some(control) = metadata.field("timelineControl") {
            collect_variable_list(control.field("variableList"), &mut out);
            collect_control_variables(control, &mut out);
        }
        let ghost timed = infos_by_name(out);
        let mut i: usize = 0;
        while i < 12
            invariant
                i <= 12,
                out.wf(),
                infos_by_name(out) == with_control_variables(timed, *metadata, i as nat),
            decreases 12 - i,
        {
            if let Some(control) = metadata.field(control_key(i)) {
                collect_control_variables(control, &mut out);
            }
            i = i + 1;
        }
    }
    out
}

/// The values of a map in the order of their keys.
fn list_infos(m: &TextMap<EmoteVariableInfo>) -> (r: Vec<EmoteVariableInfo>)
    requires
        m.wf(),
    ensures
        lists(views(r@), infos_by_name(*m)),
{
    let mut r: Vec<EmoteVariableInfo> = Vec::new();
    let mut i: usize = 0;
    while i < m.entries.len()
        invariant
            i <= m.entries@.len(),
            r@.len() == i,
            forall|j: int| 0 <= j < i ==> (#[trigger] r@[j])@ == m.entries@[j].1@,
        decreases m.entries@.len() - i,
    {
        r.push(m.entries[i].1.duplicate());
        i = i + 1;
    }
    proof {
        let order = keys(m.entries@);
        let infos = infos_by_name(*m);
        assert(ascending(order));
        assert forall|k: Seq<char>| infos.dom().contains(k) <==> order.contains(k) by {
            assert(m@.dom().contains(k) == m.has(k));
        }
        assert forall|j: int| 0 <= j < r@.len() implies infos[#[trigger] order[j]] == views(r@)[j] by {
            m.lemma_entry(j);
        }
    }
    r
}

/// Gathers the variables that a document describes.
pub fn collect_emote_variables(root: &PsbValue) -> (r: Vec<EmoteVariableInfo>)
    ensures
        lists(views(r@), document_variables(*root)),
{
    let mut out = collect_metadata_variables(root);
    collect_variable_list(root.field("parameter"), &mut out);
    collect_variable_list(root.field("parameters"), &mut out);
    collect_parameter_variables(root, &mut out);
    collect_mesh_combinator_variables(root, &mut out);
    let timelines = collect_emote_timelines(root);
    let ghost start = infos_by_name(out);
    let ghost all = views(timelines@);
    let mut i: usize = 0;
    while i < timelines.len()
        invariant
            i <= timelines@.len(),
            out.wf(),
            all == views(timelines@),
            infos_by_name(out) == with_timelines(start, all.take(i as int)),
        decreases timelines@.len() - i,
    {
        assert(all.take(i + 1).drop_last() =~= all.take(i as int));
        assert(all.take(i + 1).last() == timelines@[i as int]@);
        merge_tracks(&timelines[i].variables, &mut out);
        i = i + 1;
    }
    assert(all.take(i as int) =~= all);
    list_infos(&out)
}

/// The default value of each variable.
pub open spec fn default_values(infos: Seq<VarInfo>) -> Map<Seq<char>, Single>
    decreases infos.len(),
{
    if infos.len() == 0 {
        Map::empty()
    } else {
        default_values(infos.drop_last()).insert(infos.last().name, infos.last().default_value)
    }
}

/// The values with the first one of each track.
pub open spec fn with_first_values(m: Map<Seq<char>, Single>, tracks: Seq<Track>) -> Map<
    Seq<char>,
    Single,
>
    decreases tracks.len(),
{
    if tracks.len() == 0 {
        m
    } else {
        let rest = with_first_values(m, tracks.drop_last());
        if tracks.last().frames.len() > 0 {
            rest.insert(tracks.last().name, tracks.last().frames[0].value)
        } else {
            rest
        }
    }
}

/// The values that variables start with: their defaults, and behind them the first
/// value of every track.
pub open spec fn starting_values(infos: Seq<VarInfo>, timelines: Seq<Timeline>) -> Map<
    Seq<char>,
    Single,
>
    decreases timelines.len(),
{
    if timelines.len() == 0 {
        default_values(infos)
    } else {
        with_first_values(starting_values(infos, timelines.drop_last()), timelines.last().tracks)
    }
}

/// The default value of each variable.
pub fn default_variable_values(infos: &Vec<EmoteVariableInfo>) -> (r: TextMap<Single>)
    ensures
        r.wf(),
        r@ == default_values(views(infos@)),
{
    let mut r: TextMap<Single> = TextMap::new();
    let ghost all = views(infos@);
    let mut i: usize = 0;
    while i < infos.len()
        invariant
            i <= infos@.len(),
            r.wf(),
            all == views(infos@),
            r@ == default_values(all.take(i as int)),
        decreases infos@.len() - i,
    {
        assert(all.take(i + 1).drop_last() =~= all.take(i as int));
        assert(all.take(i + 1).last() == infos@[i as int]@);
        r.insert(infos[i].name.clone(), infos[i].default_value);
        i = i + 1;
    }
    assert(all.take(i as int) =~= all);
    r
}

fn set_first_values(tracks: &Vec<EmoteTimelineVariable>, values: &mut TextMap<Single>)
    requires
        old(values).wf(),
    ensures
        final(values).wf(),
        final(values)@ == with_first_values(old(values)@, views(tracks@)),
{
    let ghost start = values@;
    let ghost all = views(tracks@);
    let mut i: usize = 0;
    while i < tracks.len()
        invariant
            i <= tracks@.len(),
            values.wf(),
            all == views(tracks@),
            values@ == with_first_values(start, all.take(i as int)),
        decreases tracks@.len() - i,
    {
        assert(all.take(i + 1).drop_last() =~= all.take(i as int));
        assert(all.take(i + 1).last() == tracks@[i as int]@);
        if tracks[i].frames.len() > 0 {
            values.insert(tracks[i].name.clone(), tracks[i].frames[0].value);
        }
        i = i + 1;
    }
    assert(all.take(i as int) =~= all);
}

/// The values that variables start with.
pub fn initial_variable_values(
    infos: &Vec<EmoteVariableInfo>,
    timelines: &Vec<EmoteTimeline>,
) -> (r: TextMap<Single>)
    ensures
        r.wf(),
        r@ == starting_values(views(infos@), views(timelines@)),
{
    let mut values = default_variable_values(infos);
    let ghost all = views(timelines@);
    let mut i: usize = 0;
    assert(all.take(0) =~= Seq::<Timeline>::empty());
    while i < timelines.len()
        invariant
            i <= timelines@.len(),
            values.wf(),
            all == views(timelines@),
            values@ == starting_values(views(infos@), all.take(i as int)),
        decreases timelines@.len() - i,
    {
        assert(all.take(i + 1).drop_last() =~= all.take(i as int));
        assert(all.take(i + 1).last() == timelines@[i as int]@);
        set_first_values(&timelines[i].variables, &mut values);
        i = i + 1;
    }
    assert(all.take(i as int) =~= all);
    values
}

} // verus!
