//! Playing timelines: how they run, how they blend, and what they set.

use crate::api::TimelinePlayMode;
use crate::arrange::views;
use crate::curve::{eased, lerp, unit_clamp};
use crate::drive::states;
use crate::order::{keys, ordered, TextMap};
use crate::single::Single;
use crate::text::{contains_text, texts};
use crate::timelines::{evaluate_timeline_variable, track_value, EmoteTimeline, Timeline, Track};
use crate::variables::{fresh_state, EmoteVariableState, EmoteVariableTarget, VarState};
use vstd::prelude::*;

verus! {

/// Where the share of a timeline is moving.
#[derive(Clone, Copy, Debug, PartialEq, Eq, Structural)]
pub struct TimelineBlendTarget {
    pub start_value: Single,
    pub target_value: Single,
    pub elapsed_ticks: Single,
    pub duration_ticks: Single,
    pub easing: Single,
    pub stop_when_done: bool,
}

/// How a timeline is running.
#[derive(Clone, Copy, Debug)]
pub struct ActiveTimelineState {
    pub mode: TimelinePlayMode,
    pub elapsed_ticks: Single,
    pub blend_ratio: Single,
    pub blend_target: Option<TimelineBlendTarget>,
}

/// A share moved on: how far its way is done, from zero to one.
pub open spec fn spec_way(elapsed: Single, duration: Single) -> Single {
    if duration.le(Single::zero()) {
        Single::one()
    } else {
        unit_clamp(elapsed.over(duration))
    }
}

#[verifier::when_used_as_spec(spec_way)]
pub fn way(elapsed: Single, duration: Single) -> (r: Single)
    ensures
        r == spec_way(elapsed, duration),
{
    if duration.le(Single::zero()) {
        Single::one()
    } else {
        unit_clamp(elapsed.over(duration))
    }
}

impl ActiveTimelineState {
    /// The state with its share moved on; the share itself is held in `[0, 1]`. A
    /// timeline that was to stop once it has faded out goes back to its start.
    pub open spec fn blended(self, delta: Single) -> (ActiveTimelineState, Single) {
        match self.blend_target {
            None => (self, unit_clamp(self.blend_ratio)),
            Some(target) => {
                let elapsed = target.elapsed_ticks.plus(delta.max(Single::zero())).min(
                    target.duration_ticks.max(Single::zero()),
                );
                let t = way(elapsed, target.duration_ticks);
                let ratio = unit_clamp(
                    lerp(target.start_value, target.target_value, eased(t, target.easing)),
                );
                let state = if t.lt(Single::one()) {
                    ActiveTimelineState {
                        blend_target: Some(TimelineBlendTarget { elapsed_ticks: elapsed, ..target }),
                        blend_ratio: ratio,
                        ..self
                    }
                } else {
                    ActiveTimelineState {
                        blend_target: None,
                        blend_ratio: ratio,
                        elapsed_ticks: if target.stop_when_done && ratio.le(Single::zero()) {
                            Single::zero()
                        } else {
                            self.elapsed_ticks
                        },
                        ..self
                    }
                };
                (state, ratio)
            },
        }
    }

    /// The state moved on in time: behind its end a timeline stays there, or runs
    /// round if it loops.
    pub open spec fn advanced(self, delta: Single, duration_ticks: Single) -> ActiveTimelineState {
        let time = self.elapsed_ticks.plus(delta);
        let duration = duration_ticks.max(Single::zero());
        ActiveTimelineState {
            elapsed_ticks: if Single::zero().lt(duration) && duration.lt(time) {
                if self.mode.is_looping() {
                    time.rem_euclid(duration)
                } else {
                    duration
                }
            } else {
                time
            },
            ..self
        }
    }
}

/// Moves the share of a timeline on and gives it.
pub fn advance_timeline_blend(state: &mut ActiveTimelineState, delta: Single) -> (r: Single)
    ensures
        (*final(state), r) == old(state).blended(delta),
{
    let mut target = match state.blend_target {
        Some(t) => t,
        None => {
            return unit_clamp(state.blend_ratio);
        },
    };
    target.elapsed_ticks = target.elapsed_ticks.plus(delta.max(Single::zero())).min(
        target.duration_ticks.max(Single::zero()),
    );
    let t = way(target.elapsed_ticks, target.duration_ticks);
    let ratio = unit_clamp(
        lerp(target.start_value, target.target_value, eased(t, target.easing)),
    );
    state.blend_ratio = ratio;
    if t.lt(Single::one()) {
        state.blend_target = Some(target);
    } else {
        state.blend_target = None;
        if target.stop_when_done && ratio.le(Single::zero()) {
            state.elapsed_ticks = Single::zero();
        }
    }
    ratio
}

/// Moves a timeline on in time.
pub fn advance_timeline(state: &mut ActiveTimelineState, delta: Single, duration_ticks: Single)
    ensures
        *final(state) == old(state).advanced(delta, duration_ticks),
{
    let time = state.elapsed_ticks.plus(delta);
    let duration = duration_ticks.max(Single::zero());
    state.elapsed_ticks = if Single::zero().lt(duration) && duration.lt(time) {
        if state.mode.is_looping() {
            time.rem_euclid(duration)
        } else {
            duration
        }
    } else {
        time
    };
}

/// The timelines of a map by their characters.
pub open spec fn timelines_view(m: TextMap<EmoteTimeline>) -> Map<Seq<char>, Timeline> {
    m@.map_values(|t: EmoteTimeline| t@)
}

/// A variable after a track has set it. Without differences the track moves it away
/// from its default, with them from where it is.
pub open spec fn track_applied(
    state: VarState,
    evaluated: Single,
    difference: bool,
    ratio: Single,
) -> VarState {
    let way = evaluated.minus(state.info.default_value).times(ratio);
    let value = if difference {
        state.value.plus(way)
    } else {
        state.info.default_value.plus(way)
    };
    VarState { value: state.info.clamp(value), target: None, ..state }
}

/// The variables after the first `n` tracks of a timeline; one that is not there is
/// made.
pub open spec fn with_tracks_applied(
    vars: Map<Seq<char>, VarState>,
    tracks: Seq<Track>,
    n: nat,
    time: Single,
    difference: bool,
    ratio: Single,
) -> Map<Seq<char>, VarState>
    decreases n,
{
    if n == 0 || n > tracks.len() {
        vars
    } else {
        let known = with_tracks_applied(vars, tracks, (n - 1) as nat, time, difference, ratio);
        let track = tracks[n - 1];
        let state = if known.dom().contains(track.name) {
            known[track.name]
        } else {
            fresh_state(track.name, Single::zero())
        };
        known.insert(
            track.name,
            track_applied(state, track_value(track.frames, time), difference, ratio),
        )
    }
}

fn apply_track(state: &mut EmoteVariableState, evaluated: Single, difference: bool, ratio: Single)
    ensures
        final(state)@ == track_applied(old(state)@, evaluated, difference, ratio),
{
    let way = evaluated.minus(state.info.default_value).times(ratio);
    let value = if difference {
        state.value.plus(way)
    } else {
        state.info.default_value.plus(way)
    };
    state.value = state.info.clamp(value);
    state.target = None;
}

/// Lets a timeline set its variables.
pub fn apply_timeline_at(
    variables: &mut TextMap<EmoteVariableState>,
    timeline: &EmoteTimeline,
    time: Single,
    mode: TimelinePlayMode,
    blend_ratio: Single,
)
    requires
        old(variables).wf(),
    ensures
        final(variables).wf(),
        states(*final(variables)) == (Play { time, mode, ratio: blend_ratio }).applied(
            states(*old(variables)),
            timeline@,
        ),
{
    let ratio = unit_clamp(blend_ratio);
    let difference = mode.is_difference();
    let ghost start = states(*variables);
    let ghost tracks = timeline@.tracks;
    let mut i: usize = 0;
    while i < timeline.variables.len()
        invariant
            i <= timeline.variables@.len(),
            variables.wf(),
            tracks == views(timeline.variables@),
            states(*variables) == with_tracks_applied(
                start,
                tracks,
                i as nat,
                time,
                difference,
                ratio,
            ),
        decreases timeline.variables@.len() - i,
    {
        let track = &timeline.variables[i];
        assert(tracks[i as int] == track@);
        let evaluated = evaluate_timeline_variable(track, time);
        let ghost before = *variables;
        let ghost known = states(*variables);
        match variables.find(track.name.as_str()) {
            Some(at) => {
                let state = variables.value_mut(at);
                apply_track(state, evaluated, difference, ratio);
                let ghost now = *state;
                proof {
                    variables.lemma_changed(before, at as int, now);
                    assert(states(*variables) =~= known.insert(track.name@, now@));
                }
            },
            None => {
                let mut state = EmoteVariableState::fresh(track.name.as_str(), Single::zero());
                apply_track(&mut state, evaluated, difference, ratio);
                variables.insert(track.name.clone(), state);
                assert(states(*variables) =~= known.insert(track.name@, state@));
            },
        }
        i = i + 1;
    }
}

/// What of a timeline is applied: its time, its mode and its share.
pub struct Play {
    pub time: Single,
    pub mode: TimelinePlayMode,
    pub ratio: Single,
}

impl Play {
    /// The variables after the timeline; the share is held in `[0, 1]`.
    pub open spec fn applied(self, vars: Map<Seq<char>, VarState>, timeline: Timeline) -> Map<
        Seq<char>,
        VarState,
    > {
        with_tracks_applied(
            vars,
            timeline.tracks,
            timeline.tracks.len(),
            self.time,
            self.mode.is_difference(),
            unit_clamp(self.ratio),
        )
    }
}

/// The variables after those of the first `n` named timelines that are known and
/// that do or do not add differences.
pub open spec fn after_plays(
    vars: Map<Seq<char>, VarState>,
    timelines: Map<Seq<char>, Timeline>,
    plays: Map<Seq<char>, Play>,
    order: Seq<Seq<char>>,
    n: nat,
    difference: bool,
) -> Map<Seq<char>, VarState>
    decreases n,
{
    if n == 0 || n > order.len() {
        vars
    } else {
        let known = after_plays(vars, timelines, plays, order, (n - 1) as nat, difference);
        let name = order[n - 1];
        if timelines.dom().contains(name) && plays[name].mode.is_difference() == difference {
            plays[name].applied(known, timelines[name])
        } else {
            known
        }
    }
}

/// The variables after all timelines, by name: first those without differences.
pub open spec fn after_all_plays(
    vars: Map<Seq<char>, VarState>,
    timelines: Map<Seq<char>, Timeline>,
    plays: Map<Seq<char>, Play>,
) -> Map<Seq<char>, VarState> {
    let order = ordered(plays.dom());
    after_plays(
        after_plays(vars, timelines, plays, order, order.len(), false),
        timelines,
        plays,
        order,
        order.len(),
        true,
    )
}

/// Whether a timeline has a track for the variable.
pub open spec fn tracks_variable(timeline: Timeline, name: Seq<char>) -> bool {
    exists|i: int| 0 <= i < timeline.tracks.len() && (#[trigger] timeline.tracks[i]).name == name
}

/// Whether any timeline has a track for the variable.
pub open spec fn is_tracked(timelines: Map<Seq<char>, Timeline>, name: Seq<char>) -> bool {
    exists|k: Seq<char>| #[trigger]
        timelines.dom().contains(k) && tracks_variable(timelines[k], name)
}

/// The variables with those that any timeline has a track for at their defaults.
pub open spec fn tracked_reset(
    vars: Map<Seq<char>, VarState>,
    timelines: Map<Seq<char>, Timeline>,
) -> Map<Seq<char>, VarState> {
    Map::new(
        |k: Seq<char>| vars.dom().contains(k),
        |k: Seq<char>|
            if is_tracked(timelines, k) {
                vars[k].at_default()
            } else {
                vars[k]
            },
    )
}

impl VarState {
    /// At the default, moving nowhere.
    pub open spec fn at_default(self) -> VarState {
        VarState { value: self.info.default_value, target: None, ..self }
    }

    /// At the end of its way.
    pub open spec fn settled(self) -> VarState {
        match self.target {
            Some(t) => VarState { value: t.target_value, target: None, ..self },
            None => self,
        }
    }

    /// Moved on along its way.
    pub open spec fn moved_on(self, delta: Single) -> VarState {
        match self.target {
            None => self,
            Some(target) => {
                let elapsed = target.elapsed_ticks.plus(delta).min(
                    target.duration_ticks.max(Single::zero()),
                );
                let t = way(elapsed, target.duration_ticks);
                VarState {
                    value: self.info.clamp(
                        lerp(target.start_value, target.target_value, eased(t, target.easing)),
                    ),
                    target: if t.lt(Single::one()) {
                        Some(EmoteVariableTarget { elapsed_ticks: elapsed, ..target })
                    } else {
                        None
                    },
                    ..self
                }
            },
        }
    }
}

/// A change of every variable.
pub enum VarChange<'a> {
    /// To the default.
    Reset,
    /// To the default for those with one of the names.
    ResetNamed(&'a Vec<String>),
    /// To the end of its way.
    Settle,
    /// On along its way.
    MoveOn(Single),
}

impl<'a> VarChange<'a> {
    pub open spec fn changed(self, name: Seq<char>, state: VarState) -> VarState {
        match self {
            VarChange::Reset => state.at_default(),
            VarChange::ResetNamed(names) => if texts(names@).contains(name) {
                state.at_default()
            } else {
                state
            },
            VarChange::Settle => state.settled(),
            VarChange::MoveOn(delta) => state.moved_on(delta),
        }
    }

    fn apply(&self, name: &String, state: &mut EmoteVariableState)
        ensures
            final(state)@ == self.changed(name@, old(state)@),
    {
        match self {
            VarChange::Reset => {
                state.value = state.info.default_value;
                state.target = None;
            },
            VarChange::ResetNamed(names) => {
                if contains_text(names, name.as_str()) {
                    state.value = state.info.default_value;
                    state.target = None;
                }
            },
            VarChange::Settle => {
                if let Some(t) = state.target {
                    state.value = t.target_value;
                    state.target = None;
                }
            },
            VarChange::MoveOn(delta) => {
                if let Some(target) = state.target {
                    let elapsed = target.elapsed_ticks.plus(*delta).min(
                        target.duration_ticks.max(Single::zero()),
                    );
                    let t = way(elapsed, target.duration_ticks);
                    state.value = state.info.clamp(
                        lerp(target.start_value, target.target_value, eased(t, target.easing)),
                    );
                    state.target = if t.lt(Single::one()) {
                        Some(EmoteVariableTarget { elapsed_ticks: elapsed, ..target })
                    } else {
                        None
                    };
                }
            },
        }
    }
}

/// The variables after a change of each.
pub open spec fn all_changed(vars: Map<Seq<char>, VarState>, change: VarChange) -> Map<
    Seq<char>,
    VarState,
> {
    Map::new(
        |k: Seq<char>| vars.dom().contains(k),
        |k: Seq<char>| change.changed(k, vars[k]),
    )
}

/// Changes every variable.
pub fn change_all(variables: &mut TextMap<EmoteVariableState>, change: VarChange)
    requires
        old(variables).wf(),
    ensures
        final(variables).wf(),
        states(*final(variables)) == all_changed(states(*old(variables)), change),
{
    let ghost start = *variables;
    let mut i: usize = 0;
    while i < variables.entries.len()
        invariant
            i <= variables.entries@.len(),
            start.wf(),
            variables.entries@.len() == start.entries@.len(),
            forall|j: int|
                0 <= j < start.entries@.len() ==> (#[trigger] variables.entries@[j]).0
                    == start.entries@[j].0,
            forall|j: int|
                0 <= j < i ==> (#[trigger] variables.entries@[j]).1@ == change.changed(
                    start.entries@[j].0@,
                    start.entries@[j].1@,
                ),
            forall|j: int|
                i <= j < start.entries@.len() ==> (#[trigger] variables.entries@[j]).1
                    == start.entries@[j].1,
        decreases variables.entries@.len() - i,
    {
        let name = variables.entries[i].0.clone();
        let state = variables.value_mut(i);
        change.apply(&name, state);
        i = i + 1;
    }
    proof {
        assert(keys(variables.entries@) =~= keys(start.entries@));
        let now = states(*variables);
        let want = all_changed(states(start), change);
        assert forall|k: Seq<char>| now.dom().contains(k) == want.dom().contains(k) by {
            assert(variables.has(k) == start.has(k));
        }
        assert forall|k: Seq<char>| #[trigger] now.dom().contains(k) implies now[k] == want[k] by {
            start.lemma_position(k);
            variables.lemma_position(k);
        }
        assert(now =~= want);
    }
}

/// The names of all variables that any timeline has a track for.
fn tracked_names(timelines: &TextMap<EmoteTimeline>) -> (r: Vec<String>)
    requires
        timelines.wf(),
    ensures
        forall|n: Seq<char>|
            texts(r@).contains(n) <==> is_tracked(timelines_view(*timelines), n),
{
    let mut r: Vec<String> = Vec::new();
    let ghost known = timelines_view(*timelines);
    let mut i: usize = 0;
    while i < timelines.entries.len()
        invariant
            i <= timelines.entries@.len(),
            forall|n: Seq<char>| #[trigger]
                texts(r@).contains(n) <==> exists|j: int|
                    0 <= j < i && tracks_variable((#[trigger] timelines.entries@[j]).1@, n),
        decreases timelines.entries@.len() - i,
    {
        let ghost before = texts(r@);
        let ghost timeline = timelines.entries@[i as int].1@;
        let tracks = &timelines.entries[i].1.variables;
        let mut k: usize = 0;
        while k < tracks.len()
            invariant
                k <= tracks@.len(),
                timeline.tracks == views(tracks@),
                forall|n: Seq<char>| #[trigger]
                    texts(r@).contains(n) <==> before.contains(n) || exists|j: int|
                        0 <= j < k && (#[trigger] timeline.tracks[j]).name == n,
            decreases tracks@.len() - k,
        {
            let ghost was = texts(r@);
            r.push(tracks[k].name.clone());
            proof {
                let added = tracks@[k as int].name@;
                assert(texts(r@) =~= was.push(added));
                assert(timeline.tracks[k as int].name == added);
                assert forall|n: Seq<char>| #[trigger]
                    texts(r@).contains(n) <==> before.contains(n) || exists|j: int|
                        0 <= j < k + 1 && (#[trigger] timeline.tracks[j]).name == n by {
                    lemma_push_contains(was, added, n);
                    if exists|j: int| 0 <= j < k + 1 && (#[trigger] timeline.tracks[j]).name == n {
                        let j = choose|j: int|
                            0 <= j < k + 1 && (#[trigger] timeline.tracks[j]).name == n;
                        if j < k {
                            assert(was.contains(n));
                        }
                    }
                }
            }
            k = k + 1;
        }
        proof {
            assert forall|n: Seq<char>| #[trigger]
                texts(r@).contains(n) <==> exists|j: int|
                    0 <= j < i + 1 && tracks_variable((#[trigger] timelines.entries@[j]).1@, n) by {
                if texts(r@).contains(n) {
                    if before.contains(n) {
                        let j = choose|j: int|
                            0 <= j < i && tracks_variable((#[trigger] timelines.entries@[j]).1@, n);
                        assert(0 <= j < i + 1 && tracks_variable(timelines.entries@[j].1@, n));
                    } else {
                        assert(tracks_variable(timelines.entries@[i as int].1@, n));
                    }
                }
                if exists|j: int|
                    0 <= j < i + 1 && tracks_variable((#[trigger] timelines.entries@[j]).1@, n) {
                    let j = choose|j: int|
                        0 <= j < i + 1 && tracks_variable((#[trigger] timelines.entries@[j]).1@, n);
                    if j < i {
                        assert(before.contains(n));
                    }
                }
            }
        }
        i = i + 1;
    }
    proof {
        assert forall|n: Seq<char>|
            texts(r@).contains(n) <==> is_tracked(known, n) by {
            if texts(r@).contains(n) {
                let j = choose|j: int|
                    0 <= j < timelines.entries@.len() && tracks_variable(
                        (#[trigger] timelines.entries@[j]).1@,
                        n,
                    );
                timelines.lemma_entry(j);
                assert(known.dom().contains(timelines.entries@[j].0@));
            }
            if is_tracked(known, n) {
                let k = choose|k: Seq<char>| #[trigger]
                    known.dom().contains(k) && tracks_variable(known[k], n);
                timelines.lemma_position(k);
                let p = timelines.position(k);
                assert(tracks_variable(timelines.entries@[p].1@, n));
            }
        }
    }
    r
}

proof fn lemma_push_contains(s: Seq<Seq<char>>, x: Seq<char>, n: Seq<char>)
    ensures
        s.push(x).contains(n) <==> s.contains(n) || x == n,
{
    let t = s.push(x);
    if s.contains(n) {
        let j = choose|j: int| 0 <= j < s.len() && s[j] == n;
        assert(t[j] == n);
    }
    if x == n {
        assert(t[s.len() as int] == n);
    }
    if t.contains(n) {
        let j = choose|j: int| 0 <= j < t.len() && t[j] == n;
        if j < s.len() {
            assert(s[j] == n);
        }
    }
}

/// Sets the variables that any timeline has a track for to their defaults.
pub fn reset_timeline_variables_to_default(
    variables: &mut TextMap<EmoteVariableState>,
    timelines: &TextMap<EmoteTimeline>,
)
    requires
        old(variables).wf(),
        timelines.wf(),
    ensures
        final(variables).wf(),
        states(*final(variables)) == tracked_reset(
            states(*old(variables)),
            timelines_view(*timelines),
        ),
{
    let names = tracked_names(timelines);
    let ghost start = states(*variables);
    change_all(variables, VarChange::ResetNamed(&names));
    assert(states(*variables) =~= tracked_reset(start, timelines_view(*timelines)));
}

/// A timeline that is applied.
pub struct PlayEntry {
    pub name: String,
    pub time: Single,
    pub mode: TimelinePlayMode,
    pub ratio: Single,
}

/// The names of a row of applied timelines.
pub open spec fn play_names(row: Seq<PlayEntry>) -> Seq<Seq<char>> {
    row.map_values(|p: PlayEntry| p.name@)
}

/// Whether a row lists the plays of a map in ascending order of their names.
pub open spec fn lists_plays(row: Seq<PlayEntry>, plays: Map<Seq<char>, Play>) -> bool {
    &&& play_names(row) == ordered(plays.dom())
    &&& forall|i: int|
        0 <= i < row.len() ==> plays[(#[trigger] row[i]).name@] == (Play {
            time: row[i].time,
            mode: row[i].mode,
            ratio: row[i].ratio,
        })
}

fn apply_pass(
    variables: &mut TextMap<EmoteVariableState>,
    timelines: &TextMap<EmoteTimeline>,
    row: &Vec<PlayEntry>,
    difference: bool,
    Ghost(plays): Ghost<Map<Seq<char>, Play>>,
)
    requires
        old(variables).wf(),
        timelines.wf(),
        lists_plays(row@, plays),
    ensures
        final(variables).wf(),
        states(*final(variables)) == after_plays(
            states(*old(variables)),
            timelines_view(*timelines),
            plays,
            ordered(plays.dom()),
            ordered(plays.dom()).len(),
            difference,
        ),
{
    let ghost start = states(*variables);
    let ghost known = timelines_view(*timelines);
    let ghost order = ordered(plays.dom());
    let mut i: usize = 0;
    while i < row.len()
        invariant
            i <= row@.len(),
            variables.wf(),
            timelines.wf(),
            known == timelines_view(*timelines),
            order == ordered(plays.dom()),
            order == play_names(row@),
            lists_plays(row@, plays),
            states(*variables) == after_plays(start, known, plays, order, i as nat, difference),
        decreases row@.len() - i,
    {
        let p = &row[i];
        assert(order[i as int] == p.name@);
        if p.mode.is_difference() == difference {
            if let Some(timeline) = timelines.get(p.name.as_str()) {
                apply_timeline_at(variables, timeline, p.time, p.mode, p.ratio);
            }
        }
        i = i + 1;
    }
}

/// Applies a row of timelines to variables at their defaults.
pub(crate) fn apply_plays(
    variables: &mut TextMap<EmoteVariableState>,
    timelines: &TextMap<EmoteTimeline>,
    row: &Vec<PlayEntry>,
    Ghost(plays): Ghost<Map<Seq<char>, Play>>,
)
    requires
        old(variables).wf(),
        timelines.wf(),
        lists_plays(row@, plays),
    ensures
        final(variables).wf(),
        states(*final(variables)) == after_all_plays(
            tracked_reset(states(*old(variables)), timelines_view(*timelines)),
            timelines_view(*timelines),
            plays,
        ),
{
    reset_timeline_variables_to_default(variables, timelines);
    apply_pass(variables, timelines, row, false, Ghost(plays));
    apply_pass(variables, timelines, row, true, Ghost(plays));
}

} // verus!
