//! What holds of a player whatever it is told.

use crate::api::{entry_of, lemma_entry_round_trip, LogEntry, TimelinePlayMode};
use crate::calls::{share_sent, truth_text};
use crate::controls::EmoteRuntimePipeline;
use crate::curve::unit_clamp;
use crate::decimal::decimal_number;
use crate::numerals::{decimal, lemma_decimal_round_trip};
use crate::playback::{ActiveTimelineState, VarChange};
use crate::player::{drives_controls, OuterForce, Player};
use crate::replay::{
    blend_command, command_of, coord_command, force_command, gravity_command, module_command,
    play_command, truth_of, variable_command, Command,
};
use crate::reread::{lemma_digits_are_digits, lemma_number_round_trip, lemma_written_out_reads};
use crate::show::{number_text, shortest, without_zeros, written_out};
use crate::single::Single;
use crate::text::{joined, trimmed};
use crate::variables::{VarInfo, VarState};
use vstd::prelude::*;

verus! {

/// Holding a value in a range twice is holding it once.
pub proof fn lemma_clamp_twice(info: VarInfo, value: Single)
    ensures
        info.clamp(info.clamp(value)) == info.clamp(value),
{
}

/// A variable with a range from a minimum to a maximum not below it keeps every number
/// in that range.
pub proof fn lemma_clamp_in_range(info: VarInfo, value: Single)
    requires
        info.min_value is Some,
        info.max_value is Some,
        info.min_value->0.le(info.max_value->0),
    ensures
        info.min_value->0.le(info.clamp(value)),
        info.clamp(value).le(info.max_value->0),
{
}

/// Whether a variable with a range lies in it.
pub open spec fn in_range(state: VarState) -> bool {
    state.info.min_value is Some && state.info.max_value is Some
        && state.info.min_value->0.le(state.info.max_value->0) ==> {
        &&& state.info.min_value->0.le(state.value)
        &&& state.value.le(state.info.max_value->0)
    }
}

/// A write that takes effect at once leaves the variable in its range, and at the
/// value written where that lies in the range.
pub proof fn lemma_written_in_range(
    player: Player,
    name: Seq<char>,
    value: Single,
    time: Single,
    easing: Single,
)
    requires
        player.takes(name, value),
        time.le(Single::zero()) || !time.is_finite(),
    ensures
        in_range(player.variable_sent(name, value, time, easing).vars[name]),
        player.variable_sent(name, value, time, easing).vars[name].target is None,
        ({
            let info = player.variable(name).info;
            info.clamp(value) == value ==> player.variable_sent(name, value, time, easing).vars[name].value
                == value
        }),
{
    let info = player.variable(name).info;
    if info.min_value is Some && info.max_value is Some && info.min_value->0.le(
        info.max_value->0,
    ) {
        lemma_clamp_in_range(info, value);
    }
}

/// A variable stays in its range while it moves toward a target.
pub proof fn lemma_moved_in_range(state: VarState, delta: Single)
    requires
        in_range(state),
    ensures
        in_range(state.moved_on(delta)),
{
    if let Some(target) = state.target {
        let info = state.info;
        if info.min_value is Some && info.max_value is Some && info.min_value->0.le(
            info.max_value->0,
        ) {
            let elapsed = target.elapsed_ticks.plus(delta).min(
                target.duration_ticks.max(Single::zero()),
            );
            let t = crate::playback::way(elapsed, target.duration_ticks);
            lemma_clamp_in_range(
                info,
                crate::curve::lerp(
                    target.start_value,
                    target.target_value,
                    crate::curve::eased(t, target.easing),
                ),
            );
        }
    }
}

/// After a skip no variable is on its way, and each one that was is at its target.
/// A second skip changes nothing.
pub proof fn lemma_skip_arrives(player: Player, name: Seq<char>)
    requires
        player.vars.dom().contains(name),
    ensures
        player.skipped().vars.dom() == player.vars.dom(),
        player.skipped().vars[name].target is None,
        player.skipped().vars[name].value == (match player.vars[name].target {
            Some(t) => t.target_value,
            None => player.vars[name].value,
        }),
        player.skipped().skipped() == player.skipped(),
{
    assert(player.skipped().vars.dom() =~= player.vars.dom());
    let once = player.skipped();
    assert forall|k: Seq<char>| player.vars.dom().contains(k) implies #[trigger]
        once.skipped().vars[k] == once.vars[k] by {
        assert(once.vars[k] == VarChange::Settle.changed(k, player.vars[k]));
    }
    assert(once.skipped().vars =~= once.vars);
}

/// Playing a main timeline leaves it as the only main timeline: every other one that
/// plays adds differences or drives controls.
pub proof fn lemma_one_main_timeline(
    player: Player,
    name: Seq<char>,
    mode: TimelinePlayMode,
    pipeline: EmoteRuntimePipeline,
    other: Seq<char>,
)
    requires
        name.len() > 0,
        !mode.is_difference(),
        !drives_controls(name),
    ensures
        player.played(name, mode, pipeline).active.dom().contains(name),
        player.played(name, mode, pipeline).active[name] == mode,
        player.played(name, mode, pipeline).running[name].elapsed_ticks == Single::zero(),
        player.played(name, mode, pipeline).active.dom().contains(other) && other != name
            ==> drives_controls(other) || player.played(
            name,
            mode,
            pipeline,
        ).active[other].is_difference(),
{
    reveal(Player::cleared_for);
    reveal(Player::with_running);
}

/// Playing a timeline of differences or one that drives controls stops no other.
pub proof fn lemma_side_timeline_stops_none(
    player: Player,
    name: Seq<char>,
    mode: TimelinePlayMode,
    pipeline: EmoteRuntimePipeline,
    other: Seq<char>,
)
    requires
        mode.is_difference() || drives_controls(name),
        other != name,
    ensures
        player.active.dom().contains(other) <==> player.played(
            name,
            mode,
            pipeline,
        ).active.dom().contains(other),
        player.active.dom().contains(other) ==> player.played(name, mode, pipeline).active[other]
            == player.active[other],
        player.running.dom().contains(other) ==> player.played(name, mode, pipeline).running[other]
            == player.running[other],
{
    reveal(Player::with_running);
}

/// A stop without a name stops every timeline, one with a name that timeline alone.
pub proof fn lemma_stop(
    player: Player,
    name: Seq<char>,
    pipeline: EmoteRuntimePipeline,
    other: Seq<char>,
)
    ensures
        !player.stopped(name, pipeline).active.dom().contains(name),
        !player.stopped(name, pipeline).running.dom().contains(name),
        name.len() == 0 ==> !player.stopped(name, pipeline).active.dom().contains(other)
            && !player.stopped(name, pipeline).running.dom().contains(other),
        name.len() > 0 && other != name && player.active.dom().contains(other)
            ==> player.stopped(name, pipeline).active.dom().contains(other) && player.stopped(
            name,
            pipeline,
        ).active[other] == player.active[other],
        name.len() > 0 && other != name && player.running.dom().contains(other)
            ==> player.stopped(name, pipeline).running.dom().contains(other) && player.stopped(
            name,
            pipeline,
        ).running[other] == player.running[other],
{
}

/// Playing a timeline and stopping it leaves it stopped.
pub proof fn lemma_play_then_stop(
    player: Player,
    name: Seq<char>,
    mode: TimelinePlayMode,
    pipeline: EmoteRuntimePipeline,
)
    ensures
        !player.played(name, mode, pipeline).stopped(name, pipeline).active.dom().contains(name),
        !player.played(name, mode, pipeline).stopped(name, pipeline).running.dom().contains(name),
{
}

/// A paused player keeps its timelines where they are.
pub proof fn lemma_pause_holds_timelines(
    player: Player,
    delta: Single,
    pipeline: EmoteRuntimePipeline,
)
    requires
        player.paused,
    ensures
        player.begun(delta, pipeline).finished(delta).running == player.running,
        player.begun(delta, pipeline).finished(delta).active == player.active,
        player.begun(delta, pipeline).finished(delta).ratios == player.ratios,
{
}

/// A timeline that is not played round and round never runs past its end.
pub proof fn lemma_ends_at_its_end(state: ActiveTimelineState, delta: Single, duration: Single)
    requires
        !state.mode.is_looping(),
        Single::zero().lt(duration),
    ensures
        !duration.lt(state.advanced(delta, duration).elapsed_ticks),
{
}

/// A timeline that is set to a time runs from there: from the time given where that lies
/// between its start and its end, else from the nearer of the two.
pub proof fn lemma_seek_reads_back(
    player: Player,
    name: Seq<char>,
    ticks: Single,
    pipeline: EmoteRuntimePipeline,
)
    requires
        player.timelines.dom().contains(name),
        !ticks.is_nan(),
    ensures
        ({
            let at = player.sought(name, ticks, pipeline).running[name].elapsed_ticks;
            let end = player.timelines[name].duration_ticks;
            &&& player.sought(name, ticks, pipeline).active.dom().contains(name)
            &&& Single::zero().le(at)
            &&& Single::zero().lt(end) ==> at.le(end)
            &&& Single::zero().le(ticks) && ticks.le(end) ==> at == ticks
        }),
{
    reveal(Player::with_running);
}

/// A share that is set at once lies between zero and one.
pub proof fn lemma_share_in_range(
    player: Player,
    name: Seq<char>,
    value: Single,
    time: Single,
    easing: Single,
    stop: bool,
)
    requires
        name.len() > 0,
        value.is_finite(),
        time.le(Single::zero()) || !time.is_finite(),
    ensures
        ({
            let ratio = player.faded(name, value, time, easing, stop).running[name].blend_ratio;
            Single::zero().le(ratio) && ratio.le(Single::one())
        }),
        player.faded(name, value, time, easing, stop).ratios[name] == player.faded(
            name,
            value,
            time,
            easing,
            stop,
        ).running[name].blend_ratio,
{
}

/// What is set of the place of the model, of forces and of gravity is what is read
/// back.
pub proof fn lemma_place_reads_back(
    player: Player,
    x: Single,
    y: Single,
    scale: Single,
    rot: Single,
    label: Seq<char>,
    time: Single,
    easing: Single,
)
    requires
        x.is_finite(),
        y.is_finite(),
        rot.is_finite(),
        scale.is_finite(),
        Single::zero().lt(scale),
        label.len() > 0,
    ensures
        player.moved_to(x, y).coord_x == x,
        player.moved_to(x, y).coord_y == y,
        player.scaled_to(scale).scale == scale,
        player.turned_to(rot).rot == rot,
        player.pushed(label, x, y, time, easing).forces[label] == (OuterForce { x, y }),
        player.gravity_turned(rot, time, easing).outer_rot == rot,
{
}

/// The log after a call: as it was, or with one more line while calls are recorded.
spec fn logs_at_most_one(before: Player, after: Player) -> bool {
    ||| after.log == before.log
    ||| before.recording && !before.replaying && after.log == before.log.push(after.log.last())
}

proof fn lemma_setters_log(player: Player, command: Command, pipeline: EmoteRuntimePipeline)
    requires
        command is SetCoord || command is SetScale || command is SetRot || command is Progress
            || command is Nothing,
    ensures
        logs_at_most_one(player, player.called(command, pipeline)),
{
    reveal(Player::called);
}

proof fn lemma_forces_log(player: Player, command: Command, pipeline: EmoteRuntimePipeline)
    requires
        command is SetOuterForce || command is SetOuterRot,
    ensures
        logs_at_most_one(player, player.called(command, pipeline)),
{
    reveal(Player::called);
}

proof fn lemma_variables_log(player: Player, command: Command, pipeline: EmoteRuntimePipeline)
    requires
        command is SetVariable || command is SetVariableDiff,
    ensures
        logs_at_most_one(player, player.called(command, pipeline)),
{
    reveal(Player::called);
}

proof fn lemma_shares_log(player: Player, command: Command, pipeline: EmoteRuntimePipeline)
    requires
        command is SetTimelineBlendRatio,
    ensures
        logs_at_most_one(player, player.called(command, pipeline)),
{
    reveal(Player::called);
}

proof fn lemma_log(player: Player, command: Command, pipeline: EmoteRuntimePipeline)
    ensures
        logs_at_most_one(player, player.called(command, pipeline)),
{
    reveal(Player::called);
    match command {
        Command::PlayTimeline { name, flags } => {
            lemma_play_log(player, name, TimelinePlayMode { flags, looping: false }, pipeline);
        },
        Command::StopTimeline { name } => {
            lemma_stop_log(player, name, pipeline);
        },
        Command::SetVariable { .. } => {
            lemma_variables_log(player, command, pipeline);
        },
        Command::SetVariableDiff { .. } => {
            lemma_variables_log(player, command, pipeline);
        },
        Command::SetTimelineBlendRatio { .. } => {
            lemma_shares_log(player, command, pipeline);
        },
        Command::SetOuterForce { .. } => {
            lemma_forces_log(player, command, pipeline);
        },
        Command::SetOuterRot { .. } => {
            lemma_forces_log(player, command, pipeline);
        },
        _ => {
            lemma_setters_log(player, command, pipeline);
        },
    }
}

/// A call adds at most one line to the log of calls; none while calls are not
/// recorded, and none while a log is replayed.
pub proof fn lemma_a_call_logs_once(
    player: Player,
    command: Command,
    pipeline: EmoteRuntimePipeline,
)
    ensures
        ({
            let log = player.called(command, pipeline).log;
            log == player.log || log == player.log.push(log.last())
        }),
        !player.recording || player.replaying ==> player.called(command, pipeline).log
            == player.log,
        player.replayed(command, pipeline).log == player.log,
{
    lemma_log(player, command, pipeline);
    lemma_log(Player { replaying: true, ..player }, command, pipeline);
}

/// What playing a timeline leaves in the log.
proof fn lemma_play_log(
    player: Player,
    name: Seq<char>,
    mode: TimelinePlayMode,
    pipeline: EmoteRuntimePipeline,
)
    ensures
        player.played(name, mode, pipeline).log == (if name.len() > 0 && player.recording
            && !player.replaying {
            player.log.push(
                LogEntry { command: "PlayTimeline"@, args: seq![name, decimal(mode.flags as int)] },
            )
        } else {
            player.log
        }),
{
    reveal(Player::cleared_for);
    reveal(Player::with_running);
}

/// What stopping a timeline leaves in the log.
proof fn lemma_stop_log(player: Player, name: Seq<char>, pipeline: EmoteRuntimePipeline)
    ensures
        player.stopped(name, pipeline).log == (if player.recording && !player.replaying {
            player.log.push(LogEntry { command: "StopTimeline"@, args: seq![name] })
        } else {
            player.log
        }),
{
}

/// The names of the calls differ.
proof fn lemma_calls_differ()
    ensures
        "SetVariableDiff"@ != "SetVariable"@,
        "PlayTimeline"@ != "SetVariable"@,
        "PlayTimeline"@ != "SetVariableDiff"@,
        "StopTimeline"@ != "SetVariable"@,
        "StopTimeline"@ != "SetVariableDiff"@,
        "StopTimeline"@ != "PlayTimeline"@,
        "SetTimelineBlendRatio"@ != "SetVariable"@,
        "SetTimelineBlendRatio"@ != "SetVariableDiff"@,
        "SetTimelineBlendRatio"@ != "PlayTimeline"@,
        "SetTimelineBlendRatio"@ != "StopTimeline"@,
        "SetOuterForce"@ != "SetVariable"@,
        "SetOuterForce"@ != "SetVariableDiff"@,
        "SetOuterForce"@ != "PlayTimeline"@,
        "SetOuterForce"@ != "StopTimeline"@,
        "SetOuterForce"@ != "SetTimelineBlendRatio"@,
        "SetOuterRot"@ != "SetVariable"@,
        "SetOuterRot"@ != "SetVariableDiff"@,
        "SetOuterRot"@ != "PlayTimeline"@,
        "SetOuterRot"@ != "StopTimeline"@,
        "SetOuterRot"@ != "SetTimelineBlendRatio"@,
        "SetOuterRot"@ != "SetOuterForce"@,
        "SetCoord"@.len() == 8,
        "SetScale"@.len() == 8,
        "SetRot"@.len() == 6,
        "SetCoord"@ != "SetScale"@,
        "SetVariable"@.len() == 11,
        "SetVariableDiff"@.len() == 15,
        "PlayTimeline"@.len() == 12,
        "StopTimeline"@.len() == 12,
        "SetTimelineBlendRatio"@.len() == 21,
        "SetOuterForce"@.len() == 13,
        "SetOuterRot"@.len() == 11,
{
    reveal_strlit("SetVariable");
    reveal_strlit("SetVariableDiff");
    reveal_strlit("PlayTimeline");
    reveal_strlit("StopTimeline");
    reveal_strlit("SetTimelineBlendRatio");
    reveal_strlit("SetOuterForce");
    reveal_strlit("SetOuterRot");
    reveal_strlit("SetCoord");
    reveal_strlit("SetScale");
    reveal_strlit("SetRot");
    assert("SetVariable"@.len() == 11);
    assert("SetVariableDiff"@.len() == 15);
    assert("PlayTimeline"@.len() == 12);
    assert("StopTimeline"@.len() == 12);
    assert("SetTimelineBlendRatio"@.len() == 21);
    assert("SetOuterForce"@.len() == 13);
    assert("SetOuterRot"@.len() == 11);
    assert("SetVariable"@[3] == 'V');
    assert("SetOuterRot"@[3] == 'O');
    assert("PlayTimeline"@[0] == 'P');
    assert("StopTimeline"@[0] == 'S');
    assert("SetCoord"@[3] == 'C');
    assert("SetScale"@[3] == 'S');
}

/// Whether the numbers of a call are such that a log can give them back: what is not
/// a number keeps no bits in text.
pub open spec fn is_replayable(player: Player, command: Command) -> bool {
    match command {
        Command::SetVariable { name, value, time, easing } => !easing.is_nan() && player.variable(
            name,
        ).info.clamp(value).is_finite(),
        Command::SetVariableDiff { module, name, value, time, easing } => !easing.is_nan(),
        Command::SetTimelineBlendRatio { name, value, time, easing, stop_when_done } =>
            !easing.is_nan(),
        _ => true,
    }
}

/// A number that is not below zero, or the text of it, comes to the same.
proof fn lemma_time_reads_back(time: Single)
    ensures
        decimal_number(number_text(time.max(Single::zero()))) == Some(time.max(Single::zero())),
        time.max(Single::zero()).max(Single::zero()) == time.max(Single::zero()),
        (time.le(Single::zero()) || !time.is_finite()) <==> (time.max(Single::zero()).le(
            Single::zero(),
        ) || !time.max(Single::zero()).is_finite()),
        !(time.le(Single::zero()) || !time.is_finite()) ==> time.max(Single::zero()) == time,
{
    lemma_number_round_trip(time.max(Single::zero()));
}

/// Whether a call made without a log comes to the same as one made with it.
spec fn repeats(log: Seq<LogEntry>, after: Player, again: Player) -> bool {
    (Player { replaying: false, ..again }) == (Player { log, ..after })
}

/// The player with another log while that is replayed.
spec fn replayer(player: Player, log: Seq<LogEntry>) -> Player {
    Player { replaying: true, log, ..player }
}

/// A variable sent by what the log gives back goes where it went.
proof fn lemma_variable_again(
    player: Player,
    log: Seq<LogEntry>,
    name: Seq<char>,
    value: Single,
    time: Single,
    easing: Single,
)
    requires
        player.recording,
        !player.replaying,
        player.takes(name, value),
        !easing.is_nan(),
        player.variable(name).info.clamp(value).is_finite(),
    ensures
        ({
            let after = player.variable_sent(name, value, time, easing);
            let again = replayer(player, log);
            command_of(after.log.last()) matches Command::SetVariable {
                name: n,
                value: v,
                time: t,
                easing: s,
            } && repeats(log, after, again.variable_sent(n, v, t, s))
        }),
{
    lemma_calls_differ();
    let info = player.variable(name).info;
    let held = info.clamp(value);
    lemma_clamp_twice(info, value);
    lemma_number_round_trip(held);
    lemma_time_reads_back(time);
    lemma_number_round_trip(easing);
    let e = LogEntry {
        command: "SetVariable"@,
        args: seq![
            name,
            number_text(held),
            number_text(time.max(Single::zero())),
            number_text(easing),
        ],
    };
    assert(player.variable_sent(name, value, time, easing).log.last() == e);
    assert(command_of(e) == variable_command(e));
    let again = replayer(player, log);
    assert(again.variable(name) == player.variable(name));
    assert(again.written(name, held, time.max(Single::zero()), easing) == replayer(
        player.written(name, value, time, easing),
        log,
    ));
}

/// A variable of a module sent by what the log gives back goes where it went.
proof fn lemma_module_again(
    player: Player,
    log: Seq<LogEntry>,
    module: Seq<char>,
    name: Seq<char>,
    value: Single,
    time: Single,
    easing: Single,
)
    requires
        player.recording,
        !player.replaying,
        module.len() > 0,
        name.len() > 0,
        value.is_finite(),
        !easing.is_nan(),
    ensures
        ({
            let after = player.module_variable_sent(module, name, value, time, easing);
            let again = replayer(player, log);
            command_of(after.log.last()) matches Command::SetVariableDiff {
                module: m,
                name: n,
                value: v,
                time: t,
                easing: s,
            } && repeats(log, after, again.module_variable_sent(m, n, v, t, s))
        }),
{
    lemma_calls_differ();
    let full = module + "/"@ + name;
    lemma_number_round_trip(value);
    lemma_time_reads_back(time);
    lemma_number_round_trip(easing);
    let e = LogEntry {
        command: "SetVariableDiff"@,
        args: seq![
            module,
            name,
            number_text(value),
            number_text(time.max(Single::zero())),
            number_text(easing),
        ],
    };
    assert(player.module_variable_sent(module, name, value, time, easing).log.last() == e);
    assert(command_of(e) == module_command(e));
    let again = replayer(player, log);
    assert(again.variable(full) == player.variable(full));
    assert(again.written(full, value, time.max(Single::zero()), easing) == replayer(
        player.written(full, value, time, easing),
        log,
    ));
}

/// A share sent by what the log gives back goes where it went.
proof fn lemma_share_again(
    player: Player,
    log: Seq<LogEntry>,
    name: Seq<char>,
    value: Single,
    time: Single,
    easing: Single,
    stop: bool,
)
    requires
        player.recording,
        !player.replaying,
        name.len() > 0,
        value.is_finite(),
        !easing.is_nan(),
    ensures
        ({
            let after = player.faded(name, value, time, easing, stop);
            let again = replayer(player, log);
            command_of(after.log.last()) matches Command::SetTimelineBlendRatio {
                name: n,
                value: v,
                time: t,
                easing: s,
                stop_when_done: d,
            } && repeats(log, after, again.faded(n, v, t, s, d))
        }),
{
    lemma_calls_differ();
    let held = unit_clamp(value);
    lemma_number_round_trip(held);
    lemma_time_reads_back(time);
    lemma_number_round_trip(easing);
    lemma_truth_reads_back(stop);
    assert(unit_clamp(held) == held);
    let e = LogEntry {
        command: "SetTimelineBlendRatio"@,
        args: seq![
            name,
            number_text(held),
            number_text(time.max(Single::zero())),
            number_text(easing),
            truth_text(stop),
        ],
    };
    assert(player.faded(name, value, time, easing, stop).log.last() == e);
    assert(command_of(e) == blend_command(e));
    let again = replayer(player, log);
    assert(again.running_or_new(name) == player.running_or_new(name));
    assert(share_sent(
        player.running_or_new(name),
        held,
        time.max(Single::zero()),
        easing,
        stop,
    ) == share_sent(player.running_or_new(name), held, time, easing, stop));
}

/// The line of a force reads back.
proof fn lemma_force_reads(label: Seq<char>, x: Single, y: Single, time: Single, easing: Single)
    requires
        x.is_finite(),
        y.is_finite(),
    ensures
        command_of(
            LogEntry {
                command: "SetOuterForce"@,
                args: seq![
                    label,
                    number_text(x),
                    number_text(y),
                    number_text(time.max(Single::zero())),
                    number_text(easing),
                ],
            },
        ) == (Command::SetOuterForce {
            label,
            x,
            y,
            time: time.max(Single::zero()),
            easing: decimal_number(number_text(easing))->0,
        }),
{
    lemma_calls_differ();
    lemma_number_round_trip(x);
    lemma_number_round_trip(y);
    lemma_time_reads_back(time);
    lemma_number_round_trip(easing);
    let e = LogEntry {
        command: "SetOuterForce"@,
        args: seq![
            label,
            number_text(x),
            number_text(y),
            number_text(time.max(Single::zero())),
            number_text(easing),
        ],
    };
    assert(command_of(e) == force_command(e));
}

/// A force set by what the log gives back is what was set.
proof fn lemma_force_again(
    player: Player,
    log: Seq<LogEntry>,
    label: Seq<char>,
    x: Single,
    y: Single,
    time: Single,
    easing: Single,
)
    requires
        player.recording,
        !player.replaying,
        x.is_finite(),
        y.is_finite(),
        label.len() > 0,
    ensures
        ({
            let after = player.pushed(label, x, y, time, easing);
            let again = replayer(player, log);
            command_of(after.log.last()) matches Command::SetOuterForce {
                label: l,
                x: a,
                y: b,
                time: t,
                easing: s,
            } && repeats(log, after, again.pushed(l, a, b, t, s))
        }),
{
    lemma_force_reads(label, x, y, time, easing);
    lemma_push_again(
        player,
        log,
        label,
        x,
        y,
        time,
        easing,
        time.max(Single::zero()),
        decimal_number(number_text(easing))->0,
    );
}

/// A force is set the same whatever its time and easing are.
proof fn lemma_push_again(
    player: Player,
    log: Seq<LogEntry>,
    label: Seq<char>,
    x: Single,
    y: Single,
    time: Single,
    easing: Single,
    other_time: Single,
    other_easing: Single,
)
    requires
        player.recording,
        !player.replaying,
        x.is_finite(),
        y.is_finite(),
        label.len() > 0,
    ensures
        player.pushed(label, x, y, time, easing).log.last() == (LogEntry {
            command: "SetOuterForce"@,
            args: seq![
                label,
                number_text(x),
                number_text(y),
                number_text(time.max(Single::zero())),
                number_text(easing),
            ],
        }),
        repeats(
            log,
            player.pushed(label, x, y, time, easing),
            replayer(player, log).pushed(label, x, y, other_time, other_easing),
        ),
{
}

/// Gravity turned by what the log gives back is turned as it was.
proof fn lemma_gravity_again(player: Player, log: Seq<LogEntry>, rot: Single, time: Single, easing: Single)
    requires
        player.recording,
        !player.replaying,
        rot.is_finite(),
    ensures
        ({
            let after = player.gravity_turned(rot, time, easing);
            let again = replayer(player, log);
            command_of(after.log.last()) matches Command::SetOuterRot {
                rot: a,
                time: t,
                easing: s,
            } && repeats(log, after, again.gravity_turned(a, t, s))
        }),
{
    lemma_calls_differ();
    lemma_number_round_trip(rot);
    lemma_time_reads_back(time);
    lemma_number_round_trip(easing);
    let e = LogEntry {
        command: "SetOuterRot"@,
        args: seq![
            number_text(rot),
            number_text(time.max(Single::zero())),
            number_text(easing),
        ],
    };
    assert(player.gravity_turned(rot, time, easing).log.last() == e);
    assert(command_of(e) == gravity_command(e));
}

/// The model moved by what the log gives back is where it was moved.
proof fn lemma_coord_again(player: Player, log: Seq<LogEntry>, x: Single, y: Single)
    requires
        player.recording,
        !player.replaying,
        x.is_finite(),
        y.is_finite(),
    ensures
        command_of(player.moved_to(x, y).log.last()) == (Command::SetCoord { x, y }),
        repeats(log, player.moved_to(x, y), replayer(player, log).moved_to(x, y)),
{
    lemma_calls_differ();
    lemma_number_round_trip(x);
    lemma_number_round_trip(y);
    let e = LogEntry {
        command: "SetCoord"@,
        args: seq![number_text(x), number_text(y), "0"@, "0"@],
    };
    assert(player.moved_to(x, y).log.last() == e);
    assert(command_of(e) == coord_command(e));
}

/// The model scaled by what the log gives back has the scale that it got.
proof fn lemma_scale_again(player: Player, log: Seq<LogEntry>, scale: Single)
    requires
        player.recording,
        !player.replaying,
        scale.is_finite(),
        Single::zero().lt(scale),
    ensures
        command_of(player.scaled_to(scale).log.last()) == (Command::SetScale { scale }),
        repeats(log, player.scaled_to(scale), replayer(player, log).scaled_to(scale)),
{
    lemma_calls_differ();
    lemma_number_round_trip(scale);
    let e = LogEntry { command: "SetScale"@, args: seq![number_text(scale), "0"@, "0"@] };
    assert(player.scaled_to(scale).log.last() == e);
    assert(command_of(e) == (Command::SetScale { scale }));
}

/// The model turned by what the log gives back is turned as it was.
proof fn lemma_rot_again(player: Player, log: Seq<LogEntry>, rot: Single)
    requires
        player.recording,
        !player.replaying,
        rot.is_finite(),
    ensures
        command_of(player.turned_to(rot).log.last()) == (Command::SetRot { rot }),
        repeats(log, player.turned_to(rot), replayer(player, log).turned_to(rot)),
{
    lemma_calls_differ();
    lemma_number_round_trip(rot);
    let e = LogEntry { command: "SetRot"@, args: seq![number_text(rot), "0"@, "0"@] };
    assert(player.turned_to(rot).log.last() == e);
    assert(command_of(e) == (Command::SetRot { rot }));
}

/// Clearing the way for a timeline does not depend on whether calls are logged.
proof fn lemma_cleared_again(player: Player, log: Seq<LogEntry>, name: Seq<char>)
    ensures
        replayer(player, log).cleared_for(name) == replayer(player.cleared_for(name), log),
{
    reveal(Player::cleared_for);
    let again = replayer(player, log);
    assert(Set::new(|k: Seq<char>| again.gives_way(k, name)) =~= Set::new(
        |k: Seq<char>| player.gives_way(k, name),
    ));
}

/// Running a timeline does not depend on whether calls are logged.
proof fn lemma_running_again(
    player: Player,
    log: Seq<LogEntry>,
    name: Seq<char>,
    mode: TimelinePlayMode,
    pipeline: EmoteRuntimePipeline,
)
    ensures
        replayer(player, log).with_running(name, mode, Single::zero()).reapplied().controlled(pipeline)
            == replayer(
            player.with_running(name, mode, Single::zero()).reapplied().controlled(pipeline),
            log,
        ),
        player.with_running(name, mode, Single::zero()).reapplied().controlled(pipeline).log
            == player.log,
        player.with_running(name, mode, Single::zero()).reapplied().controlled(pipeline).recording
            == player.recording,
        player.with_running(name, mode, Single::zero()).reapplied().controlled(pipeline).replaying
            == player.replaying,
{
    reveal(Player::with_running);
}

/// Playing a timeline does not depend on whether calls are logged.
proof fn lemma_play_again(
    player: Player,
    log: Seq<LogEntry>,
    name: Seq<char>,
    flags: u32,
    pipeline: EmoteRuntimePipeline,
)
    requires
        player.recording,
        !player.replaying,
        name.len() > 0,
    ensures
        ({
            let mode = TimelinePlayMode { flags, looping: false };
            let after = player.played(name, mode, pipeline);
            let again = replayer(player, log);
            command_of(after.log.last()) == (Command::PlayTimeline { name, flags }) && repeats(
                log,
                after,
                again.played(name, mode, pipeline),
            )
        }),
{
    lemma_calls_differ();
    let mode = TimelinePlayMode { flags, looping: false };
    lemma_play_log(player, name, mode, pipeline);
    lemma_decimal_round_trip(flags as nat, u32::MAX as nat);
    let e = LogEntry {
        command: "PlayTimeline"@,
        args: seq![name, decimal(mode.flags as int)],
    };
    assert(player.played(name, mode, pipeline).log.last() == e);
    assert(command_of(e) == play_command(e));
    lemma_cleared_again(player, log, name);
    let cleared = player.cleared_for(name);
    assert(cleared.log == player.log && cleared.recording && !cleared.replaying) by {
        reveal(Player::cleared_for);
    }
    if !mode.is_difference() && !drives_controls(name) {
        lemma_running_again(cleared, log, name, mode, pipeline);
    } else {
        lemma_running_again(player, log, name, mode, pipeline);
    }
}

/// Stopping a timeline does not depend on whether calls are logged.
proof fn lemma_stop_again(player: Player, log: Seq<LogEntry>, name: Seq<char>, pipeline: EmoteRuntimePipeline)
    requires
        player.recording,
        !player.replaying,
    ensures
        ({
            let after = player.stopped(name, pipeline);
            let again = replayer(player, log);
            command_of(after.log.last()) == (Command::StopTimeline { name }) && repeats(log, after, again.stopped(name, pipeline))
        }),
{
    lemma_calls_differ();
    lemma_stop_log(player, name, pipeline);
    let e = LogEntry { command: "StopTimeline"@, args: seq![name] };
    assert(player.stopped(name, pipeline).log.last() == e);
    assert(command_of(e) == (Command::StopTimeline { name }));
}

/// Whether a call is of a sort that is logged, with arguments that are taken.
spec fn is_taken(player: Player, command: Command) -> bool {
    match command {
        Command::SetVariable { name, value, time, easing } => player.takes(name, value),
        Command::SetVariableDiff { module, name, value, time, easing } => module.len() > 0
            && name.len() > 0 && value.is_finite(),
        Command::PlayTimeline { name, flags } => name.len() > 0,
        Command::StopTimeline { name } => true,
        Command::SetTimelineBlendRatio { name, value, time, easing, stop_when_done } => name.len()
            > 0 && value.is_finite(),
        Command::SetOuterForce { label, x, y, time, easing } => label.len() > 0 && x.is_finite()
            && y.is_finite(),
        Command::SetOuterRot { rot, time, easing } => rot.is_finite(),
        Command::SetCoord { x, y } => x.is_finite() && y.is_finite(),
        Command::SetScale { scale } => scale.is_finite() && Single::zero().lt(scale),
        Command::SetRot { rot } => rot.is_finite(),
        Command::Progress { ticks } => false,
        Command::Nothing => false,
    }
}

/// A call that is not taken leaves the player as it is.
proof fn lemma_not_taken(player: Player, command: Command, pipeline: EmoteRuntimePipeline)
    requires
        !is_taken(player, command),
    ensures
        player.called(command, pipeline) == player,
{
    reveal(Player::called);
}

proof fn lemma_variables_again(player: Player, log: Seq<LogEntry>, command: Command, pipeline: EmoteRuntimePipeline)
    requires
        player.recording,
        !player.replaying,
        is_replayable(player, command),
        is_taken(player, command),
        command is SetVariable || command is SetVariableDiff || command is SetTimelineBlendRatio,
    ensures
        repeats(
            log,
            player.called(command, pipeline),
            replayer(player, log).called(
                command_of(player.called(command, pipeline).log.last()),
                pipeline,
            ),
        ),
{
    reveal(Player::called);
    match command {
        Command::SetVariable { name, value, time, easing } => {
            lemma_variable_again(player, log, name, value, time, easing);
        },
        Command::SetVariableDiff { module, name, value, time, easing } => {
            lemma_module_again(player, log, module, name, value, time, easing);
        },
        Command::SetTimelineBlendRatio { name, value, time, easing, stop_when_done } => {
            lemma_share_again(player, log, name, value, time, easing, stop_when_done);
        },
        _ => {},
    }
}

proof fn lemma_timelines_again(player: Player, log: Seq<LogEntry>, command: Command, pipeline: EmoteRuntimePipeline)
    requires
        player.recording,
        !player.replaying,
        is_taken(player, command),
        command is PlayTimeline || command is StopTimeline,
    ensures
        repeats(
            log,
            player.called(command, pipeline),
            replayer(player, log).called(
                command_of(player.called(command, pipeline).log.last()),
                pipeline,
            ),
        ),
{
    reveal(Player::called);
    match command {
        Command::PlayTimeline { name, flags } => {
            lemma_play_again(player, log, name, flags, pipeline);
        },
        Command::StopTimeline { name } => {
            lemma_stop_again(player, log, name, pipeline);
        },
        _ => {},
    }
}

proof fn lemma_forces_again(player: Player, log: Seq<LogEntry>, command: Command, pipeline: EmoteRuntimePipeline)
    requires
        player.recording,
        !player.replaying,
        is_taken(player, command),
        command is SetOuterForce || command is SetOuterRot,
    ensures
        repeats(
            log,
            player.called(command, pipeline),
            replayer(player, log).called(
                command_of(player.called(command, pipeline).log.last()),
                pipeline,
            ),
        ),
{
    reveal(Player::called);
    match command {
        Command::SetOuterForce { label, x, y, time, easing } => {
            lemma_force_again(player, log, label, x, y, time, easing);
        },
        Command::SetOuterRot { rot, time, easing } => {
            lemma_gravity_again(player, log, rot, time, easing);
        },
        _ => {},
    }
}

proof fn lemma_place_again(player: Player, log: Seq<LogEntry>, command: Command, pipeline: EmoteRuntimePipeline)
    requires
        player.recording,
        !player.replaying,
        is_taken(player, command),
        command is SetCoord || command is SetScale || command is SetRot,
    ensures
        repeats(
            log,
            player.called(command, pipeline),
            replayer(player, log).called(
                command_of(player.called(command, pipeline).log.last()),
                pipeline,
            ),
        ),
{
    reveal(Player::called);
    match command {
        Command::SetCoord { x, y } => {
            lemma_coord_again(player, log, x, y);
        },
        Command::SetScale { scale } => {
            lemma_scale_again(player, log, scale);
        },
        Command::SetRot { rot } => {
            lemma_rot_again(player, log, rot);
        },
        _ => {},
    }
}

/// The line that a call leaves in the log stands for a call that does the same, to
/// the player as it was and whatever its log is.
proof fn lemma_call_again(
    player: Player,
    log: Seq<LogEntry>,
    command: Command,
    pipeline: EmoteRuntimePipeline,
)
    requires
        player.recording,
        !player.replaying,
        is_replayable(player, command),
        is_taken(player, command),
    ensures
        repeats(
            log,
            player.called(command, pipeline),
            replayer(player, log).called(
                command_of(player.called(command, pipeline).log.last()),
                pipeline,
            ),
        ),
{
    if command is SetVariable || command is SetVariableDiff || command is SetTimelineBlendRatio {
        lemma_variables_again(player, log, command, pipeline);
    } else if command is PlayTimeline || command is StopTimeline {
        lemma_timelines_again(player, log, command, pipeline);
    } else if command is SetOuterForce || command is SetOuterRot {
        lemma_forces_again(player, log, command, pipeline);
    } else {
        lemma_place_again(player, log, command, pipeline);
    }
}

/// The line that a call leaves in the log stands for a call that does the same.
pub proof fn lemma_replay_repeats_the_call(
    player: Player,
    command: Command,
    pipeline: EmoteRuntimePipeline,
)
    requires
        player.recording,
        !player.replaying,
        is_replayable(player, command),
        player.called(command, pipeline).log != player.log,
    ensures
        player.replayed(command_of(player.called(command, pipeline).log.last()), pipeline)
            == (Player { log: player.log, ..player.called(command, pipeline) }),
{
    if !is_taken(player, command) {
        lemma_not_taken(player, command, pipeline);
    }
    let after = player.called(command, pipeline);
    let read = command_of(after.log.last());
    let again = replayer(player, player.log).called(read, pipeline);
    lemma_call_again(player, player.log, command, pipeline);
    assert(repeats(player.log, after, again));
    lemma_replayed_is(player, player.log, read, pipeline);
    assert((Player { log: player.log, ..player }) == player);
}

/// A line is replayed by calling what it stands for while nothing is logged.
proof fn lemma_replayed_is(
    player: Player,
    log: Seq<LogEntry>,
    command: Command,
    pipeline: EmoteRuntimePipeline,
)
    ensures
        is_quiet_call(player, log, command, pipeline),
{
    assert((Player { replaying: true, ..(Player { log, ..player }) }) == replayer(player, log));
}

spec fn is_quiet_call(
    player: Player,
    log: Seq<LogEntry>,
    command: Command,
    pipeline: EmoteRuntimePipeline,
) -> bool {
    (Player { log, ..player }).replayed(command, pipeline) == (Player {
        replaying: false,
        ..replayer(player, log).called(command, pipeline)
    })
}

impl Player {
    /// The player after a row of calls.
    pub open spec fn after_calls(
        self,
        commands: Seq<Command>,
        pipeline: EmoteRuntimePipeline,
    ) -> Player
        decreases commands.len(),
    {
        if commands.len() == 0 {
            self
        } else {
            self.after_calls(commands.drop_last(), pipeline).called(commands.last(), pipeline)
        }
    }

    /// The player after the lines of a log are replayed.
    pub open spec fn after_replay(self, log: Seq<LogEntry>, pipeline: EmoteRuntimePipeline) -> Player
        decreases log.len(),
    {
        if log.len() == 0 {
            self
        } else {
            self.after_replay(log.drop_last(), pipeline).replayed(command_of(log.last()), pipeline)
        }
    }
}

/// A call that is taken keeps whether calls are recorded, and adds a line.
proof fn lemma_taken_logs(player: Player, command: Command, pipeline: EmoteRuntimePipeline)
    requires
        player.recording,
        !player.replaying,
        is_taken(player, command),
    ensures
        player.called(command, pipeline).recording,
        !player.called(command, pipeline).replaying,
        player.called(command, pipeline).log == player.log.push(
            player.called(command, pipeline).log.last(),
        ),
{
    reveal(Player::called);
    lemma_log(player, command, pipeline);
    match command {
        Command::PlayTimeline { name, flags } => {
            lemma_play_log(player, name, TimelinePlayMode { flags, looping: false }, pipeline);
            reveal(Player::cleared_for);
            reveal(Player::with_running);
        },
        Command::StopTimeline { name } => {
            lemma_stop_log(player, name, pipeline);
        },
        _ => {},
    }
}

/// Replaying what a row of calls has logged brings a player where the calls have
/// brought it.
pub proof fn lemma_replay_repeats_the_calls(
    player: Player,
    commands: Seq<Command>,
    pipeline: EmoteRuntimePipeline,
)
    requires
        player.recording,
        !player.replaying,
        forall|i: int|
            0 <= i < commands.len() ==> is_replayable(
                player.after_calls(#[trigger] commands.take(i), pipeline),
                commands[i],
            ),
    ensures
        ({
            let after = player.after_calls(commands, pipeline);
            let n = player.log.len() as int;
            &&& player.log.is_prefix_of(after.log)
            &&& player.after_replay(after.log.skip(n), pipeline) == (Player {
                log: player.log,
                ..after
            })
        }),
{
    lemma_replay_by_steps(player, commands, pipeline);
}

proof fn lemma_replay_by_steps(
    player: Player,
    commands: Seq<Command>,
    pipeline: EmoteRuntimePipeline,
)
    requires
        player.recording,
        !player.replaying,
        forall|i: int|
            0 <= i < commands.len() ==> is_replayable(
                player.after_calls(#[trigger] commands.take(i), pipeline),
                commands[i],
            ),
    ensures
        player.after_calls(commands, pipeline).recording,
        !player.after_calls(commands, pipeline).replaying,
        player.log.is_prefix_of(player.after_calls(commands, pipeline).log),
        player.after_replay(
            player.after_calls(commands, pipeline).log.skip(player.log.len() as int),
            pipeline,
        ) == (Player { log: player.log, ..player.after_calls(commands, pipeline) }),
    decreases commands.len(),
{
    let n = player.log.len() as int;
    if commands.len() == 0 {
        assert(player.log.skip(n) =~= Seq::<LogEntry>::empty());
        assert((Player { log: player.log, ..player }) == player);
    } else {
        let row = commands.drop_last();
        let command = commands.last();
        assert forall|i: int| 0 <= i < row.len() implies is_replayable(
            player.after_calls(#[trigger] row.take(i), pipeline),
            row[i],
        ) by {
            assert(row.take(i) =~= commands.take(i));
        }
        lemma_replay_by_steps(player, row, pipeline);
        let before = player.after_calls(row, pipeline);
        assert(commands.take(commands.len() - 1) =~= row);
        let after = before.called(command, pipeline);
        if is_taken(before, command) {
            lemma_taken_logs(before, command, pipeline);
            lemma_call_again(before, player.log, command, pipeline);
            let e = after.log.last();
            lemma_replayed_is(before, player.log, command_of(e), pipeline);
            let lines = after.log.skip(n);
            assert(lines.last() == e);
            assert(lines.drop_last() =~= before.log.skip(n));
            assert(player.log.is_prefix_of(after.log));
        } else {
            lemma_not_taken(before, command, pipeline);
        }
    }
}

/// Whether a text fits into a line of a log.
#[verifier::opaque]
pub open spec fn is_one_field(s: Seq<char>) -> bool {
    !s.contains('\t') && !s.contains('\n')
}

/// Whether the names that a call gives fit into a line of a log. The last field of a
/// line must not end in a carriage return, which would be taken for part of the end of
/// the line.
pub open spec fn has_plain_names(command: Command) -> bool {
    match command {
        Command::SetVariable { name, .. } => is_one_field(name),
        Command::SetVariableDiff { module, name, .. } => is_one_field(module) && is_one_field(name),
        Command::PlayTimeline { name, .. } => is_one_field(name),
        Command::StopTimeline { name } => is_one_field(name) && (name.len() > 0 ==> name.last()
            != '\r'),
        Command::SetTimelineBlendRatio { name, .. } => is_one_field(name),
        Command::SetOuterForce { label, .. } => is_one_field(label),
        _ => true,
    }
}

/// Whether a text is one field and does not end in a carriage return.
#[verifier::opaque]
spec fn is_last_field(s: Seq<char>) -> bool {
    is_one_field(s) && (s.len() > 0 ==> s.last() != '\r')
}

/// The text of a number fits into a line.
proof fn lemma_number_field(x: Single)
    ensures
        is_one_field(number_text(x)),
        is_last_field(number_text(x)),
{
    reveal(number_text);
    reveal(is_one_field);
    reveal(is_last_field);
    let sign = if x.is_negative() {
        seq!['-']
    } else {
        Seq::<char>::empty()
    };
    reveal_strlit("NaN");
    reveal_strlit("inf");
    reveal_strlit("0");
    let text = number_text(x);
    if !x.is_nan() && !x.is_infinite() && x.magnitude() != 0 {
        let raw = shortest(x.magnitude() as nat, 1);
        let (d, k) = without_zeros(raw.0, raw.1);
        lemma_written_out_reads(d, k);
        let body = written_out(d, k);
        assert forall|i: int| 0 <= i < text.len() implies #[trigger] text[i] != '\t' && text[i]
            != '\n' && text[i] != '\r' by {
            if i >= sign.len() {
                assert(text[i] == body[i - sign.len()]);
            }
        }
    } else {
        assert forall|i: int| 0 <= i < text.len() implies #[trigger] text[i] != '\t' && text[i]
            != '\n' && text[i] != '\r' by {}
    }
}

/// The digits of a number fit into a line.
proof fn lemma_whole_field(n: nat)
    ensures
        is_one_field(decimal(n as int)),
        is_last_field(decimal(n as int)),
{
    reveal(is_one_field);
    reveal(is_last_field);
    lemma_digits_are_digits(n);
}

/// A zero fits into a line.
proof fn lemma_zero_field()
    ensures
        is_one_field("0"@),
        is_last_field("0"@),
{
    reveal(is_one_field);
    reveal(is_last_field);
    reveal_strlit("0");
}

/// A yes or no fits into a line.
proof fn lemma_truth_field(v: bool)
    ensures
        is_one_field(truth_text(v)),
        is_last_field(truth_text(v)),
{
    reveal(is_one_field);
    reveal(is_last_field);
    reveal_strlit("true");
    reveal_strlit("false");
}

/// Fields with tabs between them hold no line feed, and end as the last one does.
proof fn lemma_joined_fields(args: Seq<Seq<char>>)
    requires
        args.len() > 0,
        forall|i: int| 0 <= i < args.len() ==> is_one_field(#[trigger] args[i]),
        is_last_field(args.last()),
    ensures
        !joined(args, seq!['\t']).contains('\n'),
        joined(args, seq!['\t']).len() > 0 ==> joined(args, seq!['\t']).last() != '\r',
    decreases args.len(),
{
    reveal(is_one_field);
    reveal(is_last_field);
    if args.len() > 1 {
        lemma_joined_clean(args.drop_last());
        let front = joined(args.drop_last(), seq!['\t']);
        let all = front + seq!['\t'] + args.last();
        assert forall|i: int| 0 <= i < all.len() implies all[i] != '\n' by {
            if i < front.len() {
                assert(front.contains(front[i]));
            } else if i > front.len() {
                let j = i - front.len() - 1;
                assert(args.last().contains(args.last()[j]));
            }
        }
    }
}

proof fn lemma_joined_clean(args: Seq<Seq<char>>)
    requires
        forall|i: int| 0 <= i < args.len() ==> is_one_field(#[trigger] args[i]),
    ensures
        !joined(args, seq!['\t']).contains('\n'),
    decreases args.len(),
{
    reveal(is_one_field);
    if args.len() > 1 {
        lemma_joined_clean(args.drop_last());
        let front = joined(args.drop_last(), seq!['\t']);
        let all = front + seq!['\t'] + args.last();
        assert forall|i: int| 0 <= i < all.len() implies all[i] != '\n' by {
            if i < front.len() {
                assert(front.contains(front[i]));
            } else if i > front.len() {
                let j = i - front.len() - 1;
                assert(args.last().contains(args.last()[j]));
            }
        }
    }
}

/// Whether a text is the name of a call that can be logged.
spec fn is_call_name(s: Seq<char>) -> bool {
    ||| s == "SetVariable"@
    ||| s == "SetVariableDiff"@
    ||| s == "PlayTimeline"@
    ||| s == "StopTimeline"@
    ||| s == "SetTimelineBlendRatio"@
    ||| s == "SetOuterForce"@
    ||| s == "SetOuterRot"@
    ||| s == "SetCoord"@
    ||| s == "SetScale"@
    ||| s == "SetRot"@
}

proof fn lemma_call_name(s: Seq<char>)
    requires
        is_call_name(s),
    ensures
        s.len() > 0,
        trimmed(s) == s,
        is_one_field(s),
{
    reveal(is_one_field);
    reveal_strlit("SetVariable");
    reveal_strlit("SetVariableDiff");
    reveal_strlit("PlayTimeline");
    reveal_strlit("StopTimeline");
    reveal_strlit("SetTimelineBlendRatio");
    reveal_strlit("SetOuterForce");
    reveal_strlit("SetOuterRot");
    reveal_strlit("SetCoord");
    reveal_strlit("SetScale");
    reveal_strlit("SetRot");
    assert(s.len() > 0);
    assert(s[0] == 'S' || s[0] == 'P');
    assert(s.last() == 'e' || s.last() == 'f' || s.last() == 'o' || s.last() == 't' || s.last()
        == 'd');
    assert forall|i: int| 0 <= i < s.len() implies #[trigger] s[i] != '\t' && s[i] != '\n' by {}
}

/// A line with the name of a call and plain fields is plain.
proof fn lemma_plain_line(e: LogEntry)
    requires
        is_call_name(e.command),
        e.args.len() > 0,
        forall|i: int| 0 <= i < e.args.len() ==> is_one_field(#[trigger] e.args[i]),
        is_last_field(e.args.last()),
    ensures
        e.plain(),
{
    reveal(is_one_field);
    reveal(is_last_field);
    lemma_call_name(e.command);
    lemma_joined_fields(e.args);
    let rest = joined(e.args, seq!['\t']);
    let line = e.line();
    assert forall|i: int| 0 <= i < line.len() implies line[i] != '\n' by {
        if i < e.command.len() {
            assert(e.command.contains(e.command[i]));
        } else if i > e.command.len() {
            let j = i - e.command.len() - 1;
            assert(rest.contains(rest[j]));
        }
    }
}

/// Whether a line is plain.
#[verifier::opaque]
spec fn is_plain_line(e: LogEntry) -> bool {
    e.plain()
}

/// The fields of a line, told one by one.
proof fn lemma_fields(e: LogEntry)
    requires
        is_call_name(e.command),
        1 <= e.args.len() <= 5,
        is_one_field(e.args[0]),
        e.args.len() > 1 ==> is_one_field(e.args[1]),
        e.args.len() > 2 ==> is_one_field(e.args[2]),
        e.args.len() > 3 ==> is_one_field(e.args[3]),
        e.args.len() > 4 ==> is_one_field(e.args[4]),
        is_last_field(e.args.last()),
    ensures
        is_plain_line(e),
{
    reveal(is_plain_line);
    lemma_plain_line(e);
}

/// The line that a call leaves in the log.
spec fn line_of(player: Player, command: Command) -> LogEntry {
    match command {
        Command::SetVariable { name, value, time, easing } => LogEntry {
            command: "SetVariable"@,
            args: seq![
                name,
                number_text(player.variable(name).info.clamp(value)),
                number_text(time.max(Single::zero())),
                number_text(easing),
            ],
        },
        Command::SetVariableDiff { module, name, value, time, easing } => LogEntry {
            command: "SetVariableDiff"@,
            args: seq![
                module,
                name,
                number_text(value),
                number_text(time.max(Single::zero())),
                number_text(easing),
            ],
        },
        Command::SetTimelineBlendRatio { name, value, time, easing, stop_when_done } => LogEntry {
            command: "SetTimelineBlendRatio"@,
            args: seq![
                name,
                number_text(unit_clamp(value)),
                number_text(time.max(Single::zero())),
                number_text(easing),
                truth_text(stop_when_done),
            ],
        },
        Command::PlayTimeline { name, flags } => LogEntry {
            command: "PlayTimeline"@,
            args: seq![name, decimal(flags as int)],
        },
        Command::StopTimeline { name } => LogEntry {
            command: "StopTimeline"@,
            args: seq![name],
        },
        Command::SetOuterForce { label, x, y, time, easing } => LogEntry {
            command: "SetOuterForce"@,
            args: seq![
                label,
                number_text(x),
                number_text(y),
                number_text(time.max(Single::zero())),
                number_text(easing),
            ],
        },
        Command::SetOuterRot { rot, time, easing } => LogEntry {
            command: "SetOuterRot"@,
            args: seq![
                number_text(rot),
                number_text(time.max(Single::zero())),
                number_text(easing),
            ],
        },
        Command::SetCoord { x, y } => LogEntry {
            command: "SetCoord"@,
            args: seq![number_text(x), number_text(y), "0"@, "0"@],
        },
        Command::SetScale { scale } => LogEntry {
            command: "SetScale"@,
            args: seq![number_text(scale), "0"@, "0"@],
        },
        Command::SetRot { rot } => LogEntry {
            command: "SetRot"@,
            args: seq![number_text(rot), "0"@, "0"@],
        },
        Command::Progress { .. } => LogEntry { command: Seq::empty(), args: Seq::empty() },
        Command::Nothing => LogEntry { command: Seq::empty(), args: Seq::empty() },
    }
}

proof fn lemma_variable_lines(player: Player, command: Command, pipeline: EmoteRuntimePipeline)
    requires
        player.recording,
        !player.replaying,
        is_taken(player, command),
        command is SetVariable || command is SetVariableDiff,
    ensures
        player.called(command, pipeline).log.last() == line_of(player, command),
{
    reveal(Player::called);
}

proof fn lemma_share_lines(player: Player, command: Command, pipeline: EmoteRuntimePipeline)
    requires
        player.recording,
        !player.replaying,
        is_taken(player, command),
        command is SetTimelineBlendRatio,
    ensures
        player.called(command, pipeline).log.last() == line_of(player, command),
{
    reveal(Player::called);
}

proof fn lemma_force_lines(player: Player, command: Command, pipeline: EmoteRuntimePipeline)
    requires
        player.recording,
        !player.replaying,
        is_taken(player, command),
        command is SetOuterForce || command is SetOuterRot,
    ensures
        player.called(command, pipeline).log.last() == line_of(player, command),
{
    reveal(Player::called);
}

proof fn lemma_place_lines(player: Player, command: Command, pipeline: EmoteRuntimePipeline)
    requires
        player.recording,
        !player.replaying,
        is_taken(player, command),
        command is SetCoord || command is SetScale || command is SetRot,
    ensures
        player.called(command, pipeline).log.last() == line_of(player, command),
{
    reveal(Player::called);
}

proof fn lemma_timeline_lines(player: Player, command: Command, pipeline: EmoteRuntimePipeline)
    requires
        player.recording,
        !player.replaying,
        is_taken(player, command),
        command is PlayTimeline || command is StopTimeline,
    ensures
        player.called(command, pipeline).log.last() == line_of(player, command),
{
    reveal(Player::called);
    match command {
        Command::PlayTimeline { name, flags } => {
            lemma_play_log(player, name, TimelinePlayMode { flags, looping: false }, pipeline);
        },
        Command::StopTimeline { name } => {
            lemma_stop_log(player, name, pipeline);
        },
        _ => {},
    }
}

/// The line of a call with plain names is plain.
proof fn lemma_line_is_plain(player: Player, command: Command)
    requires
        has_plain_names(command),
        is_taken(player, command),
    ensures
        is_plain_line(line_of(player, command)),
{
    let line = line_of(player, command);
    match command {
        Command::SetVariable { name, value, time, easing } => {
            lemma_number_field(player.variable(name).info.clamp(value));
            lemma_number_field(time.max(Single::zero()));
            lemma_number_field(easing);
            lemma_fields(line);
        },
        Command::SetVariableDiff { module, name, value, time, easing } => {
            lemma_number_field(value);
            lemma_number_field(time.max(Single::zero()));
            lemma_number_field(easing);
            lemma_fields(line);
        },
        Command::SetTimelineBlendRatio { name, value, time, easing, stop_when_done } => {
            lemma_number_field(unit_clamp(value));
            lemma_number_field(time.max(Single::zero()));
            lemma_number_field(easing);
            lemma_truth_field(stop_when_done);
            lemma_fields(line);
        },
        Command::PlayTimeline { name, flags } => {
            lemma_whole_field(flags as nat);
            lemma_fields(line);
        },
        Command::StopTimeline { name } => {
            reveal(is_last_field);
            lemma_fields(line);
        },
        Command::SetOuterForce { label, x, y, time, easing } => {
            lemma_number_field(x);
            lemma_number_field(y);
            lemma_number_field(time.max(Single::zero()));
            lemma_number_field(easing);
            lemma_fields(line);
        },
        _ => {
            lemma_place_line_is_plain(player, command);
        },
    }
}

/// The line of a call that places the model or turns gravity is plain.
proof fn lemma_place_line_is_plain(player: Player, command: Command)
    requires
        command is SetOuterRot || command is SetCoord || command is SetScale || command is SetRot,
    ensures
        is_plain_line(line_of(player, command)),
{
    let line = line_of(player, command);
    lemma_zero_field();
    match command {
        Command::SetOuterRot { rot, time, easing } => {
            lemma_number_field(rot);
            lemma_number_field(time.max(Single::zero()));
            lemma_number_field(easing);
            lemma_fields(line);
        },
        Command::SetCoord { x, y } => {
            lemma_number_field(x);
            lemma_number_field(y);
            lemma_fields(line);
        },
        Command::SetScale { scale } => {
            lemma_number_field(scale);
            lemma_fields(line);
        },
        Command::SetRot { rot } => {
            lemma_number_field(rot);
            lemma_fields(line);
        },
        _ => {},
    }
}

/// The line that a call leaves in the log reads back from the text of the log, where
/// its names fit into a line.
pub proof fn lemma_logged_line_reads_back(
    player: Player,
    command: Command,
    pipeline: EmoteRuntimePipeline,
)
    requires
        player.recording,
        !player.replaying,
        has_plain_names(command),
        player.called(command, pipeline).log != player.log,
    ensures
        player.called(command, pipeline).log.last().plain(),
        entry_of(player.called(command, pipeline).log.last().line()) == Some(
            player.called(command, pipeline).log.last(),
        ),
{
    if !is_taken(player, command) {
        lemma_not_taken(player, command, pipeline);
    }
    if command is SetVariable || command is SetVariableDiff {
        lemma_variable_lines(player, command, pipeline);
    } else if command is SetTimelineBlendRatio {
        lemma_share_lines(player, command, pipeline);
    } else if command is PlayTimeline || command is StopTimeline {
        lemma_timeline_lines(player, command, pipeline);
    } else if command is SetOuterForce || command is SetOuterRot {
        lemma_force_lines(player, command, pipeline);
    } else {
        lemma_place_lines(player, command, pipeline);
    }
    lemma_line_is_plain(player, command);
    reveal(is_plain_line);
    lemma_entry_round_trip(player.called(command, pipeline).log.last());
}

/// A yes or no reads back from its text.
proof fn lemma_truth_reads_back(v: bool)
    ensures
        truth_of(truth_text(v)) == Some(v),
{
    reveal_strlit("true");
    reveal_strlit("false");
    assert("true"@.len() != "false"@.len());
}

} // verus!
