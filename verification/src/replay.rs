//! Calls taken back from a log.

use crate::api::{EmoteApiLogEntry, LogEntry, TimelinePlayMode};
use crate::controls::EmoteRuntimePipeline;
use crate::decimal::{decimal_number, parse_single};
use crate::numerals::{parse_whole, whole_number};
use crate::player::{ElunaPlayer, Player};
use crate::single::Single;
use crate::text::same_text;
use vstd::prelude::*;

verus! {

/// A call that a line of a log stands for.
#[derive(Debug)]
pub enum ApiCommand<'a> {
    SetVariable { name: &'a str, value: Single, time: Single, easing: Single },
    SetVariableDiff {
        module: &'a str,
        name: &'a str,
        value: Single,
        time: Single,
        easing: Single,
    },
    PlayTimeline { name: &'a str, flags: u32 },
    StopTimeline { name: &'a str },
    SetTimelineBlendRatio {
        name: &'a str,
        value: Single,
        time: Single,
        easing: Single,
        stop_when_done: bool,
    },
    SetOuterForce { label: &'a str, x: Single, y: Single, time: Single, easing: Single },
    SetOuterRot { rot: Single, time: Single, easing: Single },
    SetCoord { x: Single, y: Single },
    SetScale { scale: Single },
    SetRot { rot: Single },
    Progress { ticks: Single },
    Nothing,
}

/// An `ApiCommand` by its characters.
pub enum Command {
    SetVariable { name: Seq<char>, value: Single, time: Single, easing: Single },
    SetVariableDiff {
        module: Seq<char>,
        name: Seq<char>,
        value: Single,
        time: Single,
        easing: Single,
    },
    PlayTimeline { name: Seq<char>, flags: u32 },
    StopTimeline { name: Seq<char> },
    SetTimelineBlendRatio {
        name: Seq<char>,
        value: Single,
        time: Single,
        easing: Single,
        stop_when_done: bool,
    },
    SetOuterForce { label: Seq<char>, x: Single, y: Single, time: Single, easing: Single },
    SetOuterRot { rot: Single, time: Single, easing: Single },
    SetCoord { x: Single, y: Single },
    SetScale { scale: Single },
    SetRot { rot: Single },
    Progress { ticks: Single },
    Nothing,
}

impl<'a> View for ApiCommand<'a> {
    type V = Command;

    open spec fn view(&self) -> Command {
        match self {
            ApiCommand::SetVariable { name, value, time, easing } => Command::SetVariable {
                name: name@,
                value: *value,
                time: *time,
                easing: *easing,
            },
            ApiCommand::SetVariableDiff {
                module,
                name,
                value,
                time,
                easing,
            } => Command::SetVariableDiff {
                module: module@,
                name: name@,
                value: *value,
                time: *time,
                easing: *easing,
            },
            ApiCommand::PlayTimeline { name, flags } => Command::PlayTimeline {
                name: name@,
                flags: *flags,
            },
            ApiCommand::StopTimeline { name } => Command::StopTimeline { name: name@ },
            ApiCommand::SetTimelineBlendRatio {
                name,
                value,
                time,
                easing,
                stop_when_done,
            } => Command::SetTimelineBlendRatio {
                name: name@,
                value: *value,
                time: *time,
                easing: *easing,
                stop_when_done: *stop_when_done,
            },
            ApiCommand::SetOuterForce { label, x, y, time, easing } => Command::SetOuterForce {
                label: label@,
                x: *x,
                y: *y,
                time: *time,
                easing: *easing,
            },
            ApiCommand::SetOuterRot { rot, time, easing } => Command::SetOuterRot {
                rot: *rot,
                time: *time,
                easing: *easing,
            },
            ApiCommand::SetCoord { x, y } => Command::SetCoord { x: *x, y: *y },
            ApiCommand::SetScale { scale } => Command::SetScale { scale: *scale },
            ApiCommand::SetRot { rot } => Command::SetRot { rot: *rot },
            ApiCommand::Progress { ticks } => Command::Progress { ticks: *ticks },
            ApiCommand::Nothing => Command::Nothing,
        }
    }
}

/// The number that an argument stands for.
pub open spec fn number_at(e: LogEntry, i: int) -> Option<Single> {
    decimal_number(e.args[i])
}

/// A yes or no read from text.
pub open spec fn truth_of(s: Seq<char>) -> Option<bool> {
    if s == "true"@ {
        Some(true)
    } else if s == "false"@ {
        Some(false)
    } else {
        None
    }
}

pub open spec fn variable_command(e: LogEntry) -> Command {
    match (number_at(e, 1), number_at(e, 2), number_at(e, 3)) {
        (Some(value), Some(time), Some(easing)) => Command::SetVariable {
            name: e.args[0],
            value,
            time,
            easing,
        },
        _ => Command::Nothing,
    }
}

pub open spec fn module_command(e: LogEntry) -> Command {
    match (number_at(e, 2), number_at(e, 3), number_at(e, 4)) {
        (Some(value), Some(time), Some(easing)) => Command::SetVariableDiff {
            module: e.args[0],
            name: e.args[1],
            value,
            time,
            easing,
        },
        _ => Command::Nothing,
    }
}

pub open spec fn play_command(e: LogEntry) -> Command {
    match whole_number(e.args[1], 10, u32::MAX as nat) {
        Some(flags) => Command::PlayTimeline { name: e.args[0], flags: flags as u32 },
        None => Command::Nothing,
    }
}

pub open spec fn blend_command(e: LogEntry) -> Command {
    match (number_at(e, 1), number_at(e, 2), number_at(e, 3), truth_of(e.args[4])) {
        (
            Some(value),
            Some(time),
            Some(easing),
            Some(stop_when_done),
        ) => Command::SetTimelineBlendRatio { name: e.args[0], value, time, easing, stop_when_done },
        _ => Command::Nothing,
    }
}

pub open spec fn force_command(e: LogEntry) -> Command {
    match (number_at(e, 1), number_at(e, 2), number_at(e, 3), number_at(e, 4)) {
        (Some(x), Some(y), Some(time), Some(easing)) => Command::SetOuterForce {
            label: e.args[0],
            x,
            y,
            time,
            easing,
        },
        _ => Command::Nothing,
    }
}

pub open spec fn gravity_command(e: LogEntry) -> Command {
    match (number_at(e, 0), number_at(e, 1), number_at(e, 2)) {
        (Some(rot), Some(time), Some(easing)) => Command::SetOuterRot { rot, time, easing },
        _ => Command::Nothing,
    }
}

pub open spec fn coord_command(e: LogEntry) -> Command {
    match (number_at(e, 0), number_at(e, 1)) {
        (Some(x), Some(y)) => Command::SetCoord { x, y },
        _ => Command::Nothing,
    }
}

/// The call that a line of a log stands for. A line with too few arguments, or with
/// one that cannot be read, stands for none.
pub open spec fn command_of(e: LogEntry) -> Command {
    if e.command == "SetVariable"@ && e.args.len() >= 4 {
        variable_command(e)
    } else if e.command == "SetVariableDiff"@ && e.args.len() >= 5 {
        module_command(e)
    } else if e.command == "PlayTimeline"@ && e.args.len() >= 2 {
        play_command(e)
    } else if e.command == "StopTimeline"@ && e.args.len() >= 1 {
        Command::StopTimeline { name: e.args[0] }
    } else if e.command == "SetTimelineBlendRatio"@ && e.args.len() >= 5 {
        blend_command(e)
    } else if e.command == "SetOuterForce"@ && e.args.len() >= 5 {
        force_command(e)
    } else if e.command == "SetOuterRot"@ && e.args.len() >= 3 {
        gravity_command(e)
    } else if e.command == "SetCoord"@ && e.args.len() >= 2 {
        coord_command(e)
    } else if e.command == "SetScale"@ && e.args.len() >= 1 {
        match number_at(e, 0) {
            Some(scale) => Command::SetScale { scale },
            None => Command::Nothing,
        }
    } else if e.command == "SetRot"@ && e.args.len() >= 1 {
        match number_at(e, 0) {
            Some(rot) => Command::SetRot { rot },
            None => Command::Nothing,
        }
    } else if e.command == "Progress"@ && e.args.len() >= 1 {
        match number_at(e, 0) {
            Some(ticks) => Command::Progress { ticks },
            None => Command::Nothing,
        }
    } else {
        Command::Nothing
    }
}

fn read_number(entry: &EmoteApiLogEntry, i: usize) -> (r: Option<Single>)
    requires
        i < entry.args@.len(),
    ensures
        r == number_at(entry@, i as int),
{
    parse_single(entry.args[i].as_str())
}

fn read_truth(s: &str) -> (r: Option<bool>)
    ensures
        r == truth_of(s@),
{
    if same_text(s, "true") {
        Some(true)
    } else if same_text(s, "false") {
        Some(false)
    } else {
        None
    }
}

fn read_variable<'a>(entry: &'a EmoteApiLogEntry) -> (r: ApiCommand<'a>)
    requires
        entry.args@.len() >= 4,
    ensures
        r@ == variable_command(entry@),
{
    match (read_number(entry, 1), read_number(entry, 2), read_number(entry, 3)) {
        (Some(value), Some(time), Some(easing)) => ApiCommand::SetVariable {
            name: entry.args[0].as_str(),
            value,
            time,
            easing,
        },
        _ => ApiCommand::Nothing,
    }
}

fn read_module<'a>(entry: &'a EmoteApiLogEntry) -> (r: ApiCommand<'a>)
    requires
        entry.args@.len() >= 5,
    ensures
        r@ == module_command(entry@),
{
    match (read_number(entry, 2), read_number(entry, 3), read_number(entry, 4)) {
        (Some(value), Some(time), Some(easing)) => ApiCommand::SetVariableDiff {
            module: entry.args[0].as_str(),
            name: entry.args[1].as_str(),
            value,
            time,
            easing,
        },
        _ => ApiCommand::Nothing,
    }
}

fn read_play<'a>(entry: &'a EmoteApiLogEntry) -> (r: ApiCommand<'a>)
    requires
        entry.args@.len() >= 2,
    ensures
        r@ == play_command(entry@),
{
    match parse_whole(entry.args[1].as_str(), 10, u32::MAX as u64) {
        Some(flags) => ApiCommand::PlayTimeline {
            name: entry.args[0].as_str(),
            flags: flags as u32,
        },
        None => ApiCommand::Nothing,
    }
}

fn read_blend<'a>(entry: &'a EmoteApiLogEntry) -> (r: ApiCommand<'a>)
    requires
        entry.args@.len() >= 5,
    ensures
        r@ == blend_command(entry@),
{
    match (
        read_number(entry, 1),
        read_number(entry, 2),
        read_number(entry, 3),
        read_truth(entry.args[4].as_str()),
    ) {
        (
            Some(value),
            Some(time),
            Some(easing),
            Some(stop_when_done),
        ) => ApiCommand::SetTimelineBlendRatio {
            name: entry.args[0].as_str(),
            value,
            time,
            easing,
            stop_when_done,
        },
        _ => ApiCommand::Nothing,
    }
}

fn read_force<'a>(entry: &'a EmoteApiLogEntry) -> (r: ApiCommand<'a>)
    requires
        entry.args@.len() >= 5,
    ensures
        r@ == force_command(entry@),
{
    match (
        read_number(entry, 1),
        read_number(entry, 2),
        read_number(entry, 3),
        read_number(entry, 4),
    ) {
        (Some(x), Some(y), Some(time), Some(easing)) => ApiCommand::SetOuterForce {
            label: entry.args[0].as_str(),
            x,
            y,
            time,
            easing,
        },
        _ => ApiCommand::Nothing,
    }
}

fn read_gravity<'a>(entry: &'a EmoteApiLogEntry) -> (r: ApiCommand<'a>)
    requires
        entry.args@.len() >= 3,
    ensures
        r@ == gravity_command(entry@),
{
    match (read_number(entry, 0), read_number(entry, 1), read_number(entry, 2)) {
        (Some(rot), Some(time), Some(easing)) => ApiCommand::SetOuterRot { rot, time, easing },
        _ => ApiCommand::Nothing,
    }
}

fn read_coord<'a>(entry: &'a EmoteApiLogEntry) -> (r: ApiCommand<'a>)
    requires
        entry.args@.len() >= 2,
    ensures
        r@ == coord_command(entry@),
{
    match (read_number(entry, 0), read_number(entry, 1)) {
        (Some(x), Some(y)) => ApiCommand::SetCoord { x, y },
        _ => ApiCommand::Nothing,
    }
}

impl EmoteApiLogEntry {
    /// Reads the call that a line of a log stands for.
    pub fn command<'a>(&'a self) -> (r: ApiCommand<'a>)
        ensures
            r@ == command_of(self@),
    {
        let command = self.command.as_str();
        let n = self.args.len();
        assert(self@.args.len() == n);
        if same_text(command, "SetVariable") && n >= 4 {
            read_variable(self)
        } else if same_text(command, "SetVariableDiff") && n >= 5 {
            read_module(self)
        } else if same_text(command, "PlayTimeline") && n >= 2 {
            read_play(self)
        } else if same_text(command, "StopTimeline") && n >= 1 {
            ApiCommand::StopTimeline { name: self.args[0].as_str() }
        } else if same_text(command, "SetTimelineBlendRatio") && n >= 5 {
            read_blend(self)
        } else if same_text(command, "SetOuterForce") && n >= 5 {
            read_force(self)
        } else if same_text(command, "SetOuterRot") && n >= 3 {
            read_gravity(self)
        } else if same_text(command, "SetCoord") && n >= 2 {
            read_coord(self)
        } else if same_text(command, "SetScale") && n >= 1 {
            match read_number(self, 0) {
                Some(scale) => ApiCommand::SetScale { scale },
                None => ApiCommand::Nothing,
            }
        } else if same_text(command, "SetRot") && n >= 1 {
            match read_number(self, 0) {
                Some(rot) => ApiCommand::SetRot { rot },
                None => ApiCommand::Nothing,
            }
        } else if same_text(command, "Progress") && n >= 1 {
            match read_number(self, 0) {
                Some(ticks) => ApiCommand::Progress { ticks },
                None => ApiCommand::Nothing,
            }
        } else {
            ApiCommand::Nothing
        }
    }
}

impl Player {
    /// The player after a call, but for what moves it on in time.
    #[verifier::opaque]
    pub open spec fn called(self, command: Command, pipeline: EmoteRuntimePipeline) -> Player {
        match command {
            Command::SetVariable { name, value, time, easing } => self.variable_sent(
                name,
                value,
                time,
                easing,
            ),
            Command::SetVariableDiff {
                module,
                name,
                value,
                time,
                easing,
            } => self.module_variable_sent(module, name, value, time, easing),
            Command::PlayTimeline { name, flags } => self.played(
                name,
                TimelinePlayMode { flags, looping: false },
                pipeline,
            ),
            Command::StopTimeline { name } => self.stopped(name, pipeline),
            Command::SetTimelineBlendRatio {
                name,
                value,
                time,
                easing,
                stop_when_done,
            } => self.faded(name, value, time, easing, stop_when_done),
            Command::SetOuterForce { label, x, y, time, easing } => self.pushed(
                label,
                x,
                y,
                time,
                easing,
            ),
            Command::SetOuterRot { rot, time, easing } => self.gravity_turned(rot, time, easing),
            Command::SetCoord { x, y } => self.moved_to(x, y),
            Command::SetScale { scale } => self.scaled_to(scale),
            Command::SetRot { rot } => self.turned_to(rot),
            Command::Progress { ticks } => self,
            Command::Nothing => self,
        }
    }

    /// The player after a line of a log is replayed; nothing of it is logged again.
    pub open spec fn replayed(self, command: Command, pipeline: EmoteRuntimePipeline) -> Player {
        Player { replaying: false, ..(Player { replaying: true, ..self }).called(command, pipeline) }
    }
}

impl ElunaPlayer {
    fn call(&mut self, command: &ApiCommand)
        requires
            old(self).wf(),
        ensures
            final(self).wf(),
            final(self).same_model(old(self)),
            final(self)@ == old(self)@.called(command@, old(self).pipeline()),
    {
        proof {
            reveal(Player::called);
        }
        match command {
            ApiCommand::SetVariable { name, value, time, easing } => {
                self.set_variable_timed(name, *value, *time, *easing);
            },
            ApiCommand::SetVariableDiff { module, name, value, time, easing } => {
                self.set_variable_diff(module, name, *value, *time, *easing);
            },
            ApiCommand::PlayTimeline { name, flags } => {
                self.play_timeline(name, TimelinePlayMode { flags: *flags, looping: false });
            },
            ApiCommand::StopTimeline { name } => {
                self.stop_timeline(name);
            },
            ApiCommand::SetTimelineBlendRatio { name, value, time, easing, stop_when_done } => {
                self.set_timeline_blend_ratio(name, *value, *time, *easing, *stop_when_done);
            },
            ApiCommand::SetOuterForce { label, x, y, time, easing } => {
                self.set_outer_force(label, *x, *y, *time, *easing);
            },
            ApiCommand::SetOuterRot { rot, time, easing } => {
                self.set_outer_rot(*rot, *time, *easing);
            },
            ApiCommand::SetCoord { x, y } => {
                self.set_coord(*x, *y);
            },
            ApiCommand::SetScale { scale } => {
                self.set_scale(*scale);
            },
            ApiCommand::SetRot { rot } => {
                self.set_rot(*rot);
            },
            ApiCommand::Progress { ticks: _ } => {},
            ApiCommand::Nothing => {},
        }
    }

    /// Replays a line of a log. Where the line moves the player on in time, gives the
    /// ticks by which it has to be moved on next.
    pub fn apply_api_log_entry(&mut self, entry: &EmoteApiLogEntry) -> (r: Option<Single>)
        requires
            old(self).wf(),
        ensures
            final(self).wf(),
            final(self).same_model(old(self)),
            final(self)@ == old(self)@.replayed(command_of(entry@), old(self).pipeline()),
            r == (match command_of(entry@) {
                Command::Progress { ticks } => Some(ticks),
                _ => None,
            }),
    {
        let command = entry.command();
        self.replaying_api_log = true;
        assert(self@ == (Player { replaying: true, ..old(self)@ }));
        self.call(&command);
        self.replaying_api_log = false;
        match command {
            ApiCommand::Progress { ticks } => Some(ticks),
            _ => None,
        }
    }

    /// A line of the log.
    pub fn api_log_entry(&self, i: usize) -> (r: Option<EmoteApiLogEntry>)
        ensures
            (match r {
                Some(e) => Some(e@),
                None => None,
            }) == (if i < self@.log.len() {
                Some(self@.log[i as int])
            } else {
                None
            }),
    {
        assert(self@.log.len() == self.api_log@.len());
        if i < self.api_log.len() {
            Some(self.api_log[i].duplicate())
        } else {
            None
        }
    }
}

} // verus!
