//! The desk of a preview: which timelines play, and what its lists show.

use crate::api::{
    milliseconds_per_second, milliseconds_to_emote_ticks, ticks_per_second, TimelinePlayMode,
};
use crate::arrange::views;
use crate::controls::EmoteRuntimePipeline;
use crate::order::{keys, ordered};
use crate::player::{drives_controls, is_auto_control_timeline_name, ElunaPlayer, Player};
use crate::single::Single;
use crate::text::{opt_text, same_text, texts};
use crate::variables::{find_greatest, find_least, greatest, least, EmoteVariableFrameInfo};
use crate::viewer::find_playing_main;
use vstd::prelude::*;

verus! {

/// The choices of a user.
#[derive(Debug)]
pub struct Desk {
    /// The main timeline, nothing for none.
    pub main_timeline: String,
    /// The timelines with differences, slot by slot.
    pub diff_timeline_slots: Vec<String>,
    pub timeline_loop: bool,
    pub diff_fadeout_ms: Single,
    /// Whether the scene has to be built anew.
    pub dirty: bool,
}

/// A `Desk` by its characters.
#[verifier::ext_equal]
pub struct Choices {
    pub main: Seq<char>,
    pub slots: Seq<Seq<char>>,
    pub looping: bool,
    pub fadeout_ms: Single,
    pub dirty: bool,
}

impl View for Desk {
    type V = Choices;

    open spec fn view(&self) -> Choices {
        Choices {
            main: self.main_timeline@,
            slots: texts(self.diff_timeline_slots@),
            looping: self.timeline_loop,
            fadeout_ms: self.diff_fadeout_ms,
            dirty: self.dirty,
        }
    }
}

/// How many timelines with differences play at once.
pub const DIFF_SLOTS: usize = 6;

/// As many empty texts as there are slots.
pub open spec fn empty_slots() -> Seq<Seq<char>> {
    Seq::new(DIFF_SLOTS as nat, |i: int| Seq::empty())
}

fn make_slots() -> (r: Vec<String>)
    ensures
        texts(r@) == empty_slots(),
{
    let mut r: Vec<String> = Vec::new();
    let mut i: usize = 0;
    while i < DIFF_SLOTS
        invariant
            i <= DIFF_SLOTS,
            r@.len() == i,
            forall|j: int| 0 <= j < i ==> (#[trigger] r@[j])@.len() == 0,
        decreases DIFF_SLOTS - i,
    {
        r.push(String::new());
        i = i + 1;
    }
    assert(texts(r@) =~= empty_slots()) by {
        assert forall|j: int| 0 <= j < DIFF_SLOTS implies texts(r@)[j] == empty_slots()[j] by {
            assert(r@[j]@ =~= Seq::<char>::empty());
        }
    }
    r
}

impl Choices {
    /// The ticks within which a timeline with differences fades out.
    pub open spec fn fade_ticks(self) -> Single {
        self.fadeout_ms.times(ticks_per_second()).over(milliseconds_per_second())
    }

    /// The mode that the main timeline is played in.
    pub open spec fn main_mode(self) -> TimelinePlayMode {
        TimelinePlayMode::parallel().with_looping(self.looping)
    }

    /// The player without the main timeline, where another takes its place.
    pub open spec fn main_stopped(
        self,
        player: Player,
        next: Seq<char>,
        pipeline: EmoteRuntimePipeline,
    ) -> Player {
        if self.main.len() > 0 && self.main != next {
            player.stopped(self.main, pipeline)
        } else {
            player
        }
    }

    /// The player with a slot given up for another timeline.
    pub open spec fn slot_faded(self, player: Player, slot: int, next: Seq<char>) -> Player {
        let before = self.slots[slot];
        if before.len() > 0 && before != next {
            player.faded(before, Single::zero(), self.fade_ticks(), Single::zero(), true)
        } else {
            player
        }
    }
}

/// The timelines that play and that no control drives, with their modes.
pub open spec fn restartable(
    active: Map<Seq<char>, TimelinePlayMode>,
    row: Seq<Seq<char>>,
) -> Seq<(Seq<char>, TimelinePlayMode)>
    decreases row.len(),
{
    if row.len() == 0 {
        Seq::empty()
    } else {
        let rest = restartable(active, row.drop_last());
        if drives_controls(row.last()) {
            rest
        } else {
            rest.push((row.last(), active[row.last()]))
        }
    }
}

/// The player after a row of timelines is stopped and played again, one by one.
pub open spec fn restarted(
    player: Player,
    row: Seq<(Seq<char>, TimelinePlayMode)>,
    pipeline: EmoteRuntimePipeline,
) -> Player
    decreases row.len(),
{
    if row.len() == 0 {
        player
    } else {
        let (name, mode) = row.last();
        restarted(player, row.drop_last(), pipeline).stopped(name, pipeline).played(
            name,
            mode,
            pipeline,
        )
    }
}

/// The names and modes by their characters.
pub open spec fn modes_view(row: Seq<(String, TimelinePlayMode)>) -> Seq<
    (Seq<char>, TimelinePlayMode),
> {
    row.map_values(|e: (String, TimelinePlayMode)| (e.0@, e.1))
}

fn list_restartable(player: &ElunaPlayer) -> (r: Vec<(String, TimelinePlayMode)>)
    requires
        player.wf(),
    ensures
        modes_view(r@) == restartable(player@.active, ordered(player@.active.dom())),
{
    let entries = &player.active_timelines.entries;
    let ghost row = keys(entries@);
    let ghost map = player@.active;
    let mut r: Vec<(String, TimelinePlayMode)> = Vec::new();
    let mut i: usize = 0;
    proof {
        player.active_timelines.lemma_ordered();
        assert(modes_view(r@) =~= Seq::<(Seq<char>, TimelinePlayMode)>::empty());
    }
    while i < entries.len()
        invariant
            i <= entries@.len(),
            player.wf(),
            *entries == player.active_timelines.entries,
            row == keys(entries@),
            map == player@.active,
            modes_view(r@) == restartable(map, row.take(i as int)),
        decreases entries@.len() - i,
    {
        proof {
            player.active_timelines.lemma_entry(i as int);
            assert(row.take(i + 1).drop_last() =~= row.take(i as int));
        }
        let ghost before = modes_view(r@);
        if !is_auto_control_timeline_name(entries[i].0.as_str()) {
            r.push((entries[i].0.clone(), entries[i].1));
            assert(modes_view(r@) =~= before.push((entries@[i as int].0@, entries@[i as int].1)));
        }
        i = i + 1;
    }
    assert(row.take(i as int) =~= row);
    r
}

impl Desk {
    pub fn new() -> (r: Desk)
        ensures
            r@ == (Choices {
                main: Seq::empty(),
                slots: empty_slots(),
                looping: true,
                fadeout_ms: Single::spec_from_i64(300),
                dirty: false,
            }),
    {
        let r = Desk {
            main_timeline: String::new(),
            diff_timeline_slots: make_slots(),
            timeline_loop: true,
            diff_fadeout_ms: Single::from_i64(300),
            dirty: false,
        };
        assert(r@.main =~= Seq::<char>::empty());
        r
    }

    /// Takes the main timeline that is playing over, where none is chosen.
    pub fn adopt_main(&mut self, player: &ElunaPlayer)
        requires
            player.wf(),
        ensures
            final(self)@ == (match player@.playing_main() {
                Some(name) => if old(self)@.main.len() == 0 {
                    Choices { main: name, ..old(self)@ }
                } else {
                    old(self)@
                },
                None => old(self)@,
            }),
    {
        if self.main_timeline.as_str().is_empty() {
            if let Some(name) = find_playing_main(player) {
                self.main_timeline = name;
            }
        }
    }

    /// Chooses a main timeline, or none.
    pub fn choose_main(&mut self, player: &mut ElunaPlayer, name: Option<&str>)
        requires
            old(player).wf(),
        ensures
            final(player).wf(),
            final(player).same_model(old(player)),
            match opt_text(name) {
                None => {
                    &&& final(self)@ == Choices { main: Seq::empty(), dirty: true, ..old(self)@ }
                    &&& final(player)@ == old(self)@.main_stopped(
                        old(player)@,
                        Seq::empty(),
                        old(player).pipeline(),
                    )
                },
                Some(next) => {
                    &&& final(self)@ == Choices { main: next, dirty: true, ..old(self)@ }
                    &&& final(player)@ == old(self)@.main_stopped(
                        old(player)@,
                        next,
                        old(player).pipeline(),
                    ).played(next, old(self)@.main_mode(), old(player).pipeline())
                },
            },
    {
        let next = match name {
            Some(n) => n,
            None => "",
        };
        proof {
            reveal_strlit("");
            assert(""@ =~= Seq::<char>::empty());
        }
        if !self.main_timeline.as_str().is_empty() && !same_text(
            self.main_timeline.as_str(),
            next,
        ) {
            player.stop_timeline(self.main_timeline.as_str());
        }
        self.main_timeline = next.to_owned();
        if let Some(n) = name {
            player.play_timeline(
                n,
                TimelinePlayMode::parallel().with_looping(self.timeline_loop),
            );
        }
        self.dirty = true;
    }

    /// Says whether the main timeline starts over at its end. It is played anew, from
    /// the time at which it was.
    pub fn set_loop(&mut self, player: &mut ElunaPlayer, looping: bool)
        requires
            old(player).wf(),
        ensures
            final(player).wf(),
            final(player).same_model(old(player)),
            ({
                let main = old(self)@.main;
                let chosen = Choices { looping, ..old(self)@ };
                let pipeline = old(player).pipeline();
                let elapsed = if old(player)@.running.dom().contains(main) {
                    old(player)@.running[main].elapsed_ticks
                } else {
                    Single::zero()
                };
                let played = old(player)@.played(main, chosen.main_mode(), pipeline);
                if main.len() == 0 {
                    final(self)@ == chosen && final(player)@ == old(player)@
                } else {
                    &&& final(self)@ == Choices { dirty: true, ..chosen }
                    &&& final(player)@ == if played.timelines.dom().contains(main) {
                        played.sought(main, elapsed, pipeline)
                    } else {
                        played
                    }
                }
            }),
    {
        self.timeline_loop = looping;
        let main = self.main_timeline.as_str();
        if !main.is_empty() {
            let elapsed = player.timeline_elapsed_ticks(main);
            player.play_timeline(main, TimelinePlayMode::parallel().with_looping(looping));
            match player.set_timeline_time(main, elapsed) {
                Ok(()) => {},
                Err(_m) => {},
            }
            self.dirty = true;
        }
    }

    /// Stops all timelines.
    pub fn stop_all(&mut self, player: &mut ElunaPlayer)
        requires
            old(player).wf(),
        ensures
            final(player).wf(),
            final(player).same_model(old(player)),
            final(player)@ == old(player)@.stopped(Seq::empty(), old(player).pipeline()),
            final(self)@ == (Choices {
                main: Seq::empty(),
                slots: empty_slots(),
                dirty: true,
                ..old(self)@
            }),
    {
        proof {
            reveal_strlit("");
            assert(""@ =~= Seq::<char>::empty());
        }
        player.stop_timeline("");
        self.main_timeline = "".to_owned();
        self.diff_timeline_slots = make_slots();
        self.dirty = true;
    }

    /// Plays all timelines again that play and that no control drives.
    pub fn restart_active(&mut self, player: &mut ElunaPlayer)
        requires
            old(player).wf(),
        ensures
            final(player).wf(),
            final(player).same_model(old(player)),
            final(player)@ == restarted(
                old(player)@,
                restartable(old(player)@.active, ordered(old(player)@.active.dom())),
                old(player).pipeline(),
            ),
            final(self)@ == (Choices { dirty: true, ..old(self)@ }),
    {
        let ghost start = player@;
        let ghost pipeline = player.runtime_pipeline;
        let row = list_restartable(player);
        let ghost all = modes_view(row@);
        let mut i: usize = 0;
        assert(all.take(0) =~= Seq::<(Seq<char>, TimelinePlayMode)>::empty());
        while i < row.len()
            invariant
                i <= row@.len(),
                all == modes_view(row@),
                start == old(player)@,
                pipeline == old(player).runtime_pipeline,
                player.wf(),
                player.same_model(old(player)),
                player@ == restarted(start, all.take(i as int), pipeline),
            decreases row@.len() - i,
        {
            assert(all.take(i + 1).drop_last() =~= all.take(i as int));
            assert(all.take(i + 1).last() == (row@[i as int].0@, row@[i as int].1));
            player.stop_timeline(row[i].0.as_str());
            player.play_timeline(row[i].0.as_str(), row[i].1);
            i = i + 1;
        }
        assert(all.take(i as int) =~= all);
        self.dirty = true;
    }

    /// Chooses the timeline of a slot, or none.
    pub fn choose_diff(&mut self, player: &mut ElunaPlayer, slot: usize, name: Option<&str>)
        requires
            old(player).wf(),
            slot < old(self).diff_timeline_slots@.len(),
        ensures
            final(player).wf(),
            final(player).same_model(old(player)),
            match opt_text(name) {
                None => {
                    &&& final(self)@ == Choices {
                        slots: old(self)@.slots.update(slot as int, Seq::empty()),
                        dirty: true,
                        ..old(self)@
                    }
                    &&& final(player)@ == old(self)@.slot_faded(
                        old(player)@,
                        slot as int,
                        Seq::empty(),
                    )
                },
                Some(next) => {
                    &&& final(self)@ == Choices {
                        slots: old(self)@.slots.update(slot as int, next),
                        dirty: true,
                        ..old(self)@
                    }
                    &&& final(player)@ == old(self)@.slot_faded(
                        old(player)@,
                        slot as int,
                        next,
                    ).played(
                        next,
                        TimelinePlayMode::parallel_difference(),
                        old(player).pipeline(),
                    )
                },
            },
    {
        let next = match name {
            Some(n) => n,
            None => "",
        };
        proof {
            reveal_strlit("");
            assert(""@ =~= Seq::<char>::empty());
        }
        let ghost before = self@.slots;
        let prev = self.diff_timeline_slots[slot].as_str();
        if !prev.is_empty() && !same_text(prev, next) {
            player.fade_out_timeline(
                prev,
                milliseconds_to_emote_ticks(self.diff_fadeout_ms),
                Single::zero(),
            );
        }
        self.diff_timeline_slots.set(slot, next.to_owned());
        assert(self@.slots =~= before.update(slot as int, next@));
        if let Some(n) = name {
            player.play_timeline(n, TimelinePlayMode::parallel_difference());
        }
        self.dirty = true;
    }
}

/// What is known of the range of a slider.
#[derive(Clone, Copy, Debug, PartialEq, Eq, Structural)]
pub enum RangeNote {
    Known,
    SingleKey,
    Unknown,
}

/// The range of a slider.
#[derive(Clone, Copy, Debug, PartialEq, Eq, Structural)]
pub struct SliderRange {
    pub min: Single,
    pub max: Single,
    pub note: RangeNote,
}

/// The range of the slider of a variable: its own, else that of its labelled values;
/// one to either side where no range is known.
pub open spec fn slider_range_of(
    value: Single,
    min: Option<Single>,
    max: Option<Single>,
) -> SliderRange {
    let around = |x: Single, note: RangeNote|
        SliderRange { min: x.minus(Single::one()), max: x.plus(Single::one()), note };
    match (min, max) {
        (Some(a), Some(b)) => if a.lt(b) {
            SliderRange { min: a, max: b, note: RangeNote::Known }
        } else {
            around(a, RangeNote::SingleKey)
        },
        (Some(a), None) => around(a, RangeNote::SingleKey),
        (None, Some(b)) => around(b, RangeNote::SingleKey),
        (None, None) => around(value, RangeNote::Unknown),
    }
}

fn around(x: Single, note: RangeNote) -> (r: SliderRange)
    ensures
        r == (SliderRange { min: x.minus(Single::one()), max: x.plus(Single::one()), note }),
{
    SliderRange { min: x.minus(Single::one()), max: x.plus(Single::one()), note }
}

/// The range of the slider of a variable.
pub fn slider_range(
    value: Single,
    min_value: Option<Single>,
    max_value: Option<Single>,
    frames: &Vec<EmoteVariableFrameInfo>,
) -> (r: SliderRange)
    ensures
        r == slider_range_of(
            value,
            if min_value is Some {
                min_value
            } else {
                least(views(frames@))
            },
            if max_value is Some {
                max_value
            } else {
                greatest(views(frames@))
            },
        ),
{
    let min = match min_value {
        Some(v) => Some(v),
        None => find_least(frames),
    };
    let max = match max_value {
        Some(v) => Some(v),
        None => find_greatest(frames),
    };
    match (min, max) {
        (Some(a), Some(b)) => if a.lt(b) {
            SliderRange { min: a, max: b, note: RangeNote::Known }
        } else {
            around(a, RangeNote::SingleKey)
        },
        (Some(a), None) => around(a, RangeNote::SingleKey),
        (None, Some(b)) => around(b, RangeNote::SingleKey),
        (None, None) => around(value, RangeNote::Unknown),
    }
}

/// The option that a selector with a value stands at, where it has that many.
pub fn selected_option(value: Single, options: usize) -> (r: Option<usize>)
    ensures
        ({
            let i = value.rounded_into(0, i64::MAX as int);
            r == if i < options {
                Some(i as usize)
            } else {
                None
            }
        }),
{
    let i: i64 = value.rounded(0, i64::MAX);
    if (i as u64) < options as u64 {
        Some(i as usize)
    } else {
        None
    }
}

/// Thirty, how far the slider of a variable of the face goes where no bound is known.
#[verifier::allow_in_spec]
pub fn face_reach() -> (r: Single)
    returns
        (Single { bits: 0x41f0_0000 }),
{
    Single { bits: 0x41f0_0000 }
}

/// The range of the slider of a variable of the face.
pub fn face_slider_range(min_value: Option<Single>, max_value: Option<Single>) -> (r: (
    Single,
    Single,
))
    ensures
        r.0 == min_value.unwrap_or(face_reach().neg()),
        r.1 == max_value.unwrap_or(face_reach()),
{
    (min_value.unwrap_or(face_reach().neg()), max_value.unwrap_or(face_reach()))
}

} // verus!
