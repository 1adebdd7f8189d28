//! What a player tells of its timelines and its layers, and how it moves on.

use crate::api::{TimelinePlayMode, VariableWrite};
use crate::arrange::views;
use crate::controls::{EmoteRuntimePipeline, Selector, SelectorControl};
use crate::numerals::{decimal, decimal_u64};
use crate::order::{keys, ordered, TextMap};
use crate::playback::{all_changed, change_all, timelines_view, VarChange};
use crate::player::{drives_controls, is_auto_control_timeline_name, ElunaPlayer, Player};
use crate::single::Single;
use crate::text::{same_text, texts};
use crate::timelines::{EmoteTimeline, Timeline};
use vstd::prelude::*;

verus! {

/// The names of the timelines of a row of keys that no control drives, those with
/// differences or those without.
pub open spec fn labels(
    timelines: Map<Seq<char>, Timeline>,
    row: Seq<Seq<char>>,
    difference: bool,
) -> Seq<Seq<char>>
    decreases row.len(),
{
    if row.len() == 0 {
        Seq::empty()
    } else {
        let rest = labels(timelines, row.drop_last(), difference);
        let timeline = timelines[row.last()];
        if !drives_controls(timeline.name) && timeline.is_difference == difference {
            rest.push(timeline.name)
        } else {
            rest
        }
    }
}

/// The first selector with a label.
pub open spec fn selector_named(row: Seq<Selector>, label: Seq<char>) -> Option<Selector>
    decreases row.len(),
{
    if row.len() == 0 {
        None
    } else if row[0].label == label {
        Some(row[0])
    } else {
        selector_named(row.drop_first(), label)
    }
}

/// Why a selector cannot be set.
pub open spec fn selector_fault(found: Option<Selector>, label: Seq<char>, index: usize) -> Option<
    Seq<char>,
> {
    match found {
        None => Some("selectorControl not found: "@ + label),
        Some(control) => if index >= control.choices.len() {
            Some(
                "selectorControl "@ + label + " option index "@ + decimal(index as int)
                    + " out of range "@ + decimal(control.choices.len() as int),
            )
        } else {
            None
        },
    }
}

impl Player {
    /// Whether a player moves on by a step.
    pub open spec fn moves_by(self, delta: Single) -> bool {
        delta.is_finite() && !delta.le(Single::zero())
    }

    /// The player moved on up to its bodies: its clock, its timelines unless it is
    /// paused, and its controls.
    pub open spec fn begun(self, delta: Single, pipeline: EmoteRuntimePipeline) -> Player {
        let later = Player { elapsed_ticks: self.elapsed_ticks.plus(delta), ..self };
        (if self.paused {
            later
        } else {
            later.timelines_moved(delta)
        }).controlled(pipeline)
    }

    /// The player with its variables moved on toward their targets.
    pub open spec fn finished(self, delta: Single) -> Player {
        Player {
            vars: all_changed(self.vars, VarChange::MoveOn(delta)),
            modified: true,
            ..self
        }
    }

    /// Whether anything of the player moves by itself.
    pub open spec fn animates(self) -> bool {
        ||| exists|k: Seq<char>| #[trigger]
            self.running.dom().contains(k) && Single::zero().lt(self.running[k].blend_ratio)
        ||| exists|k: Seq<char>| #[trigger]
            self.vars.dom().contains(k) && self.vars[k].target is Some
        ||| self.wind is Some
    }
}

fn seek_selector<'a>(row: &'a Vec<SelectorControl>, label: &str) -> (r: Option<&'a SelectorControl>)
    ensures
        (match r {
            Some(c) => Some(c@),
            None => None,
        }) == selector_named(views(row@), label@),
{
    let ghost all = views(row@);
    let mut i: usize = 0;
    assert(all.skip(0) =~= all);
    while i < row.len()
        invariant
            i <= row@.len(),
            all == views(row@),
            selector_named(all, label@) == selector_named(all.skip(i as int), label@),
        decreases row@.len() - i,
    {
        let ghost rest = all.skip(i as int);
        assert(rest[0] == row@[i as int]@);
        assert(rest.drop_first() =~= all.skip(i + 1));
        if same_text(row[i].label.as_str(), label) {
            return Some(&row[i]);
        }
        i = i + 1;
    }
    None
}

/// The text of an index that lies behind the last option.
fn out_of_range(label: &str, index: usize, count: usize) -> (r: String)
    ensures
        r@ == "selectorControl "@ + label@ + " option index "@ + decimal(index as int)
            + " out of range "@ + decimal(count as int),
{
    let mut r = "selectorControl ".to_owned();
    r.append(label);
    r.append(" option index ");
    r.append(decimal_u64(index as u64).as_str());
    r.append(" out of range ");
    r.append(decimal_u64(count as u64).as_str());
    r
}

impl ElunaPlayer {
    pub fn timelines(&self) -> (r: &TextMap<EmoteTimeline>)
        ensures
            timelines_view(*r) == self@.timelines,
            self.wf() ==> r.wf(),
    {
        &self.timelines
    }

    pub fn pending_writes(&self) -> (r: &Vec<VariableWrite>)
        ensures
            views(r@) == self@.pending,
    {
        &self.pending_writes
    }

    pub fn active_timelines(&self) -> (r: &TextMap<TimelinePlayMode>)
        ensures
            r@ == self@.active,
            self.wf() ==> r.wf(),
    {
        &self.active_timelines
    }

    pub fn runtime_pipeline(&self) -> (r: &EmoteRuntimePipeline)
        ensures
            *r == self.pipeline(),
    {
        &self.runtime_pipeline
    }

    fn list_labels(&self, difference: bool) -> (r: Vec<String>)
        requires
            self.wf(),
        ensures
            texts(r@) == labels(self@.timelines, ordered(self@.timelines.dom()), difference),
    {
        let entries = &self.timelines.entries;
        let ghost row = keys(entries@);
        let ghost map = self@.timelines;
        let mut r: Vec<String> = Vec::new();
        let mut i: usize = 0;
        proof {
            self.timelines.lemma_ordered();
            assert(map.dom() =~= self.timelines@.dom());
            assert(texts(r@) =~= Seq::<Seq<char>>::empty());
        }
        while i < entries.len()
            invariant
                i <= entries@.len(),
                self.wf(),
                *entries == self.timelines.entries,
                row == keys(entries@),
                map == self@.timelines,
                texts(r@) == labels(map, row.take(i as int), difference),
            decreases entries@.len() - i,
        {
            proof {
                self.timelines.lemma_entry(i as int);
                assert(row.take(i + 1).drop_last() =~= row.take(i as int));
                assert(map[row[i as int]] == entries@[i as int].1@);
            }
            let timeline = &entries[i].1;
            let ghost was = texts(r@);
            if !is_auto_control_timeline_name(timeline.name.as_str()) && timeline.is_difference
                == difference {
                r.push(timeline.name.clone());
                assert(texts(r@) =~= was.push(timeline.name@));
            }
            i = i + 1;
        }
        assert(row.take(i as int) =~= row);
        r
    }

    /// The names of the timelines without differences that no control drives.
    pub fn main_timeline_labels(&self) -> (r: Vec<String>)
        requires
            self.wf(),
        ensures
            texts(r@) == labels(self@.timelines, ordered(self@.timelines.dom()), false),
    {
        self.list_labels(false)
    }

    /// The names of the timelines with differences that no control drives.
    pub fn diff_timeline_labels(&self) -> (r: Vec<String>)
        requires
            self.wf(),
        ensures
            texts(r@) == labels(self@.timelines, ordered(self@.timelines.dom()), true),
    {
        self.list_labels(true)
    }

    /// The timelines that are playing, by name, with their flags.
    pub fn playing_timeline_info(&self) -> (r: Vec<(String, u32)>)
        requires
            self.wf(),
        ensures
            keys(r@) == ordered(self@.active.dom()),
            forall|i: int|
                0 <= i < r@.len() ==> (#[trigger] r@[i]).1 == self@.active[r@[i].0@].flags,
    {
        let entries = &self.active_timelines.entries;
        let mut r: Vec<(String, u32)> = Vec::new();
        let mut i: usize = 0;
        proof {
            self.active_timelines.lemma_ordered();
        }
        while i < entries.len()
            invariant
                i <= entries@.len(),
                self.wf(),
                *entries == self.active_timelines.entries,
                r@.len() == i,
                forall|j: int|
                    0 <= j < i ==> (#[trigger] r@[j]).0@ == entries@[j].0@ && r@[j].1
                        == self@.active[entries@[j].0@].flags,
            decreases entries@.len() - i,
        {
            proof {
                self.active_timelines.lemma_entry(i as int);
            }
            r.push((entries[i].0.clone(), entries[i].1.flags));
            i = i + 1;
        }
        assert(keys(r@) =~= keys(entries@));
        r
    }

    /// Sets a selector to one of its options.
    pub fn set_selector_option(&mut self, label: &str, option_index: usize) -> (r: Result<(), String>)
        requires
            old(self).wf(),
        ensures
            final(self).wf(),
            final(self).same_model(old(self)),
            match selector_fault(
                selector_named(views(old(self).pipeline().selector_controls@), label@),
                label@,
                option_index,
            ) {
                Some(fault) => r is Err && r->Err_0@ == fault && final(self)@ == old(self)@,
                None => r is Ok && final(self)@ == old(self)@.set_now(
                    label@,
                    Single::from_count(option_index),
                    old(self).pipeline(),
                ).controlled(old(self).pipeline()),
            },
    {
        match seek_selector(&self.runtime_pipeline.selector_controls, label) {
            None => {
                return Err(crate::text::concat_text("selectorControl not found: ", label));
            },
            Some(control) => {
                assert(control@.choices.len() == control.option_list@.len());
                let count = control.option_list.len();
                if option_index >= count {
                    return Err(out_of_range(label, option_index, count));
                }
            },
        }
        self.set_variable_immediate(label, Single::from_count(option_index));
        self.evaluate_runtime_pipeline();
        Ok(())
    }

    /// Whether anything of the player moves by itself: a timeline with a share above
    /// zero, a variable on its way, or the wind.
    pub fn is_animating(&self) -> (r: bool)
        requires
            self.wf(),
        ensures
            r == self@.animates(),
    {
        let running = &self.active_timeline_states.entries;
        let mut i: usize = 0;
        while i < running.len()
            invariant
                i <= running@.len(),
                self.wf(),
                *running == self.active_timeline_states.entries,
                forall|j: int|
                    0 <= j < i ==> !Single::zero().lt((#[trigger] running@[j]).1.blend_ratio),
            decreases running@.len() - i,
        {
            if Single::zero().lt(running[i].1.blend_ratio) {
                proof {
                    self.active_timeline_states.lemma_entry(i as int);
                    assert(self@.running.dom().contains(running@[i as int].0@));
                }
                return true;
            }
            i = i + 1;
        }
        assert forall|k: Seq<char>| #[trigger] self@.running.dom().contains(k) implies !(
        Single::zero().lt(self@.running[k].blend_ratio)) by {
            self.active_timeline_states.lemma_position(k);
            self.active_timeline_states.lemma_entry(self.active_timeline_states.position(k));
        }
        let variables = &self.variables.entries;
        let mut j: usize = 0;
        while j < variables.len()
            invariant
                j <= variables@.len(),
                self.wf(),
                *variables == self.variables.entries,
                forall|k: int| 0 <= k < j ==> (#[trigger] variables@[k]).1.target is None,
            decreases variables@.len() - j,
        {
            if variables[j].1.target.is_some() {
                proof {
                    self.variables.lemma_entry(j as int);
                    assert(self@.vars.dom().contains(variables@[j as int].0@));
                }
                return true;
            }
            j = j + 1;
        }
        assert forall|k: Seq<char>| #[trigger]
            self@.vars.dom().contains(k) implies self@.vars[k].target is None by {
            self.variables.lemma_position(k);
            self.variables.lemma_entry(self.variables.position(k));
        }
        self.wind.is_some()
    }

    /// Starts to move on by some ticks: the clock, the timelines unless the player is
    /// paused, and the controls. Says whether the player moves at all; the bodies that
    /// physics moves come next, and `finish_progress` after them.
    pub fn begin_progress(&mut self, delta: Single) -> (r: bool)
        requires
            old(self).wf(),
        ensures
            final(self).wf(),
            final(self).same_model(old(self)),
            r == old(self)@.moves_by(delta),
            final(self)@ == (if r {
                old(self)@.begun(delta, old(self).pipeline())
            } else {
                old(self)@
            }),
    {
        if !delta.is_finite() || delta.le(Single::zero()) {
            return false;
        }
        self.elapsed_ticks = self.elapsed_ticks.plus(delta);
        let ghost later = self@;
        assert(later == (Player { elapsed_ticks: old(self)@.elapsed_ticks.plus(delta), ..old(self)@ }));
        if !self.paused {
            self.progress_active_timelines(delta);
        }
        self.evaluate_runtime_pipeline();
        true
    }

    /// Ends what `begin_progress` started: moves the variables toward their targets.
    pub fn finish_progress(&mut self, delta: Single)
        requires
            old(self).wf(),
        ensures
            final(self).wf(),
            final(self).same_model(old(self)),
            final(self)@ == old(self)@.finished(delta),
    {
        self.modified = true;
        change_all(&mut self.variables, VarChange::MoveOn(delta));
    }

    /// Moves on by some ticks and leaves the bodies as they are.
    pub fn progress_ticks_without_physics(&mut self, delta: Single)
        requires
            old(self).wf(),
        ensures
            final(self).wf(),
            final(self).same_model(old(self)),
            final(self)@ == (if old(self)@.moves_by(delta) {
                old(self)@.begun(delta, old(self).pipeline()).finished(delta)
            } else {
                old(self)@
            }),
    {
        if self.begin_progress(delta) {
            self.finish_progress(delta);
        }
    }

    /// Logs a step of one tick.
    pub fn record_step(&mut self)
        requires
            old(self).wf(),
        ensures
            final(self).wf(),
            final(self).same_model(old(self)),
            final(self)@ == old(self)@.logged("Step"@, Seq::empty()),
    {
        let args: Vec<String> = Vec::new();
        assert(texts(args@) =~= Seq::<Seq<char>>::empty());
        self.record_api_call("Step", args);
    }
}

} // verus!
