//! How controls drive the variables.

use crate::arrange::views;
use crate::controls::{
    Choice, Clamp, ClampControl, EmoteRuntimePipeline, LoopControl, LoopTransition, Looper,
    Selector, SelectorControl,
};
use crate::curve::{lerp, unit_clamp};
use crate::order::TextMap;
use crate::single::Single;
use crate::variables::{fresh_state, EmoteVariableState, VarState};
use vstd::prelude::*;

verus! {

/// The states of the variables by their characters.
pub open spec fn states(m: TextMap<EmoteVariableState>) -> Map<Seq<char>, VarState> {
    m@.map_values(|s: EmoteVariableState| s@)
}

/// The value of a variable, zero where there is none.
pub open spec fn value_or_zero(vars: Map<Seq<char>, VarState>, name: Seq<char>) -> Single {
    if vars.dom().contains(name) {
        vars[name].value
    } else {
        Single::zero()
    }
}

pub fn find_value_or_zero(variables: &TextMap<EmoteVariableState>, name: &str) -> (r: Single)
    requires
        variables.wf(),
    ensures
        r == value_or_zero(states(*variables), name@),
{
    match variables.get(name) {
        Some(s) => s.value,
        None => Single::zero(),
    }
}

/// The variables with one set by a control: held in its range, moving nowhere. No
/// name and no finite value change nothing; a variable that is not there is made.
pub open spec fn with_evaluated(
    vars: Map<Seq<char>, VarState>,
    name: Seq<char>,
    value: Single,
) -> Map<Seq<char>, VarState> {
    if name.len() == 0 || !value.is_finite() {
        vars
    } else {
        let state = if vars.dom().contains(name) {
            vars[name]
        } else {
            fresh_state(name, value)
        };
        vars.insert(
            name,
            VarState { value: state.info.clamp(value), target: None, ..state },
        )
    }
}

fn set_value(state: &mut EmoteVariableState, value: Single)
    ensures
        final(state)@ == (VarState {
            value: old(state)@.info.clamp(value),
            target: None,
            ..old(state)@
        }),
{
    state.value = state.info.clamp(value);
    state.target = None;
}

pub fn set_evaluated_variable(
    variables: &mut TextMap<EmoteVariableState>,
    name: &str,
    value: Single,
)
    requires
        old(variables).wf(),
    ensures
        final(variables).wf(),
        states(*final(variables)) == with_evaluated(states(*old(variables)), name@, value),
{
    if name.is_empty() || !value.is_finite() {
        return;
    }
    let ghost start = *variables;
    match variables.find(name) {
        Some(i) => {
            let state = variables.value_mut(i);
            set_value(state, value);
            let ghost now = *state;
            proof {
                variables.lemma_changed(start, i as int, now);
                assert(states(*variables) =~= with_evaluated(states(start), name@, value));
            }
        },
        None => {
            let mut state = EmoteVariableState::fresh(name, value);
            set_value(&mut state, value);
            variables.insert(name.to_owned(), state);
            assert(states(*variables) =~= with_evaluated(states(start), name@, value));
        },
    }
}

/// The variables with the first `n` choices of a selector set; the selected one is
/// on, the others are off.
pub open spec fn with_choices(
    vars: Map<Seq<char>, VarState>,
    choices: Seq<Choice>,
    selected: int,
    n: nat,
) -> Map<Seq<char>, VarState>
    decreases n,
{
    if n == 0 || n > choices.len() {
        vars
    } else {
        let choice = choices[n - 1];
        with_evaluated(
            with_choices(vars, choices, selected, (n - 1) as nat),
            choice.label,
            if selected == n - 1 {
                choice.on_value
            } else {
                choice.off_value
            },
        )
    }
}

/// The variables after a selector: the nearest whole number of its own variable
/// selects.
pub open spec fn after_selector(vars: Map<Seq<char>, VarState>, control: Selector) -> Map<
    Seq<char>,
    VarState,
> {
    if !control.enabled {
        vars
    } else {
        let selected = value_or_zero(vars, control.label).rounded_into(
            i64::MIN as int,
            i64::MAX as int,
        );
        with_choices(vars, control.choices, selected, control.choices.len())
    }
}

pub fn evaluate_selector_control(
    control: &SelectorControl,
    variables: &mut TextMap<EmoteVariableState>,
)
    requires
        old(variables).wf(),
    ensures
        final(variables).wf(),
        states(*final(variables)) == after_selector(states(*old(variables)), control@),
{
    if !control.enabled {
        return;
    }
    let value = find_value_or_zero(variables, control.label.as_str());
    let selected: i64 = value.rounded(i64::MIN, i64::MAX);
    let ghost start = states(*variables);
    let ghost choices = control@.choices;
    let mut i: usize = 0;
    while i < control.option_list.len()
        invariant
            i <= control.option_list@.len(),
            choices == views(control.option_list@),
            variables.wf(),
            states(*variables) == with_choices(start, choices, selected as int, i as nat),
        decreases control.option_list@.len() - i,
    {
        let option = &control.option_list[i];
        let on = selected >= 0 && selected as u64 == i as u64;
        let value = if on {
            option.on_value
        } else {
            option.off_value
        };
        assert(choices[i as int] == option@);
        set_evaluated_variable(variables, option.label.as_str(), value);
        i = i + 1;
    }
}

/// How long the stretches of a loop take together.
pub open spec fn total_duration(stretches: Seq<LoopTransition>) -> Single
    decreases stretches.len(),
{
    if stretches.len() == 0 {
        Single::zero()
    } else {
        total_duration(stretches.drop_last()).plus(
            stretches.last().duration_ticks.max(Single::zero()),
        )
    }
}

/// The value of a row of stretches at a time: that of the first one that is not
/// over, where there is one.
pub open spec fn stretch_value(stretches: Seq<LoopTransition>, t: Single) -> Option<Single>
    decreases stretches.len(),
{
    if stretches.len() == 0 {
        None
    } else {
        let item = stretches[0];
        let duration = item.duration_ticks.max(Single::zero());
        if t.le(duration) || duration.le(Single::epsilon()) {
            let ratio = if duration.le(Single::epsilon()) {
                Single::one()
            } else {
                unit_clamp(t.over(duration))
            };
            Some(lerp(item.start, item.end, ratio))
        } else {
            stretch_value(stretches.drop_first(), t.minus(duration))
        }
    }
}

/// The variables after a loop control at a time.
pub open spec fn after_loop(vars: Map<Seq<char>, VarState>, control: Looper, elapsed: Single) -> Map<
    Seq<char>,
    VarState,
> {
    let total = total_duration(control.stretches);
    match control.var_loop {
        Some(name) => if !control.enabled || total.le(Single::epsilon()) {
            vars
        } else {
            match stretch_value(control.stretches, elapsed.rem_euclid(total)) {
                Some(value) => with_evaluated(vars, name, value),
                None => vars,
            }
        },
        None => vars,
    }
}

fn sum_durations(stretches: &Vec<LoopTransition>) -> (r: Single)
    ensures
        r == total_duration(stretches@),
{
    let mut r = Single::zero();
    let mut i: usize = 0;
    while i < stretches.len()
        invariant
            i <= stretches@.len(),
            r == total_duration(stretches@.take(i as int)),
        decreases stretches@.len() - i,
    {
        assert(stretches@.take(i + 1).drop_last() =~= stretches@.take(i as int));
        r = r.plus(stretches[i].duration_ticks.max(Single::zero()));
        i = i + 1;
    }
    assert(stretches@.take(i as int) =~= stretches@);
    r
}

fn find_stretch_value(stretches: &Vec<LoopTransition>, time: Single) -> (r: Option<Single>)
    ensures
        r == stretch_value(stretches@, time),
{
    let mut t = time;
    let mut i: usize = 0;
    assert(stretches@.skip(0) =~= stretches@);
    while i < stretches.len()
        invariant
            i <= stretches@.len(),
            stretch_value(stretches@, time) == stretch_value(stretches@.skip(i as int), t),
        decreases stretches@.len() - i,
    {
        assert(stretches@.skip(i as int).drop_first() =~= stretches@.skip(i + 1));
        let item = stretches[i];
        let duration = item.duration_ticks.max(Single::zero());
        if t.le(duration) || duration.le(Single::epsilon()) {
            let ratio = if duration.le(Single::epsilon()) {
                Single::one()
            } else {
                unit_clamp(t.over(duration))
            };
            return Some(lerp(item.start, item.end, ratio));
        }
        t = t.minus(duration);
        i = i + 1;
    }
    None
}

pub fn evaluate_loop_control(
    control: &LoopControl,
    elapsed: Single,
    variables: &mut TextMap<EmoteVariableState>,
)
    requires
        old(variables).wf(),
    ensures
        final(variables).wf(),
        states(*final(variables)) == after_loop(states(*old(variables)), control@, elapsed),
{
    if !control.enabled {
        return;
    }
    let name = match &control.var_loop {
        Some(s) => s,
        None => {
            return;
        },
    };
    let total = sum_durations(&control.transition_list);
    if total.le(Single::epsilon()) {
        return;
    }
    if let Some(value) = find_stretch_value(&control.transition_list, elapsed.rem_euclid(total)) {
        set_evaluated_variable(variables, name.as_str(), value);
    }
}

/// A pair held in the square of a clamp, or scaled back into its circle.
pub open spec fn spec_held(kind: i64, min: Single, max: Single, lr: Single, ud: Single) -> (
    Single,
    Single,
) {
    if kind == 0 {
        (lr.clamp(min, max), ud.clamp(min, max))
    } else {
        let radius = lr.hypot(ud);
        let max_radius = max.abs().max(Single::epsilon());
        if max_radius.lt(radius) {
            let scale = max_radius.over(radius);
            (lr.times(scale), ud.times(scale))
        } else {
            (lr, ud)
        }
    }
}

fn held(kind: i64, min: Single, max: Single, lr: Single, ud: Single) -> (r: (Single, Single))
    requires
        kind == 0 ==> min.le(max),
    ensures
        r == spec_held(kind, min, max, lr, ud),
{
    if kind == 0 {
        (lr.clamp(min, max), ud.clamp(min, max))
    } else {
        let radius = lr.hypot(ud);
        let max_radius = max.abs().max(Single::epsilon());
        if max_radius.lt(radius) {
            let scale = max_radius.over(radius);
            (lr.times(scale), ud.times(scale))
        } else {
            (lr, ud)
        }
    }
}

/// The variables after a clamp.
pub open spec fn after_clamp(vars: Map<Seq<char>, VarState>, control: Clamp) -> Map<
    Seq<char>,
    VarState,
> {
    if !control.enabled {
        vars
    } else {
        let (lr, ud) = spec_held(
            control.kind,
            control.min,
            control.max,
            value_or_zero(vars, control.var_lr),
            value_or_zero(vars, control.var_ud),
        );
        with_evaluated(with_evaluated(vars, control.var_lr, lr), control.var_ud, ud)
    }
}

impl Clamp {
    /// Whether the bounds of a square are in order.
    pub open spec fn in_order(self) -> bool {
        self.enabled && self.kind == 0 ==> self.min.le(self.max)
    }
}

pub fn evaluate_clamp_control(control: &ClampControl, variables: &mut TextMap<EmoteVariableState>)
    requires
        old(variables).wf(),
        control@.in_order(),
    ensures
        final(variables).wf(),
        states(*final(variables)) == after_clamp(states(*old(variables)), control@),
{
    if !control.enabled {
        return;
    }
    let lr = find_value_or_zero(variables, control.var_lr.as_str());
    let ud = find_value_or_zero(variables, control.var_ud.as_str());
    let (next_lr, next_ud) = held(control.kind, control.min, control.max, lr, ud);
    set_evaluated_variable(variables, control.var_lr.as_str(), next_lr);
    set_evaluated_variable(variables, control.var_ud.as_str(), next_ud);
}

pub open spec fn after_selectors(vars: Map<Seq<char>, VarState>, row: Seq<Selector>) -> Map<
    Seq<char>,
    VarState,
>
    decreases row.len(),
{
    if row.len() == 0 {
        vars
    } else {
        after_selector(after_selectors(vars, row.drop_last()), row.last())
    }
}

pub open spec fn after_loops(
    vars: Map<Seq<char>, VarState>,
    row: Seq<Looper>,
    elapsed: Single,
) -> Map<Seq<char>, VarState>
    decreases row.len(),
{
    if row.len() == 0 {
        vars
    } else {
        after_loop(after_loops(vars, row.drop_last(), elapsed), row.last(), elapsed)
    }
}

pub open spec fn after_clamps(vars: Map<Seq<char>, VarState>, row: Seq<Clamp>) -> Map<
    Seq<char>,
    VarState,
>
    decreases row.len(),
{
    if row.len() == 0 {
        vars
    } else {
        after_clamp(after_clamps(vars, row.drop_last()), row.last())
    }
}

impl EmoteRuntimePipeline {
    /// Whether the bounds of all squares are in order.
    pub open spec fn clamps_in_order(&self) -> bool {
        forall|i: int|
            0 <= i < self.clamp_controls@.len() ==> (#[trigger] self.clamp_controls@[i])@.in_order()
    }

    /// Tests whether the bounds of all squares are in order.
    pub fn has_ordered_clamps(&self) -> (r: bool)
        ensures
            r == self.clamps_in_order(),
    {
        let mut i: usize = 0;
        while i < self.clamp_controls.len()
            invariant
                i <= self.clamp_controls@.len(),
                forall|j: int| 0 <= j < i ==> (#[trigger] self.clamp_controls@[j])@.in_order(),
            decreases self.clamp_controls@.len() - i,
        {
            let c = &self.clamp_controls[i];
            if c.enabled && c.kind == 0 && !c.min.le(c.max) {
                assert(!self.clamp_controls@[i as int]@.in_order());
                return false;
            }
            i = i + 1;
        }
        true
    }

    /// The variables after the controls: selectors, loops and clamps in turn.
    /// Transitions and mirrors set no variable.
    pub open spec fn applied(&self, vars: Map<Seq<char>, VarState>, elapsed: Single) -> Map<
        Seq<char>,
        VarState,
    > {
        after_clamps(
            after_loops(
                after_selectors(vars, views(self.selector_controls@)),
                views(self.loop_controls@),
                elapsed,
            ),
            views(self.clamp_controls@),
        )
    }

    /// Lets the controls set the variables.
    pub fn apply(&self, variables: &mut TextMap<EmoteVariableState>, elapsed: Single)
        requires
            old(variables).wf(),
            self.clamps_in_order(),
        ensures
            final(variables).wf(),
            states(*final(variables)) == self.applied(states(*old(variables)), elapsed),
    {
        let ghost start = states(*variables);
        let ghost selectors = views(self.selector_controls@);
        let mut i: usize = 0;
        while i < self.selector_controls.len()
            invariant
                i <= self.selector_controls@.len(),
                variables.wf(),
                selectors == views(self.selector_controls@),
                states(*variables) == after_selectors(start, selectors.take(i as int)),
            decreases self.selector_controls@.len() - i,
        {
            assert(selectors.take(i + 1).drop_last() =~= selectors.take(i as int));
            assert(selectors.take(i + 1).last() == self.selector_controls@[i as int]@);
            evaluate_selector_control(&self.selector_controls[i], variables);
            i = i + 1;
        }
        assert(selectors.take(i as int) =~= selectors);
        let ghost selected = states(*variables);
        let ghost loops = views(self.loop_controls@);
        let mut j: usize = 0;
        while j < self.loop_controls.len()
            invariant
                j <= self.loop_controls@.len(),
                variables.wf(),
                loops == views(self.loop_controls@),
                states(*variables) == after_loops(selected, loops.take(j as int), elapsed),
            decreases self.loop_controls@.len() - j,
        {
            assert(loops.take(j + 1).drop_last() =~= loops.take(j as int));
            assert(loops.take(j + 1).last() == self.loop_controls@[j as int]@);
            evaluate_loop_control(&self.loop_controls[j], elapsed, variables);
            j = j + 1;
        }
        assert(loops.take(j as int) =~= loops);
        let ghost looped = states(*variables);
        let ghost clamps = views(self.clamp_controls@);
        let mut k: usize = 0;
        while k < self.clamp_controls.len()
            invariant
                k <= self.clamp_controls@.len(),
                self.clamps_in_order(),
                variables.wf(),
                clamps == views(self.clamp_controls@),
                states(*variables) == after_clamps(looped, clamps.take(k as int)),
            decreases self.clamp_controls@.len() - k,
        {
            assert(clamps.take(k + 1).drop_last() =~= clamps.take(k as int));
            assert(clamps.take(k + 1).last() == self.clamp_controls@[k as int]@);
            evaluate_clamp_control(&self.clamp_controls[k], variables);
            k = k + 1;
        }
        assert(clamps.take(k as int) =~= clamps);
    }
}

/// A variable that a control sets lies in its range.
pub proof fn lemma_evaluated_in_range(
    vars: Map<Seq<char>, VarState>,
    name: Seq<char>,
    value: Single,
)
    requires
        name.len() > 0,
        value.is_finite(),
        vars.dom().contains(name),
        vars[name].info.min_value is Some,
        vars[name].info.max_value is Some,
        vars[name].info.min_value->0.le(vars[name].info.max_value->0),
    ensures
        vars[name].info.min_value->0.le(with_evaluated(vars, name, value)[name].value),
        with_evaluated(vars, name, value)[name].value.le(vars[name].info.max_value->0),
        with_evaluated(vars, name, value)[name].info == vars[name].info,
        with_evaluated(vars, name, value)[name].target is None,
{
}

/// Setting one variable leaves the others alone.
pub proof fn lemma_evaluated_keeps_others(
    vars: Map<Seq<char>, VarState>,
    name: Seq<char>,
    value: Single,
    other: Seq<char>,
)
    requires
        other != name,
    ensures
        with_evaluated(vars, name, value).dom().contains(other) <==> vars.dom().contains(other),
        vars.dom().contains(other) ==> with_evaluated(vars, name, value)[other] == vars[other],
{
}

} // verus!
