//! Springs and pendulums that move bust, hair and other parts.
//!
//! A control is stepped in substeps of at most one tick. Sines and cosines are
//! handed in: the turn of the gravity angle for a whole update, and, for a pendulum
//! that bends, the sine of its phase in every substep.

use crate::controls::{
    EmoteRuntimePipeline, PhysicsControl, PhysicsControlDefinition, PhysicsControlKind,
};
use crate::curve::{lerp, unit_clamp};
use crate::exact::{
    lemma_order_is_by_value, lemma_plus_a_zero, lemma_rest_is_exact, lemma_times_one,
    lemma_times_zero, lemma_whole_is_exact,
};
use crate::drive::{set_evaluated_variable, states, with_evaluated};
use crate::frames::Coord;
use crate::order::TextMap;
use crate::place::Turn;
use crate::single::{lemma_round_exact, magnitude_units, Single};
use crate::text::opt_string;
use crate::value::{either, PsbValue};
use crate::variables::{EmoteVariableState, VarState};
use vstd::arithmetic::power2::{lemma2_to64, lemma_pow2_adds, lemma_pow2_pos, pow2};
use vstd::prelude::*;

verus! {

impl Coord {
    #[verifier::allow_in_spec]
    pub fn origin() -> (r: Coord)
        returns
            (Coord { x: Single::zero(), y: Single::zero(), z: Single::zero() }),
    {
        Coord { x: Single::zero(), y: Single::zero(), z: Single::zero() }
    }

    pub open spec fn spec_plus(self, other: Coord) -> Coord {
        Coord { x: self.x.plus(other.x), y: self.y.plus(other.y), z: self.z.plus(other.z) }
    }

    #[verifier::when_used_as_spec(spec_plus)]
    pub fn plus(self, other: Coord) -> (r: Coord)
        ensures
            r == self.spec_plus(other),
    {
        Coord { x: self.x.plus(other.x), y: self.y.plus(other.y), z: self.z.plus(other.z) }
    }

    pub open spec fn spec_minus(self, other: Coord) -> Coord {
        Coord { x: self.x.minus(other.x), y: self.y.minus(other.y), z: self.z.minus(other.z) }
    }

    #[verifier::when_used_as_spec(spec_minus)]
    pub fn minus(self, other: Coord) -> (r: Coord)
        ensures
            r == self.spec_minus(other),
    {
        Coord { x: self.x.minus(other.x), y: self.y.minus(other.y), z: self.z.minus(other.z) }
    }

    pub open spec fn spec_scaled(self, s: Single) -> Coord {
        Coord { x: self.x.times(s), y: self.y.times(s), z: self.z.times(s) }
    }

    #[verifier::when_used_as_spec(spec_scaled)]
    pub fn scaled(self, s: Single) -> (r: Coord)
        ensures
            r == self.spec_scaled(s),
    {
        Coord { x: self.x.times(s), y: self.y.times(s), z: self.z.times(s) }
    }

    pub open spec fn spec_dot(self, other: Coord) -> Single {
        self.x.times(other.x).plus(self.y.times(other.y)).plus(self.z.times(other.z))
    }

    #[verifier::when_used_as_spec(spec_dot)]
    pub fn dot(self, other: Coord) -> (r: Single)
        ensures
            r == self.spec_dot(other),
    {
        self.x.times(other.x).plus(self.y.times(other.y)).plus(self.z.times(other.z))
    }

    pub open spec fn spec_length(self) -> Single {
        self.dot(self).sqrt()
    }

    #[verifier::when_used_as_spec(spec_length)]
    pub fn length(self) -> (r: Single)
        ensures
            r == self.spec_length(),
    {
        self.dot(self).sqrt()
    }

    pub open spec fn spec_toward(self, other: Coord, t: Single) -> Coord {
        Coord {
            x: lerp(self.x, other.x, t),
            y: lerp(self.y, other.y, t),
            z: lerp(self.z, other.z, t),
        }
    }

    #[verifier::when_used_as_spec(spec_toward)]
    pub fn toward(self, other: Coord, t: Single) -> (r: Coord)
        ensures
            r == self.spec_toward(other, t),
    {
        Coord {
            x: lerp(self.x, other.x, t),
            y: lerp(self.y, other.y, t),
            z: lerp(self.z, other.z, t),
        }
    }
}

/// The state of one spring.
#[derive(Clone, Copy, Debug, PartialEq, Eq, Structural)]
pub struct BustPhysicsState {
    /// Where the bob is.
    pub bob: Coord,
    /// How fast the bob moves.
    pub vel: Coord,
    /// The rest of the vertical output.
    pub ofs: Single,
    /// Whether no update has been made yet.
    pub first_tick: bool,
    /// Where the root is, seen from the base layer.
    pub root_offset: Coord,
    /// Where the base layer was at the last update.
    pub last_anchor: Option<Coord>,
}

/// The state of one pendulum of two segments.
#[derive(Clone, Copy, Debug, PartialEq, Eq, Structural)]
pub struct HairPhysicsState {
    /// Where the upper bob is.
    pub upper: Coord,
    /// Where the lower bob is.
    pub lower: Coord,
    /// How fast the upper bob moves.
    pub upper_vel: Coord,
    /// How fast the lower bob moves.
    pub lower_vel: Coord,
    /// The rest of the vertical output.
    pub ofs: Single,
    /// Whether no update has been made yet.
    pub first_tick: bool,
    /// Where the root is, seen from the base layer.
    pub root_offset: Coord,
    /// Where the base layer was at the last update.
    pub last_anchor: Option<Coord>,
    /// The phase of the bending.
    pub bend_phase: Single,
    /// The power of the bending, from zero to one.
    pub bend_power: Single,
}

/// A field of a control.
pub open spec fn field_named<'a>(fields: &'a Map<Seq<char>, PsbValue>, key: Seq<char>) -> Option<
    PsbValue,
> {
    if fields.dom().contains(key) {
        Some(fields[key])
    } else {
        None
    }
}

/// A number of a control, in its parameters or on itself.
pub open spec fn physics_single(
    fields: Map<Seq<char>, PsbValue>,
    key: &str,
    default: Single,
) -> Single {
    let in_param = match field_named(&fields, "param"@) {
        Some(param) => param.field_single(key),
        None => None,
    };
    let own = match field_named(&fields, key@) {
        Some(v) => v.as_single(),
        None => None,
    };
    either(in_param, own).unwrap_or(default)
}

pub fn physics_field_single(def: &PhysicsControlDefinition, key: &str, default: Single) -> (r: Single)
    requires
        def.fields.wf(),
    ensures
        r == physics_single(def.fields@, key, default),
{
    let in_param = match def.fields.get("param") {
        Some(param) => param.field_single(key),
        None => None,
    };
    let own = match def.fields.get(key) {
        Some(v) => v.as_single(),
        None => None,
    };
    either(in_param, own).unwrap_or(default)
}

/// A whole number of a control, in its parameters or on itself.
pub open spec fn physics_i64(fields: Map<Seq<char>, PsbValue>, key: &str, default: i64) -> i64 {
    let in_param = match field_named(&fields, "param"@) {
        Some(param) => param.field_i64(key),
        None => None,
    };
    let own = match field_named(&fields, key@) {
        Some(v) => v.as_i64(),
        None => None,
    };
    either(in_param, own).unwrap_or(default)
}

pub fn physics_field_i64(def: &PhysicsControlDefinition, key: &str, default: i64) -> (r: i64)
    requires
        def.fields.wf(),
    ensures
        r == physics_i64(def.fields@, key, default),
{
    let in_param = match def.fields.get("param") {
        Some(param) => param.field_i64(key),
        None => None,
    };
    let own = match def.fields.get(key) {
        Some(v) => v.as_i64(),
        None => None,
    };
    either(in_param, own).unwrap_or(default)
}

/// Two numbers that a value stands for; a single one counts twice.
pub open spec fn value_pair(value: Option<PsbValue>) -> (Single, Single) {
    match value {
        None => (Single::zero(), Single::zero()),
        Some(PsbValue::List(items)) => {
            let a = if items@.len() > 0 {
                items@[0].as_single().unwrap_or(Single::zero())
            } else {
                Single::zero()
            };
            let b = if items@.len() > 1 {
                items@[1].as_single().unwrap_or(a)
            } else {
                a
            };
            (a, b)
        },
        Some(v) => {
            let n = v.as_single().unwrap_or(Single::zero());
            (n, n)
        },
    }
}

fn parse_value_pair(value: Option<&PsbValue>) -> (r: (Single, Single))
    ensures
        r == value_pair(match value {
            Some(v) => Some(*v),
            None => None,
        }),
{
    match value {
        None => (Single::zero(), Single::zero()),
        Some(PsbValue::List(items)) => {
            let a = if items.len() > 0 {
                items[0].as_single().unwrap_or(Single::zero())
            } else {
                Single::zero()
            };
            let b = if items.len() > 1 {
                items[1].as_single().unwrap_or(a)
            } else {
                a
            };
            (a, b)
        },
        Some(v) => {
            let n = v.as_single().unwrap_or(Single::zero());
            (n, n)
        },
    }
}

/// Two numbers of a control, in its parameters unless both are zero there, else on
/// itself.
pub open spec fn physics_pair(fields: Map<Seq<char>, PsbValue>, key: &str) -> (Single, Single) {
    let in_param = match field_named(&fields, "param"@) {
        Some(param) => value_pair(
            match param.field(key) {
                Some(v) => Some(*v),
                None => None,
            },
        ),
        None => (Single::zero(), Single::zero()),
    };
    if !(in_param.0.same(Single::zero()) && in_param.1.same(Single::zero())) {
        in_param
    } else {
        value_pair(field_named(&fields, key@))
    }
}

pub fn physics_field_pair(def: &PhysicsControlDefinition, key: &str) -> (r: (Single, Single))
    requires
        def.fields.wf(),
    ensures
        r == physics_pair(def.fields@, key),
{
    if let Some(param) = def.fields.get("param") {
        let parsed = parse_value_pair(param.field(key));
        if !(parsed.0.same(Single::zero()) && parsed.1.same(Single::zero())) {
            return parsed;
        }
    }
    parse_value_pair(def.fields.get(key))
}

/// A vector in the parameters of a control.
pub open spec fn param_vector(fields: Map<Seq<char>, PsbValue>, key: &str) -> Coord {
    match field_named(&fields, "param"@) {
        Some(param) => match param.field(key) {
            Some(v) => Coord {
                x: v.field_single("x").unwrap_or(Single::zero()),
                y: v.field_single("y").unwrap_or(Single::zero()),
                z: v.field_single("z").unwrap_or(Single::zero()),
            },
            None => Coord::origin(),
        },
        None => Coord::origin(),
    }
}

fn parse_vec3_field(parent: Option<&PsbValue>, key: &str) -> (r: Coord)
    ensures
        r == (match parent {
            Some(param) => match param.field(key) {
                Some(v) => Coord {
                    x: v.field_single("x").unwrap_or(Single::zero()),
                    y: v.field_single("y").unwrap_or(Single::zero()),
                    z: v.field_single("z").unwrap_or(Single::zero()),
                },
                None => Coord::origin(),
            },
            None => Coord::origin(),
        }),
{
    match parent {
        Some(param) => match param.field(key) {
            Some(v) => Coord {
                x: v.field_single("x").unwrap_or(Single::zero()),
                y: v.field_single("y").unwrap_or(Single::zero()),
                z: v.field_single("z").unwrap_or(Single::zero()),
            },
            None => Coord::origin(),
        },
        None => Coord::origin(),
    }
}

/// The rest of the vertical output.
pub open spec fn param_ofs(fields: Map<Seq<char>, PsbValue>) -> Single {
    match field_named(&fields, "param"@) {
        Some(param) => param.field_single("ofs").unwrap_or(Single::zero()),
        None => Single::zero(),
    }
}

/// A spring before its first update, seen from its base layer.
pub open spec fn new_bust(fields: Map<Seq<char>, PsbValue>) -> BustPhysicsState {
    BustPhysicsState {
        bob: param_vector(fields, "p"),
        vel: param_vector(fields, "pv"),
        ofs: param_ofs(fields),
        first_tick: true,
        root_offset: param_vector(fields, "op"),
        last_anchor: None,
    }
}

/// The points below a root where the two bobs of a pendulum rest.
pub open spec fn spec_rests(root: Coord, lengths: (Single, Single)) -> (Coord, Coord) {
    let first = Coord { x: root.x, y: root.y.plus(lengths.0), z: root.z };
    (first, Coord { x: first.x, y: first.y.plus(lengths.1), z: first.z })
}

#[verifier::when_used_as_spec(spec_rests)]
pub fn rests(root: Coord, lengths: (Single, Single)) -> (r: (Coord, Coord))
    ensures
        r == spec_rests(root, lengths),
{
    let first = Coord { x: root.x, y: root.y.plus(lengths.0), z: root.z };
    (first, Coord { x: first.x, y: first.y.plus(lengths.1), z: first.z })
}

/// A pendulum before its first update, hanging at rest.
pub open spec fn new_pendulum(fields: Map<Seq<char>, PsbValue>) -> HairPhysicsState {
    let (upper, lower) = rests(Coord::origin(), physics_pair(fields, "length"));
    HairPhysicsState {
        upper,
        lower,
        upper_vel: Coord::origin(),
        lower_vel: Coord::origin(),
        ofs: param_ofs(fields),
        first_tick: true,
        root_offset: Coord::origin(),
        last_anchor: None,
        bend_phase: Single::zero(),
        bend_power: Single::zero(),
    }
}

/// The springs of a row of controls before their first update.
pub open spec fn new_busts(controls: Seq<PhysicsControl>) -> Seq<BustPhysicsState>
    decreases controls.len(),
{
    if controls.len() == 0 {
        Seq::empty()
    } else {
        let rest = new_busts(controls.drop_last());
        match controls.last().kind() {
            PhysicsControlKind::Bust => rest.push(
                new_bust(controls.last().definition().fields@),
            ),
            _ => rest,
        }
    }
}

/// The pendulums of a row of controls before their first update.
pub open spec fn new_pendulums(controls: Seq<PhysicsControl>) -> Seq<HairPhysicsState>
    decreases controls.len(),
{
    if controls.len() == 0 {
        Seq::empty()
    } else {
        let rest = new_pendulums(controls.drop_last());
        match controls.last().kind() {
            PhysicsControlKind::Bust => rest,
            _ => rest.push(new_pendulum(controls.last().definition().fields@)),
        }
    }
}

impl EmoteRuntimePipeline {
    /// Whether the fields of all physics controls are in order.
    pub open spec fn physics_wf(&self) -> bool {
        forall|i: int|
            0 <= i < self.physics_controls@.len() ==> (
            #[trigger] self.physics_controls@[i]).definition().fields.wf()
    }
}

/// The springs of a pipeline before their first update.
pub fn init_bust_states(pipeline: &EmoteRuntimePipeline) -> (r: Vec<BustPhysicsState>)
    requires
        pipeline.physics_wf(),
    ensures
        r@ == new_busts(pipeline.physics_controls@),
{
    let controls = &pipeline.physics_controls;
    let mut r: Vec<BustPhysicsState> = Vec::new();
    let mut i: usize = 0;
    while i < controls.len()
        invariant
            i <= controls@.len(),
            pipeline.physics_wf(),
            *controls == pipeline.physics_controls,
            r@ == new_busts(controls@.take(i as int)),
        decreases controls@.len() - i,
    {
        assert(controls@.take(i + 1).drop_last() =~= controls@.take(i as int));
        assert(pipeline.physics_controls@[i as int].definition().fields.wf());
        if let PhysicsControl::Bust(def) = &controls[i] {
            let param = def.fields.get("param");
            let ofs = match param {
                Some(v) => v.field_single("ofs").unwrap_or(Single::zero()),
                None => Single::zero(),
            };
            r.push(
                BustPhysicsState {
                    bob: parse_vec3_field(param, "p"),
                    vel: parse_vec3_field(param, "pv"),
                    ofs,
                    first_tick: true,
                    root_offset: parse_vec3_field(param, "op"),
                    last_anchor: None,
                },
            );
        }
        i = i + 1;
    }
    assert(controls@.take(i as int) =~= controls@);
    r
}

fn make_pendulum(def: &PhysicsControlDefinition) -> (r: HairPhysicsState)
    requires
        def.fields.wf(),
    ensures
        r == new_pendulum(def.fields@),
{
    let (upper, lower) = rests(Coord::origin(), physics_field_pair(def, "length"));
    let ofs = match def.fields.get("param") {
        Some(v) => v.field_single("ofs").unwrap_or(Single::zero()),
        None => Single::zero(),
    };
    HairPhysicsState {
        upper,
        lower,
        upper_vel: Coord::origin(),
        lower_vel: Coord::origin(),
        ofs,
        first_tick: true,
        root_offset: Coord::origin(),
        last_anchor: None,
        bend_phase: Single::zero(),
        bend_power: Single::zero(),
    }
}

/// The pendulums of a pipeline before their first update.
pub fn init_hair_states(pipeline: &EmoteRuntimePipeline) -> (r: Vec<HairPhysicsState>)
    requires
        pipeline.physics_wf(),
    ensures
        r@ == new_pendulums(pipeline.physics_controls@),
{
    let controls = &pipeline.physics_controls;
    let mut r: Vec<HairPhysicsState> = Vec::new();
    let mut i: usize = 0;
    while i < controls.len()
        invariant
            i <= controls@.len(),
            pipeline.physics_wf(),
            *controls == pipeline.physics_controls,
            r@ == new_pendulums(controls@.take(i as int)),
        decreases controls@.len() - i,
    {
        assert(controls@.take(i + 1).drop_last() =~= controls@.take(i as int));
        assert(pipeline.physics_controls@[i as int].definition().fields.wf());
        match &controls[i] {
            PhysicsControl::Bust(_) => {},
            PhysicsControl::Hair(def) => {
                r.push(make_pendulum(def));
            },
            PhysicsControl::Parts(def) => {
                r.push(make_pendulum(def));
            },
        }
        i = i + 1;
    }
    assert(controls@.take(i as int) =~= controls@);
    r
}

/// One substep: how long it takes, and where the base layer is then.
#[derive(Clone, Copy, Debug, PartialEq, Eq, Structural)]
pub struct PhysicsStep {
    pub dt: Single,
    pub anchor: Coord,
}

/// The largest number of ticks that can be stepped through one by one.
#[verifier::allow_in_spec]
pub fn most_ticks() -> (r: Single)
    returns
        (Single { bits: 0x4b80_0000 }),
{
    Single { bits: 0x4b80_0000 }
}

/// Whether the substeps of an update can be counted one by one. Only a control that is
/// enabled and past its first tick counts them, and only ticks above two to the
/// twenty-fourth cannot be counted; where the ticks are NaN there is no substep.
pub open spec fn countable(enabled: bool, first_tick: bool, delta: Single) -> bool {
    enabled && !first_tick && !delta.is_nan() ==> delta.le(most_ticks())
}

/// The substeps from tick `k` on: whole ticks, and what is left at the end. On the
/// way the base layer moves evenly to where it is now.
pub open spec fn substeps(delta: Single, from: Coord, to: Coord, k: nat) -> Seq<PhysicsStep>
    decreases 0x100_0000 - k,
{
    let elapsed = Single::spec_from_i64(k as i64);
    if k >= 0x100_0000 || !elapsed.lt(delta.minus(Single::epsilon())) {
        Seq::empty()
    } else {
        let dt = delta.minus(elapsed).min(Single::one());
        let reached = elapsed.plus(dt);
        let step = PhysicsStep {
            dt,
            anchor: from.toward(to, unit_clamp(reached.over(delta))),
        };
        if dt == Single::one() {
            seq![step] + substeps(delta, from, to, k + 1)
        } else {
            seq![step]
        }
    }
}

/// The substeps of an update. The first one takes no time; after it an update that
/// takes none has no substep.
pub open spec fn planned(
    first: bool,
    previous: Option<Coord>,
    target: Coord,
    delta: Single,
) -> Seq<PhysicsStep> {
    if first {
        seq![PhysicsStep { dt: Single::zero(), anchor: target }]
    } else if delta.le(Single::epsilon()) {
        Seq::empty()
    } else {
        substeps(delta, previous.unwrap_or(target), target, 0)
    }
}

fn plan(first: bool, previous: Option<Coord>, target: Coord, delta: Single) -> (r: Vec<PhysicsStep>)
    ensures
        r@ == planned(first, previous, target, delta),
{
    let mut r: Vec<PhysicsStep> = Vec::new();
    if first {
        r.push(PhysicsStep { dt: Single::zero(), anchor: target });
        assert(r@ =~= planned(first, previous, target, delta));
        return r;
    }
    if delta.le(Single::epsilon()) {
        return r;
    }
    let from = previous.unwrap_or(target);
    let limit = delta.minus(Single::epsilon());
    let mut k: i64 = 0;
    let mut more = true;
    assert(r@ + substeps(delta, from, target, 0) =~= substeps(delta, from, target, 0));
    while more && k < 0x100_0000 && Single::from_i64(k).lt(limit)
        invariant
            0 <= k <= 0x100_0000,
            limit == delta.minus(Single::epsilon()),
            r@ + (if more {
                substeps(delta, from, target, k as nat)
            } else {
                Seq::empty()
            }) == substeps(delta, from, target, 0),
        decreases 0x100_0000 - k,
    {
        let ghost was = r@;
        let elapsed = Single::from_i64(k);
        let dt = delta.minus(elapsed).min(Single::one());
        let reached = elapsed.plus(dt);
        let step = PhysicsStep {
            dt,
            anchor: from.toward(target, unit_clamp(reached.over(delta))),
        };
        r.push(step);
        assert(r@ =~= was + seq![step]);
        if dt == Single::one() {
            assert(was + (seq![step] + substeps(delta, from, target, (k + 1) as nat)) =~= r@
                + substeps(delta, from, target, (k + 1) as nat));
        } else {
            more = false;
            assert(r@ + Seq::<PhysicsStep>::empty() =~= was + seq![step]);
        }
        k = k + 1;
    }
    assert(r@ + Seq::<PhysicsStep>::empty() =~= r@);
    r
}

/// Down as gravity sees it, from the turn of the gravity angle.
pub open spec fn spec_down(turn: Turn) -> Coord {
    Coord { x: turn.sin.neg(), y: turn.cos, z: Single::zero() }
}

#[verifier::when_used_as_spec(spec_down)]
pub fn down(turn: Turn) -> (r: Coord)
    ensures
        r == spec_down(turn),
{
    Coord { x: turn.sin.neg(), y: turn.cos, z: Single::zero() }
}

/// What pushes a body: the direction of gravity, a force from outside, and how far
/// the output is scaled.
#[derive(Clone, Copy, Debug, PartialEq, Eq, Structural)]
pub struct PhysicsInput {
    pub down: Coord,
    pub force_x: Single,
    pub force_y: Single,
    pub output_scale: Single,
}

/// A hundredth, below which outputs count as zero.
#[verifier::allow_in_spec]
pub fn dead_zone() -> (r: Single)
    returns
        (Single { bits: 0x3c23_d70a }),
{
    Single { bits: 0x3c23_d70a }
}

/// The numbers of a spring.
#[derive(Clone, Copy, Debug, PartialEq, Eq, Structural)]
pub struct BustNumbers {
    pub gravity: Single,
    pub spring: Single,
    pub friction: Single,
    pub scale_x: Single,
    pub scale_y: Single,
}

pub open spec fn bust_numbers(fields: Map<Seq<char>, PsbValue>, output_scale: Single) -> BustNumbers {
    BustNumbers {
        gravity: physics_single(fields, "gravity", Single::zero()),
        spring: physics_single(fields, "spring", Single::zero()),
        friction: physics_single(fields, "friction", Single::zero()),
        scale_x: physics_single(fields, "scale_x", Single::one()).times(output_scale),
        scale_y: physics_single(fields, "scale_y", Single::one()).times(output_scale),
    }
}

fn read_bust_numbers(def: &PhysicsControlDefinition, output_scale: Single) -> (r: BustNumbers)
    requires
        def.fields.wf(),
    ensures
        r == bust_numbers(def.fields@, output_scale),
{
    BustNumbers {
        gravity: physics_field_single(def, "gravity", Single::zero()),
        spring: physics_field_single(def, "spring", Single::zero()),
        friction: physics_field_single(def, "friction", Single::zero()),
        scale_x: physics_field_single(def, "scale_x", Single::one()).times(output_scale),
        scale_y: physics_field_single(def, "scale_y", Single::one()).times(output_scale),
    }
}

/// How the bob of a spring is pulled: by the spring to the root, by gravity and by the
/// outer force.
pub open spec fn bust_pull(
    state: BustPhysicsState,
    n: BustNumbers,
    input: PhysicsInput,
    anchor: Coord,
) -> Coord {
    let disp = anchor.plus(state.root_offset).minus(state.bob);
    Coord {
        x: n.spring.times(disp.x).plus(n.gravity.times(input.down.x)).plus(input.force_x),
        y: n.spring.times(disp.y).plus(n.gravity.times(input.down.y)).plus(input.force_y),
        z: n.spring.times(disp.z),
    }
}

/// A spring after a substep. The spring pulls the bob to the root, gravity and the
/// outer force push it, friction slows it.
pub open spec fn sprung(
    state: BustPhysicsState,
    n: BustNumbers,
    input: PhysicsInput,
    step: PhysicsStep,
) -> BustPhysicsState {
    let pull = bust_pull(state, n, input, step.anchor);
    let damp = Single::one().minus(n.friction.times(step.dt)).max(Single::zero());
    let vel = state.vel.plus(pull.scaled(step.dt)).scaled(damp);
    BustPhysicsState { vel, bob: state.bob.plus(vel.scaled(step.dt)), ..state }
}

/// The two outputs of a spring: how far the bob is off its root.
pub open spec fn bust_outputs(
    state: BustPhysicsState,
    n: BustNumbers,
    anchor: Coord,
) -> (Single, Single) {
    let out = anchor.plus(state.root_offset).minus(state.bob);
    let lr = out.x.neg().times(n.scale_x);
    let ud = out.y.plus(state.ofs).times(n.scale_y);
    if lr.abs().le(dead_zone()) && ud.abs().le(dead_zone()) {
        (Single::zero(), Single::zero())
    } else {
        (lr, ud)
    }
}

/// The variables with one set where the control names it.
pub open spec fn with_output(
    vars: Map<Seq<char>, VarState>,
    name: Option<Seq<char>>,
    value: Single,
) -> Map<Seq<char>, VarState> {
    match name {
        Some(n) => with_evaluated(vars, n, value),
        None => vars,
    }
}

fn set_output(variables: &mut TextMap<EmoteVariableState>, name: &Option<String>, value: Single)
    requires
        old(variables).wf(),
    ensures
        final(variables).wf(),
        states(*final(variables)) == with_output(
            states(*old(variables)),
            opt_string(*name),
            value,
        ),
{
    if let Some(n) = name {
        set_evaluated_variable(variables, n.as_str(), value);
    }
}

/// A spring and the variables after the first `k` substeps.
pub open spec fn after_bust_steps(
    state: BustPhysicsState,
    vars: Map<Seq<char>, VarState>,
    def: PhysicsControlDefinition,
    input: PhysicsInput,
    steps: Seq<PhysicsStep>,
    k: nat,
) -> (BustPhysicsState, Map<Seq<char>, VarState>)
    decreases k,
{
    if k == 0 || k > steps.len() {
        (state, vars)
    } else {
        let (before, known) = after_bust_steps(state, vars, def, input, steps, (k - 1) as nat);
        let n = bust_numbers(def.fields@, input.output_scale);
        let step = steps[k - 1];
        let after = sprung(before, n, input, step);
        let (lr, ud) = bust_outputs(after, n, step.anchor);
        (
            after,
            with_output(with_output(known, opt_string(def.var_lr), lr), opt_string(def.var_ud), ud),
        )
    }
}

/// A spring that starts an update: at the first one the bob is moved to where the
/// base layer is.
pub open spec fn bust_started(state: BustPhysicsState, target: Coord, delta: Single) -> BustPhysicsState {
    if state.first_tick {
        BustPhysicsState {
            bob: target.plus(state.bob),
            first_tick: false,
            last_anchor: Some(target),
            ..state
        }
    } else if delta.le(Single::epsilon()) {
        state
    } else {
        BustPhysicsState { last_anchor: Some(target), ..state }
    }
}

/// A spring and the variables after an update.
pub open spec fn after_bust(
    state: BustPhysicsState,
    vars: Map<Seq<char>, VarState>,
    def: PhysicsControlDefinition,
    input: PhysicsInput,
    target: Coord,
    delta: Single,
) -> (BustPhysicsState, Map<Seq<char>, VarState>) {
    if !def.enabled {
        (state, vars)
    } else {
        let steps = planned(state.first_tick, state.last_anchor, target, delta);
        after_bust_steps(
            bust_started(state, target, delta),
            vars,
            def,
            input,
            steps,
            steps.len(),
        )
    }
}

fn spring(state: BustPhysicsState, n: BustNumbers, input: PhysicsInput, step: PhysicsStep) -> (r:
    BustPhysicsState)
    ensures
        r == sprung(state, n, input, step),
{
    let root = step.anchor.plus(state.root_offset);
    let disp = root.minus(state.bob);
    let damp = Single::one().minus(n.friction.times(step.dt)).max(Single::zero());
    let vel = Coord {
        x: state.vel.x.plus(
            n.spring.times(disp.x).plus(n.gravity.times(input.down.x)).plus(input.force_x).times(
                step.dt,
            ),
        ),
        y: state.vel.y.plus(
            n.spring.times(disp.y).plus(n.gravity.times(input.down.y)).plus(input.force_y).times(
                step.dt,
            ),
        ),
        z: state.vel.z.plus(n.spring.times(disp.z).times(step.dt)),
    }.scaled(damp);
    BustPhysicsState { vel, bob: state.bob.plus(vel.scaled(step.dt)), ..state }
}

fn find_bust_outputs(state: BustPhysicsState, n: BustNumbers, anchor: Coord) -> (r: (
    Single,
    Single,
))
    ensures
        r == bust_outputs(state, n, anchor),
{
    let out = anchor.plus(state.root_offset).minus(state.bob);
    let lr = out.x.neg().times(n.scale_x);
    let ud = out.y.plus(state.ofs).times(n.scale_y);
    if lr.abs().le(dead_zone()) && ud.abs().le(dead_zone()) {
        (Single::zero(), Single::zero())
    } else {
        (lr, ud)
    }
}

/// Updates a spring. The first update integrates no motion, however long it takes.
pub fn step_bust_physics(
    state: &mut BustPhysicsState,
    def: &PhysicsControlDefinition,
    delta: Single,
    target: Coord,
    input: PhysicsInput,
    variables: &mut TextMap<EmoteVariableState>,
)
    requires
        def.fields.wf(),
        old(variables).wf(),
        countable(def.enabled, old(state).first_tick, delta),
    ensures
        final(variables).wf(),
        (*final(state), states(*final(variables))) == after_bust(
            *old(state),
            states(*old(variables)),
            *def,
            input,
            target,
            delta,
        ),
{
    if !def.enabled {
        return;
    }
    let steps = plan(state.first_tick, state.last_anchor, target, delta);
    if state.first_tick {
        state.bob = target.plus(state.bob);
        state.first_tick = false;
        state.last_anchor = Some(target);
    } else if !delta.le(Single::epsilon()) {
        state.last_anchor = Some(target);
    }
    let ghost started = *state;
    let ghost known = states(*variables);
    let n = read_bust_numbers(def, input.output_scale);
    let mut k: usize = 0;
    while k < steps.len()
        invariant
            k <= steps@.len(),
            variables.wf(),
            n == bust_numbers(def.fields@, input.output_scale),
            (*state, states(*variables)) == after_bust_steps(
                started,
                known,
                *def,
                input,
                steps@,
                k as nat,
            ),
        decreases steps@.len() - k,
    {
        let after = spring(*state, n, input, steps[k]);
        let (lr, ud) = find_bust_outputs(after, n, steps[k].anchor);
        *state = after;
        set_output(variables, &def.var_lr, lr);
        set_output(variables, &def.var_ud, ud);
        k = k + 1;
    }
}

/// The numbers of a pendulum.
#[derive(Clone, Copy, Debug)]
pub struct PendulumNumbers {
    pub gravity: Single,
    pub friction_x: Single,
    pub friction_y: Single,
    pub b_rate: Single,
    pub v_bound: Single,
    pub bend_spd: Single,
    pub bend_vol: Single,
    pub lengths: (Single, Single),
    pub scale_x: (Single, Single),
    pub scale_y: (Single, Single),
    /// Whether the lower segment gives the vertical output.
    pub lower_ud: bool,
}

pub open spec fn pendulum_numbers(fields: Map<Seq<char>, PsbValue>) -> PendulumNumbers {
    PendulumNumbers {
        gravity: physics_single(fields, "gravity", Single::zero()),
        friction_x: physics_single(fields, "friction_x", Single::zero()),
        friction_y: physics_single(fields, "friction_y", Single::zero()),
        b_rate: physics_single(fields, "b_rate", Single::zero()),
        v_bound: physics_single(fields, "v_bound", Single::zero()),
        bend_spd: physics_single(fields, "bend_spd", Single::zero()),
        bend_vol: physics_single(fields, "bend_vol", Single::zero()),
        lengths: physics_pair(fields, "length"),
        scale_x: physics_pair(fields, "scale_x"),
        scale_y: physics_pair(fields, "scale_y"),
        lower_ud: physics_i64(fields, "ud_eft", 0) >= 1,
    }
}

pub fn read_pendulum_numbers(def: &PhysicsControlDefinition) -> (r: PendulumNumbers)
    requires
        def.fields.wf(),
    ensures
        r == pendulum_numbers(def.fields@),
{
    PendulumNumbers {
        gravity: physics_field_single(def, "gravity", Single::zero()),
        friction_x: physics_field_single(def, "friction_x", Single::zero()),
        friction_y: physics_field_single(def, "friction_y", Single::zero()),
        b_rate: physics_field_single(def, "b_rate", Single::zero()),
        v_bound: physics_field_single(def, "v_bound", Single::zero()),
        bend_spd: physics_field_single(def, "bend_spd", Single::zero()),
        bend_vol: physics_field_single(def, "bend_vol", Single::zero()),
        lengths: physics_field_pair(def, "length"),
        scale_x: physics_field_pair(def, "scale_x"),
        scale_y: physics_field_pair(def, "scale_y"),
        lower_ud: physics_field_i64(def, "ud_eft", 0) >= 1,
    }
}

/// One sixty-fourth, by which a segment may be too long.
#[verifier::allow_in_spec]
pub fn slack() -> (r: Single)
    returns
        (Single { bits: 0x3c80_0000 }),
{
    Single { bits: 0x3c80_0000 }
}

/// A bob on its segment: where it is and how fast it moves.
#[derive(Clone, Copy, Debug, PartialEq, Eq, Structural)]
pub struct Bob {
    pub at: Coord,
    pub vel: Coord,
}

/// A bob pulled back where its segment is too long. The lower one is set back and
/// loses speed along the segment, the upper one is pulled.
pub open spec fn reined(
    bob: Bob,
    hinge: Coord,
    length: Single,
    lower: bool,
    n: PendulumNumbers,
    dt: Single,
) -> Bob {
    let arm = bob.at.minus(hinge);
    let dist = arm.length();
    let reach = length.max(Single::epsilon());
    let inward = arm.scaled(Single::one().over(dist)).scaled(Single::one().neg());
    let excess = dist.minus(reach);
    if !(reach.lt(dist) && Single::epsilon().lt(dist) && slack().lt(excess)) {
        bob
    } else if lower {
        let radial = bob.vel.dot(inward);
        Bob {
            at: bob.at.plus(inward.scaled(excess)),
            vel: bob.vel.plus(inward.scaled(radial.neg().times(n.v_bound).times(dt))),
        }
    } else {
        Bob { vel: bob.vel.plus(inward.scaled(excess.times(n.b_rate).times(dt))), ..bob }
    }
}

/// A bob moved on: pushed, slowed by friction, then carried by its speed.
pub open spec fn swung(bob: Bob, push: Coord, n: PendulumNumbers, dt: Single) -> Bob {
    let pushed = bob.vel.plus(push.scaled(dt));
    let vel = Coord {
        x: pushed.x.minus(pushed.x.times(n.friction_x).times(dt)),
        y: pushed.y.minus(pushed.y.times(n.friction_y).times(dt)),
        z: pushed.z.minus(pushed.z.times(n.friction_y).times(dt)),
    };
    Bob { at: bob.at.plus(vel.scaled(dt)), vel }
}

fn rein(bob: Bob, hinge: Coord, length: Single, lower: bool, n: &PendulumNumbers, dt: Single) -> (r:
    Bob)
    ensures
        r == reined(bob, hinge, length, lower, *n, dt),
{
    let arm = bob.at.minus(hinge);
    let dist = arm.length();
    let reach = length.max(Single::epsilon());
    let inward = arm.scaled(Single::one().over(dist)).scaled(Single::one().neg());
    let excess = dist.minus(reach);
    if !(reach.lt(dist) && Single::epsilon().lt(dist) && slack().lt(excess)) {
        bob
    } else if lower {
        let radial = bob.vel.dot(inward);
        Bob {
            at: bob.at.plus(inward.scaled(excess)),
            vel: bob.vel.plus(inward.scaled(radial.neg().times(n.v_bound).times(dt))),
        }
    } else {
        Bob { vel: bob.vel.plus(inward.scaled(excess.times(n.b_rate).times(dt))), ..bob }
    }
}

fn swing(bob: Bob, push: Coord, n: &PendulumNumbers, dt: Single) -> (r: Bob)
    ensures
        r == swung(bob, push, *n, dt),
{
    let pushed = bob.vel.plus(push.scaled(dt));
    let vel = Coord {
        x: pushed.x.minus(pushed.x.times(n.friction_x).times(dt)),
        y: pushed.y.minus(pushed.y.times(n.friction_y).times(dt)),
        z: pushed.z.minus(pushed.z.times(n.friction_y).times(dt)),
    };
    Bob { at: bob.at.plus(vel.scaled(dt)), vel }
}

/// What pushes both bobs.
pub open spec fn push_of(n: PendulumNumbers, input: PhysicsInput) -> Coord {
    Coord {
        x: input.down.x.times(n.gravity).plus(input.force_x),
        y: input.down.y.times(n.gravity).plus(input.force_y),
        z: Single::zero(),
    }
}

/// The outputs of a pendulum: how far both bobs are off their rest.
#[derive(Clone, Copy, Debug, PartialEq, Eq, Structural)]
pub struct PendulumOutput {
    pub lr: Single,
    pub lrm: Single,
    pub ud: Single,
}

/// A pendulum after the movement of a substep, before it bends.
pub open spec fn pendulum_moved(
    state: HairPhysicsState,
    n: PendulumNumbers,
    input: PhysicsInput,
    step: PhysicsStep,
) -> HairPhysicsState {
    let root = step.anchor.plus(state.root_offset);
    let push = push_of(n, input);
    let upper = swung(
        reined(
            Bob { at: state.upper, vel: state.upper_vel },
            root,
            n.lengths.0,
            false,
            n,
            step.dt,
        ),
        push,
        n,
        step.dt,
    );
    let lower = swung(
        reined(
            Bob { at: state.lower, vel: state.lower_vel },
            upper.at,
            n.lengths.1,
            true,
            n,
            step.dt,
        ),
        push,
        n,
        step.dt,
    );
    HairPhysicsState {
        upper: upper.at,
        lower: lower.at,
        upper_vel: upper.vel,
        lower_vel: lower.vel,
        ..state
    }
}

/// The outputs of a pendulum before it bends.
pub open spec fn pendulum_output(
    state: HairPhysicsState,
    n: PendulumNumbers,
    input: PhysicsInput,
    anchor: Coord,
) -> PendulumOutput {
    let (rest_upper, rest_lower) = rests(anchor.plus(state.root_offset), n.lengths);
    let d0 = rest_upper.minus(state.upper);
    let d1 = rest_lower.minus(state.lower);
    PendulumOutput {
        lr: d0.x.neg().times(n.scale_x.0).times(input.output_scale),
        lrm: d1.x.neg().times(n.scale_x.1).times(input.output_scale),
        ud: if n.lower_ud {
            state.ofs.minus(d1.y).times(n.scale_y.1).times(input.output_scale)
        } else {
            state.ofs.minus(d0.y).times(n.scale_y.0).times(input.output_scale)
        },
    }
}

/// Whether a pendulum bends at all.
pub open spec fn spec_bends(n: PendulumNumbers) -> bool {
    !n.bend_spd.same(Single::zero()) && !n.bend_vol.same(Single::zero())
}

#[verifier::when_used_as_spec(spec_bends)]
pub fn bends(n: PendulumNumbers) -> (r: bool)
    ensures
        r == spec_bends(n),
{
    !n.bend_spd.same(Single::zero()) && !n.bend_vol.same(Single::zero())
}

/// Twenty-eight, the output above which the bending grows.
#[verifier::allow_in_spec]
pub fn bend_trigger() -> (r: Single)
    returns
        (Single { bits: 0x41e0_0000 }),
{
    Single { bits: 0x41e0_0000 }
}

/// One thirty-second, by which the bending grows or fades in a tick.
#[verifier::allow_in_spec]
pub fn bend_rate() -> (r: Single)
    returns
        (Single { bits: 0x3d00_0000 }),
{
    Single { bits: 0x3d00_0000 }
}

/// A full turn in radians.
#[verifier::allow_in_spec]
pub fn full_turn() -> (r: Single)
    returns
        (Single { bits: 0x40c9_0fdb }),
{
    Single { bits: 0x40c9_0fdb }
}

/// A pendulum with its bending moved on.
pub open spec fn bend_moved(
    state: HairPhysicsState,
    n: PendulumNumbers,
    lr: Single,
    dt: Single,
) -> HairPhysicsState {
    if !bends(n) {
        state
    } else {
        let power = if lr.abs().le(bend_trigger()) {
            state.bend_power.minus(bend_rate().times(dt)).max(Single::zero())
        } else {
            state.bend_power.plus(bend_rate().times(dt)).min(Single::one())
        };
        HairPhysicsState {
            bend_power: power,
            bend_phase: state.bend_phase.plus(n.bend_spd.times(power).times(dt)).rem_euclid(
                full_turn(),
            ),
            ..state
        }
    }
}

/// The outputs once the pendulum has bent, given the sine of its phase.
pub open spec fn bent(
    output: PendulumOutput,
    state: HairPhysicsState,
    n: PendulumNumbers,
    sine: Single,
) -> PendulumOutput {
    let o = if bends(n) {
        let bend = sine.times(state.bend_power).times(n.bend_vol);
        PendulumOutput {
            lr: output.lr.minus(bend),
            lrm: output.lrm.plus(bend),
            ud: output.ud,
        }
    } else {
        output
    };
    if o.lr.abs().le(dead_zone()) && o.lrm.abs().le(dead_zone()) && o.ud.abs().le(dead_zone()) {
        PendulumOutput { lr: Single::zero(), lrm: Single::zero(), ud: Single::zero() }
    } else {
        o
    }
}

/// The substeps of an update of a pendulum, and the pendulum as the update starts.
/// At the first update it is hung up at rest below the base layer.
pub open spec fn pendulum_started(
    state: HairPhysicsState,
    def: PhysicsControlDefinition,
    target: Coord,
    delta: Single,
) -> HairPhysicsState {
    if !def.enabled {
        state
    } else if state.first_tick {
        let root = target.plus(state.root_offset);
        let (upper, lower) = rests(root, physics_pair(def.fields@, "length"));
        HairPhysicsState {
            upper,
            lower,
            upper_vel: Coord::origin(),
            lower_vel: Coord::origin(),
            first_tick: false,
            root_offset: root.minus(target),
            last_anchor: Some(target),
            ..state
        }
    } else if delta.le(Single::epsilon()) {
        state
    } else {
        HairPhysicsState { last_anchor: Some(target), ..state }
    }
}

/// Starts the update of a pendulum and gives its substeps.
pub fn start_pendulum(
    state: &mut HairPhysicsState,
    def: &PhysicsControlDefinition,
    delta: Single,
    target: Coord,
) -> (steps: Vec<PhysicsStep>)
    requires
        def.fields.wf(),
        countable(def.enabled, old(state).first_tick, delta),
    ensures
        *final(state) == pendulum_started(*old(state), *def, target, delta),
        steps@ == (if def.enabled {
            planned(old(state).first_tick, old(state).last_anchor, target, delta)
        } else {
            Seq::empty()
        }),
{
    if !def.enabled {
        return Vec::new();
    }
    let steps = plan(state.first_tick, state.last_anchor, target, delta);
    if state.first_tick {
        let root = target.plus(state.root_offset);
        let (upper, lower) = rests(root, physics_field_pair(def, "length"));
        state.upper = upper;
        state.lower = lower;
        state.upper_vel = Coord::origin();
        state.lower_vel = Coord::origin();
        state.first_tick = false;
        state.root_offset = root.minus(target);
        state.last_anchor = Some(target);
    } else if !delta.le(Single::epsilon()) {
        state.last_anchor = Some(target);
    }
    steps
}

/// Moves a pendulum through a substep and gives its outputs before it bends; the
/// sine of its phase is needed to go on.
pub fn move_pendulum(
    state: &mut HairPhysicsState,
    n: PendulumNumbers,
    input: PhysicsInput,
    step: PhysicsStep,
) -> (output: PendulumOutput)
    ensures
        ({
            let moved = pendulum_moved(*old(state), n, input, step);
            let out = pendulum_output(moved, n, input, step.anchor);
            output == out && *final(state) == bend_moved(moved, n, out.lr, step.dt)
        }),
{
    let root = step.anchor.plus(state.root_offset);
    let push = Coord {
        x: input.down.x.times(n.gravity).plus(input.force_x),
        y: input.down.y.times(n.gravity).plus(input.force_y),
        z: Single::zero(),
    };
    let upper = swing(
        rein(
            Bob { at: state.upper, vel: state.upper_vel },
            root,
            n.lengths.0,
            false,
            &n,
            step.dt,
        ),
        push,
        &n,
        step.dt,
    );
    let lower = swing(
        rein(
            Bob { at: state.lower, vel: state.lower_vel },
            upper.at,
            n.lengths.1,
            true,
            &n,
            step.dt,
        ),
        push,
        &n,
        step.dt,
    );
    state.upper = upper.at;
    state.lower = lower.at;
    state.upper_vel = upper.vel;
    state.lower_vel = lower.vel;
    let (rest_upper, rest_lower) = rests(step.anchor.plus(state.root_offset), n.lengths);
    let d0 = rest_upper.minus(state.upper);
    let d1 = rest_lower.minus(state.lower);
    let output = PendulumOutput {
        lr: d0.x.neg().times(n.scale_x.0).times(input.output_scale),
        lrm: d1.x.neg().times(n.scale_x.1).times(input.output_scale),
        ud: if n.lower_ud {
            state.ofs.minus(d1.y).times(n.scale_y.1).times(input.output_scale)
        } else {
            state.ofs.minus(d0.y).times(n.scale_y.0).times(input.output_scale)
        },
    };
    if bends(n) {
        state.bend_power = if output.lr.abs().le(bend_trigger()) {
            state.bend_power.minus(bend_rate().times(step.dt)).max(Single::zero())
        } else {
            state.bend_power.plus(bend_rate().times(step.dt)).min(Single::one())
        };
        state.bend_phase = state.bend_phase.plus(
            n.bend_spd.times(state.bend_power).times(step.dt),
        ).rem_euclid(full_turn());
    }
    output
}

/// Bends a pendulum, given the sine of its phase, and sets the variables that its
/// control names.
pub fn finish_pendulum(
    output: PendulumOutput,
    state: &HairPhysicsState,
    def: &PhysicsControlDefinition,
    n: PendulumNumbers,
    sine: Single,
    variables: &mut TextMap<EmoteVariableState>,
)
    requires
        old(variables).wf(),
    ensures
        final(variables).wf(),
        ({
            let o = bent(output, *state, n, sine);
            states(*final(variables)) == with_output(
                with_output(
                    with_output(states(*old(variables)), opt_string(def.var_lr), o.lr),
                    opt_string(def.var_lrm),
                    o.lrm,
                ),
                opt_string(def.var_ud),
                o.ud,
            )
        }),
{
    let mut o = output;
    if bends(n) {
        let bend = sine.times(state.bend_power).times(n.bend_vol);
        o = PendulumOutput {
            lr: output.lr.minus(bend),
            lrm: output.lrm.plus(bend),
            ud: output.ud,
        };
    }
    if o.lr.abs().le(dead_zone()) && o.lrm.abs().le(dead_zone()) && o.ud.abs().le(dead_zone()) {
        o = PendulumOutput { lr: Single::zero(), lrm: Single::zero(), ud: Single::zero() };
    }
    set_output(variables, &def.var_lr, o.lr);
    set_output(variables, &def.var_lrm, o.lrm);
    set_output(variables, &def.var_ud, o.ud);
}

/// A substep shorter than a tick ends exactly at the end of the update.
pub proof fn lemma_short_step_ends_the_update(delta: Single, k: i64)
    requires
        delta.is_finite(),
        delta.le(most_ticks()),
        0 <= k < 0x100_0000,
        Single::spec_from_i64(k).lt(delta),
        delta.minus(Single::spec_from_i64(k)).min(Single::one()) != Single::one(),
    ensures
        Single::spec_from_i64(k).plus(
            delta.minus(Single::spec_from_i64(k)).min(Single::one()),
        ) == delta,
{
    lemma2_to64();
    let a = Single::spec_from_i64(k);
    lemma_whole_is_exact(k);
    lemma_whole_is_exact(0x100_0000);
    lemma_order_is_by_value(a, delta);
    lemma_pow2_pos(149);
    assert(k * pow2(149) >= 0) by (nonlinear_arith)
        requires
            k >= 0,
            pow2(149) > 0,
    ;
    assert(!delta.is_negative());
    assert(most_ticks() == Single::spec_from_i64(0x100_0000)) by {
        lemma_pow2_adds(1, 149);
        assert(0x4b80_0000nat / 0x80_0000 == 151);
        assert(0x4b80_0000nat % 0x80_0000 == 0);
        assert(magnitude_units(0x4b80_0000) == 0x80_0000 * pow2(150));
        lemma_round_exact(0x4b80_0000);
    }
    lemma_order_is_by_value(delta, most_ticks());
    if delta.units() == 0x100_0000 * pow2(149) {
        // At the very end only whole ticks are left.
        lemma_order_is_by_value(most_ticks(), delta);
        assert(delta.magnitude() == most_ticks().magnitude());
        assert(delta == most_ticks());
        lemma_whole_rest(k);
    } else {
        lemma_rest_is_exact(delta, k);
    }
}

/// From two to the twenty-fourth back to a whole number there is at least a tick.
proof fn lemma_whole_rest(k: i64)
    requires
        0 <= k < 0x100_0000,
    ensures
        most_ticks().minus(Single::spec_from_i64(k)).min(Single::one()) == Single::one(),
{
    lemma2_to64();
    lemma_whole_is_exact(k);
    lemma_whole_is_exact(1);
    let rest = 0x100_0000 - k;
    lemma_whole_is_exact(rest as i64);
    lemma_pow2_adds(1, 149);
    lemma_pow2_pos(149);
    assert(0x4b80_0000nat / 0x80_0000 == 151);
    assert(0x4b80_0000nat % 0x80_0000 == 0);
    assert(magnitude_units(0x4b80_0000) == 0x80_0000 * pow2(150));
    assert(0x3f80_0000nat / 0x80_0000 == 127);
    assert(0x3f80_0000nat % 0x80_0000 == 0);
    lemma_pow2_adds(23, 126);
    let a = Single::spec_from_i64(k);
    assert(most_ticks().value() + a.neg().value() == rest * pow2(149)) by (nonlinear_arith)
        requires
            most_ticks().value() == 0x100_0000 * pow2(149),
            a.neg().value() == -(k * pow2(149)),
            rest == 0x100_0000 - k,
    ;
    assert(rest * pow2(149) > 0) by (nonlinear_arith)
        requires
            rest > 0,
            pow2(149) > 0,
    ;
    reveal(Single::spec_plus);
    assert(most_ticks().minus(a) == Single::spec_from_i64(rest as i64));
    lemma_order_is_by_value(Single::spec_from_i64(rest as i64), Single::one());
    lemma_order_is_by_value(Single::one(), Single::spec_from_i64(rest as i64));
    assert(rest * pow2(149) >= pow2(149)) by (nonlinear_arith)
        requires
            rest >= 1,
            pow2(149) > 0,
    ;
    if rest == 1 {
        lemma_round_exact(0x3f80_0000);
        assert(1 * pow2(149) == pow2(149));
    } else {
        assert(rest * pow2(149) > pow2(149)) by (nonlinear_arith)
            requires
                rest >= 2,
                pow2(149) > 0,
        ;
    }
}

impl Coord {
    /// Whether all three numbers are finite.
    pub open spec fn is_finite(self) -> bool {
        self.x.is_finite() && self.y.is_finite() && self.z.is_finite()
    }

    /// Whether all three numbers are the same, number by number.
    pub open spec fn same(self, other: Coord) -> bool {
        self.x.same(other.x) && self.y.same(other.y) && self.z.same(other.z)
    }
}

/// A substep that takes no time moves one coordinate nowhere.
proof fn lemma_no_time(vel: Single, pull: Single, friction: Single, at: Single)
    requires
        vel.is_finite(),
        pull.is_finite(),
        friction.is_finite(),
        at.is_finite(),
    ensures
        ({
            let none = Single::zero();
            let damp = Single::one().minus(friction.times(none)).max(none);
            let after = vel.plus(pull.times(none)).times(damp);
            after.same(vel) && at.plus(after.times(none)).same(at)
        }),
{
    let none = Single::zero();
    lemma_times_zero(friction);
    lemma_plus_a_zero(Single::one(), friction.times(none).neg());
    lemma_times_zero(pull);
    let moved = vel.plus(pull.times(none));
    lemma_plus_a_zero(vel, pull.times(none));
    lemma_times_one(moved);
    lemma_times_zero(moved);
    lemma_plus_a_zero(at, moved.times(none));
}

/// The first update places a spring at its base layer and integrates no motion, however
/// long it takes. Where the numbers are finite and neither the place nor the pull
/// overflows, the bob comes to stand where it hangs and its speed stays.
pub proof fn lemma_first_update_places_the_spring(
    state: BustPhysicsState,
    vars: Map<Seq<char>, VarState>,
    def: PhysicsControlDefinition,
    input: PhysicsInput,
    target: Coord,
    delta: Single,
    other: Single,
)
    requires
        def.enabled,
        state.first_tick,
    ensures
        after_bust(state, vars, def, input, target, delta) == after_bust(
            state,
            vars,
            def,
            input,
            target,
            other,
        ),
        ({
            let after = after_bust(state, vars, def, input, target, delta).0;
            let hung = target.plus(state.bob);
            let n = bust_numbers(def.fields@, input.output_scale);
            let placed = BustPhysicsState { bob: hung, ..state };
            &&& !after.first_tick
            &&& after.last_anchor == Some(target)
            &&& after.root_offset == state.root_offset
            &&& after.ofs == state.ofs
            &&& state.vel.is_finite() && hung.is_finite() && n.friction.is_finite() && bust_pull(
                placed,
                n,
                input,
                target,
            ).is_finite() ==> after.bob.same(hung) && after.vel.same(state.vel)
        }),
{
    let hung = target.plus(state.bob);
    let n = bust_numbers(def.fields@, input.output_scale);
    let placed = BustPhysicsState { bob: hung, ..state };
    let started = bust_started(state, target, delta);
    let step = PhysicsStep { dt: Single::zero(), anchor: target };
    let steps = planned(true, state.last_anchor, target, delta);
    assert(steps.len() == 1 && steps[0] == step);
    reveal_with_fuel(after_bust_steps, 2);
    assert(after_bust(state, vars, def, input, target, delta).0 == sprung(started, n, input, step));
    let pull = bust_pull(placed, n, input, target);
    assert(pull == bust_pull(started, n, input, target));
    if state.vel.is_finite() && hung.is_finite() && n.friction.is_finite() && pull.is_finite() {
        lemma_no_time(state.vel.x, pull.x, n.friction, hung.x);
        lemma_no_time(state.vel.y, pull.y, n.friction, hung.y);
        lemma_no_time(state.vel.z, pull.z, n.friction, hung.z);
    }
}

} // verus!
