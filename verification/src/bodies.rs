//! The bodies that physics moves, and the layers that they hang on.

use crate::assembly::{EmoteStaticScene, Scene};
use crate::controls::{PhysicsControl, PhysicsControlKind};
use crate::frames::Coord;
use crate::mesh::Point;
use crate::physics::{
    after_bust, bend_moved, bent, countable, down, finish_pendulum, most_ticks, move_pendulum, new_busts,
    new_pendulums, pendulum_moved, pendulum_numbers, pendulum_output, pendulum_started, planned,
    read_pendulum_numbers, start_pendulum, step_bust_physics, with_output, BustPhysicsState,
    HairPhysicsState, PendulumOutput, PhysicsInput, PhysicsStep,
};
use crate::place::{EmoteTransform2D, Turn};
use crate::player::{ElunaPlayer, OuterForce, Player};
use crate::scene::{LayerState, Sprite};
use crate::single::Single;
use crate::text::{ends_with, opt_string, opt_text, same_text};
use vstd::prelude::*;

verus! {

/// What a body hangs on.
#[derive(Clone, Copy, Debug, PartialEq, Eq, Structural)]
pub enum BasePose {
    Nowhere,
    Layer(usize),
    Sprite(usize),
}

/// Whether a layer goes by a name: its path, its label, or the end of its path.
pub open spec fn layer_goes_by(layer: LayerState, name: Seq<char>) -> bool {
    ||| layer.path == name
    ||| layer.info.layer_label == Some(name)
    ||| name.is_suffix_of(layer.path)
}

/// Whether a sprite goes by a name: its path, a label, or the end of its path.
pub open spec fn sprite_goes_by(sprite: Sprite, name: Seq<char>) -> bool {
    ||| sprite.info.path == name
    ||| sprite.label == Some(name)
    ||| sprite.info.layer_label == Some(name)
    ||| name.is_suffix_of(sprite.info.path)
}

/// Whether `n` is where the first layer that goes by the name stands, or behind the
/// last layer.
pub open spec fn first_layer(layers: Seq<LayerState>, name: Seq<char>, n: int) -> bool {
    &&& 0 <= n <= layers.len()
    &&& forall|i: int| 0 <= i < n ==> !layer_goes_by(#[trigger] layers[i], name)
    &&& n < layers.len() ==> layer_goes_by(layers[n], name)
}

pub open spec fn first_sprite(sprites: Seq<Sprite>, name: Seq<char>, n: int) -> bool {
    &&& 0 <= n <= sprites.len()
    &&& forall|i: int| 0 <= i < n ==> !sprite_goes_by(#[trigger] sprites[i], name)
    &&& n < sprites.len() ==> sprite_goes_by(sprites[n], name)
}

/// Whether a body with a base layer of some name hangs there: on the first layer
/// that goes by the name, else on the first such sprite, else nowhere.
pub open spec fn hangs_on(scene: Scene, base: Option<Seq<char>>, pose: BasePose) -> bool {
    match base {
        None => pose == BasePose::Nowhere,
        Some(name) => if name.len() == 0 {
            pose == BasePose::Nowhere
        } else {
            match pose {
                BasePose::Layer(n) => n < scene.layers.len() && first_layer(
                    scene.layers,
                    name,
                    n as int,
                ),
                BasePose::Sprite(n) => first_layer(scene.layers, name, scene.layers.len() as int)
                    && n < scene.sprites.len() && first_sprite(scene.sprites, name, n as int),
                BasePose::Nowhere => first_layer(scene.layers, name, scene.layers.len() as int)
                    && first_sprite(scene.sprites, name, scene.sprites.len() as int),
            }
        },
    }
}

/// Where a body is drawn to, given the matrix of what it hangs on.
pub open spec fn spec_anchor(scene: Scene, pose: BasePose, world: EmoteTransform2D) -> Coord {
    match pose {
        BasePose::Nowhere => Coord::origin(),
        BasePose::Layer(_) => Coord { x: world.tx, y: world.ty, z: Single::zero() },
        BasePose::Sprite(n) => {
            let sprite = scene.sprites[n as int];
            let p = world.apply(Point { x: sprite.center_x, y: sprite.center_y });
            Coord { x: p.x, y: p.y, z: Single::zero() }
        },
    }
}

fn is_label(label: &Option<String>, name: &str) -> (r: bool)
    ensures
        r == (opt_string(*label) == Some(name@)),
{
    match label {
        Some(l) => same_text(l.as_str(), name),
        None => false,
    }
}

impl EmoteStaticScene {
    /// Finds what a body with a base layer hangs on.
    pub fn layer_world_pose(&self, base_layer: Option<&str>) -> (r: BasePose)
        ensures
            hangs_on(self@, opt_text(base_layer), r),
    {
        let name = match base_layer {
            Some(n) => n,
            None => {
                return BasePose::Nowhere;
            },
        };
        if name.is_empty() {
            return BasePose::Nowhere;
        }
        let mut i: usize = 0;
        while i < self.layer_states.len()
            invariant
                i <= self.layer_states@.len(),
                self@.layers.len() == self.layer_states@.len(),
                forall|j: int| 0 <= j < i ==> !layer_goes_by(#[trigger] self@.layers[j], name@),
                name@.len() > 0,
                opt_text(base_layer) == Some(name@),
            decreases self.layer_states@.len() - i,
        {
            let layer = &self.layer_states[i];
            assert(self@.layers[i as int] == layer@);
            if same_text(layer.path.as_str(), name) || is_label(
                &layer.draw_frame_info.layer_label,
                name,
            ) || ends_with(layer.path.as_str(), name) {
                return BasePose::Layer(i);
            }
            i = i + 1;
        }
        let mut k: usize = 0;
        while k < self.sprites.len()
            invariant
                k <= self.sprites@.len(),
                self@.sprites.len() == self.sprites@.len(),
                first_layer(self@.layers, name@, self@.layers.len() as int),
                forall|j: int| 0 <= j < k ==> !sprite_goes_by(#[trigger] self@.sprites[j], name@),
                name@.len() > 0,
                opt_text(base_layer) == Some(name@),
            decreases self.sprites@.len() - k,
        {
            let sprite = &self.sprites[k];
            assert(self@.sprites[k as int] == sprite@);
            let info = &sprite.draw_frame_info;
            if same_text(info.path.as_str(), name) || is_label(&sprite.label, name) || is_label(
                &info.layer_label,
                name,
            ) || ends_with(info.path.as_str(), name) {
                return BasePose::Sprite(k);
            }
            k = k + 1;
        }
        BasePose::Nowhere
    }

    /// Where a body is drawn to, given the matrix of what it hangs on.
    pub fn anchor(&self, pose: BasePose, world: EmoteTransform2D) -> (r: Coord)
        requires
            pose matches BasePose::Sprite(n) ==> n < self.sprites@.len(),
        ensures
            r == spec_anchor(self@, pose, world),
    {
        match pose {
            BasePose::Nowhere => Coord::origin(),
            BasePose::Layer(_) => Coord { x: world.tx, y: world.ty, z: Single::zero() },
            BasePose::Sprite(n) => {
                let sprite = &self.sprites[n];
                assert(self@.sprites[n as int] == sprite@);
                let p = world.apply(Point { x: sprite.center_x, y: sprite.center_y });
                Coord { x: p.x, y: p.y, z: Single::zero() }
            },
        }
    }
}

/// How many of the first `n` controls are springs, or are not.
pub open spec fn counted(controls: Seq<PhysicsControl>, n: nat, springs: bool) -> nat
    decreases n,
{
    if n == 0 || n > controls.len() {
        0
    } else {
        counted(controls, (n - 1) as nat, springs) + if (controls[n - 1].kind()
            == PhysicsControlKind::Bust) == springs {
            1nat
        } else {
            0
        }
    }
}

/// The place of the state of a control: springs are counted by themselves, and so
/// are pendulums.
pub open spec fn slot(controls: Seq<PhysicsControl>, i: int) -> nat {
    counted(controls, i as nat, controls[i].kind() == PhysicsControlKind::Bust)
}

/// The label of the force on a body.
pub open spec fn force_label(kind: PhysicsControlKind) -> Seq<char> {
    match kind {
        PhysicsControlKind::Bust => "bust"@,
        PhysicsControlKind::Hair => "hair"@,
        PhysicsControlKind::Parts => "parts"@,
    }
}

impl Player {
    /// Whether the bodies move in a step.
    pub open spec fn bodies_move(self, delta: Single) -> bool {
        self.physics_enabled && !delta.le(Single::epsilon())
    }

    /// What pushes a body, given the turn of the gravity angle.
    pub open spec fn push(self, kind: PhysicsControlKind, turn: Turn) -> PhysicsInput {
        let label = force_label(kind);
        let force = if self.forces.dom().contains(label) {
            self.forces[label]
        } else {
            OuterForce { x: Single::zero(), y: Single::zero() }
        };
        PhysicsInput {
            down: down(turn),
            force_x: force.x,
            force_y: force.y,
            output_scale: match kind {
                PhysicsControlKind::Bust => self.bust_scale,
                PhysicsControlKind::Hair => self.hair_scale,
                PhysicsControlKind::Parts => self.parts_scale,
            },
        }
    }
}

impl Player {
    /// Whether the substeps of the body of a control can be counted one by one.
    pub open spec fn counts_ticks(
        self,
        controls: Seq<PhysicsControl>,
        i: int,
        delta: Single,
    ) -> bool {
        let n = slot(controls, i) as int;
        let enabled = controls[i].definition().enabled;
        if controls[i].kind() == PhysicsControlKind::Bust {
            n < self.bust.len() ==> countable(enabled, self.bust[n].first_tick, delta)
        } else {
            n < self.hair.len() ==> countable(enabled, self.hair[n].first_tick, delta)
        }
    }

    /// The player after the spring of a control has moved; as it is where the control
    /// has no state.
    pub open spec fn spring_moved(
        self,
        controls: Seq<PhysicsControl>,
        i: int,
        delta: Single,
        anchor: Coord,
        turn: Turn,
    ) -> Player {
        let n = slot(controls, i) as int;
        let after = after_bust(
            self.bust[n],
            self.vars,
            *controls[i].definition(),
            self.push(PhysicsControlKind::Bust, turn),
            anchor,
            delta,
        );
        if n < self.bust.len() {
            Player { bust: self.bust.update(n, after.0), vars: after.1, ..self }
        } else {
            self
        }
    }

    /// The substeps of the pendulum of a control.
    pub open spec fn swing_steps(
        self,
        controls: Seq<PhysicsControl>,
        i: int,
        delta: Single,
        anchor: Coord,
    ) -> Seq<PhysicsStep> {
        let n = slot(controls, i) as int;
        if n < self.hair.len() && controls[i].definition().enabled {
            planned(self.hair[n].first_tick, self.hair[n].last_anchor, anchor, delta)
        } else {
            Seq::empty()
        }
    }

    /// The player once the update of the pendulum of a control has started.
    pub open spec fn swing_begun(
        self,
        controls: Seq<PhysicsControl>,
        i: int,
        delta: Single,
        anchor: Coord,
    ) -> Player {
        let n = slot(controls, i) as int;
        if n < self.hair.len() {
            Player {
                hair: self.hair.update(
                    n,
                    pendulum_started(self.hair[n], *controls[i].definition(), anchor, delta),
                ),
                ..self
            }
        } else {
            self
        }
    }

    /// The player after the pendulum of a control has moved through a substep, before it
    /// bends, and what comes out.
    pub open spec fn swung(
        self,
        controls: Seq<PhysicsControl>,
        i: int,
        step: PhysicsStep,
        turn: Turn,
    ) -> (Player, PendulumOutput) {
        let numbers = pendulum_numbers(controls[i].definition().fields@);
        let input = self.push(controls[i].kind(), turn);
        let n = slot(controls, i) as int;
        let moved = pendulum_moved(self.hair[n], numbers, input, step);
        let out = pendulum_output(moved, numbers, input, step.anchor);
        (
            Player {
                hair: self.hair.update(n, bend_moved(moved, numbers, out.lr, step.dt)),
                ..self
            },
            out,
        )
    }

    /// The phase of the bending of the pendulum of a control.
    pub open spec fn swing_phase(self, controls: Seq<PhysicsControl>, i: int) -> Single {
        self.hair[slot(controls, i) as int].bend_phase
    }

    /// The player after the pendulum of a control has bent, given the sine of its phase.
    pub open spec fn swing_ended(
        self,
        controls: Seq<PhysicsControl>,
        i: int,
        output: PendulumOutput,
        sine: Single,
    ) -> Player {
        let def = *controls[i].definition();
        let n = slot(controls, i) as int;
        let o = bent(output, self.hair[n], pendulum_numbers(def.fields@), sine);
        Player {
            vars: with_output(
                with_output(
                    with_output(self.vars, opt_string(def.var_lr), o.lr),
                    opt_string(def.var_lrm),
                    o.lrm,
                ),
                opt_string(def.var_ud),
                o.ud,
            ),
            ..self
        }
    }
}

proof fn lemma_counted_states(controls: Seq<PhysicsControl>, n: nat)
    requires
        n <= controls.len(),
    ensures
        counted(controls, n, true) == new_busts(controls.take(n as int)).len(),
        counted(controls, n, false) == new_pendulums(controls.take(n as int)).len(),
    decreases n,
{
    if n > 0 {
        lemma_counted_states(controls, (n - 1) as nat);
        assert(controls.take(n as int).drop_last() =~= controls.take(n - 1));
        assert(controls.take(n as int).last() == controls[n - 1]);
    }
}

proof fn lemma_counted_grows(controls: Seq<PhysicsControl>, m: nat, n: nat, springs: bool)
    requires
        m <= n <= controls.len(),
    ensures
        counted(controls, m, springs) <= counted(controls, n, springs),
    decreases n,
{
    if m < n {
        lemma_counted_grows(controls, m, (n - 1) as nat, springs);
    }
}

/// Every control of a new player has a state of its own: the place of its state lies
/// within the springs or the pendulums, and no later control of the same sort has
/// the same place.
pub proof fn lemma_every_body_has_its_state(controls: Seq<PhysicsControl>, i: int, j: int)
    requires
        0 <= i < j < controls.len(),
        (controls[i].kind() == PhysicsControlKind::Bust) == (controls[j].kind()
            == PhysicsControlKind::Bust),
    ensures
        slot(controls, i) < slot(controls, j),
        controls[j].kind() == PhysicsControlKind::Bust ==> slot(controls, j) < new_busts(
            controls,
        ).len(),
        controls[j].kind() != PhysicsControlKind::Bust ==> slot(controls, j) < new_pendulums(
            controls,
        ).len(),
{
    let springs = controls[j].kind() == PhysicsControlKind::Bust;
    lemma_counted_grows(controls, (i + 1) as nat, j as nat, springs);
    lemma_counted_grows(controls, (j + 1) as nat, controls.len(), springs);
    lemma_counted_states(controls, controls.len());
    assert(controls.take(controls.len() as int) =~= controls);
}

impl ElunaPlayer {
    /// The states of the springs.
    pub fn bust_states(&self) -> (r: &Vec<BustPhysicsState>)
        ensures
            r@ == self@.bust,
    {
        &self.bust_states
    }

    /// The states of the pendulums.
    pub fn hair_states(&self) -> (r: &Vec<HairPhysicsState>)
        ensures
            r@ == self@.hair,
    {
        &self.hair_states
    }

    /// Whether the bodies move in a step.
    pub fn bodies_move(&self, delta: Single) -> (r: bool)
        ensures
            r == self@.bodies_move(delta),
    {
        self.physics_enabled && !delta.le(Single::epsilon())
    }

    /// The angle whose turn gravity is taken in, for a base layer turned by an angle.
    pub fn gravity_angle(&self, angle: Single) -> (r: Single)
        ensures
            r == angle.plus(self@.outer_rot).neg(),
    {
        angle.plus(self.outer_rot).neg()
    }

    /// What pushes a body, given the turn of the gravity angle.
    pub fn push(&self, kind: PhysicsControlKind, turn: Turn) -> (r: PhysicsInput)
        requires
            self.wf(),
        ensures
            r == self@.push(kind, turn),
    {
        let (label, output_scale) = match kind {
            PhysicsControlKind::Bust => ("bust", self.bust_scale),
            PhysicsControlKind::Hair => ("hair", self.hair_scale),
            PhysicsControlKind::Parts => ("parts", self.parts_scale),
        };
        let force = self.outer_force(label);
        PhysicsInput { down: down(turn), force_x: force.x, force_y: force.y, output_scale }
    }

    /// The place of the state of a control.
    pub fn slot(&self, i: usize) -> (r: usize)
        requires
            i < self.pipeline().physics_controls@.len(),
        ensures
            r == slot(self.pipeline().physics_controls@, i as int),
    {
        let controls = &self.runtime_pipeline.physics_controls;
        let springs = controls[i].kind() == PhysicsControlKind::Bust;
        let mut n: usize = 0;
        let mut k: usize = 0;
        while k < i
            invariant
                k <= i,
                i < controls@.len(),
                n <= k,
                n == counted(controls@, k as nat, springs),
            decreases i - k,
        {
            if (controls[k].kind() == PhysicsControlKind::Bust) == springs {
                n = n + 1;
            }
            k = k + 1;
        }
        n
    }

    /// Whether the substeps of the body of a control can be counted one by one.
    pub fn counts_ticks(&self, i: usize, delta: Single) -> (r: bool)
        requires
            i < self.pipeline().physics_controls@.len(),
        ensures
            r == self@.counts_ticks(
                self.pipeline().physics_controls@,
                i as int,
                delta,
            ),
    {
        let n = self.slot(i);
        let control = &self.runtime_pipeline.physics_controls[i];
        let first = if control.kind() == PhysicsControlKind::Bust {
            n >= self.bust_states.len() || self.bust_states[n].first_tick
        } else {
            n >= self.hair_states.len() || self.hair_states[n].first_tick
        };
        first || !control.definition().enabled || delta.is_nan() || delta.le(most_ticks())
    }

    /// Moves the spring of a control. One without a state stays as it is.
    pub fn step_spring(&mut self, i: usize, delta: Single, anchor: Coord, turn: Turn)
        requires
            old(self).wf(),
            i < old(self).pipeline().physics_controls@.len(),
            old(self).pipeline().physics_controls@[i as int].kind()
                == PhysicsControlKind::Bust,
            old(self)@.counts_ticks(
                old(self).pipeline().physics_controls@,
                i as int,
                delta,
            ),
        ensures
            final(self).wf(),
            final(self).same_model(old(self)),
            final(self)@ == old(self)@.spring_moved(
                old(self).pipeline().physics_controls@,
                i as int,
                delta,
                anchor,
                turn,
            ),
    {
        let n = self.slot(i);
        if n < self.bust_states.len() {
            let input = self.push(PhysicsControlKind::Bust, turn);
            let mut state = self.bust_states[n];
            let def = self.runtime_pipeline.physics_controls[i].definition();
            step_bust_physics(&mut state, def, delta, anchor, input, &mut self.variables);
            self.bust_states.set(n, state);
        }
    }

    /// Starts the update of the pendulum of a control and gives its substeps.
    pub fn start_swing(&mut self, i: usize, delta: Single, anchor: Coord) -> (steps: Vec<PhysicsStep>)
        requires
            old(self).wf(),
            i < old(self).pipeline().physics_controls@.len(),
            old(self).pipeline().physics_controls@[i as int].kind()
                != PhysicsControlKind::Bust,
            old(self)@.counts_ticks(
                old(self).pipeline().physics_controls@,
                i as int,
                delta,
            ),
        ensures
            final(self).wf(),
            final(self).same_model(old(self)),
            final(self)@ == old(self)@.swing_begun(
                old(self).pipeline().physics_controls@,
                i as int,
                delta,
                anchor,
            ),
            steps@ == old(self)@.swing_steps(
                old(self).pipeline().physics_controls@,
                i as int,
                delta,
                anchor,
            ),
    {
        let n = self.slot(i);
        if n < self.hair_states.len() {
            let mut state = self.hair_states[n];
            let def = self.runtime_pipeline.physics_controls[i].definition();
            let steps = start_pendulum(&mut state, def, delta, anchor);
            self.hair_states.set(n, state);
            steps
        } else {
            Vec::new()
        }
    }

    /// Moves the pendulum of a control through a substep, before it bends.
    pub fn swing(&mut self, i: usize, step: PhysicsStep, turn: Turn) -> (output: PendulumOutput)
        requires
            old(self).wf(),
            i < old(self).pipeline().physics_controls@.len(),
            slot(old(self).pipeline().physics_controls@, i as int) < old(self)@.hair.len(),
        ensures
            final(self).wf(),
            final(self).same_model(old(self)),
            (final(self)@, output) == old(self)@.swung(
                old(self).pipeline().physics_controls@,
                i as int,
                step,
                turn,
            ),
    {
        let n = self.slot(i);
        let kind = self.runtime_pipeline.physics_controls[i].kind();
        let input = self.push(kind, turn);
        let numbers = read_pendulum_numbers(self.runtime_pipeline.physics_controls[i].definition());
        let mut state = self.hair_states[n];
        let output = move_pendulum(&mut state, numbers, input, step);
        self.hair_states.set(n, state);
        output
    }

    /// The phase of the bending of the pendulum of a control.
    pub fn bend_phase(&self, i: usize) -> (r: Single)
        requires
            i < self.pipeline().physics_controls@.len(),
            slot(self.pipeline().physics_controls@, i as int) < self@.hair.len(),
        ensures
            r == self@.swing_phase(self.pipeline().physics_controls@, i as int),
    {
        let n = self.slot(i);
        self.hair_states[n].bend_phase
    }

    /// Bends the pendulum of a control, given the sine of its phase, and sets the
    /// variables that the control names.
    pub fn finish_swing(&mut self, i: usize, output: PendulumOutput, sine: Single)
        requires
            old(self).wf(),
            i < old(self).pipeline().physics_controls@.len(),
            slot(old(self).pipeline().physics_controls@, i as int) < old(self)@.hair.len(),
        ensures
            final(self).wf(),
            final(self).same_model(old(self)),
            final(self)@ == old(self)@.swing_ended(
                old(self).pipeline().physics_controls@,
                i as int,
                output,
                sine,
            ),
    {
        let n = self.slot(i);
        let def = self.runtime_pipeline.physics_controls[i].definition();
        let numbers = read_pendulum_numbers(def);
        let state = self.hair_states[n];
        finish_pendulum(output, &state, def, numbers, sine, &mut self.variables);
    }

    /// Whether the bodies are to be moved for the scene that is shown, by an update of
    /// some ticks.
    pub fn evaluates_physics(&self, delta: Single) -> (r: bool)
        ensures
            r == (self@.physics_enabled && delta.is_finite() && !delta.lt(Single::zero())),
    {
        self.physics_enabled && delta.is_finite() && !delta.lt(Single::zero())
    }

    /// Notes that the bodies were moved for the scene that is shown.
    pub fn mark_modified(&mut self)
        requires
            old(self).wf(),
        ensures
            final(self).wf(),
            final(self).same_model(old(self)),
            final(self)@ == (Player { modified: true, ..old(self)@ }),
    {
        self.modified = true;
    }
}

} // verus!
