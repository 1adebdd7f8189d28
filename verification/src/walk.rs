//! The walk through the bodies of a player. The sines, cosines and angles that it needs
//! are asked for one after the other, and the answers move it on.

use crate::assembly::Scene;
use crate::bodies::{
    hangs_on, layer_goes_by, lemma_every_body_has_its_state, slot, spec_anchor, sprite_goes_by, BasePose,
};
use crate::controls::{PhysicsControl, PhysicsControlKind};
use crate::frames::Coord;
use crate::physics::{PendulumOutput, PhysicsStep};
use crate::place::{chain, chained, step_angles, EmoteTransform2D, Turn};
use crate::player::{ElunaPlayer, Player};
use crate::scene::TransformStep;
use crate::single::Single;
use crate::text::{opt_string, opt_text};
use vstd::prelude::*;

verus! {

/// What a walk asks for.
#[derive(Debug)]
pub enum BodyAsk {
    /// The turns of some angles.
    Turns(Vec<Single>),
    /// The angle of a direction: the arc tangent of the rise over the run.
    Slope { rise: Single, run: Single },
    /// The turn of an angle.
    Turn(Single),
    /// The sine of an angle.
    Sine(Single),
    /// Nothing more: every body has moved.
    Done,
}

/// What a walk is answered.
#[derive(Debug)]
pub enum BodyAnswer {
    Turns(Vec<Turn>),
    Angle(Single),
    Turn(Turn),
    Sine(Single),
}

/// How far a walk has come with the body of a control.
#[derive(Debug)]
pub enum BodyStage {
    /// It looks for what the body hangs on.
    Hang,
    /// It knows the matrix of what the body hangs on.
    Slope { anchor: Coord, world: EmoteTransform2D },
    /// It knows the angle of what the body hangs on.
    Gravity { anchor: Coord, angle: Single },
    /// The pendulum is about to bend in a substep.
    Bend { turn: Turn, steps: Vec<PhysicsStep>, at: usize, output: PendulumOutput },
}

/// A walk through the bodies of a player.
#[derive(Debug)]
pub struct BodyWalk {
    pub delta: Single,
    pub control: usize,
    pub stage: BodyStage,
}

/// What a walk asks for, by its values.
pub enum Ask {
    Turns(Seq<Single>),
    Slope { rise: Single, run: Single },
    Turn(Single),
    Sine(Single),
    Done,
}

pub enum Answer {
    Turns(Seq<Turn>),
    Angle(Single),
    Turn(Turn),
    Sine(Single),
}

pub enum Stage {
    Hang,
    Slope { anchor: Coord, world: EmoteTransform2D },
    Gravity { anchor: Coord, angle: Single },
    Bend { turn: Turn, steps: Seq<PhysicsStep>, at: int, output: PendulumOutput },
}

pub struct Walk {
    pub delta: Single,
    pub control: int,
    pub stage: Stage,
}

impl View for BodyAsk {
    type V = Ask;

    open spec fn view(&self) -> Ask {
        match *self {
            BodyAsk::Turns(v) => Ask::Turns(v@),
            BodyAsk::Slope { rise, run } => Ask::Slope { rise, run },
            BodyAsk::Turn(a) => Ask::Turn(a),
            BodyAsk::Sine(a) => Ask::Sine(a),
            BodyAsk::Done => Ask::Done,
        }
    }
}

impl View for BodyAnswer {
    type V = Answer;

    open spec fn view(&self) -> Answer {
        match *self {
            BodyAnswer::Turns(v) => Answer::Turns(v@),
            BodyAnswer::Angle(a) => Answer::Angle(a),
            BodyAnswer::Turn(t) => Answer::Turn(t),
            BodyAnswer::Sine(s) => Answer::Sine(s),
        }
    }
}

impl View for BodyWalk {
    type V = Walk;

    open spec fn view(&self) -> Walk {
        Walk {
            delta: self.delta,
            control: self.control as int,
            stage: match self.stage {
                BodyStage::Hang => Stage::Hang,
                BodyStage::Slope { anchor, world } => Stage::Slope { anchor, world },
                BodyStage::Gravity { anchor, angle } => Stage::Gravity { anchor, angle },
                BodyStage::Bend { turn, steps, at, output } => Stage::Bend {
                    turn,
                    steps: steps@,
                    at: at as int,
                    output,
                },
            },
        }
    }
}

/// What the body of a control hangs on.
pub open spec fn pose_of(scene: Scene, control: PhysicsControl) -> BasePose {
    choose|pose: BasePose|
        hangs_on(scene, opt_string(control.definition().base_layer), pose)
}

/// The steps from model space to what a body hangs on.
pub open spec fn steps_to(scene: Scene, pose: BasePose) -> Seq<TransformStep> {
    match pose {
        BasePose::Nowhere => Seq::empty(),
        BasePose::Layer(n) => scene.layers[n as int].transform,
        BasePose::Sprite(n) => scene.sprites[n as int].world_transform,
    }
}

proof fn lemma_one_pose(scene: Scene, base: Option<Seq<char>>, a: BasePose, b: BasePose)
    requires
        hangs_on(scene, base, a),
        hangs_on(scene, base, b),
    ensures
        a == b,
{
    if let Some(name) = base {
        if name.len() > 0 {
            match (a, b) {
                (BasePose::Layer(m), BasePose::Layer(n)) => {
                    assert(m < n ==> layer_goes_by(scene.layers[m as int], name));
                    assert(n < m ==> layer_goes_by(scene.layers[n as int], name));
                },
                (BasePose::Layer(m), _) => {
                    assert(layer_goes_by(scene.layers[m as int], name));
                },
                (_, BasePose::Layer(n)) => {
                    assert(layer_goes_by(scene.layers[n as int], name));
                },
                (BasePose::Sprite(m), BasePose::Sprite(n)) => {
                    assert(m < n ==> sprite_goes_by(scene.sprites[m as int], name));
                    assert(n < m ==> sprite_goes_by(scene.sprites[n as int], name));
                },
                (BasePose::Sprite(m), _) => {
                    assert(sprite_goes_by(scene.sprites[m as int], name));
                },
                (_, BasePose::Sprite(n)) => {
                    assert(sprite_goes_by(scene.sprites[n as int], name));
                },
                _ => {},
            }
        }
    }
}

impl Walk {
    /// A walk before its first question: at the first control, or behind the last one
    /// where no body moves.
    pub open spec fn start(p: Player, controls: Seq<PhysicsControl>, delta: Single) -> Walk {
        Walk {
            delta,
            control: if p.bodies_move(delta) {
                0
            } else {
                controls.len() as int
            },
            stage: Stage::Hang,
        }
    }

    /// Whether a walk can go on with a player.
    pub open spec fn fits(self, p: Player, controls: Seq<PhysicsControl>) -> bool {
        &&& 0 <= self.control <= controls.len()
        &&& self.stage !is Hang ==> self.control < controls.len()
        &&& self.stage !is Hang && self.stage !is Bend ==> p.counts_ticks(
            controls,
            self.control,
            self.delta,
        )
        &&& forall|j: int|
            self.control < j < controls.len() || (j == self.control < controls.len()
                && self.stage is Hang) ==> #[trigger] p.counts_ticks(controls, j, self.delta)
        &&& self.stage matches Stage::Bend { steps, at, .. } ==> {
            &&& 0 <= at < steps.len()
            &&& slot(controls, self.control) < p.hair.len()
            &&& controls[self.control].kind() != PhysicsControlKind::Bust
        }
    }

    /// The walk at the next control.
    pub open spec fn next(self) -> Walk {
        Walk { control: self.control + 1, stage: Stage::Hang, ..self }
    }

    /// What the walk asks for.
    pub open spec fn asks(self, p: Player, scene: Scene, controls: Seq<PhysicsControl>) -> Ask {
        if self.control >= controls.len() {
            Ask::Done
        } else {
            match self.stage {
                Stage::Hang => Ask::Turns(
                    steps_to(scene, pose_of(scene, controls[self.control])).map_values(
                        |s: TransformStep| s.angle(),
                    ),
                ),
                Stage::Slope { world, .. } => Ask::Slope { rise: world.m21, run: world.m11 },
                Stage::Gravity { angle, .. } => Ask::Turn(angle.plus(p.outer_rot).neg()),
                Stage::Bend { .. } => Ask::Sine(p.swing_phase(controls, self.control)),
            }
        }
    }

    /// The player and the walk once the pendulum has moved through the substep `at`, or
    /// at the next control where no such substep is left.
    pub open spec fn swings(
        self,
        p: Player,
        controls: Seq<PhysicsControl>,
        turn: Turn,
        steps: Seq<PhysicsStep>,
        at: int,
    ) -> (Player, Walk) {
        if at < steps.len() {
            let (q, output) = p.swung(controls, self.control, steps[at], turn);
            (q, Walk { stage: Stage::Bend { turn, steps, at, output }, ..self })
        } else {
            (p, self.next())
        }
    }

    /// The player and the walk after an answer.
    pub open spec fn told(
        self,
        p: Player,
        scene: Scene,
        controls: Seq<PhysicsControl>,
        answer: Answer,
    ) -> (Player, Walk) {
        let i = self.control;
        match (self.stage, answer) {
            (Stage::Hang, Answer::Turns(turns)) => {
                let pose = pose_of(scene, controls[i]);
                let world = chained(steps_to(scene, pose), turns);
                let anchor = spec_anchor(scene, pose, world);
                (p, Walk { stage: Stage::Slope { anchor, world }, ..self })
            },
            (Stage::Slope { anchor, .. }, Answer::Angle(angle)) => (
                p,
                Walk { stage: Stage::Gravity { anchor, angle }, ..self },
            ),
            (Stage::Gravity { anchor, .. }, Answer::Turn(turn)) => {
                if controls[i].kind() == PhysicsControlKind::Bust {
                    (p.spring_moved(controls, i, self.delta, anchor, turn), self.next())
                } else {
                    let steps = p.swing_steps(controls, i, self.delta, anchor);
                    self.swings(
                        p.swing_begun(controls, i, self.delta, anchor),
                        controls,
                        turn,
                        steps,
                        0,
                    )
                }
            },
            (Stage::Bend { turn, steps, at, output }, Answer::Sine(sine)) => self.swings(
                p.swing_ended(controls, i, output, sine),
                controls,
                turn,
                steps,
                at + 1,
            ),
            _ => (p, self),
        }
    }
}

/// Whether a walk can start: the substeps of every body that moves can be counted.
pub open spec fn can_walk(p: Player, controls: Seq<PhysicsControl>, delta: Single) -> bool {
    p.bodies_move(delta) ==> forall|j: int|
        0 <= j < controls.len() ==> #[trigger] p.counts_ticks(controls, j, delta)
}

/// Whether an answer is one to a question.
pub open spec fn answers(ask: Ask, answer: Answer) -> bool {
    match (ask, answer) {
        (Ask::Turns(v), Answer::Turns(w)) => v.len() == w.len(),
        (Ask::Slope { .. }, Answer::Angle(_)) => true,
        (Ask::Turn(_), Answer::Turn(_)) => true,
        (Ask::Sine(_), Answer::Sine(_)) => true,
        _ => false,
    }
}

/// What becomes of the body of one control leaves the ticks of later ones countable, so
/// a walk can go on after every answer.
proof fn lemma_told_fits(
    walk: Walk,
    p: Player,
    scene: Scene,
    controls: Seq<PhysicsControl>,
    answer: Answer,
)
    requires
        walk.fits(p, controls),
        answers(walk.asks(p, scene, controls), answer),
    ensures
        ({
            let (q, next) = walk.told(p, scene, controls, answer);
            next.fits(q, controls)
        }),
{
    let i = walk.control;
    let (q, next) = walk.told(p, scene, controls, answer);
    assert forall|j: int| i < j < controls.len() implies #[trigger] q.counts_ticks(
        controls,
        j,
        walk.delta,
    ) by {
        assert(p.counts_ticks(controls, j, walk.delta));
        if (controls[i].kind() == PhysicsControlKind::Bust) == (controls[j].kind()
            == PhysicsControlKind::Bust) {
            lemma_every_body_has_its_state(controls, i, j);
        }
    }
    if walk.stage is Hang {
        assert(p.counts_ticks(controls, i, walk.delta));
    }
}

impl BodyWalk {
    /// Whether the substeps of every body can be counted one by one.
    pub fn can_start(player: &ElunaPlayer, delta: Single) -> (r: bool)
        ensures
            r == can_walk(player@, player.pipeline().physics_controls@, delta),
    {
        if !player.bodies_move(delta) {
            return true;
        }
        let count: usize = player.runtime_pipeline.physics_controls.len();
        let ghost controls = player.runtime_pipeline.physics_controls@;
        let mut i: usize = 0;
        while i < count
            invariant
                i <= count,
                count == controls.len(),
                controls == player.runtime_pipeline.physics_controls@,
                player@.bodies_move(delta),
                forall|j: int|
                    0 <= j < i ==> #[trigger] player@.counts_ticks(controls, j, delta),
            decreases count - i,
        {
            if !player.counts_ticks(i, delta) {
                return false;
            }
            i = i + 1;
        }
        true
    }

    /// A walk through the bodies of a player, for an update of some ticks.
    pub fn start(player: &ElunaPlayer, delta: Single) -> (r: BodyWalk)
        requires
            can_walk(player@, player.pipeline().physics_controls@, delta),
        ensures
            r@ == Walk::start(player@, player.pipeline().physics_controls@, delta),
            r@.fits(player@, player.pipeline().physics_controls@),
    {
        let control: usize = if player.bodies_move(delta) {
            0
        } else {
            player.runtime_pipeline.physics_controls.len()
        };
        BodyWalk { delta, control, stage: BodyStage::Hang }
    }

    /// Finds what the body of the current control hangs on.
    fn pose(&self, player: &ElunaPlayer) -> (r: BasePose)
        requires
            self.control < player.pipeline().physics_controls@.len(),
        ensures
            r == pose_of(
                player.shown_scene()@,
                player.pipeline().physics_controls@[self.control as int],
            ),
            r matches BasePose::Layer(n) ==> n < player.shown_scene()@.layers.len(),
            r matches BasePose::Sprite(n) ==> n < player.shown_scene()@.sprites.len(),
    {
        let control = &player.runtime_pipeline.physics_controls[self.control];
        let base = match &control.definition().base_layer {
            Some(name) => Some(name.as_str()),
            None => None,
        };
        let r = player.scene.layer_world_pose(base);
        proof {
            let want = opt_string(control.definition().base_layer);
            assert(opt_text(base) == want);
            lemma_one_pose(player.scene@, want, r, pose_of(player.scene@, *control));
        }
        r
    }

    /// What the walk asks for next.
    pub fn ask(&self, player: &ElunaPlayer) -> (r: BodyAsk)
        requires
            self@.fits(player@, player.pipeline().physics_controls@),
        ensures
            r@ == self@.asks(
                player@,
                player.shown_scene()@,
                player.pipeline().physics_controls@,
            ),
    {
        if self.control >= player.runtime_pipeline.physics_controls.len() {
            return BodyAsk::Done;
        }
        match &self.stage {
            BodyStage::Hang => match self.pose(player) {
                BasePose::Nowhere => {
                    let none: Vec<Single> = Vec::new();
                    assert(none@ =~= Seq::<TransformStep>::empty().map_values(
                        |s: TransformStep| s.angle(),
                    ));
                    BodyAsk::Turns(none)
                },
                BasePose::Layer(n) => {
                    let layer = &player.scene.layer_states[n];
                    assert(player.scene@.layers[n as int] == layer@);
                    BodyAsk::Turns(step_angles(&layer.transform))
                },
                BasePose::Sprite(n) => {
                    let sprite = &player.scene.sprites[n];
                    assert(player.scene@.sprites[n as int] == sprite@);
                    BodyAsk::Turns(step_angles(&sprite.world_transform))
                },
            },
            BodyStage::Slope { world, .. } => BodyAsk::Slope { rise: world.m21, run: world.m11 },
            BodyStage::Gravity { angle, .. } => BodyAsk::Turn(player.gravity_angle(*angle)),
            BodyStage::Bend { .. } => BodyAsk::Sine(player.bend_phase(self.control)),
        }
    }

    /// The walk at the next control.
    fn next(self) -> (r: BodyWalk)
        requires
            self.control < usize::MAX,
        ensures
            r@ == self@.next(),
    {
        BodyWalk { delta: self.delta, control: self.control + 1, stage: BodyStage::Hang }
    }

    /// Moves the pendulum through a substep where one is left.
    fn swing(
        self,
        player: &mut ElunaPlayer,
        turn: Turn,
        steps: Vec<PhysicsStep>,
        at: usize,
    ) -> (r: BodyWalk)
        requires
            old(player).wf(),
            self.control < old(player).pipeline().physics_controls@.len(),
            at < steps@.len() ==> slot(
                old(player).pipeline().physics_controls@,
                self.control as int,
            ) < old(player)@.hair.len(),
        ensures
            final(player).wf(),
            final(player).same_model(old(player)),
            (final(player)@, r@) == self@.swings(
                old(player)@,
                old(player).pipeline().physics_controls@,
                turn,
                steps@,
                at as int,
            ),
    {
        let count: usize = player.runtime_pipeline.physics_controls.len();
        assert(self.control < count);
        if at < steps.len() {
            let output = player.swing(self.control, steps[at], turn);
            BodyWalk {
                delta: self.delta,
                control: self.control,
                stage: BodyStage::Bend { turn, steps, at, output },
            }
        } else {
            self.next()
        }
    }

    /// Moves the walk, and the body of the current control, on by an answer.
    pub fn tell(self, player: &mut ElunaPlayer, answer: BodyAnswer) -> (r: BodyWalk)
        requires
            old(player).wf(),
            self@.fits(old(player)@, old(player).pipeline().physics_controls@),
            answers(
                self@.asks(
                    old(player)@,
                    old(player).shown_scene()@,
                    old(player).pipeline().physics_controls@,
                ),
                answer@,
            ),
        ensures
            final(player).wf(),
            final(player).same_model(old(player)),
            (final(player)@, r@) == self@.told(
                old(player)@,
                old(player).shown_scene()@,
                old(player).pipeline().physics_controls@,
                answer@,
            ),
            r@.fits(final(player)@, final(player).pipeline().physics_controls@),
    {
        let delta = self.delta;
        let control: usize = self.control;
        let count: usize = player.runtime_pipeline.physics_controls.len();
        assert(control < count);
        proof {
            lemma_told_fits(
                self@,
                player@,
                player.scene@,
                player.runtime_pipeline.physics_controls@,
                answer@,
            );
        }
        match (self.stage, answer) {
            (BodyStage::Hang, BodyAnswer::Turns(turns)) => {
                let walk = BodyWalk { delta, control, stage: BodyStage::Hang };
                let pose = walk.pose(player);
                let world = match pose {
                    BasePose::Nowhere => EmoteTransform2D::identity(),
                    BasePose::Layer(n) => {
                        let layer = &player.scene.layer_states[n];
                        assert(player.scene@.layers[n as int] == layer@);
                        chain(&layer.transform, &turns)
                    },
                    BasePose::Sprite(n) => {
                        let sprite = &player.scene.sprites[n];
                        assert(player.scene@.sprites[n as int] == sprite@);
                        chain(&sprite.world_transform, &turns)
                    },
                };
                assert(world == chained(steps_to(player.scene@, pose), turns@));
                let anchor = player.scene.anchor(pose, world);
                BodyWalk { delta, control, stage: BodyStage::Slope { anchor, world } }
            },
            (BodyStage::Slope { anchor, .. }, BodyAnswer::Angle(angle)) => BodyWalk {
                delta,
                control,
                stage: BodyStage::Gravity { anchor, angle },
            },
            (BodyStage::Gravity { anchor, .. }, BodyAnswer::Turn(turn)) => {
                let kind = player.runtime_pipeline.physics_controls[control].kind();
                let walk = BodyWalk { delta, control, stage: BodyStage::Hang };
                if kind == PhysicsControlKind::Bust {
                    player.step_spring(control, delta, anchor, turn);
                    walk.next()
                } else {
                    let steps = player.start_swing(control, delta, anchor);
                    walk.swing(player, turn, steps, 0)
                }
            },
            (BodyStage::Bend { turn, steps, at, output }, BodyAnswer::Sine(sine)) => {
                let walk = BodyWalk { delta, control, stage: BodyStage::Hang };
                let substeps: usize = steps.len();
                assert(at < substeps);
                player.finish_swing(control, output, sine);
                walk.swing(player, turn, steps, at + 1)
            },
            (stage, _) => BodyWalk { delta, control, stage },
        }
    }
}

/// How angles are turned, directions measured and sines taken.
pub struct Trig {
    pub turn: spec_fn(Single) -> Turn,
    pub slope: spec_fn(Single, Single) -> Single,
    pub sine: spec_fn(Single) -> Single,
}

impl Trig {
    /// The answer to a question.
    pub open spec fn answer(self, ask: Ask) -> Answer {
        match ask {
            Ask::Turns(v) => Answer::Turns(v.map_values(self.turn)),
            Ask::Slope { rise, run } => Answer::Angle((self.slope)(rise, run)),
            Ask::Turn(a) => Answer::Turn((self.turn)(a)),
            Ask::Sine(a) => Answer::Sine((self.sine)(a)),
            Ask::Done => Answer::Turns(Seq::empty()),
        }
    }
}

impl Player {
    /// The player after the pendulum of a control has gone through its substeps from
    /// `at` on.
    pub open spec fn swung_from(
        self,
        controls: Seq<PhysicsControl>,
        i: int,
        trig: Trig,
        turn: Turn,
        steps: Seq<PhysicsStep>,
        at: int,
    ) -> Player
        decreases steps.len() - at,
    {
        if at < steps.len() {
            let (q, output) = self.swung(controls, i, steps[at], turn);
            let sine = (trig.sine)(q.swing_phase(controls, i));
            q.swing_ended(controls, i, output, sine).swung_from(
                controls,
                i,
                trig,
                turn,
                steps,
                at + 1,
            )
        } else {
            self
        }
    }

    /// The player after the body of a control has moved, given where its base layer has
    /// drawn it and the turn of gravity.
    pub open spec fn body_pulled(
        self,
        controls: Seq<PhysicsControl>,
        i: int,
        delta: Single,
        trig: Trig,
        anchor: Coord,
        turn: Turn,
    ) -> Player {
        if controls[i].kind() == PhysicsControlKind::Bust {
            self.spring_moved(controls, i, delta, anchor, turn)
        } else {
            self.swing_begun(controls, i, delta, anchor).swung_from(
                controls,
                i,
                trig,
                turn,
                self.swing_steps(controls, i, delta, anchor),
                0,
            )
        }
    }

    /// The turn of gravity under a base layer that is turned by an angle.
    pub open spec fn gravity_turn(self, trig: Trig, angle: Single) -> Turn {
        (trig.turn)(angle.plus(self.outer_rot).neg())
    }

    /// The player after the body of a control has moved.
    pub open spec fn body_moved(
        self,
        scene: Scene,
        controls: Seq<PhysicsControl>,
        i: int,
        delta: Single,
        trig: Trig,
    ) -> Player {
        let pose = pose_of(scene, controls[i]);
        let steps = steps_to(scene, pose);
        let world = chained(steps, steps.map_values(|s: TransformStep| (trig.turn)(s.angle())));
        let angle = (trig.slope)(world.m21, world.m11);
        self.body_pulled(
            controls,
            i,
            delta,
            trig,
            spec_anchor(scene, pose, world),
            self.gravity_turn(trig, angle),
        )
    }

    /// The player after the bodies of the controls from `i` on have moved, one after the
    /// other.
    pub open spec fn bodies_moved(
        self,
        scene: Scene,
        controls: Seq<PhysicsControl>,
        i: int,
        delta: Single,
        trig: Trig,
    ) -> Player
        decreases controls.len() - i,
    {
        if i < controls.len() {
            self.body_moved(scene, controls, i, delta, trig).bodies_moved(
                scene,
                controls,
                i + 1,
                delta,
                trig,
            )
        } else {
            self
        }
    }
}

impl Walk {
    /// What becomes of the player where the walk goes on to its end.
    pub open spec fn outcome(
        self,
        p: Player,
        scene: Scene,
        controls: Seq<PhysicsControl>,
        trig: Trig,
    ) -> Player {
        let i = self.control;
        let moved = match self.stage {
            Stage::Hang => p,
            Stage::Slope { anchor, world } => p.body_pulled(
                controls,
                i,
                self.delta,
                trig,
                anchor,
                p.gravity_turn(trig, (trig.slope)(world.m21, world.m11)),
            ),
            Stage::Gravity { anchor, angle } => p.body_pulled(
                controls,
                i,
                self.delta,
                trig,
                anchor,
                p.gravity_turn(trig, angle),
            ),
            Stage::Bend { turn, steps, at, output } => p.swing_ended(
                controls,
                i,
                output,
                (trig.sine)(p.swing_phase(controls, i)),
            ).swung_from(controls, i, trig, turn, steps, at + 1),
        };
        moved.bodies_moved(
            scene,
            controls,
            if self.stage is Hang {
                i
            } else {
                i + 1
            },
            self.delta,
            trig,
        )
    }

    /// The player and the walk after some questions and their answers.
    pub open spec fn after(
        self,
        p: Player,
        scene: Scene,
        controls: Seq<PhysicsControl>,
        trig: Trig,
        n: nat,
    ) -> (Player, Walk)
        decreases n,
    {
        if n == 0 {
            (p, self)
        } else {
            let (q, walk) = self.told(
                p,
                scene,
                controls,
                trig.answer(self.asks(p, scene, controls)),
            );
            walk.after(q, scene, controls, trig, (n - 1) as nat)
        }
    }

    /// How many stages of the current control are still ahead.
    pub open spec fn ahead(self) -> int {
        match self.stage {
            Stage::Hang => 3,
            Stage::Slope { .. } => 2,
            Stage::Gravity { .. } => 1,
            Stage::Bend { .. } => 0,
        }
    }

    /// How many substeps of the current control are still ahead.
    pub open spec fn substeps_ahead(self) -> int {
        match self.stage {
            Stage::Bend { steps, at, .. } => steps.len() - at,
            _ => 0,
        }
    }
}

/// An answered question changes nothing of what a walk comes to.
proof fn lemma_told(
    walk: Walk,
    p: Player,
    scene: Scene,
    controls: Seq<PhysicsControl>,
    trig: Trig,
)
    requires
        walk.fits(p, controls),
        walk.control < controls.len(),
    ensures
        ({
            let (q, next) = walk.told(
                p,
                scene,
                controls,
                trig.answer(walk.asks(p, scene, controls)),
            );
            &&& next.fits(q, controls)
            &&& next.outcome(q, scene, controls, trig) == walk.outcome(p, scene, controls, trig)
            &&& decreases_to!(
                controls.len() - walk.control, walk.ahead(), walk.substeps_ahead() =>
                controls.len() - next.control, next.ahead(), next.substeps_ahead())
        }),
{
    lemma_told_fits(walk, p, scene, controls, trig.answer(walk.asks(p, scene, controls)));
    if walk.stage is Hang {
        let steps = steps_to(scene, pose_of(scene, controls[walk.control]));
        let angles = steps.map_values(|s: TransformStep| s.angle());
        assert(angles.map_values(trig.turn) =~= steps.map_values(
            |s: TransformStep| (trig.turn)(s.angle()),
        ));
    }
}

proof fn lemma_arrives(
    walk: Walk,
    p: Player,
    scene: Scene,
    controls: Seq<PhysicsControl>,
    trig: Trig,
) -> (n: nat)
    requires
        walk.fits(p, controls),
    ensures
        ({
            let (q, end) = walk.after(p, scene, controls, trig, n);
            &&& end.asks(q, scene, controls) is Done
            &&& q == walk.outcome(p, scene, controls, trig)
        }),
    decreases controls.len() - walk.control, walk.ahead(), walk.substeps_ahead(),
{
    if walk.control < controls.len() {
        let (q, next) = walk.told(p, scene, controls, trig.answer(walk.asks(p, scene, controls)));
        lemma_told(walk, p, scene, controls, trig);
        let m: nat = lemma_arrives(next, q, scene, controls, trig);
        m + 1
    } else {
        0
    }
}

/// A walk comes to its end, and by then the body of every control has moved, one after
/// the other and each for its own base layer. Where no body moves the walk leaves the
/// player as it is.
pub proof fn lemma_walk_moves_every_body(
    p: Player,
    scene: Scene,
    controls: Seq<PhysicsControl>,
    delta: Single,
    trig: Trig,
)
    requires
        can_walk(p, controls, delta),
    ensures
        exists|n: nat|
            {
                let (q, end) = #[trigger] Walk::start(p, controls, delta).after(
                    p,
                    scene,
                    controls,
                    trig,
                    n,
                );
                &&& end.asks(q, scene, controls) is Done
                &&& q == (if p.bodies_move(delta) {
                    p.bodies_moved(scene, controls, 0, delta, trig)
                } else {
                    p
                })
            },
{
    let n: nat = lemma_arrives(Walk::start(p, controls, delta), p, scene, controls, trig);
}

} // verus!
