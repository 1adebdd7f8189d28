//! What holds of the bodies as a whole: what they read from their controls, where they
//! start, and which variables they move.

use crate::bodies::{force_label, slot};
use crate::combinator::icon_domain;
use crate::controls::{PhysicsControl, PhysicsControlDefinition, PhysicsControlKind};
use crate::decimal::decimal_number;
use crate::dyadic::{
    fits, is_ratio, lemma_ratio_constants, lemma_ratio_minus, lemma_ratio_order, lemma_ratio_plus,
    lemma_ratio_times,
};
use crate::frames::Coord;
use crate::physics::{
    after_bust_steps, bent, bust_numbers, bust_outputs, bust_started, pendulum_numbers,
    BustPhysicsState, PendulumOutput, PhysicsInput, PhysicsStep,
};
use crate::place::Turn;
use crate::player::Player;
use crate::single::Single;
use crate::text::pieces;
use crate::value::PsbValue;
use crate::variables::VarState;
use vstd::prelude::*;

verus! {

/// Every number of a spring is read from the field of its own name, and from no other.
pub proof fn lemma_spring_reads_its_fields(
    fields: Map<Seq<char>, PsbValue>,
    value: PsbValue,
    x: Single,
    scale: Single,
)
    requires
        !fields.dom().contains("param"@),
        value.as_single() == Some(x),
    ensures
        ({
            let was = bust_numbers(fields, scale);
            let r = bust_numbers(fields.insert("gravity"@, value), scale);
            &&& r.gravity == x
            &&& r.spring == was.spring && r.friction == was.friction && r.scale_x == was.scale_x
                && r.scale_y == was.scale_y
        }),
        ({
            let was = bust_numbers(fields, scale);
            let r = bust_numbers(fields.insert("spring"@, value), scale);
            &&& r.spring == x
            &&& r.gravity == was.gravity && r.friction == was.friction && r.scale_x == was.scale_x
                && r.scale_y == was.scale_y
        }),
        ({
            let was = bust_numbers(fields, scale);
            let r = bust_numbers(fields.insert("friction"@, value), scale);
            &&& r.friction == x
            &&& r.gravity == was.gravity && r.spring == was.spring && r.scale_x == was.scale_x
                && r.scale_y == was.scale_y
        }),
        ({
            let was = bust_numbers(fields, scale);
            let r = bust_numbers(fields.insert("scale_x"@, value), scale);
            &&& r.scale_x == x.times(scale)
            &&& r.gravity == was.gravity && r.spring == was.spring && r.friction == was.friction
                && r.scale_y == was.scale_y
        }),
        ({
            let was = bust_numbers(fields, scale);
            let r = bust_numbers(fields.insert("scale_y"@, value), scale);
            &&& r.scale_y == x.times(scale)
            &&& r.gravity == was.gravity && r.spring == was.spring && r.friction == was.friction
                && r.scale_x == was.scale_x
        }),
{
    reveal_strlit("param");
    reveal_strlit("gravity");
    reveal_strlit("spring");
    reveal_strlit("friction");
    reveal_strlit("scale_x");
    reveal_strlit("scale_y");
    assert("param"@.len() == 5 && "gravity"@.len() == 7 && "spring"@.len() == 6 && "friction"@.len()
        == 8 && "scale_x"@.len() == 7 && "scale_y"@.len() == 7);
    assert("gravity"@[0] == 'g' && "scale_x"@[0] == 's' && "scale_y"@[0] == 's');
    assert("scale_x"@[6] == 'x' && "scale_y"@[6] == 'y');
}

/// Every number of a pendulum that swings is read from the field of its own name.
pub proof fn lemma_pendulum_reads_its_fields(
    fields: Map<Seq<char>, PsbValue>,
    value: PsbValue,
    x: Single,
)
    requires
        !fields.dom().contains("param"@),
        value.as_single() == Some(x),
    ensures
        ({
            let was = pendulum_numbers(fields);
            let r = pendulum_numbers(fields.insert("gravity"@, value));
            r.gravity == x && r.friction_x == was.friction_x && r.friction_y == was.friction_y
        }),
        ({
            let was = pendulum_numbers(fields);
            let r = pendulum_numbers(fields.insert("friction_x"@, value));
            r.friction_x == x && r.friction_y == was.friction_y && r.gravity == was.gravity
        }),
        ({
            let was = pendulum_numbers(fields);
            let r = pendulum_numbers(fields.insert("friction_y"@, value));
            r.friction_y == x && r.friction_x == was.friction_x && r.gravity == was.gravity
        }),
        ({
            let was = pendulum_numbers(fields);
            let r = pendulum_numbers(fields.insert("b_rate"@, value));
            r.b_rate == x && r.v_bound == was.v_bound
        }),
        ({
            let was = pendulum_numbers(fields);
            let r = pendulum_numbers(fields.insert("v_bound"@, value));
            r.v_bound == x && r.b_rate == was.b_rate
        }),
        ({
            let was = pendulum_numbers(fields);
            let r = pendulum_numbers(fields.insert("bend_spd"@, value));
            r.bend_spd == x && r.bend_vol == was.bend_vol
        }),
        ({
            let was = pendulum_numbers(fields);
            let r = pendulum_numbers(fields.insert("bend_vol"@, value));
            r.bend_vol == x && r.bend_spd == was.bend_spd
        }),
        ({
            let was = pendulum_numbers(fields);
            let r = pendulum_numbers(fields.insert("length"@, value));
            r.lengths == (x, x) && r.scale_x == was.scale_x && r.scale_y == was.scale_y
        }),
        ({
            let was = pendulum_numbers(fields);
            let r = pendulum_numbers(fields.insert("scale_x"@, value));
            r.scale_x == (x, x) && r.lengths == was.lengths && r.scale_y == was.scale_y
        }),
        ({
            let was = pendulum_numbers(fields);
            let r = pendulum_numbers(fields.insert("scale_y"@, value));
            r.scale_y == (x, x) && r.lengths == was.lengths && r.scale_x == was.scale_x
        }),
{
    reveal_strlit("param");
    reveal_strlit("gravity");
    reveal_strlit("friction_x");
    reveal_strlit("friction_y");
    reveal_strlit("b_rate");
    reveal_strlit("v_bound");
    reveal_strlit("bend_spd");
    reveal_strlit("bend_vol");
    reveal_strlit("length");
    reveal_strlit("scale_x");
    reveal_strlit("scale_y");
    assert("param"@.len() == 5 && "gravity"@.len() == 7 && "friction_x"@.len() == 10
        && "friction_y"@.len() == 10 && "b_rate"@.len() == 6 && "v_bound"@.len() == 7
        && "bend_spd"@.len() == 8 && "bend_vol"@.len() == 8 && "length"@.len() == 6
        && "scale_x"@.len() == 7 && "scale_y"@.len() == 7);
    assert("friction_x"@[9] == 'x' && "friction_y"@[9] == 'y');
    assert("bend_spd"@[5] == 's' && "bend_vol"@[5] == 'v');
    assert("scale_x"@[6] == 'x' && "scale_y"@[6] == 'y');
    assert("b_rate"@[0] == 'b' && "length"@[0] == 'l');
    assert("gravity"@[0] == 'g' && "v_bound"@[0] == 'v' && "scale_x"@[0] == 's' && "scale_y"@[0]
        == 's');
}

/// After each substep of a spring the variable for the sideways output holds that output,
/// the one for the upward output holds that, and no other variable has changed.
pub proof fn lemma_spring_moves_its_variables(
    state: BustPhysicsState,
    vars: Map<Seq<char>, VarState>,
    def: PhysicsControlDefinition,
    input: PhysicsInput,
    steps: Seq<PhysicsStep>,
    k: nat,
    other: Seq<char>,
)
    requires
        0 < k <= steps.len(),
        def.var_lr is Some,
        def.var_ud is Some,
        def.var_lr->0@.len() > 0,
        def.var_ud->0@.len() > 0,
        def.var_lr->0@ != def.var_ud->0@,
        other != def.var_lr->0@,
        other != def.var_ud->0@,
    ensures
        ({
            let (after, known) = after_bust_steps(state, vars, def, input, steps, k);
            let (lr, ud) = bust_outputs(
                after,
                bust_numbers(def.fields@, input.output_scale),
                steps[k - 1].anchor,
            );
            let a = def.var_lr->0@;
            let b = def.var_ud->0@;
            &&& lr.is_finite() ==> known.dom().contains(a) && known[a].value == known[a].info.clamp(
                lr,
            )
            &&& ud.is_finite() ==> known.dom().contains(b) && known[b].value == known[b].info.clamp(
                ud,
            )
            &&& known.dom().contains(other) <==> vars.dom().contains(other)
            &&& vars.dom().contains(other) ==> known[other] == vars[other]
        }),
    decreases k,
{
    if k > 1 {
        lemma_spring_moves_its_variables(state, vars, def, input, steps, (k - 1) as nat, other);
    } else {
        assert(after_bust_steps(state, vars, def, input, steps, 0) == (state, vars));
    }
}

/// A pendulum moves each of its variables by its own output.
pub proof fn lemma_pendulum_moves_its_variables(
    player: Player,
    controls: Seq<PhysicsControl>,
    i: int,
    output: PendulumOutput,
    sine: Single,
    other: Seq<char>,
)
    requires
        ({
            let def = *controls[i].definition();
            &&& def.var_lr is Some && def.var_lr->0@.len() > 0
            &&& def.var_lrm is Some && def.var_lrm->0@.len() > 0
            &&& def.var_ud is Some && def.var_ud->0@.len() > 0
            &&& def.var_lr->0@ != def.var_lrm->0@
            &&& def.var_lr->0@ != def.var_ud->0@
            &&& def.var_lrm->0@ != def.var_ud->0@
            &&& other != def.var_lr->0@ && other != def.var_lrm->0@ && other != def.var_ud->0@
        }),
    ensures
        ({
            let def = *controls[i].definition();
            let o = bent(
                output,
                player.hair[slot(controls, i) as int],
                pendulum_numbers(def.fields@),
                sine,
            );
            let vars = player.swing_ended(controls, i, output, sine).vars;
            let a = def.var_lr->0@;
            let b = def.var_lrm->0@;
            let c = def.var_ud->0@;
            &&& o.lr.is_finite() ==> vars[a].value == vars[a].info.clamp(o.lr)
            &&& o.lrm.is_finite() ==> vars[b].value == vars[b].info.clamp(o.lrm)
            &&& o.ud.is_finite() ==> vars[c].value == vars[c].info.clamp(o.ud)
            &&& player.vars.dom().contains(other) ==> vars[other] == player.vars[other]
        }),
{
}

/// On whole numbers a spring starts as far from its base layer as it was put from the
/// origin, and a later update leaves its bob where it is.
pub proof fn lemma_spring_starts_at_its_base(
    state: BustPhysicsState,
    target: Coord,
    delta: Single,
    t: (int, int),
    b: (int, int),
)
    requires
        is_ratio(target.x, t.0, 0),
        is_ratio(target.y, t.1, 0),
        is_ratio(state.bob.x, b.0, 0),
        is_ratio(state.bob.y, b.1, 0),
        fits(t.0 + b.0),
        fits(t.1 + b.1),
    ensures
        ({
            let r = bust_started(state, target, delta);
            &&& state.first_tick ==> is_ratio(r.bob.x, t.0 + b.0, 0) && is_ratio(
                r.bob.y,
                t.1 + b.1,
                0,
            ) && r.last_anchor == Some(target)
            &&& !state.first_tick ==> r.bob == state.bob
            &&& !r.first_tick
            &&& r.vel == state.vel
        }),
{
    lemma_ratio_plus(target.x, t.0, state.bob.x, b.0, 0);
    lemma_ratio_plus(target.y, t.1, state.bob.y, b.1, 0);
}

/// The domain that four whole numbers name lies around the first two, as far to each side
/// as the last two say.
pub proof fn lemma_domain_is_centered(icon: Seq<char>, x: int, y: int, w: int, h: int)
    requires
        pieces(icon, ':').len() == 4,
        decimal_number(pieces(icon, ':')[0]) is Some,
        decimal_number(pieces(icon, ':')[1]) is Some,
        decimal_number(pieces(icon, ':')[2]) is Some,
        decimal_number(pieces(icon, ':')[3]) is Some,
        is_ratio(decimal_number(pieces(icon, ':')[0])->0, x, 0),
        is_ratio(decimal_number(pieces(icon, ':')[1])->0, y, 0),
        is_ratio(decimal_number(pieces(icon, ':')[2])->0, w, 0),
        is_ratio(decimal_number(pieces(icon, ':')[3])->0, h, 0),
        w > 0,
        h > 0,
        fits(x - w),
        fits(y - h),
        fits(2 * w),
        fits(2 * h),
    ensures
        icon_domain(icon) is Some,
        is_ratio(icon_domain(icon)->0.x, x - w, 0),
        is_ratio(icon_domain(icon)->0.y, y - h, 0),
        is_ratio(icon_domain(icon)->0.width, 2 * w, 0),
        is_ratio(icon_domain(icon)->0.height, 2 * h, 0),
{
    let parts = pieces(icon, ':');
    let px = decimal_number(parts[0])->0;
    let py = decimal_number(parts[1])->0;
    let pw = decimal_number(parts[2])->0;
    let ph = decimal_number(parts[3])->0;
    lemma_ratio_constants();
    lemma_ratio_order(pw, w, Single::zero(), 0, 0);
    lemma_ratio_order(ph, h, Single::zero(), 0, 0);
    lemma_ratio_minus(px, x, pw, w, 0);
    lemma_ratio_minus(py, y, ph, h, 0);
    lemma_ratio_times(pw, w, 0, Single::two(), 2, 0);
    lemma_ratio_times(ph, h, 0, Single::two(), 2, 0);
}

/// A force that is set for a kind of bodies pushes the bodies of that kind by just that
/// much, and leaves those of the other kinds alone.
pub proof fn lemma_forces_push_their_kind(
    player: Player,
    kind: PhysicsControlKind,
    other: PhysicsControlKind,
    x: Single,
    y: Single,
    time: Single,
    easing: Single,
    turn: Turn,
)
    requires
        x.is_finite(),
        y.is_finite(),
        kind != other,
    ensures
        ({
            let after = player.pushed(force_label(kind), x, y, time, easing);
            &&& after.push(kind, turn).force_x == x
            &&& after.push(kind, turn).force_y == y
            &&& after.push(kind, turn).output_scale == player.push(kind, turn).output_scale
            &&& after.push(other, turn) == player.push(other, turn)
            &&& after.push(kind, turn).down == player.push(other, turn).down
        }),
{
    reveal_strlit("bust");
    reveal_strlit("hair");
    reveal_strlit("parts");
    assert("bust"@.len() == 4 && "hair"@.len() == 4 && "parts"@.len() == 5);
    assert("bust"@[0] == 'b' && "hair"@[0] == 'h');
}

/// The outputs of bodies are scaled by the scale of their own kind.
pub proof fn lemma_scales_are_of_their_kind(player: Player, turn: Turn, scale: Single)
    ensures
        (Player { bust_scale: scale, ..player }).push(PhysicsControlKind::Bust, turn).output_scale
            == scale,
        (Player { hair_scale: scale, ..player }).push(PhysicsControlKind::Hair, turn).output_scale
            == scale,
        (Player { parts_scale: scale, ..player }).push(PhysicsControlKind::Parts, turn).output_scale
            == scale,
        (Player { bust_scale: scale, ..player }).push(PhysicsControlKind::Hair, turn)
            == player.push(PhysicsControlKind::Hair, turn),
        (Player { hair_scale: scale, ..player }).push(PhysicsControlKind::Parts, turn)
            == player.push(PhysicsControlKind::Parts, turn),
        (Player { parts_scale: scale, ..player }).push(PhysicsControlKind::Bust, turn)
            == player.push(PhysicsControlKind::Bust, turn),
{
}

} // verus!
