//! What holds of the keys of the viewer: which way each of them takes the model.

use crate::dyadic::{fits, is_ratio, lemma_ratio_constants, lemma_ratio_minus, lemma_ratio_plus};
use crate::exact::{lemma_order_is_by_value, lemma_plus_a_zero, lemma_times_one};
use crate::monotone::{
    lemma_minus_rank, lemma_nearest_ordered, lemma_nearest_self, lemma_over_rank,
    lemma_plus_ordered, lemma_plus_rank, lemma_times_ordered,
};
use crate::player::Player;
use crate::single::{magnitude_units, Single};
use crate::viewer::{least_zoom, turn_step, zoom_step, Key};
use vstd::arithmetic::power2::{lemma_pow2_pos, pow2};
use vstd::prelude::*;

verus! {

/// On whole coordinates an arrow moves the model by ten its own way, and no other way; the
/// opposite arrow moves it back.
pub proof fn lemma_arrows_move(player: Player, name: Option<Seq<char>>, x: int, y: int)
    requires
        is_ratio(player.coord_x, x, 0),
        is_ratio(player.coord_y, y, 0),
        fits(x - 10),
        fits(x + 10),
        fits(y - 10),
        fits(y + 10),
    ensures
        is_ratio(player.keyed(Key::Left, name).0.coord_x, x - 10, 0),
        player.keyed(Key::Left, name).0.coord_y == player.coord_y,
        is_ratio(player.keyed(Key::Right, name).0.coord_x, x + 10, 0),
        player.keyed(Key::Right, name).0.coord_y == player.coord_y,
        is_ratio(player.keyed(Key::Up, name).0.coord_y, y - 10, 0),
        player.keyed(Key::Up, name).0.coord_x == player.coord_x,
        is_ratio(player.keyed(Key::Down, name).0.coord_y, y + 10, 0),
        player.keyed(Key::Down, name).0.coord_x == player.coord_x,
        player.keyed(Key::Left, name).0.scale == player.scale,
        player.keyed(Key::Left, name).0.rot == player.rot,
{
    lemma_ratio_constants();
    lemma_ratio_minus(player.coord_x, x, Single::ten(), 10, 0);
    lemma_ratio_plus(player.coord_x, x, Single::ten(), 10, 0);
    lemma_ratio_minus(player.coord_y, y, Single::ten(), 10, 0);
    lemma_ratio_plus(player.coord_y, y, Single::ten(), 10, 0);
}

/// The space bar shows what is hidden and hides what is shown.
pub proof fn lemma_space_toggles(player: Player, name: Option<Seq<char>>)
    ensures
        player.keyed(Key::Space, name).0.shown != player.shown,
        player.keyed(Key::Space, name).0.keyed(Key::Space, name).0 == player,
{
}

proof fn lemma_steps()
    ensures
        Single::one().lt(zoom_step()),
        zoom_step().is_finite(),
        least_zoom().is_finite(),
        Single::zero().lt(least_zoom()),
        turn_step().is_finite(),
        Single::zero().lt(turn_step()),
{
    assert(0x3f80_0000u32 < 0x3f86_6666u32);
}

/// A plus never makes the model smaller and a minus never makes it larger, though never
/// smaller than the least scale.
pub proof fn lemma_zoom_keys(player: Player, name: Option<Seq<char>>)
    requires
        player.scale.is_finite(),
        least_zoom().le(player.scale),
    ensures
        player.scale.le(player.keyed(Key::Text("+"@), name).0.scale),
        player.keyed(Key::Text("-"@), name).0.scale.le(player.scale),
        least_zoom().le(player.keyed(Key::Text("-"@), name).0.scale),
        player.keyed(Key::Text("+"@), name).0.rot == player.rot,
        player.keyed(Key::Text("-"@), name).0.rot == player.rot,
{
    reveal_strlit("+");
    reveal_strlit("-");
    reveal_strlit("=");
    reveal_strlit("_");
    assert("-"@[0] == '-' && "+"@[0] == '+' && "="@[0] == '=');
    assert("-"@ != "+"@ && "-"@ != "="@);
    lemma_steps();
    let scale = player.scale;
    let zoom = zoom_step();
    let zero = Single::zero();
    let one = Single::one();
    assert(one.is_finite());
    lemma_order_is_by_value(zero, scale);
    lemma_times_ordered(one, zoom, scale);
    lemma_times_one(scale);
    lemma_order_is_by_value(one, zoom);
    lemma_order_is_by_value(zero, one);
    // The way back.
    lemma_pow2_pos(149);
    let w = pow2(149);
    lemma_ratio_constants();
    lemma_nearest_self(scale);
    lemma_over_rank(scale, zoom);
    let z = zoom.value() as nat;
    assert(magnitude_units(0) == 0);
    assert(scale.value() >= 0);
    assert(scale.value() * w * 1 <= scale.value() * z) by (nonlinear_arith)
        requires
            scale.value() >= 0,
            w <= z,
    ;
    lemma_nearest_ordered(scale.value() * w, z, scale.value(), 1);
    assert(scale.over(zoom).le(scale));
    let out = scale.over(zoom).max(least_zoom());
    assert(out.le(scale));
    assert(least_zoom().le(out));
}

/// One key turns the model one way and the other the other way.
pub proof fn lemma_turn_keys(player: Player, name: Option<Seq<char>>)
    requires
        player.rot.is_finite(),
    ensures
        player.keyed(Key::Text("q"@), name).0.rot.le(player.rot),
        player.rot.le(player.keyed(Key::Text("e"@), name).0.rot),
        player.keyed(Key::Text("q"@), name).0.scale == player.scale,
        player.keyed(Key::Text("e"@), name).0.scale == player.scale,
        player.rot == Single::zero() ==> player.keyed(Key::Text("q"@), name).0.rot.lt(player.rot)
            && player.rot.lt(player.keyed(Key::Text("e"@), name).0.rot),
{
    reveal_strlit("+");
    reveal_strlit("-");
    reveal_strlit("=");
    reveal_strlit("_");
    reveal_strlit("q");
    reveal_strlit("Q");
    reveal_strlit("e");
    reveal_strlit("E");
    let q = "q"@;
    let e = "e"@;
    assert(q[0] == 'q' && e[0] == 'e' && "+"@[0] == '+' && "-"@[0] == '-' && "="@[0] == '='
        && "_"@[0] == '_' && "Q"@[0] == 'Q');
    assert(q != "+"@ && q != "-"@ && q != "="@ && q != "_"@);
    assert(e != "+"@ && e != "-"@ && e != "="@ && e != "_"@ && e != "q"@ && e != "Q"@);
    lemma_steps();
    let rot = player.rot;
    let step = turn_step();
    let zero = Single::zero();
    lemma_order_is_by_value(zero, step);
    lemma_order_is_by_value(step.neg(), zero);
    assert(magnitude_units(0) == 0);
    lemma_plus_ordered(zero, step, rot);
    lemma_plus_a_zero(rot, zero);
    lemma_plus_ordered(step.neg(), zero, rot);
    if rot == zero {
        lemma_plus_rank(rot, step);
        lemma_minus_rank(rot, step);
        lemma_nearest_self(step);
        lemma_nearest_self(step.neg());
    }
}

} // verus!
