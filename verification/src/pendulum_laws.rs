//! Laws of the bodies: what a pendulum hangs on, how it swings, and what comes out.

use crate::curve::unit_clamp;
use crate::curve_laws::{is_share, lemma_times_a_zero};
use crate::dyadic::{
    fits, is_ratio, lemma_finer, lemma_ratio_constants, lemma_ratio_minus, lemma_ratio_neg,
    lemma_ratio_order, lemma_ratio_plus, lemma_ratio_times,
};
use crate::exact::{
    lemma_one, lemma_order_is_by_value, lemma_plus_a_zero, lemma_plus_commutes, lemma_representable,
    lemma_rest_is_exact, lemma_times_commutes, lemma_whole_is_exact,
};
use crate::frames::Coord;
use crate::monotone::{
    lemma_minus_rank, lemma_minus_sign, lemma_nearest_ordered, lemma_nearest_self,
    lemma_nearest_side, lemma_over_rank, lemma_plus_ordered, lemma_times_rank, lemma_times_share,
    lemma_times_side,
};
use crate::physics::{
    bend_moved, bend_rate, bend_trigger, bent, bust_outputs, dead_zone, full_turn, most_ticks,
    pendulum_moved, pendulum_output, push_of, reined, rests, slack, spec_bends, substeps, swung,
    Bob, BustNumbers, BustPhysicsState, HairPhysicsState, PendulumNumbers, PendulumOutput,
    PhysicsInput, PhysicsStep,
};
use crate::roots::{lemma_floor_root_is, root_magnitude};
use crate::rounding::{lemma_pow2_le, lemma_ulp_shift_is, round_units, INFINITY_BITS};
use crate::single::{lemma_round_exact, magnitude_units, Single};
use vstd::arithmetic::div_mod::{lemma_fundamental_div_mod_converse, lemma_small_mod};
use vstd::arithmetic::power2::{lemma2_to64, lemma_pow2_adds, lemma_pow2_pos, pow2};
use vstd::prelude::*;

verus! {

/// The root of a square is what was squared.
proof fn lemma_root_exact(mag: nat)
    requires
        mag < INFINITY_BITS,
    ensures
        root_magnitude(magnitude_units(mag) * magnitude_units(mag)) == mag,
{
    lemma2_to64();
    let u = magnitude_units(mag);
    let n = u * u;
    assert(u * u < (u + 1) * (u + 1)) by (nonlinear_arith)
        requires
            u >= 0,
    ;
    lemma_floor_root_is(n, u);
    let e = mag / 0x80_0000;
    let f = mag % 0x80_0000;
    let k: nat = if e == 0 {
        0
    } else {
        (e - 1) as nat
    };
    let c: nat = if e == 0 {
        f
    } else {
        0x80_0000 + f
    };
    let w = pow2(k);
    lemma_pow2_pos(k);
    lemma_pow2_adds(24, k);
    lemma_pow2_adds(23, k);
    assert(u == c * w) by {
        assert(c * 1 == c);
    }
    assert(c * w < 0x100_0000 * w && (e > 0 ==> c * w >= 0x80_0000 * w)) by (nonlinear_arith)
        requires
            c < 0x100_0000,
            e > 0 ==> c >= 0x80_0000,
            w > 0,
    ;
    lemma_ulp_shift_is(u, 1, k);
    lemma_fundamental_div_mod_converse(u as int, w as int, c as int, 0);
    let middle = (2 * c + 1) * w;
    assert(4 * n < middle * middle) by (nonlinear_arith)
        requires
            n == u * u,
            u == c * w,
            middle == (2 * c + 1) * w,
            w > 0,
            c >= 0,
    ;
}

/// The root of a whole square is whole.
pub proof fn lemma_sqrt_whole(x: Single, n: int)
    requires
        0 <= n <= 4096,
        is_ratio(x, n * n, 0),
    ensures
        is_ratio(x.sqrt(), n, 0),
{
    reveal(Single::spec_sqrt);
    lemma_pow2_pos(149);
    let w = pow2(149) as int;
    assert(n * n * w >= 0 && (n > 0 ==> n * n * w > 0) && (n == 0 ==> n * n * w == 0))
        by (nonlinear_arith)
        requires
            n >= 0,
            w > 0,
    ;
    lemma_nearest_self(x);
    assert(magnitude_units(0) == 0);
    if n > 0 {
        assert(x.units() == n * n * w);
        lemma_representable(n as nat, 149);
        let mag = round_units((n * w) as nat, 1);
        assert(magnitude_units(mag) == n * w);
        assert((n * n * w) * w == (n * w) * (n * w)) by (nonlinear_arith);
        lemma_root_exact(mag);
    } else {
        assert(0 * w == 0);
    }
}

/// One coordinate of a bob through a tick: the push adds to its speed, friction takes its
/// share, and it goes as far as the speed says.
proof fn lemma_swing_coordinate(
    at: Single,
    a: int,
    vel: Single,
    v: int,
    push: Single,
    p: int,
    friction: Single,
    k: int,
    q: nat,
)
    requires
        -1000 <= a <= 1000,
        -1000 <= v <= 1000,
        -1000 <= p <= 1000,
        0 <= k <= pow2(q),
        q <= 8,
        is_ratio(at, a, 0),
        is_ratio(vel, v, 0),
        is_ratio(push, p, 0),
        is_ratio(friction, k, q),
    ensures
        ({
            let one = Single::one();
            let pushed = vel.plus(push.times(one));
            let after = pushed.minus(pushed.times(friction).times(one));
            &&& is_ratio(after, (v + p) * (pow2(q) - k), q)
            &&& is_ratio(at.plus(after.times(one)), a * pow2(q) + (v + p) * (pow2(q) - k), q)
        }),
{
    lemma2_to64();
    lemma_ratio_constants();
    lemma_pow2_le(q, 8);
    lemma_pow2_pos(q);
    let w = pow2(q) as int;
    let one = Single::one();
    assert(p * 1 == p);
    lemma_ratio_times(push, p, 0, one, 1, 0);
    lemma_ratio_plus(vel, v, push.times(one), p, 0);
    let pushed = vel.plus(push.times(one));
    let f = v + p;
    assert(-512000 <= f * k <= 512000 && -512000 <= f * w <= 512000 && -512000 <= f * (w - k)
        <= 512000 && f * w - f * k == f * (w - k) && -256000 <= a * w <= 256000)
        by (nonlinear_arith)
        requires
            -2000 <= f <= 2000,
            0 <= k <= w <= 256,
            -1000 <= a <= 1000,
    ;
    lemma_ratio_times(pushed, f, 0, friction, k, q);
    let loss = pushed.times(friction);
    assert((f * k) * 1 == f * k);
    lemma_ratio_times(loss, f * k, q, one, 1, 0);
    lemma_finer(pushed, f, 0, q);
    lemma_ratio_minus(pushed, f * w, loss.times(one), f * k, q);
    let after = pushed.minus(loss.times(one));
    assert((f * (w - k)) * 1 == f * (w - k));
    lemma_ratio_times(after, f * (w - k), q, one, 1, 0);
    lemma_finer(at, a, 0, q);
    lemma_ratio_plus(at, a * w, after.times(one), f * (w - k), q);
}

/// What a bob does in a whole tick, exactly for small whole numbers; sideways and along
/// gravity it has a friction of its own.
pub proof fn lemma_swing_exact(
    bob: Bob,
    push: Coord,
    n: PendulumNumbers,
    a: (int, int, int),
    v: (int, int, int),
    p: (int, int, int),
    k: int,
    l: int,
    q: nat,
)
    requires
        -1000 <= a.0 <= 1000,
        -1000 <= a.1 <= 1000,
        -1000 <= a.2 <= 1000,
        -1000 <= v.0 <= 1000,
        -1000 <= v.1 <= 1000,
        -1000 <= v.2 <= 1000,
        -1000 <= p.0 <= 1000,
        -1000 <= p.1 <= 1000,
        -1000 <= p.2 <= 1000,
        0 <= k <= pow2(q),
        0 <= l <= pow2(q),
        q <= 8,
        is_ratio(bob.at.x, a.0, 0),
        is_ratio(bob.at.y, a.1, 0),
        is_ratio(bob.at.z, a.2, 0),
        is_ratio(bob.vel.x, v.0, 0),
        is_ratio(bob.vel.y, v.1, 0),
        is_ratio(bob.vel.z, v.2, 0),
        is_ratio(push.x, p.0, 0),
        is_ratio(push.y, p.1, 0),
        is_ratio(push.z, p.2, 0),
        is_ratio(n.friction_x, k, q),
        is_ratio(n.friction_y, l, q),
    ensures
        ({
            let r = swung(bob, push, n, Single::one());
            let w = pow2(q) as int;
            &&& is_ratio(r.vel.x, (v.0 + p.0) * (w - k), q)
            &&& is_ratio(r.vel.y, (v.1 + p.1) * (w - l), q)
            &&& is_ratio(r.vel.z, (v.2 + p.2) * (w - l), q)
            &&& is_ratio(r.at.x, a.0 * w + (v.0 + p.0) * (w - k), q)
            &&& is_ratio(r.at.y, a.1 * w + (v.1 + p.1) * (w - l), q)
            &&& is_ratio(r.at.z, a.2 * w + (v.2 + p.2) * (w - l), q)
        }),
{
    lemma_swing_coordinate(bob.at.x, a.0, bob.vel.x, v.0, push.x, p.0, n.friction_x, k, q);
    lemma_swing_coordinate(bob.at.y, a.1, bob.vel.y, v.1, push.y, p.1, n.friction_y, l, q);
    lemma_swing_coordinate(bob.at.z, a.2, bob.vel.z, v.2, push.z, p.2, n.friction_y, l, q);
}

/// The bobs of a pendulum rest straight below its root, one below the other, as far as its
/// segments are long.
pub proof fn lemma_rests_below(root: Coord, lengths: (Single, Single), y: int, a: int, b: int)
    requires
        -100000 <= y <= 100000,
        -100000 <= a <= 100000,
        -100000 <= b <= 100000,
        is_ratio(root.y, y, 0),
        is_ratio(lengths.0, a, 0),
        is_ratio(lengths.1, b, 0),
    ensures
        ({
            let (upper, lower) = rests(root, lengths);
            &&& upper.x == root.x && upper.z == root.z
            &&& lower.x == root.x && lower.z == root.z
            &&& is_ratio(upper.y, y + a, 0)
            &&& is_ratio(lower.y, y + a + b, 0)
        }),
{
    lemma_ratio_plus(root.y, y, lengths.0, a, 0);
    lemma_ratio_plus(root.y.plus(lengths.0), y + a, lengths.1, b, 0);
}

/// A bob within the reach of its segment is left as it is.
pub proof fn lemma_slack_segment(
    bob: Bob,
    hinge: Coord,
    length: Single,
    lower: bool,
    n: PendulumNumbers,
    dt: Single,
)
    requires
        bob.at.minus(hinge).length().le(length),
    ensures
        reined(bob, hinge, length, lower, n, dt) == bob,
{
}

/// Whether a bob is too far from its hinge, and the numbers of that are finite.
pub open spec fn is_taut(bob: Bob, hinge: Coord, length: Single) -> bool {
    let arm = bob.at.minus(hinge);
    let dist = arm.length();
    let reach = length.max(Single::epsilon());
    let inward = arm.scaled(Single::one().over(dist)).scaled(Single::one().neg());
    let excess = dist.minus(reach);
    &&& bob.at.is_finite()
    &&& bob.vel.is_finite()
    &&& hinge.is_finite()
    &&& arm.is_finite()
    &&& dist.is_finite()
    &&& Single::one().over(dist).is_finite()
    &&& arm.scaled(Single::one().over(dist)).is_finite()
    &&& inward.is_finite()
    &&& excess.is_finite()
    &&& reach.lt(dist)
    &&& Single::epsilon().lt(dist)
    &&& slack().lt(excess)
}

/// The direction to the hinge is on the other side than the bob is.
proof fn lemma_inward(at: Single, hinge: Single, dist: Single, size: Single)
    requires
        at.is_finite(),
        hinge.is_finite(),
        at.minus(hinge).is_finite(),
        dist.is_finite(),
        Single::zero().lt(dist),
        Single::one().over(dist).is_finite(),
        at.minus(hinge).times(Single::one().over(dist)).is_finite(),
        at.minus(hinge).times(Single::one().over(dist)).times(Single::one().neg()).is_finite(),
        size.is_finite(),
        Single::zero().le(size),
    ensures
        ({
            let inward = at.minus(hinge).times(Single::one().over(dist)).times(
                Single::one().neg(),
            );
            &&& hinge.le(at) ==> inward.times(size).le(Single::zero())
            &&& at.le(hinge) ==> Single::zero().le(inward.times(size))
        }),
{
    lemma_ratio_constants();
    lemma_one();
    let zero = Single::zero();
    let one = Single::one();
    let part = one.over(dist);
    lemma_order_is_by_value(zero, dist);
    lemma_nearest_self(zero);
    lemma_over_rank(one, dist);
    lemma_pow2_pos(149);
    let w = pow2(149) as int;
    assert(w * w >= 0) by (nonlinear_arith)
        requires
            w > 0,
    ;
    lemma_nearest_side(w * w, dist.value() as nat);
    assert(zero.le(part));
    lemma_minus_sign(hinge, at);
    let arm = at.minus(hinge);
    lemma_order_is_by_value(hinge, at);
    lemma_order_is_by_value(at, hinge);
    lemma_times_side(arm, part);
    let out = arm.times(part);
    lemma_ratio_neg(one, 1, 0);
    lemma_minus_one(out);
    let inward = out.times(one.neg());
    lemma_times_side(inward, size);
}

proof fn lemma_minus_one(a: Single)
    requires
        a.is_finite(),
        a.times(Single::one().neg()).is_finite(),
    ensures
        Single::zero().le(a) ==> a.times(Single::one().neg()).le(Single::zero()),
        a.le(Single::zero()) ==> Single::zero().le(a.times(Single::one().neg())),
{
    lemma_ratio_constants();
    lemma_ratio_neg(Single::one(), 1, 0);
    let m = Single::one().neg();
    let zero = Single::zero();
    lemma_times_rank(a, m);
    lemma_pow2_pos(149);
    lemma_order_is_by_value(zero, a);
    lemma_order_is_by_value(a, zero);
    lemma_nearest_self(zero);
    let p = a.value() * m.value();
    assert((a.value() >= 0 ==> p <= 0) && (a.value() <= 0 ==> p >= 0)) by (nonlinear_arith)
        requires
            p == a.value() * m.value(),
            m.value() <= 0,
    ;
    lemma_nearest_side(p, pow2(149));
}

/// The upper bob of a segment that is too long is pulled toward its hinge: its speed
/// changes to the side that the hinge is on, and its place not at all.
pub proof fn lemma_taut_upper_segment_pulls(
    bob: Bob,
    hinge: Coord,
    length: Single,
    n: PendulumNumbers,
    dt: Single,
)
    requires
        is_taut(bob, hinge, length),
        n.b_rate.is_finite(),
        dt.is_finite(),
        Single::zero().le(n.b_rate),
        Single::zero().le(dt),
        ({
            let excess = bob.at.minus(hinge).length().minus(length.max(Single::epsilon()));
            excess.times(n.b_rate).is_finite() && excess.times(n.b_rate).times(dt).is_finite()
        }),
    ensures
        ({
            let r = reined(bob, hinge, length, false, n, dt);
            &&& r.at == bob.at
            &&& drawn(r.vel.x, bob.vel.x, bob.at.x, hinge.x)
            &&& drawn(r.vel.y, bob.vel.y, bob.at.y, hinge.y)
            &&& drawn(r.vel.z, bob.vel.z, bob.at.z, hinge.z)
        }),
{
    lemma_ratio_constants();
    let dist = bob.at.minus(hinge).length();
    let excess = dist.minus(length.max(Single::epsilon()));
    assert(Single::zero().lt(excess));
    assert(Single::zero().lt(dist));
    lemma_times_side(excess, n.b_rate);
    lemma_times_side(excess.times(n.b_rate), dt);
    let size = excess.times(n.b_rate).times(dt);
    lemma_drawn(bob.vel.x, bob.at.x, hinge.x, dist, size);
    lemma_drawn(bob.vel.y, bob.at.y, hinge.y, dist, size);
    lemma_drawn(bob.vel.z, bob.at.z, hinge.z, dist, size);
}

/// Whether a number has changed, if at all, to the side that the hinge is on.
pub open spec fn drawn(after: Single, before: Single, at: Single, hinge: Single) -> bool {
    &&& hinge.le(at) ==> after.le(before)
    &&& at.le(hinge) ==> before.le(after)
}

proof fn lemma_drawn(before: Single, at: Single, hinge: Single, dist: Single, size: Single)
    requires
        before.is_finite(),
        at.is_finite(),
        hinge.is_finite(),
        at.minus(hinge).is_finite(),
        dist.is_finite(),
        Single::zero().lt(dist),
        Single::one().over(dist).is_finite(),
        at.minus(hinge).times(Single::one().over(dist)).is_finite(),
        at.minus(hinge).times(Single::one().over(dist)).times(Single::one().neg()).is_finite(),
        size.is_finite(),
        Single::zero().le(size),
    ensures
        ({
            let inward = at.minus(hinge).times(Single::one().over(dist)).times(
                Single::one().neg(),
            );
            drawn(before.plus(inward.times(size)), before, at, hinge)
        }),
{
    let inward = at.minus(hinge).times(Single::one().over(dist)).times(Single::one().neg());
    lemma_inward(at, hinge, dist, size);
    let d = inward.times(size);
    lemma_ratio_constants();
    lemma_plus_a_zero(before, Single::zero());
    lemma_plus_commutes(before, Single::zero());
    if d.is_finite() {
        if hinge.le(at) {
            lemma_plus_ordered(d, Single::zero(), before);
        }
        if at.le(hinge) {
            lemma_plus_ordered(Single::zero(), d, before);
        }
    } else {
        reveal(Single::spec_plus);
    }
}

/// The lower bob of a segment that is too long is set back toward its hinge.
pub proof fn lemma_taut_lower_segment_is_set_back(
    bob: Bob,
    hinge: Coord,
    length: Single,
    n: PendulumNumbers,
    dt: Single,
)
    requires
        is_taut(bob, hinge, length),
    ensures
        ({
            let r = reined(bob, hinge, length, true, n, dt);
            &&& drawn(r.at.x, bob.at.x, bob.at.x, hinge.x)
            &&& drawn(r.at.y, bob.at.y, bob.at.y, hinge.y)
            &&& drawn(r.at.z, bob.at.z, bob.at.z, hinge.z)
        }),
{
    lemma_ratio_constants();
    let dist = bob.at.minus(hinge).length();
    let excess = dist.minus(length.max(Single::epsilon()));
    assert(Single::zero().lt(excess));
    assert(Single::zero().lt(dist));
    lemma_drawn(bob.at.x, bob.at.x, hinge.x, dist, excess);
    lemma_drawn(bob.at.y, bob.at.y, hinge.y, dist, excess);
    lemma_drawn(bob.at.z, bob.at.z, hinge.z, dist, excess);
}

/// Outputs of whole numbers are in the dead zone only where they are zero.
proof fn lemma_dead_zone(x: Single, n: int)
    requires
        is_ratio(x, n, 0),
        fits(n),
    ensures
        x.abs().le(dead_zone()) <==> n == 0,
{
    lemma_ratio_constants();
    lemma_pow2_pos(149);
    assert(x.abs().magnitude() == x.magnitude());
    let w = pow2(149) as int;
    if n == 0 {
        assert(0 * w == 0);
        lemma_nearest_self(x);
    } else {
        let a = x.abs();
        let m = if n < 0 {
            -n
        } else {
            n
        };
        assert((n >= 0 ==> n * w == m * w) && (n < 0 ==> n * w == -(m * w)) && m * w > 0)
            by (nonlinear_arith)
            requires
                n >= 0 ==> m == n,
                n < 0 ==> m == -n,
                n != 0,
                w > 0,
        ;
        assert(magnitude_units(0) == 0);
        assert(is_ratio(a, m, 0));
        lemma_ratio_order(Single::one(), 1, a, m, 0);
    }
}

/// What comes out of a spring: how far the bob is to the right of its root, and how far
/// above it, each by its scale. Exactly so for small whole numbers.
pub proof fn lemma_spring_output_exact(
    state: BustPhysicsState,
    n: BustNumbers,
    anchor: Coord,
    root: (int, int),
    offset: (int, int),
    bob: (int, int),
    ofs: int,
    scale: (int, int),
)
    requires
        -100 <= root.0 <= 100,
        -100 <= root.1 <= 100,
        -100 <= offset.0 <= 100,
        -100 <= offset.1 <= 100,
        -100 <= bob.0 <= 100,
        -100 <= bob.1 <= 100,
        -100 <= ofs <= 100,
        -100 <= scale.0 <= 100,
        -100 <= scale.1 <= 100,
        is_ratio(anchor.x, root.0, 0),
        is_ratio(anchor.y, root.1, 0),
        is_ratio(state.root_offset.x, offset.0, 0),
        is_ratio(state.root_offset.y, offset.1, 0),
        is_ratio(state.bob.x, bob.0, 0),
        is_ratio(state.bob.y, bob.1, 0),
        is_ratio(state.ofs, ofs, 0),
        is_ratio(n.scale_x, scale.0, 0),
        is_ratio(n.scale_y, scale.1, 0),
    ensures
        ({
            let (lr, ud) = bust_outputs(state, n, anchor);
            &&& is_ratio(lr, (bob.0 - root.0 - offset.0) * scale.0, 0)
            &&& is_ratio(ud, (root.1 + offset.1 - bob.1 + ofs) * scale.1, 0)
        }),
{
    lemma_ratio_constants();
    lemma_ratio_plus(anchor.x, root.0, state.root_offset.x, offset.0, 0);
    lemma_ratio_plus(anchor.y, root.1, state.root_offset.y, offset.1, 0);
    lemma_ratio_minus(
        anchor.x.plus(state.root_offset.x),
        root.0 + offset.0,
        state.bob.x,
        bob.0,
        0,
    );
    lemma_ratio_minus(
        anchor.y.plus(state.root_offset.y),
        root.1 + offset.1,
        state.bob.y,
        bob.1,
        0,
    );
    let out = anchor.plus(state.root_offset).minus(state.bob);
    let i = root.0 + offset.0 - bob.0;
    let j = root.1 + offset.1 - bob.1 + ofs;
    lemma_ratio_neg(out.x, i, 0);
    lemma_ratio_plus(out.y, root.1 + offset.1 - bob.1, state.ofs, ofs, 0);
    assert(-40000 <= (-i) * scale.0 <= 40000 && -40000 <= j * scale.1 <= 40000)
        by (nonlinear_arith)
        requires
            -300 <= i <= 300,
            -400 <= j <= 400,
            -100 <= scale.0 <= 100,
            -100 <= scale.1 <= 100,
    ;
    lemma_ratio_times(out.x.neg(), -i, 0, n.scale_x, scale.0, 0);
    lemma_ratio_times(out.y.plus(state.ofs), j, 0, n.scale_y, scale.1, 0);
    lemma_dead_zone(out.x.neg().times(n.scale_x), (-i) * scale.0);
    lemma_dead_zone(out.y.plus(state.ofs).times(n.scale_y), j * scale.1);
}

/// What comes out of a pendulum: how far its bobs are to the right of where they rest, and
/// how far the one that counts is below, by the scales. Exactly so for small whole numbers.
pub proof fn lemma_pendulum_output_exact(
    state: HairPhysicsState,
    n: PendulumNumbers,
    input: PhysicsInput,
    anchor: Coord,
    root: (int, int),
    upper: (int, int),
    lower: (int, int),
    length: (int, int),
    ofs: int,
    x: (int, int),
    y: (int, int),
    s: int,
)
    requires
        -50 <= root.0 <= 50,
        -50 <= root.1 <= 50,
        -50 <= upper.0 <= 50,
        -50 <= upper.1 <= 50,
        -50 <= lower.0 <= 50,
        -50 <= lower.1 <= 50,
        -50 <= length.0 <= 50,
        -50 <= length.1 <= 50,
        -50 <= ofs <= 50,
        -10 <= x.0 <= 10,
        -10 <= x.1 <= 10,
        -10 <= y.0 <= 10,
        -10 <= y.1 <= 10,
        -10 <= s <= 10,
        is_ratio(anchor.x.plus(state.root_offset.x), root.0, 0),
        is_ratio(anchor.y.plus(state.root_offset.y), root.1, 0),
        is_ratio(state.upper.x, upper.0, 0),
        is_ratio(state.upper.y, upper.1, 0),
        is_ratio(state.lower.x, lower.0, 0),
        is_ratio(state.lower.y, lower.1, 0),
        is_ratio(n.lengths.0, length.0, 0),
        is_ratio(n.lengths.1, length.1, 0),
        is_ratio(state.ofs, ofs, 0),
        is_ratio(n.scale_x.0, x.0, 0),
        is_ratio(n.scale_x.1, x.1, 0),
        is_ratio(n.scale_y.0, y.0, 0),
        is_ratio(n.scale_y.1, y.1, 0),
        is_ratio(input.output_scale, s, 0),
    ensures
        ({
            let out = pendulum_output(state, n, input, anchor);
            &&& is_ratio(out.lr, (upper.0 - root.0) * x.0 * s, 0)
            &&& is_ratio(out.lrm, (lower.0 - root.0) * x.1 * s, 0)
            &&& is_ratio(
                out.ud,
                if n.lower_ud {
                    (ofs + lower.1 - (root.1 + length.0 + length.1)) * y.1 * s
                } else {
                    (ofs + upper.1 - (root.1 + length.0)) * y.0 * s
                },
                0,
            )
        }),
{
    let at = anchor.plus(state.root_offset);
    lemma_ratio_plus(at.y, root.1, n.lengths.0, length.0, 0);
    lemma_ratio_plus(at.y.plus(n.lengths.0), root.1 + length.0, n.lengths.1, length.1, 0);
    let (r0, r1) = rests(at, n.lengths);
    lemma_side_output(r0.x, root.0, state.upper.x, upper.0, n.scale_x.0, x.0, input.output_scale, s);
    lemma_side_output(r1.x, root.0, state.lower.x, lower.0, n.scale_x.1, x.1, input.output_scale, s);
    lemma_rise_output(
        r0.y,
        root.1 + length.0,
        state.upper.y,
        upper.1,
        state.ofs,
        ofs,
        n.scale_y.0,
        y.0,
        input.output_scale,
        s,
    );
    lemma_rise_output(
        r1.y,
        root.1 + length.0 + length.1,
        state.lower.y,
        lower.1,
        state.ofs,
        ofs,
        n.scale_y.1,
        y.1,
        input.output_scale,
        s,
    );
}

proof fn lemma_side_output(
    rest: Single,
    r: int,
    bob: Single,
    b: int,
    scale: Single,
    x: int,
    all: Single,
    s: int,
)
    requires
        -200 <= r <= 200,
        -200 <= b <= 200,
        -10 <= x <= 10,
        -10 <= s <= 10,
        is_ratio(rest, r, 0),
        is_ratio(bob, b, 0),
        is_ratio(scale, x, 0),
        is_ratio(all, s, 0),
    ensures
        is_ratio(rest.minus(bob).neg().times(scale).times(all), (b - r) * x * s, 0),
{
    lemma_ratio_minus(rest, r, bob, b, 0);
    lemma_ratio_neg(rest.minus(bob), r - b, 0);
    let m = b - r;
    assert(-4000 <= m * x <= 4000) by (nonlinear_arith)
        requires
            -400 <= m <= 400,
            -10 <= x <= 10,
    ;
    assert(-40000 <= (m * x) * s <= 40000) by (nonlinear_arith)
        requires
            -4000 <= m * x <= 4000,
            -10 <= s <= 10,
    ;
    lemma_ratio_times(rest.minus(bob).neg(), m, 0, scale, x, 0);
    lemma_ratio_times(rest.minus(bob).neg().times(scale), m * x, 0, all, s, 0);
}

proof fn lemma_rise_output(
    rest: Single,
    r: int,
    bob: Single,
    b: int,
    ofs: Single,
    o: int,
    scale: Single,
    y: int,
    all: Single,
    s: int,
)
    requires
        -200 <= r <= 200,
        -200 <= b <= 200,
        -200 <= o <= 200,
        -10 <= y <= 10,
        -10 <= s <= 10,
        is_ratio(rest, r, 0),
        is_ratio(bob, b, 0),
        is_ratio(ofs, o, 0),
        is_ratio(scale, y, 0),
        is_ratio(all, s, 0),
    ensures
        is_ratio(ofs.minus(rest.minus(bob)).times(scale).times(all), (o + b - r) * y * s, 0),
{
    lemma_ratio_minus(rest, r, bob, b, 0);
    lemma_ratio_minus(ofs, o, rest.minus(bob), r - b, 0);
    let m = o + b - r;
    assert(-6000 <= m * y <= 6000) by (nonlinear_arith)
        requires
            -600 <= m <= 600,
            -10 <= y <= 10,
    ;
    assert(-60000 <= (m * y) * s <= 60000) by (nonlinear_arith)
        requires
            -6000 <= m * y <= 6000,
            -10 <= s <= 10,
    ;
    lemma_ratio_times(ofs.minus(rest.minus(bob)), m, 0, scale, y, 0);
    lemma_ratio_times(ofs.minus(rest.minus(bob)).times(scale), m * y, 0, all, s, 0);
}

/// An arm that hangs straight down is as long as it is low.
proof fn lemma_hanging_arm(at: Coord, hinge: Coord, n: int)
    requires
        0 <= n <= 1000,
        at.x.is_finite(),
        at.z.is_finite(),
        hinge.x.is_finite(),
        hinge.z.is_finite(),
        at.x.same(hinge.x),
        at.z.same(hinge.z),
        is_ratio(at.y.minus(hinge.y), n, 0),
    ensures
        is_ratio(at.minus(hinge).length(), n, 0),
{
    lemma_ratio_constants();
    let arm = at.minus(hinge);
    lemma_minus_sign(hinge.x, at.x);
    lemma_minus_sign(hinge.z, at.z);
    lemma_nothing(arm.x);
    lemma_nothing(arm.z);
    assert(n * n <= 1000000) by (nonlinear_arith)
        requires
            0 <= n <= 1000,
    ;
    lemma_ratio_times(arm.y, n, 0, arm.y, n, 0);
    lemma_ratio_times(arm.x, 0, 0, arm.x, 0, 0);
    lemma_ratio_times(arm.z, 0, 0, arm.z, 0, 0);
    lemma_ratio_plus(arm.x.times(arm.x), 0, arm.y.times(arm.y), n * n, 0);
    lemma_ratio_plus(
        arm.x.times(arm.x).plus(arm.y.times(arm.y)),
        n * n,
        arm.z.times(arm.z),
        0,
        0,
    );
    lemma_sqrt_whole(arm.dot(arm), n);
}

/// A number that is the same as zero is zero.
proof fn lemma_nothing(x: Single)
    requires
        x.same(Single::zero()),
    ensures
        is_ratio(x, 0, 0),
        x.magnitude() == 0,
{
    assert(magnitude_units(0) == 0);
    assert(0 * pow2(149) == 0);
}

/// A bob at rest that nothing pushes stays where it is.
proof fn lemma_bob_stays(bob: Bob, push: Coord, n: PendulumNumbers, dt: Single)
    requires
        bob.at.is_finite(),
        bob.vel == Coord::origin(),
        push.x.magnitude() == 0,
        push.y.magnitude() == 0,
        push.z.magnitude() == 0,
        n.friction_x.is_finite(),
        n.friction_y.is_finite(),
        dt.is_finite(),
    ensures
        swung(bob, push, n, dt).at.same(bob.at),
        swung(bob, push, n, dt).vel.same(Coord::origin()),
{
    lemma_ratio_constants();
    let zero = Single::zero();
    lemma_times_a_zero(dt, push.x);
    lemma_times_a_zero(dt, push.y);
    lemma_times_a_zero(dt, push.z);
    lemma_plus_a_zero(zero, push.x.times(dt));
    lemma_plus_a_zero(zero, push.y.times(dt));
    lemma_plus_a_zero(zero, push.z.times(dt));
    lemma_still(bob.at.x, zero.plus(push.x.times(dt)), n.friction_x, dt);
    lemma_still(bob.at.y, zero.plus(push.y.times(dt)), n.friction_y, dt);
    lemma_still(bob.at.z, zero.plus(push.z.times(dt)), n.friction_y, dt);
}

proof fn lemma_still(at: Single, v: Single, friction: Single, dt: Single)
    requires
        at.is_finite(),
        v.magnitude() == 0,
        friction.is_finite(),
        dt.is_finite(),
    ensures
        ({
            let after = v.minus(v.times(friction).times(dt));
            after.magnitude() == 0 && at.plus(after.times(dt)).same(at)
        }),
{
    lemma_times_a_zero(friction, v);
    lemma_times_a_zero(dt, v.times(friction));
    let loss = v.times(friction).times(dt);
    lemma_plus_a_zero(v, loss.neg());
    let after = v.minus(loss);
    lemma_times_a_zero(dt, after);
    lemma_plus_a_zero(at, after.times(dt));
}

/// A pendulum that hangs at rest and that nothing pushes keeps hanging: both of its bobs
/// stay where they are.
pub proof fn lemma_pendulum_rests(
    state: HairPhysicsState,
    n: PendulumNumbers,
    input: PhysicsInput,
    step: PhysicsStep,
    y: int,
    a: int,
    b: int,
)
    requires
        -1000 <= y <= 1000,
        1 <= a <= 1000,
        1 <= b <= 1000,
        ({
            let root = step.anchor.plus(state.root_offset);
            &&& is_ratio(root.y, y, 0)
            &&& root.x.is_finite()
            &&& root.z.is_finite()
            &&& state.upper.x == root.x && state.upper.z == root.z
            &&& state.lower.x == root.x && state.lower.z == root.z
        }),
        is_ratio(state.upper.y, y + a, 0),
        is_ratio(state.lower.y, y + a + b, 0),
        is_ratio(n.lengths.0, a, 0),
        is_ratio(n.lengths.1, b, 0),
        state.upper_vel == Coord::origin(),
        state.lower_vel == Coord::origin(),
        n.gravity.magnitude() == 0,
        input.down.is_finite(),
        input.force_x.magnitude() == 0,
        input.force_y.magnitude() == 0,
        n.friction_x.is_finite(),
        n.friction_y.is_finite(),
        step.dt.is_finite(),
    ensures
        pendulum_moved(state, n, input, step).upper.same(state.upper),
        pendulum_moved(state, n, input, step).upper_vel.same(Coord::origin()),
        pendulum_moved(state, n, input, step).lower.same(state.lower),
        pendulum_moved(state, n, input, step).lower_vel.same(Coord::origin()),
{
    let root = step.anchor.plus(state.root_offset);
    let push = push_of(n, input);
    lemma_ratio_constants();
    lemma_times_a_zero(input.down.x, n.gravity);
    lemma_times_a_zero(input.down.y, n.gravity);
    lemma_plus_a_zero(input.down.x.times(n.gravity), input.force_x);
    lemma_plus_a_zero(input.down.y.times(n.gravity), input.force_y);
    lemma_order_is_by_value(root.x, root.x);
    lemma_order_is_by_value(root.z, root.z);
    lemma_ratio_minus(state.upper.y, y + a, root.y, y, 0);
    lemma_hanging_arm(state.upper, root, a);
    lemma_ratio_order(state.upper.minus(root).length(), a, n.lengths.0, a, 0);
    let bob = Bob { at: state.upper, vel: state.upper_vel };
    lemma_slack_segment(bob, root, n.lengths.0, false, n, step.dt);
    lemma_bob_stays(bob, push, n, step.dt);
    let upper = swung(bob, push, n, step.dt);
    assert(upper.at.is_finite());
    lemma_order_is_by_value(upper.at.y, state.upper.y);
    assert(is_ratio(upper.at.y, y + a, 0));
    lemma_ratio_minus(state.lower.y, y + a + b, upper.at.y, y + a, 0);
    lemma_hanging_arm(state.lower, upper.at, b);
    lemma_ratio_order(state.lower.minus(upper.at).length(), b, n.lengths.1, b, 0);
    let second = Bob { at: state.lower, vel: state.lower_vel };
    lemma_slack_segment(second, upper.at, n.lengths.1, true, n, step.dt);
    lemma_bob_stays(second, push, n, step.dt);
}

/// Gravity and the outer force push a pendulum: exactly so for small whole numbers.
pub proof fn lemma_push_exact(
    n: PendulumNumbers,
    input: PhysicsInput,
    g: int,
    down: (int, int),
    force: (int, int),
)
    requires
        -1000 <= g <= 1000,
        -1 <= down.0 <= 1,
        -1 <= down.1 <= 1,
        -1000 <= force.0 <= 1000,
        -1000 <= force.1 <= 1000,
        is_ratio(n.gravity, g, 0),
        is_ratio(input.down.x, down.0, 0),
        is_ratio(input.down.y, down.1, 0),
        is_ratio(input.force_x, force.0, 0),
        is_ratio(input.force_y, force.1, 0),
    ensures
        is_ratio(push_of(n, input).x, down.0 * g + force.0, 0),
        is_ratio(push_of(n, input).y, down.1 * g + force.1, 0),
        push_of(n, input).z.magnitude() == 0,
{
    assert(-1000 <= down.0 * g <= 1000 && -1000 <= down.1 * g <= 1000) by (nonlinear_arith)
        requires
            -1000 <= g <= 1000,
            -1 <= down.0 <= 1,
            -1 <= down.1 <= 1,
    ;
    lemma_ratio_times(input.down.x, down.0, 0, n.gravity, g, 0);
    lemma_ratio_times(input.down.y, down.1, 0, n.gravity, g, 0);
    lemma_ratio_plus(input.down.x.times(n.gravity), down.0 * g, input.force_x, force.0, 0);
    lemma_ratio_plus(input.down.y.times(n.gravity), down.1 * g, input.force_y, force.1, 0);
}

/// How long a row of substeps takes, in units.
pub open spec fn time_taken(steps: Seq<PhysicsStep>) -> int
    decreases steps.len(),
{
    if steps.len() == 0 {
        0
    } else {
        steps[0].dt.value() + time_taken(steps.drop_first())
    }
}

/// The substeps of an update are at most a tick long, take time, and take together all of
/// the update but what is less than the smallest part that counts.
pub proof fn lemma_substeps_take_the_update(delta: Single, from: Coord, to: Coord, k: nat)
    requires
        delta.is_finite(),
        delta.le(most_ticks()),
        k <= 0x100_0000,
        Single::spec_from_i64(k as i64).le(delta),
    ensures
        ({
            let steps = substeps(delta, from, to, k);
            let left = delta.value() - k * pow2(149) - time_taken(steps);
            &&& 0 <= left
            &&& left > 0 ==> steps_stop(delta, k + steps.len())
            &&& forall|i: int|
                0 <= i < steps.len() ==> Single::zero().lt((#[trigger] steps[i]).dt)
                    && steps[i].dt.le(Single::one())
        }),
    decreases 0x100_0000 - k,
{
    lemma_one();
    lemma_ratio_constants();
    lemma_pow2_pos(149);
    let w = pow2(149) as int;
    let one = Single::one();
    let elapsed = Single::spec_from_i64(k as i64);
    lemma_whole_is_exact(k as i64);
    lemma_order_is_by_value(elapsed, delta);
    if k < 0x100_0000 && elapsed.lt(delta.minus(Single::epsilon())) {
        let rest = delta.minus(elapsed);
        let dt = rest.min(one);
        lemma_below(delta, elapsed);
        lemma_rest(delta, k as i64);
        lemma_order_is_by_value(one, rest);
        lemma_order_is_by_value(Single::zero(), rest);
        lemma_nearest_self(Single::zero());
        let reached = elapsed.plus(dt);
        let step = PhysicsStep { dt, anchor: from.toward(to, unit_clamp(reached.over(delta))) };
        let steps = substeps(delta, from, to, k);
        assert((k + 1) * w == k * w + w) by (nonlinear_arith);
        lemma_order_is_by_value(Single::zero(), one);
        lemma_order_is_by_value(one, one);
        lemma_order_is_by_value(rest, one);
        if dt == one {
            let later = substeps(delta, from, to, k + 1);
            assert(steps == seq![step] + later);
            assert(steps.drop_first() =~= later);
            lemma_whole_is_exact((k + 1) as i64);
            let next = Single::spec_from_i64((k + 1) as i64);
            assert(rest.value() >= w);
            lemma_order_is_by_value(next, delta);
            lemma_substeps_take_the_update(delta, from, to, k + 1);
            assert(steps[0] == step);
            assert(time_taken(steps) == w + time_taken(later));
            assert(k + steps.len() == (k + 1) + later.len());
            assert forall|i: int| 0 <= i < steps.len() implies Single::zero().lt(
                (#[trigger] steps[i]).dt,
            ) && steps[i].dt.le(one) by {
                if i > 0 {
                    assert(steps[i] == later[i - 1]);
                }
            }
        } else {
            assert(dt == rest);
            assert(steps == seq![step]);
            assert(steps.drop_first() =~= Seq::<PhysicsStep>::empty());
            assert(time_taken(steps.drop_first()) == 0);
            assert(steps[0] == step);
            assert(time_taken(steps) == rest.value());
        }
    } else {
        assert(substeps(delta, from, to, k) =~= Seq::empty());
        assert(k * w == k * pow2(149));
    }
}

/// What is below a number less a little is below the number.
proof fn lemma_below(delta: Single, elapsed: Single)
    requires
        delta.is_finite(),
        elapsed.is_finite(),
        elapsed.lt(delta.minus(Single::epsilon())),
    ensures
        elapsed.value() < delta.value(),
{
    let e = Single::epsilon();
    assert(e.is_finite() && !e.is_negative());
    lemma_minus_rank(delta, e);
    lemma_nearest_self(delta);
    lemma_nearest_ordered(delta.value() - e.value(), 1, delta.value(), 1);
    lemma_order_is_by_value(elapsed, delta);
}

/// What is left of an update after whole ticks, exactly.
proof fn lemma_rest(delta: Single, k: i64)
    requires
        delta.is_finite(),
        delta.le(most_ticks()),
        0 <= k < 0x100_0000,
        k * pow2(149) < delta.value(),
    ensures
        delta.minus(Single::spec_from_i64(k)).is_finite(),
        delta.minus(Single::spec_from_i64(k)).value() == delta.value() - k * pow2(149),
{
    lemma_pow2_pos(149);
    let w = pow2(149) as int;
    assert(k * w >= 0) by (nonlinear_arith)
        requires
            k >= 0,
            w > 0,
    ;
    lemma_nearest_self(delta);
    assert(magnitude_units(0) == 0);
    assert(!delta.is_negative());
    lemma_most_ticks();
    lemma_order_is_by_value(delta, most_ticks());
    if delta.value() == 0x100_0000 * w {
        lemma_whole_is_exact(k);
        lemma_ratio_minus(delta, 0x100_0000, Single::spec_from_i64(k), k as int, 0);
        assert((0x100_0000 - k) * w == 0x100_0000 * w - k * w) by (nonlinear_arith);
    } else {
        lemma_rest_is_exact(delta, k);
    }
}

proof fn lemma_most_ticks()
    ensures
        most_ticks().is_finite(),
        most_ticks().value() == 0x100_0000 * pow2(149),
{
    lemma2_to64();
    lemma_pow2_adds(1, 149);
    assert(0x4b80_0000nat / 0x80_0000 == 151);
    assert(0x4b80_0000nat % 0x80_0000 == 0);
    assert(magnitude_units(0x4b80_0000) == 0x80_0000 * pow2(150));
}

/// Whether an update has no more substeps at a tick.
pub open spec fn steps_stop(delta: Single, k: nat) -> bool {
    k >= 0x100_0000 || !Single::spec_from_i64(k as i64).lt(delta.minus(Single::epsilon()))
}

/// The numbers that bending goes by.
proof fn lemma_bend_constants()
    ensures
        is_ratio(bend_rate(), 1, 5),
        is_ratio(bend_trigger(), 28, 0),
        full_turn().is_finite(),
        Single::zero().lt(full_turn()),
        6 * pow2(149) < full_turn().value(),
{
    lemma2_to64();
    lemma_pow2_pos(128);
    lemma_pow2_adds(23, 121);
    lemma_pow2_adds(18, 131);
    lemma_pow2_adds(21, 128);
    assert(magnitude_units(0x3d00_0000) == 0x80_0000 * pow2(121)) by {
        assert(0x3d00_0000nat / 0x80_0000 == 122);
        assert(0x3d00_0000nat % 0x80_0000 == 0);
    }
    assert(magnitude_units(0x41e0_0000) == 0xe0_0000 * pow2(130)) by {
        assert(0x41e0_0000nat / 0x80_0000 == 131);
        assert(0x41e0_0000nat % 0x80_0000 == 0x60_0000);
    }
    lemma_pow2_adds(19, 130);
    assert(magnitude_units(0x40c9_0fdb) == 0xc9_0fdb * pow2(128)) by {
        assert(0x40c9_0fdbnat / 0x80_0000 == 129);
        assert(0x40c9_0fdbnat % 0x80_0000 == 0x49_0fdb);
    }
}

/// The power of the bending stays a share; while the pendulum swings far out it never
/// falls, and else it never rises.
pub proof fn lemma_bend_power_is_a_share(
    state: HairPhysicsState,
    n: PendulumNumbers,
    lr: Single,
    dt: Single,
)
    requires
        is_share(state.bend_power),
        dt.is_finite(),
        Single::zero().le(dt),
        !lr.is_nan(),
    ensures
        ({
            let r = bend_moved(state, n, lr, dt);
            &&& is_share(r.bend_power)
            &&& bend_trigger().lt(lr.abs()) ==> state.bend_power.le(r.bend_power)
            &&& lr.abs().le(bend_trigger()) ==> r.bend_power.le(state.bend_power)
        }),
{
    let zero = Single::zero();
    let power = state.bend_power;
    let by = bend_rate().times(dt);
    lemma_bend_constants();
    lemma_ratio_constants();
    lemma_ratio_order(zero, 0, Single::one(), 1, 0);
    lemma_order_is_by_value(zero, bend_rate());
    lemma_pow2_pos(144);
    assert(zero.le(bend_rate()));
    lemma_times_side(bend_rate(), dt);
    lemma_finer(Single::one(), 1, 0, 5);
    lemma2_to64();
    lemma_ratio_order(bend_rate(), 1, Single::one(), 32, 5);
    lemma_times_share(dt, bend_rate());
    lemma_times_commutes(dt, bend_rate());
    assert(by.is_finite() && zero.le(by));
    lemma_plus_ordered(zero, by, power);
    lemma_plus_a_zero(power, zero);
    let less = by.neg();
    lemma_order_is_by_value(zero, by);
    lemma_order_is_by_value(less, zero);
    assert(less.value() == -by.value());
    lemma_plus_ordered(less, zero, power);
    assert(power.minus(by).le(power));
    assert(power.le(power.plus(by)));
}

/// On whole ticks the power of the bending grows or fades by a thirty-second a tick, from
/// nothing to all of it, and the phase goes on by that power.
pub proof fn lemma_bend_exact(
    state: HairPhysicsState,
    n: PendulumNumbers,
    lr: Single,
    dt: Single,
    power: int,
    ticks: int,
    speed: int,
    phase: int,
)
    requires
        n.bends_by(speed),
        is_ratio(state.bend_power, power, 5),
        is_ratio(dt, ticks, 0),
        is_ratio(state.bend_phase, phase, 5),
        0 <= power <= 32,
        0 < ticks <= 32,
        0 <= phase <= 192,
        !lr.is_nan(),
        ({
            let next = next_power(power, ticks, bend_trigger().lt(lr.abs()));
            0 <= phase + speed * next * ticks <= 192 && fits(speed * next)
        }),
    ensures
        ({
            let next = next_power(power, ticks, bend_trigger().lt(lr.abs()));
            let r = bend_moved(state, n, lr, dt);
            &&& is_ratio(r.bend_power, next, 5)
            &&& is_ratio(r.bend_phase, phase + speed * next * ticks, 5)
        }),
{
    lemma2_to64();
    lemma_bend_constants();
    lemma_ratio_constants();
    let zero = Single::zero();
    let one = Single::one();
    lemma_finer(zero, 0, 0, 5);
    lemma_finer(one, 1, 0, 5);
    lemma_ratio_times(bend_rate(), 1, 5, dt, ticks, 0);
    let by = bend_rate().times(dt);
    lemma_ratio_minus(state.bend_power, power, by, ticks, 5);
    lemma_ratio_plus(state.bend_power, power, by, ticks, 5);
    lemma_ratio_order(state.bend_power.minus(by), power - ticks, zero, 0, 5);
    lemma_ratio_order(one, 32, state.bend_power.plus(by), power + ticks, 5);
    let next = next_power(power, ticks, bend_trigger().lt(lr.abs()));
    let r = bend_moved(state, n, lr, dt);
    assert(is_ratio(r.bend_power, next, 5));
    let p = r.bend_power;
    let total = speed * next * ticks;
    assert(fits(total));
    lemma_ratio_times(n.bend_spd, speed, 0, p, next, 5);
    lemma_ratio_times(n.bend_spd.times(p), speed * next, 5, dt, ticks, 0);
    let on = n.bend_spd.times(p).times(dt);
    lemma_ratio_plus(state.bend_phase, phase, on, total, 5);
    let sum = state.bend_phase.plus(on);
    let c = phase + total;
    lemma_pow2_adds(5, 144);
    lemma_pow2_pos(144);
    let u = pow2(144) as int;
    assert(0 <= c * u <= 192 * u) by (nonlinear_arith)
        requires
            0 <= c <= 192,
            u > 0,
    ;
    assert(sum.value() < full_turn().value());
    lemma_round_within(sum, full_turn());
}

/// A number within a turn is what is left of it after whole turns.
proof fn lemma_round_within(a: Single, b: Single)
    requires
        a.is_finite(),
        b.is_finite(),
        0 <= a.value() < b.value(),
    ensures
        a.rem_euclid(b).is_finite(),
        a.rem_euclid(b).value() == a.value(),
{
    reveal(Single::spec_rem);
    assert(magnitude_units(0) == 0);
    lemma_nearest_self(a);
    lemma_nearest_self(b);
    assert(a.units() == a.value());
    assert(b.units() == b.value());
    lemma_small_mod(a.units(), b.units());
    lemma_round_exact(a.magnitude() as nat);
    let r = a.rem(b);
    assert(r.magnitude() == a.magnitude());
    lemma_order_is_by_value(r, Single::zero());
}

impl PendulumNumbers {
    /// Whether a pendulum bends, with a whole speed.
    pub open spec fn bends_by(self, speed: int) -> bool {
        spec_bends(self) && is_ratio(self.bend_spd, speed, 0)
    }
}

/// The power of the bending after some ticks, in thirty-seconds.
pub open spec fn next_power(power: int, ticks: int, grows: bool) -> int {
    if grows {
        if power + ticks > 32 {
            32
        } else {
            power + ticks
        }
    } else if power - ticks < 0 {
        0
    } else {
        power - ticks
    }
}

/// What a pendulum bends by goes from one output to the other: exactly so on whole
/// numbers, where the outputs are not all close to zero.
pub proof fn lemma_bending_goes_over(
    output: PendulumOutput,
    state: HairPhysicsState,
    n: PendulumNumbers,
    sine: Single,
    a: int,
    s: nat,
    power: int,
    volume: int,
    lr: int,
    lrm: int,
)
    requires
        spec_bends(n),
        s <= 24,
        is_ratio(sine, a, s),
        is_ratio(state.bend_power, power, 5),
        is_ratio(n.bend_vol, volume, 0),
        is_ratio(output.lr, lr, s + 5),
        is_ratio(output.lrm, lrm, s + 5),
        fits(a * power),
        fits(a * power * volume),
        fits(lr - a * power * volume),
        fits(lrm + a * power * volume),
        dead_zone().lt(output.ud.abs()),
    ensures
        ({
            let r = bent(output, state, n, sine);
            let bend = a * power * volume;
            &&& is_ratio(r.lr, lr - bend, s + 5)
            &&& is_ratio(r.lrm, lrm + bend, s + 5)
            &&& r.ud == output.ud
        }),
{
    lemma_ratio_times(sine, a, s, state.bend_power, power, 5);
    let x = sine.times(state.bend_power);
    lemma_ratio_times(x, a * power, s + 5, n.bend_vol, volume, 0);
    let bend = x.times(n.bend_vol);
    lemma_ratio_minus(output.lr, lr, bend, a * power * volume, s + 5);
    lemma_ratio_plus(output.lrm, lrm, bend, a * power * volume, s + 5);
}

/// The outputs of a pendulum are all zero, or one of them lies outside the dead zone.
pub proof fn lemma_small_outputs_are_none(
    output: PendulumOutput,
    state: HairPhysicsState,
    n: PendulumNumbers,
    sine: Single,
)
    ensures
        ({
            let r = bent(output, state, n, sine);
            ||| r.lr == Single::zero() && r.lrm == Single::zero() && r.ud == Single::zero()
            ||| !r.lr.abs().le(dead_zone())
            ||| !r.lrm.abs().le(dead_zone())
            ||| !r.ud.abs().le(dead_zone())
        }),
{
}

/// The lower bob hangs on the upper one where that has come to, not where it was: within
/// reach of that place it only swings, wherever the upper bob came from.
pub proof fn lemma_lower_bob_hangs_on_the_moved_upper_one(
    state: HairPhysicsState,
    other: HairPhysicsState,
    n: PendulumNumbers,
    input: PhysicsInput,
    step: PhysicsStep,
)
    requires
        state.lower == other.lower,
        state.lower_vel == other.lower_vel,
        state.lower.minus(pendulum_moved(state, n, input, step).upper).length().le(n.lengths.1),
        other.lower.minus(pendulum_moved(other, n, input, step).upper).length().le(n.lengths.1),
    ensures
        pendulum_moved(state, n, input, step).lower == pendulum_moved(other, n, input, step).lower,
        pendulum_moved(state, n, input, step).lower_vel == pendulum_moved(
            other,
            n,
            input,
            step,
        ).lower_vel,
{
    lemma_slack_segment(
        Bob { at: state.lower, vel: state.lower_vel },
        pendulum_moved(state, n, input, step).upper,
        n.lengths.1,
        true,
        n,
        step.dt,
    );
    lemma_slack_segment(
        Bob { at: other.lower, vel: other.lower_vel },
        pendulum_moved(other, n, input, step).upper,
        n.lengths.1,
        true,
        n,
        step.dt,
    );
}

} // verus!
