//! Laws of the bodies: which way a spring pulls, gravity falls and friction slows.

use crate::curve_laws::{is_share, lemma_times_a_zero};
use crate::dyadic::{
    is_ratio, lemma_finer, lemma_ratio_constants, lemma_ratio_minus, lemma_ratio_order,
    lemma_ratio_plus, lemma_ratio_times,
};
use crate::exact::{
    lemma_one, lemma_order_is_by_value, lemma_plus_a_zero, lemma_plus_commutes, lemma_representable,
    lemma_times_commutes, lemma_times_one, lemma_units_increase,
};
use crate::monotone::{
    lemma_minus_rank, lemma_minus_sign, lemma_nearest_ordered, lemma_nearest_self, lemma_times_rank,
    lemma_times_side,
};
use crate::physics::{down, sprung, BustNumbers, BustPhysicsState, PhysicsInput, PhysicsStep};
use crate::rounding::{lemma_pow2_le, round_units};
use crate::single::Single;
use vstd::arithmetic::power2::{lemma2_to64, lemma_pow2_adds, lemma_pow2_pos, pow2};
use vstd::prelude::*;

verus! {

/// Whether a number is zero, of either sign.
pub open spec fn is_nothing(x: Single) -> bool {
    x.magnitude() == 0
}

/// Whether one number is on the side of zero that a difference `to - from` is on.
pub open spec fn points(x: Single, from: Single, to: Single) -> bool {
    &&& from.le(to) ==> Single::zero().le(x)
    &&& to.le(from) ==> x.le(Single::zero())
}

/// Whether one number is strictly on the side that a difference `to - from` is on.
pub open spec fn points_strictly(x: Single, from: Single, to: Single) -> bool {
    &&& from.lt(to) ==> Single::zero().lt(x)
    &&& to.lt(from) ==> x.lt(Single::zero())
}

/// A product of two numbers that are not too small is not too small.
proof fn lemma_times_at_least(a: Single, b: Single, x: nat, y: nat)
    requires
        a.is_finite(),
        b.is_finite(),
        a.times(b).is_finite(),
        b.value() >= pow2(y),
        149 <= x + y <= 300,
    ensures
        a.value() >= pow2(x) ==> a.times(b).value() >= pow2((x + y - 149) as nat),
        a.value() <= -pow2(x) ==> a.times(b).value() <= -pow2((x + y - 149) as nat),
{
    let t = (x + y - 149) as nat;
    let p = a.times(b);
    lemma_pow2_pos(149);
    lemma_pow2_pos(t);
    lemma_pow2_pos(x);
    lemma_pow2_pos(y);
    lemma_pow2_adds(x, y);
    lemma_pow2_adds(t, 149);
    lemma_times_rank(a, b);
    lemma_representable(1, t);
    assert(1 * pow2(t) == pow2(t));
    let least = round_units(pow2(t), 1);
    let w = pow2(149);
    if a.value() >= pow2(x) {
        assert(pow2(t) * w <= a.value() * b.value()) by (nonlinear_arith)
            requires
                pow2(t) * w == pow2(x) * pow2(y),
                a.value() >= pow2(x),
                b.value() >= pow2(y),
                pow2(x) > 0,
                pow2(y) > 0,
        ;
        assert(a.value() * b.value() * 1 == a.value() * b.value());
        lemma_nearest_ordered(pow2(t) as int, 1, a.value() * b.value(), w);
        assert(p.rank() >= least);
        if p.magnitude() as nat > least {
            lemma_units_increase(least, p.magnitude() as nat);
        }
    }
    if a.value() <= -pow2(x) {
        assert(a.value() * b.value() <= (-pow2(t)) * w) by (nonlinear_arith)
            requires
                pow2(t) * w == pow2(x) * pow2(y),
                a.value() <= -pow2(x),
                b.value() >= pow2(y),
                pow2(x) > 0,
                pow2(y) > 0,
        ;
        assert(a.value() * b.value() * 1 == a.value() * b.value());
        lemma_nearest_ordered(a.value() * b.value(), w, -pow2(t), 1);
        assert(p.rank() <= -least);
        if p.magnitude() as nat > least {
            lemma_units_increase(least, p.magnitude() as nat);
        }
    }
}

/// Adding nothing changes no value.
proof fn lemma_plus_nothing(a: Single, z: Single)
    requires
        a.is_finite(),
        is_nothing(z),
    ensures
        a.plus(z).same(a),
        z.plus(a).same(a),
        a.plus(z).is_finite(),
        z.plus(a).is_finite(),
        a.plus(z).value() == a.value(),
        z.plus(a).value() == a.value(),
{
    lemma_plus_a_zero(a, z);
    lemma_plus_commutes(a, z);
    lemma_order_is_by_value(a.plus(z), a);
}

/// What friction leaves of a speed is a share of it.
proof fn lemma_damp(friction: Single, dt: Single)
    requires
        friction.is_finite(),
        dt.is_finite(),
        Single::zero().le(friction),
        Single::zero().le(dt),
        friction.times(dt).is_finite(),
    ensures
        is_share(Single::one().minus(friction.times(dt)).max(Single::zero())),
        is_nothing(friction) ==> Single::one().minus(friction.times(dt)).max(Single::zero())
            == Single::one(),
{
    lemma_one();
    let loss = friction.times(dt);
    lemma_times_side(friction, dt);
    lemma_order_is_by_value(Single::zero(), loss);
    lemma_nearest_self(Single::zero());
    lemma_minus_rank(Single::one(), loss);
    lemma_nearest_self(Single::one());
    lemma_nearest_ordered(Single::one().value() - loss.value(), 1, Single::one().value(), 1);
    if is_nothing(friction) {
        lemma_times_a_zero(dt, friction);
        lemma_plus_a_zero(Single::one(), loss.neg());
    }
}

/// Whether a body stands still, and nothing but its spring acts on it.
pub open spec fn only_springs(
    state: BustPhysicsState,
    n: BustNumbers,
    input: PhysicsInput,
) -> bool {
    &&& is_nothing(state.vel.x)
    &&& is_nothing(state.vel.y)
    &&& is_nothing(state.vel.z)
    &&& is_nothing(n.gravity)
    &&& is_nothing(input.force_x)
    &&& is_nothing(input.force_y)
    &&& input.down.is_finite()
}

/// Whether the numbers of a substep are finite, and its products too.
pub open spec fn no_overflow(
    state: BustPhysicsState,
    n: BustNumbers,
    input: PhysicsInput,
    step: PhysicsStep,
) -> bool {
    let root = step.anchor.plus(state.root_offset);
    &&& root.is_finite()
    &&& state.bob.is_finite()
    &&& input.down.is_finite()
    &&& n.spring.is_finite()
    &&& n.friction.is_finite()
    &&& step.dt.is_finite()
    &&& root.minus(state.bob).is_finite()
    &&& n.spring.times(root.x.minus(state.bob.x)).is_finite()
    &&& n.spring.times(root.y.minus(state.bob.y)).is_finite()
    &&& n.spring.times(root.z.minus(state.bob.z)).is_finite()
    &&& n.spring.times(root.x.minus(state.bob.x)).times(step.dt).is_finite()
    &&& n.spring.times(root.y.minus(state.bob.y)).times(step.dt).is_finite()
    &&& n.spring.times(root.z.minus(state.bob.z)).times(step.dt).is_finite()
    &&& n.friction.times(step.dt).is_finite()
}

/// The speed that a spring gives one coordinate of a body at rest.
proof fn lemma_spring_coordinate(
    vel: Single,
    root: Single,
    bob: Single,
    spring: Single,
    a: Single,
    b: Single,
    dt: Single,
    damp: Single,
)
    requires
        is_nothing(vel),
        is_nothing(a),
        is_nothing(b),
        root.is_finite(),
        bob.is_finite(),
        root.minus(bob).is_finite(),
        spring.is_finite(),
        Single::zero().le(spring),
        spring.times(root.minus(bob)).is_finite(),
        dt.is_finite(),
        Single::zero().le(dt),
        spring.times(root.minus(bob)).times(dt).is_finite(),
        is_share(damp),
    ensures
        ({
            let r = vel.plus(spring.times(root.minus(bob)).plus(a).plus(b).times(dt)).times(damp);
            &&& points(r, bob, root)
            &&& (damp == Single::one() && spring.value() >= pow2(109) && dt.value() >= pow2(129) && (
            root.value() - bob.value() >= pow2(109) || bob.value() - root.value() >= pow2(109)))
                ==> points_strictly(r, bob, root)
        }),
{
    let disp = root.minus(bob);
    let zero = Single::zero();
    lemma_minus_sign(bob, root);
    lemma_order_is_by_value(bob, root);
    lemma_order_is_by_value(root, bob);
    let pull = spring.times(disp);
    lemma_times_commutes(spring, disp);
    lemma_times_side(disp, spring);
    lemma_plus_nothing(pull, a);
    lemma_plus_nothing(pull.plus(a), b);
    let all = pull.plus(a).plus(b);
    lemma_nearest_self(zero);
    lemma_order_is_by_value(zero, pull);
    lemma_order_is_by_value(pull, zero);
    lemma_order_is_by_value(zero, all);
    lemma_order_is_by_value(all, zero);
    lemma_times_side(all, dt);
    let gain = all.times(dt);
    lemma_times_rank(all, dt);
    lemma_times_rank(pull, dt);
    lemma_plus_nothing(gain, vel);
    let v = vel.plus(gain);
    lemma_order_is_by_value(zero, gain);
    lemma_order_is_by_value(gain, zero);
    lemma_order_is_by_value(zero, v);
    lemma_order_is_by_value(v, zero);
    lemma_times_side(v, damp);
    if damp == Single::one() && spring.value() >= pow2(109) && dt.value() >= pow2(129) && (
    root.value() - bob.value() >= pow2(109) || bob.value() - root.value() >= pow2(109)) {
        lemma_times_one(v);
        lemma_pow2_pos(109);
        // The difference keeps its size.
        lemma_minus_rank(root, bob);
        lemma_representable(1, 109);
        assert(1 * pow2(109) == pow2(109));
        let least = round_units(pow2(109), 1);
        let apart = root.value() - bob.value();
        if apart >= pow2(109) {
            lemma_nearest_ordered(pow2(109) as int, 1, apart, 1);
        } else {
            lemma_nearest_ordered(apart, 1, -pow2(109), 1);
        }
        if disp.magnitude() as nat > least {
            lemma_units_increase(least, disp.magnitude() as nat);
        }
        lemma_times_at_least(disp, spring, 109, 109);
        lemma_times_at_least(all, dt, 69, 129);
        lemma_pow2_pos(49);
    }
}

/// A spring pulls a body at rest toward its root: in every coordinate its speed then
/// points from the bob to the root, and there is none where the bob is at the root.
/// Without friction, and unless the distance, the spring or the substep is tiny, there is
/// some speed wherever the bob is off its root.
pub proof fn lemma_spring_pulls_to_the_root(
    state: BustPhysicsState,
    n: BustNumbers,
    input: PhysicsInput,
    step: PhysicsStep,
)
    requires
        no_overflow(state, n, input, step),
        only_springs(state, n, input),
        Single::zero().le(n.spring),
        Single::zero().le(n.friction),
        Single::zero().le(step.dt),
    ensures
        ({
            let after = sprung(state, n, input, step);
            let root = step.anchor.plus(state.root_offset);
            let sized = is_nothing(n.friction) && n.spring.value() >= pow2(109) && step.dt.value()
                >= pow2(129);
            &&& points(after.vel.x, state.bob.x, root.x)
            &&& points(after.vel.y, state.bob.y, root.y)
            &&& points(after.vel.z, state.bob.z, root.z)
            &&& sized && far_off(root.x, state.bob.x) ==> points_strictly(
                after.vel.x,
                state.bob.x,
                root.x,
            )
            &&& sized && far_off(root.y, state.bob.y) ==> points_strictly(
                after.vel.y,
                state.bob.y,
                root.y,
            )
            &&& sized && far_off(root.z, state.bob.z) ==> points_strictly(
                after.vel.z,
                state.bob.z,
                root.z,
            )
        }),
{
    let root = step.anchor.plus(state.root_offset);
    let disp = root.minus(state.bob);
    let damp = Single::one().minus(n.friction.times(step.dt)).max(Single::zero());
    lemma_damp(n.friction, step.dt);
    lemma_times_a_zero(input.down.x, n.gravity);
    lemma_times_a_zero(input.down.y, n.gravity);
    lemma_spring_coordinate(
        state.vel.x,
        root.x,
        state.bob.x,
        n.spring,
        n.gravity.times(input.down.x),
        input.force_x,
        step.dt,
        damp,
    );
    lemma_spring_coordinate(
        state.vel.y,
        root.y,
        state.bob.y,
        n.spring,
        n.gravity.times(input.down.y),
        input.force_y,
        step.dt,
        damp,
    );
    lemma_spring_depth(state.vel.z, root.z, state.bob.z, n.spring, step.dt, damp);
}

/// Whether two coordinates are at least two to the minus fortieth apart.
pub open spec fn far_off(a: Single, b: Single) -> bool {
    a.value() - b.value() >= pow2(109) || b.value() - a.value() >= pow2(109)
}

proof fn lemma_spring_depth(
    vel: Single,
    root: Single,
    bob: Single,
    spring: Single,
    dt: Single,
    damp: Single,
)
    requires
        is_nothing(vel),
        root.is_finite(),
        bob.is_finite(),
        root.minus(bob).is_finite(),
        spring.is_finite(),
        Single::zero().le(spring),
        spring.times(root.minus(bob)).is_finite(),
        dt.is_finite(),
        Single::zero().le(dt),
        spring.times(root.minus(bob)).times(dt).is_finite(),
        is_share(damp),
    ensures
        ({
            let r = vel.plus(spring.times(root.minus(bob)).times(dt)).times(damp);
            &&& points(r, bob, root)
            &&& (damp == Single::one() && spring.value() >= pow2(109) && dt.value() >= pow2(129)
                && far_off(root, bob)) ==> points_strictly(r, bob, root)
        }),
{
    let disp = root.minus(bob);
    let pull = spring.times(disp);
    let zero = Single::zero();
    lemma_minus_sign(bob, root);
    lemma_order_is_by_value(bob, root);
    lemma_order_is_by_value(root, bob);
    lemma_times_commutes(spring, disp);
    lemma_times_side(disp, spring);
    lemma_times_side(pull, dt);
    let gain = pull.times(dt);
    lemma_plus_nothing(gain, vel);
    let v = vel.plus(gain);
    lemma_nearest_self(zero);
    lemma_order_is_by_value(zero, gain);
    lemma_order_is_by_value(gain, zero);
    lemma_order_is_by_value(zero, v);
    lemma_order_is_by_value(v, zero);
    lemma_times_side(v, damp);
    if damp == Single::one() && spring.value() >= pow2(109) && dt.value() >= pow2(129) && far_off(
        root,
        bob,
    ) {
        lemma_times_one(v);
        lemma_pow2_pos(109);
        lemma_minus_rank(root, bob);
        lemma_representable(1, 109);
        assert(1 * pow2(109) == pow2(109));
        let least = round_units(pow2(109), 1);
        let apart = root.value() - bob.value();
        if apart >= pow2(109) {
            lemma_nearest_ordered(pow2(109) as int, 1, apart, 1);
        } else {
            lemma_nearest_ordered(apart, 1, -pow2(109), 1);
        }
        if disp.magnitude() as nat > least {
            lemma_units_increase(least, disp.magnitude() as nat);
        }
        lemma_times_at_least(disp, spring, 109, 109);
        lemma_times_at_least(pull, dt, 69, 129);
        lemma_pow2_pos(49);
    }
}

/// One coordinate of a body and of what acts on it, in whole numbers.
pub struct Whole {
    pub anchor: int,
    pub offset: int,
    pub bob: int,
    pub vel: int,
    pub down: int,
    pub force: int,
}

impl Whole {
    /// Whether all numbers are small enough to be held on the way.
    pub open spec fn is_small(self) -> bool {
        &&& -64 <= self.anchor <= 64
        &&& -64 <= self.offset <= 64
        &&& -64 <= self.bob <= 64
        &&& -64 <= self.vel <= 64
        &&& -1 <= self.down <= 1
        &&& -64 <= self.force <= 64
    }

    /// The speed after a tick, in parts of two to the power `p + q`: the spring has pulled
    /// by its number times the way to the root, gravity and the force have pushed, and
    /// friction has taken its share.
    pub open spec fn speed(self, a: int, p: nat, g: int, k: int, q: nat) -> int {
        (self.vel * pow2(p) + a * (self.anchor + self.offset - self.bob) + (g * self.down
            + self.force) * pow2(p)) * (pow2(q) - k)
    }
}

proof fn lemma_whole_coordinate(
    w: Whole,
    anchor: Single,
    offset: Single,
    bob: Single,
    vel: Single,
    down: Single,
    force: Single,
    spring: Single,
    a: int,
    p: nat,
    gravity: Single,
    g: int,
    damp: Single,
    k: int,
    q: nat,
)
    requires
        w.is_small(),
        0 <= a <= 16,
        p <= 4,
        -64 <= g <= 64,
        0 <= k <= pow2(q),
        q <= 4,
        is_ratio(anchor, w.anchor, 0),
        is_ratio(offset, w.offset, 0),
        is_ratio(bob, w.bob, 0),
        is_ratio(vel, w.vel, 0),
        is_ratio(down, w.down, 0),
        is_ratio(force, w.force, 0),
        is_ratio(spring, a, p),
        is_ratio(gravity, g, 0),
        is_ratio(damp, pow2(q) - k, q),
    ensures
        ({
            let one = Single::one();
            let pull = spring.times(anchor.plus(offset).minus(bob)).plus(gravity.times(down)).plus(
                force,
            );
            let after = vel.plus(pull.times(one)).times(damp);
            let v = w.speed(a, p, g, k, q);
            &&& is_ratio(after, v, p + q)
            &&& is_ratio(bob.plus(after.times(one)), w.bob * pow2(p + q) + v, p + q)
        }),
{
    lemma2_to64();
    lemma_ratio_constants();
    lemma_pow2_le(p, 4);
    lemma_pow2_le(q, 4);
    lemma_pow2_pos(p);
    lemma_pow2_pos(q);
    lemma_pow2_adds(p, q);
    let x = pow2(p) as int;
    let y = pow2(q) as int;
    let one = Single::one();
    let way = w.anchor + w.offset - w.bob;
    lemma_ratio_plus(anchor, w.anchor, offset, w.offset, 0);
    lemma_ratio_minus(anchor.plus(offset), w.anchor + w.offset, bob, w.bob, 0);
    assert(-3072 <= a * way <= 3072) by (nonlinear_arith)
        requires
            0 <= a <= 16,
            -192 <= way <= 192,
    ;
    let disp = anchor.plus(offset).minus(bob);
    lemma_ratio_times(spring, a, p, disp, way, 0);
    assert(-64 <= g * w.down <= 64) by (nonlinear_arith)
        requires
            -64 <= g <= 64,
            -1 <= w.down <= 1,
    ;
    lemma_ratio_times(gravity, g, 0, down, w.down, 0);
    lemma_finer(gravity.times(down), g * w.down, 0, p);
    assert(-1024 <= (g * w.down) * x <= 1024 && -1024 <= w.force * x <= 1024 && -1024 <= w.vel * x
        <= 1024) by (nonlinear_arith)
        requires
            -64 <= g * w.down <= 64,
            -64 <= w.force <= 64,
            -64 <= w.vel <= 64,
            0 < x <= 16,
    ;
    let pulled = spring.times(disp);
    lemma_ratio_plus(pulled, a * way, gravity.times(down), (g * w.down) * x, p);
    lemma_finer(force, w.force, 0, p);
    let both = pulled.plus(gravity.times(down));
    lemma_ratio_plus(both, a * way + (g * w.down) * x, force, w.force * x, p);
    let all = a * way + (g * w.down) * x + w.force * x;
    assert(all == a * way + (g * w.down + w.force) * x) by (nonlinear_arith)
        requires
            all == a * way + (g * w.down) * x + w.force * x,
    ;
    lemma_whole_move(w.vel, w.bob, vel, bob, both.plus(force), all, p, damp, k, q);
}

/// The depth of a body is pulled by the spring alone.
proof fn lemma_whole_depth(
    w: Whole,
    anchor: Single,
    offset: Single,
    bob: Single,
    vel: Single,
    spring: Single,
    a: int,
    p: nat,
    damp: Single,
    k: int,
    q: nat,
)
    requires
        w.is_small(),
        w.down == 0,
        w.force == 0,
        0 <= a <= 16,
        p <= 4,
        0 <= k <= pow2(q),
        q <= 4,
        is_ratio(anchor, w.anchor, 0),
        is_ratio(offset, w.offset, 0),
        is_ratio(bob, w.bob, 0),
        is_ratio(vel, w.vel, 0),
        is_ratio(spring, a, p),
        is_ratio(damp, pow2(q) - k, q),
    ensures
        ({
            let one = Single::one();
            let pull = spring.times(anchor.plus(offset).minus(bob));
            let after = vel.plus(pull.times(one)).times(damp);
            let v = w.speed(a, p, 0, k, q);
            &&& is_ratio(after, v, p + q)
            &&& is_ratio(bob.plus(after.times(one)), w.bob * pow2(p + q) + v, p + q)
        }),
{
    let way = w.anchor + w.offset - w.bob;
    lemma_ratio_plus(anchor, w.anchor, offset, w.offset, 0);
    lemma_ratio_minus(anchor.plus(offset), w.anchor + w.offset, bob, w.bob, 0);
    assert(-3072 <= a * way <= 3072) by (nonlinear_arith)
        requires
            0 <= a <= 16,
            -192 <= way <= 192,
    ;
    let disp = anchor.plus(offset).minus(bob);
    lemma_ratio_times(spring, a, p, disp, way, 0);
    let x = pow2(p) as int;
    assert((0 * w.down + w.force) * x == 0) by (nonlinear_arith)
        requires
            w.force == 0,
    ;
    lemma_whole_move(w.vel, w.bob, vel, bob, spring.times(disp), a * way, p, damp, k, q);
}

/// A tick under a pull.
proof fn lemma_whole_move(
    v: int,
    b: int,
    vel: Single,
    bob: Single,
    pull: Single,
    all: int,
    p: nat,
    damp: Single,
    k: int,
    q: nat,
)
    requires
        -64 <= v <= 64,
        -64 <= b <= 64,
        -7168 <= all <= 7168,
        p <= 4,
        0 <= k <= pow2(q),
        q <= 4,
        is_ratio(bob, b, 0),
        is_ratio(vel, v, 0),
        is_ratio(pull, all, p),
        is_ratio(damp, pow2(q) - k, q),
    ensures
        ({
            let one = Single::one();
            let after = vel.plus(pull.times(one)).times(damp);
            let f = (v * pow2(p) + all) * (pow2(q) - k);
            &&& is_ratio(after, f, p + q)
            &&& is_ratio(bob.plus(after.times(one)), b * pow2(p + q) + f, p + q)
        }),
{
    lemma2_to64();
    lemma_ratio_constants();
    lemma_pow2_le(p, 4);
    lemma_pow2_le(q, 4);
    lemma_pow2_pos(p);
    lemma_pow2_pos(q);
    lemma_pow2_adds(p, q);
    let x = pow2(p) as int;
    let y = pow2(q) as int;
    let one = Single::one();
    assert(-1024 <= v * x <= 1024) by (nonlinear_arith)
        requires
            -64 <= v <= 64,
            0 < x <= 16,
    ;
    assert(all * 1 == all);
    lemma_ratio_times(pull, all, p, one, 1, 0);
    lemma_finer(vel, v, 0, p);
    lemma_ratio_plus(vel, v * x, pull.times(one), all, p);
    let fast = vel.plus(pull.times(one));
    let f = v * x + all;
    assert(-131072 <= f * (y - k) <= 131072) by (nonlinear_arith)
        requires
            -8192 <= f <= 8192,
            0 <= y - k <= 16,
    ;
    lemma_ratio_times(fast, f, p, damp, y - k, q);
    let after = fast.times(damp);
    let g = f * (y - k);
    assert(g * 1 == g);
    lemma_ratio_times(after, g, p + q, one, 1, 0);
    lemma_finer(bob, b, 0, p + q);
    assert(-65536 <= b * (x * y) <= 65536) by (nonlinear_arith)
        requires
            -64 <= b <= 64,
            0 < x <= 16,
            0 < y <= 16,
    ;
    lemma_ratio_plus(bob, b * pow2(p + q), after.times(one), g, p + q);
}

/// What a spring does in a whole tick, exactly for small whole numbers: its speed grows by
/// the spring times the way to the root, by gravity and by the force, friction takes its
/// share, and the bob goes as far as the speed says.
pub proof fn lemma_spring_tick_exact(
    state: BustPhysicsState,
    n: BustNumbers,
    input: PhysicsInput,
    step: PhysicsStep,
    x: Whole,
    y: Whole,
    z: Whole,
    a: int,
    p: nat,
    g: int,
    k: int,
    q: nat,
)
    requires
        x.is_small(),
        y.is_small(),
        z.is_small(),
        z.down == 0,
        z.force == 0,
        0 <= a <= 16,
        p <= 4,
        -64 <= g <= 64,
        0 <= k <= pow2(q),
        q <= 4,
        step.dt == Single::one(),
        is_ratio(n.spring, a, p),
        is_ratio(n.gravity, g, 0),
        is_ratio(n.friction, k, q),
        is_ratio(step.anchor.x, x.anchor, 0),
        is_ratio(step.anchor.y, y.anchor, 0),
        is_ratio(step.anchor.z, z.anchor, 0),
        is_ratio(state.root_offset.x, x.offset, 0),
        is_ratio(state.root_offset.y, y.offset, 0),
        is_ratio(state.root_offset.z, z.offset, 0),
        is_ratio(state.bob.x, x.bob, 0),
        is_ratio(state.bob.y, y.bob, 0),
        is_ratio(state.bob.z, z.bob, 0),
        is_ratio(state.vel.x, x.vel, 0),
        is_ratio(state.vel.y, y.vel, 0),
        is_ratio(state.vel.z, z.vel, 0),
        is_ratio(input.down.x, x.down, 0),
        is_ratio(input.down.y, y.down, 0),
        is_ratio(input.force_x, x.force, 0),
        is_ratio(input.force_y, y.force, 0),
    ensures
        ({
            let after = sprung(state, n, input, step);
            &&& is_ratio(after.vel.x, x.speed(a, p, g, k, q), p + q)
            &&& is_ratio(after.vel.y, y.speed(a, p, g, k, q), p + q)
            &&& is_ratio(after.bob.x, x.bob * pow2(p + q) + x.speed(a, p, g, k, q), p + q)
            &&& is_ratio(after.bob.y, y.bob * pow2(p + q) + y.speed(a, p, g, k, q), p + q)
            &&& is_ratio(after.vel.z, z.speed(a, p, 0, k, q), p + q)
            &&& is_ratio(after.bob.z, z.bob * pow2(p + q) + z.speed(a, p, 0, k, q), p + q)
            &&& after.root_offset == state.root_offset
            &&& after.ofs == state.ofs
            &&& after.last_anchor == state.last_anchor
        }),
{
    lemma2_to64();
    lemma_ratio_constants();
    lemma_pow2_le(p, 4);
    lemma_pow2_le(q, 4);
    let one = Single::one();
    let damp = one.minus(n.friction.times(step.dt)).max(Single::zero());
    assert(k * 1 == k);
    lemma_ratio_times(n.friction, k, q, one, 1, 0);
    lemma_finer(one, 1, 0, q);
    lemma_ratio_minus(one, pow2(q) as int, n.friction.times(one), k, q);
    lemma_finer(Single::zero(), 0, 0, q);
    lemma_ratio_order(one.minus(n.friction.times(one)), pow2(q) - k, Single::zero(), 0, q);
    assert(is_ratio(damp, pow2(q) - k, q));
    lemma_whole_coordinate(
        x,
        step.anchor.x,
        state.root_offset.x,
        state.bob.x,
        state.vel.x,
        input.down.x,
        input.force_x,
        n.spring,
        a,
        p,
        n.gravity,
        g,
        damp,
        k,
        q,
    );
    lemma_whole_coordinate(
        y,
        step.anchor.y,
        state.root_offset.y,
        state.bob.y,
        state.vel.y,
        input.down.y,
        input.force_y,
        n.spring,
        a,
        p,
        n.gravity,
        g,
        damp,
        k,
        q,
    );
    lemma_whole_depth(
        z,
        step.anchor.z,
        state.root_offset.z,
        state.bob.z,
        state.vel.z,
        n.spring,
        a,
        p,
        damp,
        k,
        q,
    );
}

} // verus!
