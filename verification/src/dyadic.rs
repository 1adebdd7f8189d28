//! Laws of binary32 arithmetic: whole numbers over a power of two are added and
//! multiplied exactly, as long as their digits fit.

use crate::exact::{lemma_one, lemma_order_is_by_value, lemma_representable};
use crate::monotone::{
    lemma_minus_rank, lemma_nearest_scale, lemma_over_rank, lemma_plus_rank, lemma_times_rank,
    nearest,
};
use crate::rounding::{lemma_round_zero, round_units};
use crate::single::{magnitude_units, Single};
use vstd::arithmetic::power2::{lemma2_to64, lemma_pow2_adds, lemma_pow2_pos, pow2};
use vstd::prelude::*;

verus! {

/// Whether a number is `n` over two to the power `s`.
pub open spec fn is_ratio(x: Single, n: int, s: nat) -> bool {
    s <= 149 && x.is_finite() && x.value() == n * pow2((149 - s) as nat)
}

/// Whether a whole number has few enough digits to be held.
pub open spec fn fits(n: int) -> bool {
    -0x100_0000 <= n <= 0x100_0000
}

/// What is nearest to a count with few digits is the count.
pub proof fn lemma_held(x: Single, c: int, t: nat)
    requires
        !x.is_nan(),
        x.rank() == nearest(c * pow2(t), 1),
        fits(c),
        t <= 149,
    ensures
        x.is_finite(),
        x.value() == c * pow2(t),
{
    lemma2_to64();
    lemma_pow2_pos(t);
    let w = pow2(t);
    let m: nat = if c < 0 {
        (-c) as nat
    } else {
        c as nat
    };
    assert((c >= 0 ==> c * w == m * w) && (c < 0 ==> c * w == -(m * w) && m * w > 0))
        by (nonlinear_arith)
        requires
            c >= 0 ==> m == c,
            c < 0 ==> m == -c,
            w > 0,
    ;
    assert(m * w >= 0) by (nonlinear_arith)
        requires
            m >= 0,
            w > 0,
    ;
    if m == 0x100_0000 {
        lemma_pow2_adds(1, t);
        assert(m * w == 0x80_0000 * pow2(t + 1)) by (nonlinear_arith)
            requires
                m == 0x100_0000,
                pow2(t + 1) == 2 * w,
        ;
        lemma_representable(0x80_0000, t + 1);
    } else {
        lemma_representable(m, t);
    }
    assert(magnitude_units(0) == 0);
    let mag = round_units(m * w, 1);
    if m == 0 {
        assert(m * w == 0) by (nonlinear_arith)
            requires
                m == 0,
        ;
        lemma_round_zero(1);
    }
}

/// A ratio in smaller parts.
pub proof fn lemma_finer(x: Single, n: int, s: nat, j: nat)
    requires
        is_ratio(x, n, s),
        s + j <= 149,
    ensures
        is_ratio(x, n * pow2(j), s + j),
{
    lemma_pow2_adds(j, (149 - s - j) as nat);
    let a = pow2(j);
    let b = pow2((149 - s - j) as nat);
    assert(n * (a * b) == (n * a) * b) by (nonlinear_arith);
}

/// Ratios of one size are added exactly.
pub proof fn lemma_ratio_plus(a: Single, n: int, b: Single, m: int, s: nat)
    requires
        is_ratio(a, n, s),
        is_ratio(b, m, s),
        fits(n + m),
    ensures
        is_ratio(a.plus(b), n + m, s),
{
    let w = pow2((149 - s) as nat);
    assert(n * w + m * w == (n + m) * w) by (nonlinear_arith);
    lemma_plus_rank(a, b);
    lemma_held(a.plus(b), n + m, (149 - s) as nat);
}

/// Ratios of one size are subtracted exactly.
pub proof fn lemma_ratio_minus(a: Single, n: int, b: Single, m: int, s: nat)
    requires
        is_ratio(a, n, s),
        is_ratio(b, m, s),
        fits(n - m),
    ensures
        is_ratio(a.minus(b), n - m, s),
{
    let w = pow2((149 - s) as nat);
    assert(n * w - m * w == (n - m) * w) by (nonlinear_arith);
    lemma_minus_rank(a, b);
    lemma_held(a.minus(b), n - m, (149 - s) as nat);
}

/// Ratios are multiplied exactly.
pub proof fn lemma_ratio_times(a: Single, n: int, s: nat, b: Single, m: int, r: nat)
    requires
        is_ratio(a, n, s),
        is_ratio(b, m, r),
        s + r <= 149,
        fits(n * m),
    ensures
        is_ratio(a.times(b), n * m, s + r),
{
    let x = pow2((149 - s) as nat);
    let y = pow2((149 - r) as nat);
    let z = pow2((149 - s - r) as nat);
    let w = pow2(149);
    lemma_pow2_pos(149);
    lemma_pow2_adds((149 - s) as nat, (149 - r) as nat);
    lemma_pow2_adds((149 - s - r) as nat, 149);
    assert((n * x) * (m * y) == ((n * m) * z) * w) by (nonlinear_arith)
        requires
            x * y == z * w,
    ;
    lemma_times_rank(a, b);
    lemma_nearest_scale((n * m) * z, 1, w);
    lemma_held(a.times(b), n * m, (149 - s - r) as nat);
}

/// The other sign.
pub proof fn lemma_ratio_neg(a: Single, n: int, s: nat)
    requires
        is_ratio(a, n, s),
    ensures
        is_ratio(a.neg(), -n, s),
{
    assert(a.neg().magnitude() == a.magnitude());
    assert(magnitude_units(0) == 0);
    let w = pow2((149 - s) as nat);
    assert((-n) * w == -(n * w)) by (nonlinear_arith);
}

/// Ratios of one size are ordered as their counts, and a number is only one of them.
pub proof fn lemma_ratio_order(a: Single, n: int, b: Single, m: int, s: nat)
    requires
        is_ratio(a, n, s),
        is_ratio(b, m, s),
    ensures
        a.lt(b) <==> n < m,
        a.le(b) <==> n <= m,
        a.same(b) <==> n == m,
{
    lemma_order_is_by_value(a, b);
    let w = pow2((149 - s) as nat);
    lemma_pow2_pos((149 - s) as nat);
    assert(((n < m) <==> (n * w < m * w)) && ((n == m) <==> (n * w == m * w))) by (nonlinear_arith)
        requires
            w > 0,
    ;
}

/// Zero, one, a half, two, three and ten.
pub proof fn lemma_ratio_constants()
    ensures
        is_ratio(Single::zero(), 0, 0),
        is_ratio(Single::one(), 1, 0),
        is_ratio(Single::half(), 1, 1),
        is_ratio(Single::two(), 2, 0),
        is_ratio(Single::three(), 3, 0),
        is_ratio(Single::ten(), 10, 0),
{
    lemma2_to64();
    assert(magnitude_units(0) == 0);
    lemma_one();
    lemma_pow2_adds(23, 125);
    lemma_pow2_adds(23, 126);
    lemma_pow2_adds(22, 127);
    lemma_pow2_adds(20, 129);
    assert(magnitude_units(0x3f00_0000) == 0x80_0000 * pow2(125)) by {
        assert(0x3f00_0000nat / 0x80_0000 == 126);
        assert(0x3f00_0000nat % 0x80_0000 == 0);
    }
    assert(magnitude_units(0x4000_0000) == 0x80_0000 * pow2(127)) by {
        assert(0x4000_0000nat / 0x80_0000 == 128);
        assert(0x4000_0000nat % 0x80_0000 == 0);
    }
    assert(magnitude_units(0x4040_0000) == 0xc0_0000 * pow2(127)) by {
        assert(0x4040_0000nat / 0x80_0000 == 128);
        assert(0x4040_0000nat % 0x80_0000 == 0x40_0000);
    }
    assert(magnitude_units(0x4120_0000) == 0xa0_0000 * pow2(129)) by {
        assert(0x4120_0000nat / 0x80_0000 == 130);
        assert(0x4120_0000nat % 0x80_0000 == 0x20_0000);
    }
    assert(pow2(149) == 0x40_0000 * pow2(127));
    assert(pow2(149) == 0x10_0000 * pow2(129));
}

/// Ratios of one size are divided exactly by a power of two.
pub proof fn lemma_ratio_over(a: Single, n: int, b: Single, r: nat, s: nat)
    requires
        is_ratio(a, n, s),
        is_ratio(b, pow2(r) as int, s),
        r <= 149,
        fits(n),
    ensures
        is_ratio(a.over(b), n, r),
{
    let w = pow2((149 - s) as nat);
    let p = pow2(r);
    let q = pow2((149 - r) as nat);
    let all = pow2(149);
    lemma_pow2_pos((149 - s) as nat);
    lemma_pow2_pos(r);
    lemma_pow2_adds(r, (149 - r) as nat);
    assert(p * w > 0) by (nonlinear_arith)
        requires
            p > 0,
            w > 0,
    ;
    lemma_over_rank(a, b);
    assert((n * w) * all == (n * q) * (p * w)) by (nonlinear_arith)
        requires
            all == p * q,
    ;
    lemma_nearest_scale(n * q, 1, p * w);
    lemma_held(a.over(b), n, (149 - r) as nat);
}

} // verus!
