//! Interpolation between two numbers.

use crate::single::Single;
use vstd::prelude::*;

verus! {

/// `a + (b - a) * t`.
pub open spec fn spec_lerp(a: Single, b: Single, t: Single) -> Single {
    a.plus(b.minus(a).times(t))
}

#[verifier::when_used_as_spec(spec_lerp)]
pub fn lerp(a: Single, b: Single, t: Single) -> (r: Single)
    ensures
        r == spec_lerp(a, b, t),
{
    a.plus(b.minus(a).times(t))
}

/// The eased ratio: linear for no easing, smooth at both ends for a positive one,
/// slowing down towards the end for a negative one.
pub open spec fn spec_eased(t: Single, easing: Single) -> Single {
    if !easing.is_finite() || easing.same(Single::zero()) {
        t
    } else if Single::zero().lt(easing) {
        t.times(t).times(Single::three().minus(Single::two().times(t)))
    } else {
        Single::one().minus(Single::one().minus(t).times(Single::one().minus(t)))
    }
}

#[verifier::when_used_as_spec(spec_eased)]
pub fn eased(t: Single, easing: Single) -> (r: Single)
    ensures
        r == spec_eased(t, easing),
{
    if !easing.is_finite() || easing.same(Single::zero()) {
        t
    } else if Single::zero().lt(easing) {
        t.times(t).times(Single::three().minus(Single::two().times(t)))
    } else {
        Single::one().minus(Single::one().minus(t).times(Single::one().minus(t)))
    }
}

/// The number held in `[0, 1]`.
pub open spec fn spec_unit_clamp(t: Single) -> Single {
    t.clamp(Single::zero(), Single::one())
}

#[verifier::when_used_as_spec(spec_unit_clamp)]
pub fn unit_clamp(t: Single) -> (r: Single)
    ensures
        r == spec_unit_clamp(t),
{
    t.clamp(Single::zero(), Single::one())
}

} // verus!
