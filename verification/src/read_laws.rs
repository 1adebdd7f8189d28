//! What holds of reading a document: every number is taken from the field that names it.

use crate::dyadic::{is_ratio, lemma_ratio_constants, lemma_ratio_plus};
use crate::frames::{spec_content_coord, Coord};
use crate::physics::{new_bust, new_pendulum, physics_pair};
use crate::refs::shared;
use crate::schema::icon_of;
use crate::single::Single;
use crate::timelines::timeline_frame;
use crate::value::PsbValue;
use vstd::prelude::*;

verus! {

/// Whether the field of a name holds a number.
pub open spec fn holds(value: PsbValue, name: Seq<char>, x: Single) -> bool {
    value.named(name) matches Some(v) && v.as_single() == Some(x)
}

/// An icon has its sides, its origin and its resolution from the fields of those names.
pub proof fn lemma_icon_reads_its_fields(
    source: Seq<char>,
    name: Seq<char>,
    value: PsbValue,
    left: Single,
    top: Single,
    width: Single,
    height: Single,
    origin: (Single, Single),
    resolution: Single,
)
    requires
        holds(value, "left"@, left),
        holds(value, "top"@, top),
        holds(value, "width"@, width),
        holds(value, "height"@, height),
    ensures
        ({
            let r = icon_of(source, name, value);
            let icon = r->0;
            &&& r is Some
            &&& icon.left == left && icon.top == top
            &&& icon.width == width && icon.height == height
            &&& icon.name == name && icon.texture_name == source
            &&& holds(value, "originX"@, origin.0) ==> icon.origin_x == origin.0
            &&& holds(value, "originY"@, origin.1) ==> icon.origin_y == origin.1
            &&& holds(value, "resolution"@, resolution) ==> icon.resolution == resolution
            &&& value.named("originX"@) is None ==> icon.origin_x == Single::zero()
            &&& value.named("originY"@) is None ==> icon.origin_y == Single::zero()
            &&& value.named("resolution"@) is None ==> icon.resolution == Single::one()
        }),
{
}

/// A place has its three coordinates in the order of the list that names it.
pub proof fn lemma_place_is_read_in_order(
    content: PsbValue,
    items: Vec<PsbValue>,
    x: Single,
    y: Single,
    z: Single,
)
    requires
        content.named("coord"@) == Some(&PsbValue::List(items)),
        items@.len() == 3,
        items@[0].as_single() == Some(x),
        items@[1].as_single() == Some(y),
        items@[2].as_single() == Some(z),
    ensures
        spec_content_coord(content) == Some(Coord { x, y, z }),
{
}

/// Whether a field of a value holds a vector.
pub open spec fn holds_vector(value: PsbValue, name: Seq<char>, at: Coord) -> bool {
    value.named(name) matches Some(v) && {
        &&& holds(*v, "x"@, at.x)
        &&& holds(*v, "y"@, at.y)
        &&& holds(*v, "z"@, at.z)
    }
}

/// A spring starts from the place, the speed, the root and the rest that its parameters
/// name, and has not moved yet.
pub proof fn lemma_spring_starts_from_its_parameters(
    fields: Map<Seq<char>, PsbValue>,
    param: PsbValue,
    place: Coord,
    speed: Coord,
    root: Coord,
    rest: Single,
)
    requires
        fields.dom().contains("param"@),
        fields["param"@] == param,
        holds_vector(param, "p"@, place),
        holds_vector(param, "pv"@, speed),
        holds_vector(param, "op"@, root),
        holds(param, "ofs"@, rest),
    ensures
        ({
            let r = new_bust(fields);
            &&& r.bob == place
            &&& r.vel == speed
            &&& r.root_offset == root
            &&& r.ofs == rest
            &&& r.first_tick
        }),
{
}

/// A pendulum starts with both bobs hanging at rest below its root, the lower one below
/// the upper one by the lengths that it names.
pub proof fn lemma_pendulum_starts_at_rest(fields: Map<Seq<char>, PsbValue>, a: int, b: int)
    requires
        is_ratio(physics_pair(fields, "length").0, a, 0),
        is_ratio(physics_pair(fields, "length").1, b, 0),
        -100000 <= a <= 100000,
        -100000 <= b <= 100000,
    ensures
        ({
            let r = new_pendulum(fields);
            &&& is_ratio(r.upper.y, a, 0) && r.upper.x == r.root_offset.x
            &&& is_ratio(r.lower.y, a + b, 0) && r.lower.x == r.root_offset.x
            &&& r.upper_vel == Coord::origin() && r.lower_vel == Coord::origin()
            &&& r.root_offset == Coord::origin()
            &&& r.bend_power == Single::zero() && r.bend_phase == Single::zero()
            &&& r.first_tick
        }),
{
    lemma_ratio_constants();
    let lengths = physics_pair(fields, "length");
    lemma_ratio_plus(Single::zero(), 0, lengths.0, a, 0);
    lemma_ratio_plus(Single::zero().plus(lengths.0), a, lengths.1, b, 0);
}

/// A frame of a track has its time and its easing from the fields of those names, and its
/// value from its content.
pub proof fn lemma_track_frame_reads_its_fields(
    frame: PsbValue,
    content: PsbValue,
    name: Seq<char>,
    aliases: Map<Seq<char>, Map<Seq<char>, Single>>,
    time: Single,
    value: Single,
    easing: Single,
)
    requires
        frame.named("content"@) == Some(&content),
        holds(frame, "time"@, time),
        holds(content, "value"@, value),
        holds(content, "easing"@, easing),
        Single::zero().le(time),
        value.is_finite(),
    ensures
        ({
            let r = timeline_frame(frame, name, aliases);
            &&& r is Some
            &&& r->0.time_ticks.same(time)
            &&& r->0.value == value
            &&& r->0.easing == easing
        }),
{
}

/// What two rows share is the same from the front, and behind it they differ or one ends.
pub proof fn lemma_shared_is_the_common_start(a: Seq<Seq<char>>, b: Seq<Seq<char>>)
    ensures
        ({
            let n = shared(a, b);
            &&& n <= a.len() && n <= b.len()
            &&& forall|i: int| 0 <= i < n ==> a[i] == b[i]
            &&& n < a.len() && n < b.len() ==> a[n as int] != b[n as int]
        }),
    decreases a.len(),
{
    if a.len() > 0 && b.len() > 0 && a[0] == b[0] {
        let c = a.drop_first();
        let d = b.drop_first();
        lemma_shared_is_the_common_start(c, d);
        let n = shared(a, b);
        assert forall|i: int| 0 <= i < n implies a[i] == b[i] by {
            if i > 0 {
                assert(c[i - 1] == d[i - 1]);
            }
        }
        if n < a.len() && n < b.len() {
            assert(c[n - 1] == a[n as int] && d[n - 1] == b[n as int]);
        }
    }
}

} // verus!
