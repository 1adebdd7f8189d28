//! Cubic Bezier patches that deform sprites.

use crate::curve::{lerp, unit_clamp};
use crate::single::Single;
use crate::value::{field_of, PsbValue};
use vstd::prelude::*;

verus! {

/// A point in the plane.
#[derive(Clone, Copy, Debug, PartialEq, Eq, Structural)]
pub struct Point {
    pub x: Single,
    pub y: Single,
}

/// A rectangle that a patch is laid out over.
#[derive(Clone, Copy, Debug, PartialEq, Eq, Structural)]
pub struct PatchDomain {
    pub x: Single,
    pub y: Single,
    pub width: Single,
    pub height: Single,
}

/// A patch of sixteen control points, row by row, in normalized local sprite
/// space. The identity patch has the point `(col / 3, row / 3)` at each place.
#[derive(Clone, Debug)]
pub struct EmoteMeshPatch {
    pub division_x: u32,
    pub division_y: u32,
    pub domain: Option<PatchDomain>,
    pub control_points: Vec<Point>,
}

/// An `EmoteMeshPatch` by its points.
#[verifier::ext_equal]
pub struct Patch {
    pub division_x: u32,
    pub division_y: u32,
    pub domain: Option<PatchDomain>,
    pub points: Seq<Point>,
}

impl View for EmoteMeshPatch {
    type V = Patch;

    open spec fn view(&self) -> Patch {
        Patch {
            division_x: self.division_x,
            division_y: self.division_y,
            domain: self.domain,
            points: self.control_points@,
        }
    }
}

/// `n / 3`.
pub open spec fn spec_third(n: i64) -> Single {
    Single::spec_from_i64(n).over(Single::three())
}

#[verifier::when_used_as_spec(spec_third)]
fn third(n: i64) -> (r: Single)
    ensures
        r == spec_third(n),
{
    Single::from_i64(n).over(Single::three())
}

/// The point of the identity patch at a place.
pub open spec fn identity_point(i: int) -> Point {
    Point { x: spec_third((i % 4) as i64), y: spec_third((i / 4) as i64) }
}

pub open spec fn spec_at_least_one(n: u32) -> u32 {
    if n < 1 {
        1
    } else {
        n
    }
}

#[verifier::when_used_as_spec(spec_at_least_one)]
fn at_least_one(n: u32) -> (r: u32)
    ensures
        r == spec_at_least_one(n),
{
    if n < 1 {
        1
    } else {
        n
    }
}

pub open spec fn spec_larger(a: u32, b: u32) -> u32 {
    if a < b {
        b
    } else {
        a
    }
}

#[verifier::when_used_as_spec(spec_larger)]
pub fn larger(a: u32, b: u32) -> (r: u32)
    ensures
        r == spec_larger(a, b),
{
    if a < b {
        b
    } else {
        a
    }
}

/// The Bernstein weights of a cubic at `t`.
pub open spec fn cubic_weight(t: Single, i: int) -> Single {
    let s = Single::one().minus(t);
    if i == 0 {
        s.times(s).times(s)
    } else if i == 1 {
        Single::three().times(s).times(s).times(t)
    } else if i == 2 {
        Single::three().times(s).times(t).times(t)
    } else {
        t.times(t).times(t)
    }
}

fn weight(t: Single, i: usize) -> (r: Single)
    ensures
        r == cubic_weight(t, i as int),
{
    let s = Single::one().minus(t);
    if i == 0 {
        s.times(s).times(s)
    } else if i == 1 {
        Single::three().times(s).times(s).times(t)
    } else if i == 2 {
        Single::three().times(s).times(t).times(t)
    } else {
        t.times(t).times(t)
    }
}

/// The weighted sum of the first `n` points.
pub open spec fn weighted_sum(points: Seq<Point>, u: Single, v: Single, n: int) -> Point
    decreases n,
{
    if n <= 0 {
        Point { x: Single::zero(), y: Single::zero() }
    } else {
        let before = weighted_sum(points, u, v, n - 1);
        let w = cubic_weight(v, (n - 1) / 4).times(cubic_weight(u, (n - 1) % 4));
        Point {
            x: before.x.plus(points[n - 1].x.times(w)),
            y: before.y.plus(points[n - 1].y.times(w)),
        }
    }
}

/// The smallest and largest coordinates of the first `n` points.
pub open spec fn point_bounds(points: Seq<Point>, n: int) -> (Point, Point)
    decreases n,
{
    if n <= 1 {
        (points[0], points[0])
    } else {
        let (low, high) = point_bounds(points, n - 1);
        let p = points[n - 1];
        (
            Point { x: low.x.min(p.x), y: low.y.min(p.y) },
            Point { x: high.x.max(p.x), y: high.y.max(p.y) },
        )
    }
}

impl Patch {
    /// All sixteen points are there.
    pub open spec fn wf(self) -> bool {
        self.points.len() == 16
    }

    pub open spec fn identity(division_x: u32, division_y: u32) -> Patch {
        Patch {
            division_x: spec_at_least_one(division_x),
            division_y: spec_at_least_one(division_y),
            domain: None,
            points: Seq::new(16, |i: int| identity_point(i)),
        }
    }

    /// The point of the surface at `(u, v)`, both held in `[0, 1]`.
    pub open spec fn sample(self, u: Single, v: Single) -> Point {
        weighted_sum(self.points, unit_clamp(u), unit_clamp(v), 16)
    }

    /// This patch followed by the next one.
    pub open spec fn combined_with(self, next: Patch) -> Patch {
        Patch {
            division_x: spec_at_least_one(larger(self.division_x, next.division_x)),
            division_y: spec_at_least_one(larger(self.division_y, next.division_y)),
            domain: if self.domain is Some {
                self.domain
            } else {
                next.domain
            },
            points: Seq::new(16, |i: int| next.sample(self.points[i].x, self.points[i].y)),
        }
    }

    pub open spec fn interpolate(a: Patch, b: Patch, t: Single) -> Patch {
        let t = unit_clamp(t);
        Patch {
            division_x: spec_at_least_one(larger(a.division_x, b.division_x)),
            division_y: spec_at_least_one(larger(a.division_y, b.division_y)),
            domain: match (a.domain, b.domain) {
                (Some(p), Some(q)) => Some(
                    PatchDomain {
                        x: lerp(p.x, q.x, t),
                        y: lerp(p.y, q.y, t),
                        width: lerp(p.width, q.width, t),
                        height: lerp(p.height, q.height, t),
                    },
                ),
                (Some(p), None) => Some(p),
                (None, q) => q,
            },
            points: Seq::new(
                16,
                |i: int|
                    Point {
                        x: lerp(a.points[i].x, b.points[i].x, t),
                        y: lerp(a.points[i].y, b.points[i].y, t),
                    },
            ),
        }
    }

    /// The patch with the given domain, where it has none of its own.
    pub open spec fn with_domain(self, domain: Option<PatchDomain>) -> Patch {
        Patch {
            domain: if self.domain is None {
                domain
            } else {
                self.domain
            },
            ..self
        }
    }
}

impl EmoteMeshPatch {
    pub fn identity(division_x: u32, division_y: u32) -> (r: EmoteMeshPatch)
        ensures
            r@ == Patch::identity(division_x, division_y),
            r@.wf(),
    {
        let mut points: Vec<Point> = Vec::new();
        let mut i: usize = 0;
        while i < 16
            invariant
                i <= 16,
                points@.len() == i,
                forall|j: int| 0 <= j < i ==> points@[j] == identity_point(j),
            decreases 16 - i,
        {
            points.push(Point { x: third((i % 4) as i64), y: third((i / 4) as i64) });
            i = i + 1;
        }
        let r = EmoteMeshPatch {
            division_x: at_least_one(division_x),
            division_y: at_least_one(division_y),
            domain: None,
            control_points: points,
        };
        assert(r@.points =~= Patch::identity(division_x, division_y).points);
        r
    }

    pub fn duplicate(&self) -> (r: EmoteMeshPatch)
        ensures
            r@ == self@,
    {
        let mut points: Vec<Point> = Vec::new();
        let mut i: usize = 0;
        while i < self.control_points.len()
            invariant
                i <= self.control_points@.len(),
                points@ == self.control_points@.take(i as int),
            decreases self.control_points@.len() - i,
        {
            points.push(self.control_points[i]);
            assert(points@ =~= self.control_points@.take(i + 1));
            i = i + 1;
        }
        assert(points@ =~= self.control_points@);
        EmoteMeshPatch {
            division_x: self.division_x,
            division_y: self.division_y,
            domain: self.domain,
            control_points: points,
        }
    }

    pub fn sample(&self, u: Single, v: Single) -> (r: Point)
        requires
            self@.wf(),
        ensures
            r == self@.sample(u, v),
    {
        let u = unit_clamp(u);
        let v = unit_clamp(v);
        let mut x = Single::zero();
        let mut y = Single::zero();
        let mut i: usize = 0;
        while i < 16
            invariant
                i <= 16,
                self@.wf(),
                (Point { x, y }) == weighted_sum(self.control_points@, u, v, i as int),
            decreases 16 - i,
        {
            let w = weight(v, i / 4).times(weight(u, i % 4));
            let p = self.control_points[i];
            x = x.plus(p.x.times(w));
            y = y.plus(p.y.times(w));
            i = i + 1;
        }
        Point { x, y }
    }

    pub fn combined_with(&self, next: &EmoteMeshPatch) -> (r: EmoteMeshPatch)
        requires
            self@.wf(),
            next@.wf(),
        ensures
            r@ == self@.combined_with(next@),
            r@.wf(),
    {
        let mut points: Vec<Point> = Vec::new();
        let mut i: usize = 0;
        while i < 16
            invariant
                i <= 16,
                self@.wf(),
                next@.wf(),
                points@.len() == i,
                forall|j: int|
                    0 <= j < i ==> points@[j] == next@.sample(
                        self@.points[j].x,
                        self@.points[j].y,
                    ),
            decreases 16 - i,
        {
            let p = self.control_points[i];
            points.push(next.sample(p.x, p.y));
            i = i + 1;
        }
        let r = EmoteMeshPatch {
            division_x: at_least_one(larger(self.division_x, next.division_x)),
            division_y: at_least_one(larger(self.division_y, next.division_y)),
            domain: match self.domain {
                Some(d) => Some(d),
                None => next.domain,
            },
            control_points: points,
        };
        assert(r@.points =~= self@.combined_with(next@).points);
        r
    }

    pub fn interpolate(a: &EmoteMeshPatch, b: &EmoteMeshPatch, t: Single) -> (r: EmoteMeshPatch)
        requires
            a@.wf(),
            b@.wf(),
        ensures
            r@ == Patch::interpolate(a@, b@, t),
            r@.wf(),
    {
        let ghost raw = t;
        let t = unit_clamp(t);
        let mut points: Vec<Point> = Vec::new();
        let mut i: usize = 0;
        while i < 16
            invariant
                i <= 16,
                a@.wf(),
                b@.wf(),
                points@.len() == i,
                forall|j: int|
                    #![trigger points@[j]]
                    0 <= j < i ==> points@[j] == (Point {
                        x: lerp(a@.points[j].x, b@.points[j].x, t),
                        y: lerp(a@.points[j].y, b@.points[j].y, t),
                    }),
            decreases 16 - i,
        {
            let p = a.control_points[i];
            let q = b.control_points[i];
            points.push(Point { x: lerp(p.x, q.x, t), y: lerp(p.y, q.y, t) });
            i = i + 1;
        }
        let domain = match (a.domain, b.domain) {
            (Some(p), Some(q)) => Some(
                PatchDomain {
                    x: lerp(p.x, q.x, t),
                    y: lerp(p.y, q.y, t),
                    width: lerp(p.width, q.width, t),
                    height: lerp(p.height, q.height, t),
                },
            ),
            (Some(p), None) => Some(p),
            (None, q) => q,
        };
        let r = EmoteMeshPatch {
            division_x: at_least_one(larger(a.division_x, b.division_x)),
            division_y: at_least_one(larger(a.division_y, b.division_y)),
            domain,
            control_points: points,
        };
        assert(r@.points =~= Patch::interpolate(a@, b@, raw).points);
        r
    }

    /// The smallest and the largest coordinates of the control points.
    pub fn control_bounds(&self) -> (r: (Single, Single, Single, Single))
        requires
            self@.wf(),
        ensures
            ({
                let (low, high) = point_bounds(self@.points, 16);
                r == (low.x, low.y, high.x, high.y)
            }),
    {
        let first = self.control_points[0];
        let mut low_x = first.x;
        let mut low_y = first.y;
        let mut high_x = first.x;
        let mut high_y = first.y;
        let mut i: usize = 1;
        while i < 16
            invariant
                1 <= i <= 16,
                self@.wf(),
                point_bounds(self@.points, i as int) == (
                    (Point { x: low_x, y: low_y }),
                    (Point { x: high_x, y: high_y }),
                ),
            decreases 16 - i,
        {
            let p = self.control_points[i];
            low_x = low_x.min(p.x);
            low_y = low_y.min(p.y);
            high_x = high_x.max(p.x);
            high_y = high_y.max(p.y);
            i = i + 1;
        }
        (low_x, low_y, high_x, high_y)
    }

    pub fn with_domain(self, domain: Option<PatchDomain>) -> (r: EmoteMeshPatch)
        ensures
            r@ == self@.with_domain(domain),
    {
        let domain = match self.domain {
            Some(d) => Some(d),
            None => domain,
        };
        EmoteMeshPatch {
            division_x: self.division_x,
            division_y: self.division_y,
            domain,
            control_points: self.control_points,
        }
    }
}

/// A patch put behind an optional first one.
pub open spec fn combined(base: Option<Patch>, patch: Patch) -> Option<Patch> {
    match base {
        Some(first) => Some(first.combined_with(patch)),
        None => Some(patch),
    }
}

/// The points of an optional patch.
pub open spec fn opt_patch(p: Option<EmoteMeshPatch>) -> Option<Patch> {
    match p {
        Some(v) => Some(v@),
        None => None,
    }
}

/// Whether an optional patch has all its points.
pub open spec fn opt_patch_wf(p: Option<Patch>) -> bool {
    p is Some ==> p->0.wf()
}

pub fn combine_patch(base: &Option<EmoteMeshPatch>, patch: &EmoteMeshPatch) -> (r: Option<
    EmoteMeshPatch,
>)
    requires
        opt_patch_wf(opt_patch(*base)),
        patch@.wf(),
    ensures
        opt_patch(r) == combined(opt_patch(*base), patch@),
        opt_patch_wf(opt_patch(r)),
{
    match base {
        Some(first) => Some(first.combined_with(patch)),
        None => Some(patch.duplicate()),
    }
}

pub fn copy_patch(p: &Option<EmoteMeshPatch>) -> (r: Option<EmoteMeshPatch>)
    ensures
        opt_patch(r) == opt_patch(*p),
{
    match p {
        Some(v) => Some(v.duplicate()),
        None => None,
    }
}

/// The patch with the given coordinates in place of the identity's, as far as
/// they are numbers.
pub open spec fn patch_from_items(items: Seq<PsbValue>, division_x: u32, division_y: u32) -> Patch {
    Patch {
        points: Seq::new(
            16,
            |i: int|
                Point {
                    x: items[2 * i].as_single().unwrap_or(identity_point(i).x),
                    y: items[2 * i + 1].as_single().unwrap_or(identity_point(i).y),
                },
        ),
        ..Patch::identity(division_x, division_y)
    }
}

/// The patch that a value describes: null is the identity, a list of at least
/// thirty-two items holds coordinates.
pub open spec fn bezier_patch(bp: PsbValue, division_x: u32, division_y: u32) -> Option<Patch> {
    match bp {
        PsbValue::Null => Some(Patch::identity(division_x, division_y)),
        PsbValue::List(items) => if items@.len() >= 32 {
            Some(patch_from_items(items@, division_x, division_y))
        } else {
            None
        },
        _ => None,
    }
}

pub fn parse_bezier_patch(bp: &PsbValue, division_x: u32, division_y: u32) -> (r: Option<
    EmoteMeshPatch,
>)
    ensures
        opt_patch(r) == bezier_patch(*bp, division_x, division_y),
        opt_patch_wf(opt_patch(r)),
{
    match bp {
        PsbValue::Null => Some(EmoteMeshPatch::identity(division_x, division_y)),
        PsbValue::List(items) => {
            if items.len() < 32 {
                return None;
            }
            let identity = EmoteMeshPatch::identity(division_x, division_y);
            let mut points: Vec<Point> = Vec::new();
            let mut i: usize = 0;
            while i < 16
                invariant
                    i <= 16,
                    items@.len() >= 32,
                    identity@ == Patch::identity(division_x, division_y),
                    points@.len() == i,
                    forall|j: int|
                        #![trigger points@[j]]
                        0 <= j < i ==> points@[j] == (Point {
                            x: items@[2 * j].as_single().unwrap_or(identity_point(j).x),
                            y: items@[2 * j + 1].as_single().unwrap_or(identity_point(j).y),
                        }),
                decreases 16 - i,
            {
                let p = identity.control_points[i];
                assert(p == identity_point(i as int));
                points.push(
                    Point {
                        x: items[2 * i].as_single().unwrap_or(p.x),
                        y: items[2 * i + 1].as_single().unwrap_or(p.y),
                    },
                );
                i = i + 1;
            }
            let r = EmoteMeshPatch {
                division_x: identity.division_x,
                division_y: identity.division_y,
                domain: None,
                control_points: points,
            };
            assert(r@.points =~= patch_from_items(items@, division_x, division_y).points);
            Some(r)
        },
        _ => None,
    }
}

/// The patch of a frame's content: its mesh dictionary first, then its flat form.
pub open spec fn content_patch(content: PsbValue, division_x: u32, division_y: u32) -> Option<
    Patch,
> {
    let from_mesh = match field_of(content.field("mesh"), "bp") {
        Some(bp) => bezier_patch(*bp, division_x, division_y),
        None => None,
    };
    if from_mesh is Some {
        from_mesh
    } else {
        match content.field("mbp") {
            Some(bp) => bezier_patch(*bp, division_x, division_y),
            None => None,
        }
    }
}

pub fn parse_content_mesh_patch(content: &PsbValue, division_x: u32, division_y: u32) -> (r: Option<
    EmoteMeshPatch,
>)
    ensures
        opt_patch(r) == content_patch(*content, division_x, division_y),
        opt_patch_wf(opt_patch(r)),
{
    if let Some(bp) = field_of(content.field("mesh"), "bp") {
        if let Some(patch) = parse_bezier_patch(bp, division_x, division_y) {
            return Some(patch);
        }
    }
    match content.field("mbp") {
        Some(bp) => parse_bezier_patch(bp, division_x, division_y),
        None => None,
    }
}

} // verus!
