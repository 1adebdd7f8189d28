//! Plane transforms and the space that a scene takes.
//!
//! Sines and cosines are handed in: a `Turn` holds both for one angle.

use crate::mesh::{point_bounds, Point};
use crate::scene::{EmoteStaticSprite, Sprite, TransformStep};
use crate::single::Single;
use crate::travel::sprites_view;
use vstd::prelude::*;

verus! {

/// The cosine and the sine of an angle.
#[derive(Clone, Copy, Debug, PartialEq, Eq, Structural)]
pub struct Turn {
    pub cos: Single,
    pub sin: Single,
}

/// An affine map of the plane.
#[derive(Clone, Copy, Debug, PartialEq, Eq, Structural)]
pub struct EmoteTransform2D {
    pub m11: Single,
    pub m12: Single,
    pub m21: Single,
    pub m22: Single,
    pub tx: Single,
    pub ty: Single,
}

/// The angle in radians: the degrees times the binary32 number nearest to a
/// hundred and eightieth of pi.
pub open spec fn spec_radians(degrees: Single) -> Single {
    degrees.times(Single { bits: 0x3c8e_fa35 })
}

#[verifier::when_used_as_spec(spec_radians)]
pub fn radians(degrees: Single) -> (r: Single)
    ensures
        r == spec_radians(degrees),
{
    degrees.times(Single { bits: 0x3c8e_fa35 })
}

impl EmoteTransform2D {
    #[verifier::allow_in_spec]
    pub fn identity() -> (r: EmoteTransform2D)
        returns
            (EmoteTransform2D {
                m11: Single::one(),
                m12: Single::zero(),
                m21: Single::zero(),
                m22: Single::one(),
                tx: Single::zero(),
                ty: Single::zero(),
            }),
    {
        EmoteTransform2D {
            m11: Single::one(),
            m12: Single::zero(),
            m21: Single::zero(),
            m22: Single::one(),
            tx: Single::zero(),
            ty: Single::zero(),
        }
    }

    pub open spec fn spec_translation(x: Single, y: Single) -> EmoteTransform2D {
        EmoteTransform2D { tx: x, ty: y, ..EmoteTransform2D::identity() }
    }

    #[verifier::when_used_as_spec(spec_translation)]
    pub fn translation(x: Single, y: Single) -> (r: EmoteTransform2D)
        ensures
            r == EmoteTransform2D::spec_translation(x, y),
    {
        EmoteTransform2D { tx: x, ty: y, ..EmoteTransform2D::identity() }
    }

    /// A scaling followed by a rotation; a factor that is not finite counts as one.
    pub open spec fn spec_scale_rotation(
        scale_x: Single,
        scale_y: Single,
        turn: Turn,
    ) -> EmoteTransform2D {
        let sx = scale_x.finite_or(Single::one());
        let sy = scale_y.finite_or(Single::one());
        EmoteTransform2D {
            m11: turn.cos.times(sx),
            m12: turn.sin.neg().times(sy),
            m21: turn.sin.times(sx),
            m22: turn.cos.times(sy),
            tx: Single::zero(),
            ty: Single::zero(),
        }
    }

    #[verifier::when_used_as_spec(spec_scale_rotation)]
    pub fn scale_rotation(scale_x: Single, scale_y: Single, turn: Turn) -> (r: EmoteTransform2D)
        ensures
            r == EmoteTransform2D::spec_scale_rotation(scale_x, scale_y, turn),
    {
        let sx = scale_x.finite_or(Single::one());
        let sy = scale_y.finite_or(Single::one());
        EmoteTransform2D {
            m11: turn.cos.times(sx),
            m12: turn.sin.neg().times(sy),
            m21: turn.sin.times(sx),
            m22: turn.cos.times(sy),
            tx: Single::zero(),
            ty: Single::zero(),
        }
    }

    /// The product of this matrix with the next one: the next map is applied first.
    #[verifier::opaque]
    pub open spec fn spec_around(self, rhs: EmoteTransform2D) -> EmoteTransform2D {
        EmoteTransform2D {
            m11: self.m11.times(rhs.m11).plus(self.m12.times(rhs.m21)),
            m12: self.m11.times(rhs.m12).plus(self.m12.times(rhs.m22)),
            m21: self.m21.times(rhs.m11).plus(self.m22.times(rhs.m21)),
            m22: self.m21.times(rhs.m12).plus(self.m22.times(rhs.m22)),
            tx: self.m11.times(rhs.tx).plus(self.m12.times(rhs.ty)).plus(self.tx),
            ty: self.m21.times(rhs.tx).plus(self.m22.times(rhs.ty)).plus(self.ty),
        }
    }

    #[verifier::when_used_as_spec(spec_around)]
    pub fn around(self, rhs: EmoteTransform2D) -> (r: EmoteTransform2D)
        ensures
            r == self.spec_around(rhs),
    {
        proof {
            reveal(EmoteTransform2D::spec_around);
        }
        EmoteTransform2D {
            m11: self.m11.times(rhs.m11).plus(self.m12.times(rhs.m21)),
            m12: self.m11.times(rhs.m12).plus(self.m12.times(rhs.m22)),
            m21: self.m21.times(rhs.m11).plus(self.m22.times(rhs.m21)),
            m22: self.m21.times(rhs.m12).plus(self.m22.times(rhs.m22)),
            tx: self.m11.times(rhs.tx).plus(self.m12.times(rhs.ty)).plus(self.tx),
            ty: self.m21.times(rhs.tx).plus(self.m22.times(rhs.ty)).plus(self.ty),
        }
    }

    pub open spec fn spec_apply(self, point: Point) -> Point {
        Point {
            x: self.m11.times(point.x).plus(self.m12.times(point.y)).plus(self.tx),
            y: self.m21.times(point.x).plus(self.m22.times(point.y)).plus(self.ty),
        }
    }

    #[verifier::when_used_as_spec(spec_apply)]
    pub fn apply(self, point: Point) -> (r: Point)
        ensures
            r == self.spec_apply(point),
    {
        Point {
            x: self.m11.times(point.x).plus(self.m12.times(point.y)).plus(self.tx),
            y: self.m21.times(point.x).plus(self.m22.times(point.y)).plus(self.ty),
        }
    }
}

impl TransformStep {
    /// The angle whose sine and cosine the step needs.
    pub open spec fn spec_angle(self) -> Single {
        match self {
            TransformStep::Translate { .. } => Single::zero(),
            TransformStep::Layer { rotation_degrees, .. } => radians(
                rotation_degrees.finite_or(Single::zero()),
            ),
        }
    }

    #[verifier::when_used_as_spec(spec_angle)]
    pub fn angle(self) -> (r: Single)
        ensures
            r == self.spec_angle(),
    {
        match self {
            TransformStep::Translate { .. } => Single::zero(),
            TransformStep::Layer { rotation_degrees, .. } => radians(
                rotation_degrees.finite_or(Single::zero()),
            ),
        }
    }

    /// The map of the step, given the turn of its angle.
    #[verifier::opaque]
    pub open spec fn spec_matrix(self, turn: Turn) -> EmoteTransform2D {
        match self {
            TransformStep::Translate { x, y } => EmoteTransform2D::translation(x, y),
            TransformStep::Layer { x, y, scale_x, scale_y, scale_first, .. } => {
                let translate = EmoteTransform2D::translation(x, y);
                let scale_rotate = EmoteTransform2D::scale_rotation(scale_x, scale_y, turn);
                if scale_first {
                    scale_rotate.around(translate)
                } else {
                    translate.around(scale_rotate)
                }
            },
        }
    }

    #[verifier::when_used_as_spec(spec_matrix)]
    pub fn matrix(self, turn: Turn) -> (r: EmoteTransform2D)
        ensures
            r == self.spec_matrix(turn),
    {
        proof {
            reveal(TransformStep::spec_matrix);
        }
        match self {
            TransformStep::Translate { x, y } => EmoteTransform2D::translation(x, y),
            TransformStep::Layer { x, y, scale_x, scale_y, scale_first, .. } => {
                let translate = EmoteTransform2D::translation(x, y);
                let scale_rotate = EmoteTransform2D::scale_rotation(scale_x, scale_y, turn);
                if scale_first {
                    scale_rotate.around(translate)
                } else {
                    translate.around(scale_rotate)
                }
            },
        }
    }
}

/// The angles whose sines and cosines a row of steps needs.
pub fn step_angles(steps: &Vec<TransformStep>) -> (r: Vec<Single>)
    ensures
        r@ == steps@.map_values(|s: TransformStep| s.angle()),
{
    let mut r: Vec<Single> = Vec::new();
    let mut i: usize = 0;
    let ghost want = steps@.map_values(|s: TransformStep| s.angle());
    while i < steps.len()
        invariant
            i <= steps@.len(),
            want == steps@.map_values(|s: TransformStep| s.angle()),
            r@ == want.take(i as int),
        decreases steps@.len() - i,
    {
        r.push(steps[i].angle());
        assert(r@ =~= want.take(i + 1));
        i = i + 1;
    }
    assert(want.take(i as int) =~= want);
    r
}

/// The map of a row of steps from the outermost in, given the turn of each.
pub open spec fn chained(steps: Seq<TransformStep>, turns: Seq<Turn>) -> EmoteTransform2D
    decreases steps.len(),
{
    if steps.len() == 0 {
        EmoteTransform2D::identity()
    } else {
        chained(steps.drop_last(), turns.drop_last()).around(steps.last().matrix(turns.last()))
    }
}

pub fn chain(steps: &Vec<TransformStep>, turns: &Vec<Turn>) -> (r: EmoteTransform2D)
    requires
        turns@.len() == steps@.len(),
    ensures
        r == chained(steps@, turns@),
{
    let mut r = EmoteTransform2D::identity();
    let mut i: usize = 0;
    while i < steps.len()
        invariant
            i <= steps@.len(),
            turns@.len() == steps@.len(),
            r == chained(steps@.take(i as int), turns@.take(i as int)),
        decreases steps@.len() - i,
    {
        assert(steps@.take(i + 1).drop_last() =~= steps@.take(i as int));
        assert(turns@.take(i + 1).drop_last() =~= turns@.take(i as int));
        r = r.around(steps[i].matrix(turns[i]));
        i = i + 1;
    }
    assert(steps@.take(i as int) =~= steps@);
    assert(turns@.take(i as int) =~= turns@);
    r
}

/// A rectangle along the axes.
#[derive(Clone, Copy, Debug, PartialEq, Eq, Structural)]
pub struct EmoteSceneBounds {
    pub min_x: Single,
    pub min_y: Single,
    pub max_x: Single,
    pub max_y: Single,
}

impl EmoteSceneBounds {
    pub open spec fn spec_width(self) -> Single {
        self.max_x.minus(self.min_x)
    }

    #[verifier::when_used_as_spec(spec_width)]
    pub fn width(self) -> (r: Single)
        ensures
            r == self.spec_width(),
    {
        self.max_x.minus(self.min_x)
    }

    pub open spec fn spec_height(self) -> Single {
        self.max_y.minus(self.min_y)
    }

    #[verifier::when_used_as_spec(spec_height)]
    pub fn height(self) -> (r: Single)
        ensures
            r == self.spec_height(),
    {
        self.max_y.minus(self.min_y)
    }

    pub open spec fn spec_center(self) -> Point {
        Point {
            x: self.min_x.plus(self.max_x).times(Single::half()),
            y: self.min_y.plus(self.max_y).times(Single::half()),
        }
    }

    #[verifier::when_used_as_spec(spec_center)]
    pub fn center(self) -> (r: Point)
        ensures
            r == self.spec_center(),
    {
        Point {
            x: self.min_x.plus(self.max_x).times(Single::half()),
            y: self.min_y.plus(self.max_y).times(Single::half()),
        }
    }

    /// Grown to take in another rectangle.
    pub open spec fn spec_with(self, other: EmoteSceneBounds) -> EmoteSceneBounds {
        EmoteSceneBounds {
            min_x: self.min_x.min(other.min_x),
            min_y: self.min_y.min(other.min_y),
            max_x: self.max_x.max(other.max_x),
            max_y: self.max_y.max(other.max_y),
        }
    }

    #[verifier::when_used_as_spec(spec_with)]
    pub fn with(self, other: EmoteSceneBounds) -> (r: EmoteSceneBounds)
        ensures
            r == self.spec_with(other),
    {
        EmoteSceneBounds {
            min_x: self.min_x.min(other.min_x),
            min_y: self.min_y.min(other.min_y),
            max_x: self.max_x.max(other.max_x),
            max_y: self.max_y.max(other.max_y),
        }
    }

    /// The rectangle of one point.
    pub open spec fn spec_at(p: Point) -> EmoteSceneBounds {
        EmoteSceneBounds { min_x: p.x, min_y: p.y, max_x: p.x, max_y: p.y }
    }

    #[verifier::when_used_as_spec(spec_at)]
    pub fn at(p: Point) -> (r: EmoteSceneBounds)
        ensures
            r == EmoteSceneBounds::spec_at(p),
    {
        EmoteSceneBounds { min_x: p.x, min_y: p.y, max_x: p.x, max_y: p.y }
    }
}

/// Where a sprite stands: the turn of its own rotation and its world transform.
#[derive(Clone, Copy, Debug, PartialEq, Eq, Structural)]
pub struct Stand {
    pub turn: Turn,
    pub world: EmoteTransform2D,
}

impl Sprite {
    pub open spec fn left(self) -> Single {
        self.center_x.minus(self.width.times(Single::half()))
    }

    pub open spec fn top(self) -> Single {
        self.center_y.minus(self.height.times(Single::half()))
    }

    pub open spec fn right(self) -> Single {
        self.center_x.plus(self.width.times(Single::half()))
    }

    pub open spec fn bottom(self) -> Single {
        self.center_y.plus(self.height.times(Single::half()))
    }

    /// A point of the sprite in model space: scaled and turned around its center,
    /// then taken through the world transform.
    pub open spec fn point(self, stand: Stand, p: Point) -> Point {
        let dx = p.x.minus(self.center_x).times(self.scale_x.finite_or(Single::one()));
        let dy = p.y.minus(self.center_y).times(self.scale_y.finite_or(Single::one()));
        let turn = stand.turn;
        stand.world.apply(
            Point {
                x: self.center_x.plus(dx.times(turn.cos)).minus(dy.times(turn.sin)),
                y: self.center_y.plus(dx.times(turn.sin)).plus(dy.times(turn.cos)),
            },
        )
    }

    /// The rectangle that the sprite fills before it is transformed: that of its
    /// control points where it has a mesh.
    pub open spec fn flat(self) -> EmoteSceneBounds {
        match self.mesh {
            Some(mesh) => {
                let (low, high) = point_bounds(mesh.points, 16);
                EmoteSceneBounds {
                    min_x: self.left().plus(low.x.times(self.width)),
                    min_y: self.top().plus(low.y.times(self.height)),
                    max_x: self.left().plus(high.x.times(self.width)),
                    max_y: self.top().plus(high.y.times(self.height)),
                }
            },
            None => EmoteSceneBounds {
                min_x: self.left(),
                min_y: self.top(),
                max_x: self.right(),
                max_y: self.bottom(),
            },
        }
    }

    /// The rectangle around the four transformed corners.
    pub open spec fn bounds(self, stand: Stand) -> EmoteSceneBounds {
        let f = self.flat();
        EmoteSceneBounds::at(self.point(stand, Point { x: f.min_x, y: f.min_y })).with(
            EmoteSceneBounds::at(self.point(stand, Point { x: f.min_x, y: f.max_y })),
        ).with(
            EmoteSceneBounds::at(self.point(stand, Point { x: f.max_x, y: f.min_y })),
        ).with(EmoteSceneBounds::at(self.point(stand, Point { x: f.max_x, y: f.max_y })))
    }

    /// Whether anything of the sprite is seen.
    pub open spec fn seen(self) -> bool {
        self.visible && Single::zero().lt(self.opacity)
    }

    /// The angle whose sine and cosine the sprite's own rotation needs.
    pub open spec fn angle(self) -> Single {
        radians(self.rotation_degrees.finite_or(Single::zero()))
    }
}

impl EmoteStaticSprite {
    pub fn left(&self) -> (r: Single)
        ensures
            r == self@.left(),
    {
        self.center_x.minus(self.width.times(Single::half()))
    }

    pub fn top(&self) -> (r: Single)
        ensures
            r == self@.top(),
    {
        self.center_y.minus(self.height.times(Single::half()))
    }

    pub fn right(&self) -> (r: Single)
        ensures
            r == self@.right(),
    {
        self.center_x.plus(self.width.times(Single::half()))
    }

    pub fn bottom(&self) -> (r: Single)
        ensures
            r == self@.bottom(),
    {
        self.center_y.plus(self.height.times(Single::half()))
    }

    pub fn angle(&self) -> (r: Single)
        ensures
            r == self@.angle(),
    {
        radians(self.rotation_degrees.finite_or(Single::zero()))
    }

    /// A point of the sprite in model space.
    pub fn transform_point(&self, stand: Stand, p: Point) -> (r: Point)
        ensures
            r == self@.point(stand, p),
    {
        let dx = p.x.minus(self.center_x).times(self.scale_x.finite_or(Single::one()));
        let dy = p.y.minus(self.center_y).times(self.scale_y.finite_or(Single::one()));
        let turn = stand.turn;
        stand.world.apply(
            Point {
                x: self.center_x.plus(dx.times(turn.cos)).minus(dy.times(turn.sin)),
                y: self.center_y.plus(dx.times(turn.sin)).plus(dy.times(turn.cos)),
            },
        )
    }

    fn find_flat(&self) -> (r: EmoteSceneBounds)
        requires
            self@.wf(),
        ensures
            r == self@.flat(),
    {
        let left = self.left();
        let top = self.top();
        match &self.mesh {
            Some(mesh) => {
                let (min_u, min_v, max_u, max_v) = mesh.control_bounds();
                EmoteSceneBounds {
                    min_x: left.plus(min_u.times(self.width)),
                    min_y: top.plus(min_v.times(self.height)),
                    max_x: left.plus(max_u.times(self.width)),
                    max_y: top.plus(max_v.times(self.height)),
                }
            },
            None => EmoteSceneBounds {
                min_x: left,
                min_y: top,
                max_x: self.right(),
                max_y: self.bottom(),
            },
        }
    }

    /// The rectangle around the transformed sprite.
    pub fn bounds_rect(&self, stand: Stand) -> (r: EmoteSceneBounds)
        requires
            self@.wf(),
        ensures
            r == self@.bounds(stand),
    {
        let f = self.find_flat();
        let a = self.transform_point(stand, Point { x: f.min_x, y: f.min_y });
        let b = self.transform_point(stand, Point { x: f.min_x, y: f.max_y });
        let c = self.transform_point(stand, Point { x: f.max_x, y: f.min_y });
        let d = self.transform_point(stand, Point { x: f.max_x, y: f.max_y });
        EmoteSceneBounds::at(a).with(EmoteSceneBounds::at(b)).with(EmoteSceneBounds::at(c)).with(
            EmoteSceneBounds::at(d),
        )
    }
}

/// The rectangle around the sprites that are seen, where there is one.
pub open spec fn scene_bounds(sprites: Seq<Sprite>, stands: Seq<Stand>) -> Option<EmoteSceneBounds>
    decreases sprites.len(),
{
    if sprites.len() == 0 {
        None
    } else {
        let before = scene_bounds(sprites.drop_last(), stands.drop_last());
        let own = sprites.last().bounds(stands.last());
        if !sprites.last().seen() {
            before
        } else {
            match before {
                Some(b) => Some(b.with(own)),
                None => Some(own),
            }
        }
    }
}

/// The rectangle around the sprites that are seen.
pub fn compute_bounds(sprites: &Vec<EmoteStaticSprite>, stands: &Vec<Stand>) -> (r: Option<
    EmoteSceneBounds,
>)
    requires
        sprites@.len() == stands@.len(),
        forall|i: int| 0 <= i < sprites@.len() ==> (#[trigger] sprites@[i])@.wf(),
    ensures
        r == scene_bounds(sprites_view(sprites@), stands@),
{
    let mut r: Option<EmoteSceneBounds> = None;
    let mut i: usize = 0;
    let ghost all = sprites_view(sprites@);
    while i < sprites.len()
        invariant
            i <= sprites@.len(),
            sprites@.len() == stands@.len(),
            forall|i: int| 0 <= i < sprites@.len() ==> (#[trigger] sprites@[i])@.wf(),
            all == sprites_view(sprites@),
            r == scene_bounds(all.take(i as int), stands@.take(i as int)),
        decreases sprites@.len() - i,
    {
        assert(all.take(i + 1).drop_last() =~= all.take(i as int));
        assert(stands@.take(i + 1).drop_last() =~= stands@.take(i as int));
        assert(all.take(i + 1).last() == sprites@[i as int]@);
        let sprite = &sprites[i];
        if sprite.visible && Single::zero().lt(sprite.opacity) {
            let own = sprite.bounds_rect(stands[i]);
            r = match r {
                Some(b) => Some(b.with(own)),
                None => Some(own),
            };
        }
        i = i + 1;
    }
    assert(all.take(i as int) =~= all);
    assert(stands@.take(i as int) =~= stands@);
    r
}

} // verus!
