//! What has changed from one frame to the next.

use crate::assembly::EmoteStaticScene;
use crate::face::{is_face_path, is_face_related_sprite};
use crate::frame_plan::places;
use crate::mesh::{opt_patch, EmoteMeshPatch, Patch, PatchDomain, Point};
use crate::order::{keys, TextMap};
use crate::place::{EmoteSceneBounds, EmoteTransform2D, Stand};
use crate::scene::{EmoteDrawPass, EmoteStaticSprite, Sprite};
use crate::single::Single;
use crate::text::same_text;
use crate::vertices::lemma_whole_triangles;
use vstd::prelude::*;

verus! {

/// A ten-thousandth, above which two values differ.
#[verifier::allow_in_spec]
pub fn noise() -> (r: Single)
    returns
        (Single { bits: 0x38d1_b717 }),
{
    Single { bits: 0x38d1_b717 }
}

/// Whether two values differ by more than noise.
pub open spec fn spec_differs(a: Single, b: Single) -> bool {
    noise().lt(a.minus(b).abs())
}

#[verifier::when_used_as_spec(spec_differs)]
pub fn differs(a: Single, b: Single) -> (r: bool)
    ensures
        r == spec_differs(a, b),
{
    noise().lt(a.minus(b).abs())
}

/// How many variables of a row of names are new or have changed.
pub open spec fn changed_count(
    before: Map<Seq<char>, Single>,
    now: Map<Seq<char>, Single>,
    names: Seq<Seq<char>>,
) -> nat
    decreases names.len(),
{
    if names.len() == 0 {
        0
    } else {
        let name = names.last();
        changed_count(before, now, names.drop_last()) + if before.dom().contains(name)
            && !differs(before[name], now[name]) {
            0nat
        } else {
            1
        }
    }
}

/// Counts the variables that are new or have changed.
pub fn count_changed_variables(before: &TextMap<Single>, now: &TextMap<Single>) -> (r: usize)
    requires
        before.wf(),
        now.wf(),
    ensures
        r == changed_count(before@, now@, keys(now.entries@)),
{
    let ghost names = keys(now.entries@);
    let mut n: usize = 0;
    let mut i: usize = 0;
    while i < now.entries.len()
        invariant
            i <= now.entries@.len(),
            n <= i,
            before.wf(),
            now.wf(),
            names == keys(now.entries@),
            n == changed_count(before@, now@, names.take(i as int)),
        decreases now.entries@.len() - i,
    {
        proof {
            now.lemma_entry(i as int);
            assert(names.take(i + 1).drop_last() =~= names.take(i as int));
        }
        let changed = match before.get(now.entries[i].0.as_str()) {
            Some(v) => differs(*v, now.entries[i].1),
            None => true,
        };
        if changed {
            n = n + 1;
        }
        i = i + 1;
    }
    assert(names.take(i as int) =~= names);
    n
}

/// The last sprite of a scene at a path.
pub open spec fn last_at(sprites: Seq<Sprite>, path: Seq<char>, n: nat) -> Option<int>
    decreases n,
{
    if n == 0 || n > sprites.len() {
        None
    } else if sprites[n - 1].info.path == path {
        Some(n - 1)
    } else {
        last_at(sprites, path, (n - 1) as nat)
    }
}

fn find_last_at(scene: &EmoteStaticScene, path: &str) -> (r: Option<usize>)
    ensures
        last_at(scene@.sprites, path@, scene@.sprites.len()) == (match r {
            Some(i) => Some(i as int),
            None => None,
        }),
        r matches Some(i) ==> i < scene.sprites@.len(),
{
    let mut i: usize = scene.sprites.len();
    assert(scene@.sprites.len() == scene.sprites@.len());
    while i > 0
        invariant
            i <= scene.sprites@.len(),
            scene@.sprites.len() == scene.sprites@.len(),
            last_at(scene@.sprites, path@, scene@.sprites.len()) == last_at(
                scene@.sprites,
                path@,
                i as nat,
            ),
        decreases i,
    {
        assert(scene@.sprites[i - 1] == scene.sprites@[i - 1]@);
        if same_text(scene.sprites[i - 1].draw_frame_info.path.as_str(), path) {
            return Some(i - 1);
        }
        i = i - 1;
    }
    None
}

/// Whether two maps of the plane have the same numbers.
pub open spec fn spec_same_transform(a: EmoteTransform2D, b: EmoteTransform2D) -> bool {
    a.m11.same(b.m11) && a.m12.same(b.m12) && a.m21.same(b.m21) && a.m22.same(b.m22) && a.tx.same(
        b.tx,
    ) && a.ty.same(b.ty)
}

#[verifier::when_used_as_spec(spec_same_transform)]
pub fn same_transform(a: EmoteTransform2D, b: EmoteTransform2D) -> (r: bool)
    ensures
        r == spec_same_transform(a, b),
{
    a.m11.same(b.m11) && a.m12.same(b.m12) && a.m21.same(b.m21) && a.m22.same(b.m22) && a.tx.same(
        b.tx,
    ) && a.ty.same(b.ty)
}

/// Whether a layer has changed: its opacity, its center, its place or whether it is
/// seen.
pub open spec fn layer_changed(a: Sprite, at: Stand, b: Sprite, bt: Stand) -> bool {
    differs(a.opacity, b.opacity) || differs(a.center_x, b.center_x) || differs(
        a.center_y,
        b.center_y,
    ) || !same_transform(at.world, bt.world) || a.visible != b.visible
}

fn has_layer_changed(a: &EmoteStaticSprite, at: Stand, b: &EmoteStaticSprite, bt: Stand) -> (r: bool)
    ensures
        r == layer_changed(a@, at, b@, bt),
{
    differs(a.opacity, b.opacity) || differs(a.center_x, b.center_x) || differs(
        a.center_y,
        b.center_y,
    ) || !same_transform(at.world, bt.world) || a.visible != b.visible
}

pub open spec fn same_domain(a: Option<PatchDomain>, b: Option<PatchDomain>) -> bool {
    match (a, b) {
        (Some(x), Some(y)) => x.x.same(y.x) && x.y.same(y.y) && x.width.same(y.width)
            && x.height.same(y.height),
        (None, None) => true,
        _ => false,
    }
}

/// Whether two patches have the same numbers.
pub open spec fn same_patch(a: Patch, b: Patch) -> bool {
    &&& a.division_x == b.division_x
    &&& a.division_y == b.division_y
    &&& same_domain(a.domain, b.domain)
    &&& a.points.len() == b.points.len()
    &&& forall|i: int|
        0 <= i < a.points.len() ==> (#[trigger] a.points[i]).x.same(b.points[i].x)
            && a.points[i].y.same(b.points[i].y)
}

pub open spec fn same_mesh(a: Option<Patch>, b: Option<Patch>) -> bool {
    match (a, b) {
        (Some(x), Some(y)) => same_patch(x, y),
        (None, None) => true,
        _ => false,
    }
}

fn is_same_patch(a: &EmoteMeshPatch, b: &EmoteMeshPatch) -> (r: bool)
    ensures
        r == same_patch(a@, b@),
{
    let domains = match (a.domain, b.domain) {
        (Some(x), Some(y)) => x.x.same(y.x) && x.y.same(y.y) && x.width.same(y.width)
            && x.height.same(y.height),
        (None, None) => true,
        _ => false,
    };
    if a.division_x != b.division_x || a.division_y != b.division_y || !domains
        || a.control_points.len() != b.control_points.len() {
        return false;
    }
    let mut i: usize = 0;
    while i < a.control_points.len()
        invariant
            i <= a.control_points@.len(),
            a.control_points@.len() == b.control_points@.len(),
            forall|j: int|
                0 <= j < i ==> (#[trigger] a@.points[j]).x.same(b@.points[j].x)
                    && a@.points[j].y.same(b@.points[j].y),
        decreases a.control_points@.len() - i,
    {
        let p = a.control_points[i];
        let q = b.control_points[i];
        assert(a@.points[i as int] == p);
        if !p.x.same(q.x) || !p.y.same(q.y) {
            return false;
        }
        i = i + 1;
    }
    true
}

fn is_same_mesh(a: &Option<EmoteMeshPatch>, b: &Option<EmoteMeshPatch>) -> (r: bool)
    ensures
        r == same_mesh(opt_patch(*a), opt_patch(*b)),
{
    match (a, b) {
        (Some(x), Some(y)) => is_same_patch(x, y),
        (None, None) => true,
        _ => false,
    }
}

/// The places of the first `n` sprites that were not there before or whose layer has
/// changed.
pub open spec fn changed_layers(
    before: Seq<Sprite>,
    before_stands: Seq<Stand>,
    now: Seq<Sprite>,
    stands: Seq<Stand>,
    n: nat,
) -> Seq<int>
    decreases n,
{
    if n == 0 || n > now.len() {
        Seq::empty()
    } else {
        let rest = changed_layers(before, before_stands, now, stands, (n - 1) as nat);
        let changed = match last_at(before, now[n - 1].info.path, before.len()) {
            None => true,
            Some(k) => layer_changed(before[k], before_stands[k], now[n - 1], stands[n - 1]),
        };
        if changed {
            rest.push(n - 1)
        } else {
            rest
        }
    }
}

/// The places of the first `n` sprites that were there before with another mesh.
pub open spec fn changed_meshes(before: Seq<Sprite>, now: Seq<Sprite>, n: nat) -> Seq<int>
    decreases n,
{
    if n == 0 || n > now.len() {
        Seq::empty()
    } else {
        let rest = changed_meshes(before, now, (n - 1) as nat);
        match last_at(before, now[n - 1].info.path, before.len()) {
            Some(k) => if !same_mesh(before[k].mesh, now[n - 1].mesh) {
                rest.push(n - 1)
            } else {
                rest
            },
            None => rest,
        }
    }
}

/// Where the first corner of a sprite was and is.
pub struct CornerMove {
    pub sprite: int,
    pub before: Point,
    pub now: Point,
}

/// The first of the first `n` sprites whose first corner has moved.
pub open spec fn moved_corner(
    before: Seq<Sprite>,
    before_stands: Seq<Stand>,
    now: Seq<Sprite>,
    stands: Seq<Stand>,
    n: nat,
) -> Option<CornerMove>
    decreases n,
{
    if n == 0 || n > now.len() {
        None
    } else {
        match moved_corner(before, before_stands, now, stands, (n - 1) as nat) {
            Some(m) => Some(m),
            None => match last_at(before, now[n - 1].info.path, before.len()) {
                None => None,
                Some(k) => {
                    let a = before[k].triangles(before_stands[k])[0].position;
                    let b = now[n - 1].triangles(stands[n - 1])[0].position;
                    if differs(a.x, b.x) || differs(a.y, b.y) {
                        Some(CornerMove { sprite: n - 1, before: a, now: b })
                    } else {
                        None
                    }
                },
            },
        }
    }
}

/// What has changed between two scenes.
#[derive(Debug)]
pub struct SceneChanges {
    pub layers: Vec<usize>,
    pub meshes: Vec<usize>,
    /// The sprite whose first corner has moved, and where that was and is.
    pub corner: Option<(usize, Point, Point)>,
}

fn first_corner(sprite: &EmoteStaticSprite, stand: Stand) -> (r: Point)
    requires
        sprite@.wf(),
    ensures
        r == sprite@.triangles(stand)[0].position,
{
    proof {
        lemma_whole_triangles(sprite@, stand);
        if let Some(mesh) = sprite@.mesh {
            let dx = crate::vertices::parts(mesh.division_x) as int;
            let dy = crate::vertices::parts(mesh.division_y) as int;
            assert(dy * dx >= 1) by (nonlinear_arith)
                requires
                    dx >= 1,
                    dy >= 1,
            ;
        }
    }
    let corners = sprite.sprite_vertices(stand);
    corners[0].position
}

pub open spec fn opt_corner(c: Option<(usize, Point, Point)>) -> Option<CornerMove> {
    match c {
        Some((sprite, before, now)) => Some(CornerMove { sprite: sprite as int, before, now }),
        None => None,
    }
}

/// Compares two scenes, given where their sprites stand.
pub fn compare_scenes(
    before: &EmoteStaticScene,
    before_stands: &Vec<Stand>,
    now: &EmoteStaticScene,
    stands: &Vec<Stand>,
) -> (r: SceneChanges)
    requires
        before.wf(),
        now.wf(),
        before_stands@.len() == before.sprites@.len(),
        stands@.len() == now.sprites@.len(),
    ensures
        places(r.layers@) == changed_layers(
            before@.sprites,
            before_stands@,
            now@.sprites,
            stands@,
            now@.sprites.len(),
        ),
        places(r.meshes@) == changed_meshes(before@.sprites, now@.sprites, now@.sprites.len()),
        opt_corner(r.corner) == moved_corner(
            before@.sprites,
            before_stands@,
            now@.sprites,
            stands@,
            now@.sprites.len(),
        ),
{
    let ghost a = before@.sprites;
    let ghost b = now@.sprites;
    let mut layers: Vec<usize> = Vec::new();
    let mut meshes: Vec<usize> = Vec::new();
    let mut corner: Option<(usize, Point, Point)> = None;
    let mut i: usize = 0;
    proof {
        assert(b.len() == now.sprites@.len());
        assert(a.len() == before.sprites@.len());
        assert(places(layers@) =~= Seq::<int>::empty());
        assert(places(meshes@) =~= Seq::<int>::empty());
    }
    while i < now.sprites.len()
        invariant
            i <= now.sprites@.len(),
            a == before@.sprites,
            b == now@.sprites,
            b.len() == now.sprites@.len(),
            a.len() == before.sprites@.len(),
            before.wf(),
            now.wf(),
            before_stands@.len() == before.sprites@.len(),
            stands@.len() == now.sprites@.len(),
            places(layers@) == changed_layers(a, before_stands@, b, stands@, i as nat),
            places(meshes@) == changed_meshes(a, b, i as nat),
            opt_corner(corner) == moved_corner(a, before_stands@, b, stands@, i as nat),
        decreases now.sprites@.len() - i,
    {
        let sprite = &now.sprites[i];
        assert(b[i as int] == sprite@);
        assert(b[i as int].wf());
        let ghost known = places(layers@);
        let ghost meshed = places(meshes@);
        match find_last_at(before, sprite.draw_frame_info.path.as_str()) {
            None => {
                layers.push(i);
                assert(places(layers@) =~= known.push(i as int));
            },
            Some(k) => {
                let prev = &before.sprites[k];
                assert(a[k as int] == prev@);
                assert(a[k as int].wf());
                if has_layer_changed(prev, before_stands[k], sprite, stands[i]) {
                    layers.push(i);
                    assert(places(layers@) =~= known.push(i as int));
                }
                if !is_same_mesh(&prev.mesh, &sprite.mesh) {
                    meshes.push(i);
                    assert(places(meshes@) =~= meshed.push(i as int));
                }
                if corner.is_none() {
                    let p = first_corner(prev, before_stands[k]);
                    let q = first_corner(sprite, stands[i]);
                    if differs(p.x, q.x) || differs(p.y, q.y) {
                        corner = Some((i, p, q));
                    }
                }
            },
        }
        i = i + 1;
    }
    SceneChanges { layers, meshes, corner }
}

/// A sort of sprites, given how many resources the document has.
#[derive(Clone, Copy, Debug, PartialEq, Eq, Structural)]
pub enum SpriteSort {
    Drawn,
    DrawnMesh,
    Face,
    FaceDrawn,
    FaceSubmitted { resources: usize },
    MissingTexture { resources: usize },
}

impl SpriteSort {
    pub open spec fn takes(self, s: Sprite) -> bool {
        match self {
            SpriteSort::Drawn => s.seen(),
            SpriteSort::DrawnMesh => s.seen() && s.mesh is Some,
            SpriteSort::Face => is_face_path(s.info.path),
            SpriteSort::FaceDrawn => is_face_path(s.info.path) && s.seen(),
            SpriteSort::FaceSubmitted { resources } => is_face_path(s.info.path) && s.seen()
                && s.texture_resource_index < resources && !(s.info.pass is MaskGeneration),
            SpriteSort::MissingTexture { resources } => s.seen() && s.texture_resource_index
                >= resources,
        }
    }

    fn test(self, s: &EmoteStaticSprite) -> (r: bool)
        ensures
            r == self.takes(s@),
    {
        let seen = s.visible && Single::zero().lt(s.opacity);
        match self {
            SpriteSort::Drawn => seen,
            SpriteSort::DrawnMesh => seen && s.mesh.is_some(),
            SpriteSort::Face => is_face_related_sprite(s),
            SpriteSort::FaceDrawn => is_face_related_sprite(s) && seen,
            SpriteSort::FaceSubmitted { resources } => {
                let masks = match s.draw_frame_info.pass {
                    EmoteDrawPass::MaskGeneration => true,
                    _ => false,
                };
                is_face_related_sprite(s) && seen && (s.texture_resource_index as usize)
                    < resources && !masks
            },
            SpriteSort::MissingTexture { resources } => seen && s.texture_resource_index as usize
                >= resources,
        }
    }
}

/// The places of the first `n` sprites of a sort.
pub open spec fn of_sort(sort: SpriteSort, sprites: Seq<Sprite>, n: nat) -> Seq<int>
    decreases n,
{
    if n == 0 || n > sprites.len() {
        Seq::empty()
    } else {
        let rest = of_sort(sort, sprites, (n - 1) as nat);
        if sort.takes(sprites[n - 1]) {
            rest.push(n - 1)
        } else {
            rest
        }
    }
}

/// Finds the sprites of a sort.
pub fn list_sprites(scene: &EmoteStaticScene, sort: SpriteSort) -> (r: Vec<usize>)
    ensures
        places(r@) == of_sort(sort, scene@.sprites, scene@.sprites.len()),
{
    let ghost all = scene@.sprites;
    let mut r: Vec<usize> = Vec::new();
    let mut i: usize = 0;
    assert(places(r@) =~= Seq::<int>::empty());
    assert(all.len() == scene.sprites@.len());
    while i < scene.sprites.len()
        invariant
            i <= scene.sprites@.len(),
            all == scene@.sprites,
            all.len() == scene.sprites@.len(),
            places(r@) == of_sort(sort, all, i as nat),
        decreases scene.sprites@.len() - i,
    {
        assert(all[i as int] == scene.sprites@[i as int]@);
        let ghost before = places(r@);
        if sort.test(&scene.sprites[i]) {
            r.push(i);
            assert(places(r@) =~= before.push(i as int));
        }
        i = i + 1;
    }
    r
}

/// How a sprite is marked in a list of all draws.
#[derive(Clone, Copy, Debug, PartialEq, Eq, Structural)]
pub enum DrawMark {
    Hidden,
    Face,
    Large,
    Plain,
}

/// Two hundred, the size from which a sprite is large.
#[verifier::allow_in_spec]
pub fn large_size() -> (r: Single)
    returns
        (Single { bits: 0x4348_0000 }),
{
    Single { bits: 0x4348_0000 }
}

pub open spec fn mark_of(s: Sprite) -> DrawMark {
    if !s.seen() {
        DrawMark::Hidden
    } else if is_face_path(s.info.path) {
        DrawMark::Face
    } else if large_size().lt(s.width) || large_size().lt(s.height) {
        DrawMark::Large
    } else {
        DrawMark::Plain
    }
}

/// How a sprite is marked in a list of all draws.
pub fn mark_sprite(s: &EmoteStaticSprite) -> (r: DrawMark)
    ensures
        r == mark_of(s@),
{
    if !(s.visible && Single::zero().lt(s.opacity)) {
        DrawMark::Hidden
    } else if is_face_related_sprite(s) {
        DrawMark::Face
    } else if large_size().lt(s.width) || large_size().lt(s.height) {
        DrawMark::Large
    } else {
        DrawMark::Plain
    }
}

impl DrawMark {
    pub open spec fn text(self) -> Seq<char> {
        match self {
            DrawMark::Hidden => "HIDDEN"@,
            DrawMark::Face => "FACE"@,
            DrawMark::Large => "LARGE"@,
            DrawMark::Plain => "draw"@,
        }
    }

    pub fn name(self) -> (r: &'static str)
        ensures
            r@ == self.text(),
    {
        match self {
            DrawMark::Hidden => "HIDDEN",
            DrawMark::Face => "FACE",
            DrawMark::Large => "LARGE",
            DrawMark::Plain => "draw",
        }
    }
}

/// Whether a sprite is drawn in colour over what lies below it.
pub open spec fn covers(s: Sprite) -> bool {
    s.seen() && !(s.info.pass is MaskGeneration)
}

/// The first sprites, at most `most` of them, that are drawn over the one at a place,
/// as far as place `n`.
pub open spec fn drawn_above(sprites: Seq<Sprite>, at: int, most: nat, n: int) -> Seq<int>
    decreases n - at,
{
    if n <= at + 1 || n > sprites.len() {
        Seq::empty()
    } else {
        let rest = drawn_above(sprites, at, most, n - 1);
        if covers(sprites[n - 1]) && rest.len() < most {
            rest.push(n - 1)
        } else {
            rest
        }
    }
}

/// Finds the first sprites that are drawn over another.
pub fn list_above(scene: &EmoteStaticScene, at: usize, most: usize) -> (r: Vec<usize>)
    requires
        at < scene.sprites@.len(),
    ensures
        places(r@) == drawn_above(
            scene@.sprites,
            at as int,
            most as nat,
            scene@.sprites.len() as int,
        ),
        r@.len() <= most,
{
    let ghost all = scene@.sprites;
    let mut r: Vec<usize> = Vec::new();
    let count: usize = scene.sprites.len();
    let mut i: usize = at + 1;
    assert(places(r@) =~= Seq::<int>::empty());
    assert(all.len() == scene.sprites@.len());
    while i < count
        invariant
            count == scene.sprites@.len(),
            at + 1 <= i <= scene.sprites@.len(),
            all == scene@.sprites,
            all.len() == scene.sprites@.len(),
            r@.len() <= most,
            places(r@) == drawn_above(all, at as int, most as nat, i as int),
        decreases scene.sprites@.len() - i,
    {
        let s = &scene.sprites[i];
        assert(all[i as int] == s@);
        let ghost before = places(r@);
        let masks = match s.draw_frame_info.pass {
            EmoteDrawPass::MaskGeneration => true,
            _ => false,
        };
        if s.visible && Single::zero().lt(s.opacity) && !masks && r.len() < most {
            r.push(i);
            assert(places(r@) =~= before.push(i as int));
        }
        i = i + 1;
    }
    r
}

/// Why a sprite of the face is not drawn.
#[derive(Clone, Copy, Debug, PartialEq, Eq, Structural)]
pub enum SkipReason {
    MissingTexture,
    Invisible,
    Transparent,
    MaskGeneration,
    Submitted,
}

pub open spec fn reason_of(s: Sprite, resources: usize) -> SkipReason {
    if s.texture_resource_index >= resources {
        SkipReason::MissingTexture
    } else if !s.visible {
        SkipReason::Invisible
    } else if s.opacity.le(Single::zero()) {
        SkipReason::Transparent
    } else if s.info.pass is MaskGeneration {
        SkipReason::MaskGeneration
    } else {
        SkipReason::Submitted
    }
}

/// Why a sprite of the face is not drawn.
pub fn skip_reason(s: &EmoteStaticSprite, resources: usize) -> (r: SkipReason)
    ensures
        r == reason_of(s@, resources),
{
    let masks = match s.draw_frame_info.pass {
        EmoteDrawPass::MaskGeneration => true,
        _ => false,
    };
    if s.texture_resource_index as usize >= resources {
        SkipReason::MissingTexture
    } else if !s.visible {
        SkipReason::Invisible
    } else if s.opacity.le(Single::zero()) {
        SkipReason::Transparent
    } else if masks {
        SkipReason::MaskGeneration
    } else {
        SkipReason::Submitted
    }
}

impl SkipReason {
    pub open spec fn text(self) -> Seq<char> {
        match self {
            SkipReason::MissingTexture => "missing-texture"@,
            SkipReason::Invisible => "visibility=false"@,
            SkipReason::Transparent => "opacity=0"@,
            SkipReason::MaskGeneration => "mask-generation"@,
            SkipReason::Submitted => "submitted"@,
        }
    }

    pub fn name(self) -> (r: &'static str)
        ensures
            r@ == self.text(),
    {
        match self {
            SkipReason::MissingTexture => "missing-texture",
            SkipReason::Invisible => "visibility=false",
            SkipReason::Transparent => "opacity=0",
            SkipReason::MaskGeneration => "mask-generation",
            SkipReason::Submitted => "submitted",
        }
    }
}

/// The bounds of nothing.
#[verifier::allow_in_spec]
pub fn no_bounds() -> (r: EmoteSceneBounds)
    returns
        (EmoteSceneBounds {
            min_x: Single { bits: 0x7f80_0000 },
            min_y: Single { bits: 0x7f80_0000 },
            max_x: Single { bits: 0xff80_0000 },
            max_y: Single { bits: 0xff80_0000 },
        }),
{
    EmoteSceneBounds {
        min_x: Single { bits: 0x7f80_0000 },
        min_y: Single { bits: 0x7f80_0000 },
        max_x: Single { bits: 0xff80_0000 },
        max_y: Single { bits: 0xff80_0000 },
    }
}

/// The bounds of the four corners of a sprite, each moved by a map of the plane alone.
pub open spec fn moved_corners(s: Sprite, world: EmoteTransform2D) -> EmoteSceneBounds {
    no_bounds().with(
        EmoteSceneBounds::at(world.apply(Point { x: s.left(), y: s.top() })),
    ).with(EmoteSceneBounds::at(world.apply(Point { x: s.right(), y: s.top() }))).with(
        EmoteSceneBounds::at(world.apply(Point { x: s.right(), y: s.bottom() })),
    ).with(EmoteSceneBounds::at(world.apply(Point { x: s.left(), y: s.bottom() })))
}

/// Where the corners of a sprite come to lie.
pub fn screen_bounds(sprite: &EmoteStaticSprite, world: EmoteTransform2D) -> (r: EmoteSceneBounds)
    ensures
        r == moved_corners(sprite@, world),
{
    let left = sprite.left();
    let top = sprite.top();
    let right = sprite.right();
    let bottom = sprite.bottom();
    no_bounds().with(EmoteSceneBounds::at(world.apply(Point { x: left, y: top }))).with(
        EmoteSceneBounds::at(world.apply(Point { x: right, y: top })),
    ).with(EmoteSceneBounds::at(world.apply(Point { x: right, y: bottom }))).with(
        EmoteSceneBounds::at(world.apply(Point { x: left, y: bottom })),
    )
}

/// The names of the variables that physics moves.
pub open spec fn body_variables() -> Seq<Seq<char>> {
    seq![
        "bust_LR"@,
        "bust_UD"@,
        "bust_LR_spare"@,
        "bust_UD_spare"@,
        "hair_LR_front"@,
        "hair_LR_M_front"@,
        "hair_UD_front"@,
        "hair_LR_side_L"@,
        "hair_LR_M_side_L"@,
        "hair_UD_side_L"@,
        "hair_LR_side_R"@,
        "hair_LR_M_side_R"@,
        "hair_UD_side_R"@,
    ]
}

fn body_variable(i: usize) -> (r: &'static str)
    requires
        i < 13,
    ensures
        r@ == body_variables()[i as int],
{
    if i == 0 {
        "bust_LR"
    } else if i == 1 {
        "bust_UD"
    } else if i == 2 {
        "bust_LR_spare"
    } else if i == 3 {
        "bust_UD_spare"
    } else if i == 4 {
        "hair_LR_front"
    } else if i == 5 {
        "hair_LR_M_front"
    } else if i == 6 {
        "hair_UD_front"
    } else if i == 7 {
        "hair_LR_side_L"
    } else if i == 8 {
        "hair_LR_M_side_L"
    } else if i == 9 {
        "hair_UD_side_L"
    } else if i == 10 {
        "hair_LR_side_R"
    } else if i == 11 {
        "hair_LR_M_side_R"
    } else {
        "hair_UD_side_R"
    }
}

/// The first `n` variables of bodies that are there, with their values.
pub open spec fn body_values(values: Map<Seq<char>, Single>, n: nat) -> Seq<(Seq<char>, Single)>
    decreases n,
{
    if n == 0 {
        Seq::empty()
    } else {
        let rest = body_values(values, (n - 1) as nat);
        let name = body_variables()[n - 1];
        if values.dom().contains(name) {
            rest.push((name, values[name]))
        } else {
            rest
        }
    }
}

/// The names and values by their characters.
pub open spec fn values_view(row: Seq<(&'static str, Single)>) -> Seq<(Seq<char>, Single)> {
    row.map_values(|e: (&'static str, Single)| (e.0@, e.1))
}

/// Lists the variables of bodies that are there.
pub fn list_body_values(values: &TextMap<Single>) -> (r: Vec<(&'static str, Single)>)
    requires
        values.wf(),
    ensures
        values_view(r@) == body_values(values@, 13),
{
    let mut r: Vec<(&'static str, Single)> = Vec::new();
    let mut i: usize = 0;
    assert(values_view(r@) =~= Seq::<(Seq<char>, Single)>::empty());
    while i < 13
        invariant
            i <= 13,
            values.wf(),
            values_view(r@) == body_values(values@, i as nat),
        decreases 13 - i,
    {
        let name = body_variable(i);
        let ghost before = values_view(r@);
        if let Some(v) = values.get(name) {
            r.push((name, *v));
            assert(values_view(r@) =~= before.push((name@, *v)));
        }
        i = i + 1;
    }
    r
}

} // verus!
