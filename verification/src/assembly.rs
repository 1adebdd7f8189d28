//! Scenes: the sprites of a model in drawing order, with the masks between them.

use crate::arrange::{
    arrange, arranged, lemma_arranged_in_order, lemma_arranged_origin, lemma_arranged_same_items,
    views, Ranked,
};
use crate::order::{
    before, comes_before, lemma_before_irreflexive, lemma_before_total, lemma_before_transitive,
    TextMap,
};
use crate::place::{compute_bounds, scene_bounds, EmoteSceneBounds, Stand};
use crate::refs::{
    all_meant_paths, name_view, names_view, resolve_all, resolve_composite_mask_owners,
    resolved_owners, rows_view, LayerName,
};
use crate::scene::{
    EmoteDrawFrameInfo, EmoteStaticSprite, EmoteStepFrameLayerState, FrameInfo, LayerState, Sprite,
};
use crate::text::{clone_opt, same_text, texts};
use crate::travel::{layers_view, sprites_view, Trace, Travel};
use vstd::prelude::*;

verus! {

impl Sprite {
    /// The plane that a sprite is drawn in.
    pub open spec fn plane(self) -> int {
        self.z.rounded_into(i32::MIN as int, i32::MAX as int)
    }

    /// Planes come first, then the order of the layers, the exact depth and the
    /// path.
    pub open spec fn drawn_before(self, other: Sprite) -> bool {
        if self.plane() != other.plane() {
            self.plane() < other.plane()
        } else if self.info.draw_index != other.info.draw_index {
            self.info.draw_index < other.info.draw_index
        } else if self.z.lt(other.z) {
            true
        } else if other.z.lt(self.z) {
            false
        } else {
            before(self.info.path, other.info.path)
        }
    }
}

impl Ranked for EmoteStaticSprite {
    open spec fn ahead(a: Sprite, b: Sprite) -> bool {
        a.drawn_before(b)
    }

    fn goes_ahead(&self, other: &EmoteStaticSprite) -> (r: bool) {
        let own: i64 = self.z.rounded(-0x8000_0000, 0x7fff_ffff);
        let others: i64 = other.z.rounded(-0x8000_0000, 0x7fff_ffff);
        if own != others {
            own < others
        } else if self.draw_frame_info.draw_index != other.draw_frame_info.draw_index {
            self.draw_frame_info.draw_index < other.draw_frame_info.draw_index
        } else if self.z.lt(other.z) {
            true
        } else if other.z.lt(self.z) {
            false
        } else {
            comes_before(self.draw_frame_info.path.as_str(), other.draw_frame_info.path.as_str())
        }
    }
}

impl Ranked for EmoteStepFrameLayerState {
    open spec fn ahead(a: LayerState, b: LayerState) -> bool {
        before(a.path, b.path)
    }

    fn goes_ahead(&self, other: &EmoteStepFrameLayerState) -> (r: bool) {
        comes_before(self.path.as_str(), other.path.as_str())
    }
}

/// A scene to draw.
#[derive(Clone, Debug)]
pub struct EmoteStaticScene {
    pub base_object: String,
    pub sprites: Vec<EmoteStaticSprite>,
    pub draw_frame_info: Vec<EmoteDrawFrameInfo>,
    pub layer_states: Vec<EmoteStepFrameLayerState>,
    /// The resolved mask sources of every layer that owns a composite mask.
    pub composite_mask_owners: TextMap<Vec<String>>,
}

/// An `EmoteStaticScene` by its characters.
#[verifier::ext_equal]
pub struct Scene {
    pub base_object: Seq<char>,
    pub sprites: Seq<Sprite>,
    pub infos: Seq<FrameInfo>,
    pub layers: Seq<LayerState>,
    pub owners: Map<Seq<char>, Seq<Seq<char>>>,
}

/// The infos by their characters.
pub open spec fn infos_view(v: Seq<EmoteDrawFrameInfo>) -> Seq<FrameInfo> {
    v.map_values(|i: EmoteDrawFrameInfo| i@)
}

impl View for EmoteStaticScene {
    type V = Scene;

    open spec fn view(&self) -> Scene {
        Scene {
            base_object: self.base_object@,
            sprites: sprites_view(self.sprites@),
            infos: infos_view(self.draw_frame_info@),
            layers: layers_view(self.layer_states@),
            owners: rows_view(self.composite_mask_owners),
        }
    }
}

/// What the sprites go by.
pub open spec fn sprite_names(sprites: Seq<Sprite>) -> Seq<LayerName> {
    sprites.map_values(|s: Sprite| LayerName { path: s.info.path, label: s.info.layer_label })
}

/// The sprites numbered through.
pub open spec fn numbered(sprites: Seq<Sprite>) -> Seq<Sprite> {
    sprites.map(
        |i: int, s: Sprite|
            Sprite { info: FrameInfo { draw_index: i as usize, ..s.info }, ..s },
    )
}

/// A sprite with the paths that its mask sources mean.
pub open spec fn linked(names: Seq<LayerName>, sprite: Sprite) -> Sprite {
    if sprite.info.stencil_composite_mask_layer_list.len() == 0 {
        sprite
    } else {
        Sprite {
            info: FrameInfo {
                stencil_composite_target_paths: all_meant_paths(
                    names,
                    sprite.info.stencil_composite_mask_layer_list,
                ),
                ..sprite.info
            },
            ..sprite
        }
    }
}

/// The sprites in drawing order, numbered and linked.
pub open spec fn drawing_order(sprites: Seq<Sprite>) -> Seq<Sprite> {
    let row = numbered(arranged::<EmoteStaticSprite>(sprites));
    row.map_values(|s: Sprite| linked(sprite_names(row), s))
}

/// The scene of what a traversal has gathered.
pub open spec fn assembled(base_object: Seq<char>, trace: Trace) -> Scene {
    let sprites = drawing_order(trace.sprites);
    Scene {
        base_object,
        sprites,
        infos: sprites.map_values(|s: Sprite| s.info),
        layers: arranged::<EmoteStepFrameLayerState>(trace.layers),
        owners: resolved_owners(sprite_names(sprites), trace.owners),
    }
}

fn collect_names(sprites: &Vec<EmoteStaticSprite>) -> (r: Vec<(String, Option<String>)>)
    ensures
        names_view(r@) == sprite_names(sprites_view(sprites@)),
{
    let mut r: Vec<(String, Option<String>)> = Vec::new();
    let mut i: usize = 0;
    let ghost want = sprite_names(sprites_view(sprites@));
    while i < sprites.len()
        invariant
            i <= sprites@.len(),
            want == sprite_names(sprites_view(sprites@)),
            r@.len() == i,
            names_view(r@) == want.take(i as int),
        decreases sprites@.len() - i,
    {
        r.push(
            (
                sprites[i].draw_frame_info.path.clone(),
                clone_opt(&sprites[i].draw_frame_info.layer_label),
            ),
        );
        assert(name_view(r@[i as int]) == want[i as int]);
        assert(names_view(r@) =~= want.take(i + 1));
        i = i + 1;
    }
    assert(want.take(i as int) =~= want);
    r
}

fn set_number(sprite: &mut EmoteStaticSprite, i: usize)
    ensures
        final(sprite)@ == (Sprite {
            info: FrameInfo { draw_index: i, ..old(sprite)@.info },
            ..old(sprite)@
        }),
{
    sprite.draw_frame_info.draw_index = i;
}

fn set_link(sprite: &mut EmoteStaticSprite, names: &Vec<(String, Option<String>)>)
    ensures
        final(sprite)@ == linked(names_view(names@), old(sprite)@),
{
    let found = resolve_all(&sprite.draw_frame_info.stencil_composite_mask_layer_list, names);
    assert(texts(sprite.draw_frame_info.stencil_composite_mask_layer_list@).len()
        == sprite.draw_frame_info.stencil_composite_mask_layer_list@.len());
    if sprite.draw_frame_info.stencil_composite_mask_layer_list.len() > 0 {
        sprite.draw_frame_info.stencil_composite_target_paths = found;
    }
}

/// Gives every sprite its place in the row.
fn number(sprites: &mut Vec<EmoteStaticSprite>)
    ensures
        sprites_view(final(sprites)@) == numbered(sprites_view(old(sprites)@)),
{
    let ghost start = sprites_view(sprites@);
    let mut i: usize = 0;
    while i < sprites.len()
        invariant
            i <= sprites@.len(),
            sprites@.len() == start.len(),
            forall|j: int|
                0 <= j < i ==> (#[trigger] sprites@[j])@ == numbered(start)[j],
            forall|j: int| i <= j < sprites@.len() ==> (#[trigger] sprites@[j])@ == start[j],
        decreases sprites@.len() - i,
    {
        set_number(&mut sprites[i], i);
        assert(sprites@[i as int]@ == numbered(start)[i as int]);
        i = i + 1;
    }
    assert(sprites_view(sprites@) =~= numbered(start));
}

/// Resolves the mask sources that the sprites name themselves.
pub fn resolve_draw_frame_composite_links(sprites: &mut Vec<EmoteStaticSprite>)
    ensures
        sprites_view(final(sprites)@) == sprites_view(old(sprites)@).map_values(
            |s: Sprite| linked(sprite_names(sprites_view(old(sprites)@)), s),
        ),
{
    let ghost start = sprites_view(sprites@);
    let ghost names_of = sprite_names(start);
    let names = collect_names(sprites);
    let mut i: usize = 0;
    while i < sprites.len()
        invariant
            i <= sprites@.len(),
            sprites@.len() == start.len(),
            names_view(names@) == names_of,
            forall|j: int|
                0 <= j < i ==> (#[trigger] sprites@[j])@ == linked(names_of, start[j]),
            forall|j: int| i <= j < sprites@.len() ==> (#[trigger] sprites@[j])@ == start[j],
        decreases sprites@.len() - i,
    {
        set_link(&mut sprites[i], &names);
        assert(sprites@[i as int]@ == linked(names_of, start[i as int]));
        i = i + 1;
    }
    assert(sprites_view(sprites@) =~= start.map_values(|s: Sprite| linked(names_of, s)));
}

fn collect_infos(sprites: &Vec<EmoteStaticSprite>) -> (r: Vec<EmoteDrawFrameInfo>)
    ensures
        infos_view(r@) == sprites_view(sprites@).map_values(|s: Sprite| s.info),
{
    let mut r: Vec<EmoteDrawFrameInfo> = Vec::new();
    let mut i: usize = 0;
    let ghost want = sprites_view(sprites@).map_values(|s: Sprite| s.info);
    while i < sprites.len()
        invariant
            i <= sprites@.len(),
            want == sprites_view(sprites@).map_values(|s: Sprite| s.info),
            r@.len() == i,
            infos_view(r@) == want.take(i as int),
        decreases sprites@.len() - i,
    {
        r.push(sprites[i].draw_frame_info.duplicate());
        assert(infos_view(r@) =~= want.take(i + 1));
        i = i + 1;
    }
    assert(want.take(i as int) =~= want);
    r
}

/// Puts a traversal together to a scene.
pub fn finalize_scene(base_object: String, travel: Travel) -> (r: EmoteStaticScene)
    requires
        travel.wf(),
    ensures
        r@ == assembled(base_object@, travel@),
        r.wf(),
{
    let ghost trace = travel@;
    let mut sprites = arrange(travel.sprites);
    assert(views(travel.sprites@) =~= trace.sprites);
    assert(views(sprites@) =~= sprites_view(sprites@));
    number(&mut sprites);
    resolve_draw_frame_composite_links(&mut sprites);
    let names = collect_names(&sprites);
    let composite_mask_owners = resolve_composite_mask_owners(&names, &travel.mask_owners);
    let draw_frame_info = collect_infos(&sprites);
    let layer_states = arrange(travel.layer_states);
    assert(views(travel.layer_states@) =~= trace.layers);
    assert(views(layer_states@) =~= layers_view(layer_states@));
    let r = EmoteStaticScene {
        base_object,
        sprites,
        draw_frame_info,
        layer_states,
        composite_mask_owners,
    };
    proof {
        lemma_arranged_same_items::<EmoteStaticSprite>(trace.sprites);
        let row = arranged::<EmoteStaticSprite>(trace.sprites);
        assert forall|i: int| 0 <= i < r@.sprites.len() implies (#[trigger] r@.sprites[i]).wf() by {
            let p = lemma_arranged_origin::<EmoteStaticSprite>(trace.sprites, i);
            assert(trace.sprites[p].wf());
            assert(r@.sprites[i].mesh == row[i].mesh);
        }
    }
    r
}

/// The sprites of one motion.
pub open spec fn of_motion(sprites: Seq<Sprite>, motion: Seq<char>) -> Seq<Sprite>
    decreases sprites.len(),
{
    if sprites.len() == 0 {
        Seq::empty()
    } else {
        let before = of_motion(sprites.drop_last(), motion);
        if sprites.last().motion_name == motion {
            before.push(sprites.last())
        } else {
            before
        }
    }
}

impl Scene {
    pub open spec fn wf(self) -> bool {
        forall|i: int| 0 <= i < self.sprites.len() ==> (#[trigger] self.sprites[i]).wf()
    }
}

impl EmoteStaticScene {
    /// The owners are in order, and every mesh has all its points.
    pub open spec fn wf(&self) -> bool {
        &&& self.composite_mask_owners.wf()
        &&& self@.wf()
    }

    /// The bounds of what is seen, given where the sprites stand; none where nothing is
    /// seen.
    pub fn bounds(&self, stands: &Vec<Stand>) -> (r: Option<EmoteSceneBounds>)
        requires
            self.wf(),
            stands@.len() == self.sprites@.len(),
        ensures
            r == scene_bounds(self@.sprites, stands@),
    {
        assert forall|i: int| 0 <= i < self.sprites@.len() implies (#[trigger] self.sprites@[i])@.wf() by {
            assert(self@.sprites[i].wf());
        }
        compute_bounds(&self.sprites, stands)
    }

    /// Keeps only the sprites of one motion.
    pub fn filter_motion(self, motion_name: &str) -> (r: EmoteStaticScene)
        requires
            self.wf(),
        ensures
            r.wf(),
            r@ == (Scene { sprites: of_motion(self@.sprites, motion_name@), ..self@ }),
    {
        let ghost all = self@.sprites;
        let mut left = self.sprites;
        let n: usize = left.len();
        let mut kept: Vec<EmoteStaticSprite> = Vec::new();
        let mut i: usize = 0;
        // Moves the row over from the back, so that it comes out reversed.
        let mut reversed: Vec<EmoteStaticSprite> = Vec::new();
        assert(sprites_view(left@) =~= all.take(left@.len() as int));
        while left.len() > 0
            invariant
                left@.len() + reversed@.len() == all.len(),
                forall|j: int| 0 <= j < left@.len() ==> (#[trigger] left@[j])@ == all[j],
                forall|j: int|
                    0 <= j < reversed@.len() ==> (#[trigger] reversed@[j])@ == all[all.len() - 1
                        - j],
            decreases left@.len(),
        {
            if let Some(s) = left.pop() {
                reversed.push(s);
            }
        }
        assert(sprites_view(kept@) =~= of_motion(all.take(0), motion_name@));
        while reversed.len() > 0
            invariant
                i + reversed@.len() == all.len(),
                all.len() == n,
                forall|j: int|
                    0 <= j < reversed@.len() ==> (#[trigger] reversed@[j])@ == all[all.len() - 1
                        - j],
                sprites_view(kept@) == of_motion(all.take(i as int), motion_name@),
                forall|j: int| 0 <= j < all.len() ==> (#[trigger] all[j]).wf(),
                forall|j: int| 0 <= j < kept@.len() ==> (#[trigger] kept@[j])@.wf(),
            decreases reversed@.len(),
        {
            assert(all.take(i + 1).drop_last() =~= all.take(i as int));
            if let Some(s) = reversed.pop() {
                let ghost was = sprites_view(kept@);
                assert(s@ == all[i as int]);
                if same_text(s.motion_name.as_str(), motion_name) {
                    kept.push(s);
                    assert(sprites_view(kept@) =~= was.push(s@));
                }
            }
            i = i + 1;
        }
        assert(all.take(i as int) =~= all);
        let r = EmoteStaticScene {
            base_object: self.base_object,
            sprites: kept,
            draw_frame_info: self.draw_frame_info,
            layer_states: self.layer_states,
            composite_mask_owners: self.composite_mask_owners,
        };
        proof {
            assert forall|j: int| 0 <= j < r@.sprites.len() implies (#[trigger] r@.sprites[j]).wf() by {
                assert(kept@[j]@.wf());
            }
        }
        r
    }
}

/// The number of a sprite is its place in the row.
pub proof fn lemma_numbers_are_places(sprites: Seq<Sprite>, i: int)
    requires
        0 <= i < sprites.len(),
        sprites.len() <= usize::MAX,
    ensures
        drawing_order(sprites).len() == sprites.len(),
        drawing_order(sprites)[i].info.draw_index == i,
{
    lemma_arranged_same_items::<EmoteStaticSprite>(sprites);
}

/// Sprites whose depth is a number are drawn plane by plane, within a plane in the
/// order of their layers, then by depth and path.
pub proof fn lemma_drawn_in_order(sprites: Seq<Sprite>, i: int, j: int)
    requires
        forall|k: int| 0 <= k < sprites.len() ==> !(#[trigger] sprites[k]).z.is_nan(),
        0 <= i < j < sprites.len(),
    ensures
        !arranged::<EmoteStaticSprite>(sprites)[j].drawn_before(
            arranged::<EmoteStaticSprite>(sprites)[i],
        ),
        arranged::<EmoteStaticSprite>(sprites)[i].plane() <= arranged::<EmoteStaticSprite>(
            sprites,
        )[j].plane(),
{
    assert forall|a: int, b: int|
        0 <= a < sprites.len() && 0 <= b < sprites.len() && #[trigger] EmoteStaticSprite::ahead(
            sprites[a],
            sprites[b],
        ) implies !EmoteStaticSprite::ahead(sprites[b], sprites[a]) by {
        lemma_before_irreflexive(sprites[a].info.path);
        if before(sprites[a].info.path, sprites[b].info.path) && before(
            sprites[b].info.path,
            sprites[a].info.path,
        ) {
            lemma_before_transitive(
                sprites[a].info.path,
                sprites[b].info.path,
                sprites[a].info.path,
            );
        }
    }
    assert forall|a: int, b: int, c: int|
        0 <= a < sprites.len() && 0 <= b < sprites.len() && 0 <= c < sprites.len() && !(
        #[trigger] EmoteStaticSprite::ahead(sprites[b], sprites[a])) && !(
        #[trigger] EmoteStaticSprite::ahead(
            sprites[c],
            sprites[b],
        )) implies !EmoteStaticSprite::ahead(sprites[c], sprites[a]) by {
        let (x, y, z) = (sprites[a].info.path, sprites[b].info.path, sprites[c].info.path);
        lemma_not_before_transitive(x, y, z);
    }
    lemma_arranged_in_order::<EmoteStaticSprite>(sprites);
    lemma_arranged_same_items::<EmoteStaticSprite>(sprites);
    let row = arranged::<EmoteStaticSprite>(sprites);
    assert(!EmoteStaticSprite::ahead(row[j], row[i]));
}

proof fn lemma_not_before_transitive(x: Seq<char>, y: Seq<char>, z: Seq<char>)
    ensures
        !before(y, x) && !before(z, y) ==> !before(z, x),
{
    lemma_before_total(x, y);
    lemma_before_total(y, z);
    lemma_before_irreflexive(x);
    if !before(y, x) && !before(z, y) && before(z, x) {
        if x == y {
        } else if y == z {
        } else {
            lemma_before_transitive(x, y, z);
            lemma_before_transitive(x, z, x);
        }
    }
}

/// The layer states of a scene stand in the order of their paths.
pub proof fn lemma_layers_in_order(layers: Seq<LayerState>, i: int, j: int)
    requires
        0 <= i < j < layers.len(),
    ensures
        !before(
            arranged::<EmoteStepFrameLayerState>(layers)[j].path,
            arranged::<EmoteStepFrameLayerState>(layers)[i].path,
        ),
{
    assert forall|a: int, b: int|
        0 <= a < layers.len() && 0 <= b < layers.len()
            && #[trigger] EmoteStepFrameLayerState::ahead(
            layers[a],
            layers[b],
        ) implies !EmoteStepFrameLayerState::ahead(layers[b], layers[a]) by {
        lemma_before_irreflexive(layers[a].path);
        if before(layers[b].path, layers[a].path) {
            lemma_before_transitive(layers[a].path, layers[b].path, layers[a].path);
        }
    }
    assert forall|a: int, b: int, c: int|
        0 <= a < layers.len() && 0 <= b < layers.len() && 0 <= c < layers.len() && !(
        #[trigger] EmoteStepFrameLayerState::ahead(layers[b], layers[a])) && !(
        #[trigger] EmoteStepFrameLayerState::ahead(
            layers[c],
            layers[b],
        )) implies !EmoteStepFrameLayerState::ahead(layers[c], layers[a]) by {
        lemma_not_before_transitive(layers[a].path, layers[b].path, layers[c].path);
    }
    lemma_arranged_in_order::<EmoteStepFrameLayerState>(layers);
    lemma_arranged_same_items::<EmoteStepFrameLayerState>(layers);
    let row = arranged::<EmoteStepFrameLayerState>(layers);
    assert(!EmoteStepFrameLayerState::ahead(row[j], row[i]));
}

} // verus!
