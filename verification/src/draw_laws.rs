//! What holds of the plan of a frame: which sprites are drawn, in which order, and through
//! which masks.

use crate::assembly::Scene;
use crate::diagnostics::{covers, drawn_above};
use crate::draws::{
    makes_mask, mask_of, parent_mask, planned_draws, reference_at, seen_at, slot_of, with_draw,
    with_masks, with_sources, with_sprites, Draw, DrawError,
};
use crate::dyadic::{is_ratio, lemma_ratio_order};
use crate::frame_plan::{color_count, color_steps, mask_items, render_order, ColorStep};
use crate::order::{ascending, before, lemma_before_irreflexive, lemma_ordered_is, ordered};
use crate::play_laws::lemma_whole_rounds;
use crate::range_laws::lemma_mask_is_found;
use crate::raster::ground;
use crate::scene::{EmoteDrawPass, Sprite};
use vstd::prelude::*;

verus! {

/// Of two sprites on whole depths the one that lies deeper is drawn first, whatever else
/// holds of them; on one depth the one with the lower number is.
pub proof fn lemma_deeper_sprites_come_first(a: Sprite, b: Sprite, n: int, m: int)
    requires
        is_ratio(a.z, n, 0),
        is_ratio(b.z, m, 0),
        -0x100_0000 <= n <= 0x100_0000,
        -0x100_0000 <= m <= 0x100_0000,
    ensures
        n < m ==> a.drawn_before(b) && !b.drawn_before(a),
        n == m && a.info.draw_index < b.info.draw_index ==> a.drawn_before(b) && !b.drawn_before(
            a,
        ),
{
    lemma_whole_rounds(a.z, n);
    lemma_whole_rounds(b.z, m);
    lemma_ratio_order(a.z, n, b.z, m, 0);
}

/// The draws that add to a mask are those that are made for it and whose texture is there.
pub proof fn lemma_mask_is_made_of_its_sources(
    draws: Seq<Draw>,
    reference: u32,
    textures: int,
    n: nat,
    i: int,
)
    requires
        n <= draws.len(),
    ensures
        mask_items(draws, reference, textures, n).contains(i) <==> {
            &&& 0 <= i < n
            &&& draws[i].mask_reference == reference
            &&& makes_mask(draws[i].pass)
            &&& draws[i].texture_slot < textures
        },
    decreases n,
{
    if n > 0 {
        let rest = mask_items(draws, reference, textures, (n - 1) as nat);
        let all = mask_items(draws, reference, textures, n);
        lemma_mask_is_made_of_its_sources(draws, reference, textures, (n - 1) as nat, i);
        lemma_mask_is_made_of_its_sources(draws, reference, textures, (n - 1) as nat, n - 1);
        if all.len() > rest.len() {
            assert(all == rest.push(n - 1));
            assert(all[rest.len() as int] == n - 1);
            if rest.contains(i) {
                let k = choose|k: int| 0 <= k < rest.len() && rest[k] == i;
                assert(all[k] == i);
            }
            if all.contains(i) && i != n - 1 {
                let k = choose|k: int| 0 <= k < all.len() && all[k] == i;
                assert(rest[k] == i);
            }
        }
    }
}

/// The colour pass draws what shows colour, has its texture, and whose mask, where it is
/// seen through one, is there; and it draws each of them through its own mask.
pub proof fn lemma_color_pass_draws(
    draws: Seq<Draw>,
    textures: int,
    masks: Seq<u32>,
    n: nat,
    i: int,
)
    requires
        n <= draws.len() <= usize::MAX,
        0 <= i < n,
    ensures
        color_steps(draws, textures, masks, n).0.contains(
            ColorStep::Draw { draw: i as usize, reference: draws[i].parent_mask_reference },
        ) <==> {
            &&& !makes_mask(draws[i].pass)
            &&& draws[i].texture_slot < textures
            &&& draws[i].parent_mask_reference == 0 || masks.contains(
                draws[i].parent_mask_reference,
            )
        },
    decreases n,
{
    let (rest, mode) = color_steps(draws, textures, masks, (n - 1) as nat);
    let all = color_steps(draws, textures, masks, n).0;
    let step = ColorStep::Draw { draw: i as usize, reference: draws[i].parent_mask_reference };
    lemma_steps_are_earlier(draws, textures, masks, (n - 1) as nat);
    if i < n - 1 {
        lemma_color_pass_draws(draws, textures, masks, (n - 1) as nat, i);
    } else {
        assert(!rest.contains(step));
    }
    assert forall|k: int| 0 <= k < rest.len() implies all[k] == rest[k] by {}
    if rest.contains(step) {
        let k = choose|k: int| 0 <= k < rest.len() && rest[k] == step;
        assert(all[k] == step);
    }
    if all.contains(step) {
        let k = choose|k: int| 0 <= k < all.len() && all[k] == step;
        if k < rest.len() {
            assert(rest[k] == step);
        }
    }
    if all.len() > rest.len() {
        assert(all.last() == all[all.len() - 1]);
    }
}

proof fn lemma_steps_are_earlier(draws: Seq<Draw>, textures: int, masks: Seq<u32>, n: nat)
    requires
        n <= draws.len() <= usize::MAX,
    ensures
        forall|k: int|
            0 <= k < color_steps(draws, textures, masks, n).0.len() ==> (#[trigger] color_steps(
                draws,
                textures,
                masks,
                n,
            ).0[k] matches ColorStep::Draw { draw, reference } ==> draw < n),
    decreases n,
{
    if n > 0 {
        lemma_steps_are_earlier(draws, textures, masks, (n - 1) as nat);
    }
}

/// The places in the colour pass are counted through, from zero, over all draws that show
/// colour.
pub proof fn lemma_places_are_counted(draws: Seq<Draw>, n: nat, i: int)
    requires
        n <= draws.len(),
        0 <= i < n,
    ensures
        render_order(draws, n).len() == n,
        makes_mask(draws[i].pass) ==> render_order(draws, n)[i] is None,
        !makes_mask(draws[i].pass) ==> render_order(draws, n)[i] == Some(
            draws.take(i).filter(|d: Draw| !makes_mask(d.pass)).len() as int,
        ),
    decreases n,
{
    lemma_count(draws, i as nat);
    if i < n - 1 {
        lemma_places_are_counted(draws, (n - 1) as nat, i);
    } else if n > 1 {
        lemma_places_are_counted(draws, (n - 1) as nat, 0);
    } else {
        assert(render_order(draws, 0).len() == 0);
    }
}

proof fn lemma_count(draws: Seq<Draw>, n: nat)
    requires
        n <= draws.len(),
    ensures
        color_count(draws, n) == draws.take(n as int).filter(|d: Draw| !makes_mask(d.pass)).len(),
    decreases n,
{
    reveal(Seq::filter);
    if n > 0 {
        lemma_count(draws, (n - 1) as nat);
        assert(draws.take(n as int).drop_last() =~= draws.take(n - 1));
    }
}

/// A frame starts as an even, opaque dark ground.
pub proof fn lemma_ground_is_even(pixels: nat, i: int)
    requires
        0 <= i < pixels,
    ensures
        ground(pixels).len() == 4 * pixels,
        ground(pixels)[4 * i] == 13,
        ground(pixels)[4 * i + 1] == 13,
        ground(pixels)[4 * i + 2] == 16,
        ground(pixels)[4 * i + 3] == 255,
    decreases pixels,
{
    if pixels == 1 {
        assert(ground(0).len() == 0);
    } else if i < pixels - 1 {
        lemma_ground_is_even((pixels - 1) as nat, i);
    } else {
        lemma_ground_is_even((pixels - 1) as nat, 0);
    }
}

/// Whether a draw shows a sprite that is seen, with the texture of that sprite.
pub open spec fn shows_its_sprite(scene: Scene, slots: Seq<u32>, d: Draw) -> bool {
    &&& 0 <= d.sprite < scene.sprites.len()
    &&& scene.sprites[d.sprite].seen()
    &&& 0 <= d.texture_slot < slots.len()
    &&& slots[d.texture_slot] == scene.sprites[d.sprite].texture_resource_index
}

/// Whether all draws of a plan show their sprites.
pub open spec fn all_show(
    scene: Scene,
    slots: Seq<u32>,
    draws: Result<Seq<Draw>, DrawError>,
) -> bool {
    draws matches Ok(row) ==> forall|k: int|
        0 <= k < row.len() ==> shows_its_sprite(scene, slots, #[trigger] row[k])
}

proof fn lemma_slot(slots: Seq<u32>, resource: u32)
    ensures
        slot_of(slots, resource) matches Some(i) ==> 0 <= i < slots.len() && slots[i] == resource,
        slot_of(slots, resource) is Some <==> slots.contains(resource),
    decreases slots.len(),
{
    if slots.len() > 0 && slots[0] != resource {
        let rest = slots.drop_first();
        lemma_slot(rest, resource);
        if let Some(i) = slot_of(rest, resource) {
            assert(rest[i] == slots[i + 1]);
        }
        if slots.contains(resource) {
            let k = choose|k: int| 0 <= k < slots.len() && slots[k] == resource;
            assert(rest[k - 1] == resource);
        }
    } else if slots.len() > 0 {
        assert(slots[0] == resource);
    }
}

proof fn lemma_with_draw(
    draws: Result<Seq<Draw>, DrawError>,
    scene: Scene,
    slots: Seq<u32>,
    sprite: int,
    d: Draw,
)
    requires
        0 <= sprite < scene.sprites.len(),
        scene.sprites[sprite].seen(),
        all_show(scene, slots, draws),
    ensures
        all_show(
            scene,
            slots,
            with_draw(
                draws,
                scene,
                slots,
                sprite,
                d.pass,
                d.mask_reference,
                d.parent_mask_reference,
                d.composite_owner,
            ),
        ),
{
    lemma_slot(slots, scene.sprites[sprite].texture_resource_index);
}

proof fn lemma_seen_at(sprites: Seq<Sprite>, path: Seq<char>, n: nat)
    requires
        n <= sprites.len(),
    ensures
        seen_at(sprites, path, n) matches Some(i) ==> 0 <= i < n && sprites[i].seen()
            && sprites[i].info.path == path,
    decreases n,
{
    if n > 0 {
        lemma_seen_at(sprites, path, (n - 1) as nat);
    }
}

proof fn lemma_sources_show(
    draws: Result<Seq<Draw>, DrawError>,
    scene: Scene,
    slots: Seq<u32>,
    owner: Seq<char>,
    reference: u32,
    sources: Seq<Seq<char>>,
    n: nat,
)
    requires
        all_show(scene, slots, draws),
    ensures
        all_show(scene, slots, with_sources(draws, scene, slots, owner, reference, sources, n)),
    decreases n,
{
    if n > 0 && n <= sources.len() {
        lemma_sources_show(draws, scene, slots, owner, reference, sources, (n - 1) as nat);
        lemma_seen_at(scene.sprites, sources[n - 1], scene.sprites.len());
        let rest = with_sources(draws, scene, slots, owner, reference, sources, (n - 1) as nat);
        if let Some(sprite) = seen_at(scene.sprites, sources[n - 1], scene.sprites.len()) {
            let d = Draw {
                sprite,
                texture_slot: 0,
                pass: EmoteDrawPass::MaskGeneration,
                mask_reference: reference,
                parent_mask_reference: 0,
                composite_owner: Some(owner),
            };
            lemma_with_draw(rest, scene, slots, sprite, d);
        }
    }
}

proof fn lemma_masks_show(scene: Scene, slots: Seq<u32>, owners: Seq<Seq<char>>, n: nat)
    ensures
        all_show(scene, slots, with_masks(scene, slots, owners, n)),
    decreases n,
{
    if n > 0 && n <= owners.len() {
        lemma_masks_show(scene, slots, owners, (n - 1) as nat);
        let owner = owners[n - 1];
        lemma_sources_show(
            with_masks(scene, slots, owners, (n - 1) as nat),
            scene,
            slots,
            owner,
            reference_at(n - 1),
            scene.owners[owner],
            scene.owners[owner].len(),
        );
    }
}

/// Whether a draw shows a sprite for its own sake.
pub open spec fn draws_sprite(scene: Scene, d: Draw, i: int) -> bool {
    &&& d.sprite == i
    &&& d.composite_owner is None
    &&& d.pass == scene.sprites[i].info.pass
    &&& d.mask_reference == 0
    &&& scene.sprites[i].info.parent_mask_path is None ==> d.parent_mask_reference == 0
}

proof fn lemma_sprites_show(scene: Scene, slots: Seq<u32>, owners: Seq<Seq<char>>, n: nat, i: int)
    requires
        n <= scene.sprites.len(),
        0 <= i < n,
    ensures
        all_show(scene, slots, with_sprites(scene, slots, owners, n)),
        scene.sprites[i].seen() ==> (with_sprites(scene, slots, owners, n) matches Ok(row)
            ==> exists|k: int| 0 <= k < row.len() && draws_sprite(scene, #[trigger] row[k], i)),
    decreases n,
{
    let fewer = (n - 1) as nat;
    let rest = with_sprites(scene, slots, owners, fewer);
    if fewer == 0 {
        lemma_masks_show(scene, slots, owners, owners.len());
    } else if i < fewer {
        lemma_sprites_show(scene, slots, owners, fewer, i);
    } else {
        lemma_sprites_show(scene, slots, owners, fewer, 0);
    }
    let sprite = scene.sprites[n - 1];
    if sprite.seen() {
        let d = Draw {
            sprite: n - 1,
            texture_slot: 0,
            pass: sprite.info.pass,
            mask_reference: 0,
            parent_mask_reference: parent_mask(scene, owners, n - 1),
            composite_owner: None,
        };
        lemma_with_draw(rest, scene, slots, n - 1, d);
        if let Ok(row) = with_sprites(scene, slots, owners, n) {
            let before = rest->Ok_0;
            assert(row.len() == before.len() + 1);
            assert(row[row.len() - 1].sprite == n - 1);
            if i < fewer && scene.sprites[i].seen() {
                let k = choose|k: int|
                    0 <= k < before.len() && draws_sprite(scene, #[trigger] before[k], i);
                assert(row[k] == before[k]);
            } else if i == n - 1 {
                assert(draws_sprite(scene, row[row.len() - 1], i));
            }
        }
    }
}

/// A frame draws every sprite that is seen, in its own pass, and nothing that is not seen;
/// each draw takes the texture of its sprite.
pub proof fn lemma_seen_sprites_are_drawn(scene: Scene, slots: Seq<u32>, i: int)
    requires
        0 <= i < scene.sprites.len(),
        planned_draws(scene, slots) is Ok,
    ensures
        ({
            let row = planned_draws(scene, slots)->Ok_0;
            &&& scene.sprites[i].seen() ==> exists|k: int|
                0 <= k < row.len() && draws_sprite(scene, #[trigger] row[k], i)
            &&& !scene.sprites[i].seen() ==> forall|k: int|
                0 <= k < row.len() ==> (#[trigger] row[k]).sprite != i
            &&& forall|k: int|
                0 <= k < row.len() ==> shows_its_sprite(scene, slots, #[trigger] row[k])
        }),
{
    lemma_sprites_show(scene, slots, ordered(scene.owners.dom()), scene.sprites.len(), i);
    let row = planned_draws(scene, slots)->Ok_0;
    if !scene.sprites[i].seen() {
        assert forall|k: int| 0 <= k < row.len() implies (#[trigger] row[k]).sprite != i by {
            assert(shows_its_sprite(scene, slots, row[k]));
        }
    }
}

/// The source of a mask is the last sprite with its path that is seen: it is found where
/// there is one, and none is seen behind it.
pub proof fn lemma_source_is_the_last_one_seen(
    sprites: Seq<Sprite>,
    path: Seq<char>,
    n: nat,
    i: int,
)
    requires
        n <= sprites.len(),
        0 <= i < n,
        sprites[i].seen(),
        sprites[i].info.path == path,
    ensures
        seen_at(sprites, path, n) is Some,
        i <= seen_at(sprites, path, n)->0 < n,
        sprites[seen_at(sprites, path, n)->0].seen(),
        sprites[seen_at(sprites, path, n)->0].info.path == path,
    decreases n,
{
    if i < n - 1 {
        lemma_source_is_the_last_one_seen(sprites, path, (n - 1) as nat, i);
    }
}

/// Whether a draw has the number of the mask that it is for: a source that of its owner, a
/// sprite that of the owner above it.
pub open spec fn has_its_mask(scene: Scene, owners: Seq<Seq<char>>, d: Draw) -> bool {
    match d.composite_owner {
        Some(owner) => owners.contains(owner) && d.mask_reference == mask_of(
            owners,
            owner,
            owners.len(),
        ) && d.parent_mask_reference == 0,
        None => match scene.sprites[d.sprite].info.parent_mask_path {
            Some(path) => d.parent_mask_reference == mask_of(owners, path, owners.len()),
            None => d.parent_mask_reference == 0,
        },
    }
}

/// Whether all draws of a plan have their masks.
pub open spec fn all_have_their_mask(
    scene: Scene,
    owners: Seq<Seq<char>>,
    draws: Result<Seq<Draw>, DrawError>,
) -> bool {
    draws matches Ok(row) ==> forall|k: int|
        0 <= k < row.len() ==> has_its_mask(scene, owners, #[trigger] row[k])
}

proof fn lemma_sources_have_their_mask(
    draws: Result<Seq<Draw>, DrawError>,
    scene: Scene,
    slots: Seq<u32>,
    owners: Seq<Seq<char>>,
    at: int,
    sources: Seq<Seq<char>>,
    n: nat,
)
    requires
        0 <= at < owners.len(),
        owners.no_duplicates(),
        all_have_their_mask(scene, owners, draws),
    ensures
        all_have_their_mask(
            scene,
            owners,
            with_sources(draws, scene, slots, owners[at], reference_at(at), sources, n),
        ),
    decreases n,
{
    lemma_mask_is_found(owners, at, owners.len());
    assert(owners.contains(owners[at]));
    if n > 0 && n <= sources.len() {
        lemma_sources_have_their_mask(draws, scene, slots, owners, at, sources, (n - 1) as nat);
    }
}

proof fn lemma_masks_have_their_mask(
    scene: Scene,
    slots: Seq<u32>,
    owners: Seq<Seq<char>>,
    n: nat,
)
    requires
        n <= owners.len(),
        owners.no_duplicates(),
    ensures
        all_have_their_mask(scene, owners, with_masks(scene, slots, owners, n)),
    decreases n,
{
    if n > 0 {
        lemma_masks_have_their_mask(scene, slots, owners, (n - 1) as nat);
        let owner = owners[n - 1];
        lemma_sources_have_their_mask(
            with_masks(scene, slots, owners, (n - 1) as nat),
            scene,
            slots,
            owners,
            n - 1,
            scene.owners[owner],
            scene.owners[owner].len(),
        );
    }
}

proof fn lemma_sprites_have_their_mask(
    scene: Scene,
    slots: Seq<u32>,
    owners: Seq<Seq<char>>,
    n: nat,
)
    requires
        n <= scene.sprites.len(),
        owners.no_duplicates(),
    ensures
        all_have_their_mask(scene, owners, with_sprites(scene, slots, owners, n)),
    decreases n,
{
    if n == 0 {
        lemma_masks_have_their_mask(scene, slots, owners, owners.len());
    } else {
        lemma_sprites_have_their_mask(scene, slots, owners, (n - 1) as nat);
    }
}

/// A sprite is seen through the mask that the sources of the owner above it are drawn
/// into, and that is a mask; a sprite with no owner above it is seen through none.
pub proof fn lemma_sprites_are_seen_through_their_mask(
    scene: Scene,
    slots: Seq<u32>,
    names: Seq<Seq<char>>,
    source: int,
    sprite: int,
)
    requires
        ascending(names),
        names.to_set() == scene.owners.dom(),
        planned_draws(scene, slots) is Ok,
        0 <= source < planned_draws(scene, slots)->Ok_0.len(),
        0 <= sprite < planned_draws(scene, slots)->Ok_0.len(),
        planned_draws(scene, slots)->Ok_0[sprite].composite_owner is None,
    ensures
        ({
            let row = planned_draws(scene, slots)->Ok_0;
            let above = scene.sprites[row[sprite].sprite].info.parent_mask_path;
            &&& above is Some && row[source].composite_owner == above ==> row[source].mask_reference
                == row[sprite].parent_mask_reference && row[sprite].parent_mask_reference > 0
            &&& above is None ==> row[sprite].parent_mask_reference == 0
            &&& row[source].composite_owner is Some ==> row[source].parent_mask_reference == 0
        }),
{
    lemma_ordered_is(names, scene.owners.dom());
    assert forall|i: int, j: int| 0 <= i < names.len() && 0 <= j < names.len() && i != j implies names[i]
        != names[j] by {
        lemma_before_irreflexive(names[i]);
        if i < j {
            assert(before(names[i], names[j]));
        } else {
            assert(before(names[j], names[i]));
        }
    }
    lemma_sprites_have_their_mask(scene, slots, names, scene.sprites.len());
    let row = planned_draws(scene, slots)->Ok_0;
    assert(has_its_mask(scene, names, row[source]));
    assert(has_its_mask(scene, names, row[sprite]));
    if let Some(owner) = row[source].composite_owner {
        let a = choose|a: int| 0 <= a < names.len() && names[a] == owner;
        lemma_mask_is_found(names, a, names.len());
    }
}

/// What is drawn over a sprite comes behind it in the drawing order and is seen in colour;
/// as long as there is room, nothing of the kind is left out.
pub proof fn lemma_drawn_above(sprites: Seq<Sprite>, at: int, most: nat, n: int, k: int)
    requires
        0 <= at < n <= sprites.len(),
    ensures
        drawn_above(sprites, at, most, n).len() <= most,
        drawn_above(sprites, at, most, n).contains(k) ==> at < k < n && sprites[k].visible
            && !(sprites[k].info.pass is MaskGeneration),
        drawn_above(sprites, at, most, n).len() < most && at < k < n && sprites[k].seen() && !(
        sprites[k].info.pass is MaskGeneration) ==> drawn_above(sprites, at, most, n).contains(k),
    decreases n - at,
{
    if n > at + 1 {
        lemma_drawn_above(sprites, at, most, n - 1, k);
        let rest = drawn_above(sprites, at, most, n - 1);
        let all = drawn_above(sprites, at, most, n);
        if covers(sprites[n - 1]) && rest.len() < most {
            assert(all[rest.len() as int] == n - 1);
            if rest.contains(k) {
                let i = choose|i: int| 0 <= i < rest.len() && rest[i] == k;
                assert(all[i] == k);
            }
            if all.contains(k) && k != n - 1 {
                let i = choose|i: int| 0 <= i < all.len() && all[i] == k;
                assert(rest[i] == k);
            }
        }
    }
}

} // verus!
