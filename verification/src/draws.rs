//! The order in which the sprites of a scene are drawn, and through which masks.

use crate::arrange::views;
use crate::assembly::{EmoteStaticScene, Scene};
use crate::order::{keys, ordered, TextMap};
use crate::place::EmoteSceneBounds;
use crate::scene::{EmoteDrawPass, Sprite};
use crate::single::Single;
use crate::text::{opt_string, same_text, texts};
use vstd::prelude::*;

verus! {

/// A draw of a sprite. Mask sources say which mask they are part of, and which layer
/// owns it; other draws say through which mask they are seen, zero for none.
#[derive(Debug)]
pub struct PlannedDraw {
    pub sprite: usize,
    pub texture_slot: usize,
    pub pass: EmoteDrawPass,
    pub mask_reference: u32,
    pub parent_mask_reference: u32,
    pub composite_owner: Option<String>,
}

/// A `PlannedDraw` by its characters.
#[verifier::ext_equal]
pub struct Draw {
    pub sprite: int,
    pub texture_slot: int,
    pub pass: EmoteDrawPass,
    pub mask_reference: u32,
    pub parent_mask_reference: u32,
    pub composite_owner: Option<Seq<char>>,
}

impl View for PlannedDraw {
    type V = Draw;

    open spec fn view(&self) -> Draw {
        Draw {
            sprite: self.sprite as int,
            texture_slot: self.texture_slot as int,
            pass: self.pass,
            mask_reference: self.mask_reference,
            parent_mask_reference: self.parent_mask_reference,
            composite_owner: opt_string(self.composite_owner),
        }
    }
}

/// Why a scene cannot be drawn.
#[derive(Clone, Copy, Debug, PartialEq, Eq, Structural)]
pub enum DrawError {
    /// The texture of a draw is not loaded.
    NotLoaded { resource: u32 },
}

impl DrawError {
    /// The message for users.
    pub open spec fn spec_message(self) -> Seq<char> {
        "texture resource index was not loaded"@
    }

    pub fn message(self) -> (r: String)
        ensures
            r@ == self.spec_message(),
    {
        "texture resource index was not loaded".to_owned()
    }
}

/// Whether a draw only adds to a mask.
pub open spec fn spec_makes_mask(pass: EmoteDrawPass) -> bool {
    pass is MaskGeneration || pass is StencilCompositeMask
}

#[verifier::when_used_as_spec(spec_makes_mask)]
pub fn makes_mask(pass: EmoteDrawPass) -> (r: bool)
    ensures
        r == spec_makes_mask(pass),
{
    match pass {
        EmoteDrawPass::MaskGeneration => true,
        EmoteDrawPass::StencilCompositeMask => true,
        _ => false,
    }
}

/// The place of the texture of a resource.
pub open spec fn slot_of(slots: Seq<u32>, resource: u32) -> Option<int>
    decreases slots.len(),
{
    if slots.len() == 0 {
        None
    } else if slots[0] == resource {
        Some(0)
    } else {
        match slot_of(slots.drop_first(), resource) {
            Some(i) => Some(i + 1),
            None => None,
        }
    }
}

/// The last sprite among the first `n` that is seen and has a path.
pub open spec fn seen_at(sprites: Seq<Sprite>, path: Seq<char>, n: nat) -> Option<int>
    decreases n,
{
    if n == 0 || n > sprites.len() {
        None
    } else if sprites[n - 1].seen() && sprites[n - 1].info.path == path {
        Some(n - 1)
    } else {
        seen_at(sprites, path, (n - 1) as nat)
    }
}

/// The number of a mask by the place of its owner; all from the 255th on share one.
pub open spec fn reference_at(place: int) -> u32 {
    if place + 1 < 255 {
        (place + 1) as u32
    } else {
        255
    }
}

/// The number of the mask of an owner, zero where the path owns none.
pub open spec fn mask_of(owners: Seq<Seq<char>>, path: Seq<char>, n: nat) -> u32
    decreases n,
{
    if n == 0 || n > owners.len() {
        0
    } else if owners[n - 1] == path {
        reference_at(n - 1)
    } else {
        mask_of(owners, path, (n - 1) as nat)
    }
}

/// The draws with one more, where its texture is there.
pub open spec fn with_draw(
    draws: Result<Seq<Draw>, DrawError>,
    scene: Scene,
    slots: Seq<u32>,
    sprite: int,
    pass: EmoteDrawPass,
    mask_reference: u32,
    parent_mask_reference: u32,
    composite_owner: Option<Seq<char>>,
) -> Result<Seq<Draw>, DrawError> {
    let resource = scene.sprites[sprite].texture_resource_index;
    match draws {
        Err(e) => Err(e),
        Ok(row) => match slot_of(slots, resource) {
            Some(texture_slot) => Ok(
                row.push(
                    Draw {
                        sprite,
                        texture_slot,
                        pass,
                        mask_reference,
                        parent_mask_reference,
                        composite_owner,
                    },
                ),
            ),
            None => Err(DrawError::NotLoaded { resource }),
        },
    }
}

/// The draws of the first `n` sources of a mask; a source that is not seen is left
/// out.
pub open spec fn with_sources(
    draws: Result<Seq<Draw>, DrawError>,
    scene: Scene,
    slots: Seq<u32>,
    owner: Seq<char>,
    reference: u32,
    sources: Seq<Seq<char>>,
    n: nat,
) -> Result<Seq<Draw>, DrawError>
    decreases n,
{
    if n == 0 || n > sources.len() {
        draws
    } else {
        let rest = with_sources(draws, scene, slots, owner, reference, sources, (n - 1) as nat);
        match seen_at(scene.sprites, sources[n - 1], scene.sprites.len()) {
            Some(sprite) => with_draw(
                rest,
                scene,
                slots,
                sprite,
                EmoteDrawPass::MaskGeneration,
                reference,
                0,
                Some(owner),
            ),
            None => rest,
        }
    }
}

/// The draws of the sources of the first `n` masks.
pub open spec fn with_masks(
    scene: Scene,
    slots: Seq<u32>,
    owners: Seq<Seq<char>>,
    n: nat,
) -> Result<Seq<Draw>, DrawError>
    decreases n,
{
    if n == 0 || n > owners.len() {
        Ok(Seq::empty())
    } else {
        let owner = owners[n - 1];
        with_sources(
            with_masks(scene, slots, owners, (n - 1) as nat),
            scene,
            slots,
            owner,
            reference_at(n - 1),
            scene.owners[owner],
            scene.owners[owner].len(),
        )
    }
}

/// The number of the mask that a sprite is seen through.
pub open spec fn parent_mask(scene: Scene, owners: Seq<Seq<char>>, sprite: int) -> u32 {
    match scene.sprites[sprite].info.parent_mask_path {
        Some(path) => mask_of(owners, path, owners.len()),
        None => 0,
    }
}

/// The draws of the first `n` sprites behind those of the masks, in their order; a
/// sprite that is not seen is left out.
pub open spec fn with_sprites(
    scene: Scene,
    slots: Seq<u32>,
    owners: Seq<Seq<char>>,
    n: nat,
) -> Result<Seq<Draw>, DrawError>
    decreases n,
{
    if n == 0 || n > scene.sprites.len() {
        with_masks(scene, slots, owners, owners.len())
    } else {
        let rest = with_sprites(scene, slots, owners, (n - 1) as nat);
        let sprite = scene.sprites[n - 1];
        if sprite.seen() {
            with_draw(
                rest,
                scene,
                slots,
                n - 1,
                sprite.info.pass,
                0,
                parent_mask(scene, owners, n - 1),
                None,
            )
        } else {
            rest
        }
    }
}

/// All draws of a scene, or the first one whose texture is not loaded.
pub open spec fn planned_draws(scene: Scene, slots: Seq<u32>) -> Result<Seq<Draw>, DrawError> {
    with_sprites(scene, slots, ordered(scene.owners.dom()), scene.sprites.len())
}

/// A row of draws by its characters, or why there is none.
pub open spec fn draws_of(v: Result<Vec<PlannedDraw>, DrawError>) -> Result<Seq<Draw>, DrawError> {
    match v {
        Ok(row) => Ok(views(row@)),
        Err(e) => Err(e),
    }
}

fn find_slot_of(slots: &Vec<u32>, resource: u32) -> (r: Option<usize>)
    ensures
        slot_of(slots@, resource) == (match r {
            Some(i) => Some(i as int),
            None => None,
        }),
{
    let mut i: usize = 0;
    assert(slots@.skip(0) =~= slots@);
    while i < slots.len()
        invariant
            i <= slots@.len(),
            slot_of(slots@, resource) == (match slot_of(slots@.skip(i as int), resource) {
                Some(k) => Some(k + i),
                None => None,
            }),
        decreases slots@.len() - i,
    {
        let ghost rest = slots@.skip(i as int);
        assert(rest[0] == slots@[i as int]);
        assert(rest.drop_first() =~= slots@.skip(i + 1));
        if slots[i] == resource {
            return Some(i);
        }
        i = i + 1;
    }
    None
}

fn find_seen(scene: &EmoteStaticScene, path: &str) -> (r: Option<usize>)
    ensures
        seen_at(scene@.sprites, path@, scene@.sprites.len()) == (match r {
            Some(i) => Some(i as int),
            None => None,
        }),
        r matches Some(i) ==> i < scene.sprites@.len(),
{
    let mut i: usize = scene.sprites.len();
    assert(scene@.sprites.len() == scene.sprites@.len());
    while i > 0
        invariant
            i <= scene.sprites@.len(),
            scene@.sprites.len() == scene.sprites@.len(),
            seen_at(scene@.sprites, path@, scene@.sprites.len()) == seen_at(
                scene@.sprites,
                path@,
                i as nat,
            ),
        decreases i,
    {
        let s = &scene.sprites[i - 1];
        assert(scene@.sprites[i - 1] == s@);
        if s.visible && Single::zero().lt(s.opacity) && same_text(
            s.draw_frame_info.path.as_str(),
            path,
        ) {
            return Some(i - 1);
        }
        i = i - 1;
    }
    None
}

fn find_reference(place: usize) -> (r: u32)
    ensures
        r == reference_at(place as int),
{
    if place < 254 {
        (place + 1) as u32
    } else {
        255
    }
}

fn find_mask_of(owners: &TextMap<Vec<String>>, path: &str) -> (r: u32)
    requires
        owners.wf(),
    ensures
        r == mask_of(keys(owners.entries@), path@, keys(owners.entries@).len()),
{
    let ghost names = keys(owners.entries@);
    let mut i: usize = owners.entries.len();
    while i > 0
        invariant
            i <= owners.entries@.len(),
            names == keys(owners.entries@),
            names.len() == owners.entries@.len(),
            mask_of(names, path@, names.len()) == mask_of(names, path@, i as nat),
        decreases i,
    {
        if same_text(owners.entries[i - 1].0.as_str(), path) {
            return find_reference(i - 1);
        }
        i = i - 1;
    }
    0
}

fn push_draw(
    draws: &mut Vec<PlannedDraw>,
    scene: &EmoteStaticScene,
    slots: &Vec<u32>,
    sprite: usize,
    pass: EmoteDrawPass,
    mask_reference: u32,
    parent_mask_reference: u32,
    composite_owner: Option<String>,
) -> (r: Result<(), DrawError>)
    requires
        sprite < scene.sprites@.len(),
    ensures
        with_draw(
            Ok(views(old(draws)@)),
            scene@,
            slots@,
            sprite as int,
            pass,
            mask_reference,
            parent_mask_reference,
            opt_string(composite_owner),
        ) == (match r {
            Ok(_) => Ok(views(final(draws)@)),
            Err(e) => Err(e),
        }),
{
    let ghost before = views(draws@);
    assert(scene@.sprites[sprite as int] == scene.sprites@[sprite as int]@);
    let resource: u32 = scene.sprites[sprite].texture_resource_index;
    match find_slot_of(slots, resource) {
        Some(texture_slot) => {
            let draw = PlannedDraw {
                sprite,
                texture_slot,
                pass,
                mask_reference,
                parent_mask_reference,
                composite_owner,
            };
            draws.push(draw);
            assert(views(draws@) =~= before.push(draw@));
            Ok(())
        },
        None => Err(DrawError::NotLoaded { resource }),
    }
}

/// A draw that fails once fails for good.
proof fn lemma_sources_fail(
    e: DrawError,
    scene: Scene,
    slots: Seq<u32>,
    owner: Seq<char>,
    reference: u32,
    sources: Seq<Seq<char>>,
    n: nat,
)
    ensures
        with_sources(Err(e), scene, slots, owner, reference, sources, n) == Err::<Seq<Draw>, DrawError>(e),
    decreases n,
{
    if n > 0 && n <= sources.len() {
        lemma_sources_fail(e, scene, slots, owner, reference, sources, (n - 1) as nat);
    }
}

proof fn lemma_sources_stay_failed(
    e: DrawError,
    draws: Result<Seq<Draw>, DrawError>,
    scene: Scene,
    slots: Seq<u32>,
    owner: Seq<char>,
    reference: u32,
    sources: Seq<Seq<char>>,
    m: nat,
    n: nat,
)
    requires
        m <= n,
        n <= sources.len(),
        with_sources(draws, scene, slots, owner, reference, sources, m) == Err::<Seq<Draw>, DrawError>(e),
    ensures
        with_sources(draws, scene, slots, owner, reference, sources, n) == Err::<Seq<Draw>, DrawError>(e),
    decreases n,
{
    if m < n {
        lemma_sources_stay_failed(
            e,
            draws,
            scene,
            slots,
            owner,
            reference,
            sources,
            m,
            (n - 1) as nat,
        );
    }
}

proof fn lemma_masks_stay_failed(
    e: DrawError,
    scene: Scene,
    slots: Seq<u32>,
    owners: Seq<Seq<char>>,
    m: nat,
    n: nat,
)
    requires
        m <= n,
        n <= owners.len(),
        with_masks(scene, slots, owners, m) == Err::<Seq<Draw>, DrawError>(e),
    ensures
        with_masks(scene, slots, owners, n) == Err::<Seq<Draw>, DrawError>(e),
    decreases n,
{
    if m < n {
        lemma_masks_stay_failed(e, scene, slots, owners, m, (n - 1) as nat);
        let owner = owners[n - 1];
        lemma_sources_fail(
            e,
            scene,
            slots,
            owner,
            reference_at(n - 1),
            scene.owners[owner],
            scene.owners[owner].len(),
        );
    }
}

proof fn lemma_sprites_stay_failed(
    e: DrawError,
    scene: Scene,
    slots: Seq<u32>,
    owners: Seq<Seq<char>>,
    m: nat,
    n: nat,
)
    requires
        m <= n,
        n <= scene.sprites.len(),
        with_sprites(scene, slots, owners, m) == Err::<Seq<Draw>, DrawError>(e),
    ensures
        with_sprites(scene, slots, owners, n) == Err::<Seq<Draw>, DrawError>(e),
    decreases n,
{
    if m < n {
        lemma_sprites_stay_failed(e, scene, slots, owners, m, (n - 1) as nat);
    }
}

fn push_sources(
    draws: &mut Vec<PlannedDraw>,
    scene: &EmoteStaticScene,
    slots: &Vec<u32>,
    owner: &str,
    reference: u32,
    sources: &Vec<String>,
) -> (r: Result<(), DrawError>)
    ensures
        with_sources(
            Ok(views(old(draws)@)),
            scene@,
            slots@,
            owner@,
            reference,
            texts(sources@),
            texts(sources@).len(),
        ) == (match r {
            Ok(_) => Ok(views(final(draws)@)),
            Err(e) => Err(e),
        }),
{
    let ghost start = Ok::<Seq<Draw>, DrawError>(views(draws@));
    let ghost all = texts(sources@);
    let mut i: usize = 0;
    while i < sources.len()
        invariant
            i <= sources@.len(),
            all == texts(sources@),
            start == Ok::<Seq<Draw>, DrawError>(views(old(draws)@)),
            with_sources(start, scene@, slots@, owner@, reference, all, i as nat) == Ok::<Seq<Draw>, DrawError>(
                views(draws@),
            ),
        decreases sources@.len() - i,
    {
        assert(all[i as int] == sources@[i as int]@);
        match find_seen(scene, sources[i].as_str()) {
            Some(sprite) => {
                if let Err(e) = push_draw(
                    draws,
                    scene,
                    slots,
                    sprite,
                    EmoteDrawPass::MaskGeneration,
                    reference,
                    0,
                    Some(owner.to_owned()),
                ) {
                    proof {
                        assert(with_sources(
                            start,
                            scene@,
                            slots@,
                            owner@,
                            reference,
                            all,
                            (i + 1) as nat,
                        ) == Err::<Seq<Draw>, DrawError>(e));
                        lemma_sources_stay_failed(
                            e,
                            start,
                            scene@,
                            slots@,
                            owner@,
                            reference,
                            all,
                            (i + 1) as nat,
                            all.len(),
                        );
                    }
                    return Err(e);
                }
            },
            None => {},
        }
        i = i + 1;
    }
    Ok(())
}

/// Plans all draws of a scene: the sources of every mask first, then every sprite
/// that is seen. Where textures are not loaded, the error names the first one missed.
pub fn build_scene_draws(scene: &EmoteStaticScene, slots: &Vec<u32>) -> (r: Result<
    Vec<PlannedDraw>,
    DrawError,
>)
    requires
        scene.wf(),
    ensures
        draws_of(r) == planned_draws(scene@, slots@),
{
    let owners = &scene.composite_mask_owners;
    let ghost names = keys(owners.entries@);
    let mut draws: Vec<PlannedDraw> = Vec::new();
    let mut i: usize = 0;
    proof {
        owners.lemma_ordered();
        assert(scene@.owners.dom() =~= owners@.dom());
        assert(views(draws@) =~= Seq::<Draw>::empty());
    }
    while i < owners.entries.len()
        invariant
            i <= owners.entries@.len(),
            scene.wf(),
            *owners == scene.composite_mask_owners,
            names == keys(owners.entries@),
            names == ordered(scene@.owners.dom()),
            with_masks(scene@, slots@, names, i as nat) == Ok::<Seq<Draw>, DrawError>(views(draws@)),
        decreases owners.entries@.len() - i,
    {
        proof {
            owners.lemma_entry(i as int);
            assert(scene@.owners[names[i as int]] == texts(owners.entries@[i as int].1@));
        }
        let reference = find_reference(i);
        if let Err(e) = push_sources(
            &mut draws,
            scene,
            slots,
            owners.entries[i].0.as_str(),
            reference,
            &owners.entries[i].1,
        ) {
            proof {
                assert(with_masks(scene@, slots@, names, (i + 1) as nat) == Err::<Seq<Draw>, DrawError>(e));
                lemma_masks_stay_failed(e, scene@, slots@, names, (i + 1) as nat, names.len());
                assert(with_sprites(scene@, slots@, names, 0) == Err::<Seq<Draw>, DrawError>(e));
                lemma_sprites_stay_failed(e, scene@, slots@, names, 0, scene@.sprites.len());
            }
            return Err(e);
        }
        i = i + 1;
    }
    let mut k: usize = 0;
    assert(scene@.sprites.len() == scene.sprites@.len());
    while k < scene.sprites.len()
        invariant
            k <= scene.sprites@.len(),
            scene.wf(),
            scene@.sprites.len() == scene.sprites@.len(),
            *owners == scene.composite_mask_owners,
            names == keys(owners.entries@),
            names == ordered(scene@.owners.dom()),
            with_sprites(scene@, slots@, names, k as nat) == Ok::<Seq<Draw>, DrawError>(views(draws@)),
        decreases scene.sprites@.len() - k,
    {
        let s = &scene.sprites[k];
        assert(scene@.sprites[k as int] == s@);
        if s.visible && Single::zero().lt(s.opacity) {
            let parent = match &s.draw_frame_info.parent_mask_path {
                Some(path) => find_mask_of(owners, path.as_str()),
                None => 0,
            };
            assert(parent == parent_mask(scene@, names, k as int));
            if let Err(e) = push_draw(&mut draws, scene, slots, k, s.draw_frame_info.pass, 0, parent, None) {
                proof {
                    assert(with_sprites(scene@, slots@, names, (k + 1) as nat) == Err::<Seq<Draw>, DrawError>(e));
                    lemma_sprites_stay_failed(
                        e,
                        scene@,
                        slots@,
                        names,
                        (k + 1) as nat,
                        scene@.sprites.len(),
                    );
                }
                return Err(e);
            }
        }
        k = k + 1;
    }
    Ok(draws)
}

/// The bounds that a scene is shown in: its own, else a square around the origin.
pub open spec fn spec_shown_bounds(bounds: Option<EmoteSceneBounds>) -> EmoteSceneBounds {
    match bounds {
        Some(b) => b,
        None => EmoteSceneBounds {
            min_x: Single::one().neg(),
            min_y: Single::one().neg(),
            max_x: Single::one(),
            max_y: Single::one(),
        },
    }
}

#[verifier::when_used_as_spec(spec_shown_bounds)]
pub fn shown_bounds(bounds: Option<EmoteSceneBounds>) -> (r: EmoteSceneBounds)
    ensures
        r == spec_shown_bounds(bounds),
{
    match bounds {
        Some(b) => b,
        None => EmoteSceneBounds {
            min_x: Single::one().neg(),
            min_y: Single::one().neg(),
            max_x: Single::one(),
            max_y: Single::one(),
        },
    }
}

} // verus!
