//! What is done to draw a frame: the masks that it needs, and its draws in turn.

use crate::arrange::{lemma_arranged_same_items, views};
use crate::assembly::{assembled, lemma_numbers_are_places, EmoteStaticScene, Scene};
use crate::draws::{
    makes_mask, planned_draws, reference_at, with_masks, with_sources, with_sprites, Draw,
    DrawError,
    PlannedDraw,
};
use crate::mesh::Point;
use crate::order::ordered;
use crate::place::EmoteSceneBounds;
use crate::scene::{EmoteStaticSprite, Sprite};
use crate::single::Single;
use crate::travel::Trace;
use vstd::prelude::*;

verus! {

/// Whether a draw is seen through a mask.
pub open spec fn needs_mask(draws: Seq<Draw>, reference: u32) -> bool {
    reference != 0 && exists|i: int|
        0 <= i < draws.len() && (#[trigger] draws[i]).parent_mask_reference == reference
}

/// Whether a row of numbers rises.
pub open spec fn rising(row: Seq<u32>) -> bool {
    forall|i: int, j: int| 0 <= i < j < row.len() ==> row[i] < row[j]
}

/// Puts a number in its place in a rising row, where it is not there yet.
fn insert_rising(row: &mut Vec<u32>, n: u32)
    requires
        rising(old(row)@),
    ensures
        rising(final(row)@),
        forall|k: u32| #[trigger]
            final(row)@.contains(k) <==> old(row)@.contains(k) || k == n,
{
    let ghost before = row@;
    let mut at: usize = 0;
    while at < row.len() && row[at] < n
        invariant
            at <= row@.len(),
            row@ == before,
            forall|j: int| 0 <= j < at ==> row@[j] < n,
        decreases row@.len() - at,
    {
        at = at + 1;
    }
    if at < row.len() && row[at] == n {
        assert forall|k: u32| #[trigger] row@.contains(k) <==> before.contains(k) || k == n by {
            assert(before[at as int] == n);
        }
        return;
    }
    assert(rising(before));
    row.insert(at, n);
    assert forall|k: u32| #[trigger] row@.contains(k) <==> before.contains(k) || k == n by {
        if before.contains(k) {
            let j = choose|j: int| 0 <= j < before.len() && before[j] == k;
            if j < at {
                assert(row@[j] == k);
            } else {
                assert(row@[j + 1] == k);
            }
        }
        if row@.contains(k) {
            let j = choose|j: int| 0 <= j < row@.len() && row@[j] == k;
            if j < at {
                assert(before[j] == k);
            } else if j > at {
                assert(before[j - 1] == k);
            }
        }
        assert(row@[at as int] == n);
    }
}

/// The masks that the draws need, in rising order.
pub fn mask_references(draws: &Vec<PlannedDraw>) -> (r: Vec<u32>)
    ensures
        rising(r@),
        forall|k: u32| #[trigger] r@.contains(k) <==> needs_mask(views(draws@), k),
{
    let ghost all = views(draws@);
    let mut r: Vec<u32> = Vec::new();
    let mut i: usize = 0;
    while i < draws.len()
        invariant
            i <= draws@.len(),
            all == views(draws@),
            rising(r@),
            forall|k: u32| #[trigger] r@.contains(k) <==> needs_mask(all.take(i as int), k),
        decreases draws@.len() - i,
    {
        let n = draws[i].parent_mask_reference;
        let ghost before = r@;
        if n != 0 {
            insert_rising(&mut r, n);
        }
        proof {
            let shorter = all.take(i as int);
            let longer = all.take(i + 1);
            assert(longer[i as int] == draws@[i as int]@);
            assert forall|k: u32| #[trigger] r@.contains(k) <==> needs_mask(longer, k) by {
                if needs_mask(shorter, k) {
                    let j = choose|j: int|
                        0 <= j < shorter.len() && (#[trigger] shorter[j]).parent_mask_reference
                            == k;
                    assert(longer[j].parent_mask_reference == k);
                }
                if needs_mask(longer, k) {
                    let j = choose|j: int|
                        0 <= j < longer.len() && (#[trigger] longer[j]).parent_mask_reference == k;
                    if j < i {
                        assert(shorter[j].parent_mask_reference == k);
                    }
                }
                assert(before.contains(k) <==> needs_mask(shorter, k));
            }
        }
        i = i + 1;
    }
    assert(all.take(i as int) =~= all);
    r
}

/// The first `n` draws that add to a mask, as far as their textures are there.
pub open spec fn mask_items(draws: Seq<Draw>, reference: u32, textures: int, n: nat) -> Seq<int>
    decreases n,
{
    if n == 0 || n > draws.len() {
        Seq::empty()
    } else {
        let rest = mask_items(draws, reference, textures, (n - 1) as nat);
        let d = draws[n - 1];
        if d.mask_reference == reference && makes_mask(d.pass) && d.texture_slot < textures {
            rest.push(n - 1)
        } else {
            rest
        }
    }
}

/// The places as mathematical numbers.
pub open spec fn places(v: Seq<usize>) -> Seq<int> {
    v.map_values(|i: usize| i as int)
}

/// Finds the draws that add to a mask.
pub fn mask_pass(draws: &Vec<PlannedDraw>, reference: u32, textures: usize) -> (r: Vec<usize>)
    ensures
        places(r@) == mask_items(views(draws@), reference, textures as int, draws@.len()),
{
    let ghost all = views(draws@);
    let mut r: Vec<usize> = Vec::new();
    let mut i: usize = 0;
    assert(places(r@) =~= Seq::<int>::empty());
    while i < draws.len()
        invariant
            i <= draws@.len(),
            all == views(draws@),
            places(r@) == mask_items(all, reference, textures as int, i as nat),
        decreases draws@.len() - i,
    {
        let d = &draws[i];
        assert(all[i as int] == d@);
        let ghost before = places(r@);
        if d.mask_reference == reference && makes_mask(d.pass) && d.texture_slot < textures {
            r.push(i);
            assert(places(r@) =~= before.push(i as int));
        }
        i = i + 1;
    }
    r
}

/// How colour is drawn: not at all yet, plainly, or through a mask.
#[derive(Clone, Copy, Debug, PartialEq, Eq, Structural)]
pub enum ColorMode {
    Unset,
    Plain,
    Masked,
}

/// A step of the colour pass.
#[derive(Clone, Copy, Debug, PartialEq, Eq, Structural)]
pub enum ColorStep {
    Use(ColorMode),
    Draw { draw: usize, reference: u32 },
}

/// The steps of the colour pass for the first `n` draws, and the mode behind them.
/// The mode is switched only where it changes; mask sources, draws without texture
/// and draws whose mask is not there are left out.
pub open spec fn color_steps(draws: Seq<Draw>, textures: int, masks: Seq<u32>, n: nat) -> (
    Seq<ColorStep>,
    ColorMode,
)
    decreases n,
{
    if n == 0 || n > draws.len() {
        (Seq::empty(), ColorMode::Unset)
    } else {
        let (steps, mode) = color_steps(draws, textures, masks, (n - 1) as nat);
        let d = draws[n - 1];
        let reference = d.parent_mask_reference;
        if makes_mask(d.pass) || d.texture_slot >= textures || (reference != 0 && !masks.contains(
            reference,
        )) {
            (steps, mode)
        } else {
            let wanted = if reference != 0 {
                ColorMode::Masked
            } else {
                ColorMode::Plain
            };
            let switched = if mode == wanted {
                steps
            } else {
                steps.push(ColorStep::Use(wanted))
            };
            (switched.push(ColorStep::Draw { draw: (n - 1) as usize, reference }), wanted)
        }
    }
}

fn has_number(row: &Vec<u32>, n: u32) -> (r: bool)
    ensures
        r == row@.contains(n),
{
    let mut i: usize = 0;
    while i < row.len()
        invariant
            i <= row@.len(),
            forall|j: int| 0 <= j < i ==> row@[j] != n,
        decreases row@.len() - i,
    {
        if row[i] == n {
            assert(row@[i as int] == n);
            return true;
        }
        i = i + 1;
    }
    false
}

/// Plans the colour pass.
pub fn color_pass(draws: &Vec<PlannedDraw>, textures: usize, masks: &Vec<u32>) -> (r: Vec<ColorStep>)
    ensures
        r@ == color_steps(views(draws@), textures as int, masks@, draws@.len()).0,
{
    let ghost all = views(draws@);
    let mut r: Vec<ColorStep> = Vec::new();
    let mut mode = ColorMode::Unset;
    let mut i: usize = 0;
    while i < draws.len()
        invariant
            i <= draws@.len(),
            all == views(draws@),
            (r@, mode) == color_steps(all, textures as int, masks@, i as nat),
        decreases draws@.len() - i,
    {
        let d = &draws[i];
        assert(all[i as int] == d@);
        let reference = d.parent_mask_reference;
        if !makes_mask(d.pass) && d.texture_slot < textures && (reference == 0 || has_number(
            masks,
            reference,
        )) {
            let wanted = if reference != 0 {
                ColorMode::Masked
            } else {
                ColorMode::Plain
            };
            if mode != wanted {
                r.push(ColorStep::Use(wanted));
                mode = wanted;
            }
            r.push(ColorStep::Draw { draw: i, reference });
        }
        i = i + 1;
    }
    r
}

/// Every draw of the colour pass stands in the mode that it needs.
pub proof fn lemma_draws_in_their_mode(
    draws: Seq<Draw>,
    textures: int,
    masks: Seq<u32>,
    n: nat,
    i: int,
)
    requires
        n <= draws.len() <= usize::MAX,
        0 <= i < color_steps(draws, textures, masks, n).0.len(),
    ensures
        color_steps(draws, textures, masks, n).0[i] matches ColorStep::Draw { draw, reference }
            ==> mode_at(color_steps(draws, textures, masks, n).0, i) == (if reference != 0 {
            ColorMode::Masked
        } else {
            ColorMode::Plain
        }),
        mode_at(
            color_steps(draws, textures, masks, n).0,
            color_steps(draws, textures, masks, n).0.len() as int,
        ) == color_steps(draws, textures, masks, n).1,
    decreases n,
{
    lemma_mode_at_end(draws, textures, masks, n);
    let steps = color_steps(draws, textures, masks, n).0;
    let (before, mode) = color_steps(draws, textures, masks, (n - 1) as nat);
    if n > 0 {
        if i < before.len() {
            lemma_draws_in_their_mode(draws, textures, masks, (n - 1) as nat, i);
            lemma_mode_prefix(before, steps, i);
        } else {
            lemma_mode_at_end(draws, textures, masks, (n - 1) as nat);
            lemma_mode_prefix(before, steps, before.len() as int);
        }
    }
}

/// The mode before a step: that of the last switch before it.
pub open spec fn mode_at(steps: Seq<ColorStep>, i: int) -> ColorMode
    decreases i,
{
    if i <= 0 || i > steps.len() {
        ColorMode::Unset
    } else {
        match steps[i - 1] {
            ColorStep::Use(mode) => mode,
            ColorStep::Draw { draw, reference } => mode_at(steps, i - 1),
        }
    }
}

proof fn lemma_mode_prefix(a: Seq<ColorStep>, b: Seq<ColorStep>, i: int)
    requires
        a.len() <= b.len(),
        i <= a.len(),
        forall|k: int| 0 <= k < a.len() ==> a[k] == b[k],
    ensures
        mode_at(a, i) == mode_at(b, i),
    decreases i,
{
    if i > 0 {
        lemma_mode_prefix(a, b, i - 1);
    }
}

proof fn lemma_mode_at_end(draws: Seq<Draw>, textures: int, masks: Seq<u32>, n: nat)
    requires
        n <= draws.len(),
    ensures
        mode_at(
            color_steps(draws, textures, masks, n).0,
            color_steps(draws, textures, masks, n).0.len() as int,
        ) == color_steps(draws, textures, masks, n).1,
    decreases n,
{
    if n > 0 {
        lemma_mode_at_end(draws, textures, masks, (n - 1) as nat);
        let (before, mode) = color_steps(draws, textures, masks, (n - 1) as nat);
        let steps = color_steps(draws, textures, masks, n).0;
        lemma_mode_prefix(before, steps, before.len() as int);
        reveal_with_fuel(mode_at, 3);
    }
}

/// What becomes of the masks that are kept between frames: those that are not needed
/// go, and those that are not there yet are made, in rising order.
#[derive(Debug)]
pub struct MaskPlan {
    pub dropped: Vec<u32>,
    pub made: Vec<u32>,
}

/// The numbers of a row that are, or are not, in another.
pub open spec fn chosen(row: Seq<u32>, other: Seq<u32>, inside: bool) -> Seq<u32>
    decreases row.len(),
{
    if row.len() == 0 {
        Seq::empty()
    } else {
        let rest = chosen(row.drop_last(), other, inside);
        if other.contains(row.last()) == inside {
            rest.push(row.last())
        } else {
            rest
        }
    }
}

fn choose_outside(row: &Vec<u32>, other: &Vec<u32>) -> (r: Vec<u32>)
    ensures
        r@ == chosen(row@, other@, false),
{
    let mut r: Vec<u32> = Vec::new();
    let mut i: usize = 0;
    while i < row.len()
        invariant
            i <= row@.len(),
            r@ == chosen(row@.take(i as int), other@, false),
        decreases row@.len() - i,
    {
        assert(row@.take(i + 1).drop_last() =~= row@.take(i as int));
        if !has_number(other, row[i]) {
            r.push(row[i]);
        }
        i = i + 1;
    }
    assert(row@.take(i as int) =~= row@);
    r
}

/// Plans which masks are dropped and made, given those that are there and those that
/// are needed.
pub fn plan_masks(present: &Vec<u32>, needed: &Vec<u32>) -> (r: MaskPlan)
    ensures
        r.dropped@ == chosen(present@, needed@, false),
        r.made@ == chosen(needed@, present@, false),
{
    MaskPlan {
        dropped: choose_outside(present, needed),
        made: choose_outside(needed, present),
    }
}

proof fn lemma_chosen(row: Seq<u32>, other: Seq<u32>, n: u32)
    ensures
        chosen(row, other, false).contains(n) <==> row.contains(n) && !other.contains(n),
    decreases row.len(),
{
    if row.len() > 0 {
        lemma_chosen(row.drop_last(), other, n);
        let rest = chosen(row.drop_last(), other, false);
        let all = chosen(row, other, false);
        if row.drop_last().contains(n) {
            let j = choose|j: int| 0 <= j < row.len() - 1 && row.drop_last()[j] == n;
            assert(row[j] == n);
        }
        if row.contains(n) && !row.drop_last().contains(n) {
            let j = choose|j: int| 0 <= j < row.len() && row[j] == n;
            if j < row.len() - 1 {
                assert(row.drop_last()[j] == n);
            }
            assert(row.last() == n);
        }
        if !other.contains(row.last()) {
            assert(all == rest.push(row.last()));
            assert(all[rest.len() as int] == row.last());
            if rest.contains(n) {
                let j = choose|j: int| 0 <= j < rest.len() && rest[j] == n;
                assert(all[j] == n);
            }
            if all.contains(n) && n != row.last() {
                let j = choose|j: int| 0 <= j < all.len() && all[j] == n;
                assert(rest[j] == n);
            }
        }
        assert(row[row.len() - 1] == row.last());
    }
}

/// After a plan is carried out, exactly the needed masks are there.
pub proof fn lemma_masks_after_plan(present: Seq<u32>, needed: Seq<u32>, n: u32)
    ensures
        needed.contains(n) <==> (present.contains(n) && !chosen(present, needed, false).contains(n))
            || chosen(needed, present, false).contains(n),
{
    lemma_chosen(present, needed, n);
    lemma_chosen(needed, present, n);
}

/// The place of each draw in the colour pass, nothing for mask sources.
pub open spec fn render_order(draws: Seq<Draw>, n: nat) -> Seq<Option<int>>
    decreases n,
{
    if n == 0 || n > draws.len() {
        Seq::empty()
    } else {
        render_order(draws, (n - 1) as nat).push(
            if makes_mask(draws[n - 1].pass) {
                None
            } else {
                Some(color_count(draws, (n - 1) as nat) as int)
            },
        )
    }
}

/// How many of the first `n` draws show colour.
pub open spec fn color_count(draws: Seq<Draw>, n: nat) -> nat
    decreases n,
{
    if n == 0 || n > draws.len() {
        0
    } else {
        color_count(draws, (n - 1) as nat) + if makes_mask(draws[n - 1].pass) {
            0nat
        } else {
            1
        }
    }
}

pub open spec fn opt_places(v: Seq<Option<usize>>) -> Seq<Option<int>> {
    v.map_values(
        |o: Option<usize>|
            match o {
                Some(i) => Some(i as int),
                None => None,
            },
    )
}

/// Numbers the draws of the colour pass.
pub fn number_draws(draws: &Vec<PlannedDraw>) -> (r: Vec<Option<usize>>)
    ensures
        opt_places(r@) == render_order(views(draws@), draws@.len()),
{
    let ghost all = views(draws@);
    let mut r: Vec<Option<usize>> = Vec::new();
    let mut count: usize = 0;
    let mut i: usize = 0;
    assert(opt_places(r@) =~= Seq::<Option<int>>::empty());
    while i < draws.len()
        invariant
            i <= draws@.len(),
            all == views(draws@),
            count <= i,
            count == color_count(all, i as nat),
            opt_places(r@) == render_order(all, i as nat),
        decreases draws@.len() - i,
    {
        assert(all[i as int] == draws@[i as int]@);
        let ghost before = opt_places(r@);
        if makes_mask(draws[i].pass) {
            r.push(None);
            assert(opt_places(r@) =~= before.push(None));
        } else {
            r.push(Some(count));
            assert(opt_places(r@) =~= before.push(Some(count as int)));
            count = count + 1;
        }
        i = i + 1;
    }
    r
}

/// Whether the draws of the colour pass come in the order of the numbers of their
/// sprites.
pub open spec fn in_drawing_order(draws: Seq<Draw>, sprites: Seq<Sprite>) -> bool {
    forall|i: int, j: int|
        0 <= i < j < draws.len() && !makes_mask(draws[i].pass) && !makes_mask(draws[j].pass)
            ==> sprites[(#[trigger] draws[i]).sprite].info.draw_index
            <= sprites[(#[trigger] draws[j]).sprite].info.draw_index
}

proof fn lemma_sources_make_masks(
    draws: Result<Seq<Draw>, DrawError>,
    scene: Scene,
    slots: Seq<u32>,
    owner: Seq<char>,
    reference: u32,
    sources: Seq<Seq<char>>,
    n: nat,
)
    requires
        draws matches Ok(row) ==> forall|i: int|
            0 <= i < row.len() ==> makes_mask((#[trigger] row[i]).pass),
    ensures
        with_sources(draws, scene, slots, owner, reference, sources, n) matches Ok(row)
            ==> forall|i: int| 0 <= i < row.len() ==> makes_mask((#[trigger] row[i]).pass),
    decreases n,
{
    if n > 0 && n <= sources.len() {
        lemma_sources_make_masks(
            draws,
            scene,
            slots,
            owner,
            reference,
            sources,
            (n - 1) as nat,
        );
    }
}

proof fn lemma_masks_make_masks(
    scene: Scene,
    slots: Seq<u32>,
    owners: Seq<Seq<char>>,
    n: nat,
)
    ensures
        with_masks(scene, slots, owners, n) matches Ok(row) ==> forall|i: int|
            0 <= i < row.len() ==> makes_mask((#[trigger] row[i]).pass),
    decreases n,
{
    if n > 0 && n <= owners.len() {
        lemma_masks_make_masks(scene, slots, owners, (n - 1) as nat);
        let owner = owners[n - 1];
        lemma_sources_make_masks(
            with_masks(scene, slots, owners, (n - 1) as nat),
            scene,
            slots,
            owner,
            reference_at(n - 1),
            scene.owners[owner],
            scene.owners[owner].len(),
        );
    }
}

proof fn lemma_sprites_in_turn(scene: Scene, slots: Seq<u32>, owners: Seq<Seq<char>>, n: nat)
    requires
        n <= scene.sprites.len(),
    ensures
        with_sprites(scene, slots, owners, n) matches Ok(row) ==> {
            &&& forall|i: int|
                0 <= i < row.len() && !makes_mask((#[trigger] row[i]).pass) ==> 0 <= row[i].sprite
                    < n
            &&& forall|i: int, j: int|
                0 <= i < j < row.len() && !makes_mask(row[i].pass) && !makes_mask(row[j].pass)
                    ==> (#[trigger] row[i]).sprite < (#[trigger] row[j]).sprite
        },
    decreases n,
{
    if n > 0 {
        lemma_sprites_in_turn(scene, slots, owners, (n - 1) as nat);
    } else {
        lemma_masks_make_masks(scene, slots, owners, owners.len());
    }
}

/// Where every sprite has the number of its place, the draws of the colour pass come
/// in the order of these numbers.
pub proof fn lemma_color_pass_in_order(scene: Scene, slots: Seq<u32>)
    requires
        forall|i: int|
            0 <= i < scene.sprites.len() ==> (#[trigger] scene.sprites[i]).info.draw_index == i,
    ensures
        planned_draws(scene, slots) matches Ok(draws) ==> in_drawing_order(draws, scene.sprites),
{
    let owners = ordered(scene.owners.dom());
    lemma_sprites_in_turn(scene, slots, owners, scene.sprites.len());
    if let Ok(draws) = planned_draws(scene, slots) {
        assert forall|i: int, j: int|
            0 <= i < j < draws.len() && !makes_mask(draws[i].pass) && !makes_mask(
                draws[j].pass,
            ) implies sprites_in_order(scene.sprites, #[trigger] draws[i], #[trigger] draws[j]) by {
            assert(draws[i].sprite < draws[j].sprite);
        }
    }
}

spec fn sprites_in_order(sprites: Seq<Sprite>, a: Draw, b: Draw) -> bool {
    sprites[a.sprite].info.draw_index <= sprites[b.sprite].info.draw_index
}

/// The draws of the colour pass of a scene that was put together come in the order of
/// the numbers of their sprites.
pub proof fn lemma_assembled_color_pass_in_order(
    base_object: Seq<char>,
    trace: Trace,
    slots: Seq<u32>,
)
    requires
        trace.sprites.len() <= usize::MAX,
    ensures
        planned_draws(assembled(base_object, trace), slots) matches Ok(draws)
            ==> in_drawing_order(draws, assembled(base_object, trace).sprites),
{
    let scene = assembled(base_object, trace);
    lemma_arranged_same_items::<EmoteStaticSprite>(trace.sprites);
    assert forall|i: int| 0 <= i < scene.sprites.len() implies (
    #[trigger] scene.sprites[i]).info.draw_index == i by {
        lemma_numbers_are_places(trace.sprites, i);
    }
    lemma_color_pass_in_order(scene, slots);
}

/// Tests whether the draws of the colour pass come in the order of the numbers of
/// their sprites.
pub fn audit_drawing_order(draws: &Vec<PlannedDraw>, scene: &EmoteStaticScene) -> (r: bool)
    requires
        forall|i: int|
            0 <= i < draws@.len() ==> (#[trigger] draws@[i]).sprite < scene.sprites@.len(),
    ensures
        r == in_drawing_order(views(draws@), scene@.sprites),
{
    let ghost all = views(draws@);
    let ghost sprites = scene@.sprites;
    let mut last: Option<usize> = None;
    let mut i: usize = 0;
    while i < draws.len()
        invariant
            i <= draws@.len(),
            all == views(draws@),
            sprites == scene@.sprites,
            sprites.len() == scene.sprites@.len(),
            forall|k: int|
                0 <= k < draws@.len() ==> (#[trigger] draws@[k]).sprite < scene.sprites@.len(),
            last matches Some(k) ==> k < i && !makes_mask(all[k as int].pass) && forall|j: int|
                0 <= j < i && !makes_mask((#[trigger] all[j]).pass)
                    ==> sprites[all[j].sprite].info.draw_index
                    <= sprites[all[k as int].sprite].info.draw_index,
            last is None ==> forall|j: int| 0 <= j < i ==> makes_mask((#[trigger] all[j]).pass),
            forall|p: int, q: int|
                0 <= p < q < i && !makes_mask(all[p].pass) && !makes_mask(all[q].pass)
                    ==> sprites[(#[trigger] all[p]).sprite].info.draw_index
                    <= sprites[(#[trigger] all[q]).sprite].info.draw_index,
        decreases draws@.len() - i,
    {
        let d = &draws[i];
        assert(all[i as int] == d@);
        if !makes_mask(d.pass) {
            assert(draws@[i as int].sprite < scene.sprites@.len());
            let di = scene.sprites[d.sprite].draw_frame_info.draw_index;
            assert(sprites[all[i as int].sprite].info.draw_index == di);
            if let Some(k) = last {
                assert(draws@[k as int].sprite < scene.sprites@.len());
                assert(all[k as int] == draws@[k as int]@);
                let before = scene.sprites[draws[k].sprite].draw_frame_info.draw_index;
                assert(sprites[all[k as int].sprite].info.draw_index == before);
                if di < before {
                    assert(!in_drawing_order(all, sprites));
                    return false;
                }
            }
            last = Some(i);
        }
        i = i + 1;
    }
    true
}

/// How a scene is placed in a viewport.
#[derive(Clone, Copy, Debug, PartialEq, Eq, Structural)]
pub struct Viewport {
    pub center: Point,
    pub scale: Point,
}

/// Nine tenths, the share of a viewport that a scene fills.
#[verifier::allow_in_spec]
pub fn filled_share() -> (r: Single)
    returns
        (Single { bits: 0x3f66_6666 }),
{
    Single { bits: 0x3f66_6666 }
}

/// The side of a viewport as a number; at least one.
pub open spec fn side(n: u32) -> Single {
    Single::spec_from_i64(
        if n < 1 {
            1
        } else {
            n as i64
        },
    )
}

fn find_side(n: u32) -> (r: Single)
    ensures
        r == side(n),
{
    Single::from_i64(
        if n < 1 {
            1
        } else {
            n as i64
        },
    )
}

/// The scene fills nine tenths of the narrower direction, with its center in the
/// middle.
pub open spec fn fitted(bounds: EmoteSceneBounds, width: u32, height: u32) -> Viewport {
    let w = side(width);
    let h = side(height);
    let fit = filled_share().times(
        w.over(bounds.width().max(Single::one())).min(
            h.over(bounds.height().max(Single::one())),
        ),
    );
    Viewport {
        center: bounds.center(),
        scale: Point { x: fit.times(Single::two()).over(w), y: fit.times(Single::two()).over(h) },
    }
}

/// Fits a scene into a viewport.
pub fn fit_viewport(bounds: EmoteSceneBounds, width: u32, height: u32) -> (r: Viewport)
    ensures
        r == fitted(bounds, width, height),
{
    let w = find_side(width);
    let h = find_side(height);
    let fit = filled_share().times(
        w.over(bounds.width().max(Single::one())).min(
            h.over(bounds.height().max(Single::one())),
        ),
    );
    Viewport {
        center: bounds.center(),
        scale: Point { x: fit.times(Single::two()).over(w), y: fit.times(Single::two()).over(h) },
    }
}

/// The bytes of a row of pixels in a buffer whose rows are padded to 256 bytes.
pub open spec fn padded_row(width: u32) -> int {
    (4 * width + 255) / 256 * 256
}

pub fn row_bytes_aligned(width: u32) -> (r: u32)
    requires
        4 * width + 255 <= u32::MAX,
    ensures
        r == padded_row(width),
        4 * width <= r,
{
    (4 * width + 255) / 256 * 256
}

/// The first `n` rows of a buffer without their padding.
pub open spec fn without_padding(data: Seq<u8>, width: u32, n: nat) -> Seq<u8>
    decreases n,
{
    if n == 0 {
        Seq::empty()
    } else {
        without_padding(data, width, (n - 1) as nat) + data.subrange(
            (n - 1) * padded_row(width),
            (n - 1) * padded_row(width) + 4 * width,
        )
    }
}

/// Takes the padding out of the rows of a buffer.
pub fn unpad_rows(data: &[u8], width: u32, height: u32) -> (r: Vec<u8>)
    requires
        4 * width + 255 <= u32::MAX,
        height * padded_row(width) <= data@.len(),
    ensures
        r@ == without_padding(data@, width, height as nat),
{
    let total: usize = data.len();
    let row: usize = row_bytes_aligned(width) as usize;
    let used: usize = 4 * width as usize;
    let mut r: Vec<u8> = Vec::new();
    let mut y: u32 = 0;
    let mut start: usize = 0;
    while y < height
        invariant
            y <= height,
            row == padded_row(width),
            used == 4 * width,
            used <= row,
            height * row <= data@.len(),
            data@.len() == total,
            start == y * row,
            r@ == without_padding(data@, width, y as nat),
        decreases height - y,
    {
        let ghost before = r@;
        proof {
            assert((y + 1) * row <= height * row) by (nonlinear_arith)
                requires
                    y + 1 <= height,
                    row >= 0,
            ;
            assert((y + 1) * row == y * row + row) by (nonlinear_arith);
        }
        let mut i: usize = 0;
        assert(before + data@.subrange(start as int, start as int) =~= before);
        while i < used
            invariant
                i <= used,
                start + used <= data@.len(),
                data@.len() == total,
                r@ == before + data@.subrange(start as int, start + i),
            decreases used - i,
        {
            r.push(data[start + i]);
            assert(r@ =~= before + data@.subrange(start as int, start + i + 1));
            i = i + 1;
        }
        start = start + row;
        y = y + 1;
    }
    r
}

} // verus!
