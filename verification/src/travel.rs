//! Walking the layer tree for the static preview of a model.

use crate::frames::{content_coord, spec_content_coord, Coord};
use crate::layers::{
    find_motion, first_content_with, first_frame_content_with, motion_named, motion_priority_ranks,
    priority_ranks,
};
use crate::order::TextMap;
use crate::refs::rows_view;
use crate::scene::{
    build_sprite, enter_layer_context, layer_state_from_ctx, layer_state_of, opt_sprite,
    saturating_thousand, sprite_of, thousandfold, Ctx, EmoteStaticSprite, EmoteStepFrameLayerState,
    LayerState, Sprite, TransformStep, TravelContext,
};
use crate::schema::{textures_view, textures_wf, EmoteTextureSource, Texture};
use crate::single::Single;
use crate::text::{clone_texts, opt_owned, opt_string, pieces, split, strip_prefix, stripped, texts};
use crate::value::{items_of, list_of, PsbValue};
use vstd::prelude::*;

verus! {

/// The sprites by their characters.
pub open spec fn sprites_view(v: Seq<EmoteStaticSprite>) -> Seq<Sprite> {
    v.map_values(|s: EmoteStaticSprite| s@)
}

/// The layer states by their characters.
pub open spec fn layers_view(v: Seq<EmoteStepFrameLayerState>) -> Seq<LayerState> {
    v.map_values(|s: EmoteStepFrameLayerState| s@)
}

/// What a traversal has gathered.
#[derive(Debug)]
pub struct Travel {
    pub sprites: Vec<EmoteStaticSprite>,
    pub layer_states: Vec<EmoteStepFrameLayerState>,
    pub mask_owners: TextMap<Vec<String>>,
}

/// A `Travel` by its characters.
#[verifier::ext_equal]
pub struct Trace {
    pub sprites: Seq<Sprite>,
    pub layers: Seq<LayerState>,
    pub owners: Map<Seq<char>, Seq<Seq<char>>>,
}

impl View for Travel {
    type V = Trace;

    open spec fn view(&self) -> Trace {
        Trace {
            sprites: sprites_view(self.sprites@),
            layers: layers_view(self.layer_states@),
            owners: rows_view(self.mask_owners),
        }
    }
}

impl Trace {
    pub open spec fn wf(self) -> bool {
        forall|i: int| 0 <= i < self.sprites.len() ==> (#[trigger] self.sprites[i]).wf()
    }

    pub open spec fn start() -> Trace {
        Trace { sprites: Seq::empty(), layers: Seq::empty(), owners: Map::empty() }
    }

    /// With a sprite behind the others, where there is one.
    pub open spec fn with_sprite(self, sprite: Option<Sprite>) -> Trace {
        match sprite {
            Some(s) => Trace { sprites: self.sprites.push(s), ..self },
            None => self,
        }
    }

    /// With a layer behind the others.
    pub open spec fn with_layer(self, layer: LayerState) -> Trace {
        Trace { layers: self.layers.push(layer), ..self }
    }

    /// With the mask sources of the layer, where it owns a mask and its path has
    /// none yet.
    pub open spec fn with_owner(self, ctx: Ctx) -> Trace {
        if ctx.owns_mask() && !self.owners.dom().contains(ctx.path) {
            Trace {
                owners: self.owners.insert(ctx.path, ctx.stencil_composite_mask_layer_list),
                ..self
            }
        } else {
            self
        }
    }
}

impl Travel {
    /// The owners are in order, and every mesh has all its points.
    pub open spec fn wf(&self) -> bool {
        &&& self.mask_owners.wf()
        &&& self@.wf()
    }

    pub fn new() -> (r: Travel)
        ensures
            r.wf(),
            r@ == Trace::start(),
    {
        let r = Travel { sprites: Vec::new(), layer_states: Vec::new(), mask_owners: TextMap::new() };
        proof {
            assert(r@ =~= Trace::start());
        }
        r
    }

    pub fn put_sprite(&mut self, sprite: Option<EmoteStaticSprite>)
        requires
            old(self).wf(),
            sprite is Some ==> sprite->0@.wf(),
        ensures
            final(self).wf(),
            final(self)@ == old(self)@.with_sprite(opt_sprite(sprite)),
    {
        if let Some(s) = sprite {
            self.sprites.push(s);
            assert(self@.sprites =~= old(self)@.sprites.push(s@));
        }
    }

    pub fn put_layer(&mut self, layer: EmoteStepFrameLayerState)
        requires
            old(self).wf(),
        ensures
            final(self).wf(),
            final(self)@ == old(self)@.with_layer(layer@),
    {
        self.layer_states.push(layer);
        assert(self@.layers =~= old(self)@.layers.push(layer@));
        assert(self@.sprites == old(self)@.sprites);
    }

    pub fn put_owner(&mut self, ctx: &TravelContext)
        requires
            old(self).wf(),
        ensures
            final(self).wf(),
            final(self)@ == old(self)@.with_owner(ctx@),
    {
        if ctx.owns_mask() {
            if !self.mask_owners.contains_key(ctx.path.as_str()) {
                let row = clone_texts(&ctx.stencil_composite_mask_layer_list);
                self.mask_owners.insert(ctx.path.clone(), row);
                assert(self@.owners =~= old(self)@.owners.insert(ctx.path@, texts(row@)));
                assert(self@.sprites == old(self)@.sprites);
            }
        }
    }
}

/// The parts that are not empty.
pub open spec fn filled(parts: Seq<Seq<char>>) -> Seq<Seq<char>>
    decreases parts.len(),
{
    if parts.len() == 0 {
        Seq::empty()
    } else {
        let before = filled(parts.drop_last());
        if parts.last().len() > 0 {
            before.push(parts.last())
        } else {
            before
        }
    }
}

/// The object and the motion that a path names: its first two filled parts.
pub open spec fn motion_target(path: Seq<char>) -> Option<(Seq<char>, Seq<char>)> {
    let parts = filled(pieces(path, '/'));
    if parts.len() >= 2 {
        Some((parts[0], parts[1]))
    } else {
        None
    }
}

pub open spec fn target_view(t: Option<(String, String)>) -> Option<(Seq<char>, Seq<char>)> {
    match t {
        Some((object, motion)) => Some((object@, motion@)),
        None => None,
    }
}

pub fn find_motion_target(path: &str) -> (r: Option<(String, String)>)
    ensures
        target_view(r) == motion_target(path@),
{
    let parts = split(path, '/');
    let mut kept: Vec<String> = Vec::new();
    let mut i: usize = 0;
    assert(texts(kept@) =~= filled(texts(parts@).take(0)));
    while i < parts.len()
        invariant
            i <= parts@.len(),
            texts(kept@) == filled(texts(parts@).take(i as int)),
        decreases parts@.len() - i,
    {
        let ghost ps = texts(parts@);
        assert(ps.take(i + 1).drop_last() =~= ps.take(i as int));
        let ghost before = texts(kept@);
        if !parts[i].as_str().is_empty() {
            kept.push(parts[i].clone());
            assert(texts(kept@) =~= before.push(ps[i as int]));
        }
        i = i + 1;
    }
    assert(texts(parts@).take(i as int) =~= texts(parts@));
    if kept.len() >= 2 {
        assert(texts(kept@)[0] == kept@[0]@ && texts(kept@)[1] == kept@[1]@);
        Some((kept[0].clone(), kept[1].clone()))
    } else {
        assert(texts(kept@).len() == kept@.len());
        None
    }
}

/// What the static walk looks things up in.
pub struct StaticWorld {
    pub table: PsbValue,
    pub textures: Map<Seq<char>, Texture>,
}

/// The context moved by the first place that the frames name, with the offset of
/// that frame.
pub open spec fn located(ctx: Ctx, frames: Seq<PsbValue>) -> (Ctx, Single, Single) {
    match first_content_with(frames, "coord"@) {
        Some(content) => match spec_content_coord(content) {
            Some(delta) => (
                Ctx {
                    base_location: Some(moved(ctx.base_location, delta)),
                    transform: ctx.transform.push(TransformStep::Translate { x: delta.x, y: delta.y }),
                    ..ctx
                },
                content.field_single("ox").unwrap_or(Single::zero()),
                content.field_single("oy").unwrap_or(Single::zero()),
            ),
            None => (ctx, Single::zero(), Single::zero()),
        },
        None => (ctx, Single::zero(), Single::zero()),
    }
}

/// A place moved on; from nowhere it is the move itself.
pub open spec fn spec_moved(base: Option<Coord>, delta: Coord) -> Coord {
    match base {
        Some(b) => Coord { x: b.x.plus(delta.x), y: b.y.plus(delta.y), z: b.z.plus(delta.z) },
        None => delta,
    }
}

#[verifier::when_used_as_spec(spec_moved)]
pub fn moved(base: Option<Coord>, delta: Coord) -> (r: Coord)
    ensures
        r == spec_moved(base, delta),
{
    match base {
        Some(b) => Coord { x: b.x.plus(delta.x), y: b.y.plus(delta.y), z: b.z.plus(delta.z) },
        None => delta,
    }
}

/// What one frame of the static walk leads to.
pub enum FrameTask {
    /// Nothing.
    Skip,
    /// The motion with its context.
    Enter { object: Seq<char>, motion: Seq<char>, ctx: Ctx },
    /// A sprite, where the texture has the icon.
    Draw { sprite: Option<Sprite> },
}

/// What a frame leads to. A source `motion/object/name` enters a motion, a texture
/// is drawn, and any other object is entered by its icon.
pub open spec fn frame_task(
    world: StaticWorld,
    motion_name: Seq<char>,
    ctx: Ctx,
    label: Option<Seq<char>>,
    ox: Single,
    oy: Single,
    frame: PsbValue,
) -> FrameTask {
    match frame.field("content") {
        None => FrameTask::Skip,
        Some(content) => match content.text_field("src") {
            None => FrameTask::Skip,
            Some(src) => {
                let opa = content.field_single("opa").unwrap_or(Single::ten());
                let time = frame.field_i64("time").unwrap_or(0);
                let visible = ctx.base_visible && time <= 0 && Single::zero().lt(opa);
                let below = Ctx { base_visible: visible, ..ctx.below() };
                if src.len() == 0 {
                    FrameTask::Skip
                } else if stripped(src, "motion/"@) is Some {
                    match motion_target(stripped(src, "motion/"@)->0) {
                        Some((object, motion)) => if ctx.base_location is Some {
                            FrameTask::Enter { object, motion, ctx: below }
                        } else {
                            FrameTask::Skip
                        },
                        None => FrameTask::Skip,
                    }
                } else {
                    match content.text_field("icon") {
                        None => FrameTask::Skip,
                        Some(icon) => if world.textures.dom().contains(src) {
                            match ctx.base_location {
                                Some(base) => FrameTask::Draw {
                                    sprite: sprite_of(
                                        world.textures,
                                        src,
                                        icon,
                                        label,
                                        motion_name,
                                        base,
                                        ox,
                                        oy,
                                        visible,
                                        opa,
                                        ctx,
                                    ),
                                },
                                None => FrameTask::Skip,
                            }
                        } else if world.table.named(src) is Some {
                            FrameTask::Enter { object: src, motion: icon, ctx: below }
                        } else {
                            FrameTask::Skip
                        },
                    }
                }
            },
        },
    }
}

/// The trace after the first `n` frames of a layer, where the motions that they
/// enter nest less than `depth` deep.
pub open spec fn after_frames(
    depth: nat,
    world: StaticWorld,
    motion_name: Seq<char>,
    ctx: Ctx,
    label: Option<Seq<char>>,
    ox: Single,
    oy: Single,
    frames: Seq<PsbValue>,
    n: nat,
    trace: Trace,
) -> Option<Trace>
    decreases depth, 0nat, n,
{
    if n == 0 || n > frames.len() {
        Some(trace)
    } else {
        match after_frames(
            depth,
            world,
            motion_name,
            ctx,
            label,
            ox,
            oy,
            frames,
            (n - 1) as nat,
            trace,
        ) {
            None => None,
            Some(t) => match frame_task(world, motion_name, ctx, label, ox, oy, frames[n - 1]) {
                FrameTask::Skip => Some(t),
                FrameTask::Draw { sprite } => Some(t.with_sprite(sprite)),
                FrameTask::Enter { object, motion, ctx } => after_motion(
                    depth,
                    world,
                    object,
                    motion,
                    ctx,
                    t,
                ),
            },
        }
    }
}

/// The trace after a motion. Its layers are ordered below the layer that it is
/// entered from.
pub open spec fn after_motion(
    depth: nat,
    world: StaticWorld,
    object: Seq<char>,
    motion_name: Seq<char>,
    ctx: Ctx,
    trace: Trace,
) -> Option<Trace>
    decreases depth, 0nat, 0nat,
{
    match motion_named(&world.table, object, motion_name) {
        None => Some(trace),
        Some(motion) => if list_of(motion.field("layer")) is None {
            Some(trace)
        } else if depth == 0 {
            None
        } else {
            let layers = items_of(motion.field("layer"));
            after_layers(
                (depth - 1) as nat,
                world,
                motion_name,
                Ctx {
                    draw_order_base: saturating_thousand(ctx.draw_index),
                    priority_ranks: priority_ranks(*motion, Single::zero()),
                    ..ctx
                },
                layers,
                layers.len(),
                trace,
            )
        },
    }
}

/// The trace after the first `n` layers of a row.
pub open spec fn after_layers(
    depth: nat,
    world: StaticWorld,
    motion_name: Seq<char>,
    ctx: Ctx,
    layers: Seq<PsbValue>,
    n: nat,
    trace: Trace,
) -> Option<Trace>
    decreases depth, 2nat, n,
{
    if n == 0 || n > layers.len() {
        Some(trace)
    } else {
        match after_layers(depth, world, motion_name, ctx, layers, (n - 1) as nat, trace) {
            None => None,
            Some(t) => after_layer(depth, world, motion_name, ctx, layers[n - 1], t),
        }
    }
}

/// The trace after a layer: what its frames lead to, then the layer itself, then
/// what lies below it. What is no object is passed over.
pub open spec fn after_layer(
    depth: nat,
    world: StaticWorld,
    motion_name: Seq<char>,
    ctx: Ctx,
    layer: PsbValue,
    trace: Trace,
) -> Option<Trace>
    decreases depth, 1nat, 0nat,
{
    if layer.as_object() is None {
        Some(trace)
    } else {
        let entered = ctx.entered(layer, trace.sprites.len() as usize);
        let label = layer.text_field("label");
        let frames = items_of(layer.field("frameList"));
        let (own, ox, oy) = located(entered, frames);
        match after_frames(
            depth,
            world,
            motion_name,
            own,
            label,
            ox,
            oy,
            frames,
            frames.len(),
            trace.with_owner(entered),
        ) {
            None => None,
            Some(t) => {
                let shown = t.with_layer(layer_state_of(label, own));
                let children = items_of(layer.field("children"));
                let more = items_of(layer.field("layer"));
                if children.len() == 0 && more.len() == 0 {
                    Some(shown)
                } else if depth == 0 {
                    None
                } else {
                    match after_layers(
                        (depth - 1) as nat,
                        world,
                        motion_name,
                        own.below(),
                        children,
                        children.len(),
                        shown,
                    ) {
                        None => None,
                        Some(t) => after_layers(
                            (depth - 1) as nat,
                            world,
                            motion_name,
                            own.below(),
                            more,
                            more.len(),
                            t,
                        ),
                    }
                }
            },
        }
    }
}

fn locate(ctx: &mut TravelContext, frames: &Vec<PsbValue>) -> (r: (Single, Single))
    requires
        old(ctx).wf(),
    ensures
        final(ctx).wf(),
        (final(ctx)@, r.0, r.1) == located(old(ctx)@, frames@),
{
    match first_frame_content_with(frames, "coord") {
        Some(content) => match content_coord(content) {
            Some(delta) => {
                ctx.base_location = Some(moved(ctx.base_location, delta));
                ctx.transform.push(TransformStep::Translate { x: delta.x, y: delta.y });
                (
                    content.field_single("ox").unwrap_or(Single::zero()),
                    content.field_single("oy").unwrap_or(Single::zero()),
                )
            },
            None => (Single::zero(), Single::zero()),
        },
        None => (Single::zero(), Single::zero()),
    }
}

/// Makes the context for what lies below the layer.
pub fn mask_child_context(ctx: &TravelContext) -> (r: TravelContext)
    requires
        ctx.wf(),
    ensures
        r.wf(),
        r@ == ctx@.below(),
{
    let mut r = ctx.duplicate();
    if ctx.owns_mask() {
        r.parent_mask_path = Some(ctx.path.clone());
    }
    r
}

/// What a frame leads to, with what it needs.
enum Task {
    Skip,
    Enter { object: String, motion: String, ctx: TravelContext },
    Draw { sprite: Option<EmoteStaticSprite> },
}

impl Task {
    spec fn wf(&self) -> bool {
        match self {
            Task::Skip => true,
            Task::Enter { ctx, .. } => ctx.wf(),
            Task::Draw { sprite } => sprite is Some ==> sprite->0@.wf(),
        }
    }

    spec fn shown(&self) -> FrameTask {
        match self {
            Task::Skip => FrameTask::Skip,
            Task::Enter { object, motion, ctx } => FrameTask::Enter {
                object: object@,
                motion: motion@,
                ctx: ctx@,
            },
            Task::Draw { sprite } => FrameTask::Draw { sprite: opt_sprite(*sprite) },
        }
    }
}

spec fn world_of(table: &PsbValue, textures: &TextMap<EmoteTextureSource>) -> StaticWorld {
    StaticWorld { table: *table, textures: textures_view(*textures) }
}

fn find_frame_task(
    table: &PsbValue,
    textures: &TextMap<EmoteTextureSource>,
    motion_name: &str,
    ctx: &TravelContext,
    label: &Option<String>,
    ox: Single,
    oy: Single,
    frame: &PsbValue,
) -> (r: Task)
    requires
        ctx.wf(),
        textures_wf(*textures),
    ensures
        r.wf(),
        r.shown() == frame_task(
            world_of(table, textures),
            motion_name@,
            ctx@,
            opt_string(*label),
            ox,
            oy,
            *frame,
        ),
{
    let content = match frame.field("content") {
        Some(c) => c,
        None => {
            return Task::Skip;
        },
    };
    let src = match content.field_str("src") {
        Some(s) => s,
        None => {
            return Task::Skip;
        },
    };
    if src.is_empty() {
        return Task::Skip;
    }
    let opa = content.field_single("opa").unwrap_or(Single::ten());
    let time = frame.field_i64("time").unwrap_or(0);
    let visible = ctx.base_visible && time <= 0 && Single::zero().lt(opa);
    if let Some(rest) = strip_prefix(src, "motion/") {
        if ctx.base_location.is_none() {
            return Task::Skip;
        }
        return match find_motion_target(rest.as_str()) {
            Some((object, motion)) => {
                let mut below = mask_child_context(ctx);
                below.base_visible = visible;
                Task::Enter { object, motion, ctx: below }
            },
            None => Task::Skip,
        };
    }
    let icon = match content.field_str("icon") {
        Some(s) => s,
        None => {
            return Task::Skip;
        },
    };
    if textures.contains_key(src) {
        match ctx.base_location {
            Some(base) => Task::Draw {
                sprite: build_sprite(
                    textures,
                    src,
                    icon,
                    label,
                    motion_name,
                    base,
                    ox,
                    oy,
                    visible,
                    opa,
                    ctx,
                ),
            },
            None => Task::Skip,
        }
    } else if table.field(src).is_some() {
        let mut below = mask_child_context(ctx);
        below.base_visible = visible;
        Task::Enter { object: src.to_owned(), motion: icon.to_owned(), ctx: below }
    } else {
        Task::Skip
    }
}

fn travel_frames(
    depth: usize,
    table: &PsbValue,
    textures: &TextMap<EmoteTextureSource>,
    motion_name: &str,
    ctx: &TravelContext,
    label: &Option<String>,
    ox: Single,
    oy: Single,
    frames: &Vec<PsbValue>,
    travel: &mut Travel,
) -> (r: bool)
    requires
        ctx.wf(),
        textures_wf(*textures),
        old(travel).wf(),
    ensures
        final(travel).wf(),
        ({
            let t = after_frames(
                depth as nat,
                world_of(table, textures),
                motion_name@,
                ctx@,
                opt_string(*label),
                ox,
                oy,
                frames@,
                frames@.len(),
                old(travel)@,
            );
            r == (t is Some) && (r ==> t == Some(final(travel)@))
        }),
    decreases depth, 0nat, 1nat,
{
    let mut i: usize = 0;
    let ghost start = travel@;
    let ghost world = world_of(table, textures);
    while i < frames.len()
        invariant
            i <= frames@.len(),
            ctx.wf(),
            textures_wf(*textures),
            travel.wf(),
            world == world_of(table, textures),
            start == old(travel)@,
            after_frames(
                depth as nat,
                world,
                motion_name@,
                ctx@,
                opt_string(*label),
                ox,
                oy,
                frames@,
                i as nat,
                start,
            ) == Some(travel@),
        decreases frames@.len() - i,
    {
        match find_frame_task(table, textures, motion_name, ctx, label, ox, oy, &frames[i]) {
            Task::Skip => {},
            Task::Draw { sprite } => {
                travel.put_sprite(sprite);
            },
            Task::Enter { object, motion, ctx: below } => {
                if !recurse_motion(
                    depth,
                    table,
                    textures,
                    object.as_str(),
                    motion.as_str(),
                    &below,
                    travel,
                ) {
                    proof {
                        lemma_frames_stay_deep(
                            depth as nat,
                            world,
                            motion_name@,
                            ctx@,
                            opt_string(*label),
                            ox,
                            oy,
                            frames@,
                            (i + 1) as nat,
                            frames@.len(),
                            start,
                        );
                    }
                    return false;
                }
            },
        }
        i = i + 1;
    }
    true
}

/// Once too deep, the frames stay so.
proof fn lemma_frames_stay_deep(
    depth: nat,
    world: StaticWorld,
    motion_name: Seq<char>,
    ctx: Ctx,
    label: Option<Seq<char>>,
    ox: Single,
    oy: Single,
    frames: Seq<PsbValue>,
    n: nat,
    m: nat,
    trace: Trace,
)
    requires
        n <= m <= frames.len(),
        after_frames(depth, world, motion_name, ctx, label, ox, oy, frames, n, trace) is None,
    ensures
        after_frames(depth, world, motion_name, ctx, label, ox, oy, frames, m, trace) is None,
    decreases m,
{
    if n < m {
        lemma_frames_stay_deep(
            depth,
            world,
            motion_name,
            ctx,
            label,
            ox,
            oy,
            frames,
            n,
            (m - 1) as nat,
            trace,
        );
    }
}

/// Once too deep, the layers stay so.
proof fn lemma_layers_stay_deep(
    depth: nat,
    world: StaticWorld,
    motion_name: Seq<char>,
    ctx: Ctx,
    layers: Seq<PsbValue>,
    n: nat,
    m: nat,
    trace: Trace,
)
    requires
        n <= m <= layers.len(),
        after_layers(depth, world, motion_name, ctx, layers, n, trace) is None,
    ensures
        after_layers(depth, world, motion_name, ctx, layers, m, trace) is None,
    decreases m,
{
    if n < m {
        lemma_layers_stay_deep(
            depth,
            world,
            motion_name,
            ctx,
            layers,
            n,
            (m - 1) as nat,
            trace,
        );
    }
}

/// Walks a motion; false where it nests too deep.
pub fn recurse_motion(
    depth: usize,
    table: &PsbValue,
    textures: &TextMap<EmoteTextureSource>,
    object: &str,
    motion_name: &str,
    ctx: &TravelContext,
    travel: &mut Travel,
) -> (r: bool)
    requires
        ctx.wf(),
        textures_wf(*textures),
        old(travel).wf(),
    ensures
        final(travel).wf(),
        ({
            let t = after_motion(
                depth as nat,
                StaticWorld { table: *table, textures: textures_view(*textures) },
                object@,
                motion_name@,
                ctx@,
                old(travel)@,
            );
            r == (t is Some) && (r ==> t == Some(final(travel)@))
        }),
    decreases depth, 0nat, 0nat,
{
    let motion = match find_motion(table, object, motion_name) {
        Some(m) => m,
        None => {
            return true;
        },
    };
    let layers = match list_of(motion.field("layer")) {
        Some(l) => l,
        None => {
            return true;
        },
    };
    if depth == 0 {
        return false;
    }
    let mut next = ctx.duplicate();
    next.draw_order_base = thousandfold(ctx.draw_index);
    next.priority_ranks = motion_priority_ranks(motion, Single::zero());
    travel_layers(depth - 1, table, textures, motion_name, &next, layers, travel)
}

/// Walks a row of layers; false where it nests too deep.
pub fn travel_layers(
    depth: usize,
    table: &PsbValue,
    textures: &TextMap<EmoteTextureSource>,
    motion_name: &str,
    ctx: &TravelContext,
    layers: &Vec<PsbValue>,
    travel: &mut Travel,
) -> (r: bool)
    requires
        ctx.wf(),
        textures_wf(*textures),
        old(travel).wf(),
    ensures
        final(travel).wf(),
        ({
            let t = after_layers(
                depth as nat,
                StaticWorld { table: *table, textures: textures_view(*textures) },
                motion_name@,
                ctx@,
                layers@,
                layers@.len(),
                old(travel)@,
            );
            r == (t is Some) && (r ==> t == Some(final(travel)@))
        }),
    decreases depth, 2nat, 0nat,
{
    let mut i: usize = 0;
    let ghost start = travel@;
    let ghost world = world_of(table, textures);
    while i < layers.len()
        invariant
            i <= layers@.len(),
            ctx.wf(),
            textures_wf(*textures),
            travel.wf(),
            world == world_of(table, textures),
            start == old(travel)@,
            after_layers(
                depth as nat,
                world,
                motion_name@,
                ctx@,
                layers@,
                i as nat,
                start,
            ) == Some(travel@),
        decreases layers@.len() - i,
    {
        if !travel_layer(depth, table, textures, motion_name, ctx, &layers[i], travel) {
            proof {
                lemma_layers_stay_deep(
                    depth as nat,
                    world,
                    motion_name@,
                    ctx@,
                    layers@,
                    (i + 1) as nat,
                    layers@.len(),
                    start,
                );
            }
            return false;
        }
        i = i + 1;
    }
    true
}

/// Walks a layer; false where it nests too deep.
pub fn travel_layer(
    depth: usize,
    table: &PsbValue,
    textures: &TextMap<EmoteTextureSource>,
    motion_name: &str,
    ctx: &TravelContext,
    layer: &PsbValue,
    travel: &mut Travel,
) -> (r: bool)
    requires
        ctx.wf(),
        textures_wf(*textures),
        old(travel).wf(),
    ensures
        final(travel).wf(),
        ({
            let t = after_layer(
                depth as nat,
                StaticWorld { table: *table, textures: textures_view(*textures) },
                motion_name@,
                ctx@,
                *layer,
                old(travel)@,
            );
            r == (t is Some) && (r ==> t == Some(final(travel)@))
        }),
    decreases depth, 1nat, 0nat,
{
    if layer.as_object().is_none() {
        return true;
    }
    assert(travel@.sprites.len() == travel.sprites@.len());
    let mut own = enter_layer_context(ctx, layer, travel.sprites.len());
    let label = opt_owned(layer.field_str("label"));
    travel.put_owner(&own);
    let ghost entered = own@;
    if let Some(frames) = list_of(layer.field("frameList")) {
        let (ox, oy) = locate(&mut own, frames);
        if !travel_frames(
            depth,
            table,
            textures,
            motion_name,
            &own,
            &label,
            ox,
            oy,
            frames,
            travel,
        ) {
            return false;
        }
    } else {
        assert(located(entered, Seq::empty()) == (entered, Single::zero(), Single::zero()));
    }
    travel.put_layer(layer_state_from_ctx(&label, &own));
    let below = mask_child_context(&own);
    let empty: Vec<PsbValue> = Vec::new();
    let children = match list_of(layer.field("children")) {
        Some(c) => c,
        None => &empty,
    };
    let more = match list_of(layer.field("layer")) {
        Some(c) => c,
        None => &empty,
    };
    assert(children@ =~= items_of(layer.field("children")));
    assert(more@ =~= items_of(layer.field("layer")));
    if children.len() == 0 && more.len() == 0 {
        return true;
    }
    if depth == 0 {
        return false;
    }
    if !travel_layers(depth - 1, table, textures, motion_name, &below, children, travel) {
        return false;
    }
    travel_layers(depth - 1, table, textures, motion_name, &below, more, travel)
}

/// A layer that nests less than `depth` deep leaves the same trace at every
/// greater depth.
pub proof fn lemma_layer_deeper(
    depth: nat,
    more: nat,
    world: StaticWorld,
    motion_name: Seq<char>,
    ctx: Ctx,
    layer: PsbValue,
    trace: Trace,
)
    requires
        depth <= more,
        after_layer(depth, world, motion_name, ctx, layer, trace) is Some,
    ensures
        after_layer(more, world, motion_name, ctx, layer, trace) == after_layer(
            depth,
            world,
            motion_name,
            ctx,
            layer,
            trace,
        ),
    decreases depth, 1nat, 0nat,
{
    if layer.as_object() is Some {
        let entered = ctx.entered(layer, trace.sprites.len() as usize);
        let label = layer.text_field("label");
        let frames = items_of(layer.field("frameList"));
        let (own, ox, oy) = located(entered, frames);
        lemma_frames_deeper(
            depth,
            more,
            world,
            motion_name,
            own,
            label,
            ox,
            oy,
            frames,
            frames.len(),
            trace.with_owner(entered),
        );
        let t = after_frames(
            depth,
            world,
            motion_name,
            own,
            label,
            ox,
            oy,
            frames,
            frames.len(),
            trace.with_owner(entered),
        )->0;
        let shown = t.with_layer(layer_state_of(label, own));
        let children = items_of(layer.field("children"));
        let rest = items_of(layer.field("layer"));
        if children.len() > 0 || rest.len() > 0 {
            let d = (depth - 1) as nat;
            let e = (more - 1) as nat;
            lemma_layers_deeper(
                d,
                e,
                world,
                motion_name,
                own.below(),
                children,
                children.len(),
                shown,
            );
            let t = after_layers(
                d,
                world,
                motion_name,
                own.below(),
                children,
                children.len(),
                shown,
            )->0;
            lemma_layers_deeper(d, e, world, motion_name, own.below(), rest, rest.len(), t);
        }
    }
}

/// A row of layers that nests less than `depth` deep leaves the same trace at
/// every greater depth.
pub proof fn lemma_layers_deeper(
    depth: nat,
    more: nat,
    world: StaticWorld,
    motion_name: Seq<char>,
    ctx: Ctx,
    layers: Seq<PsbValue>,
    n: nat,
    trace: Trace,
)
    requires
        depth <= more,
        after_layers(depth, world, motion_name, ctx, layers, n, trace) is Some,
    ensures
        after_layers(more, world, motion_name, ctx, layers, n, trace) == after_layers(
            depth,
            world,
            motion_name,
            ctx,
            layers,
            n,
            trace,
        ),
    decreases depth, 2nat, n,
{
    if n > 0 && n <= layers.len() {
        lemma_layers_deeper(depth, more, world, motion_name, ctx, layers, (n - 1) as nat, trace);
        let t = after_layers(depth, world, motion_name, ctx, layers, (n - 1) as nat, trace)->0;
        lemma_layer_deeper(depth, more, world, motion_name, ctx, layers[n - 1], t);
    }
}

proof fn lemma_frames_deeper(
    depth: nat,
    more: nat,
    world: StaticWorld,
    motion_name: Seq<char>,
    ctx: Ctx,
    label: Option<Seq<char>>,
    ox: Single,
    oy: Single,
    frames: Seq<PsbValue>,
    n: nat,
    trace: Trace,
)
    requires
        depth <= more,
        after_frames(depth, world, motion_name, ctx, label, ox, oy, frames, n, trace) is Some,
    ensures
        after_frames(more, world, motion_name, ctx, label, ox, oy, frames, n, trace)
            == after_frames(depth, world, motion_name, ctx, label, ox, oy, frames, n, trace),
    decreases depth, 0nat, n,
{
    if n > 0 && n <= frames.len() {
        let m = (n - 1) as nat;
        lemma_frames_deeper(
            depth,
            more,
            world,
            motion_name,
            ctx,
            label,
            ox,
            oy,
            frames,
            m,
            trace,
        );
        let t = after_frames(
            depth,
            world,
            motion_name,
            ctx,
            label,
            ox,
            oy,
            frames,
            m,
            trace,
        )->0;
        match frame_task(world, motion_name, ctx, label, ox, oy, frames[n - 1]) {
            FrameTask::Enter { object, motion, ctx } => {
                lemma_motion_deeper(depth, more, world, object, motion, ctx, t);
            },
            _ => {},
        }
    }
}

proof fn lemma_motion_deeper(
    depth: nat,
    more: nat,
    world: StaticWorld,
    object: Seq<char>,
    motion_name: Seq<char>,
    ctx: Ctx,
    trace: Trace,
)
    requires
        depth <= more,
        after_motion(depth, world, object, motion_name, ctx, trace) is Some,
    ensures
        after_motion(more, world, object, motion_name, ctx, trace) == after_motion(
            depth,
            world,
            object,
            motion_name,
            ctx,
            trace,
        ),
    decreases depth, 0nat, 0nat,
{
    match motion_named(&world.table, object, motion_name) {
        None => {},
        Some(motion) => {
            if list_of(motion.field("layer")) is Some {
                let layers = items_of(motion.field("layer"));
                lemma_layers_deeper(
                    (depth - 1) as nat,
                    (more - 1) as nat,
                    world,
                    motion_name,
                    Ctx {
                        draw_order_base: saturating_thousand(ctx.draw_index),
                        priority_ranks: priority_ranks(*motion, Single::zero()),
                        ..ctx
                    },
                    layers,
                    layers.len(),
                    trace,
                );
            }
        },
    }
}

} // verus!
