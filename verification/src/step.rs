//! Walking the layer tree of a motion at a time, under the current variables.

use crate::combinator::{
    evaluate_mesh_combinator_split, layer_parameter_id, opt_bytes, spec_layer_parameter_id,
    split_combinators,
};
use crate::frames::{
    evaluate_frame_list, frame_list_at, motion_duration, motion_duration_ticks, wrap_motion_time,
    wrapped_time, Coord, DynamicFrameState, FrameState,
};
use crate::layers::{
    add_text, find_motion, layer_parameter_eval, motion_named, motion_parameters,
    motion_priority_ranks, parameter_eval, priority_ranks, target_motion_parameter_ids, text_set,
    LayerParameterEval, ParameterEval,
};
use crate::mesh::{combine_patch, combined, copy_patch, larger, opt_patch, EmoteMeshPatch, Patch};
use crate::order::TextMap;
use crate::psb::{PsbFile, PsbResourceRange};
use crate::scene::{
    build_sprite, enter_layer_context, faded, layer_state_from_ctx, layer_state_of, opt_sprite,
    saturating_thousand, sprite_of, thousandfold, Ctx, EmoteStaticSprite, Sprite, TransformStep,
    TravelContext,
};
use crate::schema::{textures_view, textures_wf, EmoteTextureSource, Texture};
use crate::single::Single;
use crate::text::{clone_opt, contains_text, opt_owned, opt_string, strip_prefix, stripped, texts};
use crate::travel::{
    find_motion_target, mask_child_context, motion_target, moved, Trace, Travel,
};
use crate::value::{either, items_of, list_of, PsbValue};
use vstd::prelude::*;

verus! {

/// What the walk of a motion looks things up in.
pub struct StepWorld {
    pub table: PsbValue,
    pub resources: Seq<PsbResourceRange>,
    pub data: Option<Seq<u8>>,
    pub variables: Map<Seq<char>, Single>,
    pub textures: Map<Seq<char>, Texture>,
}

/// What the walk of a motion looks things up in, by reference.
pub struct StepInput<'a> {
    pub table: &'a PsbValue,
    pub psb: &'a PsbFile,
    pub data: Option<&'a [u8]>,
    pub variables: &'a TextMap<Single>,
    pub textures: &'a TextMap<EmoteTextureSource>,
}

impl<'a> StepInput<'a> {
    pub open spec fn wf(&self) -> bool {
        self.variables.wf() && textures_wf(*self.textures)
    }

    pub open spec fn world(&self) -> StepWorld {
        StepWorld {
            table: *self.table,
            resources: self.psb.resources@,
            data: opt_bytes(self.data),
            variables: self.variables@,
            textures: textures_view(*self.textures),
        }
    }
}

impl Ctx {
    /// With one more patch behind the own one.
    pub open spec fn patched(self, patch: Option<Patch>) -> Ctx {
        match patch {
            Some(p) => Ctx { mesh_patch: combined(self.mesh_patch, p), ..self },
            None => self,
        }
    }

    /// With one more patch that came from the parameter of the given name.
    pub open spec fn synced(self, patch: Option<Patch>, id: Option<Seq<char>>) -> Ctx {
        match patch {
            Some(p) => Ctx {
                mesh_patch: combined(self.mesh_patch, p),
                mesh_parameters: match id {
                    Some(name) => self.mesh_parameters.insert(name),
                    None => self.mesh_parameters,
                },
                ..self
            },
            None => self,
        }
    }

    /// With what drives the layer and the frames it stands between.
    pub open spec fn driven(self, eval: ParameterEval, state: FrameState) -> Ctx {
        Ctx {
            control_parameter: eval.id,
            control_value: eval.value,
            local_time_ticks: Some(eval.local_time),
            frame_index: state.frame_index,
            next_frame_index: state.next_frame_index,
            interpolation_t: state.interpolation_t,
            ..self
        }
    }

    /// Moved, scaled and turned as the state says. The orders `0, 3, 2, 1` scale
    /// before they move.
    pub open spec fn placed(self, state: FrameState) -> Ctx {
        let delta = match state.coord {
            Some(c) => c,
            None => Coord { x: Single::zero(), y: Single::zero(), z: Single::zero() },
        };
        Ctx {
            base_location: Some(moved(self.base_location, delta)),
            transform: self.transform.push(
                TransformStep::Layer {
                    x: delta.x,
                    y: delta.y,
                    scale_x: state.scale_x,
                    scale_y: state.scale_y,
                    rotation_degrees: state.rotation_degrees,
                    scale_first: self.transform_order == seq![0i64, 3, 2, 1],
                },
            ),
            ..self
        }
    }

    /// Faded as the state says.
    pub open spec fn dimmed(self, state: FrameState) -> Ctx {
        Ctx { opacity_multiplier: faded(self.opacity_multiplier, state.opa), ..self }
    }

    /// Whether the children take the shape of the layer.
    pub open spec fn shares_shape(self) -> bool {
        (self.mesh_sync_child & 8) != 0
    }
}

/// The contexts to draw the layer in and to walk its children in, once its
/// combinators have been applied. Children take the patches only where the layer
/// shares its shape.
#[verifier::opaque]
pub open spec fn combined_contexts(
    world: StepWorld,
    params: Option<&Vec<PsbValue>>,
    entered: Ctx,
    layer: PsbValue,
) -> (Ctx, Ctx) {
    let eval = split_combinators(
        layer,
        params,
        world.resources,
        world.data,
        world.variables,
        entered.mesh_division_x,
        entered.mesh_division_y,
    );
    let id = spec_layer_parameter_id(layer, params);
    let below = entered.below();
    (
        entered.patched(eval.self_patch),
        if entered.shares_shape() {
            below.synced(eval.self_patch, id).synced(eval.child_patch, id)
        } else {
            below
        },
    )
}

/// The patch of a frame, divided at least as finely as the layer.
pub open spec fn frame_patch(entered: Ctx, state: FrameState) -> Option<Patch> {
    match state.mesh_patch {
        Some(p) => Some(
            Patch {
                division_x: larger(entered.mesh_division_x, p.division_x),
                division_y: larger(entered.mesh_division_y, p.division_y),
                ..p
            },
        ),
        None => None,
    }
}

/// A layer at a time: the contexts to draw it and to walk its children in, and
/// what its frames show.
pub struct Posed {
    pub draw: Ctx,
    pub child: Ctx,
    pub state: FrameState,
}

/// The pose that the frames give a layer.
#[verifier::opaque]
pub open spec fn posed(
    world: StepWorld,
    params: Option<&Vec<PsbValue>>,
    entered: Ctx,
    layer: PsbValue,
    frames: Seq<PsbValue>,
) -> Posed {
    let (draw, child) = combined_contexts(world, params, entered, layer);
    let eval = parameter_eval(layer, params, world.variables, frames);
    let state = frame_list_at(frames, eval.local_time);
    let patch = frame_patch(entered, state);
    let id = spec_layer_parameter_id(layer, params);
    Posed {
        draw: draw.driven(eval, state).patched(patch).placed(state).dimmed(state),
        child: (if entered.shares_shape() {
            child.driven(eval, state).synced(patch, id)
        } else {
            child.driven(eval, state)
        }).placed(state).dimmed(state),
        state,
    }
}

/// The context handed to a motion. A layer that asks for it hands its shape down
/// only to a motion that shares at least four of its parameters.
pub open spec fn inherited(
    table: PsbValue,
    layer: PsbValue,
    object: Seq<char>,
    motion: Seq<char>,
    ctx: Ctx,
) -> Ctx {
    if layer.field_i64("motionIndependentLayerInherit").unwrap_or(1) != 0 {
        ctx
    } else {
        let keeps = match motion_parameters(table, object, motion) {
            Some(ids) => ids.intersect(ctx.mesh_parameters).len() >= 4,
            None => false,
        };
        if keeps {
            ctx
        } else {
            Ctx { mesh_patch: None, mesh_parameters: Set::empty(), ..ctx }
        }
    }
}

/// What the pose of a layer leads to.
pub enum StepTask {
    /// Nothing.
    Skip,
    /// A motion, with its context and time.
    Enter { object: Seq<char>, motion: Seq<char>, ctx: Ctx, time: Single },
    /// A sprite, where the texture has the icon.
    Draw { sprite: Option<Sprite> },
}

/// What the pose of a layer leads to.
#[verifier::opaque]
pub open spec fn step_task(
    world: StepWorld,
    motion_name: Seq<char>,
    time: Single,
    layer: PsbValue,
    pose: Posed,
) -> StepTask {
    let state = pose.state;
    let visible = pose.draw.base_visible && Single::zero().lt(pose.draw.opacity_multiplier);
    let below = Ctx { base_visible: visible, ..pose.child };
    let next_time = time.plus(state.time_offset_ticks);
    match state.src {
        None => StepTask::Skip,
        Some(src) => if src.len() == 0 {
            StepTask::Skip
        } else if stripped(src, "motion/"@) is Some {
            match motion_target(stripped(src, "motion/"@)->0) {
                Some((object, motion)) => StepTask::Enter {
                    object,
                    motion,
                    ctx: inherited(world.table, layer, object, motion, below),
                    time: next_time,
                },
                None => StepTask::Skip,
            }
        } else {
            match state.icon {
                None => StepTask::Skip,
                Some(icon) => if world.textures.dom().contains(src) {
                    StepTask::Draw {
                        sprite: sprite_of(
                            world.textures,
                            src,
                            icon,
                            layer.text_field("label"),
                            motion_name,
                            pose.draw.base_location->0,
                            state.ox,
                            state.oy,
                            visible,
                            Single::ten(),
                            pose.draw,
                        ),
                    }
                } else if world.table.named(src) is Some {
                    StepTask::Enter {
                        object: src,
                        motion: icon,
                        ctx: inherited(world.table, layer, src, icon, below),
                        time: next_time,
                    }
                } else {
                    StepTask::Skip
                },
            }
        },
    }
}

/// The trace after a layer at a time. A layer that enters a motion leaves its own
/// children out.
pub open spec fn step_layer(
    depth: nat,
    world: StepWorld,
    params: Option<&Vec<PsbValue>>,
    motion_name: Seq<char>,
    time: Single,
    ctx: Ctx,
    layer: PsbValue,
    trace: Trace,
) -> Option<Trace>
    decreases depth, 0nat, 1nat,
{
    if layer.as_object() is None {
        Some(trace)
    } else {
        let entered = ctx.entered(layer, trace.sprites.len() as usize);
        let label = layer.text_field("label");
        let owned = trace.with_owner(entered);
        match list_of(layer.field("frameList")) {
            None => step_children(
                depth,
                world,
                params,
                motion_name,
                time,
                combined_contexts(world, params, entered, layer).1,
                layer,
                owned.with_layer(
                    layer_state_of(label, combined_contexts(world, params, entered, layer).1),
                ),
            ),
            Some(frames) => {
                let pose = posed(world, params, entered, layer, frames@);
                let state = layer_state_of(label, pose.child);
                match step_task(world, motion_name, time, layer, pose) {
                    StepTask::Skip => step_children(
                        depth,
                        world,
                        params,
                        motion_name,
                        time,
                        pose.child,
                        layer,
                        owned.with_layer(state),
                    ),
                    StepTask::Draw { sprite } => step_children(
                        depth,
                        world,
                        params,
                        motion_name,
                        time,
                        pose.child,
                        layer,
                        owned.with_sprite(sprite).with_layer(state),
                    ),
                    StepTask::Enter { object, motion, ctx, time } => if depth == 0 {
                        None
                    } else {
                        match step_motion(
                            (depth - 1) as nat,
                            world,
                            params,
                            object,
                            motion,
                            time,
                            ctx,
                            owned,
                        ) {
                            Some(t) => Some(t.with_layer(state)),
                            None => None,
                        }
                    },
                }
            },
        }
    }
}

/// The trace after what lies below a layer.
pub open spec fn step_children(
    depth: nat,
    world: StepWorld,
    params: Option<&Vec<PsbValue>>,
    motion_name: Seq<char>,
    time: Single,
    ctx: Ctx,
    layer: PsbValue,
    trace: Trace,
) -> Option<Trace>
    decreases depth, 0nat, 0nat,
{
    let children = items_of(layer.field("children"));
    let more = items_of(layer.field("layer"));
    if children.len() == 0 && more.len() == 0 {
        Some(trace)
    } else if depth == 0 {
        None
    } else {
        let d = (depth - 1) as nat;
        match step_layers(
            d,
            world,
            params,
            motion_name,
            time,
            ctx,
            children,
            children.len(),
            trace,
        ) {
            None => None,
            Some(t) => step_layers(
                d,
                world,
                params,
                motion_name,
                time,
                ctx,
                more,
                more.len(),
                t,
            ),
        }
    }
}

/// The trace after the first `n` layers of a row at a time.
pub open spec fn step_layers(
    depth: nat,
    world: StepWorld,
    params: Option<&Vec<PsbValue>>,
    motion_name: Seq<char>,
    time: Single,
    ctx: Ctx,
    layers: Seq<PsbValue>,
    n: nat,
    trace: Trace,
) -> Option<Trace>
    decreases depth, 1nat, n,
{
    if n == 0 || n > layers.len() {
        Some(trace)
    } else {
        match step_layers(
            depth,
            world,
            params,
            motion_name,
            time,
            ctx,
            layers,
            (n - 1) as nat,
            trace,
        ) {
            None => None,
            Some(t) => step_layer(
                depth,
                world,
                params,
                motion_name,
                time,
                ctx,
                layers[n - 1],
                t,
            ),
        }
    }
}

/// The trace after a motion at a time. The motion runs round, and its own
/// parameters stand before those of the motion around it.
pub open spec fn step_motion(
    depth: nat,
    world: StepWorld,
    params: Option<&Vec<PsbValue>>,
    object: Seq<char>,
    motion_name: Seq<char>,
    time: Single,
    ctx: Ctx,
    trace: Trace,
) -> Option<Trace>
    decreases depth, 2nat, 0nat,
{
    match motion_named(&world.table, object, motion_name) {
        None => Some(trace),
        Some(motion) => {
            let layers = items_of(motion.field("layer"));
            let now = wrapped_time(time, motion_duration(*motion).unwrap_or(Single::zero()));
            step_layers(
                depth,
                world,
                either(list_of(motion.field("parameter")), params),
                motion_name,
                now,
                Ctx {
                    draw_order_base: saturating_thousand(ctx.draw_index),
                    priority_ranks: priority_ranks(*motion, now),
                    ..ctx
                },
                layers,
                layers.len(),
                trace,
            )
        },
    }
}

fn put_patch(ctx: &mut TravelContext, patch: &Option<EmoteMeshPatch>)
    requires
        old(ctx).wf(),
        patch is Some ==> patch->0@.wf(),
    ensures
        final(ctx).wf(),
        final(ctx)@ == old(ctx)@.patched(opt_patch(*patch)),
{
    if let Some(p) = patch {
        ctx.mesh_patch = combine_patch(&ctx.mesh_patch, p);
    }
}

fn put_synced_patch(ctx: &mut TravelContext, patch: &Option<EmoteMeshPatch>, id: &Option<String>)
    requires
        old(ctx).wf(),
        patch is Some ==> patch->0@.wf(),
    ensures
        final(ctx).wf(),
        final(ctx)@ == old(ctx)@.synced(opt_patch(*patch), opt_string(*id)),
{
    if let Some(p) = patch {
        ctx.mesh_patch = combine_patch(&ctx.mesh_patch, p);
        if let Some(name) = id {
            add_text(&mut ctx.mesh_parameters, name.as_str());
        }
    }
}

fn drive(ctx: &mut TravelContext, eval: &LayerParameterEval, state: &DynamicFrameState)
    requires
        old(ctx).wf(),
    ensures
        final(ctx).wf(),
        final(ctx)@ == old(ctx)@.driven(eval@, state@),
{
    ctx.control_parameter = clone_opt(&eval.id);
    ctx.control_value = eval.value;
    ctx.local_time_ticks = Some(eval.local_time_ticks);
    ctx.frame_index = state.frame_index;
    ctx.next_frame_index = state.next_frame_index;
    ctx.interpolation_t = state.interpolation_t;
}

fn scales_first(order: &Vec<i64>) -> (r: bool)
    ensures
        r == (order@ == seq![0i64, 3, 2, 1]),
{
    let r = order.len() == 4 && order[0] == 0 && order[1] == 3 && order[2] == 2 && order[3] == 1;
    proof {
        if r {
            assert(order@ =~= seq![0i64, 3, 2, 1]);
        }
    }
    r
}

/// Places and fades a context as the frames say.
pub fn apply_layer_transform(ctx: &mut TravelContext, state: &DynamicFrameState)
    requires
        old(ctx).wf(),
    ensures
        final(ctx).wf(),
        final(ctx)@ == old(ctx)@.placed(state@).dimmed(state@),
{
    let delta = match state.coord {
        Some(c) => c,
        None => Coord { x: Single::zero(), y: Single::zero(), z: Single::zero() },
    };
    let step = TransformStep::Layer {
        x: delta.x,
        y: delta.y,
        scale_x: state.scale_x,
        scale_y: state.scale_y,
        rotation_degrees: state.rotation_degrees,
        scale_first: scales_first(&ctx.transform_order),
    };
    ctx.base_location = Some(moved(ctx.base_location, delta));
    ctx.transform.push(step);
    ctx.opacity_multiplier = faded(ctx.opacity_multiplier, state.opa);
}

fn combine_contexts(
    input: &StepInput,
    params: Option<&Vec<PsbValue>>,
    entered: &TravelContext,
    layer: &PsbValue,
) -> (r: (TravelContext, TravelContext))
    requires
        input.wf(),
        entered.wf(),
    ensures
        r.0.wf(),
        r.1.wf(),
        (r.0@, r.1@) == combined_contexts(input.world(), params, entered@, *layer),
{
    proof {
        reveal(combined_contexts);
    }
    let eval = evaluate_mesh_combinator_split(
        layer,
        params,
        input.psb,
        input.data,
        input.variables,
        entered.mesh_division_x,
        entered.mesh_division_y,
    );
    let mut draw = entered.duplicate();
    let mut child = mask_child_context(entered);
    put_patch(&mut draw, &eval.self_patch);
    if (entered.mesh_sync_child & 8) != 0 {
        let id = layer_parameter_id(layer, params);
        put_synced_patch(&mut child, &eval.self_patch, &id);
        put_synced_patch(&mut child, &eval.child_patch, &id);
    }
    (draw, child)
}

struct Pose {
    draw: TravelContext,
    child: TravelContext,
    state: DynamicFrameState,
}

impl Pose {
    spec fn wf(&self) -> bool {
        self.draw.wf() && self.child.wf()
    }

    spec fn shown(&self) -> Posed {
        Posed { draw: self.draw@, child: self.child@, state: self.state@ }
    }
}

fn find_frame_patch(entered: &TravelContext, state: &DynamicFrameState) -> (r: Option<
    EmoteMeshPatch,
>)
    requires
        state@.wf(),
    ensures
        opt_patch(r) == frame_patch(entered@, state@),
        r is Some ==> r->0@.wf(),
{
    match copy_patch(&state.mesh_patch) {
        Some(p) => Some(
            EmoteMeshPatch {
                division_x: larger(entered.mesh_division_x, p.division_x),
                division_y: larger(entered.mesh_division_y, p.division_y),
                ..p
            },
        ),
        None => None,
    }
}

fn find_pose(
    input: &StepInput,
    params: Option<&Vec<PsbValue>>,
    entered: &TravelContext,
    layer: &PsbValue,
    frames: &Vec<PsbValue>,
) -> (r: Pose)
    requires
        input.wf(),
        entered.wf(),
    ensures
        r.wf(),
        r.shown() == posed(input.world(), params, entered@, *layer, frames@),
        r.draw.base_location is Some,
{
    proof {
        reveal(posed);
    }
    let (mut draw, mut child) = combine_contexts(input, params, entered, layer);
    let eval = layer_parameter_eval(layer, params, input.variables, frames);
    let state = evaluate_frame_list(frames, eval.local_time_ticks);
    let patch = find_frame_patch(entered, &state);
    drive(&mut draw, &eval, &state);
    put_patch(&mut draw, &patch);
    apply_layer_transform(&mut draw, &state);
    drive(&mut child, &eval, &state);
    if (entered.mesh_sync_child & 8) != 0 {
        let id = layer_parameter_id(layer, params);
        put_synced_patch(&mut child, &patch, &id);
    }
    apply_layer_transform(&mut child, &state);
    Pose { draw, child, state }
}

/// One more shared text, where it is in the set.
proof fn lemma_shared_grows(ids: Seq<Seq<char>>, n: int, set: Set<Seq<char>>)
    requires
        0 <= n < ids.len(),
        ids.no_duplicates(),
    ensures
        ids.take(n + 1).to_set().intersect(set).len() == ids.take(n).to_set().intersect(set).len()
            + (if set.contains(ids[n]) {
            1nat
        } else {
            0
        }),
{
    let before = ids.take(n).to_set().intersect(set);
    let after = ids.take(n + 1).to_set().intersect(set);
    assert(ids.take(n).to_set().finite()) by {
        vstd::seq_lib::seq_to_set_is_finite(ids.take(n));
    }
    assert(!ids.take(n).to_set().contains(ids[n]));
    assert forall|s: Seq<char>| #[trigger] ids.take(n + 1).to_set().contains(s) == (
    ids.take(n).to_set().contains(s) || s == ids[n]) by {
        let longer = ids.take(n + 1);
        if longer.contains(s) {
            let i = choose|i: int| 0 <= i < longer.len() && longer[i] == s;
            if i < n {
                assert(ids.take(n)[i] == s);
            }
        }
        if ids.take(n).contains(s) {
            let i = choose|i: int| 0 <= i < n && ids.take(n)[i] == s;
            assert(ids.take(n + 1)[i] == s);
        }
        assert(ids.take(n + 1)[n] == ids[n]);
    }
    if set.contains(ids[n]) {
        assert(after =~= before.insert(ids[n]));
    } else {
        assert(after =~= before);
    }
}

/// Takes the inherited shape away where the motion shares too little of it.
pub fn apply_motion_layer_inherit(
    layer: &PsbValue,
    table: &PsbValue,
    object: &str,
    motion: &str,
    ctx: &mut TravelContext,
)
    requires
        old(ctx).wf(),
    ensures
        final(ctx).wf(),
        final(ctx)@ == inherited(*table, *layer, object@, motion@, old(ctx)@),
{
    if layer.field_i64("motionIndependentLayerInherit").unwrap_or(1) != 0 {
        return;
    }
    let mut shared: usize = 0;
    let ghost set = ctx@.mesh_parameters;
    if let Some(ids) = target_motion_parameter_ids(table, object, motion) {
        let mut i: usize = 0;
        assert(texts(ids@).take(0).to_set().intersect(set) =~= Set::<Seq<char>>::empty());
        while i < ids.len()
            invariant
                i <= ids@.len(),
                shared <= i,
                ctx.wf(),
                set == text_set(ctx.mesh_parameters@),
                texts(ids@).no_duplicates(),
                shared == texts(ids@).take(i as int).to_set().intersect(set).len(),
            decreases ids@.len() - i,
        {
            proof {
                lemma_shared_grows(texts(ids@), i as int, set);
            }
            if contains_text(&ctx.mesh_parameters, ids[i].as_str()) {
                assert(set.contains(ids@[i as int]@));
                shared = shared + 1;
            } else {
                assert(!set.contains(ids@[i as int]@));
            }
            i = i + 1;
        }
        assert(texts(ids@).take(i as int) =~= texts(ids@));
    }
    if shared < 4 {
        ctx.mesh_patch = None;
        ctx.mesh_parameters = Vec::new();
        assert(text_set(ctx.mesh_parameters@) =~= Set::<Seq<char>>::empty());
    }
}

enum Task {
    Skip,
    Enter { object: String, motion: String, ctx: TravelContext, time: Single },
    Draw { sprite: Option<EmoteStaticSprite> },
}

impl Task {
    spec fn wf(&self) -> bool {
        match self {
            Task::Skip => true,
            Task::Enter { ctx, .. } => ctx.wf(),
            Task::Draw { sprite } => sprite is Some ==> sprite->0@.wf(),
        }
    }

    spec fn shown(&self) -> StepTask {
        match self {
            Task::Skip => StepTask::Skip,
            Task::Enter { object, motion, ctx, time } => StepTask::Enter {
                object: object@,
                motion: motion@,
                ctx: ctx@,
                time: *time,
            },
            Task::Draw { sprite } => StepTask::Draw { sprite: opt_sprite(*sprite) },
        }
    }
}

fn enter_task(
    input: &StepInput,
    time: Single,
    layer: &PsbValue,
    pose: &Pose,
    visible: bool,
    object: String,
    motion: String,
) -> (r: Task)
    requires
        pose.wf(),
    ensures
        r.wf(),
        r.shown() == (StepTask::Enter {
            object: object@,
            motion: motion@,
            ctx: inherited(
                *input.table,
                *layer,
                object@,
                motion@,
                Ctx { base_visible: visible, ..pose.child@ },
            ),
            time: time.plus(pose.state.time_offset_ticks),
        }),
{
    let mut ctx = pose.child.duplicate();
    ctx.base_visible = visible;
    apply_motion_layer_inherit(layer, input.table, object.as_str(), motion.as_str(), &mut ctx);
    Task::Enter { object, motion, ctx, time: time.plus(pose.state.time_offset_ticks) }
}

fn find_step_task(
    input: &StepInput,
    motion_name: &str,
    time: Single,
    layer: &PsbValue,
    pose: &Pose,
) -> (r: Task)
    requires
        input.wf(),
        pose.wf(),
        pose.draw.base_location is Some,
    ensures
        r.wf(),
        r.shown() == step_task(input.world(), motion_name@, time, *layer, pose.shown()),
{
    proof {
        reveal(step_task);
    }
    let visible = pose.draw.base_visible && Single::zero().lt(pose.draw.opacity_multiplier);
    let src = match &pose.state.src {
        Some(s) => s,
        None => {
            return Task::Skip;
        },
    };
    if src.as_str().is_empty() {
        return Task::Skip;
    }
    if let Some(rest) = strip_prefix(src.as_str(), "motion/") {
        return match find_motion_target(rest.as_str()) {
            Some((object, motion)) => enter_task(
                input,
                time,
                layer,
                pose,
                visible,
                object,
                motion,
            ),
            None => Task::Skip,
        };
    }
    let icon = match &pose.state.icon {
        Some(s) => s,
        None => {
            return Task::Skip;
        },
    };
    if input.textures.contains_key(src.as_str()) {
        match pose.draw.base_location {
            Some(base) => {
                let label = opt_owned(layer.field_str("label"));
                Task::Draw {
                    sprite: build_sprite(
                        input.textures,
                        src.as_str(),
                        icon.as_str(),
                        &label,
                        motion_name,
                        base,
                        pose.state.ox,
                        pose.state.oy,
                        visible,
                        Single::ten(),
                        &pose.draw,
                    ),
                }
            },
            None => Task::Skip,
        }
    } else if input.table.field(src.as_str()).is_some() {
        enter_task(input, time, layer, pose, visible, src.clone(), icon.clone())
    } else {
        Task::Skip
    }
}

/// Walks a layer at a time; false where it nests too deep.
pub fn travel_layer_at(
    depth: usize,
    input: &StepInput,
    params: Option<&Vec<PsbValue>>,
    motion_name: &str,
    time: Single,
    ctx: &TravelContext,
    layer: &PsbValue,
    travel: &mut Travel,
) -> (r: bool)
    requires
        input.wf(),
        ctx.wf(),
        old(travel).wf(),
    ensures
        final(travel).wf(),
        ({
            let t = step_layer(
                depth as nat,
                input.world(),
                params,
                motion_name@,
                time,
                ctx@,
                *layer,
                old(travel)@,
            );
            r == (t is Some) && (r ==> t == Some(final(travel)@))
        }),
    decreases depth, 0nat, 1nat,
{
    if layer.as_object().is_none() {
        return true;
    }
    assert(travel@.sprites.len() == travel.sprites@.len());
    let entered = enter_layer_context(ctx, layer, travel.sprites.len());
    let label = opt_owned(layer.field_str("label"));
    travel.put_owner(&entered);
    match list_of(layer.field("frameList")) {
        None => {
            let (_, child) = combine_contexts(input, params, &entered, layer);
            travel.put_layer(layer_state_from_ctx(&label, &child));
            travel_children_at(depth, input, params, motion_name, time, &child, layer, travel)
        },
        Some(frames) => {
            let pose = find_pose(input, params, &entered, layer, frames);
            match find_step_task(input, motion_name, time, layer, &pose) {
                Task::Skip => {},
                Task::Draw { sprite } => {
                    travel.put_sprite(sprite);
                },
                Task::Enter { object, motion, ctx: below, time: next } => {
                    if depth == 0 {
                        return false;
                    }
                    if !recurse_motion_at(
                        depth - 1,
                        input,
                        params,
                        object.as_str(),
                        motion.as_str(),
                        next,
                        &below,
                        travel,
                    ) {
                        return false;
                    }
                    travel.put_layer(layer_state_from_ctx(&label, &pose.child));
                    return true;
                },
            }
            travel.put_layer(layer_state_from_ctx(&label, &pose.child));
            travel_children_at(depth, input, params, motion_name, time, &pose.child, layer, travel)
        },
    }
}

fn travel_children_at(
    depth: usize,
    input: &StepInput,
    params: Option<&Vec<PsbValue>>,
    motion_name: &str,
    time: Single,
    ctx: &TravelContext,
    layer: &PsbValue,
    travel: &mut Travel,
) -> (r: bool)
    requires
        input.wf(),
        ctx.wf(),
        old(travel).wf(),
    ensures
        final(travel).wf(),
        ({
            let t = step_children(
                depth as nat,
                input.world(),
                params,
                motion_name@,
                time,
                ctx@,
                *layer,
                old(travel)@,
            );
            r == (t is Some) && (r ==> t == Some(final(travel)@))
        }),
    decreases depth, 0nat, 0nat,
{
    let empty: Vec<PsbValue> = Vec::new();
    let children = match list_of(layer.field("children")) {
        Some(c) => c,
        None => &empty,
    };
    let more = match list_of(layer.field("layer")) {
        Some(c) => c,
        None => &empty,
    };
    assert(children@ =~= items_of(layer.field("children")));
    assert(more@ =~= items_of(layer.field("layer")));
    if children.len() == 0 && more.len() == 0 {
        return true;
    }
    if depth == 0 {
        return false;
    }
    if !travel_layers_at(
        depth - 1,
        input,
        params,
        motion_name,
        time,
        ctx,
        children,
        travel,
    ) {
        return false;
    }
    travel_layers_at(depth - 1, input, params, motion_name, time, ctx, more, travel)
}

/// Once too deep, the layers stay so.
proof fn lemma_layers_stay_deep(
    depth: nat,
    world: StepWorld,
    params: Option<&Vec<PsbValue>>,
    motion_name: Seq<char>,
    time: Single,
    ctx: Ctx,
    layers: Seq<PsbValue>,
    n: nat,
    m: nat,
    trace: Trace,
)
    requires
        n <= m <= layers.len(),
        step_layers(depth, world, params, motion_name, time, ctx, layers, n, trace) is None,
    ensures
        step_layers(depth, world, params, motion_name, time, ctx, layers, m, trace) is None,
    decreases m,
{
    if n < m {
        lemma_layers_stay_deep(
            depth,
            world,
            params,
            motion_name,
            time,
            ctx,
            layers,
            n,
            (m - 1) as nat,
            trace,
        );
    }
}

/// Walks a row of layers at a time; false where it nests too deep.
pub fn travel_layers_at(
    depth: usize,
    input: &StepInput,
    params: Option<&Vec<PsbValue>>,
    motion_name: &str,
    time: Single,
    ctx: &TravelContext,
    layers: &Vec<PsbValue>,
    travel: &mut Travel,
) -> (r: bool)
    requires
        input.wf(),
        ctx.wf(),
        old(travel).wf(),
    ensures
        final(travel).wf(),
        ({
            let t = step_layers(
                depth as nat,
                input.world(),
                params,
                motion_name@,
                time,
                ctx@,
                layers@,
                layers@.len(),
                old(travel)@,
            );
            r == (t is Some) && (r ==> t == Some(final(travel)@))
        }),
    decreases depth, 1nat, 0nat,
{
    let mut i: usize = 0;
    let ghost start = travel@;
    while i < layers.len()
        invariant
            i <= layers@.len(),
            input.wf(),
            ctx.wf(),
            travel.wf(),
            start == old(travel)@,
            step_layers(
                depth as nat,
                input.world(),
                params,
                motion_name@,
                time,
                ctx@,
                layers@,
                i as nat,
                start,
            ) == Some(travel@),
        decreases layers@.len() - i,
    {
        if !travel_layer_at(depth, input, params, motion_name, time, ctx, &layers[i], travel) {
            proof {
                lemma_layers_stay_deep(
                    depth as nat,
                    input.world(),
                    params,
                    motion_name@,
                    time,
                    ctx@,
                    layers@,
                    (i + 1) as nat,
                    layers@.len(),
                    start,
                );
            }
            return false;
        }
        i = i + 1;
    }
    true
}

/// Walks a motion at a time; false where it nests too deep.
pub fn recurse_motion_at(
    depth: usize,
    input: &StepInput,
    params: Option<&Vec<PsbValue>>,
    object: &str,
    motion_name: &str,
    time: Single,
    ctx: &TravelContext,
    travel: &mut Travel,
) -> (r: bool)
    requires
        input.wf(),
        ctx.wf(),
        old(travel).wf(),
    ensures
        final(travel).wf(),
        ({
            let t = step_motion(
                depth as nat,
                input.world(),
                params,
                object@,
                motion_name@,
                time,
                ctx@,
                old(travel)@,
            );
            r == (t is Some) && (r ==> t == Some(final(travel)@))
        }),
    decreases depth, 2nat, 0nat,
{
    let motion = match find_motion(input.table, object, motion_name) {
        Some(m) => m,
        None => {
            return true;
        },
    };
    let layers = match list_of(motion.field("layer")) {
        Some(l) => l,
        None => {
            return true;
        },
    };
    let inner = either(list_of(motion.field("parameter")), params);
    let now = wrap_motion_time(
        time,
        motion_duration_ticks(motion).unwrap_or(Single::zero()),
    );
    let mut next = ctx.duplicate();
    next.draw_order_base = thousandfold(ctx.draw_index);
    next.priority_ranks = motion_priority_ranks(motion, now);
    travel_layers_at(depth, input, inner, motion_name, now, &next, layers, travel)
}

/// A layer that nests less than `depth` deep leaves the same trace at every
/// greater depth.
pub proof fn lemma_step_layer_deeper(
    depth: nat,
    more: nat,
    world: StepWorld,
    params: Option<&Vec<PsbValue>>,
    motion_name: Seq<char>,
    time: Single,
    ctx: Ctx,
    layer: PsbValue,
    trace: Trace,
)
    requires
        depth <= more,
        step_layer(depth, world, params, motion_name, time, ctx, layer, trace) is Some,
    ensures
        step_layer(more, world, params, motion_name, time, ctx, layer, trace) == step_layer(
            depth,
            world,
            params,
            motion_name,
            time,
            ctx,
            layer,
            trace,
        ),
    decreases depth, 0nat, 1nat,
{
    if layer.as_object() is Some {
        let entered = ctx.entered(layer, trace.sprites.len() as usize);
        let label = layer.text_field("label");
        let owned = trace.with_owner(entered);
        match list_of(layer.field("frameList")) {
            None => {
                let child = combined_contexts(world, params, entered, layer).1;
                lemma_step_children_deeper(
                    depth,
                    more,
                    world,
                    params,
                    motion_name,
                    time,
                    child,
                    layer,
                    owned.with_layer(layer_state_of(label, child)),
                );
            },
            Some(frames) => {
                let pose = posed(world, params, entered, layer, frames@);
                let state = layer_state_of(label, pose.child);
                match step_task(world, motion_name, time, layer, pose) {
                    StepTask::Skip => {
                        lemma_step_children_deeper(
                            depth,
                            more,
                            world,
                            params,
                            motion_name,
                            time,
                            pose.child,
                            layer,
                            owned.with_layer(state),
                        );
                    },
                    StepTask::Draw { sprite } => {
                        lemma_step_children_deeper(
                            depth,
                            more,
                            world,
                            params,
                            motion_name,
                            time,
                            pose.child,
                            layer,
                            owned.with_sprite(sprite).with_layer(state),
                        );
                    },
                    StepTask::Enter { object, motion, ctx, time } => {
                        lemma_step_motion_deeper(
                            (depth - 1) as nat,
                            (more - 1) as nat,
                            world,
                            params,
                            object,
                            motion,
                            time,
                            ctx,
                            owned,
                        );
                    },
                }
            },
        }
    }
}

proof fn lemma_step_children_deeper(
    depth: nat,
    more: nat,
    world: StepWorld,
    params: Option<&Vec<PsbValue>>,
    motion_name: Seq<char>,
    time: Single,
    ctx: Ctx,
    layer: PsbValue,
    trace: Trace,
)
    requires
        depth <= more,
        step_children(depth, world, params, motion_name, time, ctx, layer, trace) is Some,
    ensures
        step_children(more, world, params, motion_name, time, ctx, layer, trace) == step_children(
            depth,
            world,
            params,
            motion_name,
            time,
            ctx,
            layer,
            trace,
        ),
    decreases depth, 0nat, 0nat,
{
    let children = items_of(layer.field("children"));
    let rest = items_of(layer.field("layer"));
    if children.len() > 0 || rest.len() > 0 {
        let d = (depth - 1) as nat;
        let e = (more - 1) as nat;
        lemma_step_layers_deeper(
            d,
            e,
            world,
            params,
            motion_name,
            time,
            ctx,
            children,
            children.len(),
            trace,
        );
        let t = step_layers(
            d,
            world,
            params,
            motion_name,
            time,
            ctx,
            children,
            children.len(),
            trace,
        )->0;
        lemma_step_layers_deeper(
            d,
            e,
            world,
            params,
            motion_name,
            time,
            ctx,
            rest,
            rest.len(),
            t,
        );
    }
}

/// A row of layers that nests less than `depth` deep leaves the same trace at
/// every greater depth.
pub proof fn lemma_step_layers_deeper(
    depth: nat,
    more: nat,
    world: StepWorld,
    params: Option<&Vec<PsbValue>>,
    motion_name: Seq<char>,
    time: Single,
    ctx: Ctx,
    layers: Seq<PsbValue>,
    n: nat,
    trace: Trace,
)
    requires
        depth <= more,
        step_layers(depth, world, params, motion_name, time, ctx, layers, n, trace) is Some,
    ensures
        step_layers(more, world, params, motion_name, time, ctx, layers, n, trace) == step_layers(
            depth,
            world,
            params,
            motion_name,
            time,
            ctx,
            layers,
            n,
            trace,
        ),
    decreases depth, 1nat, n,
{
    if n > 0 && n <= layers.len() {
        let m = (n - 1) as nat;
        lemma_step_layers_deeper(
            depth,
            more,
            world,
            params,
            motion_name,
            time,
            ctx,
            layers,
            m,
            trace,
        );
        let t = step_layers(
            depth,
            world,
            params,
            motion_name,
            time,
            ctx,
            layers,
            m,
            trace,
        )->0;
        lemma_step_layer_deeper(
            depth,
            more,
            world,
            params,
            motion_name,
            time,
            ctx,
            layers[n - 1],
            t,
        );
    }
}

proof fn lemma_step_motion_deeper(
    depth: nat,
    more: nat,
    world: StepWorld,
    params: Option<&Vec<PsbValue>>,
    object: Seq<char>,
    motion_name: Seq<char>,
    time: Single,
    ctx: Ctx,
    trace: Trace,
)
    requires
        depth <= more,
        step_motion(depth, world, params, object, motion_name, time, ctx, trace) is Some,
    ensures
        step_motion(more, world, params, object, motion_name, time, ctx, trace) == step_motion(
            depth,
            world,
            params,
            object,
            motion_name,
            time,
            ctx,
            trace,
        ),
    decreases depth, 2nat, 0nat,
{
    match motion_named(&world.table, object, motion_name) {
        None => {},
        Some(motion) => {
            let layers = items_of(motion.field("layer"));
            let now = wrapped_time(time, motion_duration(*motion).unwrap_or(Single::zero()));
            lemma_step_layers_deeper(
                depth,
                more,
                world,
                either(list_of(motion.field("parameter")), params),
                motion_name,
                now,
                Ctx {
                    draw_order_base: saturating_thousand(ctx.draw_index),
                    priority_ranks: priority_ranks(*motion, now),
                    ..ctx
                },
                layers,
                layers.len(),
                trace,
            );
        },
    }
}

} // verus!
