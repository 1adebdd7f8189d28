//! Sprites and layers of a scene, and the context that a traversal carries down
//! the layer tree.

use crate::frames::Coord;
use crate::layers::{mesh_division, parse_mesh_division, text_set};
use crate::mesh::{copy_patch, opt_patch, opt_patch_wf, EmoteMeshPatch, Patch};
use crate::numerals::{decimal, decimal_u64};
use crate::order::TextMap;
use crate::schema::{textures_view, textures_wf, EmoteTextureSource, Texture};
use crate::single::Single;
use crate::text::{clone_opt, clone_texts, join_two, opt_string, texts};
use crate::value::{items_of, list_of, PsbValue};
use vstd::prelude::*;

verus! {

/// In which pass of a frame an item is drawn.
#[derive(Clone, Copy, Debug, PartialEq, Eq, Structural)]
pub enum EmoteDrawPass {
    Normal,
    MaskGeneration,
    StencilCompositeMask,
    Filtered,
}

/// One step of the way from model space to a layer's own space.
#[derive(Clone, Copy, Debug, PartialEq, Eq, Structural)]
pub enum TransformStep {
    /// A move.
    Translate { x: Single, y: Single },
    /// A move, and a scaling with a rotation; `scale_first` tells their order.
    Layer {
        x: Single,
        y: Single,
        scale_x: Single,
        scale_y: Single,
        rotation_degrees: Single,
        scale_first: bool,
    },
}

/// What the drawing of one layer depends on.
#[derive(Clone, Debug)]
pub struct EmoteDrawFrameInfo {
    pub layer_label: Option<String>,
    pub draw_index: usize,
    pub path: String,
    pub layer_type: i64,
    pub ready_to_draw: bool,
    pub submitted_to_draw_frame: bool,
    pub mesh_transform: i64,
    pub mesh_combine: bool,
    pub mesh_sync_child_mask: i64,
    pub mesh_sync_child_coord: bool,
    pub mesh_sync_child_angle: bool,
    pub mesh_sync_child_zoom: bool,
    pub mesh_sync_child_shape: bool,
    pub join_target: Option<i64>,
    pub inherit_mask: Option<i64>,
    pub inherit_parent: bool,
    pub inherit_opacity: bool,
    pub inherit_shape: bool,
    pub inherit_angle: bool,
    pub transform_order: Vec<i64>,
    pub coordinate: Option<i64>,
    pub ground_correction: Option<i64>,
    pub stencil_type: i64,
    pub stencil_phase: i64,
    pub stencil_composite_item: bool,
    pub stencil_composite_mask_layer_list: Vec<String>,
    pub stencil_composite_target_paths: Vec<String>,
    pub parent_mask_path: Option<String>,
    pub control_parameter: Option<String>,
    pub control_value: Option<Single>,
    pub local_time_ticks: Option<Single>,
    pub frame_index: Option<usize>,
    pub next_frame_index: Option<usize>,
    pub interpolation_t: Single,
    pub pass: EmoteDrawPass,
}

/// An `EmoteDrawFrameInfo` by its characters.
#[verifier::ext_equal]
pub struct FrameInfo {
    pub layer_label: Option<Seq<char>>,
    pub draw_index: usize,
    pub path: Seq<char>,
    pub layer_type: i64,
    pub ready_to_draw: bool,
    pub submitted_to_draw_frame: bool,
    pub mesh_transform: i64,
    pub mesh_combine: bool,
    pub mesh_sync_child_mask: i64,
    pub mesh_sync_child_coord: bool,
    pub mesh_sync_child_angle: bool,
    pub mesh_sync_child_zoom: bool,
    pub mesh_sync_child_shape: bool,
    pub join_target: Option<i64>,
    pub inherit_mask: Option<i64>,
    pub inherit_parent: bool,
    pub inherit_opacity: bool,
    pub inherit_shape: bool,
    pub inherit_angle: bool,
    pub transform_order: Seq<i64>,
    pub coordinate: Option<i64>,
    pub ground_correction: Option<i64>,
    pub stencil_type: i64,
    pub stencil_phase: i64,
    pub stencil_composite_item: bool,
    pub stencil_composite_mask_layer_list: Seq<Seq<char>>,
    pub stencil_composite_target_paths: Seq<Seq<char>>,
    pub parent_mask_path: Option<Seq<char>>,
    pub control_parameter: Option<Seq<char>>,
    pub control_value: Option<Single>,
    pub local_time_ticks: Option<Single>,
    pub frame_index: Option<usize>,
    pub next_frame_index: Option<usize>,
    pub interpolation_t: Single,
    pub pass: EmoteDrawPass,
}

impl View for EmoteDrawFrameInfo {
    type V = FrameInfo;

    open spec fn view(&self) -> FrameInfo {
        FrameInfo {
            layer_label: opt_string(self.layer_label),
            draw_index: self.draw_index,
            path: self.path@,
            layer_type: self.layer_type,
            ready_to_draw: self.ready_to_draw,
            submitted_to_draw_frame: self.submitted_to_draw_frame,
            mesh_transform: self.mesh_transform,
            mesh_combine: self.mesh_combine,
            mesh_sync_child_mask: self.mesh_sync_child_mask,
            mesh_sync_child_coord: self.mesh_sync_child_coord,
            mesh_sync_child_angle: self.mesh_sync_child_angle,
            mesh_sync_child_zoom: self.mesh_sync_child_zoom,
            mesh_sync_child_shape: self.mesh_sync_child_shape,
            join_target: self.join_target,
            inherit_mask: self.inherit_mask,
            inherit_parent: self.inherit_parent,
            inherit_opacity: self.inherit_opacity,
            inherit_shape: self.inherit_shape,
            inherit_angle: self.inherit_angle,
            transform_order: self.transform_order@,
            coordinate: self.coordinate,
            ground_correction: self.ground_correction,
            stencil_type: self.stencil_type,
            stencil_phase: self.stencil_phase,
            stencil_composite_item: self.stencil_composite_item,
            stencil_composite_mask_layer_list: texts(self.stencil_composite_mask_layer_list@),
            stencil_composite_target_paths: texts(self.stencil_composite_target_paths@),
            parent_mask_path: opt_string(self.parent_mask_path),
            control_parameter: opt_string(self.control_parameter),
            control_value: self.control_value,
            local_time_ticks: self.local_time_ticks,
            frame_index: self.frame_index,
            next_frame_index: self.next_frame_index,
            interpolation_t: self.interpolation_t,
            pass: self.pass,
        }
    }
}

pub fn copy_i64s(v: &Vec<i64>) -> (r: Vec<i64>)
    ensures
        r@ == v@,
{
    let mut r: Vec<i64> = Vec::new();
    let mut i: usize = 0;
    while i < v.len()
        invariant
            i <= v@.len(),
            r@ == v@.take(i as int),
        decreases v@.len() - i,
    {
        r.push(v[i]);
        assert(r@ =~= v@.take(i + 1));
        i = i + 1;
    }
    assert(r@ =~= v@);
    r
}

pub fn copy_steps(v: &Vec<TransformStep>) -> (r: Vec<TransformStep>)
    ensures
        r@ == v@,
{
    let mut r: Vec<TransformStep> = Vec::new();
    let mut i: usize = 0;
    while i < v.len()
        invariant
            i <= v@.len(),
            r@ == v@.take(i as int),
        decreases v@.len() - i,
    {
        r.push(v[i]);
        assert(r@ =~= v@.take(i + 1));
        i = i + 1;
    }
    assert(r@ =~= v@);
    r
}

impl EmoteDrawFrameInfo {
    pub fn duplicate(&self) -> (r: EmoteDrawFrameInfo)
        ensures
            r@ == self@,
    {
        EmoteDrawFrameInfo {
            layer_label: clone_opt(&self.layer_label),
            draw_index: self.draw_index,
            path: self.path.clone(),
            layer_type: self.layer_type,
            ready_to_draw: self.ready_to_draw,
            submitted_to_draw_frame: self.submitted_to_draw_frame,
            mesh_transform: self.mesh_transform,
            mesh_combine: self.mesh_combine,
            mesh_sync_child_mask: self.mesh_sync_child_mask,
            mesh_sync_child_coord: self.mesh_sync_child_coord,
            mesh_sync_child_angle: self.mesh_sync_child_angle,
            mesh_sync_child_zoom: self.mesh_sync_child_zoom,
            mesh_sync_child_shape: self.mesh_sync_child_shape,
            join_target: self.join_target,
            inherit_mask: self.inherit_mask,
            inherit_parent: self.inherit_parent,
            inherit_opacity: self.inherit_opacity,
            inherit_shape: self.inherit_shape,
            inherit_angle: self.inherit_angle,
            transform_order: copy_i64s(&self.transform_order),
            coordinate: self.coordinate,
            ground_correction: self.ground_correction,
            stencil_type: self.stencil_type,
            stencil_phase: self.stencil_phase,
            stencil_composite_item: self.stencil_composite_item,
            stencil_composite_mask_layer_list: clone_texts(
                &self.stencil_composite_mask_layer_list,
            ),
            stencil_composite_target_paths: clone_texts(&self.stencil_composite_target_paths),
            parent_mask_path: clone_opt(&self.parent_mask_path),
            control_parameter: clone_opt(&self.control_parameter),
            control_value: self.control_value,
            local_time_ticks: self.local_time_ticks,
            frame_index: self.frame_index,
            next_frame_index: self.next_frame_index,
            interpolation_t: self.interpolation_t,
            pass: self.pass,
        }
    }
}

/// One textured rectangle or mesh.
#[derive(Clone, Debug)]
pub struct EmoteStaticSprite {
    pub label: Option<String>,
    pub motion_name: String,
    pub texture_name: String,
    pub texture_resource_index: u32,
    pub texture_width: u32,
    pub texture_height: u32,
    pub texture_format: Option<String>,
    pub icon_name: String,
    pub z: Single,
    pub opacity: Single,
    pub visible: bool,
    pub center_x: Single,
    pub center_y: Single,
    pub width: Single,
    pub height: Single,
    pub scale_x: Single,
    pub scale_y: Single,
    pub rotation_degrees: Single,
    pub world_transform: Vec<TransformStep>,
    pub uv_left: Single,
    pub uv_top: Single,
    pub uv_right: Single,
    pub uv_bottom: Single,
    pub mesh: Option<EmoteMeshPatch>,
    pub draw_frame_info: EmoteDrawFrameInfo,
}

/// An `EmoteStaticSprite` by its characters.
#[verifier::ext_equal]
pub struct Sprite {
    pub label: Option<Seq<char>>,
    pub motion_name: Seq<char>,
    pub texture_name: Seq<char>,
    pub texture_resource_index: u32,
    pub texture_width: u32,
    pub texture_height: u32,
    pub texture_format: Option<Seq<char>>,
    pub icon_name: Seq<char>,
    pub z: Single,
    pub opacity: Single,
    pub visible: bool,
    pub center_x: Single,
    pub center_y: Single,
    pub width: Single,
    pub height: Single,
    pub scale_x: Single,
    pub scale_y: Single,
    pub rotation_degrees: Single,
    pub world_transform: Seq<TransformStep>,
    pub uv_left: Single,
    pub uv_top: Single,
    pub uv_right: Single,
    pub uv_bottom: Single,
    pub mesh: Option<Patch>,
    pub info: FrameInfo,
}

impl Sprite {
    /// The mesh, if any, has all its points.
    pub open spec fn wf(self) -> bool {
        opt_patch_wf(self.mesh)
    }
}

impl View for EmoteStaticSprite {
    type V = Sprite;

    open spec fn view(&self) -> Sprite {
        Sprite {
            label: opt_string(self.label),
            motion_name: self.motion_name@,
            texture_name: self.texture_name@,
            texture_resource_index: self.texture_resource_index,
            texture_width: self.texture_width,
            texture_height: self.texture_height,
            texture_format: opt_string(self.texture_format),
            icon_name: self.icon_name@,
            z: self.z,
            opacity: self.opacity,
            visible: self.visible,
            center_x: self.center_x,
            center_y: self.center_y,
            width: self.width,
            height: self.height,
            scale_x: self.scale_x,
            scale_y: self.scale_y,
            rotation_degrees: self.rotation_degrees,
            world_transform: self.world_transform@,
            uv_left: self.uv_left,
            uv_top: self.uv_top,
            uv_right: self.uv_right,
            uv_bottom: self.uv_bottom,
            mesh: opt_patch(self.mesh),
            info: self.draw_frame_info@,
        }
    }
}

/// Where a layer stands after a step, drawn or not.
#[derive(Clone, Debug)]
pub struct EmoteStepFrameLayerState {
    pub path: String,
    pub transform: Vec<TransformStep>,
    pub opacity: Single,
    pub visible: bool,
    pub draw_frame_info: EmoteDrawFrameInfo,
}

/// An `EmoteStepFrameLayerState` by its characters.
#[verifier::ext_equal]
pub struct LayerState {
    pub path: Seq<char>,
    pub transform: Seq<TransformStep>,
    pub opacity: Single,
    pub visible: bool,
    pub info: FrameInfo,
}

impl View for EmoteStepFrameLayerState {
    type V = LayerState;

    open spec fn view(&self) -> LayerState {
        LayerState {
            path: self.path@,
            transform: self.transform@,
            opacity: self.opacity,
            visible: self.visible,
            info: self.draw_frame_info@,
        }
    }
}

/// What the frame of a motion depends on.
#[derive(Clone, Debug)]
pub struct EmoteStepFrameInput {
    pub motion_name: String,
    pub time_ticks: Single,
    pub variables: TextMap<Single>,
}

/// What the drawing of the mesh of one layer depends on. The corners of its part of the
/// texture are left, top, right and bottom.
#[derive(Clone, Debug)]
pub struct EmoteStepFrameMeshState {
    pub path: String,
    pub texture_resource_index: u32,
    pub texture_name: String,
    pub uv_rect: [Single; 4],
    pub mesh: Option<EmoteMeshPatch>,
}

/// A layer with its mesh and the layers below it.
#[derive(Debug)]
pub struct EmoteMeshChainNode {
    pub layer: EmoteStepFrameLayerState,
    pub mesh: Option<EmoteStepFrameMeshState>,
    pub children: Vec<EmoteMeshChainNode>,
}

impl EmoteStepFrameLayerState {
    pub fn duplicate(&self) -> (r: EmoteStepFrameLayerState)
        ensures
            r@ == self@,
    {
        EmoteStepFrameLayerState {
            path: self.path.clone(),
            transform: copy_steps(&self.transform),
            opacity: self.opacity,
            visible: self.visible,
            draw_frame_info: self.draw_frame_info.duplicate(),
        }
    }
}

impl EmoteStepFrameMeshState {
    /// Whether two meshes are drawn from the same.
    pub open spec fn alike(self, other: EmoteStepFrameMeshState) -> bool {
        &&& self.path@ == other.path@
        &&& self.texture_resource_index == other.texture_resource_index
        &&& self.texture_name@ == other.texture_name@
        &&& self.uv_rect == other.uv_rect
        &&& opt_patch(self.mesh) == opt_patch(other.mesh)
    }

    pub fn duplicate(&self) -> (r: EmoteStepFrameMeshState)
        ensures
            self.alike(r),
    {
        EmoteStepFrameMeshState {
            path: self.path.clone(),
            texture_resource_index: self.texture_resource_index,
            texture_name: self.texture_name.clone(),
            uv_rect: self.uv_rect,
            mesh: copy_patch(&self.mesh),
        }
    }
}

impl EmoteMeshChainNode {
    /// Whether two layers are alike, and so are all layers below them.
    pub open spec fn alike(self, other: EmoteMeshChainNode) -> bool
        decreases self,
    {
        &&& self.layer@ == other.layer@
        &&& match (self.mesh, other.mesh) {
            (Some(a), Some(b)) => a.alike(b),
            (None, None) => true,
            _ => false,
        }
        &&& self.children@.len() == other.children@.len()
        &&& forall|i: int|
            0 <= i < self.children@.len() ==> (#[trigger] self.children@[i]).alike(
                other.children@[i],
            )
    }

    /// A copy all the way down.
    pub fn copy(&self) -> (r: EmoteMeshChainNode)
        ensures
            self.alike(r),
        decreases self,
    {
        let mut children: Vec<EmoteMeshChainNode> = Vec::new();
        let mut i: usize = 0;
        while i < self.children.len()
            invariant
                i <= self.children@.len(),
                children@.len() == i,
                forall|j: int|
                    0 <= j < i ==> (#[trigger] self.children@[j]).alike(children@[j]),
            decreases self.children@.len() - i,
        {
            proof {
                let below = self.children;
                assert(decreases_to!(self => below));
                assert(decreases_to!(below => below@));
                assert(decreases_to!(below@ => below@[i as int]));
            }
            children.push(self.children[i].copy());
            i = i + 1;
        }
        let mesh = match &self.mesh {
            Some(m) => Some(m.duplicate()),
            None => None,
        };
        EmoteMeshChainNode { layer: self.layer.duplicate(), mesh, children }
    }
}

impl Clone for EmoteMeshChainNode {
    fn clone(&self) -> (r: EmoteMeshChainNode)
        ensures
            self.alike(r),
    {
        self.copy()
    }
}

/// The layers and meshes of a frame.
#[derive(Clone, Debug)]
pub struct EmoteStepFrameOutput {
    pub layers: Vec<EmoteStepFrameLayerState>,
    pub meshes: Vec<EmoteStepFrameMeshState>,
    pub draw_frame_info: Vec<EmoteDrawFrameInfo>,
}

impl Default for EmoteStepFrameOutput {
    /// A frame with nothing in it.
    fn default() -> (r: EmoteStepFrameOutput)
        ensures
            r.layers@.len() == 0,
            r.meshes@.len() == 0,
            r.draw_frame_info@.len() == 0,
    {
        EmoteStepFrameOutput { layers: Vec::new(), meshes: Vec::new(), draw_frame_info: Vec::new() }
    }
}

/// What a traversal carries down the layer tree.
#[derive(Clone, Debug)]
pub struct TravelContext {
    pub base_location: Option<Coord>,
    pub base_visible: bool,
    pub opacity_multiplier: Single,
    pub transform: Vec<TransformStep>,
    pub path: String,
    pub draw_index: usize,
    pub draw_order_base: usize,
    pub priority_ranks: TextMap<usize>,
    pub layer_type: i64,
    pub mesh_transform: i64,
    pub mesh_combine: bool,
    pub mesh_sync_child: i64,
    pub join_target: Option<i64>,
    pub inherit_mask: Option<i64>,
    pub transform_order: Vec<i64>,
    pub coordinate: Option<i64>,
    pub ground_correction: Option<i64>,
    pub stencil_type: i64,
    pub stencil_composite_mask_layer_list: Vec<String>,
    pub parent_mask_path: Option<String>,
    pub control_parameter: Option<String>,
    pub control_value: Option<Single>,
    pub local_time_ticks: Option<Single>,
    pub frame_index: Option<usize>,
    pub next_frame_index: Option<usize>,
    pub interpolation_t: Single,
    pub mesh_division_x: u32,
    pub mesh_division_y: u32,
    pub mesh_patch: Option<EmoteMeshPatch>,
    pub mesh_parameters: Vec<String>,
}

/// A `TravelContext` by its characters.
#[verifier::ext_equal]
pub struct Ctx {
    pub base_location: Option<Coord>,
    pub base_visible: bool,
    pub opacity_multiplier: Single,
    pub transform: Seq<TransformStep>,
    pub path: Seq<char>,
    pub draw_index: usize,
    pub draw_order_base: usize,
    pub priority_ranks: Map<Seq<char>, usize>,
    pub layer_type: i64,
    pub mesh_transform: i64,
    pub mesh_combine: bool,
    pub mesh_sync_child: i64,
    pub join_target: Option<i64>,
    pub inherit_mask: Option<i64>,
    pub transform_order: Seq<i64>,
    pub coordinate: Option<i64>,
    pub ground_correction: Option<i64>,
    pub stencil_type: i64,
    pub stencil_composite_mask_layer_list: Seq<Seq<char>>,
    pub parent_mask_path: Option<Seq<char>>,
    pub control_parameter: Option<Seq<char>>,
    pub control_value: Option<Single>,
    pub local_time_ticks: Option<Single>,
    pub frame_index: Option<usize>,
    pub next_frame_index: Option<usize>,
    pub interpolation_t: Single,
    pub mesh_division_x: u32,
    pub mesh_division_y: u32,
    pub mesh_patch: Option<Patch>,
    pub mesh_parameters: Set<Seq<char>>,
}

impl View for TravelContext {
    type V = Ctx;

    open spec fn view(&self) -> Ctx {
        Ctx {
            base_location: self.base_location,
            base_visible: self.base_visible,
            opacity_multiplier: self.opacity_multiplier,
            transform: self.transform@,
            path: self.path@,
            draw_index: self.draw_index,
            draw_order_base: self.draw_order_base,
            priority_ranks: self.priority_ranks@,
            layer_type: self.layer_type,
            mesh_transform: self.mesh_transform,
            mesh_combine: self.mesh_combine,
            mesh_sync_child: self.mesh_sync_child,
            join_target: self.join_target,
            inherit_mask: self.inherit_mask,
            transform_order: self.transform_order@,
            coordinate: self.coordinate,
            ground_correction: self.ground_correction,
            stencil_type: self.stencil_type,
            stencil_composite_mask_layer_list: texts(self.stencil_composite_mask_layer_list@),
            parent_mask_path: opt_string(self.parent_mask_path),
            control_parameter: opt_string(self.control_parameter),
            control_value: self.control_value,
            local_time_ticks: self.local_time_ticks,
            frame_index: self.frame_index,
            next_frame_index: self.next_frame_index,
            interpolation_t: self.interpolation_t,
            mesh_division_x: self.mesh_division_x,
            mesh_division_y: self.mesh_division_y,
            mesh_patch: opt_patch(self.mesh_patch),
            mesh_parameters: text_set(self.mesh_parameters@),
        }
    }
}

impl Ctx {
    /// The context at the root of a motion.
    pub open spec fn root() -> Ctx {
        Ctx {
            base_location: None,
            base_visible: true,
            opacity_multiplier: Single::one(),
            transform: Seq::empty(),
            path: Seq::empty(),
            draw_index: 0,
            draw_order_base: 0,
            priority_ranks: Map::empty(),
            layer_type: 0,
            mesh_transform: 0,
            mesh_combine: false,
            mesh_sync_child: 0,
            join_target: None,
            inherit_mask: None,
            transform_order: Seq::empty(),
            coordinate: None,
            ground_correction: None,
            stencil_type: 0,
            stencil_composite_mask_layer_list: Seq::empty(),
            parent_mask_path: None,
            control_parameter: None,
            control_value: None,
            local_time_ticks: None,
            frame_index: None,
            next_frame_index: None,
            interpolation_t: Single::zero(),
            mesh_division_x: 1,
            mesh_division_y: 1,
            mesh_patch: None,
            mesh_parameters: Set::empty(),
        }
    }

    /// Whether the layer owns a composite mask: the bit is set and it names sources.
    pub open spec fn owns_mask(self) -> bool {
        (self.stencil_type & 4) != 0 && self.stencil_composite_mask_layer_list.len() > 0
    }

    /// Whether the layer is drawn into a mask: a layer of type three with any sign
    /// of a stencil.
    pub open spec fn draws_mask(self) -> bool {
        self.layer_type == 3 && ((self.stencil_type & 3) != 0 || (self.stencil_type & 4) != 0
            || self.stencil_composite_mask_layer_list.len() > 0)
    }

    /// Whether the layer takes part in a composite mask.
    pub open spec fn composite_item(self) -> bool {
        (self.stencil_type & 4) != 0 || self.stencil_composite_mask_layer_list.len() > 0
    }

    /// The pass that the layer is drawn in.
    pub open spec fn pass(self) -> EmoteDrawPass {
        if self.draws_mask() && self.composite_item() {
            EmoteDrawPass::StencilCompositeMask
        } else if self.draws_mask() {
            EmoteDrawPass::MaskGeneration
        } else if self.parent_mask_path is Some {
            EmoteDrawPass::Filtered
        } else {
            EmoteDrawPass::Normal
        }
    }

    /// The context for what lies below the layer: below an owner of a mask that
    /// mask applies.
    pub open spec fn below(self) -> Ctx {
        Ctx {
            parent_mask_path: if self.owns_mask() {
                Some(self.path)
            } else {
                self.parent_mask_path
            },
            ..self
        }
    }

    /// The context after a layer has been entered. Fields that belong to the layer
    /// alone are read anew, never taken over from the layer above.
    pub open spec fn entered(self, layer: PsbValue, sibling_index: usize) -> Ctx {
        let label = layer_name(layer, sibling_index);
        let order = if self.priority_ranks.dom().contains(label) {
            self.priority_ranks[label]
        } else {
            sibling_index
        };
        let division = mesh_division(layer.field("meshDivision"));
        Ctx {
            path: if self.path.len() == 0 {
                label
            } else {
                self.path + "/"@ + label
            },
            draw_index: saturating_sum(self.draw_order_base, order),
            layer_type: layer.field_i64("type").unwrap_or(0),
            mesh_transform: layer.field_i64("meshTransform").unwrap_or(0),
            mesh_combine: layer.field_i64("meshCombine").unwrap_or(0) != 0,
            mesh_sync_child: layer.field_i64("meshSyncChildMask").unwrap_or(0),
            join_target: layer.field_i64("joinTarget"),
            inherit_mask: layer.field_i64("inheritMask"),
            transform_order: whole_numbers(items_of(layer.field("transformOrder"))),
            coordinate: layer.field_i64("coordinate"),
            ground_correction: layer.field_i64("groundCorrection"),
            stencil_type: layer.field_i64("stencilType").unwrap_or(0),
            stencil_composite_mask_layer_list: item_texts(
                items_of(layer.field("stencilCompositeMaskLayerList")),
            ),
            mesh_division_x: match division {
                Some((x, _)) => x,
                None => self.mesh_division_x,
            },
            mesh_division_y: match division {
                Some((_, y)) => y,
                None => self.mesh_division_y,
            },
            ..self
        }
    }
}

/// The label of a layer, its place among the sprites where it has none.
pub open spec fn layer_name(layer: PsbValue, sibling_index: usize) -> Seq<char> {
    match layer.text_field("label") {
        Some(s) => s,
        None => decimal(sibling_index as int),
    }
}

/// The sum, or the largest number where it does not fit.
pub open spec fn saturating_sum(a: usize, b: usize) -> usize {
    if a + b > usize::MAX {
        usize::MAX
    } else {
        (a + b) as usize
    }
}

/// The product by a thousand, or the largest number where it does not fit.
pub open spec fn saturating_thousand(a: usize) -> usize {
    if a * 1000 > usize::MAX {
        usize::MAX
    } else {
        (a * 1000) as usize
    }
}

pub fn thousandfold(a: usize) -> (r: usize)
    ensures
        r == saturating_thousand(a),
{
    if a > usize::MAX / 1000 {
        proof {
            assert(a * 1000 > usize::MAX);
        }
        usize::MAX
    } else {
        a * 1000
    }
}

/// The whole numbers among the items.
pub open spec fn whole_numbers(items: Seq<PsbValue>) -> Seq<i64>
    decreases items.len(),
{
    if items.len() == 0 {
        Seq::empty()
    } else {
        let before = whole_numbers(items.drop_last());
        match items.last().as_i64() {
            Some(n) => before.push(n),
            None => before,
        }
    }
}

/// The texts among the items.
pub open spec fn item_texts(items: Seq<PsbValue>) -> Seq<Seq<char>>
    decreases items.len(),
{
    if items.len() == 0 {
        Seq::empty()
    } else {
        let before = item_texts(items.drop_last());
        match items.last().text() {
            Some(s) => before.push(s),
            None => before,
        }
    }
}

pub fn collect_whole_numbers(value: Option<&PsbValue>) -> (r: Vec<i64>)
    ensures
        r@ == whole_numbers(items_of(value)),
{
    let mut r: Vec<i64> = Vec::new();
    if let Some(items) = list_of(value) {
        let mut i: usize = 0;
        while i < items.len()
            invariant
                i <= items@.len(),
                r@ == whole_numbers(items@.take(i as int)),
            decreases items@.len() - i,
        {
            assert(items@.take(i + 1).drop_last() =~= items@.take(i as int));
            if let Some(n) = items[i].as_i64() {
                r.push(n);
            }
            i = i + 1;
        }
        assert(items@.take(i as int) =~= items@);
    }
    r
}

pub fn collect_item_texts(value: Option<&PsbValue>) -> (r: Vec<String>)
    ensures
        texts(r@) == item_texts(items_of(value)),
{
    let mut r: Vec<String> = Vec::new();
    assert(texts(r@) =~= Seq::<Seq<char>>::empty());
    if let Some(items) = list_of(value) {
        let mut i: usize = 0;
        while i < items.len()
            invariant
                i <= items@.len(),
                texts(r@) == item_texts(items@.take(i as int)),
            decreases items@.len() - i,
        {
            assert(items@.take(i + 1).drop_last() =~= items@.take(i as int));
            let ghost before = texts(r@);
            if let Some(s) = items[i].as_str() {
                r.push(s.to_owned());
                assert(texts(r@) =~= before.push(s@));
            }
            i = i + 1;
        }
        assert(items@.take(i as int) =~= items@);
    }
    r
}

impl TravelContext {
    /// The ranks are in order, no parameter is named twice, and the patch has all
    /// its points.
    pub open spec fn wf(&self) -> bool {
        &&& self.priority_ranks.wf()
        &&& texts(self.mesh_parameters@).no_duplicates()
        &&& opt_patch_wf(opt_patch(self.mesh_patch))
    }

    pub fn root() -> (r: TravelContext)
        ensures
            r.wf(),
            r@ == Ctx::root(),
    {
        let r = TravelContext {
            base_location: None,
            base_visible: true,
            opacity_multiplier: Single::one(),
            transform: Vec::new(),
            path: String::new(),
            draw_index: 0,
            draw_order_base: 0,
            priority_ranks: TextMap::new(),
            layer_type: 0,
            mesh_transform: 0,
            mesh_combine: false,
            mesh_sync_child: 0,
            join_target: None,
            inherit_mask: None,
            transform_order: Vec::new(),
            coordinate: None,
            ground_correction: None,
            stencil_type: 0,
            stencil_composite_mask_layer_list: Vec::new(),
            parent_mask_path: None,
            control_parameter: None,
            control_value: None,
            local_time_ticks: None,
            frame_index: None,
            next_frame_index: None,
            interpolation_t: Single::zero(),
            mesh_division_x: 1,
            mesh_division_y: 1,
            mesh_patch: None,
            mesh_parameters: Vec::new(),
        };
        proof {
            assert(text_set(r.mesh_parameters@) =~= Set::<Seq<char>>::empty());
            assert(texts(r.stencil_composite_mask_layer_list@) =~= Seq::<Seq<char>>::empty());
        }
        r
    }

    pub fn duplicate(&self) -> (r: TravelContext)
        requires
            self.wf(),
        ensures
            r.wf(),
            r@ == self@,
    {
        TravelContext {
            base_location: self.base_location,
            base_visible: self.base_visible,
            opacity_multiplier: self.opacity_multiplier,
            transform: copy_steps(&self.transform),
            path: self.path.clone(),
            draw_index: self.draw_index,
            draw_order_base: self.draw_order_base,
            priority_ranks: self.priority_ranks.duplicate(),
            layer_type: self.layer_type,
            mesh_transform: self.mesh_transform,
            mesh_combine: self.mesh_combine,
            mesh_sync_child: self.mesh_sync_child,
            join_target: self.join_target,
            inherit_mask: self.inherit_mask,
            transform_order: copy_i64s(&self.transform_order),
            coordinate: self.coordinate,
            ground_correction: self.ground_correction,
            stencil_type: self.stencil_type,
            stencil_composite_mask_layer_list: clone_texts(
                &self.stencil_composite_mask_layer_list,
            ),
            parent_mask_path: clone_opt(&self.parent_mask_path),
            control_parameter: clone_opt(&self.control_parameter),
            control_value: self.control_value,
            local_time_ticks: self.local_time_ticks,
            frame_index: self.frame_index,
            next_frame_index: self.next_frame_index,
            interpolation_t: self.interpolation_t,
            mesh_division_x: self.mesh_division_x,
            mesh_division_y: self.mesh_division_y,
            mesh_patch: copy_patch(&self.mesh_patch),
            mesh_parameters: clone_texts(&self.mesh_parameters),
        }
    }

    pub fn owns_mask(&self) -> (r: bool)
        ensures
            r == self@.owns_mask(),
    {
        assert(texts(self.stencil_composite_mask_layer_list@).len()
            == self.stencil_composite_mask_layer_list@.len());
        (self.stencil_type & 4) != 0 && self.stencil_composite_mask_layer_list.len() > 0
    }
}

/// Reads the fields of a layer into the context.
pub fn enter_layer_context(ctx: &TravelContext, layer: &PsbValue, sibling_index: usize) -> (r:
    TravelContext)
    requires
        ctx.wf(),
    ensures
        r.wf(),
        r@ == ctx@.entered(*layer, sibling_index),
{
    let mut r = ctx.duplicate();
    let label = match layer.field_str("label") {
        Some(s) => s.to_owned(),
        None => decimal_u64(sibling_index as u64),
    };
    r.path = if ctx.path.as_str().is_empty() {
        label.clone()
    } else {
        join_two(ctx.path.as_str(), "/", label.as_str())
    };
    let order: usize = match ctx.priority_ranks.get(label.as_str()) {
        Some(rank) => *rank,
        None => sibling_index,
    };
    r.draw_index = ctx.draw_order_base.saturating_add(order);
    r.layer_type = layer.field_i64("type").unwrap_or(0);
    r.mesh_transform = layer.field_i64("meshTransform").unwrap_or(0);
    r.mesh_combine = layer.field_i64("meshCombine").unwrap_or(0) != 0;
    r.mesh_sync_child = layer.field_i64("meshSyncChildMask").unwrap_or(0);
    r.join_target = layer.field_i64("joinTarget");
    r.inherit_mask = layer.field_i64("inheritMask");
    r.coordinate = layer.field_i64("coordinate");
    r.ground_correction = layer.field_i64("groundCorrection");
    r.stencil_type = layer.field_i64("stencilType").unwrap_or(0);
    r.transform_order = collect_whole_numbers(layer.field("transformOrder"));
    r.stencil_composite_mask_layer_list =
    collect_item_texts(layer.field("stencilCompositeMaskLayerList"));
    if let Some((dx, dy)) = parse_mesh_division(layer.field("meshDivision")) {
        r.mesh_division_x = dx;
        r.mesh_division_y = dy;
    }
    r
}

/// What the drawing of a layer depends on, as the context has it.
pub open spec fn info_of(label: Option<Seq<char>>, ctx: Ctx) -> FrameInfo {
    let sync = ctx.mesh_sync_child;
    let inherit = ctx.inherit_mask.unwrap_or(0);
    FrameInfo {
        layer_label: label,
        draw_index: ctx.draw_index,
        path: ctx.path,
        layer_type: ctx.layer_type,
        ready_to_draw: true,
        submitted_to_draw_frame: true,
        mesh_transform: ctx.mesh_transform,
        mesh_combine: ctx.mesh_combine,
        mesh_sync_child_mask: sync,
        mesh_sync_child_coord: (sync & 1) != 0,
        mesh_sync_child_angle: (sync & 2) != 0,
        mesh_sync_child_zoom: (sync & 4) != 0,
        mesh_sync_child_shape: (sync & 8) != 0,
        join_target: ctx.join_target,
        inherit_mask: ctx.inherit_mask,
        inherit_parent: (inherit & 0x40_0000) != 0,
        inherit_opacity: (inherit & 0x400) != 0,
        inherit_shape: (inherit & 0x200_0000) != 0,
        inherit_angle: (inherit & 0x10) != 0,
        transform_order: ctx.transform_order,
        coordinate: ctx.coordinate,
        ground_correction: ctx.ground_correction,
        stencil_type: ctx.stencil_type,
        stencil_phase: ctx.stencil_type & 3,
        stencil_composite_item: ctx.composite_item(),
        stencil_composite_mask_layer_list: ctx.stencil_composite_mask_layer_list,
        stencil_composite_target_paths: Seq::empty(),
        parent_mask_path: ctx.parent_mask_path,
        control_parameter: ctx.control_parameter,
        control_value: ctx.control_value,
        local_time_ticks: ctx.local_time_ticks,
        frame_index: ctx.frame_index,
        next_frame_index: ctx.next_frame_index,
        interpolation_t: ctx.interpolation_t,
        pass: ctx.pass(),
    }
}

pub fn draw_frame_info(label: &Option<String>, ctx: &TravelContext) -> (r: EmoteDrawFrameInfo)
    ensures
        r@ == info_of(opt_string(*label), ctx@),
{
    let sync = ctx.mesh_sync_child;
    let inherit = ctx.inherit_mask.unwrap_or(0);
    assert(texts(ctx.stencil_composite_mask_layer_list@).len()
        == ctx.stencil_composite_mask_layer_list@.len());
    let named = ctx.stencil_composite_mask_layer_list.len() > 0;
    let composite = (ctx.stencil_type & 4) != 0 || named;
    let mask = ctx.layer_type == 3 && ((ctx.stencil_type & 3) != 0 || (ctx.stencil_type & 4) != 0
        || named);
    let pass = if mask && composite {
        EmoteDrawPass::StencilCompositeMask
    } else if mask {
        EmoteDrawPass::MaskGeneration
    } else if ctx.parent_mask_path.is_some() {
        EmoteDrawPass::Filtered
    } else {
        EmoteDrawPass::Normal
    };
    let r = EmoteDrawFrameInfo {
        layer_label: clone_opt(label),
        draw_index: ctx.draw_index,
        path: ctx.path.clone(),
        layer_type: ctx.layer_type,
        ready_to_draw: true,
        submitted_to_draw_frame: true,
        mesh_transform: ctx.mesh_transform,
        mesh_combine: ctx.mesh_combine,
        mesh_sync_child_mask: sync,
        mesh_sync_child_coord: (sync & 1) != 0,
        mesh_sync_child_angle: (sync & 2) != 0,
        mesh_sync_child_zoom: (sync & 4) != 0,
        mesh_sync_child_shape: (sync & 8) != 0,
        join_target: ctx.join_target,
        inherit_mask: ctx.inherit_mask,
        inherit_parent: (inherit & 0x40_0000) != 0,
        inherit_opacity: (inherit & 0x400) != 0,
        inherit_shape: (inherit & 0x200_0000) != 0,
        inherit_angle: (inherit & 0x10) != 0,
        transform_order: copy_i64s(&ctx.transform_order),
        coordinate: ctx.coordinate,
        ground_correction: ctx.ground_correction,
        stencil_type: ctx.stencil_type,
        stencil_phase: ctx.stencil_type & 3,
        stencil_composite_item: composite,
        stencil_composite_mask_layer_list: clone_texts(&ctx.stencil_composite_mask_layer_list),
        stencil_composite_target_paths: Vec::new(),
        parent_mask_path: clone_opt(&ctx.parent_mask_path),
        control_parameter: clone_opt(&ctx.control_parameter),
        control_value: ctx.control_value,
        local_time_ticks: ctx.local_time_ticks,
        frame_index: ctx.frame_index,
        next_frame_index: ctx.next_frame_index,
        interpolation_t: ctx.interpolation_t,
        pass,
    };
    proof {
        assert(texts(r.stencil_composite_target_paths@) =~= Seq::<Seq<char>>::empty());
    }
    r
}

/// Where a layer stands, as the context has it.
pub open spec fn layer_state_of(label: Option<Seq<char>>, ctx: Ctx) -> LayerState {
    LayerState {
        path: ctx.path,
        transform: ctx.transform,
        opacity: ctx.opacity_multiplier,
        visible: ctx.base_visible && Single::zero().lt(ctx.opacity_multiplier),
        info: FrameInfo {
            ready_to_draw: false,
            submitted_to_draw_frame: false,
            ..info_of(label, ctx)
        },
    }
}

pub fn layer_state_from_ctx(label: &Option<String>, ctx: &TravelContext) -> (r:
    EmoteStepFrameLayerState)
    ensures
        r@ == layer_state_of(opt_string(*label), ctx@),
{
    let mut info = draw_frame_info(label, ctx);
    info.ready_to_draw = false;
    info.submitted_to_draw_frame = false;
    EmoteStepFrameLayerState {
        path: ctx.path.clone(),
        transform: copy_steps(&ctx.transform),
        opacity: ctx.opacity_multiplier,
        visible: ctx.base_visible && Single::zero().lt(ctx.opacity_multiplier),
        draw_frame_info: info,
    }
}

/// A fraction of ten as an opacity, times the opacity above, held in `[0, 1]`.
pub open spec fn spec_faded(opacity: Single, opa: Single) -> Single {
    opacity.times(opa.over(Single::ten())).clamp(Single::zero(), Single::one())
}

#[verifier::when_used_as_spec(spec_faded)]
pub fn faded(opacity: Single, opa: Single) -> (r: Single)
    ensures
        r == spec_faded(opacity, opa),
{
    opacity.times(opa.over(Single::ten())).clamp(Single::zero(), Single::one())
}

/// The sprite that shows an icon, where the texture has it. A layer without mesh
/// is drawn around the icon's origin.
pub open spec fn sprite_of(
    textures: Map<Seq<char>, Texture>,
    texture_name: Seq<char>,
    icon_name: Seq<char>,
    label: Option<Seq<char>>,
    motion_name: Seq<char>,
    base: Coord,
    ox: Single,
    oy: Single,
    visible: bool,
    opa: Single,
    ctx: Ctx,
) -> Option<Sprite> {
    if !textures.dom().contains(texture_name) || !textures[texture_name].icons.dom().contains(
        icon_name,
    ) {
        None
    } else {
        let texture = textures[texture_name];
        let icon = texture.icons[icon_name];
        let width = icon.width.times(icon.resolution);
        let height = icon.height.times(icon.resolution);
        let texture_width = Single::spec_from_i64(texture.width as i64);
        let texture_height = Single::spec_from_i64(texture.height as i64);
        Some(
            Sprite {
                label,
                motion_name,
                texture_name,
                texture_resource_index: texture.resource_index,
                texture_width: texture.width,
                texture_height: texture.height,
                texture_format: texture.format,
                icon_name,
                z: base.z,
                opacity: faded(ctx.opacity_multiplier, opa),
                visible,
                center_x: if ctx.mesh_transform == 0 {
                    ox.minus(icon.origin_x)
                } else {
                    ox
                },
                center_y: if ctx.mesh_transform == 0 {
                    oy.minus(icon.origin_y)
                } else {
                    oy
                },
                width,
                height,
                scale_x: Single::one(),
                scale_y: Single::one(),
                rotation_degrees: Single::zero(),
                world_transform: ctx.transform,
                uv_left: icon.left.over(texture_width),
                uv_top: icon.top.over(texture_height),
                uv_right: icon.left.plus(width).over(texture_width),
                uv_bottom: icon.top.plus(height).over(texture_height),
                mesh: ctx.mesh_patch,
                info: info_of(label, ctx),
            },
        )
    }
}

/// The shown form of an optional sprite.
pub open spec fn opt_sprite(s: Option<EmoteStaticSprite>) -> Option<Sprite> {
    match s {
        Some(v) => Some(v@),
        None => None,
    }
}

/// Builds the sprite that shows an icon.
pub fn build_sprite(
    textures: &TextMap<EmoteTextureSource>,
    texture_name: &str,
    icon_name: &str,
    label: &Option<String>,
    motion_name: &str,
    base: Coord,
    ox: Single,
    oy: Single,
    visible: bool,
    opa: Single,
    ctx: &TravelContext,
) -> (r: Option<EmoteStaticSprite>)
    requires
        textures_wf(*textures),
        ctx.wf(),
    ensures
        r is Some ==> r->0@.wf(),
        opt_sprite(r) == sprite_of(
            textures_view(*textures),
            texture_name@,
            icon_name@,
            opt_string(*label),
            motion_name@,
            base,
            ox,
            oy,
            visible,
            opa,
            ctx@,
        ),
{
    let texture = match textures.get(texture_name) {
        Some(t) => t,
        None => {
            return None;
        },
    };
    let icon = match texture.icons.get(icon_name) {
        Some(i) => i,
        None => {
            return None;
        },
    };
    assert(textures_view(*textures)[texture_name@] == texture@);
    assert(texture@.icons[icon_name@] == icon@);
    let width = icon.resolved_width();
    let height = icon.resolved_height();
    let texture_width = Single::from_i64(texture.width as i64);
    let texture_height = Single::from_i64(texture.height as i64);
    Some(
        EmoteStaticSprite {
            label: clone_opt(label),
            motion_name: motion_name.to_owned(),
            texture_name: texture_name.to_owned(),
            texture_resource_index: texture.resource_index,
            texture_width: texture.width,
            texture_height: texture.height,
            texture_format: clone_opt(&texture.format),
            icon_name: icon_name.to_owned(),
            z: base.z,
            opacity: faded(ctx.opacity_multiplier, opa),
            visible,
            center_x: if ctx.mesh_transform == 0 {
                ox.minus(icon.origin_x)
            } else {
                ox
            },
            center_y: if ctx.mesh_transform == 0 {
                oy.minus(icon.origin_y)
            } else {
                oy
            },
            width,
            height,
            scale_x: Single::one(),
            scale_y: Single::one(),
            rotation_degrees: Single::zero(),
            world_transform: copy_steps(&ctx.transform),
            uv_left: icon.left.over(texture_width),
            uv_top: icon.top.over(texture_height),
            uv_right: icon.left.plus(width).over(texture_width),
            uv_bottom: icon.top.plus(height).over(texture_height),
            mesh: copy_patch(&ctx.mesh_patch),
            draw_frame_info: draw_frame_info(label, ctx),
        },
    )
}

} // verus!
