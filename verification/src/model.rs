//! Scenes of a model: the static preview, and a motion at a time.

use crate::assembly::{assembled, finalize_scene, EmoteStaticScene, Scene};
use crate::combinator::opt_bytes;
use crate::frames::{motion_duration, motion_duration_ticks, wrap_motion_time, wrapped_time};
use crate::layers::{motion_priority_ranks, priority_ranks};
use crate::order::TextMap;
use crate::psb::PsbFile;
use crate::scene::{Ctx, TravelContext};
use crate::schema::{
    entries_of, schema_of, textures_view, textures_wf, EmoteModelSchema, EmoteSchemaError, Schema,
    SchemaFault, Texture,
};
use crate::single::Single;
use crate::step::{step_layers, travel_layers_at, StepInput, StepWorld};
use crate::travel::{after_layers, travel_layers, StaticWorld, Trace, Travel};
use crate::value::{either, items_of, list_of, PsbValue};
use vstd::prelude::*;

verus! {

/// The trace after the first `n` motions of the base object.
pub open spec fn after_motions(
    depth: nat,
    world: StaticWorld,
    motions: Seq<(String, PsbValue)>,
    n: nat,
    trace: Trace,
) -> Option<Trace>
    decreases n,
{
    if n == 0 || n > motions.len() {
        Some(trace)
    } else {
        match after_motions(depth, world, motions, (n - 1) as nat, trace) {
            None => None,
            Some(t) => {
                let (name, motion) = motions[n - 1];
                let layers = items_of(motion.field("layer"));
                after_layers(
                    depth,
                    world,
                    name@,
                    Ctx { priority_ranks: priority_ranks(motion, Single::zero()), ..Ctx::root() },
                    layers,
                    layers.len(),
                    t,
                )
            },
        }
    }
}

/// The static preview: every motion of the base object at rest.
pub open spec fn static_scene(
    root: PsbValue,
    base_object: Seq<char>,
    textures: Map<Seq<char>, Texture>,
    depth: nat,
) -> Result<Scene, SchemaFault> {
    if !(root is Object) {
        Err(SchemaFault::RootIsNotObject)
    } else {
        match root.field("object") {
            None => Err(SchemaFault::MissingObjectTable),
            Some(table) => match table.named(base_object) {
                None => Err(SchemaFault::MissingBaseObject),
                Some(base) => match base.field("motion") {
                    None => Err(SchemaFault::MissingBaseObject),
                    Some(motion_table) => {
                        let motions = entries_of(Some(motion_table));
                        match after_motions(
                            depth,
                            StaticWorld { table: *table, textures },
                            motions,
                            motions.len(),
                            Trace::start(),
                        ) {
                            None => Err(SchemaFault::NestedTooDeep),
                            Some(trace) => Ok(assembled(base_object, trace)),
                        }
                    },
                },
            },
        }
    }
}

/// The motion of the base object with the given name, where it has layers.
pub open spec fn base_motion(
    root: &PsbValue,
    base_object: Seq<char>,
    motion_name: Seq<char>,
) -> Result<(PsbValue, PsbValue), SchemaFault> {
    if !(root is Object) {
        Err(SchemaFault::RootIsNotObject)
    } else {
        match root.field("object") {
            None => Err(SchemaFault::MissingObjectTable),
            Some(table) => match table.named(base_object) {
                None => Err(SchemaFault::MissingBaseObject),
                Some(base) => match base.field("motion") {
                    None => Err(SchemaFault::MissingBaseObject),
                    Some(motions) => match motions.named(motion_name) {
                        None => Err(SchemaFault::MissingBaseObject),
                        Some(motion) => if list_of(motion.field("layer")) is None {
                            Err(SchemaFault::MissingBaseObject)
                        } else {
                            Ok((*table, *motion))
                        },
                    },
                },
            },
        }
    }
}

/// A motion of the base object at a time, under the given variables.
pub open spec fn motion_scene(
    psb: PsbFile,
    data: Option<Seq<u8>>,
    base_object: Seq<char>,
    textures: Map<Seq<char>, Texture>,
    motion_name: Seq<char>,
    time: Single,
    variables: Map<Seq<char>, Single>,
    depth: nat,
) -> Result<Scene, SchemaFault> {
    match base_motion(&psb.root, base_object, motion_name) {
        Err(e) => Err(e),
        Ok((table, motion)) => {
            let now = wrapped_time(time, motion_duration(motion).unwrap_or(Single::zero()));
            let layers = items_of(motion.field("layer"));
            match step_layers(
                depth,
                StepWorld { table, resources: psb.resources@, data, variables, textures },
                either(
                    list_of(motion.field("parameter")),
                    list_of(psb.root.field("parameter")),
                ),
                motion_name,
                now,
                Ctx { priority_ranks: priority_ranks(motion, now), ..Ctx::root() },
                layers,
                layers.len(),
                Trace::start(),
            ) {
                None => Err(SchemaFault::NestedTooDeep),
                Some(trace) => Ok(assembled(base_object, trace)),
            }
        },
    }
}

/// Whether a result is what the model says.
pub open spec fn is_scene(
    r: Result<EmoteStaticScene, EmoteSchemaError>,
    want: Result<Scene, SchemaFault>,
) -> bool {
    match r {
        Ok(scene) => scene.wf() && want == Ok::<Scene, SchemaFault>(scene@),
        Err(e) => want == Err::<Scene, SchemaFault>(e@),
    }
}

proof fn lemma_motions_stay_deep(
    depth: nat,
    world: StaticWorld,
    motions: Seq<(String, PsbValue)>,
    n: nat,
    m: nat,
    trace: Trace,
)
    requires
        n <= m <= motions.len(),
        after_motions(depth, world, motions, n, trace) is None,
    ensures
        after_motions(depth, world, motions, m, trace) is None,
    decreases m,
{
    if n < m {
        lemma_motions_stay_deep(depth, world, motions, n, (m - 1) as nat, trace);
    }
}

impl EmoteModelSchema {
    /// Builds the static preview. Layers and motions may nest up to `depth` deep.
    pub fn build_static_scene(&self, root: &PsbValue, depth: usize) -> (r: Result<
        EmoteStaticScene,
        EmoteSchemaError,
    >)
        requires
            textures_wf(self.textures),
        ensures
            is_scene(
                r,
                static_scene(
                    *root,
                    self.base_object@,
                    textures_view(self.textures),
                    depth as nat,
                ),
            ),
    {
        if root.as_object().is_none() {
            return Err(EmoteSchemaError::RootIsNotObject);
        }
        let table = match root.field("object") {
            Some(v) => v,
            None => {
                return Err(EmoteSchemaError::MissingObjectTable);
            },
        };
        let base = match table.field(self.base_object.as_str()) {
            Some(v) => v,
            None => {
                return Err(EmoteSchemaError::MissingBaseObject);
            },
        };
        let motion_table = match base.field("motion") {
            Some(v) => v,
            None => {
                return Err(EmoteSchemaError::MissingBaseObject);
            },
        };
        let ghost world = StaticWorld { table: *table, textures: textures_view(self.textures) };
        let mut travel = Travel::new();
        if let Some(motions) = motion_table.as_object() {
            let mut i: usize = 0;
            while i < motions.len()
                invariant
                    i <= motions@.len(),
                    textures_wf(self.textures),
                    travel.wf(),
                    world == (StaticWorld {
                        table: *table,
                        textures: textures_view(self.textures),
                    }),
                    root is Object,
                    root.field("object") == Some(table),
                    table.named(self.base_object@) == Some(base),
                    base.field("motion") == Some(motion_table),
                    motions@ == entries_of(Some(motion_table)),
                    after_motions(depth as nat, world, motions@, i as nat, Trace::start()) == Some(
                        travel@,
                    ),
                decreases motions@.len() - i,
            {
                let motion = &motions[i].1;
                if let Some(layers) = list_of(motion.field("layer")) {
                    let mut ctx = TravelContext::root();
                    ctx.priority_ranks = motion_priority_ranks(motion, Single::zero());
                    if !travel_layers(
                        depth,
                        table,
                        &self.textures,
                        motions[i].0.as_str(),
                        &ctx,
                        layers,
                        &mut travel,
                    ) {
                        proof {
                            lemma_motions_stay_deep(
                                depth as nat,
                                world,
                                motions@,
                                (i + 1) as nat,
                                motions@.len(),
                                Trace::start(),
                            );
                        }
                        return Err(EmoteSchemaError::NestedTooDeep);
                    }
                }
                i = i + 1;
            }
        }
        Ok(finalize_scene(self.base_object.clone(), travel))
    }

    fn build_motion_scene_internal(
        &self,
        psb: &PsbFile,
        data: Option<&[u8]>,
        motion_name: &str,
        time: Single,
        variables: &TextMap<Single>,
        depth: usize,
    ) -> (r: Result<EmoteStaticScene, EmoteSchemaError>)
        requires
            textures_wf(self.textures),
            variables.wf(),
        ensures
            is_scene(
                r,
                motion_scene(
                    *psb,
                    opt_bytes(data),
                    self.base_object@,
                    textures_view(self.textures),
                    motion_name@,
                    time,
                    variables@,
                    depth as nat,
                ),
            ),
    {
        let root = &psb.root;
        if root.as_object().is_none() {
            return Err(EmoteSchemaError::RootIsNotObject);
        }
        let table = match root.field("object") {
            Some(v) => v,
            None => {
                return Err(EmoteSchemaError::MissingObjectTable);
            },
        };
        let base = match table.field(self.base_object.as_str()) {
            Some(v) => v,
            None => {
                return Err(EmoteSchemaError::MissingBaseObject);
            },
        };
        let motions = match base.field("motion") {
            Some(v) => v,
            None => {
                return Err(EmoteSchemaError::MissingBaseObject);
            },
        };
        let motion = match motions.field(motion_name) {
            Some(v) => v,
            None => {
                return Err(EmoteSchemaError::MissingBaseObject);
            },
        };
        let layers = match list_of(motion.field("layer")) {
            Some(v) => v,
            None => {
                return Err(EmoteSchemaError::MissingBaseObject);
            },
        };
        let now = wrap_motion_time(
            time,
            motion_duration_ticks(motion).unwrap_or(Single::zero()),
        );
        let params = either(
            list_of(motion.field("parameter")),
            list_of(root.field("parameter")),
        );
        let input = StepInput { table, psb, data, variables, textures: &self.textures };
        let mut ctx = TravelContext::root();
        ctx.priority_ranks = motion_priority_ranks(motion, now);
        let mut travel = Travel::new();
        if travel_layers_at(depth, &input, params, motion_name, now, &ctx, layers, &mut travel) {
            Ok(finalize_scene(self.base_object.clone(), travel))
        } else {
            Err(EmoteSchemaError::NestedTooDeep)
        }
    }

    /// Builds a motion at a time, with no variable set.
    pub fn build_motion_scene_at(
        &self,
        psb: &PsbFile,
        motion_name: &str,
        time: Single,
        depth: usize,
    ) -> (r: Result<EmoteStaticScene, EmoteSchemaError>)
        requires
            textures_wf(self.textures),
        ensures
            is_scene(
                r,
                motion_scene(
                    *psb,
                    None,
                    self.base_object@,
                    textures_view(self.textures),
                    motion_name@,
                    time,
                    Map::empty(),
                    depth as nat,
                ),
            ),
    {
        let variables: TextMap<Single> = TextMap::new();
        self.build_motion_scene_internal(psb, None, motion_name, time, &variables, depth)
    }

    /// Builds a motion at a time under the given variables.
    pub fn build_motion_scene_at_with_variables(
        &self,
        psb: &PsbFile,
        motion_name: &str,
        time: Single,
        variables: &TextMap<Single>,
        depth: usize,
    ) -> (r: Result<EmoteStaticScene, EmoteSchemaError>)
        requires
            textures_wf(self.textures),
            variables.wf(),
        ensures
            is_scene(
                r,
                motion_scene(
                    *psb,
                    None,
                    self.base_object@,
                    textures_view(self.textures),
                    motion_name@,
                    time,
                    variables@,
                    depth as nat,
                ),
            ),
    {
        self.build_motion_scene_internal(psb, None, motion_name, time, variables, depth)
    }

    /// Builds a motion at a time under the given variables; meshes are read from
    /// the resource data.
    pub fn build_motion_scene_at_with_resources_and_variables(
        &self,
        psb: &PsbFile,
        data: &[u8],
        motion_name: &str,
        time: Single,
        variables: &TextMap<Single>,
        depth: usize,
    ) -> (r: Result<EmoteStaticScene, EmoteSchemaError>)
        requires
            textures_wf(self.textures),
            variables.wf(),
        ensures
            is_scene(
                r,
                motion_scene(
                    *psb,
                    Some(data@),
                    self.base_object@,
                    textures_view(self.textures),
                    motion_name@,
                    time,
                    variables@,
                    depth as nat,
                ),
            ),
    {
        self.build_motion_scene_internal(psb, Some(data), motion_name, time, variables, depth)
    }
}

/// Reads the model that a document describes and builds its static preview.
pub fn load_emote_static_scene(root: &PsbValue, depth: usize) -> (r: Result<
    (EmoteModelSchema, EmoteStaticScene),
    EmoteSchemaError,
>)
    ensures
        match r {
            Ok((schema, scene)) => {
                &&& textures_wf(schema.textures)
                &&& scene.wf()
                &&& schema_of(*root) == Ok::<Schema, SchemaFault>(schema@)
                &&& static_scene(*root, schema@.base_object, schema@.textures, depth as nat) == Ok::<
                    Scene,
                    SchemaFault,
                >(scene@)
            },
            Err(e) => match schema_of(*root) {
                Err(fault) => fault == e@,
                Ok(schema) => static_scene(
                    *root,
                    schema.base_object,
                    schema.textures,
                    depth as nat,
                ) == Err::<Scene, SchemaFault>(e@),
            },
        },
{
    let schema = match EmoteModelSchema::from_psb(root) {
        Ok(s) => s,
        Err(e) => {
            return Err(e);
        },
    };
    match schema.build_static_scene(root, depth) {
        Ok(scene) => Ok((schema, scene)),
        Err(e) => Err(e),
    }
}

} // verus!
