//! One model with its player: loading, driving, and the scene that follows.

use crate::api::TimelinePlayMode;
use crate::ask::{selector_fault, selector_named};
use crate::arrange::views;
use crate::assembly::{EmoteStaticScene, Scene};
use crate::catalog::{
    collect_emote_variables, document_variables, initial_variable_values, lists, starting_values,
};
use crate::controls::{collect_emote_runtime_pipeline, EmoteRuntimePipeline};
use crate::frames::motion_duration;
use crate::model::{motion_scene, static_scene};
use crate::order::{keys, ordered, TextMap};
use crate::place::{scene_bounds, EmoteSceneBounds, Stand};
use crate::player::{drives_controls, is_auto_control_timeline_name, ElunaPlayer, Player};
use crate::psb::{resource_at, PsbDecryptionKey, PsbFile, PsbNormalizeOptions};
use crate::scene::{EmoteDrawFrameInfo, EmoteStaticSprite};
use crate::schema::{
    motions_of, schema_of, textures_wf, EmoteModelSchema, EmoteMotionInfo, EmoteSchemaError,
    EmoteTextureSource, Schema, SchemaFault,
};
use crate::single::Single;
use crate::start::{document_clamps, is_pipeline_of, lemma_fields_in_order, new_player};
use crate::text::{clone_opt, concat_text, ends_with, join_two, opt_string, opt_text, texts};
use crate::timelines::{collect_emote_timelines, document_timelines, Timeline};
use crate::value::PsbValue;
use crate::variables::VarInfo;
use vstd::prelude::*;

verus! {

/// How a model is loaded.
#[derive(Clone, Debug)]
pub struct EmoteLoadOptions {
    pub normalize: PsbNormalizeOptions,
    pub motion: Option<String>,
    pub timeline: Option<String>,
    pub autoplay_timeline: bool,
}

/// `EmoteLoadOptions` by their characters.
#[verifier::ext_equal]
pub struct LoadOptions {
    pub normalize: PsbNormalizeOptions,
    pub motion: Option<Seq<char>>,
    pub timeline: Option<Seq<char>>,
    pub autoplay_timeline: bool,
}

impl View for EmoteLoadOptions {
    type V = LoadOptions;

    open spec fn view(&self) -> LoadOptions {
        LoadOptions {
            normalize: self.normalize,
            motion: opt_string(self.motion),
            timeline: opt_string(self.timeline),
            autoplay_timeline: self.autoplay_timeline,
        }
    }
}

impl Default for EmoteLoadOptions {
    /// The first motion, with a timeline that plays by itself.
    fn default() -> (r: EmoteLoadOptions)
        ensures
            r@ == (LoadOptions {
                normalize: PsbNormalizeOptions {
                    decrypt_key: None,
                    decode_mdf: true,
                    decode_lz4: true,
                },
                motion: None,
                timeline: None,
                autoplay_timeline: true,
            }),
    {
        EmoteLoadOptions {
            normalize: PsbNormalizeOptions::default(),
            motion: None,
            timeline: None,
            autoplay_timeline: true,
        }
    }
}

impl EmoteLoadOptions {
    pub fn with_emote_key(self, key: u32) -> (r: EmoteLoadOptions)
        ensures
            r@ == (LoadOptions {
                normalize: PsbNormalizeOptions {
                    decrypt_key: Some(PsbDecryptionKey::emote_key(key)),
                    ..self@.normalize
                },
                ..self@
            }),
    {
        let mut options = self;
        options.normalize.decrypt_key = Some(PsbDecryptionKey::emote_key(key));
        options
    }

    pub fn with_motion(self, motion: &str) -> (r: EmoteLoadOptions)
        ensures
            r@ == (LoadOptions { motion: Some(motion@), ..self@ }),
    {
        let mut options = self;
        options.motion = Some(motion.to_owned());
        options
    }

    pub fn with_timeline(self, timeline: &str) -> (r: EmoteLoadOptions)
        ensures
            r@ == (LoadOptions { timeline: Some(timeline@), ..self@ }),
    {
        let mut options = self;
        options.timeline = Some(timeline.to_owned());
        options
    }
}

/// Why a model cannot be loaded or driven.
#[derive(Debug)]
pub enum EmoteRuntimeError {
    Io(String),
    Psb(String),
    Schema(EmoteSchemaError),
    MissingActiveMotion,
    MissingTimeline(String),
    RuntimeControl(String),
}

/// An `EmoteRuntimeError` by its characters.
#[verifier::ext_equal]
pub enum RuntimeFault {
    Io(Seq<char>),
    Psb(Seq<char>),
    Schema(SchemaFault),
    MissingActiveMotion,
    MissingTimeline(Seq<char>),
    RuntimeControl(Seq<char>),
}

impl View for EmoteRuntimeError {
    type V = RuntimeFault;

    open spec fn view(&self) -> RuntimeFault {
        match self {
            EmoteRuntimeError::Io(m) => RuntimeFault::Io(m@),
            EmoteRuntimeError::Psb(m) => RuntimeFault::Psb(m@),
            EmoteRuntimeError::Schema(e) => RuntimeFault::Schema(e@),
            EmoteRuntimeError::MissingActiveMotion => RuntimeFault::MissingActiveMotion,
            EmoteRuntimeError::MissingTimeline(name) => RuntimeFault::MissingTimeline(name@),
            EmoteRuntimeError::RuntimeControl(m) => RuntimeFault::RuntimeControl(m@),
        }
    }
}

impl RuntimeFault {
    /// The message for users.
    pub open spec fn message(self) -> Seq<char> {
        match self {
            RuntimeFault::Io(m) => m,
            RuntimeFault::Psb(m) => m,
            RuntimeFault::Schema(e) => e.message(),
            RuntimeFault::MissingActiveMotion => "Emote model has no active motion"@,
            RuntimeFault::MissingTimeline(name) => "timeline '"@ + name + "' does not exist"@,
            RuntimeFault::RuntimeControl(m) => m,
        }
    }
}

impl EmoteRuntimeError {
    /// The message for users.
    pub fn message(&self) -> (r: String)
        ensures
            r@ == self@.message(),
    {
        match self {
            EmoteRuntimeError::Io(m) => m.clone(),
            EmoteRuntimeError::Psb(m) => m.clone(),
            EmoteRuntimeError::Schema(e) => e.message(),
            EmoteRuntimeError::MissingActiveMotion => "Emote model has no active motion".to_owned(),
            EmoteRuntimeError::MissingTimeline(name) => join_two(
                "timeline '",
                name.as_str(),
                "' does not exist",
            ),
            EmoteRuntimeError::RuntimeControl(m) => m.clone(),
        }
    }
}

/// What of the behaviour of Emote players is confirmed, partial and missing.
#[derive(Clone, Debug, PartialEq, Eq)]
pub struct EmoteRuntimeParityReport {
    pub confirmed: Vec<&'static str>,
    pub partial: Vec<&'static str>,
    pub missing: Vec<&'static str>,
}

/// The lines of a report by their characters.
pub open spec fn report_lines(v: Seq<&'static str>) -> Seq<Seq<char>> {
    v.map_values(|s: &'static str| s@)
}

/// What is reproduced and what is not.
pub fn emote_runtime_parity_report() -> (r: EmoteRuntimeParityReport)
    ensures
        report_lines(r.confirmed@) == seq![
            "PSB/MDF/LZ4/key normalization"@,
            "metadata control loading order from MEmotePlayer::Init"@,
            "texture resource and atlas/icon extraction"@,
            "timelineControl variable track interpolation"@,
            "drawFrameInfo draw-list carrier"@,
            "coordinate.z based draw ordering"@,
            "dynamic per-frame scene/drawFrameInfo rebuild"@,
        ],
        report_lines(r.partial@) == seq![
            "selectorControl optionList/offValue/onValue variable output"@,
            "clampControl var_lr/var_ud clamping"@,
            "partsControl/eyeControl/eyebrowControl/mouthControl parsing and tick visibility diagnostics"@,
            "meshCombinator/rawMeshList frame mesh patch application"@,
            "stencilCompositeMaskLayerList and stencilType propagation into drawFrameInfo"@,
            "renderer pass separation for mask-generation layers"@,
        ],
        report_lines(r.missing@) == seq![
            "original transitionControl fade/diff state machine"@,
            "original loopControl transition scheduler"@,
            "original mirrorControl variable/mesh mirror application"@,
            "original bustControl/hairControl physics integration"@,
            "full MMotionPlayer::StepFrameMeshChain parent/child mesh chain"@,
            "confirmed meshSyncChildMask bit semantics"@,
            "confirmed joinTarget binding semantics"@,
            "true alpha-mask/stencil/composite/filter wgpu passes"@,
            "binary-compatible IEmotePlayer/PEmotePlayer ABI"@,
        ],
{
    let confirmed: Vec<&'static str> = vec![
        "PSB/MDF/LZ4/key normalization",
        "metadata control loading order from MEmotePlayer::Init",
        "texture resource and atlas/icon extraction",
        "timelineControl variable track interpolation",
        "drawFrameInfo draw-list carrier",
        "coordinate.z based draw ordering",
        "dynamic per-frame scene/drawFrameInfo rebuild",
    ];
    let partial: Vec<&'static str> = vec![
        "selectorControl optionList/offValue/onValue variable output",
        "clampControl var_lr/var_ud clamping",
        "partsControl/eyeControl/eyebrowControl/mouthControl parsing and tick visibility diagnostics",
        "meshCombinator/rawMeshList frame mesh patch application",
        "stencilCompositeMaskLayerList and stencilType propagation into drawFrameInfo",
        "renderer pass separation for mask-generation layers",
    ];
    let missing: Vec<&'static str> = vec![
        "original transitionControl fade/diff state machine",
        "original loopControl transition scheduler",
        "original mirrorControl variable/mesh mirror application",
        "original bustControl/hairControl physics integration",
        "full MMotionPlayer::StepFrameMeshChain parent/child mesh chain",
        "confirmed meshSyncChildMask bit semantics",
        "confirmed joinTarget binding semantics",
        "true alpha-mask/stencil/composite/filter wgpu passes",
        "binary-compatible IEmotePlayer/PEmotePlayer ABI",
    ];
    EmoteRuntimeParityReport { confirmed, partial, missing }
}

/// The first of a row of names that no control drives and that ends in a suffix.
pub open spec fn first_ending(names: Seq<Seq<char>>, suffix: Seq<char>) -> Option<Seq<char>>
    decreases names.len(),
{
    if names.len() == 0 {
        None
    } else if !drives_controls(names[0]) && suffix.is_suffix_of(names[0]) {
        Some(names[0])
    } else {
        first_ending(names.drop_first(), suffix)
    }
}

/// The timeline that belongs to a motion: the one of its name, else the first whose
/// path ends in it.
pub open spec fn timeline_for(timelines: Map<Seq<char>, Timeline>, motion: Seq<char>) -> Option<
    Seq<char>,
> {
    if timelines.dom().contains(motion) {
        Some(motion)
    } else {
        first_ending(ordered(timelines.dom()), "/"@ + motion)
    }
}

fn seek_ending(player: &ElunaPlayer, suffix: &str) -> (r: Option<String>)
    requires
        player.wf(),
    ensures
        opt_string(r) == first_ending(ordered(player@.timelines.dom()), suffix@),
{
    let entries = &player.timelines.entries;
    let ghost all = keys(entries@);
    let mut i: usize = 0;
    proof {
        player.timelines.lemma_ordered();
        assert(player@.timelines.dom() =~= player.timelines@.dom());
        assert(all.skip(0) =~= all);
    }
    while i < entries.len()
        invariant
            i <= entries@.len(),
            all == keys(entries@),
            first_ending(all, suffix@) == first_ending(all.skip(i as int), suffix@),
            ordered(player@.timelines.dom()) == all,
        decreases entries@.len() - i,
    {
        let ghost rest = all.skip(i as int);
        assert(rest[0] == entries@[i as int].0@);
        assert(rest.drop_first() =~= all.skip(i + 1));
        let name = entries[i].0.as_str();
        if !is_auto_control_timeline_name(name) && ends_with(name, suffix) {
            return Some(name.to_owned());
        }
        i = i + 1;
    }
    None
}

/// Finds the timeline that belongs to a motion.
pub fn find_timeline_for_motion(player: &ElunaPlayer, motion: &str) -> (r: Option<String>)
    requires
        player.wf(),
    ensures
        opt_string(r) == timeline_for(player@.timelines, motion@),
{
    if player.timelines.contains_key(motion) {
        return Some(motion.to_owned());
    }
    let suffix = concat_text("/", motion);
    seek_ending(player, suffix.as_str())
}

/// The timeline that plays by itself: the one asked for, else that of the motion,
/// else the first that no control drives.
pub open spec fn autoplayed(
    timelines: Map<Seq<char>, Timeline>,
    options: LoadOptions,
    motion: Option<Seq<char>>,
) -> Option<Seq<char>> {
    let first = first_ending(ordered(timelines.dom()), Seq::empty());
    if !options.autoplay_timeline {
        None
    } else if options.timeline is Some {
        options.timeline
    } else {
        match motion {
            Some(m) => match timeline_for(timelines, m) {
                Some(t) => Some(t),
                None => first,
            },
            None => first,
        }
    }
}

fn choose_autoplay(player: &ElunaPlayer, options: &EmoteLoadOptions, motion: &Option<String>) -> (r:
    Option<String>)
    requires
        player.wf(),
    ensures
        opt_string(r) == autoplayed(player@.timelines, options@, opt_string(*motion)),
{
    if !options.autoplay_timeline {
        return None;
    }
    if options.timeline.is_some() {
        return clone_opt(&options.timeline);
    }
    if let Some(m) = motion {
        if let Some(t) = find_timeline_for_motion(player, m.as_str()) {
            return Some(t);
        }
    }
    proof {
        reveal_strlit("");
        assert(""@ =~= Seq::<char>::empty());
    }
    seek_ending(player, "")
}

/// The current values of all variables.
pub open spec fn current_values(player: Player) -> Map<Seq<char>, Single> {
    player.vars.map_values(|s: crate::variables::VarState| s.value)
}

/// The current values of all variables of a player.
pub fn player_variable_values(player: &ElunaPlayer) -> (r: TextMap<Single>)
    requires
        player.wf(),
    ensures
        r.wf(),
        r@ == current_values(player@),
{
    let entries = &player.variables.entries;
    let mut r: TextMap<Single> = TextMap::new();
    let mut i: usize = 0;
    while i < entries.len()
        invariant
            i <= entries@.len(),
            player.wf(),
            *entries == player.variables.entries,
            r.wf(),
            forall|k: Seq<char>| #[trigger]
                r@.dom().contains(k) <==> keys(entries@).take(i as int).contains(k),
            forall|k: Seq<char>| #[trigger]
                r@.dom().contains(k) ==> r@[k] == current_values(player@)[k],
        decreases entries@.len() - i,
    {
        proof {
            let shorter = keys(entries@).take(i as int);
            let longer = keys(entries@).take(i + 1);
            let name = entries@[i as int].0@;
            player.variables.lemma_entry(i as int);
            assert forall|k: Seq<char>| #[trigger]
                longer.contains(k) <==> shorter.contains(k) || k == name by {
                if shorter.contains(k) {
                    let j = choose|j: int| 0 <= j < shorter.len() && shorter[j] == k;
                    assert(longer[j] == k);
                }
                if longer.contains(k) {
                    let j = choose|j: int| 0 <= j < longer.len() && longer[j] == k;
                    if j < i {
                        assert(shorter[j] == k);
                    }
                }
                assert(longer[i as int] == name);
            }
        }
        r.insert(entries[i].0.clone(), entries[i].1.value);
        i = i + 1;
    }
    proof {
        assert(keys(entries@).take(i as int) =~= keys(entries@));
        assert forall|k: Seq<char>| #[trigger]
            keys(entries@).contains(k) <==> player@.vars.dom().contains(k) by {
            assert(player.variables@.dom().contains(k) == player.variables.has(k));
        }
        assert(r@ =~= current_values(player@));
    }
    r
}

/// The keys of a map in order.
fn list_keys<V>(map: &TextMap<V>) -> (r: Vec<String>)
    requires
        map.wf(),
    ensures
        texts(r@) == keys(map.entries@),
{
    let mut r: Vec<String> = Vec::new();
    let mut i: usize = 0;
    while i < map.entries.len()
        invariant
            i <= map.entries@.len(),
            r@.len() == i,
            forall|j: int| 0 <= j < i ==> (#[trigger] r@[j])@ == map.entries@[j].0@,
        decreases map.entries@.len() - i,
    {
        r.push(map.entries[i].0.clone());
        i = i + 1;
    }
    assert(texts(r@) =~= keys(map.entries@));
    r
}

/// A loaded model with its player.
#[derive(Clone, Debug)]
pub struct EmoteRuntime {
    pub(crate) normalized_data: Vec<u8>,
    pub(crate) psb: PsbFile,
    pub(crate) schema: EmoteModelSchema,
    pub(crate) active_motion: Option<String>,
    pub(crate) player: ElunaPlayer,
    /// How deep layers and motions may nest.
    pub(crate) depth: usize,
}

/// The scene of a motion that follows from a player.
pub open spec fn scene_for(
    psb: PsbFile,
    data: Seq<u8>,
    schema: Schema,
    motion: Seq<char>,
    player: Player,
    depth: nat,
) -> Result<Scene, SchemaFault> {
    motion_scene(
        psb,
        Some(data),
        schema.base_object,
        schema.textures,
        motion,
        player.elapsed_ticks,
        current_values(player),
        depth,
    )
}

/// What loading a model comes to.
#[verifier::ext_equal]
pub struct Loaded {
    pub schema: Schema,
    pub motion: Option<Seq<char>>,
    pub player: Player,
    pub scene: Scene,
}

/// The motion that is shown: the one asked for, else the first.
pub open spec fn shown_motion(root: PsbValue, schema: Schema, options: LoadOptions) -> Option<
    Seq<char>,
> {
    if options.motion is Some {
        options.motion
    } else {
        match motions_of(root, schema.base_object) {
            Ok(row) => if row.len() > 0 {
                Some(row[0].0@)
            } else {
                None
            },
            Err(_) => None,
        }
    }
}

/// The first scene, under the values that the variables start with.
pub open spec fn first_scene(
    psb: PsbFile,
    data: Seq<u8>,
    schema: Schema,
    motion: Option<Seq<char>>,
    infos: Seq<VarInfo>,
    depth: nat,
) -> Result<Scene, SchemaFault> {
    match motion {
        Some(m) => motion_scene(
            psb,
            Some(data),
            schema.base_object,
            schema.textures,
            m,
            Single::zero(),
            starting_values(infos, document_timelines(psb.root)),
            depth,
        ),
        None => static_scene(psb.root, schema.base_object, schema.textures, depth),
    }
}

/// The player once the timeline that plays by itself has started.
pub open spec fn autostarted(
    player: Player,
    options: LoadOptions,
    motion: Option<Seq<char>>,
    pipeline: EmoteRuntimePipeline,
) -> Result<Player, RuntimeFault> {
    match autoplayed(player.timelines, options, motion) {
        None => Ok(player),
        Some(name) => if player.timelines.dom().contains(name) {
            Ok(player.played(name, TimelinePlayMode::looped(), pipeline))
        } else {
            Err(RuntimeFault::MissingTimeline(name))
        },
    }
}

/// What loading a model comes to, with its variables and controls.
pub open spec fn loaded(
    psb: PsbFile,
    data: Seq<u8>,
    options: LoadOptions,
    depth: nat,
    infos: Seq<VarInfo>,
    pipeline: EmoteRuntimePipeline,
) -> Result<Loaded, RuntimeFault> {
    match schema_of(psb.root) {
        Err(e) => Err(RuntimeFault::Schema(e)),
        Ok(schema) => {
            let motion = shown_motion(psb.root, schema, options);
            match first_scene(psb, data, schema, motion, infos, depth) {
                Err(e) => Err(RuntimeFault::Schema(e)),
                Ok(first) => match autostarted(
                    new_player(infos, document_timelines(psb.root), pipeline),
                    options,
                    motion,
                    pipeline,
                ) {
                    Err(e) => Err(e),
                    Ok(player) => match motion {
                        None => Ok(Loaded { schema, motion, player, scene: first }),
                        Some(m) => match scene_for(psb, data, schema, m, player, depth) {
                            Err(e) => Err(RuntimeFault::Schema(e)),
                            Ok(scene) => Ok(Loaded { schema, motion, player, scene }),
                        },
                    },
                },
            }
        },
    }
}

/// Whether a result of loading is that one.
pub open spec fn is_loaded(
    r: Result<EmoteRuntime, EmoteRuntimeError>,
    want: Result<Loaded, RuntimeFault>,
) -> bool {
    match r {
        Ok(rt) => want == Ok::<Loaded, RuntimeFault>(
            Loaded {
                schema: rt.model()@,
                motion: opt_string(rt.motion()),
                player: rt.inner()@,
                scene: rt.inner().shown_scene()@,
            },
        ),
        Err(e) => want == Err::<Loaded, RuntimeFault>(e@),
    }
}

impl EmoteRuntime {
    /// The player of the model.
    pub open(crate) spec fn inner(&self) -> ElunaPlayer {
        self.player
    }

    /// The model with another player.
    pub open(crate) spec fn with_inner(&self, player: ElunaPlayer) -> EmoteRuntime {
        EmoteRuntime { player, ..*self }
    }

    /// The document of the model.
    pub open(crate) spec fn document(&self) -> PsbFile {
        self.psb
    }

    /// The bytes of the document.
    pub open(crate) spec fn data(&self) -> Vec<u8> {
        self.normalized_data
    }

    /// The textures and the base object of the model.
    pub open(crate) spec fn model(&self) -> EmoteModelSchema {
        self.schema
    }

    /// The name of the motion that is shown.
    pub open(crate) spec fn motion(&self) -> Option<String> {
        self.active_motion
    }

    /// How deep layers and motions may nest.
    pub open(crate) spec fn deepest(&self) -> usize {
        self.depth
    }

    /// The player and the textures are in order, and so is the scene.
    pub open spec fn wf(&self) -> bool {
        &&& self.inner().wf()
        &&& self.inner().shown_scene().wf()
        &&& textures_wf(self.model().textures)
    }

    /// Whether two runtimes show one model.
    pub open spec fn same_document(&self, other: &EmoteRuntime) -> bool {
        &&& self.document() == other.document()
        &&& self.data() == other.data()
        &&& self.model() == other.model()
        &&& self.deepest() == other.deepest()
        &&& self.inner().pipeline() == other.inner().pipeline()
    }

    /// Whether the runtime shows a player of an earlier one, its scene built anew
    /// where a motion is shown; where that fails the scene stays.
    pub open spec fn shows(
        &self,
        before: &EmoteRuntime,
        player: Player,
        r: Result<(), EmoteRuntimeError>,
    ) -> bool {
        &&& self.same_document(before)
        &&& self.inner()@ == player
        &&& match opt_string(self.motion()) {
            None => r is Ok && self.inner().shown_scene() == before.inner().shown_scene(),
            Some(motion) => match scene_for(
                before.document(),
                before.data()@,
                before.model()@,
                motion,
                player,
                before.deepest() as nat,
            ) {
                Ok(scene) => r is Ok && self.inner().shown_scene()@ == scene,
                Err(e) => {
                    &&& r is Err
                    &&& r->Err_0@ == RuntimeFault::Schema(e)
                    &&& self.inner().shown_scene() == before.inner().shown_scene()
                },
            },
        }
    }

    /// Builds the scene of the motion that is shown anew.
    pub fn rebuild_scene(&mut self) -> (r: Result<(), EmoteRuntimeError>)
        requires
            old(self).wf(),
        ensures
            final(self).wf(),
            final(self).motion() == old(self).motion(),
            final(self).shows(old(self), old(self).inner()@, r),
    {
        let values = player_variable_values(&self.player);
        let elapsed = self.player.elapsed_ticks;
        let built = match &self.active_motion {
            None => {
                return Ok(());
            },
            Some(motion) => self.schema.build_motion_scene_at_with_resources_and_variables(
                &self.psb,
                self.normalized_data.as_slice(),
                motion.as_str(),
                elapsed,
                &values,
                self.depth,
            ),
        };
        match built {
            Ok(scene) => {
                self.player.replace_scene(scene);
                Ok(())
            },
            Err(e) => Err(EmoteRuntimeError::Schema(e)),
        }
    }

    /// Loads a model from a parsed document and the bytes of its resources. The
    /// bounds of its clamps must be in order.
    pub fn from_document(
        psb: PsbFile,
        normalized_data: Vec<u8>,
        options: EmoteLoadOptions,
        depth: usize,
    ) -> (r: Result<EmoteRuntime, EmoteRuntimeError>)
        requires
            forall|i: int|
                0 <= i < document_clamps(psb.root).len() ==> (#[trigger] document_clamps(
                    psb.root,
                )[i]).in_order(),
        ensures
            r matches Ok(rt) ==> rt.wf() && rt.document() == psb && rt.data() == normalized_data
                && rt.deepest() == depth && is_pipeline_of(rt.inner().pipeline(), psb.root),
            exists|infos: Seq<VarInfo>, pipeline: EmoteRuntimePipeline|
                {
                    &&& #[trigger] lists(infos, document_variables(psb.root))
                    &&& #[trigger] is_pipeline_of(pipeline, psb.root)
                    &&& r matches Ok(rt) ==> rt.inner().pipeline() == pipeline
                    &&& is_loaded(
                        r,
                        loaded(psb, normalized_data@, options@, depth as nat, infos, pipeline),
                    )
                },
    {
        let pipeline = collect_emote_runtime_pipeline(&psb.root);
        let variables = collect_emote_variables(&psb.root);
        let timelines = collect_emote_timelines(&psb.root);
        let ghost infos = views(variables@);
        let ghost controls = pipeline;
        proof {
            assert(lists(infos, document_variables(psb.root)));
            assert(is_pipeline_of(controls, psb.root));
            assert(views(pipeline.clamp_controls@) =~= document_clamps(psb.root));
            assert forall|i: int| 0 <= i < pipeline.clamp_controls@.len() implies (
            #[trigger] pipeline.clamp_controls@[i])@.in_order() by {
                assert(document_clamps(psb.root)[i].in_order());
            }
            lemma_fields_in_order(pipeline, psb.root);
        }
        let schema = match EmoteModelSchema::from_psb(&psb.root) {
            Ok(s) => s,
            Err(e) => {
                return Err(EmoteRuntimeError::Schema(e));
            },
        };
        let active_motion = if options.motion.is_some() {
            clone_opt(&options.motion)
        } else {
            match schema.default_motion_name(&psb.root) {
                Ok(name) => name,
                Err(_e) => None,
            }
        };
        assert(opt_string(active_motion) == shown_motion(psb.root, schema@, options@));
        let initial_values = initial_variable_values(&variables, &timelines);
        let first = match &active_motion {
            Some(motion) => schema.build_motion_scene_at_with_resources_and_variables(
                &psb,
                normalized_data.as_slice(),
                motion.as_str(),
                Single::zero(),
                &initial_values,
                depth,
            ),
            None => schema.build_static_scene(&psb.root, depth),
        };
        let scene = match first {
            Ok(s) => s,
            Err(e) => {
                return Err(EmoteRuntimeError::Schema(e));
            },
        };
        let mut player = ElunaPlayer::from_scene_variables_timelines_runtime(
            scene,
            variables,
            timelines,
            pipeline,
        );
        match choose_autoplay(&player, &options, &active_motion) {
            Some(name) => {
                if !player.timelines.contains_key(name.as_str()) {
                    return Err(EmoteRuntimeError::MissingTimeline(name));
                }
                player.play_timeline(name.as_str(), TimelinePlayMode::looped());
            },
            None => {},
        }
        let mut runtime = EmoteRuntime {
            normalized_data,
            psb,
            schema,
            active_motion,
            player,
            depth,
        };
        match runtime.rebuild_scene() {
            Ok(()) => Ok(runtime),
            Err(e) => Err(e),
        }
    }

    /// Sets a variable that is there at once.
    pub fn set_variable_immediate(&mut self, name: &str, value: Single) -> (r: Result<(), EmoteRuntimeError>)
        requires
            old(self).wf(),
        ensures
            final(self).wf(),
            final(self).motion() == old(self).motion(),
            final(self).shows(old(self), old(self).inner()@.set_now(name@, value, old(self).inner().pipeline()), r),
    {
        self.player.set_variable_immediate(name, value);
        self.rebuild_scene()
    }

    /// Stops a timeline, all of them where no name is given.
    pub fn stop_timeline(&mut self, name: &str) -> (r: Result<(), EmoteRuntimeError>)
        requires
            old(self).wf(),
        ensures
            final(self).wf(),
            final(self).motion() == old(self).motion(),
            final(self).shows(old(self), old(self).inner()@.stopped(name@, old(self).inner().pipeline()), r),
    {
        self.player.stop_timeline(name);
        self.rebuild_scene()
    }

    /// Sets all variables to their defaults.
    pub fn reset_all_variables(&mut self) -> (r: Result<(), EmoteRuntimeError>)
        requires
            old(self).wf(),
        ensures
            final(self).wf(),
            final(self).motion() == old(self).motion(),
            final(self).shows(old(self), old(self).inner()@.all_reset(old(self).inner().pipeline()), r),
    {
        self.player.reset_all_variables_to_default();
        self.rebuild_scene()
    }

    /// Puts springs and pendulums back as they were made.
    pub fn reset_physics(&mut self) -> (r: Result<(), EmoteRuntimeError>)
        requires
            old(self).wf(),
        ensures
            final(self).wf(),
            final(self).motion() == old(self).motion(),
            final(self).shows(old(self), old(self).inner()@.bodies_reset(old(self).inner().pipeline()), r),
    {
        self.player.reset_physics();
        self.rebuild_scene()
    }

    /// Shows the model.
    pub fn show(&mut self)
        requires
            old(self).wf(),
        ensures
            final(self).wf(),
            final(self).same_document(old(self)),
            final(self).motion() == old(self).motion(),
            final(self).inner().shown_scene() == old(self).inner().shown_scene(),
            final(self).inner()@ == (Player { shown: true, ..old(self).inner()@ }),
    {
        self.player.show();
    }

    /// Hides the model.
    pub fn conceal(&mut self)
        requires
            old(self).wf(),
        ensures
            final(self).wf(),
            final(self).same_document(old(self)),
            final(self).motion() == old(self).motion(),
            final(self).inner().shown_scene() == old(self).inner().shown_scene(),
            final(self).inner()@ == (Player { shown: false, ..old(self).inner()@ }),
    {
        self.player.conceal();
    }

    /// Sets a variable at once.
    pub fn set_variable(&mut self, name: &str, value: Single)
        requires
            old(self).wf(),
        ensures
            final(self).wf(),
            final(self).same_document(old(self)),
            final(self).motion() == old(self).motion(),
            final(self).inner().shown_scene() == old(self).inner().shown_scene(),
            final(self).inner()@ == old(self).inner()@.variable_sent(
                name@,
                value,
                Single::zero(),
                Single::zero(),
            ),
    {
        self.player.set_variable(name, value);
    }

    /// Sends a variable to a value within a time.
    pub fn set_variable_timed(&mut self, name: &str, value: Single, time: Single, easing: Single)
        requires
            old(self).wf(),
        ensures
            final(self).wf(),
            final(self).same_document(old(self)),
            final(self).motion() == old(self).motion(),
            final(self).inner().shown_scene() == old(self).inner().shown_scene(),
            final(self).inner()@ == old(self).inner()@.variable_sent(name@, value, time, easing),
    {
        self.player.set_variable_timed(name, value, time, easing);
    }

    /// Halts the timelines.
    pub fn pause(&mut self)
        requires
            old(self).wf(),
        ensures
            final(self).wf(),
            final(self).same_document(old(self)),
            final(self).motion() == old(self).motion(),
            final(self).inner().shown_scene() == old(self).inner().shown_scene(),
            final(self).inner()@ == (Player { paused: true, ..old(self).inner()@ }),
    {
        self.player.set_paused(true);
    }

    /// Lets the timelines go on.
    pub fn play(&mut self)
        requires
            old(self).wf(),
        ensures
            final(self).wf(),
            final(self).same_document(old(self)),
            final(self).motion() == old(self).motion(),
            final(self).inner().shown_scene() == old(self).inner().shown_scene(),
            final(self).inner()@ == (Player { paused: false, ..old(self).inner()@ }),
    {
        self.player.set_paused(false);
    }

    /// Says whether physics moves the bodies.
    pub fn set_physics_enabled(&mut self, enabled: bool)
        requires
            old(self).wf(),
        ensures
            final(self).wf(),
            final(self).same_document(old(self)),
            final(self).motion() == old(self).motion(),
            final(self).inner().shown_scene() == old(self).inner().shown_scene(),
            final(self).inner()@ == (Player { physics_enabled: enabled, ..old(self).inner()@ }),
    {
        self.player.set_physics_enabled(enabled);
    }

    /// Moves the model.
    pub fn set_coord(&mut self, x: Single, y: Single)
        requires
            old(self).wf(),
        ensures
            final(self).wf(),
            final(self).same_document(old(self)),
            final(self).motion() == old(self).motion(),
            final(self).inner().shown_scene() == old(self).inner().shown_scene(),
            final(self).inner()@ == old(self).inner()@.moved_to(x, y),
    {
        self.player.set_coord(x, y);
    }

    /// Scales the model.
    pub fn set_scale(&mut self, scale: Single)
        requires
            old(self).wf(),
        ensures
            final(self).wf(),
            final(self).same_document(old(self)),
            final(self).motion() == old(self).motion(),
            final(self).inner().shown_scene() == old(self).inner().shown_scene(),
            final(self).inner()@ == old(self).inner()@.scaled_to(scale),
    {
        self.player.set_scale(scale);
    }

    /// Turns the model.
    pub fn set_rot(&mut self, rot: Single)
        requires
            old(self).wf(),
        ensures
            final(self).wf(),
            final(self).same_document(old(self)),
            final(self).motion() == old(self).motion(),
            final(self).inner().shown_scene() == old(self).inner().shown_scene(),
            final(self).inner()@ == old(self).inner()@.turned_to(rot),
    {
        self.player.set_rot(rot);
    }

    /// Plays a timeline that is there from its start.
    pub fn play_timeline(&mut self, name: &str, mode: TimelinePlayMode) -> (r: Result<
        (),
        EmoteRuntimeError,
    >)
        requires
            old(self).wf(),
        ensures
            final(self).wf(),
            final(self).motion() == old(self).motion(),
            if old(self).inner()@.timelines.dom().contains(name@) {
                final(self).shows(
                    old(self),
                    old(self).inner()@.played(name@, mode, old(self).inner().pipeline()),
                    r,
                )
            } else {
                &&& *final(self) == *old(self)
                &&& r is Err
                &&& r->Err_0@ == RuntimeFault::MissingTimeline(name@)
            },
    {
        if !self.player.timelines.contains_key(name) {
            return Err(EmoteRuntimeError::MissingTimeline(name.to_owned()));
        }
        self.player.play_timeline(name, mode);
        self.rebuild_scene()
    }

    /// Sets a timeline to a time.
    pub fn set_timeline_time(&mut self, name: &str, ticks: Single) -> (r: Result<
        (),
        EmoteRuntimeError,
    >)
        requires
            old(self).wf(),
        ensures
            final(self).wf(),
            final(self).motion() == old(self).motion(),
            if old(self).inner()@.timelines.dom().contains(name@) {
                final(self).shows(
                    old(self),
                    old(self).inner()@.sought(name@, ticks, old(self).inner().pipeline()),
                    r,
                )
            } else {
                &&& final(self).inner()@ == old(self).inner()@
                &&& final(self).same_document(old(self))
                &&& final(self).inner().shown_scene() == old(self).inner().shown_scene()
                &&& r is Err
                &&& r->Err_0@ == RuntimeFault::RuntimeControl("timeline not found: "@ + name@)
            },
    {
        match self.player.set_timeline_time(name, ticks) {
            Err(m) => Err(EmoteRuntimeError::RuntimeControl(m)),
            Ok(()) => self.rebuild_scene(),
        }
    }

    /// Sets a selector to one of its options.
    pub fn set_selector_option(&mut self, label: &str, option_index: usize) -> (r: Result<
        (),
        EmoteRuntimeError,
    >)
        requires
            old(self).wf(),
        ensures
            final(self).wf(),
            final(self).motion() == old(self).motion(),
            match selector_fault(
                selector_named(
                    views(old(self).inner().pipeline().selector_controls@),
                    label@,
                ),
                label@,
                option_index,
            ) {
                Some(fault) => {
                    &&& final(self).inner()@ == old(self).inner()@
                    &&& final(self).same_document(old(self))
                    &&& final(self).inner().shown_scene() == old(self).inner().shown_scene()
                    &&& r is Err
                    &&& r->Err_0@ == RuntimeFault::RuntimeControl(fault)
                },
                None => final(self).shows(
                    old(self),
                    old(self).inner()@.set_now(
                        label@,
                        Single::from_count(option_index),
                        old(self).inner().pipeline(),
                    ).controlled(old(self).inner().pipeline()),
                    r,
                ),
            },
    {
        match self.player.set_selector_option(label, option_index) {
            Err(m) => Err(EmoteRuntimeError::RuntimeControl(m)),
            Ok(()) => self.rebuild_scene(),
        }
    }

    /// The motions of the model.
    pub fn motion_infos(&self) -> (r: Result<Vec<EmoteMotionInfo>, EmoteRuntimeError>)
        ensures
            match r {
                Ok(infos) => {
                    &&& motions_of(self.document().root, self.model()@.base_object) matches Ok(row)
                    &&& infos@.len() == row.len()
                    &&& forall|i: int|
                        0 <= i < infos@.len() ==> (#[trigger] infos@[i]).name@ == row[i].0@
                            && infos@[i].duration_ticks == motion_duration(row[i].1).unwrap_or(
                            Single::zero(),
                        )
                },
                Err(e) => motions_of(self.document().root, self.model()@.base_object) matches Err(fault)
                    && e@ == RuntimeFault::Schema(fault),
            },
    {
        match self.schema.motion_infos(&self.psb.root) {
            Ok(infos) => Ok(infos),
            Err(e) => Err(EmoteRuntimeError::Schema(e)),
        }
    }

    /// The names of the motions of the model.
    pub fn motion_names(&self) -> (r: Result<Vec<String>, EmoteRuntimeError>)
        ensures
            match r {
                Ok(names) => motions_of(self.document().root, self.model()@.base_object) matches Ok(row)
                    && texts(names@) == keys(row),
                Err(e) => motions_of(self.document().root, self.model()@.base_object) matches Err(fault)
                    && e@ == RuntimeFault::Schema(fault),
            },
    {
        let infos = match self.motion_infos() {
            Ok(v) => v,
            Err(e) => {
                return Err(e);
            },
        };
        let ghost row = motions_of(self.psb.root, self.schema@.base_object)->Ok_0;
        let mut names: Vec<String> = Vec::new();
        let mut i: usize = 0;
        while i < infos.len()
            invariant
                i <= infos@.len(),
                infos@.len() == row.len(),
                forall|j: int| 0 <= j < infos@.len() ==> (#[trigger] infos@[j]).name@ == row[j].0@,
                names@.len() == i,
                forall|j: int| 0 <= j < i ==> (#[trigger] names@[j])@ == row[j].0@,
            decreases infos@.len() - i,
        {
            names.push(infos[i].name.clone());
            i = i + 1;
        }
        assert(texts(names@) =~= keys(row));
        Ok(names)
    }

    pub fn active_motion(&self) -> (r: Option<&str>)
        ensures
            opt_text(r) == opt_string(self.motion()),
    {
        match &self.active_motion {
            Some(m) => Some(m.as_str()),
            None => None,
        }
    }

    /// Shows another motion; variables on their way are there at once.
    pub fn set_motion(&mut self, motion: &str) -> (r: Result<(), EmoteRuntimeError>)
        requires
            old(self).wf(),
        ensures
            final(self).wf(),
            opt_string(final(self).motion()) == Some(motion@),
            final(self).shows(old(self), old(self).inner()@.skipped(), r),
    {
        self.active_motion = Some(motion.to_owned());
        self.player.skip();
        self.rebuild_scene()
    }

    /// The names of all timelines.
    pub fn timeline_names(&self) -> (r: Vec<String>)
        requires
            self.wf(),
        ensures
            texts(r@) == ordered(self.inner()@.timelines.dom()),
    {
        proof {
            self.player.timelines.lemma_ordered();
            assert(self.player@.timelines.dom() =~= self.player.timelines@.dom());
        }
        list_keys(&self.player.timelines)
    }

    /// The names of all variables.
    pub fn variable_names(&self) -> (r: Vec<String>)
        requires
            self.wf(),
        ensures
            texts(r@) == ordered(self.inner()@.vars.dom()),
    {
        proof {
            self.player.variables.lemma_ordered();
            assert(self.player@.vars.dom() =~= self.player.variables@.dom());
        }
        list_keys(&self.player.variables)
    }

    pub fn variable_value(&self, name: &str) -> (r: Option<Single>)
        requires
            self.wf(),
        ensures
            r == (if self.inner()@.vars.dom().contains(name@) {
                Some(self.inner()@.vars[name@].value)
            } else {
                None
            }),
    {
        self.player.variable_value(name)
    }

    /// The current values of all variables.
    pub fn variable_values(&self) -> (r: TextMap<Single>)
        requires
            self.wf(),
        ensures
            r.wf(),
            r@ == current_values(self.inner()@),
    {
        player_variable_values(&self.player)
    }

    pub fn scene(&self) -> (r: &EmoteStaticScene)
        ensures
            *r == self.inner().shown_scene(),
    {
        &self.player.scene
    }

    pub fn sprites(&self) -> (r: &Vec<EmoteStaticSprite>)
        ensures
            *r == self.inner().shown_scene().sprites,
    {
        &self.player.scene.sprites
    }

    pub fn draw_frame_info(&self) -> (r: &Vec<EmoteDrawFrameInfo>)
        ensures
            *r == self.inner().shown_scene().draw_frame_info,
    {
        &self.player.scene.draw_frame_info
    }

    /// The bounds of the scene that is shown, given where its sprites stand; none where
    /// nothing is seen.
    pub fn bounds(&self, stands: &Vec<Stand>) -> (r: Option<EmoteSceneBounds>)
        requires
            self.wf(),
            stands@.len() == self.inner().shown_scene().sprites@.len(),
        ensures
            r == scene_bounds(self.inner().shown_scene()@.sprites, stands@),
    {
        self.player.bounds(stands)
    }

    pub fn texture_sources(&self) -> (r: &TextMap<EmoteTextureSource>)
        ensures
            *r == self.model().textures,
    {
        &self.schema.textures
    }

    /// The bytes of a texture.
    pub fn texture_bytes(&self, resource_index: u32) -> (r: Option<&[u8]>)
        ensures
            (match r {
                Some(bytes) => Some(bytes@),
                None => None,
            }) == resource_at(
                self.document().resources@,
                self.data()@,
                resource_index as int,
            ),
    {
        self.psb.resource_bytes(self.normalized_data.as_slice(), resource_index as usize)
    }

    pub fn runtime_pipeline(&self) -> (r: &EmoteRuntimePipeline)
        ensures
            *r == self.inner().pipeline(),
    {
        &self.player.runtime_pipeline
    }

    /// The document of the model.
    pub fn psb(&self) -> (r: &PsbFile)
        ensures
            *r == self.document(),
    {
        &self.psb
    }

    /// The bytes of the document.
    pub fn normalized_data(&self) -> (r: &Vec<u8>)
        ensures
            *r == self.data(),
    {
        &self.normalized_data
    }

    /// The textures and the base object of the model.
    pub fn schema(&self) -> (r: &EmoteModelSchema)
        ensures
            *r == self.model(),
    {
        &self.schema
    }

    pub fn inner_player(&self) -> (r: &ElunaPlayer)
        ensures
            *r == self.inner(),
    {
        &self.player
    }

    pub fn inner_player_mut(&mut self) -> (r: &mut ElunaPlayer)
        ensures
            *r == old(self).inner(),
            *final(self) == old(self).with_inner(*final(r)),
    {
        &mut self.player
    }
}

} // verus!
