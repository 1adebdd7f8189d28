//! Models read from documents.

use eluna::arguments::PlayerOptions;
use eluna::catalog::{collect_emote_variables, initial_variable_values};
use eluna::combinator::{decode_raw_mesh_list, parse_mesh_domain_icon};
use eluna::controls::{collect_emote_runtime_pipeline, PhysicsControlKind};
use eluna::dump::write_root_dump;
use eluna::frames::{evaluate_frame_list, motion_duration_ticks, wrap_motion_time};
use eluna::layers::motion_priority_ranks;
use eluna::model::load_emote_static_scene;
use eluna::order::TextMap;
use eluna::place::{chain, EmoteTransform2D, Stand, Turn};
use eluna::player::ElunaPlayer;
use eluna::psb::{
    range_bytes, PsbDecryptionKey, PsbFile, PsbHeader, PsbNormalizeOptions, PsbResourceRange,
    RangeError,
};
use eluna::refs::{
    resolve_composite_mask_owners, resolve_draw_frame_layer_reference,
    resolve_layer_reference_with_owner,
};
use eluna::schema::{EmoteModelSchema, EmoteSchemaError};
use eluna::sdk::{
    emote_runtime_parity_report, EmoteLoadOptions, EmoteRuntime, EmoteRuntimeError,
};
use eluna::single::Single;
use eluna::timelines::{collect_emote_timelines, evaluate_timeline_variable};
use eluna::value::PsbValue;
use eluna::viewer::LoadedModel;

fn s(x: f32) -> Single {
    Single { bits: x.to_bits() }
}

fn f(x: Single) -> f32 {
    f32::from_bits(x.bits)
}

fn num(x: f32) -> PsbValue {
    PsbValue::Float(s(x))
}

fn whole(n: i64) -> PsbValue {
    PsbValue::Int(n)
}

fn text(t: &str) -> PsbValue {
    PsbValue::String(t.to_owned())
}

fn object(fields: Vec<(&str, PsbValue)>) -> PsbValue {
    PsbValue::Object(fields.into_iter().map(|(k, v)| (k.to_owned(), v)).collect())
}

fn list(items: Vec<PsbValue>) -> PsbValue {
    PsbValue::List(items)
}

fn place(x: f32, y: f32, z: f32) -> PsbValue {
    list(vec![num(x), num(y), num(z)])
}

fn icon(left: f32, width: f32) -> PsbValue {
    object(vec![
        ("left", num(left)),
        ("top", num(0.0)),
        ("width", num(width)),
        ("height", num(20.0)),
    ])
}

fn source() -> PsbValue {
    object(vec![(
        "tex",
        object(vec![
            (
                "texture",
                object(vec![
                    ("width", whole(100)),
                    ("height", whole(40)),
                    ("pixel", PsbValue::Resource(0)),
                    ("type", text("RGBA8")),
                ]),
            ),
            ("icon", object(vec![("eye", icon(0.0, 10.0)), ("body", icon(10.0, 50.0))])),
        ]),
    )])
}

fn frame(time: i64, fields: Vec<(&str, PsbValue)>) -> PsbValue {
    object(vec![("time", whole(time)), ("type", whole(2)), ("content", object(fields))])
}

fn layer(label: &str, frames: Vec<PsbValue>, children: Vec<PsbValue>) -> PsbValue {
    object(vec![
        ("label", text(label)),
        ("frameList", list(frames)),
        ("children", list(children)),
    ])
}

fn shown(src: &str, icon: &str, x: f32, y: f32, z: f32) -> PsbValue {
    frame(
        0,
        vec![
            ("src", text(src)),
            ("icon", text(icon)),
            ("coord", place(x, y, z)),
            ("opa", num(10.0)),
        ],
    )
}

fn main_motion() -> PsbValue {
    object(vec![
        ("lastTime", num(60.0)),
        (
            "layer",
            list(vec![
                layer("body", vec![shown("tex", "body", 0.0, 0.0, 0.0)], vec![]),
                layer("eye", vec![shown("tex", "eye", 5.0, -5.0, 1.0)], vec![]),
            ]),
        ),
    ])
}

fn timeline_control() -> PsbValue {
    list(vec![object(vec![
        ("label", text("main")),
        ("path_hint", text("main")),
        ("lastTime", num(10.0)),
        (
            "variableList",
            list(vec![object(vec![
                ("label", text("face")),
                (
                    "frameList",
                    list(vec![
                        object(vec![
                            ("time", num(0.0)),
                            ("content", object(vec![("value", num(1.0))])),
                        ]),
                        object(vec![
                            ("time", num(10.0)),
                            ("content", object(vec![("value", num(3.0))])),
                        ]),
                    ]),
                ),
            ])]),
        ),
    ])])
}

fn metadata() -> PsbValue {
    object(vec![
        ("base", object(vec![("chara", text("all")), ("motion", text("main"))])),
        (
            "variableList",
            list(vec![object(vec![
                ("label", text("face")),
                ("default", num(0.5)),
                ("minValue", num(-1.0)),
                ("maxValue", num(4.0)),
            ])]),
        ),
        ("timelineControl", timeline_control()),
        (
            "clampControl",
            list(vec![object(vec![
                ("type", whole(0)),
                ("var_lr", text("face")),
                ("var_ud", text("other")),
                ("min", num(-3.0)),
                ("max", num(3.0)),
            ])]),
        ),
        (
            "hairControl",
            list(vec![object(vec![
                ("label", text("front")),
                ("var_lr", text("hair_LR_front")),
                ("baseLayer", text("body")),
            ])]),
        ),
    ])
}

fn root() -> PsbValue {
    object(vec![
        ("spec", text("krkr")),
        ("metadata", metadata()),
        ("source", source()),
        (
            "object",
            object(vec![(
                "all",
                object(vec![("motion", object(vec![("main", main_motion())]))]),
            )]),
        ),
    ])
}

fn document(root: PsbValue) -> PsbFile {
    PsbFile {
        version: 3,
        header: PsbHeader {
            signature: 0x0042_5350,
            version: 3,
            flags: 0,
            header_offset: 44,
            name_offset: 44,
            string_offset: 0,
            string_data_offset: 0,
            resource_offset: 0,
            resource_length_offset: 0,
            resource_data_offset: 0,
            root_offset: 0,
            extra: None,
        },
        encrypted: false,
        names: vec![],
        strings: vec![],
        resources: vec![PsbResourceRange { offset: 1, length: 2 }],
        extra_resources: vec![],
        root,
    }
}

#[test]
fn a_schema_is_read() {
    let schema = EmoteModelSchema::from_psb(&root()).unwrap();
    assert_eq!(schema.base_object, "all");
    assert_eq!(schema.spec.as_deref(), Some("krkr"));
    let texture = schema.textures.get("tex").unwrap();
    assert_eq!((texture.width, texture.height, texture.resource_index), (100, 40, 0));
    assert_eq!(texture.format.as_deref(), Some("RGBA8"));
    assert_eq!(f(texture.icons.get("body").unwrap().width), 50.0);
    assert_eq!(schema.default_motion_name(&root()).unwrap().as_deref(), Some("main"));
    let infos = schema.motion_infos(&root()).unwrap();
    assert_eq!(infos.len(), 1);
    assert_eq!(infos[0].name, "main");
}

fn fault(root: PsbValue) -> EmoteSchemaError {
    match EmoteModelSchema::from_psb(&root) {
        Err(e) => e,
        Ok(_) => panic!("no fault"),
    }
}

#[test]
fn faults_of_a_schema() {
    assert!(matches!(fault(whole(1)), EmoteSchemaError::RootIsNotObject));
    assert!(matches!(fault(object(vec![])), EmoteSchemaError::MissingObjectTable));
    assert!(matches!(
        fault(object(vec![("object", object(vec![]))])),
        EmoteSchemaError::MissingSourceTable
    ));
    let e = fault(object(vec![("object", object(vec![])), ("source", object(vec![]))]));
    assert!(matches!(e, EmoteSchemaError::MissingBaseObject));
    assert_eq!(e.message(), "cannot determine base Emote object");
    let one = || object(vec![("all_parts", object(vec![]))]);
    let bare = object(vec![("tex", object(vec![("texture", object(vec![]))]))]);
    let e = fault(object(vec![("object", one()), ("source", bare)]));
    assert!(matches!(e, EmoteSchemaError::InvalidTextureResource { .. }));
    assert_eq!(e.message(), "invalid or missing texture resource for tex");
    let sizeless =
        object(vec![("tex", object(vec![("texture", object(vec![("pixel", PsbValue::Resource(0))]))]))]);
    let e = fault(object(vec![("object", one()), ("source", sizeless)]));
    assert_eq!(e.message(), "invalid source texture entry for tex");
    let iconless = object(vec![(
        "tex",
        object(vec![
            (
                "texture",
                object(vec![
                    ("pixel", PsbValue::Resource(0)),
                    ("width", whole(4)),
                    ("height", whole(4)),
                ]),
            ),
            ("icon", object(vec![("a", object(vec![]))])),
        ]),
    )]);
    let e = fault(object(vec![("object", one()), ("source", iconless)]));
    assert_eq!(e.message(), "invalid icon tex/a");
    assert_eq!(EmoteSchemaError::NestedTooDeep.message(), "Emote layers nest too deep");
}

#[test]
fn a_static_scene_is_built() {
    let (_schema, scene) = load_emote_static_scene(&root(), 8).unwrap();
    assert_eq!(scene.sprites.len(), 2);
    let body = &scene.sprites[0];
    assert_eq!(body.icon_name, "body");
    assert_eq!((f(body.width), f(body.height)), (50.0, 20.0));
    assert_eq!(f(body.uv_left), 0.1);
    let eye = &scene.sprites[1];
    assert_eq!(eye.icon_name, "eye");
    assert!(f(body.z) <= f(eye.z));
    assert_eq!(scene.layer_states.len(), 2);
    assert!(scene.layer_states[0].path < scene.layer_states[1].path);
}

#[test]
fn motions_nest_as_deep_as_allowed() {
    let outer = object(vec![(
        "layer",
        list(vec![layer(
            "inner",
            vec![frame(0, vec![("src", text("motion/all/main")), ("coord", place(1.0, 2.0, 0.0))])],
            vec![],
        )]),
    )]);
    let root = object(vec![
        ("source", source()),
        (
            "object",
            object(vec![(
                "all",
                object(vec![("motion", object(vec![("outer", outer), ("main", main_motion())]))]),
            )]),
        ),
    ]);
    let psb = document(root);
    let schema = EmoteModelSchema::from_psb(&psb.root).unwrap();
    let deep = schema.build_motion_scene_at(&psb, "outer", s(0.0), 4).unwrap();
    assert_eq!(deep.sprites.len(), 2);
    match schema.build_motion_scene_at(&psb, "outer", s(0.0), 1) {
        Err(e) => assert!(matches!(e, EmoteSchemaError::NestedTooDeep)),
        Ok(scene) => assert_eq!(scene.sprites.len(), 2),
    }
    assert!(matches!(
        schema.build_motion_scene_at(&psb, "outer", s(0.0), 0),
        Err(EmoteSchemaError::NestedTooDeep)
    ));
}

#[test]
fn a_variable_moves_a_layer() {
    let eye = object(vec![
        ("label", text("eye")),
        ("parameterize", whole(0)),
        (
            "frameList",
            list(vec![
                frame(
                    0,
                    vec![("src", text("tex")), ("icon", text("eye")), ("coord", place(0.0, 0.0, 0.0))],
                ),
                frame(
                    10,
                    vec![("src", text("tex")), ("icon", text("eye")), ("coord", place(20.0, 0.0, 0.0))],
                ),
            ]),
        ),
    ]);
    let moving = object(vec![
        (
            "parameter",
            list(vec![object(vec![
                ("id", text("face")),
                ("rangeBegin", num(0.0)),
                ("rangeEnd", num(1.0)),
            ])]),
        ),
        ("layer", list(vec![eye])),
    ]);
    let root = object(vec![
        ("source", source()),
        ("object", object(vec![("all", object(vec![("motion", object(vec![("main", moving)]))]))])),
    ]);
    let psb = document(root);
    let schema = EmoteModelSchema::from_psb(&psb.root).unwrap();
    let at = |value: f32| {
        let mut variables: TextMap<Single> = TextMap::new();
        variables.insert("face".to_owned(), s(value));
        let scene = schema
            .build_motion_scene_at_with_variables(&psb, "main", s(0.0), &variables, 8)
            .unwrap();
        let sprite = &scene.sprites[0];
        let turns: Vec<Turn> =
            sprite.world_transform.iter().map(|_| Turn { cos: s(1.0), sin: s(0.0) }).collect();
        let world = chain(&sprite.world_transform, &turns);
        let stand = Stand { turn: Turn { cos: s(1.0), sin: s(0.0) }, world };
        f(sprite.bounds_rect(stand).min_x)
    };
    assert_eq!(at(0.5) - at(0.0), 10.0);
    assert_eq!(at(1.0) - at(0.0), 20.0);
    assert_eq!(at(7.0) - at(0.0), 20.0);
}

#[test]
fn variables_and_timelines_are_collected() {
    let infos = collect_emote_variables(&root());
    let face = infos.iter().find(|v| v.name == "face").unwrap();
    // The first frame of a timeline takes the place of the default.
    assert_eq!(f(face.default_value), 1.0);
    assert_eq!(f(face.min_value.unwrap()), -1.0);
    let timelines = collect_emote_timelines(&root());
    let main = timelines.iter().find(|t| t.name == "main").unwrap();
    assert_eq!(f(main.duration_ticks), 10.0);
    assert_eq!(main.variables.len(), 1);
    assert_eq!(f(evaluate_timeline_variable(&main.variables[0], s(5.0))), 2.0);
    assert_eq!(f(evaluate_timeline_variable(&main.variables[0], s(-5.0))), 1.0);
    assert_eq!(f(evaluate_timeline_variable(&main.variables[0], s(50.0))), 3.0);
    let values = initial_variable_values(&infos, &timelines);
    assert_eq!(f(*values.get("face").unwrap()), 1.0);
}

#[test]
fn controls_are_collected() {
    let pipeline = collect_emote_runtime_pipeline(&root());
    assert_eq!(pipeline.clamp_controls.len(), 1);
    assert_eq!(pipeline.clamp_controls[0].var_lr, "face");
    assert_eq!(pipeline.physics_controls.len(), 1);
    assert_eq!(pipeline.physics_controls[0].kind(), PhysicsControlKind::Hair);
    assert_eq!(pipeline.physics_controls[0].definition().label, "front");
}

#[test]
fn a_runtime_from_a_document() {
    let options = EmoteLoadOptions::default().with_motion("main").with_timeline("main");
    let mut runtime = EmoteRuntime::from_document(document(root()), vec![9, 8, 7], options, 8).unwrap();
    assert_eq!(runtime.active_motion(), Some("main"));
    assert_eq!(runtime.motion_names().unwrap(), vec!["main".to_owned()]);
    assert_eq!(runtime.timeline_names(), vec!["main".to_owned()]);
    assert_eq!(runtime.texture_bytes(0).unwrap().to_vec(), vec![8, 7]);
    assert!(runtime.texture_bytes(1).is_none());
    assert_eq!(runtime.sprites().len(), 2);
    assert_eq!(f(runtime.variable_value("face").unwrap()), 1.0);
    runtime.set_variable_immediate("face", s(9.0)).unwrap();
    assert_eq!(f(runtime.variable_value("face").unwrap()), 3.0);
    assert!(runtime.play_timeline("main", eluna::api::TimelinePlayMode::once()).is_ok());
    match runtime.play_timeline("nothing", eluna::api::TimelinePlayMode::once()) {
        Err(e) => assert!(matches!(e, EmoteRuntimeError::MissingTimeline(_))),
        Ok(_) => panic!("no fault"),
    }
    match runtime.set_selector_option("none", 0) {
        Err(e) => assert!(matches!(e, EmoteRuntimeError::RuntimeControl(_))),
        Ok(_) => panic!("no fault"),
    }
    runtime.set_timeline_time("main", s(5.0)).unwrap();
    runtime.set_motion("main").unwrap();
    runtime.reset_all_variables().unwrap();
    runtime.pause();
    assert!(runtime.inner_player().is_paused());
    runtime.conceal();
    assert!(!runtime.inner_player().is_shown());
    assert!(runtime.variable_names().contains(&"face".to_owned()));
    let upright = Turn { cos: s(1.0), sin: s(0.0) };
    let stands: Vec<Stand> = runtime
        .sprites()
        .iter()
        .map(|sprite| {
            let steps = &sprite.world_transform;
            Stand { turn: upright, world: chain(steps, &vec![upright; steps.len()]) }
        })
        .collect();
    let bounds = runtime.bounds(&stands).unwrap();
    assert_eq!((f(bounds.min_x), f(bounds.min_y)), (-25.0, -15.0));
    assert_eq!((f(bounds.max_x), f(bounds.max_y)), (25.0, 10.0));
}

#[test]
fn a_document_without_motion_shows_its_first_scene() {
    let root = object(vec![("source", source()), (
        "object",
        object(vec![("all", object(vec![("motion", object(vec![]))]))]),
    )]);
    let runtime =
        EmoteRuntime::from_document(document(root), vec![], EmoteLoadOptions::default(), 8).unwrap();
    assert!(runtime.active_motion().is_none());
    assert!(runtime.sprites().is_empty());
    let e = match EmoteRuntime::from_document(document(whole(1)), vec![], EmoteLoadOptions::default(), 8) {
        Err(e) => e,
        Ok(_) => panic!("no fault"),
    };
    assert!(matches!(e, EmoteRuntimeError::Schema(EmoteSchemaError::RootIsNotObject)));
    assert_eq!(e.message(), "PSB root is not an object");
}

#[test]
fn models_are_copied() {
    let options = EmoteLoadOptions::default().with_motion("main");
    let runtime = EmoteRuntime::from_document(document(root()), vec![9, 8, 7], options, 8).unwrap();
    let mut other = runtime.clone();
    other.set_variable_immediate("face", s(2.0)).unwrap();
    assert_eq!(f(other.variable_value("face").unwrap()), 2.0);
    assert_eq!(f(runtime.variable_value("face").unwrap()), 1.0);
    assert_eq!(other.psb().resources.len(), 1);
    assert_eq!(other.normalized_data(), runtime.normalized_data());
    assert_eq!(other.schema().textures.entries.len(), 1);
    assert_eq!(write_root_dump(&other.psb().root), write_root_dump(&root()));
    let scene = runtime.scene().clone();
    assert_eq!(scene.sprites.len(), 2);
    assert_eq!(scene.filter_motion("nothing").sprites.len(), 0);
    assert_eq!(runtime.scene().clone().filter_motion(&scene_motion(&runtime)).sprites.len(), 2);
}

fn scene_motion(runtime: &EmoteRuntime) -> String {
    runtime.sprites()[0].motion_name.clone()
}

#[test]
fn a_player_from_a_document() {
    let p = ElunaPlayer::from_psb(&root(), 8).unwrap();
    assert_eq!(p.scene().sprites.len(), 2);
    assert!(p.variable_value("face").is_some());
    assert!(ElunaPlayer::from_psb(&whole(1), 8).is_err());
}

#[test]
fn a_model_for_the_viewer() {
    let args: Vec<String> =
        vec!["--input", "m.psb", "--motion", "main", "--set", "face=2"].into_iter().map(|a| a.to_owned()).collect();
    let options = PlayerOptions::parse(&args).unwrap().unwrap();
    let mut model = LoadedModel::from_document(document(root()), vec![0, 0, 0], &options, 8).unwrap();
    assert_eq!(model.debug_frame_count, 0);
    assert_eq!(model.runtime.sprites().len(), 2);
    assert!(model.moves_bodies(s(1.0)));
    assert!(!model.moves_bodies(s(0.0)));
    model.select_motion("other");
    assert_eq!(model.runtime.active_motion(), Some("other"));
    assert!(model.rebuild_scene().is_err());
    model.select_motion("main");
    model.rebuild_scene().unwrap();
    assert_eq!(model.runtime.sprites().len(), 2);
}

#[test]
fn the_key_state_is_fixed_but_for_one_word() {
    let options = EmoteLoadOptions::default().with_emote_key(0x1234_5678);
    let key = options.normalize.decrypt_key.unwrap();
    assert_eq!(
        key,
        PsbDecryptionKey {
            key0: 0x075B_CD15,
            key1: 0x159A_55E5,
            key2: 0x1F12_3BB5,
            key3: 0x1234_5678,
            key4: 0,
            key5: 0,
        }
    );
    let plain = PsbNormalizeOptions::default();
    assert!(plain.decode_mdf && plain.decode_lz4 && plain.decrypt_key.is_none());
}

#[test]
fn the_parity_report_is_not_empty() {
    let report = emote_runtime_parity_report();
    assert!(!report.confirmed.is_empty());
    assert!(!report.partial.is_empty());
    assert!(!report.missing.is_empty());
}

#[test]
fn ranges_of_bytes() {
    let data = vec![1u8, 2, 3, 4];
    let range = |offset, length| PsbResourceRange { offset, length };
    assert_eq!(range_bytes(&data, range(1, 2)).unwrap().to_vec(), vec![2, 3]);
    assert_eq!(range_bytes(&data, range(4, 0)).unwrap().len(), 0);
    assert_eq!(range_bytes(&data, range(3, 2)).unwrap_err(), RangeError::OutsideData);
    assert_eq!(range_bytes(&data, range(u64::MAX, 2)).unwrap_err(), RangeError::Overflow);
    assert_eq!(RangeError::Overflow.message(), "resource range overflow");
    assert_eq!(RangeError::OutsideData.message(), "resource range outside source data");
}

#[test]
fn frame_lists() {
    let frames = vec![
        frame(0, vec![("coord", place(0.0, 0.0, 0.0)), ("opa", num(10.0))]),
        frame(10, vec![("coord", place(8.0, 0.0, 0.0)), ("opa", num(0.0))]),
    ];
    let first = evaluate_frame_list(&frames, s(0.0));
    assert_eq!(first.frame_index, Some(0));
    let late = evaluate_frame_list(&frames, s(99.0));
    assert_eq!(late.frame_index, Some(1));
    assert_eq!(f(late.coord.unwrap().x), 8.0);
    assert_eq!(f(late.opa), 0.0);
    assert_eq!(f(motion_duration_ticks(&main_motion()).unwrap()), 60.0);
    assert_eq!(f(wrap_motion_time(s(70.0), s(60.0))), 10.0);
    assert_eq!(motion_priority_ranks(&main_motion(), s(0.0)).entries.len(), 0);
}

#[test]
fn references_of_layers() {
    let row = vec![
        ("a/eye".to_owned(), Some("eye".to_owned())),
        ("b/eye".to_owned(), Some("eye".to_owned())),
        ("b/mask".to_owned(), Some("mask".to_owned())),
    ];
    assert_eq!(
        resolve_draw_frame_layer_reference("eye", &row),
        vec!["a/eye".to_owned(), "b/eye".to_owned()]
    );
    assert_eq!(resolve_layer_reference_with_owner("eye", "b/owner", &row), vec!["b/eye".to_owned()]);
    assert!(resolve_draw_frame_layer_reference("nose", &row).is_empty());
    let mut raw: TextMap<Vec<String>> = TextMap::new();
    raw.insert("b/owner".to_owned(), vec!["mask".to_owned()]);
    let owners = resolve_composite_mask_owners(&row, &raw);
    assert_eq!(owners.get("b/owner").unwrap().clone(), vec!["b/mask".to_owned()]);
}

#[test]
fn mesh_texts_and_bytes() {
    assert!(parse_mesh_domain_icon("eye").is_none());
    assert!(decode_raw_mesh_list(&[1, 2, 3], 1, false).is_none());
    assert_eq!(
        EmoteTransform2D::identity().apply(eluna::mesh::Point { x: s(3.0), y: s(4.0) }),
        eluna::mesh::Point { x: s(3.0), y: s(4.0) }
    );
}

#[test]
fn values_of_a_document() {
    let v = object(vec![
        ("n", whole(-3)),
        ("x", PsbValue::Double(2.5f64.to_bits())),
        ("s", text("t")),
        ("r", PsbValue::Resource(4)),
    ]);
    assert_eq!(v.field_i64("n"), Some(-3));
    assert_eq!(v.field_u32("n"), None);
    assert_eq!(f(v.field_single("x").unwrap()), 2.5);
    assert_eq!(v.field_str("s"), Some("t"));
    assert_eq!(v.field_u32("r"), Some(4));
    assert!(v.field("q").is_none());
    assert!(whole(1).field("q").is_none());
    assert_eq!(v.copy().field_i64("n"), Some(-3));
}
