//! Where sprites lie, and how they are drawn.

use eluna::assembly::EmoteStaticScene;
use eluna::diagnostics::{
    compare_scenes, count_changed_variables, differs, list_above, list_body_values, list_sprites,
    mark_sprite, screen_bounds, skip_reason, DrawMark, SkipReason, SpriteSort,
};
use eluna::draws::{build_scene_draws, makes_mask, shown_bounds, DrawError};
use eluna::face::{
    face_status, icon_is_face_icon, is_face_related_sprite, list_layer, list_lower_layer,
    lower_name_in_group, lower_name_is_face_icon, lower_name_passes, short_path, variable_in_group,
    variable_passes, FaceGroup, FaceStatus, LayerTint,
};
use eluna::frame_plan::{
    audit_drawing_order, color_pass, fit_viewport, mask_pass, mask_references, number_draws,
    plan_masks, row_bytes_aligned, unpad_rows, ColorMode, ColorStep,
};
use eluna::mesh::{EmoteMeshPatch, Point};
use eluna::order::TextMap;
use eluna::place::{
    chain, compute_bounds, step_angles, EmoteSceneBounds, EmoteTransform2D, Stand, Turn,
};
use eluna::raster::{draw_scene, edge, frame_bounds};
use eluna::scene::{
    draw_frame_info, EmoteDrawPass, EmoteStaticSprite, TransformStep, TravelContext,
};
use eluna::single::Single;
use eluna::texture::{DecodedTexture, ModelTexture};

fn s(x: f32) -> Single {
    Single { bits: x.to_bits() }
}

fn f(x: Single) -> f32 {
    f32::from_bits(x.bits)
}

fn p(x: f32, y: f32) -> Point {
    Point { x: s(x), y: s(y) }
}

fn upright() -> Stand {
    Stand {
        turn: Turn { cos: s(1.0), sin: s(0.0) },
        world: EmoteTransform2D::identity(),
    }
}

fn sprite_at(path: &str, x: f32, y: f32, width: f32, height: f32) -> EmoteStaticSprite {
    let mut info = draw_frame_info(&None, &TravelContext::root());
    info.path = path.to_owned();
    EmoteStaticSprite {
        label: None,
        motion_name: "main".to_owned(),
        texture_name: "tex".to_owned(),
        texture_resource_index: 0,
        texture_width: 100,
        texture_height: 100,
        texture_format: Some("RGBA8".to_owned()),
        icon_name: "icon".to_owned(),
        z: s(0.0),
        opacity: s(1.0),
        visible: true,
        center_x: s(x),
        center_y: s(y),
        width: s(width),
        height: s(height),
        scale_x: s(1.0),
        scale_y: s(1.0),
        rotation_degrees: s(0.0),
        world_transform: vec![],
        uv_left: s(0.0),
        uv_top: s(0.0),
        uv_right: s(1.0),
        uv_bottom: s(1.0),
        mesh: None,
        draw_frame_info: info,
    }
}

fn scene_of(sprites: Vec<EmoteStaticSprite>) -> EmoteStaticScene {
    EmoteStaticScene {
        base_object: "base".to_owned(),
        sprites,
        draw_frame_info: vec![],
        layer_states: vec![],
        composite_mask_owners: TextMap::new(),
    }
}

#[test]
fn computes_bounds() {
    let sprite = sprite_at("", 10.0, 20.0, 40.0, 60.0);
    let b = compute_bounds(&vec![sprite], &vec![upright()]).unwrap();
    assert_eq!(f(b.min_x), -10.0);
    assert_eq!(f(b.max_y), 50.0);
}

#[test]
fn bounds_leave_out_what_is_not_seen() {
    let mut hidden = sprite_at("a", 0.0, 0.0, 10.0, 10.0);
    hidden.visible = false;
    let mut clear = sprite_at("b", 0.0, 0.0, 10.0, 10.0);
    clear.opacity = s(0.0);
    assert!(compute_bounds(&vec![hidden, clear], &vec![upright(), upright()]).is_none());
    assert!(compute_bounds(&vec![], &vec![]).is_none());
}

#[test]
fn a_chain_of_steps_moves_points() {
    let steps = vec![
        TransformStep::Translate { x: s(100.0), y: s(50.0) },
        TransformStep::Layer {
            x: s(10.0),
            y: s(0.0),
            scale_x: s(2.0),
            scale_y: s(2.0),
            rotation_degrees: s(0.0),
            scale_first: false,
        },
    ];
    let angles = step_angles(&steps);
    assert_eq!(angles.len(), 2);
    let turns = vec![
        Turn { cos: s(1.0), sin: s(0.0) },
        Turn { cos: s(1.0), sin: s(0.0) },
    ];
    let world = chain(&steps, &turns);
    let moved = world.apply(p(1.0, 2.0));
    assert_eq!(f(moved.x), 112.0);
    assert_eq!(f(moved.y), 54.0);
    let b = screen_bounds(&sprite_at("a", 0.0, 0.0, 2.0, 2.0), world);
    assert_eq!(f(b.min_x), 108.0);
    assert_eq!(f(b.max_x), 112.0);
    assert_eq!(f(b.min_y), 48.0);
    assert_eq!(f(b.max_y), 52.0);
}

#[test]
fn a_flat_sprite_has_two_triangles() {
    let sprite = sprite_at("a", 0.0, 0.0, 4.0, 2.0);
    let corners = sprite.sprite_vertices(upright());
    assert_eq!(corners.len(), 6);
    assert_eq!(f(corners[0].position.x), -2.0);
    assert_eq!(f(corners[0].position.y), -1.0);
    assert_eq!(f(corners[0].texcoord.x), 0.0);
    let right = corners.iter().filter(|c| f(c.texcoord.x) == 1.0).count();
    assert_eq!(right, 3);
}

#[test]
fn a_mesh_sprite_has_two_triangles_for_each_cell() {
    let mut sprite = sprite_at("a", 0.0, 0.0, 3.0, 3.0);
    sprite.mesh = Some(EmoteMeshPatch::identity(3, 2));
    let corners = sprite.sprite_vertices(upright());
    assert_eq!(corners.len(), 3 * 2 * 6);
    assert!((f(corners[0].position.x) + 1.5).abs() < 1.0e-5);
    assert!((f(corners[0].position.y) + 1.5).abs() < 1.0e-5);
}

#[test]
fn an_identity_patch_keeps_points() {
    let patch = EmoteMeshPatch::identity(1, 1);
    for (u, v) in [(0.0, 0.0), (1.0, 1.0), (0.5, 0.25)] {
        let q = patch.sample(s(u), s(v));
        assert!((f(q.x) - u).abs() < 1.0e-5);
        assert!((f(q.y) - v).abs() < 1.0e-5);
    }
    let both = patch.combined_with(&EmoteMeshPatch::identity(2, 3));
    assert_eq!(both.control_points.len(), 16);
    let (min_x, min_y, max_x, max_y) = patch.control_bounds();
    assert_eq!(f(min_x), 0.0);
    assert_eq!(f(min_y), 0.0);
    assert_eq!(f(max_x), 1.0);
    assert_eq!(f(max_y), 1.0);
}

fn masked_scene() -> EmoteStaticScene {
    let mut mask = sprite_at("owner/mask", 0.0, 0.0, 4.0, 4.0);
    mask.draw_frame_info.draw_index = 0;
    mask.draw_frame_info.pass = EmoteDrawPass::MaskGeneration;
    let mut under = sprite_at("owner/iris", 0.0, 0.0, 4.0, 4.0);
    under.draw_frame_info.draw_index = 1;
    under.draw_frame_info.pass = EmoteDrawPass::Filtered;
    under.draw_frame_info.parent_mask_path = Some("owner".to_owned());
    let mut plain = sprite_at("body", 0.0, 0.0, 4.0, 4.0);
    plain.draw_frame_info.draw_index = 2;
    let mut scene = scene_of(vec![mask, under, plain]);
    scene.composite_mask_owners.insert("owner".to_owned(), vec!["owner/mask".to_owned()]);
    scene
}

#[test]
fn draws_come_masks_first() {
    let scene = masked_scene();
    let draws = build_scene_draws(&scene, &vec![0]).unwrap();
    assert_eq!(draws.len(), 4);
    assert_eq!(draws[0].sprite, 0);
    assert_eq!(draws[0].pass, EmoteDrawPass::MaskGeneration);
    assert_eq!(draws[0].mask_reference, 1);
    assert_eq!(draws[0].composite_owner.as_deref(), Some("owner"));
    assert_eq!(draws[1].sprite, 0);
    assert_eq!(draws[1].mask_reference, 0);
    assert_eq!(draws[2].sprite, 1);
    assert_eq!(draws[2].parent_mask_reference, 1);
    assert_eq!(draws[3].parent_mask_reference, 0);
    assert!(makes_mask(EmoteDrawPass::StencilCompositeMask));
    assert!(!makes_mask(EmoteDrawPass::Filtered));

    assert_eq!(mask_references(&draws), vec![1]);
    assert_eq!(mask_pass(&draws, 1, 1), vec![0]);
    assert!(mask_pass(&draws, 1, 0).is_empty());
    let steps = color_pass(&draws, 1, &vec![1]);
    assert_eq!(
        steps,
        vec![
            ColorStep::Use(ColorMode::Masked),
            ColorStep::Draw { draw: 2, reference: 1 },
            ColorStep::Use(ColorMode::Plain),
            ColorStep::Draw { draw: 3, reference: 0 },
        ]
    );
    assert_eq!(number_draws(&draws), vec![None, None, Some(0), Some(1)]);
    assert!(audit_drawing_order(&draws, &scene));
}

#[test]
fn a_color_pass_out_of_order_is_found() {
    let mut scene = masked_scene();
    scene.sprites[1].draw_frame_info.draw_index = 7;
    let draws = build_scene_draws(&scene, &vec![0]).unwrap();
    assert!(!audit_drawing_order(&draws, &scene));
}

#[test]
fn a_draw_without_its_texture_is_refused() {
    let e = build_scene_draws(&masked_scene(), &vec![3]).unwrap_err();
    assert_eq!(e, DrawError::NotLoaded { resource: 0 });
    assert_eq!(e.message(), "texture resource index was not loaded");
    let mut scene = masked_scene();
    scene.sprites[1].texture_resource_index = 8;
    scene.sprites[2].texture_resource_index = 9;
    let e = build_scene_draws(&scene, &vec![0, 9]).unwrap_err();
    assert_eq!(e, DrawError::NotLoaded { resource: 8 });
}

#[test]
fn masks_that_are_not_needed_are_dropped() {
    let plan = plan_masks(&vec![1, 2, 5], &vec![2, 3]);
    assert_eq!(plan.dropped, vec![1, 5]);
    assert_eq!(plan.made, vec![3]);
}

#[test]
fn the_view_fits_the_window() {
    let bounds = EmoteSceneBounds { min_x: s(-50.0), min_y: s(0.0), max_x: s(50.0), max_y: s(200.0) };
    let view = fit_viewport(bounds, 400, 400);
    assert_eq!(f(view.center.x), 0.0);
    assert_eq!(f(view.center.y), 100.0);
    let fit = 0.9f32 * (400.0f32 / 100.0).min(400.0 / 200.0);
    assert_eq!(f(view.scale.x), fit * 2.0 / 400.0);
    assert_eq!(f(view.scale.y), fit * 2.0 / 400.0);
    let nothing = shown_bounds(None);
    assert_eq!(f(nothing.min_x), -1.0);
    assert_eq!(f(nothing.max_y), 1.0);
    let frame = frame_bounds(None);
    assert_eq!(f(frame.min_x), -450.0);
    assert_eq!(f(frame.min_y), -700.0);
    assert_eq!(f(frame.max_x), 450.0);
    assert_eq!(f(frame.max_y), 1100.0);
}

#[test]
fn rows_lose_their_padding() {
    assert_eq!(row_bytes_aligned(900), 3840);
    assert_eq!(row_bytes_aligned(64), 256);
    let mut data = vec![0u8; 512];
    data[0] = 1;
    data[3] = 2;
    data[256] = 3;
    assert_eq!(unpad_rows(&data, 1, 2), vec![1, 0, 0, 2, 3, 0, 0, 0]);
}

#[test]
fn a_triangle_paints_the_pixels_inside() {
    assert_eq!(f(edge(p(0.0, 0.0), p(2.0, 0.0), p(0.0, 2.0))).abs(), 4.0);
    let sprite = sprite_at("a", 0.0, 0.0, 2.0, 2.0);
    let mut around = sprite_at("b", 0.0, 0.0, 4.0, 4.0);
    around.texture_resource_index = 1;
    let scene = scene_of(vec![sprite, around]);
    let stands = vec![upright(), upright()];
    let bounds = scene.bounds(&stands).unwrap();
    assert_eq!((f(bounds.min_x), f(bounds.max_y)), (-2.0, 2.0));
    let red = ModelTexture {
        resource_index: 0,
        name: "tex".to_owned(),
        texture: DecodedTexture { rgba: vec![255, 0, 0, 255], width: 1, height: 1 },
    };
    let frame = draw_scene(&scene, &stands, &vec![red], 9, 9);
    assert_eq!(frame.len(), 9 * 9 * 4);
    let middle = (4 * 9 + 4) * 4;
    assert_eq!(frame[middle..middle + 4].to_vec(), vec![255, 0, 0, 255]);
    assert_eq!(frame[0..4].to_vec(), vec![13, 13, 16, 255]);
}

#[test]
fn a_mask_and_an_unknown_texture_are_not_painted() {
    let mut mask = sprite_at("a", 0.0, 0.0, 2.0, 2.0);
    mask.draw_frame_info.pass = EmoteDrawPass::MaskGeneration;
    let unknown = sprite_at("b", 0.0, 0.0, 2.0, 2.0);
    let frame = draw_scene(&scene_of(vec![mask, unknown]), &vec![upright(), upright()], &vec![], 3, 3);
    let mut i = 0;
    while i < 9 {
        assert_eq!(frame[4 * i..4 * i + 4].to_vec(), vec![13, 13, 16, 255]);
        i += 1;
    }
}

#[test]
fn parts_of_the_face() {
    assert!(is_face_related_sprite(&sprite_at("all/head/hair", 0.0, 0.0, 1.0, 1.0)));
    assert!(is_face_related_sprite(&sprite_at("all/目", 0.0, 0.0, 1.0, 1.0)));
    assert!(!is_face_related_sprite(&sprite_at("all/body", 0.0, 0.0, 1.0, 1.0)));
    assert!(variable_in_group(FaceGroup::Eye, "Face_EYE_open"));
    assert!(!variable_in_group(FaceGroup::Mouth, "Face_EYE_open"));
    assert!(variable_in_group(FaceGroup::Eyebrow, "BROW_L"));
    assert!(variable_in_group(FaceGroup::Mouth, "口"));
    assert!(!lower_name_in_group(FaceGroup::Eye, "EYE"));
    assert!(lower_name_in_group(FaceGroup::Eye, "hitomi"));
    assert!(icon_is_face_icon("MOUTH_a"));
    assert!(!icon_is_face_icon("arm"));
    assert!(!lower_name_is_face_icon("MOUTH"));
    assert_eq!(short_path("a/b/c"), "c");
    assert_eq!(short_path("abc"), "abc");
}

#[test]
fn filters_do_not_heed_case() {
    assert!(variable_passes("Face_Eye", "EYE"));
    assert!(variable_passes("Face_Eye", ""));
    assert!(!variable_passes("Face_Eye", "mouth"));
    assert!(!lower_name_passes("EYE", "eye"));
    let mut sprite = sprite_at("Body/ARM", 0.0, 0.0, 1.0, 1.0);
    sprite.draw_frame_info.layer_label = Some("Left".to_owned());
    assert_eq!(list_layer(&sprite, false, false, ""), Some(LayerTint::Plain));
    assert_eq!(list_layer(&sprite, false, false, "arm"), Some(LayerTint::Plain));
    assert_eq!(list_layer(&sprite, false, false, "LEFT"), Some(LayerTint::Plain));
    assert_eq!(list_layer(&sprite, false, false, "leg"), None);
    assert_eq!(list_layer(&sprite, true, false, ""), None);
    assert_eq!(list_lower_layer(&sprite, false, false, "arm", "Body/ARM", ""), None);
    sprite.opacity = s(0.0);
    assert_eq!(list_layer(&sprite, false, true, ""), None);
    assert_eq!(list_layer(&sprite, false, false, ""), Some(LayerTint::Unseen));
    let eye = sprite_at("eye", 0.0, 0.0, 1.0, 1.0);
    assert_eq!(list_layer(&eye, true, true, ""), Some(LayerTint::Face));
}

#[test]
fn states_of_face_layers() {
    let mut eye = sprite_at("eye", 0.0, 0.0, 1.0, 1.0);
    assert_eq!(face_status(&eye), FaceStatus::Fine);
    assert_eq!(face_status(&eye).name(), "ok");
    assert_eq!(skip_reason(&eye, 1), SkipReason::Submitted);
    assert_eq!(skip_reason(&eye, 0), SkipReason::MissingTexture);
    eye.draw_frame_info.pass = EmoteDrawPass::MaskGeneration;
    assert_eq!(face_status(&eye).name(), "mask-gen");
    assert_eq!(skip_reason(&eye, 1).name(), "mask-generation");
    eye.opacity = s(0.0);
    assert_eq!(face_status(&eye).name(), "op=0");
    assert_eq!(skip_reason(&eye, 1).name(), "opacity=0");
    eye.visible = false;
    assert_eq!(face_status(&eye).name(), "HIDDEN");
    assert_eq!(skip_reason(&eye, 1).name(), "visibility=false");
    assert_eq!(skip_reason(&eye, 0).name(), "missing-texture");
    assert_eq!(SkipReason::Submitted.name(), "submitted");
    assert_eq!(mark_sprite(&eye), DrawMark::Hidden);
    assert_eq!(mark_sprite(&sprite_at("eye", 0.0, 0.0, 1.0, 1.0)).name(), "FACE");
    assert_eq!(mark_sprite(&sprite_at("arm", 0.0, 0.0, 201.0, 1.0)).name(), "LARGE");
    assert_eq!(mark_sprite(&sprite_at("arm", 0.0, 0.0, 200.0, 1.0)).name(), "draw");
    assert_eq!(DrawMark::Hidden.name(), "HIDDEN");
}

#[test]
fn what_changed_between_scenes() {
    let before = scene_of(vec![
        sprite_at("a", 0.0, 0.0, 2.0, 2.0),
        sprite_at("b", 0.0, 0.0, 2.0, 2.0),
        sprite_at("c", 0.0, 0.0, 2.0, 2.0),
    ]);
    let mut moved = sprite_at("b", 5.0, 0.0, 2.0, 2.0);
    moved.mesh = Some(EmoteMeshPatch::identity(1, 1));
    let now = scene_of(vec![
        sprite_at("a", 0.0, 0.0, 2.0, 2.0),
        moved,
        sprite_at("c", 0.00001, 0.0, 2.0, 2.0),
        sprite_at("new", 0.0, 0.0, 2.0, 2.0),
    ]);
    let stands = vec![upright(), upright(), upright(), upright()];
    let three = vec![upright(), upright(), upright()];
    let changes = compare_scenes(&before, &three, &now, &stands);
    assert_eq!(changes.layers, vec![1, 3]);
    assert_eq!(changes.meshes, vec![1]);
    let (sprite, was, is) = changes.corner.unwrap();
    assert_eq!(sprite, 1);
    assert_eq!(f(was.x), -1.0);
    assert!((f(is.x) - 4.0).abs() < 1.0e-5);
    let same = compare_scenes(&before, &three, &before, &three);
    assert!(same.layers.is_empty() && same.meshes.is_empty() && same.corner.is_none());
    assert!(differs(s(1.0), s(1.001)));
    assert!(!differs(s(1.0), s(1.00001)));
}

#[test]
fn sprites_of_a_sort() {
    let mut hidden = sprite_at("eye/hidden", 0.0, 0.0, 1.0, 1.0);
    hidden.visible = false;
    let mut lost = sprite_at("arm", 0.0, 0.0, 1.0, 1.0);
    lost.texture_resource_index = 9;
    let scene = scene_of(vec![
        sprite_at("eye", 0.0, 0.0, 1.0, 1.0),
        hidden,
        lost,
        sprite_at("mouth", 0.0, 0.0, 1.0, 1.0),
    ]);
    assert_eq!(list_sprites(&scene, SpriteSort::Drawn), vec![0, 2, 3]);
    assert!(list_sprites(&scene, SpriteSort::DrawnMesh).is_empty());
    assert_eq!(list_sprites(&scene, SpriteSort::Face), vec![0, 1, 3]);
    assert_eq!(list_sprites(&scene, SpriteSort::FaceDrawn), vec![0, 3]);
    assert_eq!(list_sprites(&scene, SpriteSort::FaceSubmitted { resources: 1 }), vec![0, 3]);
    assert_eq!(list_sprites(&scene, SpriteSort::MissingTexture { resources: 1 }), vec![2]);
    assert_eq!(list_above(&scene, 0, 4), vec![2, 3]);
    assert_eq!(list_above(&scene, 0, 1), vec![2]);
    assert!(list_above(&scene, 3, 4).is_empty());
}

#[test]
fn changed_and_moved_variables() {
    let mut before: TextMap<Single> = TextMap::new();
    before.insert("a".to_owned(), s(1.0));
    before.insert("b".to_owned(), s(1.0));
    let mut now: TextMap<Single> = TextMap::new();
    now.insert("a".to_owned(), s(1.00001));
    now.insert("b".to_owned(), s(2.0));
    now.insert("hair_UD_front".to_owned(), s(3.0));
    now.insert("bust_LR".to_owned(), s(4.0));
    assert_eq!(count_changed_variables(&before, &now), 3);
    let row = list_body_values(&now);
    assert_eq!(row.len(), 2);
    assert_eq!(row[0].0, "bust_LR");
    assert_eq!(f(row[0].1), 4.0);
    assert_eq!(row[1].0, "hair_UD_front");
}
