//! Laws of the library, on values.

use eluna::api::TimelinePlayMode;
use eluna::assembly::EmoteStaticScene;
use eluna::dump::escape_string;
use eluna::order::TextMap;
use eluna::panel::face_slider_range;
use eluna::player::ElunaPlayer;
use eluna::refs::resolve_layer_reference_with_owner;
use eluna::single::Single;
use eluna::texture::{convert_raw_32bpp_texture_to_rgba, raw_32bpp_channel_order, Raw32ChannelOrder};
use eluna::timelines::{collect_emote_timelines, EmoteTimeline, EmoteTimelineFrame, EmoteTimelineVariable};
use eluna::value::PsbValue;

fn s(x: f32) -> Single {
    Single { bits: x.to_bits() }
}

fn f(x: Single) -> f32 {
    f32::from_bits(x.bits)
}

fn object(fields: Vec<(&str, PsbValue)>) -> PsbValue {
    PsbValue::Object(fields.into_iter().map(|(k, v)| (k.to_owned(), v)).collect())
}

fn player() -> ElunaPlayer {
    let scene = EmoteStaticScene {
        base_object: "base".to_owned(),
        sprites: vec![],
        draw_frame_info: vec![],
        layer_states: vec![],
        composite_mask_owners: TextMap::new(),
    };
    let timeline = EmoteTimeline {
        name: "main".to_owned(),
        path: None,
        duration_ticks: s(10.0),
        variables: vec![EmoteTimelineVariable {
            name: "y".to_owned(),
            frames: vec![
                EmoteTimelineFrame { time_ticks: s(0.0), value: s(0.0), easing: s(0.0) },
                EmoteTimelineFrame { time_ticks: s(10.0), value: s(20.0), easing: s(0.0) },
            ],
        }],
        is_difference: false,
    };
    ElunaPlayer::from_scene_variables_timelines(scene, vec![], vec![timeline])
}

#[test]
fn sums_and_products_commute() {
    for a in [0.1f32, -3.0e30, 1.0e-40, 7.5] {
        for b in [0.2f32, 2.0e38, -1.0e-45, 1.0 / 3.0] {
            assert_eq!(s(a).plus(s(b)).bits, s(b).plus(s(a)).bits);
            assert_eq!(s(a).times(s(b)).bits, s(b).times(s(a)).bits);
        }
        assert_eq!(f(s(a).minus(s(a))), 0.0);
        assert_eq!(s(a).plus(s(0.0)).bits, s(a).bits);
    }
    let mut n = s(0.0);
    let mut i = 0;
    while i < 1000 {
        n = n.plus(Single::one());
        i += 1;
    }
    assert_eq!(f(n), 1000.0);
}

#[test]
fn a_timeline_is_set_to_a_time_within_it() {
    let mut p = player();
    for (ticks, at) in [(4.0, 4.0), (-3.0, 0.0), (99.0, 10.0), (0.0, 0.0), (10.0, 10.0)] {
        p.set_timeline_time("main", s(ticks)).unwrap();
        assert_eq!(f(p.timeline_elapsed_ticks("main")), at);
        assert!(p.is_timeline_playing("main"));
    }
}

#[test]
fn playing_and_stopping_leaves_stopped() {
    let mut p = player();
    p.play_timeline("main", TimelinePlayMode::once());
    p.progress_ticks_without_physics(s(3.0));
    p.stop_timeline("main");
    assert!(!p.is_timeline_playing("main"));
    assert_eq!(f(p.variable_value("y").unwrap()), 0.0);
}

#[test]
fn skipping_twice_is_skipping_once() {
    let mut p = player();
    p.set_variable_timed("z", s(5.0), s(100.0), s(0.0));
    p.skip();
    assert_eq!(f(p.variable_value("z").unwrap()), 5.0);
    p.skip();
    assert_eq!(f(p.variable_value("z").unwrap()), 5.0);
    assert!(!p.is_animating());
}

#[test]
fn names_of_timelines_ascend() {
    let track = || {
        PsbValue::List(vec![object(vec![
            ("label", PsbValue::String("v".to_owned())),
            (
                "frameList",
                PsbValue::List(vec![object(vec![
                    ("time", PsbValue::Int(0)),
                    ("content", object(vec![("value", PsbValue::Int(1))])),
                ])]),
            ),
        ])])
    };
    let line = |name: &str| {
        object(vec![
            ("path_hint", PsbValue::String(name.to_owned())),
            ("variableList", track()),
        ])
    };
    let root = object(vec![(
        "metadata",
        object(vec![(
            "timelineControl",
            PsbValue::List(vec![line("b"), line("a"), line("c"), line("a")]),
        )]),
    )]);
    let names: Vec<String> = collect_emote_timelines(&root).into_iter().map(|t| t.name).collect();
    assert_eq!(names, vec!["a".to_owned(), "b".to_owned(), "c".to_owned()]);
}

#[test]
fn pixels_without_alpha_are_opaque() {
    for format in ["RGB8", "XRGB8", "BGRX8", "RGBX8", "RGBA8", "BGRA8", "L8"] {
        let order = raw_32bpp_channel_order(Some(format), None);
        let rgba = convert_raw_32bpp_texture_to_rgba(&[1, 2, 3, 4], Some(format), None);
        let want = match order {
            Raw32ChannelOrder::Bgra => vec![3, 2, 1, 4],
            Raw32ChannelOrder::Rgba => vec![1, 2, 3, 4],
            Raw32ChannelOrder::Bgrx => vec![3, 2, 1, 255],
            Raw32ChannelOrder::Rgbx => vec![1, 2, 3, 255],
        };
        assert_eq!(rgba, want, "{format}");
    }
}

#[test]
fn an_owner_means_the_nearest_layer() {
    let row = vec![
        ("x/a/eye".to_owned(), Some("eye".to_owned())),
        ("x/b/eye".to_owned(), Some("eye".to_owned())),
        ("y/eye".to_owned(), Some("eye".to_owned())),
    ];
    assert_eq!(resolve_layer_reference_with_owner("eye", "x/b/owner", &row), vec!["x/b/eye".to_owned()]);
    assert_eq!(resolve_layer_reference_with_owner("eye", "y/owner", &row), vec!["y/eye".to_owned()]);
    assert!(resolve_layer_reference_with_owner("ear", "y/owner", &row).is_empty());
}

#[test]
fn escaped_text_is_one_line() {
    for text in ["a\nb", "a\rb", "tab\t", "quote\"", "back\\slash", "目"] {
        let escaped = escape_string(text);
        assert!(!escaped.contains('\n') && !escaped.contains('\r'));
    }
    assert_ne!(escape_string("\\n"), escape_string("\n"));
}

#[test]
fn sliders_of_the_face_reach_thirty() {
    let (min, max) = face_slider_range(None, None);
    assert_eq!((f(min), f(max)), (-30.0, 30.0));
    let (min, max) = face_slider_range(Some(s(-1.0)), Some(s(2.0)));
    assert_eq!((f(min), f(max)), (-1.0, 2.0));
}
