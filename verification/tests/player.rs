//! What a player can be told and asked.

use eluna::api::{
    parse_api_log_entry, read_log, split_lines, write_log, EmoteApiLogEntry, TimelinePlayMode,
    VariableWrite,
};
use eluna::assembly::EmoteStaticScene;
use eluna::controls::{
    ClampControl, EmoteRuntimePipeline, LoopControl, LoopTransition, MirrorControl, PhysicsControl,
    PhysicsControlDefinition, SelectorControl, SelectorOption,
};
use eluna::frames::Coord;
use eluna::order::TextMap;
use eluna::panel::{selected_option, slider_range, Desk, RangeNote};
use eluna::place::Turn;
use eluna::player::ElunaPlayer;
use eluna::sdk::{find_timeline_for_motion, player_variable_values};
use eluna::single::Single;
use eluna::timelines::{EmoteTimeline, EmoteTimelineFrame, EmoteTimelineVariable};
use eluna::value::PsbValue;
use eluna::variables::{EmoteVariableFrameInfo, EmoteVariableInfo};
use eluna::viewer::{
    active_main_timeline_time_ticks, export_ticks, find_main_timeline_for_motion,
    find_playing_main, frame_move, frame_ticks, handle_keyboard, FrameMove, KeyAction, KeyPress,
    WindowAction, WindowNews, WindowState,
};
use eluna::walk::{BodyAnswer, BodyAsk, BodyWalk};

fn s(x: f32) -> Single {
    Single { bits: x.to_bits() }
}

fn f(x: Single) -> f32 {
    f32::from_bits(x.bits)
}

fn empty_scene() -> EmoteStaticScene {
    EmoteStaticScene {
        base_object: "base".to_owned(),
        sprites: vec![],
        draw_frame_info: vec![],
        layer_states: vec![],
        composite_mask_owners: TextMap::new(),
    }
}

fn variable(name: &str, default: f32, min: Option<f32>, max: Option<f32>) -> EmoteVariableInfo {
    EmoteVariableInfo {
        name: name.to_owned(),
        default_value: s(default),
        min_value: min.map(s),
        max_value: max.map(s),
        frames: vec![],
    }
}

fn timeline(name: &str, track: &str, end: f32, difference: bool) -> EmoteTimeline {
    EmoteTimeline {
        name: name.to_owned(),
        path: None,
        duration_ticks: s(10.0),
        variables: vec![EmoteTimelineVariable {
            name: track.to_owned(),
            frames: vec![
                EmoteTimelineFrame { time_ticks: s(0.0), value: s(0.0), easing: s(0.0) },
                EmoteTimelineFrame { time_ticks: s(10.0), value: s(end), easing: s(0.0) },
            ],
        }],
        is_difference: difference,
    }
}

fn player() -> ElunaPlayer {
    ElunaPlayer::from_scene_variables_timelines(
        empty_scene(),
        vec![
            variable("x", 0.0, Some(-5.0), Some(5.0)),
            variable("y", 1.0, None, None),
            variable("d", 2.0, None, None),
        ],
        vec![
            timeline("main", "y", 20.0, false),
            timeline("other", "y", 40.0, false),
            timeline("diff", "d", 10.0, true),
        ],
    )
}

fn piped(pipeline: EmoteRuntimePipeline) -> ElunaPlayer {
    ElunaPlayer::from_scene_variables_timelines_runtime(
        empty_scene(),
        vec![variable("x", 0.0, None, None), variable("y", 0.0, None, None)],
        vec![],
        pipeline,
    )
}

fn value(p: &ElunaPlayer, name: &str) -> f32 {
    f(p.variable_value(name).unwrap())
}

#[test]
fn a_new_player_is_at_its_defaults() {
    let p = player();
    assert!(p.is_shown());
    assert!(!p.is_paused());
    assert_eq!(f(p.coord().0), 0.0);
    assert_eq!(f(p.scale()), 1.0);
    assert_eq!(f(p.rot()), 0.0);
    assert_eq!(f(p.elapsed_ticks()), 0.0);
    assert!(p.variable_value("nothing").is_none());
    assert_eq!(p.main_timeline_labels(), vec!["main".to_owned(), "other".to_owned()]);
    assert_eq!(p.diff_timeline_labels(), vec!["diff".to_owned()]);
    assert!(p.bounds(&vec![]).is_none());
    assert!(!p.is_animating());
}

#[test]
fn a_write_stays_in_range() {
    let mut p = player();
    p.set_variable("x", s(3.0));
    assert_eq!(value(&p, "x"), 3.0);
    p.set_variable("x", s(9.0));
    assert_eq!(value(&p, "x"), 5.0);
    p.set_variable_immediate("x", s(-9.0));
    assert_eq!(value(&p, "x"), -5.0);
    p.set_variable("x", s(f32::NAN));
    assert_eq!(value(&p, "x"), -5.0);
    p.set_variable("", s(1.0));
    assert_eq!(p.pending_writes().len(), 2);
    p.set_variable("fresh", s(7.0));
    assert_eq!(value(&p, "fresh"), 7.0);
    p.set_variable_immediate("unknown", s(7.0));
    assert!(p.variable_value("unknown").is_none());
    p.reset_variable_to_default("x");
    assert_eq!(value(&p, "x"), 0.0);
}

#[test]
fn a_timed_write_takes_its_time() {
    let mut p = player();
    p.set_variable_timed("x", s(4.0), s(8.0), s(0.0));
    assert!(p.is_animating());
    assert_eq!(value(&p, "x"), 0.0);
    p.progress_ticks_without_physics(s(2.0));
    assert_eq!(value(&p, "x"), 1.0);
    p.progress_ticks_without_physics(s(100.0));
    assert_eq!(value(&p, "x"), 4.0);
    assert!(!p.is_animating());
    assert_eq!(f(p.elapsed_ticks()), 102.0);
    p.apply_write(&VariableWrite::timed("x", s(0.0), s(10.0), s(0.0)));
    p.apply_write(&VariableWrite::immediate("y", s(6.0)));
    assert_eq!(value(&p, "y"), 6.0);
    p.skip();
    assert_eq!(value(&p, "x"), 0.0);
    assert!(!p.is_animating());
}

#[test]
fn no_time_changes_nothing() {
    let mut p = player();
    p.play_timeline("main", TimelinePlayMode::once());
    for delta in [0.0, -1.0, f32::NAN, f32::INFINITY] {
        p.progress_ticks_without_physics(s(delta));
        assert_eq!(f(p.elapsed_ticks()), 0.0);
        assert!(!p.begin_progress(s(delta)));
    }
}

#[test]
fn a_variable_of_a_module() {
    let mut p = player();
    p.set_variable_diff("face", "eye", s(2.0), s(0.0), s(0.0));
    assert_eq!(f(p.variable_diff_value("face", "eye").unwrap()), 2.0);
    assert_eq!(value(&p, "face/eye"), 2.0);
    assert!(p.variable_diff_value("face", "mouth").is_none());
}

#[test]
fn a_timeline_moves_its_variable() {
    let mut p = player();
    p.play_timeline("main", TimelinePlayMode::once());
    p.progress_ticks_without_physics(s(5.0));
    assert_eq!(value(&p, "y"), 10.0);
    assert_eq!(f(p.timeline_elapsed_ticks("main")), 5.0);
    p.progress_ticks_without_physics(s(50.0));
    assert_eq!(value(&p, "y"), 20.0);
    assert_eq!(f(p.timeline_elapsed_ticks("main")), 10.0);
    assert_eq!(f(p.timeline_total_frame_count("main").unwrap()), 10.0);
    assert!(p.timeline_total_frame_count("nothing").is_none());
}

#[test]
fn a_looped_timeline_starts_again() {
    let mut p = player();
    p.play_timeline("main", TimelinePlayMode::parallel().with_looping(true));
    assert!(p.is_loop_timeline("main"));
    p.progress_ticks_without_physics(s(13.0));
    assert_eq!(f(p.timeline_elapsed_ticks("main")), 3.0);
    assert_eq!(value(&p, "y"), 6.0);
}

#[test]
fn one_main_timeline_plays_at_a_time() {
    let mut p = player();
    p.play_timeline("main", TimelinePlayMode::parallel());
    p.play_timeline("diff", TimelinePlayMode::parallel_difference());
    assert!(p.is_timeline_playing("main"));
    p.play_timeline("other", TimelinePlayMode::parallel());
    assert!(!p.is_timeline_playing("main"));
    assert!(p.is_timeline_playing("other"));
    assert!(p.is_timeline_playing("diff"));
    assert_eq!(
        p.playing_timeline_info(),
        vec![("diff".to_owned(), 3), ("other".to_owned(), 1)]
    );
    assert_eq!(find_playing_main(&p), Some("other".to_owned()));
    assert_eq!(f(active_main_timeline_time_ticks(&p).unwrap()), 0.0);
}

#[test]
fn stops() {
    let mut p = player();
    p.play_timeline("main", TimelinePlayMode::parallel());
    p.play_timeline("diff", TimelinePlayMode::parallel_difference());
    p.stop_timeline("diff");
    assert!(!p.is_timeline_playing("diff"));
    assert!(p.is_timeline_playing("main"));
    p.play_timeline("diff", TimelinePlayMode::parallel_difference());
    p.stop_timeline("");
    assert!(p.active_timelines().entries.is_empty());
    assert!(find_playing_main(&p).is_none());
}

#[test]
fn a_pause_holds_timelines() {
    let mut p = player();
    p.play_timeline("main", TimelinePlayMode::once());
    p.set_paused(true);
    p.progress_ticks_without_physics(s(5.0));
    assert_eq!(f(p.timeline_elapsed_ticks("main")), 0.0);
    assert_eq!(f(p.elapsed_ticks()), 5.0);
    p.set_paused(false);
    p.progress_ticks_without_physics(s(5.0));
    assert_eq!(f(p.timeline_elapsed_ticks("main")), 5.0);
}

#[test]
fn differences_are_added() {
    let mut p = player();
    p.play_timeline("diff", TimelinePlayMode::parallel_difference());
    p.set_timeline_time("diff", s(5.0)).unwrap();
    // The track gives 5, which is 3 above the default of 2.
    assert_eq!(value(&p, "d"), 5.0);
    assert!(p.set_timeline_time("nothing", s(1.0)).is_err());
}

#[test]
fn shares() {
    let mut p = player();
    p.play_timeline("main", TimelinePlayMode::once());
    p.set_timeline_blend_ratio("main", s(0.5), s(0.0), s(0.0), false);
    assert_eq!(f(p.timeline_blend_ratio("main")), 0.5);
    p.set_timeline_time("main", s(10.0)).unwrap();
    // Half of the way from the default of 1 to 20.
    assert_eq!(value(&p, "y"), 10.5);
    p.set_timeline_blend_ratio("main", s(7.0), s(0.0), s(0.0), false);
    assert_eq!(f(p.timeline_blend_ratio("main")), 1.0);
    p.fade_out_timeline("main", s(4.0), s(0.0));
    p.progress_ticks_without_physics(s(2.0));
    assert_eq!(f(p.timeline_blend_ratio("main")), 0.5);
    p.progress_ticks_without_physics(s(3.0));
    assert_eq!(f(p.timeline_blend_ratio("main")), 0.0);
    p.fade_in_timeline("main", s(0.0), s(0.0));
    assert_eq!(f(p.timeline_blend_ratio("main")), 1.0);
}

#[test]
fn the_place_of_the_model() {
    let mut p = player();
    p.set_coord(s(3.0), s(-4.0));
    assert_eq!((f(p.coord().0), f(p.coord().1)), (3.0, -4.0));
    p.set_coord(s(f32::NAN), s(1.0));
    assert_eq!((f(p.coord().0), f(p.coord().1)), (3.0, -4.0));
    p.set_scale(s(2.0));
    p.set_scale(s(0.0));
    p.set_scale(s(f32::INFINITY));
    assert_eq!(f(p.scale()), 2.0);
    p.set_rot(s(0.5));
    assert_eq!(f(p.rot()), 0.5);
    p.set_outer_force("hair", s(1.0), s(2.0), s(0.0), s(0.0));
    assert_eq!(f(p.outer_force("hair").y), 2.0);
    assert_eq!(f(p.outer_force("bust").y), 0.0);
    p.set_outer_rot(s(30.0), s(0.0), s(0.0));
    assert_eq!(f(p.outer_rot()), 30.0);
    p.conceal();
    assert!(!p.is_shown());
    p.show();
    assert!(p.is_shown());
}

#[test]
fn settings() {
    let mut p = player();
    p.set_smoothing(true);
    assert!(p.smoothing());
    p.set_queuing(true);
    assert!(p.queuing());
    p.set_color_rgba(0x11223344, s(0.0), s(0.0));
    assert_eq!(p.color_rgba(), 0x11223344);
    p.set_transform_order_mask(0x201);
    assert_eq!(p.transform_order_mask(), 0x201);
    p.set_hair_scale(s(2.0));
    p.set_parts_scale(s(3.0));
    p.set_bust_scale(s(4.0));
    assert_eq!((f(p.hair_scale()), f(p.parts_scale()), f(p.bust_scale())), (2.0, 3.0, 4.0));
    assert!(p.is_modified());
    p.clear_modified();
    assert!(!p.is_modified());
    p.set_physics_enabled(false);
    assert!(!p.is_physics_enabled());
    p.start_wind(s(0.0), s(1.0), s(1.0), s(0.0), s(1.0));
    assert!(p.is_animating());
    p.stop_wind();
    assert!(!p.is_animating());
    p.reset_all_variables_to_default();
    assert_eq!(value(&p, "y"), 1.0);
}

#[test]
fn a_recorded_log_replays() {
    let mut p = player();
    p.start_record_api_log();
    p.set_coord(s(0.1), s(-2.5));
    p.set_scale(s(1.25));
    p.set_rot(s(-0.75));
    p.set_variable_timed("x", s(9.0), s(3.0), s(0.5));
    p.set_variable_diff("face", "eye", s(2.0), s(-1.0), s(0.0));
    p.play_timeline("main", TimelinePlayMode::parallel());
    p.set_timeline_blend_ratio("main", s(0.3), s(2.0), s(0.0), true);
    p.set_outer_force("hair", s(1.5), s(2.5), s(0.0), s(0.0));
    p.set_outer_rot(s(12.5), s(0.0), s(0.0));
    p.set_scale(s(-3.0));
    p.stop_record_api_log();
    let log = p.api_log();
    assert_eq!(split_lines(&log).len(), 9);
    assert_eq!(split_lines(&log)[0], "SetCoord\t0.1\t-2.5\t0\t0");
    assert_eq!(split_lines(&log)[3], "SetVariable\tx\t5\t3\t0.5");

    let mut q = player();
    q.set_api_log(&log);
    assert_eq!(q.api_log(), log);
    let mut i = 0;
    while let Some(entry) = q.api_log_entry(i) {
        assert!(q.apply_api_log_entry(&entry).is_none());
        i += 1;
    }
    assert_eq!(i, 9);
    assert_eq!(q.api_log(), log);
    assert_eq!(q.coord().0.bits, p.coord().0.bits);
    assert_eq!(q.coord().1.bits, p.coord().1.bits);
    assert_eq!(q.scale().bits, p.scale().bits);
    assert_eq!(q.rot().bits, p.rot().bits);
    assert_eq!(q.outer_rot().bits, p.outer_rot().bits);
    assert_eq!(q.outer_force("hair").x.bits, p.outer_force("hair").x.bits);
    p.progress_ticks_without_physics(s(1.0));
    q.progress_ticks_without_physics(s(1.0));
    assert_eq!(value(&q, "x"), value(&p, "x"));
    assert_eq!(value(&q, "y"), value(&p, "y"));
    assert_eq!(value(&q, "face/eye"), value(&p, "face/eye"));
    assert_eq!(f(q.timeline_blend_ratio("main")), f(p.timeline_blend_ratio("main")));
    assert!(q.is_timeline_playing("main"));
}

#[test]
fn lines_that_say_nothing_do_nothing() {
    let mut p = player();
    p.set_api_log("Progress\t4\nSetCoord\tx\t1\nSetRot\n\n   \nStopTimeline\t\nOther\t1");
    assert!(p.api_log_entry(9).is_none());
    let first = p.api_log_entry(0).unwrap();
    assert_eq!(f(p.apply_api_log_entry(&first).unwrap()), 4.0);
    let bad = p.api_log_entry(1).unwrap();
    assert!(p.apply_api_log_entry(&bad).is_none());
    assert_eq!(f(p.coord().0), 0.0);
    let short = p.api_log_entry(2).unwrap();
    p.apply_api_log_entry(&short);
    assert_eq!(p.api_log_entry(3).unwrap().command, "StopTimeline");
    p.clear_api_log();
    assert_eq!(p.api_log(), "");
}

#[test]
fn log_lines() {
    let entry = parse_api_log_entry(" PlayTimeline \tmain\t1").unwrap();
    assert_eq!(entry.command, "PlayTimeline");
    assert_eq!(entry.args, vec!["main".to_owned(), "1".to_owned()]);
    assert_eq!(entry.encode(), "PlayTimeline\tmain\t1");
    assert!(parse_api_log_entry(" \t x").is_none());
    let row = vec![
        EmoteApiLogEntry { command: "A".to_owned(), args: vec![] },
        EmoteApiLogEntry { command: "B".to_owned(), args: vec!["x".to_owned(), "".to_owned()] },
    ];
    let text = write_log(&row);
    assert_eq!(text, "A\nB\tx\t");
    let back = read_log(&text);
    assert_eq!(back.len(), 2);
    assert_eq!(back[1].args, row[1].args);
    assert_eq!(split_lines("a\r\nb\n"), vec!["a".to_owned(), "b".to_owned()]);
    assert!(split_lines("").is_empty());
    let odd = EmoteApiLogEntry { command: "C".to_owned(), args: vec!["x\ny".to_owned(), "z\r".to_owned()] };
    let back = parse_api_log_entry(&odd.encode()).unwrap();
    assert_eq!((back.command, back.args), (odd.command, odd.args));
}

#[test]
fn nothing_is_logged_unless_recorded() {
    let mut p = player();
    p.set_rot(s(1.0));
    assert_eq!(p.api_log(), "");
    p.start_record_api_log();
    p.start_replay_api_log();
    p.set_rot(s(2.0));
    assert_eq!(p.api_log(), "");
    p.stop_replay_api_log();
    p.set_rot(s(3.0));
    assert_eq!(p.api_log(), "SetRot\t3\t0\t0");
    p.record_step();
    assert_eq!(p.api_log_entry(1).unwrap().command, "Step");
}

#[test]
fn selectors_switch_their_options() {
    let mut pipeline = EmoteRuntimePipeline::default();
    pipeline.selector_controls.push(SelectorControl {
        label: "x".to_owned(),
        enabled: true,
        option_list: vec![
            SelectorOption { label: "a".to_owned(), off_value: s(0.0), on_value: s(1.0) },
            SelectorOption { label: "b".to_owned(), off_value: s(-1.0), on_value: s(2.0) },
        ],
    });
    let mut p = piped(pipeline);
    p.set_selector_option("x", 1).unwrap();
    assert_eq!(value(&p, "x"), 1.0);
    assert_eq!(value(&p, "a"), 0.0);
    assert_eq!(value(&p, "b"), 2.0);
    assert_eq!(
        p.set_selector_option("z", 0).unwrap_err(),
        "selectorControl not found: z"
    );
    assert_eq!(
        p.set_selector_option("x", 2).unwrap_err(),
        "selectorControl x option index 2 out of range 2"
    );
    assert_eq!(selected_option(s(1.4), 2), Some(1));
    assert_eq!(selected_option(s(5.0), 2), None);
    assert_eq!(selected_option(s(-3.0), 2), Some(0));
}

#[test]
fn loops_run_with_the_clock() {
    let mut pipeline = EmoteRuntimePipeline::default();
    pipeline.loop_controls.push(LoopControl {
        label: None,
        enabled: true,
        var_loop: Some("x".to_owned()),
        transition_list: vec![LoopTransition { start: s(0.0), end: s(10.0), duration_ticks: s(10.0) }],
    });
    let mut p = piped(pipeline);
    p.progress_ticks_without_physics(s(3.0));
    assert_eq!(value(&p, "x"), 3.0);
    p.progress_ticks_without_physics(s(10.0));
    assert_eq!(value(&p, "x"), 3.0);
}

#[test]
fn clamps_hold_pairs() {
    let mut pipeline = EmoteRuntimePipeline::default();
    pipeline.clamp_controls.push(ClampControl {
        label: "c".to_owned(),
        enabled: true,
        kind: 0,
        var_lr: "x".to_owned(),
        var_ud: "y".to_owned(),
        min: s(-2.0),
        max: s(2.0),
    });
    assert!(pipeline.has_ordered_clamps());
    let mut p = piped(pipeline);
    p.set_variable_immediate("x", s(9.0));
    assert!(value(&p, "x") <= 2.0);
    let mut wrong = EmoteRuntimePipeline::default();
    wrong.clamp_controls.push(ClampControl {
        label: "c".to_owned(),
        enabled: true,
        kind: 0,
        var_lr: "x".to_owned(),
        var_ud: "y".to_owned(),
        min: s(2.0),
        max: s(-2.0),
    });
    assert!(!wrong.has_ordered_clamps());
}

fn body(label: &str) -> PhysicsControlDefinition {
    let mut fields: TextMap<PsbValue> = TextMap::new();
    fields.insert("gravity".to_owned(), PsbValue::Float(s(1.0)));
    fields.insert("spring".to_owned(), PsbValue::Float(s(0.2)));
    fields.insert("friction".to_owned(), PsbValue::Float(s(0.9)));
    PhysicsControlDefinition {
        label: label.to_owned(),
        enabled: true,
        base_layer: None,
        parameter: None,
        var_lr: Some("x".to_owned()),
        var_ud: Some("y".to_owned()),
        var_lrm: None,
        fields,
    }
}

#[test]
fn bodies_have_states_and_move() {
    let mut pipeline = EmoteRuntimePipeline::default();
    pipeline.physics_controls.push(PhysicsControl::Bust(body("b")));
    pipeline.physics_controls.push(PhysicsControl::Hair(body("h")));
    pipeline.physics_controls.push(PhysicsControl::Parts(body("p")));
    let mut p = piped(pipeline);
    assert_eq!(p.bust_states().len(), 1);
    assert_eq!(p.hair_states().len(), 2);
    assert_eq!(p.slot(0), 0);
    assert_eq!(p.slot(1), 0);
    assert_eq!(p.slot(2), 1);
    assert!(p.bodies_move(s(1.0)));
    assert!(!p.bodies_move(s(0.0)));
    let pose = p.scene().layer_world_pose(None);
    let anchor = p.scene().anchor(pose, eluna::place::EmoteTransform2D::identity());
    let turn = Turn { cos: s(1.0), sin: s(0.0) };
    p.step_spring(0, s(1.0), anchor, turn);
    assert!(p.variable_value("y").unwrap().is_finite());
    let steps = p.start_swing(1, s(1.0), anchor);
    assert!(!steps.is_empty());
    for step in steps {
        let output = p.swing(1, step, turn);
        let phase = p.bend_phase(1);
        p.finish_swing(1, output, s(f(phase).sin()));
    }
    assert!(p.variable_value("x").unwrap().is_finite());
    p.reset_physics();
    assert!(p.bust_states()[0].first_tick);
    p.set_physics_enabled(false);
    assert!(!p.bodies_move(s(1.0)));
}

/// Walks through the bodies and lists what was asked for.
fn walk_bodies(p: &mut ElunaPlayer, delta: f32) -> Vec<&'static str> {
    let mut asked = vec![];
    let mut walk = BodyWalk::start(p, s(delta));
    loop {
        let answer = match walk.ask(p) {
            BodyAsk::Turns(angles) => {
                asked.push("turns");
                BodyAnswer::Turns(
                    angles
                        .into_iter()
                        .map(|a| Turn { cos: s(f(a).cos()), sin: s(f(a).sin()) })
                        .collect(),
                )
            }
            BodyAsk::Slope { rise, run } => {
                asked.push("slope");
                BodyAnswer::Angle(s(f(rise).atan2(f(run))))
            }
            BodyAsk::Turn(a) => {
                asked.push("turn");
                BodyAnswer::Turn(Turn { cos: s(f(a).cos()), sin: s(f(a).sin()) })
            }
            BodyAsk::Sine(a) => {
                asked.push("sine");
                BodyAnswer::Sine(s(f(a).sin()))
            }
            BodyAsk::Done => return asked,
        };
        walk = walk.tell(p, answer);
    }
}

#[test]
fn a_walk_moves_every_body() {
    let pipeline = || {
        let mut pipeline = EmoteRuntimePipeline::default();
        pipeline.physics_controls.push(PhysicsControl::Hair(body("h")));
        pipeline.physics_controls.push(PhysicsControl::Bust(body("b")));
        let mut off = body("p");
        off.enabled = false;
        pipeline.physics_controls.push(PhysicsControl::Parts(off));
        pipeline
    };
    let mut walked = piped(pipeline());
    let mut by_hand = piped(pipeline());
    let pose = by_hand.scene().layer_world_pose(None);
    let anchor = by_hand.scene().anchor(pose, eluna::place::EmoteTransform2D::identity());
    let turn = Turn { cos: s(1.0), sin: s(-0.0) };
    for _ in 0..3 {
        let asked = walk_bodies(&mut walked, 2.5);
        let mut want = vec!["turns", "slope", "turn"];
        for step in by_hand.start_swing(0, s(2.5), anchor) {
            let output = by_hand.swing(0, step, turn);
            let phase = by_hand.bend_phase(0);
            by_hand.finish_swing(0, output, s(f(phase).sin()));
            want.push("sine");
        }
        by_hand.step_spring(1, s(2.5), anchor, turn);
        assert!(by_hand.start_swing(2, s(2.5), anchor).is_empty());
        want.extend(["turns", "slope", "turn", "turns", "slope", "turn"]);
        assert_eq!(asked, want);
        assert_eq!(walked.hair_states(), by_hand.hair_states());
        assert_eq!(walked.bust_states(), by_hand.bust_states());
        assert_eq!(walked.variable_value("x"), by_hand.variable_value("x"));
        assert_eq!(walked.variable_value("y"), by_hand.variable_value("y"));
    }
    assert_ne!(value(&walked, "y"), 0.0);
    assert!(walk_bodies(&mut walked, 0.0).is_empty());
    walked.set_physics_enabled(false);
    assert!(walk_bodies(&mut walked, 1.0).is_empty());
    assert!(!walked.evaluates_physics(s(1.0)));
    walked.set_physics_enabled(true);
    assert!(walked.evaluates_physics(s(0.0)));
    assert!(!walked.evaluates_physics(s(-1.0)));
    assert!(!walked.evaluates_physics(s(f32::INFINITY)));
}

#[test]
fn a_first_update_takes_no_time() {
    let anchor = Coord { x: s(3.0), y: s(-4.0), z: s(0.0) };
    let turn = Turn { cos: s(1.0), sin: s(0.0) };
    let fresh = || {
        let mut pipeline = EmoteRuntimePipeline::default();
        pipeline.physics_controls.push(PhysicsControl::Bust(body("b")));
        pipeline.physics_controls.push(PhysicsControl::Hair(body("h")));
        let mut off = body("p");
        off.enabled = false;
        pipeline.physics_controls.push(PhysicsControl::Parts(off));
        piped(pipeline)
    };
    for ticks in [0.0, 1.0, 1e9, f32::MAX, f32::INFINITY, f32::NAN] {
        let mut p = fresh();
        let before = p.bust_states()[0];
        assert!(p.counts_ticks(0, s(ticks)) && p.counts_ticks(1, s(ticks)) && p.counts_ticks(2, s(ticks)));
        p.step_spring(0, s(ticks), anchor, turn);
        let after = p.bust_states()[0];
        assert_eq!(f(after.bob.x), 3.0 + f(before.bob.x));
        assert_eq!(f(after.bob.y), -4.0 + f(before.bob.y));
        assert_eq!(f(after.vel.x), f(before.vel.x));
        assert_eq!(f(after.vel.y), f(before.vel.y));
        assert_eq!(after.root_offset, before.root_offset);
        assert_eq!(after.last_anchor, Some(anchor));
        assert!(!after.first_tick);
        assert_eq!(p.start_swing(1, s(ticks), anchor).len(), 1);
        assert!(p.start_swing(2, s(ticks), anchor).is_empty());
    }

    let mut p = fresh();
    assert!(BodyWalk::can_start(&p, s(1e9)));
    assert_eq!(walk_bodies(&mut p, 1e9).len(), 10);
    assert!(!p.bust_states()[0].first_tick && !p.hair_states()[0].first_tick);
    assert!(p.hair_states()[1].first_tick);
    assert!(!BodyWalk::can_start(&p, s(1e9)));
    assert!(BodyWalk::can_start(&p, s(f32::NAN)));
    assert!(BodyWalk::can_start(&p, s(16777216.0)));
    assert!(p.counts_ticks(2, s(1e9)));
    let before = p.bust_states()[0];
    p.step_spring(0, s(f32::NAN), Coord { x: s(9.0), ..anchor }, turn);
    let after = p.bust_states()[0];
    assert_eq!((after.bob, after.vel), (before.bob, before.vel));
    assert_eq!(after.last_anchor, Some(Coord { x: s(9.0), ..anchor }));
    p.set_physics_enabled(false);
    assert!(BodyWalk::can_start(&p, s(1e9)));
}

#[test]
fn frames_of_a_variable() {
    let mut info = variable("v", 1.0, None, None);
    info.frames.push(EmoteVariableFrameInfo { label: "low".to_owned(), value: s(-1.0) });
    info.frames.push(EmoteVariableFrameInfo { label: "high".to_owned(), value: s(3.0) });
    let range = slider_range(s(1.0), None, None, &info.frames);
    assert_eq!((f(range.min), f(range.max), range.note), (-1.0, 3.0, RangeNote::Known));
    let p = ElunaPlayer::from_scene_and_variables(empty_scene(), vec![info]);
    assert_eq!(p.variable_frame_count("v"), 2);
    assert_eq!(p.variable_frame_label_at("v", 1), Some("high"));
    assert_eq!(f(p.variable_frame_value_at("v", 0).unwrap()), -1.0);
    assert!(p.variable_frame_label_at("v", 2).is_none());
    assert_eq!(p.variable_frame_count("w"), 0);
    let one = slider_range(s(5.0), Some(s(2.0)), None, &vec![]);
    assert_eq!((f(one.min), f(one.max), one.note), (1.0, 3.0, RangeNote::SingleKey));
    let none = slider_range(s(5.0), None, None, &vec![]);
    assert_eq!((f(none.min), f(none.max), none.note), (4.0, 6.0, RangeNote::Unknown));
}

#[test]
fn keys_of_the_viewer() {
    let mut p = player();
    assert!(matches!(handle_keyboard(&mut p, &KeyPress::Escape, None), KeyAction::Exit));
    assert!(matches!(handle_keyboard(&mut p, &KeyPress::Left, None), KeyAction::Redraw));
    assert_eq!(f(p.coord().0), -10.0);
    handle_keyboard(&mut p, &KeyPress::Down, None);
    assert_eq!(f(p.coord().1), 10.0);
    handle_keyboard(&mut p, &KeyPress::Space, None);
    assert!(!p.is_shown());
    handle_keyboard(&mut p, &KeyPress::Text("+"), None);
    assert_eq!(f(p.scale()), 1.05);
    handle_keyboard(&mut p, &KeyPress::Text("q"), None);
    assert_eq!(f(p.rot()), -0.05);
    assert!(matches!(handle_keyboard(&mut p, &KeyPress::Text("a"), None), KeyAction::Ignored));
    match handle_keyboard(&mut p, &KeyPress::Text("D"), Some("x")) {
        KeyAction::RedrawWithNote(note) => assert_eq!(note, "set_variable x=0.100"),
        _ => panic!("no note"),
    }
    assert_eq!(value(&p, "x"), 0.1);
    match handle_keyboard(&mut p, &KeyPress::Text("r"), Some("x")) {
        KeyAction::RedrawWithNote(note) => assert_eq!(note, "set_variable x=0.000"),
        _ => panic!("no note"),
    }
    assert!(matches!(handle_keyboard(&mut p, &KeyPress::Text("k"), None), KeyAction::Report));
    assert!(matches!(handle_keyboard(&mut p, &KeyPress::Text("z"), None), KeyAction::Ignored));
    assert!(matches!(handle_keyboard(&mut p, &KeyPress::Other, None), KeyAction::Ignored));
}

#[test]
fn frames_of_the_viewer() {
    let mut window = WindowState { occluded: false };
    assert!(matches!(window.tell(WindowNews::CloseRequested), WindowAction::Exit));
    assert!(matches!(window.tell(WindowNews::RedrawRequested), WindowAction::Draw));
    assert!(matches!(window.tell(WindowNews::Occluded(true)), WindowAction::Nothing));
    assert!(matches!(window.tell(WindowNews::RedrawRequested), WindowAction::Nothing));
    assert!(matches!(window.tell(WindowNews::Occluded(false)), WindowAction::RequestRedraw));
    assert!(matches!(window.tell(WindowNews::Resized), WindowAction::Resize));
    assert!(matches!(window.tell(WindowNews::Other), WindowAction::Nothing));
    assert_eq!(f(frame_ticks(s(1000.0), s(50.0), s(2.0))), 6.0);
    assert!(matches!(frame_move(false, false, false), FrameMove::Progress));
    assert!(matches!(frame_move(true, false, true), FrameMove::Step));
    assert!(matches!(frame_move(true, false, false), FrameMove::Rest));
    assert_eq!(f(export_ticks(0)), 0.0);
    assert_eq!(f(export_ticks(7)), 4.0);
}

#[test]
fn the_desk_plays_what_is_chosen() {
    let mut p = player();
    let mut desk = Desk::new();
    assert!(desk.timeline_loop);
    assert_eq!(f(desk.diff_fadeout_ms), 300.0);
    desk.choose_main(&mut p, Some("main"));
    assert_eq!(desk.main_timeline, "main");
    assert!(p.is_loop_timeline("main"));
    p.set_timeline_time("main", s(4.0)).unwrap();
    desk.set_loop(&mut p, false);
    assert!(!p.is_loop_timeline("main"));
    assert_eq!(f(p.timeline_elapsed_ticks("main")), 4.0);
    desk.choose_main(&mut p, Some("other"));
    assert!(!p.is_timeline_playing("main"));
    desk.choose_diff(&mut p, 2, Some("diff"));
    assert_eq!(desk.diff_timeline_slots[2], "diff");
    assert!(p.is_timeline_playing("diff"));
    desk.choose_diff(&mut p, 2, None);
    assert_eq!(desk.diff_timeline_slots[2], "");
    desk.restart_active(&mut p);
    assert!(p.is_timeline_playing("other"));
    desk.stop_all(&mut p);
    assert_eq!(desk.main_timeline, "");
    assert!(p.active_timelines().entries.is_empty());
    p.play_timeline("main", TimelinePlayMode::parallel());
    desk.adopt_main(&p);
    assert_eq!(desk.main_timeline, "main");
}

#[test]
fn the_timeline_of_a_motion() {
    let p = player();
    assert_eq!(find_timeline_for_motion(&p, "main"), Some("main".to_owned()));
    assert_eq!(find_timeline_for_motion(&p, "nothing"), None);
    assert_eq!(find_main_timeline_for_motion(&p, "main"), Some("main".to_owned()));
    // The viewer falls back on the first main timeline.
    assert_eq!(find_main_timeline_for_motion(&p, "nothing"), Some("main".to_owned()));
    let values = player_variable_values(&p);
    assert_eq!(values.entries.len(), 3);
    assert_eq!(f(*values.get("x").unwrap()), 0.0);
}

#[test]
fn a_mirror_control_is_kept() {
    let mut pipeline = EmoteRuntimePipeline::default();
    pipeline.mirror_control = Some(MirrorControl { variable_match_list: vec!["LR".to_owned()] });
    let p = piped(pipeline);
    assert_eq!(p.runtime_pipeline().mirror_control.as_ref().unwrap().variable_match_list.len(), 1);
}
