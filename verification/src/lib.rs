//! Verified core of an Emote/PSB model runtime.

pub mod api;
pub mod arguments;
pub mod arrange;
pub mod ask;
pub mod assembly;
pub mod bodies;
pub mod body_laws;
pub mod calls;
pub mod catalog;
pub mod combinator;
pub mod controls;
pub mod curve;
pub mod curve_laws;
pub mod decimal;
pub mod diagnostics;
pub mod draw_laws;
pub mod draws;
pub mod drive;
pub mod dump;
pub mod dyadic;
pub mod exact;
pub mod face;
pub mod frame_plan;
pub mod frames;
pub mod general;
pub mod key_laws;
pub mod laws;
pub mod layers;
pub mod manifest;
pub mod mesh;
pub mod mesh_laws;
pub mod model;
pub mod monotone;
pub mod natural;
pub mod numerals;
pub mod order;
pub mod panel;
pub mod pendulum_laws;
pub mod physics;
pub mod picture_laws;
pub mod place;
pub mod place_laws;
pub mod play_laws;
pub mod playback;
pub mod player;
pub mod psb;
pub mod range_laws;
pub mod raster;
pub mod read_laws;
pub mod refs;
pub mod replay;
pub mod report;
pub mod reread;
pub mod roots;
pub mod rounding;
pub mod scene;
pub mod scene_laws;
pub mod schema;
pub mod sdk;
pub mod show;
pub mod single;
pub mod spring_laws;
pub mod start;
pub mod step;
pub mod text;
pub mod texture;
pub mod texture_laws;
pub mod time_laws;
pub mod timelines;
pub mod travel;
pub mod tree;
pub mod value;
pub mod variables;
pub mod vertices;
pub mod viewer;
pub mod walk;
