//! What is written for users, and read from them.

use eluna::arguments::{
    parse_u32_value, parse_usize_value, parse_variable_write, ArgumentError, ExtractOptions,
    PathArg, PlayerOptions,
};
use eluna::dump::{escape_key, escape_string, write_root_dump, write_value};
use eluna::manifest::{
    resource_file_name, serialize_header_prefix, write_manifest, write_resource_refs,
    write_schema_dump, write_string_list, PsbPathEntry, PsbResourceRefs, PsbValueKind,
};
use eluna::order::TextMap;
use eluna::psb::{PsbFile, PsbHeader, PsbResourceRange};
use eluna::report::{write_scene, write_textures};
use eluna::schema::EmoteModelSchema;
use eluna::single::Single;
use eluna::text::{contains_part, ends_with, join, split, starts_with, strip_prefix, trim};
use eluna::value::PsbValue;

fn s(x: f32) -> Single {
    Single { bits: x.to_bits() }
}

fn f(x: Single) -> f32 {
    f32::from_bits(x.bits)
}

fn args(row: &[&str]) -> Vec<String> {
    row.iter().map(|a| (*a).to_owned()).collect()
}

fn refused(row: &[&str]) -> ArgumentError {
    match PlayerOptions::parse(&args(row)) {
        Err(e) => e,
        Ok(_) => panic!("accepted"),
    }
}

#[test]
fn arguments_of_the_player() {
    let o = PlayerOptions::parse(&args(&[
        "--input", "m.psb", "--motion", "walk", "--timeline", "t", "--timeline-time", "1.5", "--key",
        "0x12345678", "--no-mdf", "--set", "a=1", "--set-timed", "b=2,3,0.5", "--debug-frames",
        "--control-variable", "v",
    ]))
    .unwrap()
    .unwrap();
    assert!(matches!(o.input, Some(PathArg::Argument(1))));
    assert_eq!(o.motion.as_deref(), Some("walk"));
    assert_eq!(o.timeline.as_deref(), Some("t"));
    assert_eq!(f(o.timeline_time.unwrap()), 1.5);
    assert!(o.debug_frames && !o.no_timeline);
    assert_eq!(o.control_variable.as_deref(), Some("v"));
    assert_eq!(o.initial_writes.len(), 2);
    assert_eq!(o.initial_writes[0].name, "a");
    assert_eq!(f(o.initial_writes[1].time_ticks), 3.0);
    assert_eq!(f(o.initial_writes[1].easing), 0.5);
    let n = o.normalize();
    assert!(!n.decode_mdf && n.decode_lz4);
    assert_eq!(n.decrypt_key.unwrap().key3, 0x12345678);
    assert!(PlayerOptions::parse(&args(&["--help"])).unwrap().is_none());
    assert!(PlayerOptions::parse(&args(&[])).unwrap().unwrap().input.is_none());
}

#[test]
fn refused_arguments_of_the_player() {
    assert!(matches!(refused(&["--motion"]), ArgumentError::MissingValue(_)));
    assert!(matches!(refused(&["--key", "zz"]), ArgumentError::BadNumber(_)));
    assert!(matches!(refused(&["--timeline-time", "zz"]), ArgumentError::BadFloat(_)));
    assert!(matches!(refused(&["--set", "noequals"]), ArgumentError::BadWrite));
    assert!(matches!(refused(&["--set", "=1"]), ArgumentError::EmptyName));
    assert_eq!(refused(&["--motion"]).message(), "--motion");
}

#[test]
fn numbers_that_cannot_be_read() {
    for text in [
        "", "+", "-", "-1", "++1", "zz", "1 2", "4294967295", "4294967296", "429496729x", "99999999999x", "x9",
        "+4294967296", "12345678901234567890123",
    ] {
        let want = text.parse::<u32>().map_err(|e| e.to_string());
        assert_eq!(parse_u32_value(text).map_err(|e| e.message()), want);
        let want = text.parse::<usize>().map_err(|e| e.to_string());
        assert_eq!(parse_usize_value(text).map_err(|e| e.message()), want);
        let hex = format!(" 0x{text} ");
        let want = u32::from_str_radix(text, 16).map_err(|e| e.to_string());
        assert_eq!(parse_u32_value(&hex).map_err(|e| e.message()), want);
    }
    for text in ["", "+", "1e", "abc", "1.0f", "--1", " 1"] {
        let want = text.parse::<f32>().unwrap_err().to_string();
        assert_eq!(refused(&["--timeline-time", text]).message(), want);
        let write = format!("a={text}");
        assert_eq!(parse_variable_write(&write, false).unwrap_err().message(), want);
        let write = format!("a=1,{text}");
        assert_eq!(parse_variable_write(&write, true).unwrap_err().message(), want);
        let write = format!("a=1,2,{text}");
        assert_eq!(parse_variable_write(&write, true).unwrap_err().message(), want);
    }
    assert_eq!(refused(&["--key", ""]).message(), "cannot parse integer from empty string");
    assert_eq!(refused(&["--key", "zz"]).message(), "invalid digit found in string");
    assert_eq!(
        refused(&["--key", "0x100000000"]).message(),
        "number too large to fit in target type"
    );
    assert_eq!(refused(&["--timeline-time", "zz"]).message(), "invalid float literal");
}

fn unpacked(row: &[&str]) -> Result<Option<ExtractOptions>, ArgumentError> {
    ExtractOptions::parse(&args(row))
}

#[test]
fn arguments_of_the_extractor() {
    let o = unpacked(&["--input", "a", "--output", "b"]).unwrap().unwrap();
    assert!(o.write_root && o.write_resources);
    assert!(matches!(o.output_dir, Some(PathArg::Argument(3))));
    assert!(unpacked(&["-h"]).unwrap().is_none());
    assert!(matches!(unpacked(&[]).unwrap_err(), ArgumentError::MissingInput));
    assert!(matches!(
        unpacked(&["--input", "a", "--key", "1", "--bruteforce-key"]).unwrap_err(),
        ArgumentError::KeyAndSearch
    ));
    let search = unpacked(&["--input", "a", "--bruteforce-key"]).unwrap().unwrap();
    assert!(search.bruteforce_key);
    assert!(!o.normalize().decrypt_key.is_some());
}

#[test]
fn numbers_and_writes() {
    assert_eq!(parse_u32_value("0xff").unwrap(), 255);
    assert_eq!(parse_u32_value("17").unwrap(), 17);
    assert!(parse_u32_value("-1").is_err());
    assert_eq!(parse_usize_value("8").unwrap(), 8);
    let w = parse_variable_write("face_eye=1.25", false).unwrap();
    assert_eq!((w.name.as_str(), f(w.value)), ("face_eye", 1.25));
    assert!(parse_variable_write("a=b", false).is_err());
    let two = parse_variable_write("a=1,2", true).unwrap();
    assert_eq!((f(two.value), f(two.time_ticks), f(two.easing)), (1.0, 2.0, 0.0));
    let t = parse_variable_write("a=1,2,3", true).unwrap();
    assert_eq!((f(t.value), f(t.time_ticks), f(t.easing)), (1.0, 2.0, 3.0));
}

#[test]
fn escapes() {
    assert_eq!(escape_string("a\"b\\c\nd"), "a\\\"b\\\\c\\nd");
    assert!(!escape_string("line\nline\r\t").contains('\n'));
    assert_eq!(escape_key("plain_1"), "plain_1");
    assert_eq!(escape_key("two words"), "\"two words\"");
}

#[test]
fn a_value_is_dumped() {
    let value = PsbValue::Object(vec![
        ("n".to_owned(), PsbValue::Int(-3)),
        ("x y".to_owned(), PsbValue::Float(s(0.5))),
        ("l".to_owned(), PsbValue::List(vec![PsbValue::Null, PsbValue::Bool(true)])),
        ("d".to_owned(), PsbValue::Double(2.0f64.to_bits())),
        ("far".to_owned(), PsbValue::List(vec![
            PsbValue::Float(s(1.5e-5)),
            PsbValue::Double((-1.0e300f64).to_bits()),
            PsbValue::Float(s(f32::NAN)),
        ])),
        ("t".to_owned(), PsbValue::String("a\n".to_owned())),
        ("r".to_owned(), PsbValue::Resource(7)),
        ("e".to_owned(), PsbValue::ExtraResource(8)),
        ("none".to_owned(), PsbValue::List(vec![])),
    ]);
    let want = "{\n  n: -3,\n  \"x y\": 0.5f,\n  l: [\n    null,\n    true,\n  ],\n  d: 2.0,\n  far: [\n    \
                1.5e-5f,\n    -1e300,\n    NaNf,\n  ],\n  t: \"a\\n\",\n  r: resource(7),\n  \
                e: extra_resource(8),\n  none: [\n  ],\n}";
    let mut text = "root = ".to_owned();
    write_value(&value, 0, &mut text);
    assert_eq!(text, format!("root = {want}"));
    assert_eq!(write_root_dump(&value), format!("{want}\n"));
}

fn document() -> PsbFile {
    PsbFile {
        version: 4,
        header: PsbHeader {
            signature: 0x0042_5350,
            version: 4,
            flags: 1,
            header_offset: 56,
            name_offset: 56,
            string_offset: 7,
            string_data_offset: 8,
            resource_offset: 9,
            resource_length_offset: 10,
            resource_data_offset: 11,
            root_offset: 12,
            extra: Some(0xdead_beef),
        },
        encrypted: true,
        names: vec!["a".to_owned()],
        strings: vec![],
        resources: vec![PsbResourceRange { offset: 16, length: 32 }],
        extra_resources: vec![],
        root: PsbValue::Null,
    }
}

#[test]
fn a_header_in_bytes() {
    let bytes = serialize_header_prefix(&document());
    assert_eq!(bytes.len(), 44);
    assert_eq!(bytes[0..4].to_vec(), b"PSB\0".to_vec());
    assert_eq!(bytes[4..6].to_vec(), vec![4, 0]);
    assert_eq!(bytes[40..44].to_vec(), 0xdead_beefu32.to_le_bytes().to_vec());
    let mut plain = document();
    plain.header.extra = None;
    assert_eq!(serialize_header_prefix(&plain).len(), 40);
}

#[test]
fn a_manifest() {
    let text = write_manifest(&document(), 1234, Some(0xdead_beef));
    assert!(text.contains("1234"));
    assert!(text.contains("deadbeef") || text.contains("DEADBEEF"));
    assert!(text.ends_with('\n'));
    assert_eq!(write_string_list(&vec!["a".to_owned(), "b".to_owned()]).lines().count(), 2);
    assert!(resource_file_name("resource", 7).contains('7'));
    let dump = write_schema_dump(&vec![PsbPathEntry {
        path: "/a".to_owned(),
        kind: PsbValueKind::List,
        len: Some(3),
    }]);
    assert!(dump.contains("/a"));
    assert!(dump.contains(PsbValueKind::List.name()));
    let refs = write_resource_refs(&PsbResourceRefs { resources: vec![1, 2], extra_resources: vec![] });
    assert!(refs.contains('1') && refs.contains('2'));
}

#[test]
fn reports() {
    let schema =
        EmoteModelSchema { base_object: "all".to_owned(), spec: None, textures: TextMap::new() };
    let _ = write_textures(&schema);
    let scene = eluna::assembly::EmoteStaticScene {
        base_object: "all".to_owned(),
        sprites: vec![],
        draw_frame_info: vec![],
        layer_states: vec![],
        composite_mask_owners: TextMap::new(),
    };
    assert_eq!(write_scene(&scene, &vec![]), "base_object=all\nbounds=\n");
}

#[test]
fn pieces_of_text() {
    assert_eq!(split("a,b,", ','), args(&["a", "b", ""]));
    assert_eq!(join(&args(&["a", "b"]), "--"), "a--b");
    assert_eq!(trim("  a b\t"), "a b");
    assert!(starts_with("abc", "ab"));
    assert!(ends_with("abc", "bc"));
    assert!(contains_part("abc", "b"));
    assert!(contains_part("abc", ""));
    assert!(!contains_part("abc", "abcd"));
    assert_eq!(strip_prefix("motion/x", "motion/"), Some("x".to_owned()));
    assert_eq!(strip_prefix("x", "motion/"), None);
}

#[test]
fn names_in_order() {
    let mut map: TextMap<u32> = TextMap::new();
    map.insert("b".to_owned(), 2);
    map.insert("a".to_owned(), 1);
    map.insert("b".to_owned(), 3);
    assert_eq!(map.entries.len(), 2);
    assert_eq!(map.entries[0].0, "a");
    assert_eq!(map.get("b"), Some(&3));
    map.remove("a");
    assert!(!map.contains_key("a"));
    assert!(map.get("zz").is_none());
}
