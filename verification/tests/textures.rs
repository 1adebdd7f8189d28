//! Pixels of textures.

use eluna::order::TextMap;
use eluna::psb::{PsbFile, PsbHeader, PsbResourceRange};
use eluna::schema::{EmoteModelSchema, EmoteTextureSource};
use eluna::texture::{
    convert_raw_32bpp_texture_to_rgba, decode_model_textures, decode_texture_rgba,
    decode_texture_with, decompress_rl, find_slot, is_countable, is_rl_compressed,
    raw_32bpp_channel_order, spec_uses_big_endian_rgba, DecodedTexture, Raw32ChannelOrder, RlError,
    TextureError,
};
use eluna::value::PsbValue;

fn png(width: u32, height: u32, rgba: Vec<u8>) -> Vec<u8> {
    let image = image::RgbaImage::from_raw(width, height, rgba).unwrap();
    let mut bytes = std::io::Cursor::new(Vec::new());
    image.write_to(&mut bytes, image::ImageFormat::Png).unwrap();
    bytes.into_inner()
}

#[test]
fn an_encoded_image_is_decoded() {
    let pixels = vec![1, 2, 3, 255, 4, 5, 6, 255, 7, 8, 9, 255];
    let bytes = png(3, 1, pixels.clone());
    let t = decode_texture_rgba(&bytes, 100, 100, Some("RGBA8"), None, None, None).unwrap();
    assert_eq!((t.width, t.height), (3, 1));
    assert_eq!(t.rgba, pixels);
}

#[test]
fn raw_pixels_are_put_in_order() {
    let bytes = vec![1u8, 2, 3, 4];
    let t = decode_texture_rgba(&bytes, 1, 1, Some("RGBA8"), None, Some(32), None).unwrap();
    assert_eq!(t.rgba.len(), 4);
    assert_eq!(convert_raw_32bpp_texture_to_rgba(&bytes, Some("BGRA8"), None).len(), 4);
    let twice = convert_raw_32bpp_texture_to_rgba(
        &convert_raw_32bpp_texture_to_rgba(&bytes, None, Some("krkr")),
        None,
        Some("krkr"),
    );
    let order = raw_32bpp_channel_order(None, Some("krkr"));
    if order == Raw32ChannelOrder::Bgra {
        assert_eq!(twice, bytes);
    }
    assert!(!spec_uses_big_endian_rgba(None));
}

#[test]
fn texture_errors() {
    let e = decode_texture_rgba(&[1, 2, 3], 4, 4, None, None, None, None).unwrap_err();
    assert!(matches!(e, TextureError::Unsupported { bytes: 3, expected: 64, format: None, .. }));
    let e = decode_texture_rgba(&[1, 2], 4, 3, Some("L8"), Some("zip"), Some(8), Some("krkr")).unwrap_err();
    match e {
        TextureError::Unsupported { format, compress, bit_count, spec_name, bytes, expected } => {
            assert_eq!(format.as_deref(), Some("L8"));
            assert_eq!(compress.as_deref(), Some("zip"));
            assert_eq!(bit_count, Some(8));
            assert_eq!(spec_name.as_deref(), Some("krkr"));
            assert_eq!((bytes, expected), (2, 12));
        }
        _ => panic!("another fault"),
    }
    let given = DecodedTexture { rgba: vec![9, 9, 9, 9], width: 1, height: 1 };
    let t = decode_texture_with(&[1, 2, 3], 4, 4, None, None, None, None, Some(given)).unwrap();
    assert_eq!(t.rgba, vec![9, 9, 9, 9]);
    let e = decode_texture_rgba(&[0x85], 1, 1, None, Some("RL"), None, None).unwrap_err();
    assert!(matches!(e, TextureError::Runs(RlError::TruncatedRepeat)));
    assert!(is_countable(100, 100, None));
}

#[test]
fn runs_are_unpacked() {
    assert!(is_rl_compressed(Some("RL")));
    assert!(!is_rl_compressed(None));
    // A run of three, then two pixels as they are.
    let packed = vec![0x80, 1, 2, 3, 4, 0x01, 5, 6, 7, 8, 9, 10, 11, 12];
    let mut want = Vec::new();
    let mut i = 0;
    while i < 3 {
        want.extend_from_slice(&[1, 2, 3, 4]);
        i += 1;
    }
    want.extend_from_slice(&[5, 6, 7, 8, 9, 10, 11, 12]);
    assert_eq!(decompress_rl(&packed, 4, 20).unwrap(), want);
    assert_eq!(decompress_rl(&[], 0, 0).unwrap_err(), RlError::InvalidAlign);
    assert_eq!(decompress_rl(&[0x80, 1], 4, 12).unwrap_err(), RlError::TruncatedRepeat);
    assert_eq!(decompress_rl(&[0x01, 1], 4, 8).unwrap_err(), RlError::TruncatedLiteral);
    assert_eq!(decompress_rl(&[0x80, 1, 2, 3, 4], 4, 8).unwrap_err(), RlError::TooLong);
    assert_eq!(
        decompress_rl(&[0x80, 1, 2, 3, 4], 4, 16).unwrap_err(),
        RlError::Mismatch { got: 12, expected: 16 }
    );
    assert_eq!(RlError::InvalidAlign.message(), "invalid RL align");
    assert_eq!(
        RlError::Mismatch { got: 1, expected: 2 }.message(),
        "RL output length mismatch: got 1, expected 2"
    );
}

fn texture(name: &str, resource_index: u32) -> EmoteTextureSource {
    EmoteTextureSource {
        name: name.to_owned(),
        resource_index,
        width: 1,
        height: 1,
        format: Some("RGBA8".to_owned()),
        compress: None,
        bit_count: None,
        icons: TextMap::new(),
    }
}

fn document(resources: Vec<PsbResourceRange>) -> PsbFile {
    PsbFile {
        version: 3,
        header: PsbHeader {
            signature: 0,
            version: 3,
            flags: 0,
            header_offset: 0,
            name_offset: 0,
            string_offset: 0,
            string_data_offset: 0,
            resource_offset: 0,
            resource_length_offset: 0,
            resource_data_offset: 0,
            root_offset: 0,
            extra: None,
        },
        encrypted: false,
        names: vec![],
        strings: vec![],
        resources,
        extra_resources: vec![],
        root: PsbValue::Null,
    }
}

#[test]
fn each_resource_is_decoded_once() {
    let mut textures: TextMap<EmoteTextureSource> = TextMap::new();
    textures.insert("a".to_owned(), texture("a", 0));
    textures.insert("b".to_owned(), texture("b", 1));
    textures.insert("c".to_owned(), texture("c", 0));
    let schema = EmoteModelSchema { base_object: "x".to_owned(), spec: None, textures };
    let bytes = png(1, 1, vec![1, 2, 3, 255]);
    let n = bytes.len() as u64;
    let mut data = bytes.clone();
    data.extend_from_slice(&bytes);
    let psb = document(vec![
        PsbResourceRange { offset: 0, length: n },
        PsbResourceRange { offset: n, length: n },
    ]);
    let row = decode_model_textures(&psb, &data, &schema).unwrap();
    assert_eq!(row.len(), 2);
    assert_eq!(row[0].name, "a");
    assert_eq!(row[1].resource_index, 1);
    assert_eq!(find_slot(&row, 1), Some(1));
    assert_eq!(find_slot(&row, 7), None);
    let empty = document(vec![]);
    assert!(matches!(
        decode_model_textures(&empty, &data, &schema).unwrap_err(),
        TextureError::MissingResource
    ));
}
