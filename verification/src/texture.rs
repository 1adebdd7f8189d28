//! Pixels of textures.

use crate::arrange::views;
use crate::decimal::{lower_chars, lowered};
use crate::numerals::{decimal, decimal_u64};
use crate::order::{keys, ordered};
use crate::psb::{resource_at, PsbFile};
use crate::schema::{textures_wf, EmoteModelSchema, Schema};
use crate::text::{chars_of, opt_owned, opt_string, opt_text, same_text, text_of};
use vstd::prelude::*;

verus! {

/// The order of the four bytes of a pixel; an `x` stands for a byte without meaning.
#[derive(Clone, Copy, Debug, PartialEq, Eq, Structural)]
pub enum Raw32ChannelOrder {
    Bgra,
    Rgba,
    Bgrx,
    Rgbx,
}

pub open spec fn upper_char(c: char) -> char {
    if 'a' <= c <= 'z' {
        (c as u32 - 32) as char
    } else {
        c
    }
}

pub open spec fn is_alphanumeric(c: char) -> bool {
    'a' <= c <= 'z' || 'A' <= c <= 'Z' || '0' <= c <= '9'
}

/// The letters and digits of a text, in upper case.
pub open spec fn squeezed(s: Seq<char>) -> Seq<char>
    decreases s.len(),
{
    if s.len() == 0 {
        Seq::empty()
    } else if is_alphanumeric(s.last()) {
        squeezed(s.drop_last()).push(upper_char(s.last()))
    } else {
        squeezed(s.drop_last())
    }
}

fn to_upper(c: char) -> (r: char)
    ensures
        r == upper_char(c),
{
    if 'a' <= c && c <= 'z' {
        ((c as u8) - 32) as char
    } else {
        c
    }
}

fn squeeze(s: &str) -> (r: String)
    ensures
        r@ == squeezed(s@),
{
    let a = chars_of(s);
    let mut r = String::new();
    let mut i: usize = 0;
    while i < a.len()
        invariant
            i <= a@.len(),
            r@ == squeezed(a@.take(i as int)),
        decreases a@.len() - i,
    {
        assert(a@.take(i + 1).drop_last() =~= a@.take(i as int));
        let c = a[i];
        if ('a' <= c && c <= 'z') || ('A' <= c && c <= 'Z') || ('0' <= c && c <= '9') {
            r.push(to_upper(c));
        }
        i = i + 1;
    }
    assert(a@.take(i as int) =~= s@);
    r
}

/// Whether a platform keeps the bytes of a pixel in the order of their names.
pub open spec fn big_endian(spec_name: Option<Seq<char>>) -> bool {
    match spec_name {
        None => false,
        Some(s) => {
            let t = lowered(s);
            t == "common"@ || t == "ems"@ || t == "vita"@ || t == "psp"@ || t == "ps3"@
        },
    }
}

pub fn spec_uses_big_endian_rgba(spec_name: Option<&str>) -> (r: bool)
    ensures
        r == big_endian(opt_text(spec_name)),
{
    match spec_name {
        None => false,
        Some(s) => {
            let a = lower_chars(s);
            let t = text_of(&a, 0, a.len());
            assert(t@ =~= lowered(s@));
            let t = t.as_str();
            same_text(t, "common") || same_text(t, "ems") || same_text(t, "vita") || same_text(
                t,
                "psp",
            ) || same_text(t, "ps3")
        },
    }
}

/// The order of bytes that a format and a platform mean.
pub open spec fn channel_order(format: Option<Seq<char>>, spec_name: Option<Seq<char>>) ->
    Raw32ChannelOrder {
    let by_platform = if big_endian(spec_name) {
        Raw32ChannelOrder::Rgba
    } else {
        Raw32ChannelOrder::Bgra
    };
    match format {
        None => by_platform,
        Some(f) => {
            let name = squeezed(f);
            if name == "BERGBA8"@ {
                Raw32ChannelOrder::Rgba
            } else if name == "LERGBA8"@ || name == "BGRA8"@ || name == "ARGB8"@ || name
                == "A8R8G8B8"@ || name == "D3DFMTA8R8G8B8"@ {
                Raw32ChannelOrder::Bgra
            } else if name == "BGRX8"@ || name == "X8R8G8B8"@ || name == "D3DFMTX8R8G8B8"@ {
                Raw32ChannelOrder::Bgrx
            } else if name == "RGBX8"@ || name == "RGBX"@ {
                Raw32ChannelOrder::Rgbx
            } else {
                by_platform
            }
        },
    }
}

pub fn raw_32bpp_channel_order(format: Option<&str>, spec_name: Option<&str>) -> (r:
    Raw32ChannelOrder)
    ensures
        r == channel_order(opt_text(format), opt_text(spec_name)),
{
    let by_platform = if spec_uses_big_endian_rgba(spec_name) {
        Raw32ChannelOrder::Rgba
    } else {
        Raw32ChannelOrder::Bgra
    };
    match format {
        None => by_platform,
        Some(f) => {
            let name = squeeze(f);
            let name = name.as_str();
            if same_text(name, "BERGBA8") {
                Raw32ChannelOrder::Rgba
            } else if same_text(name, "LERGBA8") || same_text(name, "BGRA8") || same_text(
                name,
                "ARGB8",
            ) || same_text(name, "A8R8G8B8") || same_text(name, "D3DFMTA8R8G8B8") {
                Raw32ChannelOrder::Bgra
            } else if same_text(name, "BGRX8") || same_text(name, "X8R8G8B8") || same_text(
                name,
                "D3DFMTX8R8G8B8",
            ) {
                Raw32ChannelOrder::Bgrx
            } else if same_text(name, "RGBX8") || same_text(name, "RGBX") {
                Raw32ChannelOrder::Rgbx
            } else {
                by_platform
            }
        },
    }
}

/// The bytes of a pixel, red first.
pub open spec fn pixel(bytes: Seq<u8>, at: int, order: Raw32ChannelOrder) -> Seq<u8> {
    match order {
        Raw32ChannelOrder::Bgra => seq![bytes[at + 2], bytes[at + 1], bytes[at], bytes[at + 3]],
        Raw32ChannelOrder::Rgba => seq![bytes[at], bytes[at + 1], bytes[at + 2], bytes[at + 3]],
        Raw32ChannelOrder::Bgrx => seq![bytes[at + 2], bytes[at + 1], bytes[at], 0xff],
        Raw32ChannelOrder::Rgbx => seq![bytes[at], bytes[at + 1], bytes[at + 2], 0xff],
    }
}

/// The first `n` pixels, red first.
pub open spec fn pixels(bytes: Seq<u8>, n: nat, order: Raw32ChannelOrder) -> Seq<u8>
    decreases n,
{
    if n == 0 {
        Seq::empty()
    } else {
        pixels(bytes, (n - 1) as nat, order) + pixel(bytes, 4 * (n - 1), order)
    }
}

/// Puts the bytes of every pixel in order; bytes of a pixel that is not whole are
/// left out.
pub fn convert_raw_32bpp_texture_to_rgba(
    bytes: &[u8],
    format: Option<&str>,
    spec_name: Option<&str>,
) -> (r: Vec<u8>)
    ensures
        r@ == pixels(
            bytes@,
            bytes@.len() / 4,
            channel_order(opt_text(format), opt_text(spec_name)),
        ),
{
    let order = raw_32bpp_channel_order(format, spec_name);
    let n: usize = bytes.len() / 4;
    let mut r: Vec<u8> = Vec::new();
    let mut i: usize = 0;
    while i < n
        invariant
            i <= n,
            n == bytes@.len() / 4,
            bytes@.len() <= usize::MAX,
            r@ == pixels(bytes@, i as nat, order),
        decreases n - i,
    {
        let ghost before = r@;
        let at: usize = 4 * i;
        let first = bytes[at];
        let second = bytes[at + 1];
        let third = bytes[at + 2];
        let fourth = bytes[at + 3];
        match order {
            Raw32ChannelOrder::Bgra => {
                r.push(third);
                r.push(second);
                r.push(first);
                r.push(fourth);
            },
            Raw32ChannelOrder::Rgba => {
                r.push(first);
                r.push(second);
                r.push(third);
                r.push(fourth);
            },
            Raw32ChannelOrder::Bgrx => {
                r.push(third);
                r.push(second);
                r.push(first);
                r.push(0xff);
            },
            Raw32ChannelOrder::Rgbx => {
                r.push(first);
                r.push(second);
                r.push(third);
                r.push(0xff);
            },
        }
        assert(r@ =~= before + pixel(bytes@, 4 * i, order));
        i = i + 1;
    }
    r
}

proof fn lemma_pixels_at(bytes: Seq<u8>, n: nat, order: Raw32ChannelOrder, i: nat, c: nat)
    requires
        i < n,
        c < 4,
    ensures
        pixels(bytes, n, order).len() == 4 * n,
        pixels(bytes, n, order)[(4 * i + c) as int] == pixel(bytes, 4 * i as int, order)[c as int],
    decreases n,
{
    if i < n - 1 {
        lemma_pixels_at(bytes, (n - 1) as nat, order, i, c);
    } else {
        lemma_pixels_len(bytes, (n - 1) as nat, order);
    }
}

/// Every pixel keeps its four bytes.
pub proof fn lemma_pixels_len(bytes: Seq<u8>, n: nat, order: Raw32ChannelOrder)
    ensures
        pixels(bytes, n, order).len() == 4 * n,
    decreases n,
{
    if n > 0 {
        lemma_pixels_len(bytes, (n - 1) as nat, order);
    }
}

/// A pixel whose fourth byte has no meaning is opaque.
pub proof fn lemma_pixels_opaque(bytes: Seq<u8>, n: nat, order: Raw32ChannelOrder, i: nat)
    requires
        i < n,
        order is Bgrx || order is Rgbx,
    ensures
        pixels(bytes, n, order)[(4 * i + 3) as int] == 0xff,
{
    lemma_pixels_at(bytes, n, order, i, 3);
}

/// To swap red and blue twice changes nothing.
pub proof fn lemma_pixels_swap(bytes: Seq<u8>, n: nat)
    requires
        bytes.len() == 4 * n,
    ensures
        pixels(pixels(bytes, n, Raw32ChannelOrder::Bgra), n, Raw32ChannelOrder::Bgra) == bytes,
{
    let once = pixels(bytes, n, Raw32ChannelOrder::Bgra);
    let twice = pixels(once, n, Raw32ChannelOrder::Bgra);
    lemma_pixels_len(bytes, n, Raw32ChannelOrder::Bgra);
    lemma_pixels_len(once, n, Raw32ChannelOrder::Bgra);
    assert forall|k: int| 0 <= k < bytes.len() implies twice[k] == bytes[k] by {
        let i = (k / 4) as nat;
        let c = (k % 4) as nat;
        lemma_pixels_at(once, n, Raw32ChannelOrder::Bgra, i, c);
        lemma_pixels_at(bytes, n, Raw32ChannelOrder::Bgra, i, 0);
        lemma_pixels_at(bytes, n, Raw32ChannelOrder::Bgra, i, 1);
        lemma_pixels_at(bytes, n, Raw32ChannelOrder::Bgra, i, 2);
        lemma_pixels_at(bytes, n, Raw32ChannelOrder::Bgra, i, 3);
    }
    assert(twice =~= bytes);
}

/// Whether a texture is packed in runs.
pub open spec fn packed(compress: Option<Seq<char>>) -> bool {
    match compress {
        Some(s) => lowered(s) == "rl"@,
        None => false,
    }
}

pub fn is_rl_compressed(compress: Option<&str>) -> (r: bool)
    ensures
        r == packed(opt_text(compress)),
{
    match compress {
        Some(s) => {
            let a = lower_chars(s);
            let t = text_of(&a, 0, a.len());
            assert(t@ =~= lowered(s@));
            same_text(t.as_str(), "rl")
        },
        None => false,
    }
}

/// Why runs cannot be unpacked.
#[derive(Clone, Copy, Debug, PartialEq, Eq, Structural)]
pub enum RlError {
    InvalidAlign,
    Overflow,
    TruncatedRepeat,
    TruncatedLiteral,
    TooLong,
    Mismatch { got: usize, expected: usize },
}

/// A pattern a number of times.
pub open spec fn repeated(pattern: Seq<u8>, n: nat) -> Seq<u8>
    decreases n,
{
    if n == 0 {
        Seq::empty()
    } else {
        repeated(pattern, (n - 1) as nat) + pattern
    }
}

/// The runs from a place on, behind what is unpacked already. A command with its
/// highest bit set repeats the next unit; any other copies units.
pub open spec fn unpacked(
    bytes: Seq<u8>,
    pos: int,
    align: nat,
    expected: nat,
    out: Seq<u8>,
) -> Result<Seq<u8>, RlError>
    decreases bytes.len() - pos,
{
    if pos >= bytes.len() {
        if out.len() != expected {
            Err(RlError::Mismatch { got: out.len() as usize, expected: expected as usize })
        } else {
            Ok(out)
        }
    } else {
        let command = bytes[pos] as int;
        let repeats = command >= 128;
        let end = pos + 1 + if repeats {
            align as int
        } else {
            (command + 1) * align
        };
        if end > usize::MAX {
            Err(RlError::Overflow)
        } else if end > bytes.len() {
            Err(
                if repeats {
                    RlError::TruncatedRepeat
                } else {
                    RlError::TruncatedLiteral
                },
            )
        } else if end <= pos {
            Err(RlError::InvalidAlign)
        } else {
            let block = bytes.subrange(pos + 1, end);
            let longer = out + if repeats {
                repeated(block, (command - 125) as nat)
            } else {
                block
            };
            if longer.len() > expected {
                Err(RlError::TooLong)
            } else {
                unpacked(bytes, end, align, expected, longer)
            }
        }
    }
}

fn push_bytes(out: &mut Vec<u8>, bytes: &[u8], from: usize, to: usize)
    requires
        from <= to <= bytes@.len(),
    ensures
        final(out)@ == old(out)@ + bytes@.subrange(from as int, to as int),
{
    let ghost start = out@;
    let mut i: usize = from;
    assert(start + bytes@.subrange(from as int, from as int) =~= start);
    while i < to
        invariant
            from <= i <= to <= bytes@.len(),
            out@ == start + bytes@.subrange(from as int, i as int),
        decreases to - i,
    {
        out.push(bytes[i]);
        assert(out@ =~= start + bytes@.subrange(from as int, i + 1));
        i = i + 1;
    }
}

fn push_repeated(out: &mut Vec<u8>, bytes: &[u8], from: usize, to: usize, n: usize)
    requires
        from <= to <= bytes@.len(),
    ensures
        final(out)@ == old(out)@ + repeated(bytes@.subrange(from as int, to as int), n as nat),
{
    let ghost start = out@;
    let ghost block = bytes@.subrange(from as int, to as int);
    let mut i: usize = 0;
    assert(start + repeated(block, 0) =~= start);
    while i < n
        invariant
            i <= n,
            from <= to <= bytes@.len(),
            block == bytes@.subrange(from as int, to as int),
            out@ == start + repeated(block, i as nat),
        decreases n - i,
    {
        push_bytes(out, bytes, from, to);
        assert(out@ =~= start + repeated(block, (i + 1) as nat));
        i = i + 1;
    }
}

/// Whether a result is that one.
pub open spec fn is_unpacked(r: Result<Vec<u8>, RlError>, want: Result<Seq<u8>, RlError>) -> bool {
    match r {
        Ok(v) => want == Ok::<Seq<u8>, RlError>(v@),
        Err(e) => want == Err::<Seq<u8>, RlError>(e),
    }
}

/// Unpacks runs of units of `align` bytes. What comes out has the expected length.
pub fn decompress_rl(bytes: &[u8], align: usize, expected_len: usize) -> (r: Result<
    Vec<u8>,
    RlError,
>)
    requires
        128 * align <= usize::MAX,
    ensures
        if align == 0 {
            r == Err::<Vec<u8>, RlError>(RlError::InvalidAlign)
        } else {
            is_unpacked(r, unpacked(bytes@, 0, align as nat, expected_len as nat, Seq::empty()))
        },
        r matches Ok(v) ==> v@.len() == expected_len,
{
    if align == 0 {
        return Err(RlError::InvalidAlign);
    }
    let ghost want = unpacked(bytes@, 0, align as nat, expected_len as nat, Seq::empty());
    let mut out: Vec<u8> = Vec::new();
    let mut pos: usize = 0;
    assert(out@ =~= Seq::<u8>::empty());
    while pos < bytes.len()
        invariant
            pos <= bytes@.len(),
            align > 0,
            128 * align <= usize::MAX,
            out@.len() <= expected_len,
            want == unpacked(bytes@, 0, align as nat, expected_len as nat, Seq::empty()),
            want == unpacked(bytes@, pos as int, align as nat, expected_len as nat, out@),
        decreases bytes@.len() - pos,
    {
        let command = bytes[pos];
        let from: usize = pos + 1;
        if command >= 128 {
            if align > usize::MAX - from {
                return Err(RlError::Overflow);
            }
            let end: usize = from + align;
            if end > bytes.len() {
                return Err(RlError::TruncatedRepeat);
            }
            push_repeated(&mut out, bytes, from, end, command as usize - 125);
            pos = end;
        } else {
            proof {
                assert((command + 1) * align <= 128 * align) by (nonlinear_arith)
                    requires
                        command < 128,
                ;
                assert((command + 1) * align >= align) by (nonlinear_arith)
                    requires
                        command >= 0,
                ;
            }
            let count: usize = (command as usize + 1) * align;
            if count > usize::MAX - from {
                return Err(RlError::Overflow);
            }
            let end: usize = from + count;
            if end > bytes.len() {
                return Err(RlError::TruncatedLiteral);
            }
            push_bytes(&mut out, bytes, from, end);
            pos = end;
        }
        if out.len() > expected_len {
            return Err(RlError::TooLong);
        }
    }
    if out.len() != expected_len {
        return Err(RlError::Mismatch { got: out.len(), expected: expected_len });
    }
    Ok(out)
}

impl RlError {
    /// The message for users.
    pub open spec fn text(self) -> Seq<char> {
        match self {
            RlError::InvalidAlign => "invalid RL align"@,
            RlError::Overflow => "RL overflow"@,
            RlError::TruncatedRepeat => "truncated RL repeat block"@,
            RlError::TruncatedLiteral => "truncated RL literal block"@,
            RlError::TooLong => "RL output exceeds expected length"@,
            RlError::Mismatch { got, expected } => "RL output length mismatch: got "@ + decimal(
                got as int,
            ) + ", expected "@ + decimal(expected as int),
        }
    }

    pub fn message(self) -> (r: String)
        ensures
            r@ == self.text(),
    {
        match self {
            RlError::InvalidAlign => "invalid RL align".to_owned(),
            RlError::Overflow => "RL overflow".to_owned(),
            RlError::TruncatedRepeat => "truncated RL repeat block".to_owned(),
            RlError::TruncatedLiteral => "truncated RL literal block".to_owned(),
            RlError::TooLong => "RL output exceeds expected length".to_owned(),
            RlError::Mismatch { got, expected } => {
                let mut r = "RL output length mismatch: got ".to_owned();
                r.append(decimal_u64(got as u64).as_str());
                r.append(", expected ");
                r.append(decimal_u64(expected as u64).as_str());
                r
            },
        }
    }
}

/// Pixels, red first.
#[derive(Clone, Debug)]
pub struct DecodedTexture {
    pub rgba: Vec<u8>,
    pub width: u32,
    pub height: u32,
}

/// A `DecodedTexture` by its bytes.
#[verifier::ext_equal]
pub struct Pixels {
    pub rgba: Seq<u8>,
    pub width: u32,
    pub height: u32,
}

impl View for DecodedTexture {
    type V = Pixels;

    open spec fn view(&self) -> Pixels {
        Pixels { rgba: self.rgba@, width: self.width, height: self.height }
    }
}

impl Pixels {
    /// Four bytes are there for every pixel.
    pub open spec fn wf(self) -> bool {
        4 * self.width * self.height <= self.rgba.len()
    }
}

pub open spec fn opt_pixels(t: Option<DecodedTexture>) -> Option<Pixels> {
    match t {
        Some(p) => Some(p@),
        None => None,
    }
}

/// Why a texture cannot be decoded.
#[derive(Debug)]
pub enum TextureError {
    Runs(RlError),
    /// The bytes are neither raw pixels of the texture nor an image.
    Unsupported {
        format: Option<String>,
        compress: Option<String>,
        bit_count: Option<u32>,
        spec_name: Option<String>,
        bytes: usize,
        expected: usize,
    },
    /// The texture names no resource of the document.
    MissingResource,
}

/// A `TextureError` by its characters.
pub enum TextureFault {
    Runs(RlError),
    Unsupported {
        format: Option<Seq<char>>,
        compress: Option<Seq<char>>,
        bit_count: Option<u32>,
        spec_name: Option<Seq<char>>,
        bytes: nat,
        expected: nat,
    },
    MissingResource,
}

impl View for TextureError {
    type V = TextureFault;

    open spec fn view(&self) -> TextureFault {
        match *self {
            TextureError::Runs(e) => TextureFault::Runs(e),
            TextureError::Unsupported { format, compress, bit_count, spec_name, bytes, expected } =>
                TextureFault::Unsupported {
                    format: opt_string(format),
                    compress: opt_string(compress),
                    bit_count,
                    spec_name: opt_string(spec_name),
                    bytes: bytes as nat,
                    expected: expected as nat,
                },
            TextureError::MissingResource => TextureFault::MissingResource,
        }
    }
}

/// How many bytes a pixel of a texture has; at least one.
pub open spec fn unit_of(bit_count: Option<u32>) -> nat {
    let unit = bit_count.unwrap_or(32) as nat / 8;
    if unit == 0 {
        1
    } else {
        unit
    }
}

/// The pixels of an image file.
pub uninterp spec fn decoded_image(bytes: Seq<u8>) -> Option<Pixels>;

/// Decodes an image file with `image::load_from_memory`, and brings it to four bytes
/// a pixel with `DynamicImage::to_rgba8`. What comes out is named `decoded_image`; it
/// depends on the bytes alone, as long as nobody registers a decoding hook with the
/// crate for the whole process, and holds four bytes for every pixel. Which files are
/// read, and what their pixels are, is left unsaid.
#[verifier::external_body]
fn decode_image(bytes: &[u8]) -> (r: Option<DecodedTexture>)
    ensures
        opt_pixels(r) == decoded_image(bytes@),
        r matches Some(t) ==> t@.wf(),
{
    match image::load_from_memory(bytes) {
        Ok(picture) => {
            let rgba = picture.to_rgba8();
            let (width, height) = rgba.dimensions();
            Some(DecodedTexture { rgba: rgba.into_raw(), width, height })
        },
        Err(_) => None,
    }
}

/// The pixels of a texture, given what its bytes are as an image file: raw pixels of
/// four bytes, packed or not, else the image.
pub open spec fn texture_pixels(
    bytes: Seq<u8>,
    width: u32,
    height: u32,
    format: Option<Seq<char>>,
    compress: Option<Seq<char>>,
    bit_count: Option<u32>,
    spec_name: Option<Seq<char>>,
    image: Option<Pixels>,
) -> Result<Pixels, TextureFault> {
    let expected = (width as nat * height as nat * unit_of(bit_count)) as nat;
    let unsupported = TextureFault::Unsupported {
        format,
        compress,
        bit_count,
        spec_name,
        bytes: bytes.len(),
        expected,
    };
    let payload = if packed(compress) {
        unpacked(bytes, 0, unit_of(bit_count), expected, Seq::empty())
    } else {
        Ok(bytes)
    };
    match payload {
        Err(e) => Err(TextureFault::Runs(e)),
        Ok(raw) => if bit_count.unwrap_or(32) == 32 && raw.len() == width as nat * height as nat * 4 {
            Ok(
                Pixels {
                    rgba: pixels(raw, raw.len() / 4, channel_order(format, spec_name)),
                    width,
                    height,
                },
            )
        } else if packed(compress) {
            Err(unsupported)
        } else {
            match image {
                Some(p) => Ok(p),
                None => Err(unsupported),
            }
        },
    }
}

/// Whether a result is that one.
pub open spec fn is_texture(
    r: Result<DecodedTexture, TextureError>,
    want: Result<Pixels, TextureFault>,
) -> bool {
    match r {
        Ok(t) => want == Ok::<Pixels, TextureFault>(t@),
        Err(e) => want == Err::<Pixels, TextureFault>(e@),
    }
}

/// Whether the pixels of a texture can be counted in a machine word.
pub open spec fn countable(width: u32, height: u32, bit_count: Option<u32>) -> bool {
    &&& width as nat * height as nat * unit_of(bit_count) <= usize::MAX
    &&& width as nat * height as nat * 4 <= usize::MAX
    &&& 128 * unit_of(bit_count) <= usize::MAX
}

fn find_unit(bit_count: Option<u32>) -> (r: usize)
    ensures
        r == unit_of(bit_count),
{
    let bits: u32 = match bit_count {
        Some(n) => n,
        None => 32,
    };
    let unit: u32 = bits / 8;
    if unit == 0 {
        1
    } else {
        unit as usize
    }
}

/// Tests whether the pixels of a texture can be counted in a machine word.
pub fn is_countable(width: u32, height: u32, bit_count: Option<u32>) -> (r: bool)
    ensures
        r == countable(width, height, bit_count),
{
    let unit = find_unit(bit_count) as u128;
    assert(width as nat * height as nat <= 0xffff_ffff * 0xffff_ffff) by (nonlinear_arith)
        requires
            width <= 0xffff_ffff,
            height <= 0xffff_ffff,
    ;
    let area: u128 = width as u128 * height as u128;
    proof {
        assert(area * unit <= 0xffff_ffff * 0xffff_ffff * 0x2000_0000) by (nonlinear_arith)
            requires
                area <= 0xffff_ffff * 0xffff_ffff,
                unit <= 0x2000_0000,
        ;
    }
    area * unit <= usize::MAX as u128 && area * 4 <= usize::MAX as u128 && 128 * unit
        <= usize::MAX as u128
}

fn unsupported(
    bytes: &[u8],
    format: Option<&str>,
    compress: Option<&str>,
    bit_count: Option<u32>,
    spec_name: Option<&str>,
    expected: usize,
) -> (r: TextureError)
    ensures
        r@ == (TextureFault::Unsupported {
            format: opt_text(format),
            compress: opt_text(compress),
            bit_count,
            spec_name: opt_text(spec_name),
            bytes: bytes@.len(),
            expected: expected as nat,
        }),
{
    TextureError::Unsupported {
        format: opt_owned(format),
        compress: opt_owned(compress),
        bit_count,
        spec_name: opt_owned(spec_name),
        bytes: bytes.len(),
        expected,
    }
}

/// The pixels of a texture, given what its bytes are as an image file.
pub fn decode_texture_with(
    bytes: &[u8],
    width: u32,
    height: u32,
    format: Option<&str>,
    compress: Option<&str>,
    bit_count: Option<u32>,
    spec_name: Option<&str>,
    image: Option<DecodedTexture>,
) -> (r: Result<DecodedTexture, TextureError>)
    requires
        countable(width, height, bit_count),
        image matches Some(t) ==> t@.wf(),
    ensures
        is_texture(
            r,
            texture_pixels(
                bytes@,
                width,
                height,
                opt_text(format),
                opt_text(compress),
                bit_count,
                opt_text(spec_name),
                opt_pixels(image),
            ),
        ),
        r matches Ok(t) ==> t@.wf(),
{
    let unit = find_unit(bit_count);
    proof {
        assert(width as nat * height as nat * unit >= width as nat * height as nat)
            by (nonlinear_arith)
            requires
                unit >= 1,
        ;
        assert(4 * width * height == width as nat * height as nat * 4) by (nonlinear_arith);
    }
    let area: usize = (width as usize) * (height as usize);
    let expected: usize = area * unit;
    let is_packed = is_rl_compressed(compress);
    let plain: bool = match bit_count {
        Some(n) => n == 32,
        None => true,
    };
    if is_packed {
        match decompress_rl(bytes, unit, expected) {
            Err(e) => Err(TextureError::Runs(e)),
            Ok(raw) => {
                if plain && raw.len() == area * 4 {
                    let rgba = convert_raw_32bpp_texture_to_rgba(raw.as_slice(), format, spec_name);
                    proof {
                        lemma_pixels_len(
                            raw@,
                            raw@.len() / 4,
                            channel_order(opt_text(format), opt_text(spec_name)),
                        );
                    }
                    Ok(DecodedTexture { rgba, width, height })
                } else {
                    Err(unsupported(bytes, format, compress, bit_count, spec_name, expected))
                }
            },
        }
    } else if plain && bytes.len() == area * 4 {
        let rgba = convert_raw_32bpp_texture_to_rgba(bytes, format, spec_name);
        proof {
            lemma_pixels_len(
                bytes@,
                bytes@.len() / 4,
                channel_order(opt_text(format), opt_text(spec_name)),
            );
        }
        Ok(DecodedTexture { rgba, width, height })
    } else {
        match image {
            Some(t) => Ok(t),
            None => Err(unsupported(bytes, format, compress, bit_count, spec_name, expected)),
        }
    }
}

/// Decodes a texture.
pub fn decode_texture_rgba(
    bytes: &[u8],
    width: u32,
    height: u32,
    format: Option<&str>,
    compress: Option<&str>,
    bit_count: Option<u32>,
    spec_name: Option<&str>,
) -> (r: Result<DecodedTexture, TextureError>)
    requires
        countable(width, height, bit_count),
    ensures
        is_texture(
            r,
            texture_pixels(
                bytes@,
                width,
                height,
                opt_text(format),
                opt_text(compress),
                bit_count,
                opt_text(spec_name),
                decoded_image(bytes@),
            ),
        ),
        r matches Ok(t) ==> t@.wf(),
{
    let raw: bool = match bit_count {
        Some(n) => n == 32,
        None => true,
    } && bytes.len() == (width as usize) * (height as usize) * 4;
    let image = if is_rl_compressed(compress) || raw {
        None
    } else {
        decode_image(bytes)
    };
    decode_texture_with(bytes, width, height, format, compress, bit_count, spec_name, image)
}

/// A texture of a model, by the resource that it comes from.
#[derive(Debug)]
pub struct ModelTexture {
    pub resource_index: u32,
    pub name: String,
    pub texture: DecodedTexture,
}

/// A `ModelTexture` by its characters.
#[verifier::ext_equal]
pub struct Loaded {
    pub resource_index: u32,
    pub name: Seq<char>,
    pub texture: Pixels,
}

impl View for ModelTexture {
    type V = Loaded;

    open spec fn view(&self) -> Loaded {
        Loaded { resource_index: self.resource_index, name: self.name@, texture: self.texture@ }
    }
}

/// Whether a resource is among the textures.
pub open spec fn is_loaded(row: Seq<Loaded>, resource_index: u32) -> bool {
    exists|i: int| 0 <= i < row.len() && (#[trigger] row[i]).resource_index == resource_index
}

/// The textures of a model under a row of names, each resource once.
pub open spec fn model_textures(
    psb: PsbFile,
    data: Seq<u8>,
    schema: Schema,
    names: Seq<Seq<char>>,
) -> Result<Seq<Loaded>, TextureFault>
    decreases names.len(),
{
    if names.len() == 0 {
        Ok(Seq::empty())
    } else {
        match model_textures(psb, data, schema, names.drop_last()) {
            Err(e) => Err(e),
            Ok(row) => {
                let t = schema.textures[names.last()];
                if is_loaded(row, t.resource_index) {
                    Ok(row)
                } else {
                    match resource_at(psb.resources@, data, t.resource_index as int) {
                        None => Err(TextureFault::MissingResource),
                        Some(bytes) => match texture_pixels(
                            bytes,
                            t.width,
                            t.height,
                            t.format,
                            t.compress,
                            t.bit_count,
                            schema.spec,
                            decoded_image(bytes),
                        ) {
                            Err(e) => Err(e),
                            Ok(p) => Ok(
                                row.push(
                                    Loaded {
                                        resource_index: t.resource_index,
                                        name: t.name,
                                        texture: p,
                                    },
                                ),
                            ),
                        },
                    }
                }
            },
        }
    }
}

/// Whether the pixels of all textures of a model can be counted.
pub open spec fn all_countable(schema: Schema) -> bool {
    forall|k: Seq<char>| #[trigger]
        schema.textures.dom().contains(k) ==> countable(
            schema.textures[k].width,
            schema.textures[k].height,
            schema.textures[k].bit_count,
        )
}

/// The place of the texture of a resource, the number of textures where it has none.
pub open spec fn slot_in(row: Seq<Loaded>, resource_index: u32) -> nat
    decreases row.len(),
{
    if row.len() == 0 {
        0
    } else if row[0].resource_index == resource_index {
        0
    } else {
        1 + slot_in(row.drop_first(), resource_index)
    }
}

pub fn find_slot(row: &Vec<ModelTexture>, resource_index: u32) -> (r: Option<usize>)
    ensures
        match r {
            Some(i) => i == slot_in(views(row@), resource_index),
            None => slot_in(views(row@), resource_index) == row@.len(),
        },
        r is Some <==> is_loaded(views(row@), resource_index),
        r matches Some(i) ==> i < row@.len() && row@[i as int].resource_index == resource_index,
{
    let ghost all = views(row@);
    let mut i: usize = 0;
    assert(all.skip(0) =~= all);
    while i < row.len()
        invariant
            i <= row@.len(),
            all == views(row@),
            slot_in(all, resource_index) == i + slot_in(all.skip(i as int), resource_index),
            forall|j: int| 0 <= j < i ==> (#[trigger] all[j]).resource_index != resource_index,
        decreases row@.len() - i,
    {
        let ghost rest = all.skip(i as int);
        assert(rest[0] == all[i as int]);
        assert(rest.drop_first() =~= all.skip(i + 1));
        if row[i].resource_index == resource_index {
            assert(all[i as int].resource_index == resource_index);
            return Some(i);
        }
        i = i + 1;
    }
    None
}

fn as_opt_str(s: &Option<String>) -> (r: Option<&str>)
    ensures
        opt_text(r) == opt_string(*s),
{
    match s {
        Some(t) => Some(t.as_str()),
        None => None,
    }
}

/// Decodes the textures of a model, each resource once.
pub fn decode_model_textures(psb: &PsbFile, data: &[u8], schema: &EmoteModelSchema) -> (r: Result<
    Vec<ModelTexture>,
    TextureError,
>)
    requires
        textures_wf(schema.textures),
        all_countable(schema@),
    ensures
        match r {
            Ok(row) => {
                &&& model_textures(
                    *psb,
                    data@,
                    schema@,
                    ordered(schema@.textures.dom()),
                ) == Ok::<Seq<Loaded>, TextureFault>(views(row@))
                &&& forall|i: int| 0 <= i < row@.len() ==> (#[trigger] row@[i]).texture@.wf()
            },
            Err(e) => model_textures(
                *psb,
                data@,
                schema@,
                ordered(schema@.textures.dom()),
            ) == Err::<Seq<Loaded>, TextureFault>(e@),
        },
{
    let entries = &schema.textures.entries;
    let ghost names = keys(entries@);
    let ghost map = schema@.textures;
    let mut row: Vec<ModelTexture> = Vec::new();
    let mut i: usize = 0;
    proof {
        schema.textures.lemma_ordered();
        assert(map.dom() =~= schema.textures@.dom());
        assert(views(row@) =~= Seq::<Loaded>::empty());
    }
    while i < entries.len()
        invariant
            i <= entries@.len(),
            textures_wf(schema.textures),
            all_countable(schema@),
            *entries == schema.textures.entries,
            names == keys(entries@),
            names == ordered(schema@.textures.dom()),
            map == schema@.textures,
            model_textures(*psb, data@, schema@, names.take(i as int)) == Ok::<
                Seq<Loaded>,
                TextureFault,
            >(views(row@)),
            forall|j: int| 0 <= j < row@.len() ==> (#[trigger] row@[j]).texture@.wf(),
        decreases entries@.len() - i,
    {
        proof {
            schema.textures.lemma_entry(i as int);
            assert(names.take(i + 1).drop_last() =~= names.take(i as int));
            assert(map[names[i as int]] == entries@[i as int].1@);
            assert(map.dom().contains(names[i as int]));
        }
        let t = &entries[i].1;
        if find_slot(&row, t.resource_index).is_none() {
            let bytes = match psb.resource_bytes(data, t.resource_index as usize) {
                Some(b) => b,
                None => {
                    proof {
                        lemma_error_stays(
                            *psb,
                            data@,
                            schema@,
                            names,
                            (i + 1) as nat,
                            TextureFault::MissingResource,
                        );
                    }
                    return Err(TextureError::MissingResource);
                },
            };
            match decode_texture_rgba(
                bytes,
                t.width,
                t.height,
                as_opt_str(&t.format),
                as_opt_str(&t.compress),
                t.bit_count,
                as_opt_str(&schema.spec),
            ) {
                Err(e) => {
                    proof {
                        lemma_error_stays(*psb, data@, schema@, names, (i + 1) as nat, e@);
                    }
                    return Err(e);
                },
                Ok(texture) => {
                    let ghost before = views(row@);
                    let loaded = ModelTexture {
                        resource_index: t.resource_index,
                        name: t.name.clone(),
                        texture,
                    };
                    row.push(loaded);
                    assert(views(row@) =~= before.push(loaded@));
                },
            }
        }
        i = i + 1;
    }
    assert(names.take(i as int) =~= names);
    Ok(row)
}

/// What fails for the first names fails for all.
proof fn lemma_error_stays(
    psb: PsbFile,
    data: Seq<u8>,
    schema: Schema,
    names: Seq<Seq<char>>,
    n: nat,
    e: TextureFault,
)
    requires
        n <= names.len(),
        model_textures(psb, data, schema, names.take(n as int)) == Err::<
            Seq<Loaded>,
            TextureFault,
        >(e),
    ensures
        model_textures(psb, data, schema, names) == Err::<Seq<Loaded>, TextureFault>(e),
    decreases names.len() - n,
{
    if n < names.len() {
        let longer = names.take(n as int + 1);
        assert(longer.drop_last() =~= names.take(n as int));
        lemma_error_stays(psb, data, schema, names, n + 1, e);
    } else {
        assert(names.take(n as int) =~= names);
    }
}

/// No resource is loaded twice.
pub proof fn lemma_resources_once(
    psb: PsbFile,
    data: Seq<u8>,
    schema: Schema,
    names: Seq<Seq<char>>,
    i: int,
    j: int,
)
    requires
        model_textures(psb, data, schema, names) is Ok,
        0 <= i < j < model_textures(psb, data, schema, names)->Ok_0.len(),
    ensures
        model_textures(psb, data, schema, names)->Ok_0[i].resource_index != model_textures(
            psb,
            data,
            schema,
            names,
        )->Ok_0[j].resource_index,
    decreases names.len(),
{
    let rest = model_textures(psb, data, schema, names.drop_last())->Ok_0;
    let row = model_textures(psb, data, schema, names)->Ok_0;
    if j < rest.len() {
        lemma_resources_once(psb, data, schema, names.drop_last(), i, j);
        assert(row[i] == rest[i] && row[j] == rest[j]);
    } else {
        assert(row[i] == rest[i]);
        assert(!is_loaded(rest, row[j].resource_index));
    }
}

} // verus!
