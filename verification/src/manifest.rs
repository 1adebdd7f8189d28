//! The manifest of a document, its header bytes, and its lists.

use crate::calls::{show_truth, truth_text};
use crate::dump::{escape_string, escaped};
use crate::numerals::{
    decimal, decimal_u64, digits, hexadecimal, pad_zeros, zero_padded,
};
use crate::psb::{PsbFile, PsbHeader, PsbResourceRange};
use crate::text::texts;
use vstd::prelude::*;

verus! {

/// The `n` lowest bytes of a number, the lowest first.
pub open spec fn low_bytes(v: nat, n: nat) -> Seq<u8>
    decreases n,
{
    if n == 0 {
        Seq::empty()
    } else {
        seq![(v % 256) as u8] + low_bytes(v / 256, (n - 1) as nat)
    }
}

/// The number that a row of bytes stands for, the lowest first.
pub open spec fn bytes_value(bytes: Seq<u8>) -> nat
    decreases bytes.len(),
{
    if bytes.len() == 0 {
        0
    } else {
        bytes[0] as nat + 256 * bytes_value(bytes.skip(1))
    }
}

/// The bytes of a header up to its checksum.
pub open spec fn header_prefix(h: PsbHeader) -> Seq<u8> {
    low_bytes(h.signature as nat, 4) + low_bytes(h.version as nat, 2) + low_bytes(
        h.flags as nat,
        2,
    ) + low_bytes(h.header_offset as nat, 4) + low_bytes(h.name_offset as nat, 4) + low_bytes(
        h.string_offset as nat,
        4,
    ) + low_bytes(h.string_data_offset as nat, 4) + low_bytes(h.resource_offset as nat, 4)
        + low_bytes(h.resource_length_offset as nat, 4) + low_bytes(
        h.resource_data_offset as nat,
        4,
    ) + low_bytes(h.root_offset as nat, 4) + (match h.extra {
        Some(extra) => low_bytes(extra as nat, 4),
        None => Seq::empty(),
    })
}

fn push_bytes(out: &mut Vec<u8>, v: u32, n: usize)
    ensures
        final(out)@ == old(out)@ + low_bytes(v as nat, n as nat),
{
    let ghost start = out@;
    let mut rest: u32 = v;
    let mut i: usize = 0;
    assert(out@ + low_bytes(v as nat, n as nat) =~= start + low_bytes(v as nat, n as nat));
    while i < n
        invariant
            i <= n,
            out@ + low_bytes(rest as nat, (n - i) as nat) == start + low_bytes(v as nat, n as nat),
        decreases n - i,
    {
        let ghost before = out@;
        out.push((rest % 256) as u8);
        assert(out@ + low_bytes((rest / 256) as nat, (n - i - 1) as nat) =~= before + low_bytes(
            rest as nat,
            (n - i) as nat,
        ));
        rest = rest / 256;
        i = i + 1;
    }
    assert(out@ + low_bytes(rest as nat, 0) =~= out@);
}

/// The bytes of a header up to its checksum.
pub fn serialize_header_prefix(psb: &PsbFile) -> (r: Vec<u8>)
    ensures
        r@ == header_prefix(psb.header),
{
    let h = psb.header;
    let mut out: Vec<u8> = Vec::new();
    push_bytes(&mut out, h.signature, 4);
    assert(out@ =~= low_bytes(h.signature as nat, 4));
    push_bytes(&mut out, h.version as u32, 2);
    push_bytes(&mut out, h.flags as u32, 2);
    push_bytes(&mut out, h.header_offset, 4);
    push_bytes(&mut out, h.name_offset, 4);
    push_bytes(&mut out, h.string_offset, 4);
    push_bytes(&mut out, h.string_data_offset, 4);
    push_bytes(&mut out, h.resource_offset, 4);
    push_bytes(&mut out, h.resource_length_offset, 4);
    push_bytes(&mut out, h.resource_data_offset, 4);
    push_bytes(&mut out, h.root_offset, 4);
    match h.extra {
        Some(extra) => {
            push_bytes(&mut out, extra, 4);
        },
        None => {
            assert(out@ + Seq::<u8>::empty() =~= out@);
        },
    }
    out
}

proof fn lemma_low_bytes_len(v: nat, n: nat)
    ensures
        low_bytes(v, n).len() == n,
    decreases n,
{
    if n > 0 {
        lemma_low_bytes_len(v / 256, (n - 1) as nat);
    }
}

/// The four lowest bytes of a machine word give the word back.
pub proof fn lemma_word_round_trip(v: u32)
    ensures
        low_bytes(v as nat, 4).len() == 4,
        bytes_value(low_bytes(v as nat, 4)) == v,
{
    lemma_low_bytes_len(v as nat, 4);
    reveal_with_fuel(low_bytes, 5);
    reveal_with_fuel(bytes_value, 5);
    let b = low_bytes(v as nat, 4);
    let v1 = v as nat / 256;
    let v2 = v1 / 256;
    let v3 = v2 / 256;
    assert(b.skip(1) =~= low_bytes(v1, 3));
    assert(low_bytes(v1, 3).skip(1) =~= low_bytes(v2, 2));
    assert(low_bytes(v2, 2).skip(1) =~= low_bytes(v3, 1));
    assert(low_bytes(v3, 1).skip(1) =~= Seq::<u8>::empty());
}

/// A header without checksum has forty bytes, one with it forty-four, and the words
/// behind the flags stand at their places.
pub proof fn lemma_header_prefix(h: PsbHeader)
    ensures
        header_prefix(h).len() == if h.extra is Some {
            44nat
        } else {
            40
        },
        bytes_value(header_prefix(h).subrange(0, 4)) == h.signature,
        bytes_value(header_prefix(h).subrange(8, 12)) == h.header_offset,
        bytes_value(header_prefix(h).subrange(36, 40)) == h.root_offset,
        h.extra matches Some(extra) ==> bytes_value(header_prefix(h).subrange(40, 44)) == extra,
{
    lemma_word_round_trip(h.signature);
    lemma_low_bytes_len(h.version as nat, 2);
    lemma_low_bytes_len(h.flags as nat, 2);
    lemma_word_round_trip(h.header_offset);
    lemma_word_round_trip(h.name_offset);
    lemma_word_round_trip(h.string_offset);
    lemma_word_round_trip(h.string_data_offset);
    lemma_word_round_trip(h.resource_offset);
    lemma_word_round_trip(h.resource_length_offset);
    lemma_word_round_trip(h.resource_data_offset);
    lemma_word_round_trip(h.root_offset);
    let p = header_prefix(h);
    assert(p.subrange(0, 4) =~= low_bytes(h.signature as nat, 4));
    assert(p.subrange(8, 12) =~= low_bytes(h.header_offset as nat, 4));
    assert(p.subrange(36, 40) =~= low_bytes(h.root_offset as nat, 4));
    if let Some(extra) = h.extra {
        lemma_word_round_trip(extra);
        assert(p.subrange(40, 44) =~= low_bytes(extra as nat, 4));
    }
}

/// One line of a manifest.
pub open spec fn field_line(name: Seq<char>, value: Seq<char>) -> Seq<char> {
    name + "="@ + value + "\n"@
}

/// A row of named values, each on a line.
pub open spec fn field_lines(fields: Seq<(Seq<char>, Seq<char>)>) -> Seq<char>
    decreases fields.len(),
{
    if fields.len() == 0 {
        Seq::empty()
    } else {
        field_lines(fields.drop_last()) + field_line(fields.last().0, fields.last().1)
    }
}

/// A number in hexadecimal behind `0x`.
pub open spec fn hex_text(n: nat) -> Seq<char> {
    "0x"@ + digits(n, 16)
}

/// A number in hexadecimal behind `0x`, with at least `width` digits.
pub open spec fn wide_hex_text(n: nat, width: nat) -> Seq<char> {
    "0x"@ + zero_padded(digits(n, 16), width)
}

/// A checksum, nothing where there is none.
pub open spec fn checksum_text(sum: Option<u32>) -> Seq<char> {
    match sum {
        Some(v) => wide_hex_text(v as nat, 8),
        None => Seq::empty(),
    }
}

/// The line of a resource.
pub open spec fn range_line(prefix: Seq<char>, index: nat, range: PsbResourceRange) -> Seq<char> {
    prefix + "["@ + decimal(index as int) + "].offset=0x"@ + digits(range.offset as nat, 16) + " "@
        + prefix + "["@ + decimal(index as int) + "].length="@ + decimal(range.length as int)
        + "\n"@
}

pub open spec fn range_lines(prefix: Seq<char>, ranges: Seq<PsbResourceRange>) -> Seq<char>
    decreases ranges.len(),
{
    if ranges.len() == 0 {
        Seq::empty()
    } else {
        range_lines(prefix, ranges.drop_last()) + range_line(
            prefix,
            (ranges.len() - 1) as nat,
            ranges.last(),
        )
    }
}

/// The named values at the head of a manifest.
pub open spec fn head_fields(psb: PsbFile, size: usize, calculated: Option<u32>) -> Seq<
    (Seq<char>, Seq<char>),
> {
    seq![
        ("version"@, decimal(psb.version as int)),
        ("flags"@, wide_hex_text(psb.header.flags as nat, 4)),
        ("encrypted"@, truth_text(psb.encrypted)),
        ("normalized_size"@, decimal(size as int)),
        ("header_offset"@, hex_text(psb.header.header_offset as nat)),
        ("name_offset"@, hex_text(psb.header.name_offset as nat)),
        ("string_offset"@, hex_text(psb.header.string_offset as nat)),
        ("string_data_offset"@, hex_text(psb.header.string_data_offset as nat)),
        ("resource_offset"@, hex_text(psb.header.resource_offset as nat)),
        ("resource_length_offset"@, hex_text(psb.header.resource_length_offset as nat)),
        ("resource_data_offset"@, hex_text(psb.header.resource_data_offset as nat)),
        ("root_offset"@, hex_text(psb.header.root_offset as nat)),
        ("checksum"@, checksum_text(psb.header.extra)),
        ("checksum_calculated"@, checksum_text(calculated)),
        ("names"@, decimal(psb.names@.len() as int)),
        ("strings"@, decimal(psb.strings@.len() as int)),
        ("resources"@, decimal(psb.resources@.len() as int)),
    ]
}

/// The manifest of a document, with the checksum that was calculated of its header.
pub open spec fn manifest_text(psb: PsbFile, size: usize, calculated: Option<u32>) -> Seq<char> {
    field_lines(head_fields(psb, size, calculated)) + range_lines("resource"@, psb.resources@)
        + field_line("extra_resources"@, decimal(psb.extra_resources@.len() as int))
        + range_lines("extra_resource"@, psb.extra_resources@)
}

fn push_field(out: &mut String, name: &str, value: &str, Ghost(fields): Ghost<
    Seq<(Seq<char>, Seq<char>)>,
>)
    requires
        old(out)@ == field_lines(fields),
    ensures
        final(out)@ == field_lines(fields.push((name@, value@))),
{
    let ghost start = out@;
    push_line(out, name, value);
    assert(fields.push((name@, value@)).drop_last() =~= fields);
}

fn push_line(out: &mut String, name: &str, value: &str)
    ensures
        final(out)@ == old(out)@ + field_line(name@, value@),
{
    let ghost start = out@;
    out.append(name);
    out.append("=");
    out.append(value);
    out.append("\n");
    assert(out@ =~= start + field_line(name@, value@));
}

fn hex(n: u64) -> (r: String)
    ensures
        r@ == hex_text(n as nat),
{
    let mut r = "0x".to_owned();
    r.append(hexadecimal(n).as_str());
    r
}

fn wide_hex(n: u64, width: usize) -> (r: String)
    ensures
        r@ == wide_hex_text(n as nat, width as nat),
{
    let mut r = "0x".to_owned();
    let body = hexadecimal(n);
    r.append(pad_zeros(body.as_str(), width).as_str());
    r
}

fn show_checksum(sum: Option<u32>) -> (r: String)
    ensures
        r@ == checksum_text(sum),
{
    match sum {
        Some(v) => wide_hex(v as u64, 8),
        None => String::new(),
    }
}

/// Writes the line of a resource.
pub fn writeln_resource_range(out: &mut String, prefix: &str, index: usize, range: PsbResourceRange)
    ensures
        final(out)@ == old(out)@ + range_line(prefix@, index as nat, range),
{
    let ghost start = out@;
    let number = decimal_u64(index as u64);
    out.append(prefix);
    out.append("[");
    out.append(number.as_str());
    out.append("].offset=0x");
    out.append(hexadecimal(range.offset).as_str());
    out.append(" ");
    out.append(prefix);
    out.append("[");
    out.append(number.as_str());
    out.append("].length=");
    out.append(decimal_u64(range.length).as_str());
    out.append("\n");
    assert(out@ =~= start + range_line(prefix@, index as nat, range));
}

fn push_ranges(out: &mut String, prefix: &str, ranges: &Vec<PsbResourceRange>)
    ensures
        final(out)@ == old(out)@ + range_lines(prefix@, ranges@),
{
    let ghost start = out@;
    let mut i: usize = 0;
    assert(start + range_lines(prefix@, ranges@.take(0)) =~= start);
    while i < ranges.len()
        invariant
            i <= ranges@.len(),
            out@ == start + range_lines(prefix@, ranges@.take(i as int)),
        decreases ranges@.len() - i,
    {
        let ghost next = ranges@.take(i + 1);
        assert(next.drop_last() =~= ranges@.take(i as int));
        let ghost before = out@;
        writeln_resource_range(out, prefix, i, ranges[i]);
        assert(out@ =~= start + range_lines(prefix@, next));
        i = i + 1;
    }
    assert(ranges@.take(i as int) =~= ranges@);
}

fn push_offsets(out: &mut String, h: &PsbHeader, Ghost(fields): Ghost<Seq<(Seq<char>, Seq<char>)>>)
    requires
        old(out)@ == field_lines(fields),
    ensures
        final(out)@ == field_lines(
            fields + seq![
                ("header_offset"@, hex_text(h.header_offset as nat)),
                ("name_offset"@, hex_text(h.name_offset as nat)),
                ("string_offset"@, hex_text(h.string_offset as nat)),
                ("string_data_offset"@, hex_text(h.string_data_offset as nat)),
                ("resource_offset"@, hex_text(h.resource_offset as nat)),
                ("resource_length_offset"@, hex_text(h.resource_length_offset as nat)),
                ("resource_data_offset"@, hex_text(h.resource_data_offset as nat)),
                ("root_offset"@, hex_text(h.root_offset as nat)),
            ],
        ),
{
    let ghost mut f = fields;
    push_field(out, "header_offset", hex(h.header_offset as u64).as_str(), Ghost(f));
    proof {
        f = f.push(("header_offset"@, hex_text(h.header_offset as nat)));
    }
    push_field(out, "name_offset", hex(h.name_offset as u64).as_str(), Ghost(f));
    proof {
        f = f.push(("name_offset"@, hex_text(h.name_offset as nat)));
    }
    push_field(out, "string_offset", hex(h.string_offset as u64).as_str(), Ghost(f));
    proof {
        f = f.push(("string_offset"@, hex_text(h.string_offset as nat)));
    }
    push_field(out, "string_data_offset", hex(h.string_data_offset as u64).as_str(), Ghost(f));
    proof {
        f = f.push(("string_data_offset"@, hex_text(h.string_data_offset as nat)));
    }
    push_field(out, "resource_offset", hex(h.resource_offset as u64).as_str(), Ghost(f));
    proof {
        f = f.push(("resource_offset"@, hex_text(h.resource_offset as nat)));
    }
    push_field(
        out,
        "resource_length_offset",
        hex(h.resource_length_offset as u64).as_str(),
        Ghost(f),
    );
    proof {
        f = f.push(("resource_length_offset"@, hex_text(h.resource_length_offset as nat)));
    }
    push_field(out, "resource_data_offset", hex(h.resource_data_offset as u64).as_str(), Ghost(f));
    proof {
        f = f.push(("resource_data_offset"@, hex_text(h.resource_data_offset as nat)));
    }
    push_field(out, "root_offset", hex(h.root_offset as u64).as_str(), Ghost(f));
    proof {
        f = f.push(("root_offset"@, hex_text(h.root_offset as nat)));
        assert(f =~= fields + seq![
            ("header_offset"@, hex_text(h.header_offset as nat)),
            ("name_offset"@, hex_text(h.name_offset as nat)),
            ("string_offset"@, hex_text(h.string_offset as nat)),
            ("string_data_offset"@, hex_text(h.string_data_offset as nat)),
            ("resource_offset"@, hex_text(h.resource_offset as nat)),
            ("resource_length_offset"@, hex_text(h.resource_length_offset as nat)),
            ("resource_data_offset"@, hex_text(h.resource_data_offset as nat)),
            ("root_offset"@, hex_text(h.root_offset as nat)),
        ]);
    }
}

/// Writes the manifest of a document.
pub fn write_manifest(psb: &PsbFile, size: usize, calculated: Option<u32>) -> (r: String)
    ensures
        r@ == manifest_text(*psb, size, calculated),
{
    let mut out = String::new();
    let ghost mut f: Seq<(Seq<char>, Seq<char>)> = Seq::empty();
    assert(out@ =~= field_lines(f));
    push_field(&mut out, "version", decimal_u64(psb.version as u64).as_str(), Ghost(f));
    proof {
        f = f.push(("version"@, decimal(psb.version as int)));
    }
    push_field(&mut out, "flags", wide_hex(psb.header.flags as u64, 4).as_str(), Ghost(f));
    proof {
        f = f.push(("flags"@, wide_hex_text(psb.header.flags as nat, 4)));
    }
    push_field(&mut out, "encrypted", show_truth(psb.encrypted).as_str(), Ghost(f));
    proof {
        f = f.push(("encrypted"@, truth_text(psb.encrypted)));
    }
    push_field(&mut out, "normalized_size", decimal_u64(size as u64).as_str(), Ghost(f));
    proof {
        f = f.push(("normalized_size"@, decimal(size as int)));
    }
    let ghost front = f;
    push_offsets(&mut out, &psb.header, Ghost(f));
    proof {
        f = f + seq![
            ("header_offset"@, hex_text(psb.header.header_offset as nat)),
            ("name_offset"@, hex_text(psb.header.name_offset as nat)),
            ("string_offset"@, hex_text(psb.header.string_offset as nat)),
            ("string_data_offset"@, hex_text(psb.header.string_data_offset as nat)),
            ("resource_offset"@, hex_text(psb.header.resource_offset as nat)),
            ("resource_length_offset"@, hex_text(psb.header.resource_length_offset as nat)),
            ("resource_data_offset"@, hex_text(psb.header.resource_data_offset as nat)),
            ("root_offset"@, hex_text(psb.header.root_offset as nat)),
        ];
    }
    push_field(&mut out, "checksum", show_checksum(psb.header.extra).as_str(), Ghost(f));
    proof {
        f = f.push(("checksum"@, checksum_text(psb.header.extra)));
    }
    push_field(&mut out, "checksum_calculated", show_checksum(calculated).as_str(), Ghost(f));
    proof {
        f = f.push(("checksum_calculated"@, checksum_text(calculated)));
    }
    push_field(&mut out, "names", decimal_u64(psb.names.len() as u64).as_str(), Ghost(f));
    proof {
        f = f.push(("names"@, decimal(psb.names@.len() as int)));
    }
    push_field(&mut out, "strings", decimal_u64(psb.strings.len() as u64).as_str(), Ghost(f));
    proof {
        f = f.push(("strings"@, decimal(psb.strings@.len() as int)));
    }
    push_field(&mut out, "resources", decimal_u64(psb.resources.len() as u64).as_str(), Ghost(f));
    proof {
        f = f.push(("resources"@, decimal(psb.resources@.len() as int)));
        assert(f =~= head_fields(*psb, size, calculated));
    }
    push_ranges(&mut out, "resource", &psb.resources);
    push_line(
        &mut out,
        "extra_resources",
        decimal_u64(psb.extra_resources.len() as u64).as_str(),
    );
    push_ranges(&mut out, "extra_resource", &psb.extra_resources);
    out
}

/// The lines of a string list: number, tab, escaped text.
pub open spec fn list_lines(values: Seq<Seq<char>>) -> Seq<char>
    decreases values.len(),
{
    if values.len() == 0 {
        Seq::empty()
    } else {
        list_lines(values.drop_last()) + decimal(values.len() - 1) + "\t"@ + escaped(values.last())
            + "\n"@
    }
}

/// Writes a string list, one text on a line.
pub fn write_string_list(values: &Vec<String>) -> (r: String)
    ensures
        r@ == list_lines(texts(values@)),
{
    let ghost all = texts(values@);
    let mut out = String::new();
    let mut i: usize = 0;
    while i < values.len()
        invariant
            i <= values@.len(),
            all == texts(values@),
            out@ == list_lines(all.take(i as int)),
        decreases values@.len() - i,
    {
        assert(all.take(i + 1).drop_last() =~= all.take(i as int));
        assert(all.take(i + 1).last() == values@[i as int]@);
        out.append(decimal_u64(i as u64).as_str());
        out.append("\t");
        out.append(escape_string(values[i].as_str()).as_str());
        out.append("\n");
        i = i + 1;
    }
    assert(all.take(i as int) =~= all);
    out
}

/// The name of the file of a resource.
pub open spec fn resource_file(prefix: Seq<char>, index: nat) -> Seq<char> {
    prefix + "_"@ + zero_padded(digits(index, 10), 4) + ".bin"@
}

pub fn resource_file_name(prefix: &str, index: usize) -> (r: String)
    ensures
        r@ == resource_file(prefix@, index as nat),
{
    let number = decimal_u64(index as u64);
    let mut r = prefix.to_owned();
    r.append("_");
    r.append(pad_zeros(number.as_str(), 4).as_str());
    r.append(".bin");
    r
}

/// What kind of value stands at a path.
#[derive(Clone, Copy, Debug, PartialEq, Eq, Structural)]
pub enum PsbValueKind {
    Null,
    Bool,
    Int,
    Float,
    Double,
    String,
    Resource,
    ExtraResource,
    Compiler,
    List,
    Object,
}

impl PsbValueKind {
    pub open spec fn text(self) -> Seq<char> {
        match self {
            PsbValueKind::Null => "Null"@,
            PsbValueKind::Bool => "Bool"@,
            PsbValueKind::Int => "Int"@,
            PsbValueKind::Float => "Float"@,
            PsbValueKind::Double => "Double"@,
            PsbValueKind::String => "String"@,
            PsbValueKind::Resource => "Resource"@,
            PsbValueKind::ExtraResource => "ExtraResource"@,
            PsbValueKind::Compiler => "Compiler"@,
            PsbValueKind::List => "List"@,
            PsbValueKind::Object => "Object"@,
        }
    }

    pub fn name(self) -> (r: &'static str)
        ensures
            r@ == self.text(),
    {
        match self {
            PsbValueKind::Null => "Null",
            PsbValueKind::Bool => "Bool",
            PsbValueKind::Int => "Int",
            PsbValueKind::Float => "Float",
            PsbValueKind::Double => "Double",
            PsbValueKind::String => "String",
            PsbValueKind::Resource => "Resource",
            PsbValueKind::ExtraResource => "ExtraResource",
            PsbValueKind::Compiler => "Compiler",
            PsbValueKind::List => "List",
            PsbValueKind::Object => "Object",
        }
    }
}

/// A path in a document, what stands there, and how many members it has.
#[derive(Debug)]
pub struct PsbPathEntry {
    pub path: String,
    pub kind: PsbValueKind,
    pub len: Option<usize>,
}

/// The line of a path.
pub open spec fn path_line(e: PsbPathEntry) -> Seq<char> {
    match e.len {
        Some(len) => e.path@ + "\t"@ + e.kind.text() + "\tlen="@ + decimal(len as int) + "\n"@,
        None => e.path@ + "\t"@ + e.kind.text() + "\n"@,
    }
}

pub open spec fn path_lines(entries: Seq<PsbPathEntry>) -> Seq<char>
    decreases entries.len(),
{
    if entries.len() == 0 {
        Seq::empty()
    } else {
        path_lines(entries.drop_last()) + path_line(entries.last())
    }
}

/// Writes the paths of a document, one on a line.
pub fn write_schema_dump(entries: &Vec<PsbPathEntry>) -> (r: String)
    ensures
        r@ == path_lines(entries@),
{
    let mut out = String::new();
    let mut i: usize = 0;
    while i < entries.len()
        invariant
            i <= entries@.len(),
            out@ == path_lines(entries@.take(i as int)),
        decreases entries@.len() - i,
    {
        assert(entries@.take(i + 1).drop_last() =~= entries@.take(i as int));
        let ghost before = out@;
        let e = &entries[i];
        out.append(e.path.as_str());
        out.append("\t");
        out.append(e.kind.name());
        match e.len {
            Some(len) => {
                out.append("\tlen=");
                out.append(decimal_u64(len as u64).as_str());
            },
            None => {},
        }
        out.append("\n");
        assert(out@ =~= before + path_line(*e));
        i = i + 1;
    }
    assert(entries@.take(i as int) =~= entries@);
    out
}

/// The resources that a document refers to.
#[derive(Debug)]
pub struct PsbResourceRefs {
    pub resources: Vec<u32>,
    pub extra_resources: Vec<u32>,
}

pub open spec fn ref_lines(head: Seq<char>, refs: Seq<u32>) -> Seq<char>
    decreases refs.len(),
{
    if refs.len() == 0 {
        Seq::empty()
    } else {
        ref_lines(head, refs.drop_last()) + head + "("@ + decimal(refs.last() as int) + ")\n"@
    }
}

fn push_refs(out: &mut String, head: &str, refs: &Vec<u32>)
    ensures
        final(out)@ == old(out)@ + ref_lines(head@, refs@),
{
    let ghost start = out@;
    let mut i: usize = 0;
    assert(start + ref_lines(head@, refs@.take(0)) =~= start);
    while i < refs.len()
        invariant
            i <= refs@.len(),
            out@ == start + ref_lines(head@, refs@.take(i as int)),
        decreases refs@.len() - i,
    {
        assert(refs@.take(i + 1).drop_last() =~= refs@.take(i as int));
        out.append(head);
        out.append("(");
        out.append(decimal_u64(refs[i] as u64).as_str());
        out.append(")\n");
        assert(out@ =~= start + ref_lines(head@, refs@.take(i + 1)));
        i = i + 1;
    }
    assert(refs@.take(i as int) =~= refs@);
}

/// Writes the resources that a document refers to.
pub fn write_resource_refs(refs: &PsbResourceRefs) -> (r: String)
    ensures
        r@ == field_line("resources"@, decimal(refs.resources@.len() as int)) + ref_lines(
            "resource"@,
            refs.resources@,
        ) + field_line("extra_resources"@, decimal(refs.extra_resources@.len() as int))
            + ref_lines("extra_resource"@, refs.extra_resources@),
{
    let mut out = String::new();
    push_line(&mut out, "resources", decimal_u64(refs.resources.len() as u64).as_str());
    assert(out@ =~= field_line("resources"@, decimal(refs.resources@.len() as int)));
    push_refs(&mut out, "resource", &refs.resources);
    push_line(
        &mut out,
        "extra_resources",
        decimal_u64(refs.extra_resources.len() as u64).as_str(),
    );
    push_refs(&mut out, "extra_resource", &refs.extra_resources);
    out
}

} // verus!
