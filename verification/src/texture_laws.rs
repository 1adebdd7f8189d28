//! What holds of the pixels of a texture: which byte becomes which color, what packed
//! runs hold, and where a row of pixels stands.

use crate::combinator::{u32_le, u64_le};
use crate::frame_plan::{padded_row, without_padding};
use crate::texture::{lemma_pixels_len, pixels, repeated, unpacked, Raw32ChannelOrder, RlError};
use vstd::arithmetic::div_mod::{lemma_fundamental_div_mod, lemma_fundamental_div_mod_converse};
use vstd::prelude::*;

verus! {

/// Every pixel keeps its place and its green byte. Orders that begin with blue swap the
/// first and the third byte, the others keep them; only orders with an alpha keep the
/// fourth.
pub proof fn lemma_pixel_bytes(bytes: Seq<u8>, n: nat, order: Raw32ChannelOrder, i: nat)
    requires
        bytes.len() == 4 * n,
        i < n,
    ensures
        ({
            let r = pixels(bytes, n, order);
            let at = 4 * i as int;
            let blue_first = order is Bgra || order is Bgrx;
            let alpha = order is Bgra || order is Rgba;
            &&& r.len() == bytes.len()
            &&& r[at] == bytes[if blue_first { at + 2 } else { at }]
            &&& r[at + 1] == bytes[at + 1]
            &&& r[at + 2] == bytes[if blue_first { at } else { at + 2 }]
            &&& r[at + 3] == if alpha { bytes[at + 3] } else { 0xff }
        }),
{
    lemma_pixel_bytes_of_more(bytes, n, order, i);
}

proof fn lemma_pixel_bytes_of_more(bytes: Seq<u8>, n: nat, order: Raw32ChannelOrder, i: nat)
    requires
        bytes.len() >= 4 * n,
        i < n,
    ensures
        ({
            let r = pixels(bytes, n, order);
            let at = 4 * i as int;
            let blue_first = order is Bgra || order is Bgrx;
            let alpha = order is Bgra || order is Rgba;
            &&& r.len() == 4 * n
            &&& r[at] == bytes[if blue_first { at + 2 } else { at }]
            &&& r[at + 1] == bytes[at + 1]
            &&& r[at + 2] == bytes[if blue_first { at } else { at + 2 }]
            &&& r[at + 3] == if alpha { bytes[at + 3] } else { 0xff }
        }),
    decreases n,
{
    lemma_pixels_len(bytes, n, order);
    lemma_pixels_len(bytes, (n - 1) as nat, order);
    if i < n - 1 {
        lemma_pixel_bytes_of_more(bytes, (n - 1) as nat, order, i);
    }
}

/// A run of units: some as they are, or one of them a number of times.
pub enum Run {
    Copy { units: Seq<u8> },
    Repeat { unit: Seq<u8>, times: nat },
}

impl Run {
    /// Whether a run of units of `align` bytes can be packed: up to 128 units as they
    /// are, or one unit from 3 to 130 times.
    pub open spec fn fits(self, align: nat) -> bool {
        match self {
            Run::Copy { units } => align > 0 && align <= units.len() <= 128 * align && units.len()
                % align == 0,
            Run::Repeat { unit, times } => align > 0 && unit.len() == align && 3 <= times <= 130,
        }
    }

    /// The bytes of the run.
    pub open spec fn meant(self) -> Seq<u8> {
        match self {
            Run::Copy { units } => units,
            Run::Repeat { unit, times } => Seq::new(
                times * unit.len(),
                |i: int| unit[i % (unit.len() as int)],
            ),
        }
    }

    /// The bytes of the packed run: its count less the least count, with the highest bit
    /// for a repeated unit, then the units.
    pub open spec fn packed(self, align: nat) -> Seq<u8> {
        match self {
            Run::Copy { units } => seq![(units.len() / align - 1) as u8] + units,
            Run::Repeat { unit, times } => seq![(128 + (times - 3)) as u8] + unit,
        }
    }
}

/// The bytes of a row of runs.
pub open spec fn meant_bytes(runs: Seq<Run>) -> Seq<u8>
    decreases runs.len(),
{
    if runs.len() == 0 {
        Seq::empty()
    } else {
        runs[0].meant() + meant_bytes(runs.drop_first())
    }
}

/// The bytes of a row of packed runs.
pub open spec fn packed_bytes(runs: Seq<Run>, align: nat) -> Seq<u8>
    decreases runs.len(),
{
    if runs.len() == 0 {
        Seq::empty()
    } else {
        runs[0].packed(align) + packed_bytes(runs.drop_first(), align)
    }
}

proof fn lemma_repeated(unit: Seq<u8>, times: nat)
    requires
        unit.len() > 0,
    ensures
        repeated(unit, times) == (Run::Repeat { unit, times }).meant(),
    decreases times,
{
    let whole = (Run::Repeat { unit, times }).meant();
    let d = unit.len() as int;
    if times == 0 {
        assert(0 * d == 0) by (nonlinear_arith);
        assert(whole =~= Seq::empty());
    } else {
        let fewer = (times - 1) as nat;
        lemma_repeated(unit, fewer);
        assert(times * d == fewer * d + d) by (nonlinear_arith)
            requires
                times == fewer + 1,
        ;
        assert(fewer * d >= 0) by (nonlinear_arith)
            requires
                d > 0,
        ;
        let parts = repeated(unit, fewer) + unit;
        assert(parts.len() == whole.len());
        assert forall|i: int| 0 <= i < parts.len() implies parts[i] == whole[i] by {
            if i >= fewer * d {
                let c = i - fewer * d;
                assert(i == fewer * d + c);
                lemma_fundamental_div_mod_converse(i, d, fewer as int, c);
            }
        }
        assert(parts =~= whole);
    }
}

proof fn lemma_unpacked_from(
    bytes: Seq<u8>,
    pos: int,
    align: nat,
    out: Seq<u8>,
    runs: Seq<Run>,
)
    requires
        0 <= pos <= bytes.len() <= usize::MAX,
        forall|i: int| 0 <= i < runs.len() ==> (#[trigger] runs[i]).fits(align),
        bytes.subrange(pos, bytes.len() as int) == packed_bytes(runs, align),
    ensures
        unpacked(bytes, pos, align, out.len() + meant_bytes(runs).len(), out)
            == Ok::<Seq<u8>, RlError>(out + meant_bytes(runs)),
    decreases runs.len(),
{
    let expected = out.len() + meant_bytes(runs).len();
    let left = bytes.subrange(pos, bytes.len() as int);
    if runs.len() == 0 {
        assert(left.len() == 0);
        assert(out + meant_bytes(runs) =~= out);
    } else {
        let run = runs[0];
        let rest = runs.drop_first();
        assert(run.fits(align));
        assert forall|i: int| 0 <= i < rest.len() implies (#[trigger] rest[i]).fits(align) by {
            assert(rest[i] == runs[i + 1]);
        }
        let own = run.packed(align);
        assert(left =~= own + packed_bytes(rest, align));
        let end = pos + own.len();
        assert(bytes.subrange(end, bytes.len() as int) =~= packed_bytes(rest, align)) by {
            assert(left.subrange(own.len() as int, left.len() as int) =~= packed_bytes(
                rest,
                align,
            ));
        }
        let block = bytes.subrange(pos + 1, end);
        assert(block =~= own.subrange(1, own.len() as int)) by {
            assert forall|k: int| 0 <= k < block.len() implies block[k] == own[k + 1] by {
                assert(left[k + 1] == own[k + 1]);
            }
        }
        assert(bytes[pos] == left[0] && left[0] == own[0]);
        let longer = out + run.meant();
        match run {
            Run::Copy { units } => {
                assert(block =~= units);
                let n = units.len() as int / align as int;
                lemma_fundamental_div_mod(units.len() as int, align as int);
                assert(1 <= n <= 128) by (nonlinear_arith)
                    requires
                        units.len() == align * n,
                        0 < align <= units.len() <= 128 * align,
                ;
                assert(n * align == units.len()) by (nonlinear_arith)
                    requires
                        units.len() == align * n,
                ;
                assert(bytes[pos] as int == n - 1);
            },
            Run::Repeat { unit, times } => {
                assert(block =~= unit);
                assert(bytes[pos] as int == times + 125);
                lemma_repeated(unit, times);
            },
        }
        assert(longer.len() <= expected);
        lemma_unpacked_from(bytes, end, align, longer, rest);
        assert(out + meant_bytes(runs) =~= longer + meant_bytes(rest));
    }
}

/// What packed runs are unpacked to is the bytes of the runs.
pub proof fn lemma_packed_runs_unpack(align: nat, runs: Seq<Run>)
    requires
        forall|i: int| 0 <= i < runs.len() ==> (#[trigger] runs[i]).fits(align),
        packed_bytes(runs, align).len() <= usize::MAX,
    ensures
        unpacked(
            packed_bytes(runs, align),
            0,
            align,
            meant_bytes(runs).len(),
            Seq::empty(),
        ) == Ok::<Seq<u8>, RlError>(meant_bytes(runs)),
{
    let bytes = packed_bytes(runs, align);
    assert(bytes.subrange(0, bytes.len() as int) =~= bytes);
    lemma_unpacked_from(bytes, 0, align, Seq::empty(), runs);
    assert(Seq::<u8>::empty() + meant_bytes(runs) =~= meant_bytes(runs));
}

/// A padded row has room for its pixels, ends at a whole multiple of 256 bytes and at the
/// first such place.
pub proof fn lemma_padded_row(width: u32)
    ensures
        padded_row(width) % 256 == 0,
        4 * width <= padded_row(width) < 4 * width + 256,
{
}

/// Every byte of a row is the byte at its column of that row of the padded buffer.
pub proof fn lemma_rows_keep_their_bytes(data: Seq<u8>, width: u32, height: nat, y: nat, x: nat)
    requires
        height * padded_row(width) <= data.len(),
        y < height,
        x < 4 * width,
    ensures
        without_padding(data, width, height).len() == height * (4 * width),
        without_padding(data, width, height)[y * (4 * width) + x] == data[y * padded_row(width)
            + x],
    decreases height,
{
    let row = padded_row(width);
    let fewer = (height - 1) as nat;
    let used = 4 * width as int;
    assert(height * row == fewer * row + row && height * used == fewer * used + used && fewer * row
        >= 0 && fewer * used >= 0) by (nonlinear_arith)
        requires
            height == fewer + 1,
            row >= 0,
            used >= 0,
    ;
    if fewer == 0 {
        assert(fewer * row == 0 && fewer * used == 0) by (nonlinear_arith)
            requires
                fewer == 0,
        ;
        assert(without_padding(data, width, fewer).len() == 0);
    } else if y < fewer {
        lemma_rows_keep_their_bytes(data, width, fewer, y, x);
        assert(y * used + x < fewer * used) by (nonlinear_arith)
            requires
                y + 1 <= fewer,
                x < used,
        ;
        assert(y * used >= 0) by (nonlinear_arith)
            requires
                used >= 0,
        ;
    } else {
        lemma_rows_keep_their_bytes(data, width, fewer, 0, x);
    }
}

/// The bytes of a little-endian word, from its lowest up.
pub proof fn lemma_word_bytes(b: Seq<u8>, at: int)
    ensures
        u32_le(b, at) % 0x100 == b[at],
        u32_le(b, at) / 0x100 % 0x100 == b[at + 1],
        u32_le(b, at) / 0x1_0000 % 0x100 == b[at + 2],
        u32_le(b, at) / 0x100_0000 == b[at + 3],
        u64_le(b, at) % 0x1_0000_0000 == u32_le(b, at),
        u64_le(b, at) / 0x1_0000_0000 == u32_le(b, at + 4),
{
}

} // verus!
