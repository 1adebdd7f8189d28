//! The container of a PSB document: header, tables and resource ranges.

use crate::value::PsbValue;
use vstd::prelude::*;
use vstd::slice::slice_subrange;

verus! {

/// The first three words of the Emote key state, which are fixed.
pub const EMOTE_PSB_KEY0: u32 = 0x075B_CD15;

pub const EMOTE_PSB_KEY1: u32 = 0x159A_55E5;

pub const EMOTE_PSB_KEY2: u32 = 0x1F12_3BB5;

/// The last two words of the Emote key state, behind the one that a user gives.
pub const EMOTE_PSB_KEY4: u32 = 0;

pub const EMOTE_PSB_KEY5: u32 = 0;

/// The key state of an encrypted document.
#[derive(Clone, Copy, Debug, PartialEq, Eq, Structural)]
pub struct PsbDecryptionKey {
    pub key0: u32,
    pub key1: u32,
    pub key2: u32,
    pub key3: u32,
    pub key4: u32,
    pub key5: u32,
}

impl PsbDecryptionKey {
    /// The key state of an Emote document: only the fourth word varies.
    #[verifier::allow_in_spec]
    pub fn emote_key(key: u32) -> PsbDecryptionKey
        returns
            (PsbDecryptionKey {
                key0: EMOTE_PSB_KEY0,
                key1: EMOTE_PSB_KEY1,
                key2: EMOTE_PSB_KEY2,
                key3: key,
                key4: EMOTE_PSB_KEY4,
                key5: EMOTE_PSB_KEY5,
            }),
    {
        PsbDecryptionKey {
            key0: EMOTE_PSB_KEY0,
            key1: EMOTE_PSB_KEY1,
            key2: EMOTE_PSB_KEY2,
            key3: key,
            key4: EMOTE_PSB_KEY4,
            key5: EMOTE_PSB_KEY5,
        }
    }
}

/// How raw input is turned into a plain document.
#[derive(Clone, Copy, Debug, PartialEq, Eq, Structural)]
pub struct PsbNormalizeOptions {
    pub decrypt_key: Option<PsbDecryptionKey>,
    pub decode_mdf: bool,
    pub decode_lz4: bool,
}

impl Default for PsbNormalizeOptions {
    /// No key, and both containers unwrapped.
    fn default() -> (r: PsbNormalizeOptions)
        ensures
            r == (PsbNormalizeOptions { decrypt_key: None, decode_mdf: true, decode_lz4: true }),
    {
        PsbNormalizeOptions { decrypt_key: None, decode_mdf: true, decode_lz4: true }
    }
}

/// Where a resource lies in the document.
#[derive(Clone, Copy, Debug, PartialEq, Eq, Structural)]
pub struct PsbResourceRange {
    pub offset: u64,
    pub length: u64,
}

/// The header of a document.
#[derive(Clone, Copy, Debug, PartialEq, Eq, Structural)]
pub struct PsbHeader {
    pub signature: u32,
    pub version: u16,
    pub flags: u16,
    pub header_offset: u32,
    pub name_offset: u32,
    pub string_offset: u32,
    pub string_data_offset: u32,
    pub resource_offset: u32,
    pub resource_length_offset: u32,
    pub resource_data_offset: u32,
    pub root_offset: u32,
    pub extra: Option<u32>,
}

/// A parsed document.
#[derive(Clone, Debug)]
pub struct PsbFile {
    pub version: u16,
    pub header: PsbHeader,
    pub encrypted: bool,
    pub names: Vec<String>,
    pub strings: Vec<String>,
    pub resources: Vec<PsbResourceRange>,
    pub extra_resources: Vec<PsbResourceRange>,
    pub root: PsbValue,
}

/// Why the bytes of a range cannot be had.
#[derive(Clone, Copy, Debug, PartialEq, Eq, Structural)]
pub enum RangeError {
    /// The end of the range does not fit in a machine word.
    Overflow,
    /// The range reaches beyond the data.
    OutsideData,
}

impl RangeError {
    /// The message for users.
    pub open spec fn text(self) -> Seq<char> {
        match self {
            RangeError::Overflow => "resource range overflow"@,
            RangeError::OutsideData => "resource range outside source data"@,
        }
    }

    pub fn message(self) -> (r: String)
        ensures
            r@ == self.text(),
    {
        match self {
            RangeError::Overflow => "resource range overflow".to_owned(),
            RangeError::OutsideData => "resource range outside source data".to_owned(),
        }
    }
}

/// The bytes of a range, where it lies in the data.
pub open spec fn bytes_in(data: Seq<u8>, range: PsbResourceRange) -> Result<Seq<u8>, RangeError> {
    let end = range.offset + range.length;
    if range.offset > usize::MAX || range.length > usize::MAX || end > usize::MAX {
        Err(RangeError::Overflow)
    } else if end > data.len() {
        Err(RangeError::OutsideData)
    } else {
        Ok(data.subrange(range.offset as int, end))
    }
}

/// The bytes of a range.
pub fn range_bytes<'a>(data: &'a [u8], range: PsbResourceRange) -> (r: Result<
    &'a [u8],
    RangeError,
>)
    ensures
        match r {
            Ok(bytes) => bytes_in(data@, range) == Ok::<Seq<u8>, RangeError>(bytes@),
            Err(e) => bytes_in(data@, range) == Err::<Seq<u8>, RangeError>(e),
        },
{
    let limit: u128 = usize::MAX as u128;
    let end: u128 = range.offset as u128 + range.length as u128;
    if end > limit {
        return Err(RangeError::Overflow);
    }
    if end > data.len() as u128 {
        return Err(RangeError::OutsideData);
    }
    Ok(slice_subrange(data, range.offset as usize, end as usize))
}

/// The bytes of the resource with the given index, where there are any.
pub open spec fn resource_at(
    resources: Seq<PsbResourceRange>,
    data: Seq<u8>,
    index: int,
) -> Option<Seq<u8>> {
    if 0 <= index < resources.len() {
        match bytes_in(data, resources[index]) {
            Ok(bytes) => Some(bytes),
            Err(_) => None,
        }
    } else {
        None
    }
}

impl PsbFile {
    pub fn resource_bytes<'a>(&self, data: &'a [u8], index: usize) -> (r: Option<&'a [u8]>)
        ensures
            match r {
                Some(bytes) => resource_at(self.resources@, data@, index as int) == Some(bytes@),
                None => resource_at(self.resources@, data@, index as int) is None,
            },
    {
        if index >= self.resources.len() {
            return None;
        }
        match range_bytes(data, self.resources[index]) {
            Ok(bytes) => Some(bytes),
            Err(_e) => None,
        }
    }
}

} // verus!
