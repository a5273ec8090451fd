//! Risen 1/2 `._ximg` texture wrapper.
//!
//! Layout (little-endian):
//! ```text
//! offset 0  : "GR01IM04"            8 bytes, magic
//! offset 8  : i32 = 40              resource header size (constant)
//! offset 12 : i32                   property block size
//! offset 16 : i32                   absolute offset to the embedded DDS blob
//! offset 20 : eCImageResource2      property object: Width/Height/SkipMips/PixelFormat (TLV)
//! offset N  : standard DDS file     to end of file
//! ```
//!
//! Each scalar property is stored as
//! `[u16 name_len][name][u16 type_len][type name][u16 tag][u32 data_len][value bytes]`;
//! a property is found by the first occurrence of its name anywhere in the buffer.

use vstd::prelude::*;
use vstd::slice::{slice_subrange, slice_to_vec};
use crate::le::{u16_at, u32_at, read_u16_at, read_u32_at, set_u32_at, with_u32_at};
use crate::text::{decoded_name, string_from_utf8_lossy};
use vstd::utf8::encode_utf8;

verus! {

/// The four properties this module reads or patches.
#[derive(Debug, Clone, Copy, PartialEq, Eq, Structural)]
pub enum XimgProperty {
    Width,
    Height,
    SkipMips,
    PixelFormat,
}

/// Why an `._ximg` buffer was refused.
#[derive(Debug, Clone, Copy, PartialEq, Eq, Structural)]
pub enum XimgError {
    /// Shorter than the header, or without the `GR01IM04` magic.
    NotXimg,
    /// The DDS offset field does not point at a `DDS ` signature.
    NoDdsSignature,
    /// The property's name occurs nowhere, or its slot runs past the end.
    PropertyNotFound(XimgProperty),
    /// The property's 4-byte value runs past the end.
    ValueTruncated(XimgProperty),
    /// The `PixelFormat` value is shorter than its 2-byte marker.
    PixelFormatTooShort,
}

/// The header fields and image size of an `._ximg`.
#[derive(Debug, Clone, Copy, PartialEq, Eq, Structural)]
pub struct XimgInfo {
    pub header_const: i32,
    pub property_block_size: i32,
    pub dds_offset: usize,
    pub width: i32,
    pub height: i32,
}

/// `GR01IM04`.
pub open spec fn ximg_magic() -> Seq<u8> {
    seq![0x47u8, 0x52, 0x30, 0x31, 0x49, 0x4d, 0x30, 0x34]
}

/// `DDS `.
pub open spec fn dds_signature() -> Seq<u8> {
    seq![0x44u8, 0x44, 0x53, 0x20]
}

/// The ASCII name a property is stored under.
pub open spec fn property_name(p: XimgProperty) -> Seq<u8> {
    match p {
        XimgProperty::Width => seq![0x57u8, 0x69, 0x64, 0x74, 0x68],
        XimgProperty::Height => seq![0x48u8, 0x65, 0x69, 0x67, 0x68, 0x74],
        XimgProperty::SkipMips => seq![0x53u8, 0x6b, 0x69, 0x70, 0x4d, 0x69, 0x70, 0x73],
        XimgProperty::PixelFormat => seq![
            0x50u8, 0x69, 0x78, 0x65, 0x6c, 0x46, 0x6f, 0x72, 0x6d, 0x61, 0x74,
        ],
    }
}

fn name_bytes(p: XimgProperty) -> (v: Vec<u8>)
    ensures
        v@ == property_name(p),
{
    let v = match p {
        XimgProperty::Width => vec![0x57u8, 0x69, 0x64, 0x74, 0x68],
        XimgProperty::Height => vec![0x48u8, 0x65, 0x69, 0x67, 0x68, 0x74],
        XimgProperty::SkipMips => vec![0x53u8, 0x6b, 0x69, 0x70, 0x4d, 0x69, 0x70, 0x73],
        XimgProperty::PixelFormat => vec![
            0x50u8, 0x69, 0x78, 0x65, 0x6c, 0x46, 0x6f, 0x72, 0x6d, 0x61, 0x74,
        ],
    };
    assert(v@ =~= property_name(p));
    v
}

impl XimgError {
    /// A one-line description naming the field at fault.
    pub fn message(&self) -> (s: String)
        ensures
            s@ == error_text(*self),
    {
        match self {
            XimgError::NotXimg => String::from_str("not a Risen 1/2 GR01IM04 ._ximg file"),
            XimgError::NoDdsSignature => String::from_str("dds_offset field does not point at a DDS signature"),
            XimgError::PropertyNotFound(XimgProperty::Width) => String::from_str("Width property not found"),
            XimgError::PropertyNotFound(XimgProperty::Height) => String::from_str("Height property not found"),
            XimgError::PropertyNotFound(XimgProperty::SkipMips) => String::from_str("SkipMips property not found"),
            XimgError::PropertyNotFound(XimgProperty::PixelFormat) => String::from_str("PixelFormat property not found"),
            XimgError::ValueTruncated(XimgProperty::Width) => String::from_str("Width value truncated"),
            XimgError::ValueTruncated(XimgProperty::Height) => String::from_str("Height value truncated"),
            XimgError::ValueTruncated(XimgProperty::SkipMips) => String::from_str("SkipMips value truncated"),
            XimgError::ValueTruncated(XimgProperty::PixelFormat) => String::from_str("PixelFormat value truncated"),
            XimgError::PixelFormatTooShort => String::from_str("PixelFormat value too short"),
        }
    }
}

/// The text of an error's message.
pub open spec fn error_text(e: XimgError) -> Seq<char> {
    match e {
        XimgError::NotXimg => "not a Risen 1/2 GR01IM04 ._ximg file"@,
        XimgError::NoDdsSignature => "dds_offset field does not point at a DDS signature"@,
        XimgError::PropertyNotFound(XimgProperty::Width) => "Width property not found"@,
        XimgError::PropertyNotFound(XimgProperty::Height) => "Height property not found"@,
        XimgError::PropertyNotFound(XimgProperty::SkipMips) => "SkipMips property not found"@,
        XimgError::PropertyNotFound(XimgProperty::PixelFormat) => "PixelFormat property not found"@,
        XimgError::ValueTruncated(XimgProperty::Width) => "Width value truncated"@,
        XimgError::ValueTruncated(XimgProperty::Height) => "Height value truncated"@,
        XimgError::ValueTruncated(XimgProperty::SkipMips) => "SkipMips value truncated"@,
        XimgError::ValueTruncated(XimgProperty::PixelFormat) => "PixelFormat value truncated"@,
        XimgError::PixelFormatTooShort => "PixelFormat value too short"@,
    }
}

// ---------------------------------------------------------------------------------------
// Finding properties
// ---------------------------------------------------------------------------------------

/// The first position at or after `i` where `needle` occurs in `hay`.
pub open spec fn match_from(hay: Seq<u8>, needle: Seq<u8>, i: int) -> Option<int>
    decreases hay.len() - i,
{
    if i < 0 || i >= hay.len() || i + needle.len() > hay.len() {
        None
    } else if hay.subrange(i, i + needle.len()) == needle {
        Some(i)
    } else {
        match_from(hay, needle, i + 1)
    }
}

pub(crate) proof fn lemma_match_from_found(hay: Seq<u8>, needle: Seq<u8>, i: int, k: int)
    requires
        match_from(hay, needle, i) == Some(k),
    ensures
        i <= k,
        k + needle.len() <= hay.len(),
        hay.subrange(k, k + needle.len()) == needle,
    decreases hay.len() - i,
{
    if !(i < 0 || i >= hay.len() || i + needle.len() > hay.len()) && hay.subrange(i, i + needle.len()) != needle {
        lemma_match_from_found(hay, needle, i + 1, k);
    }
}

/// The first position where `needle` occurs in `hay`.
pub open spec fn first_match(hay: Seq<u8>, needle: Seq<u8>) -> Option<int> {
    match_from(hay, needle, 0)
}

/// A property's value slot: where its `u32` data length sits, where the value starts, and
/// the data length.
pub struct SlotSpec {
    pub datalen_offset: int,
    pub value_offset: int,
    pub data_len: int,
}

/// The value slot of the property named `name`: after the first occurrence of the name come
/// a `u16` type-name length, the type name, a 2-byte tag, then the `u32` data length and the
/// value. `None` when the name does not occur or the slot header runs past the end.
pub open spec fn slot_of(d: Seq<u8>, name: Seq<u8>) -> Option<SlotSpec> {
    match first_match(d, name) {
        None => None,
        Some(idx) => {
            let after_name = idx + name.len();
            if after_name + 2 > d.len() {
                None
            } else {
                let dl = after_name + 2 + u16_at(d, after_name) + 2;
                if dl + 4 > d.len() {
                    None
                } else {
                    Some(SlotSpec { datalen_offset: dl, value_offset: dl + 4, data_len: u32_at(d, dl) as int })
                }
            }
        },
    }
}

/// A located value slot.
struct PropertySlot {
    datalen_offset: usize,
    value_offset: usize,
    data_len: usize,
}

/// Whether `needle` occurs at `i` in `hay`.
fn occurs_at(hay: &[u8], needle: &[u8], i: usize) -> (b: bool)
    requires
        i + needle@.len() <= hay@.len(),
    ensures
        b == (hay@.subrange(i as int, i + needle@.len()) == needle@),
{
    let hl = hay.len();
    let mut k: usize = 0;
    while k < needle.len()
        invariant
            k <= needle@.len(),
            hl == hay@.len(),
            i + needle@.len() <= hay@.len(),
            forall|j: int| 0 <= j < k ==> hay@[i + j] == needle@[j],
        decreases needle.len() - k,
    {
        if hay[i + k] != needle[k] {
            proof {
                assert(hay@.subrange(i as int, i + needle@.len())[k as int] != needle@[k as int]);
            }
            return false;
        }
        k += 1;
    }
    assert(hay@.subrange(i as int, i + needle@.len()) =~= needle@);
    true
}

/// The first position where `needle` occurs in `hay`.
fn find_subslice(hay: &[u8], needle: &[u8]) -> (r: Option<usize>)
    requires
        needle@.len() > 0,
    ensures
        r is None ==> first_match(hay@, needle@) is None,
        r matches Some(k) ==> first_match(hay@, needle@) == Some(k as int),
{
    let n = needle.len();
    let hl = hay.len();
    if n > hl {
        return None;
    }
    let mut i: usize = 0;
    while i <= hl - n
        invariant
            n == needle@.len(),
            n > 0,
            hl == hay@.len(),
            n <= hay@.len(),
            i <= hay@.len() - n + 1,
            first_match(hay@, needle@) == match_from(hay@, needle@, i as int),
        decreases hl - n + 1 - i,
    {
        if occurs_at(hay, needle, i) {
            return Some(i);
        }
        i += 1;
    }
    None
}

/// Locates a property's value slot (see `slot_of`).
fn find_property_slot(data: &[u8], p: XimgProperty) -> (r: Option<PropertySlot>)
    ensures
        match slot_of(data@, property_name(p)) {
            None => r is None,
            Some(s) => r matches Some(t) && t.datalen_offset == s.datalen_offset && t.value_offset
                == s.value_offset && t.data_len == s.data_len,
        },
        r matches Some(t) ==> t.value_offset <= data@.len(),
{
    let name = name_bytes(p);
    assert(name@.len() > 0);
    let idx = match find_subslice(data, name.as_slice()) {
        None => return None,
        Some(i) => i,
    };
    proof {
        lemma_match_from_found(data@, name@, 0, idx as int);
    }
    let dlen = data.len();
    assert(idx + name@.len() <= dlen);
    let after_name = idx + name.len();
    let type_len = match read_u16_at(data, after_name) {
        None => return None,
        Some(t) => t as usize,
    };
    if data.len() - (after_name + 2) < type_len + 2 + 4 {
        return None;
    }
    let dl = after_name + 2 + type_len + 2;
    let data_len = read_u32_at(data, dl).unwrap() as usize;
    Some(PropertySlot { datalen_offset: dl, value_offset: dl + 4, data_len })
}

// ---------------------------------------------------------------------------------------
// Parsing
// ---------------------------------------------------------------------------------------

/// The DDS offset field as the format stores it: an `i32`, taken as a `usize`.
pub open spec fn dds_offset_field(d: Seq<u8>) -> usize {
    (u32_at(d, 16) as i32) as usize
}

/// Whether the buffer passes the magic check (parsing then reads the DDS offset).
pub open spec fn has_ximg_header(d: Seq<u8>) -> bool {
    d.len() >= 20 && d.subrange(0, 8) == ximg_magic()
}

/// What parsing a buffer gives.
pub open spec fn parse_spec(d: Seq<u8>) -> Result<XimgInfo, XimgError> {
    if !has_ximg_header(d) {
        Err(XimgError::NotXimg)
    } else {
        let dds = dds_offset_field(d) as int;
        if d.len() < dds + 4 || d.subrange(dds, dds + 4) != dds_signature() {
            Err(XimgError::NoDdsSignature)
        } else {
            match slot_of(d, property_name(XimgProperty::Width)) {
                None => Err(XimgError::PropertyNotFound(XimgProperty::Width)),
                Some(w) => match slot_of(d, property_name(XimgProperty::Height)) {
                    None => Err(XimgError::PropertyNotFound(XimgProperty::Height)),
                    Some(h) => if w.value_offset + 4 > d.len() {
                        Err(XimgError::ValueTruncated(XimgProperty::Width))
                    } else if h.value_offset + 4 > d.len() {
                        Err(XimgError::ValueTruncated(XimgProperty::Height))
                    } else {
                        Ok(
                            XimgInfo {
                                header_const: u32_at(d, 8) as i32,
                                property_block_size: u32_at(d, 12) as i32,
                                dds_offset: dds as usize,
                                width: u32_at(d, w.value_offset) as i32,
                                height: u32_at(d, h.value_offset) as i32,
                            },
                        )
                    },
                },
            }
        }
    }
}

fn is_magic(data: &[u8]) -> (b: bool)
    requires
        data@.len() >= 8,
    ensures
        b == (data@.subrange(0, 8) == ximg_magic()),
{
    let m: [u8; 8] = [0x47u8, 0x52, 0x30, 0x31, 0x49, 0x4d, 0x30, 0x34];
    proof {
        assert(m@ =~= ximg_magic());
    }
    occurs_at(data, &m, 0)
}

/// Reads the header fields and the image size; fails as `parse_spec` says.
pub fn parse(data: &[u8]) -> (r: Result<XimgInfo, XimgError>)
    ensures
        r == parse_spec(data@),
{
    if data.len() < 20 || !is_magic(data) {
        return Err(XimgError::NotXimg);
    }
    let header_const = read_u32_at(data, 8).unwrap() as i32;
    let property_block_size = read_u32_at(data, 12).unwrap() as i32;
    let dds_offset = (read_u32_at(data, 16).unwrap() as i32) as usize;
    let sig: [u8; 4] = [0x44u8, 0x44, 0x53, 0x20];
    proof {
        assert(sig@ =~= dds_signature());
    }
    if dds_offset > data.len() || data.len() - dds_offset < 4 || !occurs_at(data, &sig, dds_offset) {
        return Err(XimgError::NoDdsSignature);
    }
    let w = match find_property_slot(data, XimgProperty::Width) {
        None => return Err(XimgError::PropertyNotFound(XimgProperty::Width)),
        Some(s) => s,
    };
    let h = match find_property_slot(data, XimgProperty::Height) {
        None => return Err(XimgError::PropertyNotFound(XimgProperty::Height)),
        Some(s) => s,
    };
    let width = match read_u32_at(data, w.value_offset) {
        None => return Err(XimgError::ValueTruncated(XimgProperty::Width)),
        Some(v) => v as i32,
    };
    let height = match read_u32_at(data, h.value_offset) {
        None => return Err(XimgError::ValueTruncated(XimgProperty::Height)),
        Some(v) => v as i32,
    };
    Ok(XimgInfo { header_const, property_block_size, dds_offset, width, height })
}

/// The embedded DDS payload: everything from the DDS offset on.
pub fn extract_dds(data: &[u8]) -> (r: Result<&[u8], XimgError>)
    ensures
        match parse_spec(data@) {
            Err(e) => r == Err::<&[u8], XimgError>(e),
            Ok(info) => r matches Ok(s) && s@ == data@.subrange(info.dds_offset as int, data@.len() as int),
        },
{
    let info = parse(data)?;
    Ok(slice_subrange(data, info.dds_offset, data.len()))
}

// ---------------------------------------------------------------------------------------
// Pixel format
// ---------------------------------------------------------------------------------------

/// Whether reading the pixel format stays inside the buffer: a found `PixelFormat` slot's
/// value lies within it.
pub open spec fn pixel_format_in_bounds(d: Seq<u8>) -> bool {
    match slot_of(d, property_name(XimgProperty::PixelFormat)) {
        None => true,
        Some(s) => s.value_offset + s.data_len <= d.len(),
    }
}

/// What reading the pixel format gives: the value after its 2-byte marker, decoded as text.
pub open spec fn pixel_format_spec(d: Seq<u8>) -> Result<Seq<char>, XimgError> {
    match slot_of(d, property_name(XimgProperty::PixelFormat)) {
        None => Err(XimgError::PropertyNotFound(XimgProperty::PixelFormat)),
        Some(s) => if s.data_len < 2 {
            Err(XimgError::PixelFormatTooShort)
        } else {
            Ok(decoded_name(d.subrange(s.value_offset + 2, s.value_offset + s.data_len)))
        },
    }
}

/// The `PixelFormat` property's format name (`DXT3`, ...).
pub fn read_pixel_format(data: &[u8]) -> (r: Result<String, XimgError>)
    requires
        pixel_format_in_bounds(data@),
    ensures
        match pixel_format_spec(data@) {
            Err(e) => r == Err::<String, XimgError>(e),
            Ok(s) => r matches Ok(t) && t@ == s,
        },
{
    let slot = match find_property_slot(data, XimgProperty::PixelFormat) {
        None => return Err(XimgError::PropertyNotFound(XimgProperty::PixelFormat)),
        Some(s) => s,
    };
    if slot.data_len > data.len() - slot.value_offset {
        proof {
            assert(false);
        }
        return Err(XimgError::PixelFormatTooShort);
    }
    let value = slice_subrange(data, slot.value_offset, slot.value_offset + slot.data_len);
    if value.len() < 2 {
        return Err(XimgError::PixelFormatTooShort);
    }
    let rest = slice_subrange(value, 2, value.len());
    proof {
        assert(rest@ =~= data@.subrange(slot.value_offset + 2, slot.value_offset + slot.data_len));
    }
    Ok(string_from_utf8_lossy(rest))
}

// ---------------------------------------------------------------------------------------
// Replacing the payload
// ---------------------------------------------------------------------------------------

/// What to change when splicing a new DDS payload into an `._ximg`: Width and Height always,
/// SkipMips and the pixel format name when given. Only a pixel format name of another length
/// moves what follows it, the DDS payload included.
#[derive(Debug, Default)]
pub struct ReplaceOptions<'a> {
    pub width: i32,
    pub height: i32,
    pub skip_mips: Option<i32>,
    pub pixel_format: Option<&'a str>,
}

/// `d` with the `i32` at `off` replaced by `v`.
pub open spec fn with_i32_at(d: Seq<u8>, off: int, v: i32) -> Seq<u8> {
    with_u32_at(d, off, v as u32)
}

/// Writes `v` into the 4-byte value slot of property `p`. `None` where the patch is not
/// defined: a slot whose value runs past the end, or no Width or Height slot at all (a
/// missing SkipMips slot is an error instead).
pub open spec fn set_property(d: Seq<u8>, p: XimgProperty, v: i32) -> Option<Result<Seq<u8>, XimgError>> {
    match slot_of(d, property_name(p)) {
        None => if p == XimgProperty::SkipMips {
            Some(Err(XimgError::PropertyNotFound(p)))
        } else {
            None
        },
        Some(s) => if s.value_offset + 4 > d.len() {
            None
        } else {
            Some(Ok(with_i32_at(d, s.value_offset, v)))
        },
    }
}

/// Replaces the `PixelFormat` value by its 2-byte marker followed by `f`, and its data
/// length by the new value's length; gives the new bytes and the size change. `None` where
/// the patch is not defined (a value running past the end).
pub open spec fn patched_pixel_format(d: Seq<u8>, f: Seq<u8>) -> Option<Result<(Seq<u8>, int), XimgError>> {
    match slot_of(d, property_name(XimgProperty::PixelFormat)) {
        None => Some(Err(XimgError::PropertyNotFound(XimgProperty::PixelFormat))),
        Some(s) => if s.data_len < 2 {
            Some(Err(XimgError::PixelFormatTooShort))
        } else if s.value_offset + s.data_len > d.len() {
            None
        } else {
            let nv = seq![d[s.value_offset], d[s.value_offset + 1]] + f;
            let spliced = d.subrange(0, s.value_offset) + nv + d.subrange(
                s.value_offset + s.data_len,
                d.len() as int,
            );
            Some(Ok((with_u32_at(spliced, s.datalen_offset, nv.len() as u32), nv.len() - s.data_len)))
        },
    }
}

/// The options' pixel format name as bytes.
pub open spec fn format_bytes(opts: ReplaceOptions) -> Option<Seq<u8>> {
    match opts.pixel_format {
        Some(f) => Some(encode_utf8(f@)),
        None => None,
    }
}

/// What replacing the payload gives: the header part of `orig` (up to its DDS offset) with
/// Width, Height, then SkipMips and the pixel format patched in that order, the property
/// block size and DDS offset moved by the size change when there is one, then `new_dds`.
/// `None` where replacing is not defined (see `set_property` and `patched_pixel_format`).
pub open spec fn replace_spec(orig: Seq<u8>, opts: ReplaceOptions, new_dds: Seq<u8>) -> Option<Result<Seq<u8>, XimgError>> {
    match parse_spec(orig) {
        Err(e) => Some(Err(e)),
        Ok(info) => {
            let out0 = orig.subrange(0, info.dds_offset as int);
            match set_property(out0, XimgProperty::Width, opts.width) {
                Some(Ok(out1)) => match set_property(out1, XimgProperty::Height, opts.height) {
                    Some(Ok(out2)) => {
                        let step3 = match opts.skip_mips {
                            None => Some(Ok(out2)),
                            Some(m) => set_property(out2, XimgProperty::SkipMips, m),
                        };
                        match step3 {
                            Some(Ok(out3)) => {
                                let step4 = match format_bytes(opts) {
                                    None => Some(Ok((out3, 0int))),
                                    Some(f) => patched_pixel_format(out3, f),
                                };
                                match step4 {
                                    Some(Ok((out4, shift))) => if shift == 0 {
                                        Some(Ok(out4 + new_dds))
                                    } else if out4.len() < 20 {
                                        None
                                    } else {
                                        let out5 = with_i32_at(
                                            with_i32_at(out4, 12, (info.property_block_size + shift) as i32),
                                            16,
                                            (info.dds_offset + shift) as i32,
                                        );
                                        Some(Ok(out5 + new_dds))
                                    },
                                    Some(Err(e)) => Some(Err(e)),
                                    None => None,
                                }
                            },
                            Some(Err(e)) => Some(Err(e)),
                            None => None,
                        }
                    },
                    Some(Err(e)) => Some(Err(e)),
                    None => None,
                },
                Some(Err(e)) => Some(Err(e)),
                None => None,
            }
        },
    }
}

fn set_property_value(out: &mut Vec<u8>, p: XimgProperty, v: i32) -> (r: Result<(), XimgError>)
    requires
        set_property(old(out)@, p, v) is Some,
    ensures
        match set_property(old(out)@, p, v) {
            Some(Ok(b)) => r is Ok && final(out)@ == b,
            Some(Err(e)) => r == Err::<(), XimgError>(e),
            None => false,
        },
{
    let slot = match find_property_slot(out.as_slice(), p) {
        None => return Err(XimgError::PropertyNotFound(p)),
        Some(s) => s,
    };
    set_u32_at(out, slot.value_offset, v as u32);
    Ok(())
}

/// Replaces the pixel format name (keeping its 2-byte marker) and its data length; gives the
/// size change.
fn patch_pixel_format(data: &mut Vec<u8>, new_format: &str) -> (r: Result<i128, XimgError>)
    requires
        patched_pixel_format(old(data)@, encode_utf8(new_format@)) is Some,
    ensures
        match patched_pixel_format(old(data)@, encode_utf8(new_format@)) {
            Some(Ok((b, delta))) => r matches Ok(x) && x == delta && final(data)@ == b,
            Some(Err(e)) => r == Err::<i128, XimgError>(e),
            None => false,
        },
        r matches Ok(x) ==> -0x1_0000_0000 <= x <= usize::MAX,
{
    let slot = match find_property_slot(data.as_slice(), XimgProperty::PixelFormat) {
        None => return Err(XimgError::PropertyNotFound(XimgProperty::PixelFormat)),
        Some(s) => s,
    };
    if slot.data_len < 2 {
        return Err(XimgError::PixelFormatTooShort);
    }
    let ghost d = data@;
    let dlen = data.len();
    let fmt = new_format.as_bytes();
    let mut new_value: Vec<u8> = Vec::new();
    new_value.push(data[slot.value_offset]);
    new_value.push(data[slot.value_offset + 1]);
    let mut f = slice_to_vec(fmt);
    new_value.append(&mut f);
    let nv_len = new_value.len();
    let delta = nv_len as i128 - slot.data_len as i128;
    let mut out = slice_to_vec(slice_subrange(data.as_slice(), 0, slot.value_offset));
    let mut nv = new_value;
    out.append(&mut nv);
    let mut tail = slice_to_vec(slice_subrange(data.as_slice(), slot.value_offset + slot.data_len, data.len()));
    out.append(&mut tail);
    set_u32_at(&mut out, slot.datalen_offset, nv_len as u32);
    *data = out;
    proof {
        let nvs = seq![d[slot.value_offset as int], d[slot.value_offset + 1]] + encode_utf8(new_format@);
        assert(new_value@ =~= nvs);
    }
    Ok(delta)
}

/// A new `._ximg`: the header part of `original` with Width/Height (and SkipMips, the pixel
/// format when given) patched, followed by `new_dds` (see `replace_spec`).
pub fn replace_dds(original: &[u8], opts: ReplaceOptions, new_dds: &[u8]) -> (r: Result<Vec<u8>, XimgError>)
    requires
        replace_spec(original@, opts, new_dds@) is Some,
    ensures
        match replace_spec(original@, opts, new_dds@) {
            Some(Ok(b)) => r matches Ok(v) && v@ == b,
            Some(Err(e)) => r == Err::<Vec<u8>, XimgError>(e),
            None => false,
        },
{
    let info = parse(original)?;
    let mut out = slice_to_vec(slice_subrange(original, 0, info.dds_offset));
    set_property_value(&mut out, XimgProperty::Width, opts.width)?;
    set_property_value(&mut out, XimgProperty::Height, opts.height)?;
    match opts.skip_mips {
        Some(m) => {
            set_property_value(&mut out, XimgProperty::SkipMips, m)?;
        },
        None => {},
    }
    let mut shift: i128 = 0;
    match opts.pixel_format {
        Some(fmt) => {
            shift = patch_pixel_format(&mut out, fmt)?;
        },
        None => {},
    }
    if shift != 0 {
        let new_prop_block_size = (info.property_block_size as i128 + shift) as i32;
        set_u32_at(&mut out, 12, new_prop_block_size as u32);
        let new_dds_offset = (info.dds_offset as i128 + shift) as i32;
        set_u32_at(&mut out, 16, new_dds_offset as u32);
    }
    let mut payload = slice_to_vec(new_dds);
    out.append(&mut payload);
    Ok(out)
}

/// Whether `set_property_value` can patch property `p` of `out` (see `set_property`).
fn property_settable(out: &Vec<u8>, p: XimgProperty) -> (b: bool)
    ensures
        forall|v: i32| b == (#[trigger] set_property(out@, p, v) is Some),
{
    match find_property_slot(out.as_slice(), p) {
        None => match p {
            XimgProperty::SkipMips => true,
            _ => false,
        },
        Some(slot) => slot.value_offset <= out.len() && out.len() - slot.value_offset >= 4,
    }
}

/// Whether `patch_pixel_format` can patch the pixel format of `out` (see
/// `patched_pixel_format`).
fn pixel_format_patchable(out: &Vec<u8>) -> (b: bool)
    ensures
        forall|f: Seq<u8>| b == (#[trigger] patched_pixel_format(out@, f) is Some),
{
    match find_property_slot(out.as_slice(), XimgProperty::PixelFormat) {
        None => true,
        Some(slot) => slot.data_len < 2 || (slot.value_offset <= out.len() && out.len() - slot.value_offset
            >= slot.data_len),
    }
}

/// `replace_dds` on any input: `None` exactly where `replace_spec` is `None` (the inputs on
/// which `replace_dds` is not defined), else what `replace_dds` gives.
pub fn try_replace_dds(original: &[u8], opts: ReplaceOptions, new_dds: &[u8]) -> (r: Option<Result<Vec<u8>, XimgError>>)
    ensures
        match replace_spec(original@, opts, new_dds@) {
            None => r is None,
            Some(Ok(b)) => r matches Some(Ok(v)) && v@ == b,
            Some(Err(e)) => r == Some(Err::<Vec<u8>, XimgError>(e)),
        },
{
    let info = match parse(original) {
        Ok(i) => i,
        Err(e) => return Some(Err(e)),
    };
    let mut out = slice_to_vec(slice_subrange(original, 0, info.dds_offset));
    if !property_settable(&out, XimgProperty::Width) {
        return None;
    }
    match set_property_value(&mut out, XimgProperty::Width, opts.width) {
        Ok(()) => {},
        Err(e) => return Some(Err(e)),
    }
    if !property_settable(&out, XimgProperty::Height) {
        return None;
    }
    match set_property_value(&mut out, XimgProperty::Height, opts.height) {
        Ok(()) => {},
        Err(e) => return Some(Err(e)),
    }
    match opts.skip_mips {
        Some(m) => {
            if !property_settable(&out, XimgProperty::SkipMips) {
                return None;
            }
            match set_property_value(&mut out, XimgProperty::SkipMips, m) {
                Ok(()) => {},
                Err(e) => return Some(Err(e)),
            }
        },
        None => {},
    }
    let mut shift: i128 = 0;
    match opts.pixel_format {
        Some(fmt) => {
            if !pixel_format_patchable(&out) {
                return None;
            }
            shift = match patch_pixel_format(&mut out, fmt) {
                Ok(x) => x,
                Err(e) => return Some(Err(e)),
            };
        },
        None => {},
    }
    if shift != 0 {
        if out.len() < 20 {
            return None;
        }
        let new_prop_block_size = (info.property_block_size as i128 + shift) as i32;
        set_u32_at(&mut out, 12, new_prop_block_size as u32);
        let new_dds_offset = (info.dds_offset as i128 + shift) as i32;
        set_u32_at(&mut out, 16, new_dds_offset as u32);
    }
    let mut payload = slice_to_vec(new_dds);
    out.append(&mut payload);
    Some(Ok(out))
}

/// Whether `read_pixel_format` is defined on `data` (see `pixel_format_in_bounds`).
pub fn pixel_format_readable(data: &[u8]) -> (b: bool)
    ensures
        b == pixel_format_in_bounds(data@),
{
    match find_property_slot(data, XimgProperty::PixelFormat) {
        None => true,
        Some(slot) => slot.value_offset <= data.len() && data.len() - slot.value_offset >= slot.data_len,
    }
}

} // verus!
