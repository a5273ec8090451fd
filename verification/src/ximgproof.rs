//! Why splicing a new payload into an `._ximg` leaves it where the file says it is: the
//! property writes never reach the fixed 20-byte header, so the DDS offset field either keeps
//! its value (the header part keeps its length) or is rewritten to the new length.

use vstd::prelude::*;
use vstd::bytes::*;
use crate::le::{u32_at, with_u32_at, lemma_u32_roundtrip};
use crate::ximg::{
    ReplaceOptions, XimgProperty, ximg_magic, dds_signature, property_name, first_match, slot_of, set_property,
    patched_pixel_format, format_bytes, replace_spec, parse_spec, dds_offset_field, with_i32_at,
    lemma_match_from_found,
};

verus! {

/// The buffer starts with the `._ximg` magic.
pub open spec fn magic_prefix(d: Seq<u8>) -> bool {
    d.len() >= 8 && d.subrange(0, 8) == ximg_magic()
}

/// No property name occurs inside the magic: each starts with a letter the magic lacks.
proof fn lemma_name_after_magic(d: Seq<u8>, p: XimgProperty)
    requires
        magic_prefix(d),
        first_match(d, property_name(p)) is Some,
    ensures
        first_match(d, property_name(p))->Some_0 >= 8,
{
    let name = property_name(p);
    let k = first_match(d, name)->Some_0;
    lemma_match_from_found(d, name, 0, k);
    if k < 8 {
        assert(d.subrange(k, k + name.len())[0] == name[0]);
        assert(d.subrange(0, 8)[k] == d[k]);
        assert(ximg_magic()[k] != name[0]);
    }
}

/// A property's slot lies past the 20-byte header: its data length at 23 or later for the
/// pixel format, its value at 21 or later for every property.
proof fn lemma_slot_past_header(d: Seq<u8>, p: XimgProperty)
    requires
        magic_prefix(d),
        slot_of(d, property_name(p)) is Some,
    ensures
        slot_of(d, property_name(p))->Some_0.datalen_offset >= 12 + property_name(p).len(),
        slot_of(d, property_name(p))->Some_0.value_offset == slot_of(d, property_name(p))->Some_0.datalen_offset + 4,
{
    lemma_name_after_magic(d, p);
}

/// Patching an `i32` value keeps the length and the first 20 bytes.
proof fn lemma_set_keeps_header(d: Seq<u8>, p: XimgProperty, v: i32)
    requires
        magic_prefix(d),
        set_property(d, p, v) matches Some(Ok(_)),
    ensures
        d.len() >= 20,
        set_property(d, p, v)->Some_0->Ok_0.len() == d.len(),
        set_property(d, p, v)->Some_0->Ok_0.subrange(0, 20) == d.subrange(0, 20),
        magic_prefix(set_property(d, p, v)->Some_0->Ok_0),
{
    lemma_auto_spec_u32_to_from_le_bytes();
    lemma_slot_past_header(d, p);
    let s = slot_of(d, property_name(p))->Some_0;
    let d2 = with_i32_at(d, s.value_offset, v);
    assert(d2.subrange(0, 20) =~= d.subrange(0, 20));
    assert(d2.subrange(0, 8) =~= d.subrange(0, 8));
}

/// Patching the pixel format changes the length by the size change and keeps the first 20
/// bytes.
proof fn lemma_patch_keeps_header(d: Seq<u8>, f: Seq<u8>)
    requires
        magic_prefix(d),
        patched_pixel_format(d, f) matches Some(Ok(_)),
    ensures
        d.len() >= 20,
        patched_pixel_format(d, f)->Some_0->Ok_0.0.len() == d.len() + patched_pixel_format(d, f)->Some_0->Ok_0.1,
        patched_pixel_format(d, f)->Some_0->Ok_0.0.subrange(0, 20) == d.subrange(0, 20),
        magic_prefix(patched_pixel_format(d, f)->Some_0->Ok_0.0),
{
    lemma_auto_spec_u32_to_from_le_bytes();
    lemma_slot_past_header(d, XimgProperty::PixelFormat);
    let s = slot_of(d, property_name(XimgProperty::PixelFormat))->Some_0;
    let nv = seq![d[s.value_offset], d[s.value_offset + 1]] + f;
    let spliced = d.subrange(0, s.value_offset) + nv + d.subrange(s.value_offset + s.data_len, d.len() as int);
    let d2 = with_u32_at(spliced, s.datalen_offset, nv.len() as u32);
    assert(spliced.subrange(0, 20) =~= d.subrange(0, 20));
    assert(d2.subrange(0, 20) =~= spliced.subrange(0, 20));
    assert(d2.subrange(0, 8) =~= d.subrange(0, 8));
}

proof fn lemma_i32_round(x: int)
    requires
        0 <= x <= i32::MAX,
    ensures
        ((((x as i32) as u32) as i32) as usize) as int == x,
{
}

/// Splicing keeps a payload where the file says it is: whenever `replace_dds` succeeds, the
/// output ends with `new_dds` and its DDS offset field points at the first byte of it; so
/// whenever the output parses, extracting its payload gives `new_dds` back. Without a new
/// pixel format name the payload does not move: the offset field and the header part's length
/// stay those of the input file. (Outputs of more than `i32::MAX` bytes are left out: the
/// offset field is an `i32`.)
pub proof fn lemma_replace_places_payload(orig: Seq<u8>, opts: ReplaceOptions, new_dds: Seq<u8>)
    requires
        replace_spec(orig, opts, new_dds) matches Some(Ok(out)) && out.len() <= i32::MAX,
    ensures
        ({
            let out = replace_spec(orig, opts, new_dds)->Some_0->Ok_0;
            &&& new_dds.len() <= out.len()
            &&& out.subrange(out.len() - new_dds.len(), out.len() as int) == new_dds
            &&& dds_offset_field(out) == out.len() - new_dds.len()
            &&& (parse_spec(out) matches Ok(info) ==> out.subrange(info.dds_offset as int, out.len() as int) == new_dds)
            &&& (opts.pixel_format is None ==> dds_offset_field(out) == dds_offset_field(orig) && out.len() - new_dds.len()
                == parse_spec(orig)->Ok_0.dds_offset)
        }),
{
    lemma_auto_spec_u32_to_from_le_bytes();
    let info = parse_spec(orig)->Ok_0;
    let dds = dds_offset_field(orig) as int;
    assert(orig.subrange(dds, dds + 4) == dds_signature());
    if dds < 8 {
        assert(orig.subrange(dds, dds + 4)[0] == orig[dds]);
        assert(orig.subrange(0, 8)[dds] == orig[dds]);
    }
    let out0 = orig.subrange(0, info.dds_offset as int);
    assert(out0.subrange(0, 8) =~= orig.subrange(0, 8));
    lemma_set_keeps_header(out0, XimgProperty::Width, opts.width);
    let out1 = set_property(out0, XimgProperty::Width, opts.width)->Some_0->Ok_0;
    lemma_set_keeps_header(out1, XimgProperty::Height, opts.height);
    let out2 = set_property(out1, XimgProperty::Height, opts.height)->Some_0->Ok_0;
    let out3 = match opts.skip_mips {
        None => out2,
        Some(m) => {
            lemma_set_keeps_header(out2, XimgProperty::SkipMips, m);
            set_property(out2, XimgProperty::SkipMips, m)->Some_0->Ok_0
        },
    };
    let (out4, shift) = match format_bytes(opts) {
        None => (out3, 0int),
        Some(f) => {
            lemma_patch_keeps_header(out3, f);
            patched_pixel_format(out3, f)->Some_0->Ok_0
        },
    };
    assert(out4.len() == info.dds_offset + shift);
    assert(out4.subrange(0, 20) == orig.subrange(0, 20)) by {
        assert(out0.subrange(0, 20) =~= orig.subrange(0, 20));
    }
    let out = replace_spec(orig, opts, new_dds)->Some_0->Ok_0;
    if shift == 0 {
        assert(out == out4 + new_dds);
        assert(out.subrange(16, 20) =~= orig.subrange(16, 20)) by {
            assert(out.subrange(16, 20) =~= out4.subrange(0, 20).subrange(16, 20));
            assert(orig.subrange(16, 20) =~= orig.subrange(0, 20).subrange(16, 20));
        }
        assert(u32_at(out, 16) == u32_at(orig, 16));
        assert(out.subrange(out.len() - new_dds.len(), out.len() as int) =~= new_dds);
    } else {
        let a = with_i32_at(out4, 12, (info.property_block_size + shift) as i32);
        let b = (info.dds_offset + shift) as i32;
        let out5 = with_i32_at(a, 16, b);
        assert(out == out5 + new_dds);
        assert(out =~= a.subrange(0, 16) + spec_u32_to_le_bytes(b as u32) + (a.subrange(20, a.len() as int) + new_dds));
        lemma_u32_roundtrip(a.subrange(0, 16), b as u32, a.subrange(20, a.len() as int) + new_dds);
        assert(out5.len() == out4.len());
        lemma_i32_round(info.dds_offset + shift);
        assert(out.subrange(out.len() - new_dds.len(), out.len() as int) =~= new_dds);
    }
}

/// Where Width's value is written: its slot in the header part.
pub open spec fn width_slot(orig: Seq<u8>) -> int {
    slot_of(orig.subrange(0, parse_spec(orig)->Ok_0.dds_offset as int), property_name(XimgProperty::Width))->Some_0.value_offset
}

/// Where Height's value is written: its slot in the header part once Width is written.
pub open spec fn height_slot(orig: Seq<u8>, width: i32) -> int {
    let out0 = orig.subrange(0, parse_spec(orig)->Ok_0.dds_offset as int);
    slot_of(set_property(out0, XimgProperty::Width, width)->Some_0->Ok_0, property_name(XimgProperty::Height))->Some_0.value_offset
}

proof fn lemma_with_i32_at(d: Seq<u8>, off: int, v: i32)
    requires
        0 <= off,
        off + 4 <= d.len(),
    ensures
        with_i32_at(d, off, v).len() == d.len(),
        u32_at(with_i32_at(d, off, v), off) == v as u32,
        forall|i: int| 0 <= i < d.len() && !(off <= i < off + 4) ==> #[trigger] with_i32_at(d, off, v)[i] == d[i],
{
    lemma_auto_spec_u32_to_from_le_bytes();
    lemma_u32_roundtrip(d.subrange(0, off), v as u32, d.subrange(off + 4, d.len() as int));
    assert(with_i32_at(d, off, v) =~= d.subrange(0, off) + spec_u32_to_le_bytes(v as u32) + d.subrange(off + 4, d.len() as int));
}

/// Patching only the size keeps everything else: when `replace_dds` succeeds without a new
/// mip count or pixel format, the output is the header part of the input followed by
/// `new_dds`, where the header part differs from the input only in the 4-byte Width and Height
/// value slots, which hold the new width (when the two slots do not overlap) and height.
pub proof fn lemma_replace_keeps_other_bytes(orig: Seq<u8>, opts: ReplaceOptions, new_dds: Seq<u8>)
    requires
        replace_spec(orig, opts, new_dds) matches Some(Ok(_)),
        opts.skip_mips is None,
        opts.pixel_format is None,
    ensures
        ({
            let out = replace_spec(orig, opts, new_dds)->Some_0->Ok_0;
            let dds = parse_spec(orig)->Ok_0.dds_offset as int;
            let w = width_slot(orig);
            let h = height_slot(orig, opts.width);
            &&& out.len() == dds + new_dds.len()
            &&& out.subrange(dds, out.len() as int) == new_dds
            &&& forall|i: int| 0 <= i < dds && !(w <= i < w + 4) && !(h <= i < h + 4) ==> #[trigger] out[i] == orig[i]
            &&& u32_at(out, h) == opts.height as u32
            &&& (w + 4 <= h || h + 4 <= w) ==> u32_at(out, w) == opts.width as u32
        }),
{
    lemma_auto_spec_u32_to_from_le_bytes();
    let info = parse_spec(orig)->Ok_0;
    let dds = info.dds_offset as int;
    let out0 = orig.subrange(0, dds);
    let ws = slot_of(out0, property_name(XimgProperty::Width))->Some_0;
    let out1 = set_property(out0, XimgProperty::Width, opts.width)->Some_0->Ok_0;
    let hs = slot_of(out1, property_name(XimgProperty::Height))->Some_0;
    let out2 = set_property(out1, XimgProperty::Height, opts.height)->Some_0->Ok_0;
    assert(format_bytes(opts) is None);
    let out = replace_spec(orig, opts, new_dds)->Some_0->Ok_0;
    assert(out == out2 + new_dds);
    lemma_slot_offset_positive(out0, XimgProperty::Width);
    lemma_slot_offset_positive(out1, XimgProperty::Height);
    lemma_with_i32_at(out0, ws.value_offset, opts.width);
    lemma_with_i32_at(out1, hs.value_offset, opts.height);
    assert(out.subrange(dds, out.len() as int) =~= new_dds);
    assert forall|i: int| 0 <= i < dds && !(ws.value_offset <= i < ws.value_offset + 4) && !(hs.value_offset <= i
        < hs.value_offset + 4) implies #[trigger] out[i] == orig[i] by {
        assert(out[i] == out2[i]);
        assert(out2[i] == out1[i]);
        assert(out1[i] == out0[i]);
    }
    assert(out.subrange(hs.value_offset, hs.value_offset + 4) =~= out2.subrange(hs.value_offset, hs.value_offset + 4));
    if ws.value_offset + 4 <= hs.value_offset || hs.value_offset + 4 <= ws.value_offset {
        assert(out2.subrange(ws.value_offset, ws.value_offset + 4) =~= out1.subrange(ws.value_offset, ws.value_offset + 4));
        assert(out.subrange(ws.value_offset, ws.value_offset + 4) =~= out2.subrange(ws.value_offset, ws.value_offset + 4));
    }
}

/// A slot's offsets are not negative.
proof fn lemma_slot_offset_positive(d: Seq<u8>, p: XimgProperty)
    requires
        slot_of(d, property_name(p)) is Some,
    ensures
        slot_of(d, property_name(p))->Some_0.value_offset >= 4 + property_name(p).len(),
{
    let name = property_name(p);
    let k = first_match(d, name)->Some_0;
    lemma_match_from_found(d, name, 0, k);
}

/// Where SkipMips's value is written: its slot in the header part once Width and Height are
/// written.
pub open spec fn skip_mips_slot(orig: Seq<u8>, width: i32, height: i32) -> int {
    let out0 = orig.subrange(0, parse_spec(orig)->Ok_0.dds_offset as int);
    let out1 = set_property(out0, XimgProperty::Width, width)->Some_0->Ok_0;
    let out2 = set_property(out1, XimgProperty::Height, height)->Some_0->Ok_0;
    slot_of(out2, property_name(XimgProperty::SkipMips))->Some_0.value_offset
}

/// A requested mip skip is written: when `replace_dds` succeeds with `skip_mips: Some(m)` and no
/// new pixel format, the output's SkipMips value slot holds `m`, and the output is still the
/// header part followed by `new_dds`.
pub proof fn lemma_replace_writes_skip_mips(orig: Seq<u8>, opts: ReplaceOptions, new_dds: Seq<u8>)
    requires
        replace_spec(orig, opts, new_dds) matches Some(Ok(_)),
        opts.skip_mips is Some,
        opts.pixel_format is None,
    ensures
        ({
            let out = replace_spec(orig, opts, new_dds)->Some_0->Ok_0;
            let s = skip_mips_slot(orig, opts.width, opts.height);
            &&& out.len() == parse_spec(orig)->Ok_0.dds_offset + new_dds.len()
            &&& 0 <= s && s + 4 <= parse_spec(orig)->Ok_0.dds_offset
            &&& u32_at(out, s) == opts.skip_mips->Some_0 as u32
        }),
{
    lemma_auto_spec_u32_to_from_le_bytes();
    let info = parse_spec(orig)->Ok_0;
    let dds = info.dds_offset as int;
    let out0 = orig.subrange(0, dds);
    let out1 = set_property(out0, XimgProperty::Width, opts.width)->Some_0->Ok_0;
    let out2 = set_property(out1, XimgProperty::Height, opts.height)->Some_0->Ok_0;
    let m = opts.skip_mips->Some_0;
    let ss = slot_of(out2, property_name(XimgProperty::SkipMips))->Some_0;
    let out3 = set_property(out2, XimgProperty::SkipMips, m)->Some_0->Ok_0;
    assert(format_bytes(opts) is None);
    let out = replace_spec(orig, opts, new_dds)->Some_0->Ok_0;
    assert(out == out3 + new_dds);
    let ws = slot_of(out0, property_name(XimgProperty::Width))->Some_0;
    let hs = slot_of(out1, property_name(XimgProperty::Height))->Some_0;
    lemma_slot_offset_positive(out0, XimgProperty::Width);
    lemma_slot_offset_positive(out1, XimgProperty::Height);
    lemma_slot_offset_positive(out2, XimgProperty::SkipMips);
    lemma_with_i32_at(out0, ws.value_offset, opts.width);
    lemma_with_i32_at(out1, hs.value_offset, opts.height);
    lemma_with_i32_at(out2, ss.value_offset, m);
    assert(out.subrange(ss.value_offset, ss.value_offset + 4) =~= out3.subrange(ss.value_offset, ss.value_offset + 4));
}

/// Patching the pixel format writes the new name: its slot's value becomes the old 2-byte
/// marker followed by `f`, its data length is `2 + f.len()`, everything before the value is
/// kept, and everything after the old value follows the new one.
pub proof fn lemma_pixel_format_patched(d: Seq<u8>, f: Seq<u8>)
    requires
        magic_prefix(d),
        patched_pixel_format(d, f) matches Some(Ok(_)),
        2 + f.len() <= u32::MAX,
    ensures
        ({
            let s = slot_of(d, property_name(XimgProperty::PixelFormat))->Some_0;
            let (out, delta) = patched_pixel_format(d, f)->Some_0->Ok_0;
            &&& delta == 2 + f.len() - s.data_len
            &&& out.len() == d.len() + delta
            &&& out.subrange(s.value_offset, s.value_offset + 2) == d.subrange(s.value_offset, s.value_offset + 2)
            &&& out.subrange(s.value_offset + 2, s.value_offset + 2 + f.len()) == f
            &&& u32_at(out, s.datalen_offset) == 2 + f.len()
            &&& out.subrange(0, s.datalen_offset) == d.subrange(0, s.datalen_offset)
            &&& out.subrange(s.value_offset + 2 + f.len(), out.len() as int) == d.subrange(
                s.value_offset + s.data_len,
                d.len() as int,
            )
        }),
{
    lemma_auto_spec_u32_to_from_le_bytes();
    lemma_slot_past_header(d, XimgProperty::PixelFormat);
    let s = slot_of(d, property_name(XimgProperty::PixelFormat))->Some_0;
    let nv = seq![d[s.value_offset], d[s.value_offset + 1]] + f;
    let spliced = d.subrange(0, s.value_offset) + nv + d.subrange(s.value_offset + s.data_len, d.len() as int);
    let out = with_u32_at(spliced, s.datalen_offset, nv.len() as u32);
    assert(out =~= spliced.subrange(0, s.datalen_offset) + spec_u32_to_le_bytes(nv.len() as u32) + spliced.subrange(
        s.datalen_offset + 4,
        spliced.len() as int,
    ));
    lemma_u32_roundtrip(
        spliced.subrange(0, s.datalen_offset),
        nv.len() as u32,
        spliced.subrange(s.datalen_offset + 4, spliced.len() as int),
    );
    assert(out.subrange(s.value_offset, s.value_offset + 2) =~= d.subrange(s.value_offset, s.value_offset + 2));
    assert(out.subrange(s.value_offset + 2, s.value_offset + 2 + f.len()) =~= f);
    assert(out.subrange(0, s.datalen_offset) =~= d.subrange(0, s.datalen_offset));
    assert(out.subrange(s.value_offset + 2 + f.len(), out.len() as int) =~= d.subrange(
        s.value_offset + s.data_len,
        d.len() as int,
    ));
}

} // verus!
