//! The DDS container around the pixel codec: `ddsfile` reads a DDS file's header and data,
//! the library resolves its D3D format (with the fallback for 8-bit luminance headers that
//! `ddsfile` does not recognise) and decodes the top-level mip; encoding writes an image
//! back in a texture's own format, with the header pixel format single-channel surfaces are
//! written with.

use vstd::prelude::*;
use ddsfile::DataFormat;
use crate::dds::mip_size;
use crate::ddsproof::{byte_channel_format, gray_format, gray_upto, lemma_byte_channels_round_trip, lemma_gray_round_trip};
use crate::dds::{
    DdsError, DecodedImage, FormatKind, HeaderPixelFlags, SurfaceFormat, resolve_format, resolve_format_spec,
    surface_format, surface_format_spec, decode_surface, decode_spec, decode_defined, decodable, check_rgba_len,
    encodable, encode_body, encode_defined, encode_spec,
};

verus! {

/// `ddsfile`'s DDS file value, held as it is while the library fills it in; its header and
/// data bytes are named by `dds_head_of` and `dds_data_of`.
#[verifier::external_type_specification]
#[verifier::external_body]
pub struct ExDds(ddsfile::Dds);

/// A D3D format's bits per pixel and red, green, blue and alpha masks, as `ddsfile` gives them.
pub type FormatFacts = (Option<u8>, Option<u32>, Option<u32>, Option<u32>, Option<u32>);

/// What `ddsfile` reads from a DDS file: its width and height, the D3D format it recognises
/// in the header (its kind and facts), the header's pixel-format flags, and the data after
/// the headers.
pub struct DdsContents {
    pub width: u32,
    pub height: u32,
    pub format: Option<(FormatKind, FormatFacts)>,
    pub flags: HeaderPixelFlags,
    pub pixel_format: HeaderPixelFormat,
    pub data: Seq<u8>,
}

/// What `ddsfile::Dds::read` reads from `bytes` (`None` when it reports an error).
pub uninterp spec fn dds_read_spec(bytes: Seq<u8>) -> Option<DdsContents>;

/// `ddsfile::Dds::read`, then its width, height and header pixel-format flags. Claimed: the
/// outcome depends on the bytes alone (`dds_read_spec`).
#[verifier::external_body]
fn dds_header(bytes: &[u8]) -> (r: Option<(u32, u32, HeaderPixelFlags)>)
    ensures
        r is None <==> dds_read_spec(bytes@) is None,
        r matches Some(t) ==> t.0 == dds_read_spec(bytes@)->Some_0.width && t.1 == dds_read_spec(bytes@)->Some_0.height
            && t.2 == dds_read_spec(bytes@)->Some_0.flags,
{
    let dds = ddsfile::Dds::read(bytes).ok()?;
    let spf = &dds.header.spf;
    let flags = HeaderPixelFlags {
        luminance: spf.flags.contains(ddsfile::PixelFormatFlags::LUMINANCE),
        alpha: spf.flags.contains(ddsfile::PixelFormatFlags::ALPHA),
        alpha_pixels: spf.flags.contains(ddsfile::PixelFormatFlags::ALPHA_PIXELS),
        rgb_bit_count: spf.rgb_bit_count,
    };
    Some((dds.get_width(), dds.get_height(), flags))
}

/// `ddsfile::Dds::read`, then which D3D format `get_d3d_format` recognises, told apart as a
/// `FormatKind`. Claimed: that is `dds_read_spec`'s format kind.
#[verifier::external_body]
fn dds_format_kind(bytes: &[u8]) -> (r: Option<Option<FormatKind>>)
    ensures
        r is None <==> dds_read_spec(bytes@) is None,
        r matches Some(k) ==> match dds_read_spec(bytes@)->Some_0.format {
            None => k is None,
            Some(f) => k == Some(f.0),
        },
{
    Some(match ddsfile::Dds::read(bytes).ok()?.get_d3d_format() {
        None => None,
        Some(ddsfile::D3DFormat::DXT1) => Some(FormatKind::Dxt1),
        Some(ddsfile::D3DFormat::DXT2) => Some(FormatKind::Dxt2),
        Some(ddsfile::D3DFormat::DXT3) => Some(FormatKind::Dxt3),
        Some(ddsfile::D3DFormat::DXT4) => Some(FormatKind::Dxt4),
        Some(ddsfile::D3DFormat::DXT5) => Some(FormatKind::Dxt5),
        Some(ddsfile::D3DFormat::L8) => Some(FormatKind::L8),
        Some(ddsfile::D3DFormat::A8) => Some(FormatKind::A8),
        Some(_) => Some(FormatKind::Other),
    })
}

/// `ddsfile::Dds::read`, then the bits per pixel and masks of the recognised D3D format.
/// Claimed: those are `dds_read_spec`'s format facts.
#[verifier::external_body]
fn dds_format_facts(bytes: &[u8]) -> (r: Option<Option<FormatFacts>>)
    ensures
        r is None <==> dds_read_spec(bytes@) is None,
        r matches Some(m) ==> match dds_read_spec(bytes@)->Some_0.format {
            None => m is None,
            Some(f) => m == Some(f.1),
        },
{
    Some(match ddsfile::Dds::read(bytes).ok()?.get_d3d_format() {
        None => None,
        Some(f) => Some((f.get_bits_per_pixel(), f.r_bit_mask(), f.g_bit_mask(), f.b_bit_mask(), f.a_bit_mask())),
    })
}

/// `ddsfile::Dds::read`, then the header's pixel format as read. Claimed: that is
/// `dds_read_spec`'s pixel format.
#[verifier::external_body]
fn dds_pixel_format(bytes: &[u8]) -> (r: Option<HeaderPixelFormat>)
    ensures
        r is None <==> dds_read_spec(bytes@) is None,
        r matches Some(p) ==> p == dds_read_spec(bytes@)->Some_0.pixel_format,
{
    let spf = ddsfile::Dds::read(bytes).ok()?.header.spf;
    Some(HeaderPixelFormat { flags: spf.flags.bits(), fourcc: spf.fourcc.map(|f| f.0), rgb_bit_count: spf.rgb_bit_count,
        r_bit_mask: spf.r_bit_mask, g_bit_mask: spf.g_bit_mask, b_bit_mask: spf.b_bit_mask, a_bit_mask: spf.a_bit_mask })
}

/// `ddsfile::Dds::read`, then the data after the headers. Claimed: that is `dds_read_spec`'s
/// data.
#[verifier::external_body]
fn dds_data(bytes: &[u8]) -> (r: Option<Vec<u8>>)
    ensures
        r is None <==> dds_read_spec(bytes@) is None,
        r matches Some(d) ==> d@ == dds_read_spec(bytes@)->Some_0.data,
{
    Some(ddsfile::Dds::read(bytes).ok()?.data)
}

/// The bits per pixel and masks of `ddsfile::D3DFormat::L8`. Claimed, from `ddsfile`'s
/// format tables: 8 bits, red mask `0xff`, no green, blue or alpha mask.
#[verifier::external_body]
fn l8_facts() -> (r: FormatFacts)
    ensures
        r == (Some(8u8), Some(0xffu32), None::<u32>, None::<u32>, None::<u32>),
{
    let f = ddsfile::D3DFormat::L8;
    (f.get_bits_per_pixel(), f.r_bit_mask(), f.g_bit_mask(), f.b_bit_mask(), f.a_bit_mask())
}

/// The facts of the L8 format.
pub open spec fn l8_format() -> (FormatKind, FormatFacts) {
    (FormatKind::L8, (Some(8u8), Some(0xffu32), None::<u32>, None::<u32>, None::<u32>))
}

/// The surface format of a resolved D3D format.
pub open spec fn surface_of(f: (FormatKind, FormatFacts)) -> SurfaceFormat {
    surface_format_spec(f.0, f.1.0, f.1.1, f.1.2, f.1.3, f.1.4)
}

/// What decoding a DDS file gives: `NotDds` when `ddsfile` cannot read it, `UnknownFormat`
/// when no D3D format is recognised or resolved, `Undecodable` when its size and format cannot
/// be converted within the address space, else its top-level mip's RGBA8 pixels (see
/// `decode_spec`) with its width and height.
pub open spec fn dds_decode_spec(bytes: Seq<u8>) -> Result<(u32, u32, Seq<u8>), DdsError> {
    match dds_read_spec(bytes) {
        None => Err(DdsError::NotDds),
        Some(c) => match resolve_format_spec(c.format, l8_format(), c.flags) {
            None => Err(DdsError::UnknownFormat),
            Some(f) => if !decode_defined(c.width, c.height, surface_of(f), c.data.len() as int) {
                Err(DdsError::Undecodable(c.width, c.height))
            } else {
                match decode_spec(c.width, c.height, surface_of(f), c.data) {
                    Err(e) => Err(e),
                    Ok(px) => Ok((c.width, c.height, px)),
                }
            },
        },
    }
}

/// Decodes the top-level mip of a DDS file to RGBA8 (see `dds_decode_spec`).
pub fn decode(dds_bytes: &[u8]) -> (r: Result<DecodedImage, DdsError>)
    ensures
        match dds_decode_spec(dds_bytes@) {
            Err(e) => r == Err::<DecodedImage, DdsError>(e),
            Ok((w, h, px)) => r matches Ok(img) && img.width == w && img.height == h && img.rgba@ == px,
        },
        r matches Ok(img) ==> img.rgba@.len() == img.width * img.height * 4,
{
    let (width, height, flags) = match dds_header(dds_bytes) {
        None => return Err(DdsError::NotDds),
        Some(t) => t,
    };
    let kind = match dds_format_kind(dds_bytes) {
        None => return Err(DdsError::NotDds),
        Some(k) => k,
    };
    let facts = match dds_format_facts(dds_bytes) {
        None => return Err(DdsError::NotDds),
        Some(m) => m,
    };
    let data = match dds_data(dds_bytes) {
        None => return Err(DdsError::NotDds),
        Some(d) => d,
    };
    let recognized: Option<(FormatKind, FormatFacts)> = match (kind, facts) {
        (Some(k), Some(m)) => Some((k, m)),
        _ => None,
    };
    let format = match resolve_format(recognized, (FormatKind::L8, l8_facts()), flags) {
        None => return Err(DdsError::UnknownFormat),
        Some(f) => f,
    };
    let (k, (bits, r, g, b, a)) = format;
    let surface = surface_format(k, bits, r, g, b, a);
    if !decodable(width, height, surface, data.len()) {
        return Err(DdsError::Undecodable(width, height));
    }
    decode_surface(width, height, surface, data.as_slice())
}

/// A DDS header's pixel format as plain values: flags (`ddsfile`'s `PixelFormatFlags` bits),
/// FourCC code, bit count and the four masks, each `None` where `ddsfile` holds none.
#[derive(Debug, Clone, Copy, PartialEq, Eq, Structural)]
pub struct HeaderPixelFormat {
    pub flags: u32,
    pub fourcc: Option<u32>,
    pub rgb_bit_count: Option<u32>,
    pub r_bit_mask: Option<u32>,
    pub g_bit_mask: Option<u32>,
    pub b_bit_mask: Option<u32>,
    pub a_bit_mask: Option<u32>,
}

/// `PixelFormatFlags::LUMINANCE`.
pub open spec fn luminance_flag() -> u32 {
    0x20000
}

/// `PixelFormatFlags::ALPHA`.
pub open spec fn alpha_flag() -> u32 {
    0x2
}

/// The header single-channel surfaces are written with, as the game's own files have it:
/// `L8` flagged LUMINANCE alone with 8 bits under a red mask `0xff`; `A8` flagged ALPHA alone
/// with an alpha mask `0xff`; `None` (the header `ddsfile` derives) for every other format.
pub open spec fn header_pixel_format_spec(kind: FormatKind) -> Option<HeaderPixelFormat> {
    match kind {
        FormatKind::L8 => Some(
            HeaderPixelFormat {
                flags: luminance_flag(),
                fourcc: None,
                rgb_bit_count: Some(8),
                r_bit_mask: Some(0xff),
                g_bit_mask: None,
                b_bit_mask: None,
                a_bit_mask: None,
            },
        ),
        FormatKind::A8 => Some(
            HeaderPixelFormat {
                flags: alpha_flag(),
                fourcc: None,
                rgb_bit_count: None,
                r_bit_mask: None,
                g_bit_mask: None,
                b_bit_mask: None,
                a_bit_mask: Some(0xff),
            },
        ),
        _ => None,
    }
}

/// The header a surface of kind `kind` is written with (see `header_pixel_format_spec`).
pub fn header_pixel_format(kind: FormatKind) -> (p: Option<HeaderPixelFormat>)
    ensures
        p == header_pixel_format_spec(kind),
{
    match kind {
        FormatKind::L8 => Some(
            HeaderPixelFormat {
                flags: 0x20000,
                fourcc: None,
                rgb_bit_count: Some(8),
                r_bit_mask: Some(0xff),
                g_bit_mask: None,
                b_bit_mask: None,
                a_bit_mask: None,
            },
        ),
        FormatKind::A8 => Some(
            HeaderPixelFormat {
                flags: 0x2,
                fourcc: None,
                rgb_bit_count: None,
                r_bit_mask: None,
                g_bit_mask: None,
                b_bit_mask: None,
                a_bit_mask: Some(0xff),
            },
        ),
        _ => None,
    }
}

/// The `L8` header is one the luminance fallback resolves: its flags are LUMINANCE alone and
/// its bit count 8, so where `ddsfile` recognises no format in it, `resolve_format` gives `L8`.
pub proof fn lemma_l8_header_resolves()
    ensures
        ({
            let h = header_pixel_format_spec(FormatKind::L8)->Some_0;
            let flags = HeaderPixelFlags {
                luminance: h.flags & luminance_flag() != 0,
                alpha: h.flags & alpha_flag() != 0,
                alpha_pixels: h.flags & 1 != 0,
                rgb_bit_count: h.rgb_bit_count,
            };
            resolve_format_spec(None::<(FormatKind, FormatFacts)>, l8_format(), flags) == Some(l8_format())
        }),
{
    assert(0x20000u32 & 0x20000u32 != 0) by (bit_vector);
    assert(0x20000u32 & 0x2u32 == 0) by (bit_vector);
    assert(0x20000u32 & 1u32 == 0) by (bit_vector);
}

/// A texture's format as the library writes it: the pixel format `ddsfile` maps back to the
/// texture's D3D format, and that format's kind and facts.
#[derive(Debug, Clone, Copy, PartialEq, Eq)]
pub struct TextureFormat {
    pub pixel_format: HeaderPixelFormat,
    pub kind: FormatKind,
    pub facts: FormatFacts,
}

/// The pixel format an 8-bit luminance texture is identified by: LUMINANCE, 8 bits, red mask
/// `0xff` (the row of `ddsfile`'s format table for `L8`).
pub open spec fn l8_pixel_format() -> HeaderPixelFormat {
    HeaderPixelFormat {
        flags: luminance_flag(),
        fourcc: None,
        rgb_bit_count: Some(8),
        r_bit_mask: Some(0xff),
        g_bit_mask: None,
        b_bit_mask: None,
        a_bit_mask: None,
    }
}

/// A DDS file's format to write images in: `NotDds` when `ddsfile` cannot read it; the pixel
/// format as read with the recognised format's kind and facts; else, for an 8-bit
/// luminance-only header, L8's; else `UnknownFormat`.
pub open spec fn texture_format_spec(bytes: Seq<u8>) -> Result<TextureFormat, DdsError> {
    match dds_read_spec(bytes) {
        None => Err(DdsError::NotDds),
        Some(c) => match c.format {
            Some(f) => Ok(TextureFormat { pixel_format: c.pixel_format, kind: f.0, facts: f.1 }),
            None => if c.flags.luminance && !c.flags.alpha && !c.flags.alpha_pixels && c.flags.rgb_bit_count == Some(8u32) {
                Ok(TextureFormat { pixel_format: l8_pixel_format(), kind: l8_format().0, facts: l8_format().1 })
            } else {
                Err(DdsError::UnknownFormat)
            },
        },
    }
}

/// A DDS file's format to write images in (see `texture_format_spec`).
pub fn texture_format(dds_bytes: &[u8]) -> (r: Result<TextureFormat, DdsError>)
    ensures
        r == texture_format_spec(dds_bytes@),
{
    let (_, _, flags) = match dds_header(dds_bytes) {
        None => return Err(DdsError::NotDds),
        Some(t) => t,
    };
    let kind = match dds_format_kind(dds_bytes) {
        None => return Err(DdsError::NotDds),
        Some(k) => k,
    };
    let facts = match dds_format_facts(dds_bytes) {
        None => return Err(DdsError::NotDds),
        Some(m) => m,
    };
    let pf = match dds_pixel_format(dds_bytes) {
        None => return Err(DdsError::NotDds),
        Some(p) => p,
    };
    match (kind, facts) {
        (Some(k), Some(m)) => Ok(TextureFormat { pixel_format: pf, kind: k, facts: m }),
        _ => if flags.luminance && !flags.alpha && !flags.alpha_pixels && flags.rgb_bit_count == Some(8u32) {
            let l8 = HeaderPixelFormat {
                flags: 0x20000,
                fourcc: None,
                rgb_bit_count: Some(8),
                r_bit_mask: Some(0xff),
                g_bit_mask: None,
                b_bit_mask: None,
                a_bit_mask: None,
            };
            Ok(TextureFormat { pixel_format: l8, kind: FormatKind::L8, facts: l8_facts() })
        } else {
            Err(DdsError::UnknownFormat)
        },
    }
}

/// The header bytes `ddsfile::Dds::write` emits for a file: magic and header.
pub uninterp spec fn dds_head_of(d: ddsfile::Dds) -> Seq<u8>;

/// The data bytes a `ddsfile::Dds` holds.
pub uninterp spec fn dds_data_of(d: ddsfile::Dds) -> Seq<u8>;

/// What `ddsfile::Dds::new_d3d` makes for a single-mip `w` x `h` surface of the D3D format
/// `ddsfile` maps `pf` to: the header bytes `write` would emit, and the data length; `None`
/// when no format maps or `new_d3d` refuses.
pub uninterp spec fn dds_created(pf: HeaderPixelFormat, w: u32, h: u32) -> Option<(Seq<u8>, nat)>;

/// Whether `ddsfile`'s size arithmetic for a `w` x `h` surface stays within `u32`: a row
/// pitch of at most `16 * w + 16` bytes (128 bits per pixel, or 4x4 blocks of 16 bytes),
/// times at most `h` rows.
pub open spec fn container_fits(w: nat, h: nat) -> bool {
    w * 128 <= u32::MAX && (16 * w + 16) * h <= u32::MAX
}

fn container_fits_exec(w: u32, h: u32) -> (b: bool)
    ensures
        b == container_fits(w as nat, h as nat),
{
    let a: u128 = 16 * (w as u128) + 16;
    assert(a * h <= 0x1_0000_0000_0 * 0x1_0000_0000) by (nonlinear_arith)
        requires
            a <= 0x1_0000_0000_0,
            h <= 0xffff_ffff,
    ;
    (w as u128) * 128 <= u32::MAX as u128 && a * (h as u128) <= u32::MAX as u128
}

/// `ddsfile::D3DFormat::try_from_pixel_format` on `pf`, then `ddsfile::Dds::new_d3d` for a
/// single-mip `width` x `height` surface of that format. Claimed: the outcome is
/// `dds_created(pf, width, height)`, whose header bytes are 128 long and start with `DDS `,
/// and whose data is that many zero bytes. Its sizes are computed in `u32`, so they must fit
/// (`container_fits`).
#[verifier::external_body]
fn dds_new(pf: HeaderPixelFormat, width: u32, height: u32) -> (r: Option<ddsfile::Dds>)
    requires
        container_fits(width as nat, height as nat),
    ensures
        r is None <==> dds_created(pf, width, height) is None,
        r matches Some(d) ==> dds_head_of(d) == dds_created(pf, width, height)->Some_0.0 && dds_data_of(d) == Seq::new(
            dds_created(pf, width, height)->Some_0.1,
            |i: int| 0u8,
        ) && dds_head_of(d).len() == 128 && dds_head_of(d).subrange(0, 4) == seq![0x44u8, 0x44, 0x53, 0x20],
{
    let spf = ddsfile::PixelFormat { size: 32, flags: ddsfile::PixelFormatFlags::from_bits_truncate(pf.flags),
        fourcc: pf.fourcc.map(ddsfile::FourCC), rgb_bit_count: pf.rgb_bit_count, r_bit_mask: pf.r_bit_mask,
        g_bit_mask: pf.g_bit_mask, b_bit_mask: pf.b_bit_mask, a_bit_mask: pf.a_bit_mask };
    let format = ddsfile::D3DFormat::try_from_pixel_format(&spf)?;
    ddsfile::Dds::new_d3d(ddsfile::NewD3dParams { height, width, depth: None, format, mipmap_levels: Some(1), caps2: None }).ok()
}

/// `u32` little-endian, `0` for `None`.
pub open spec fn le_or_zero(x: Option<u32>) -> Seq<u8> {
    vstd::bytes::spec_u32_to_le_bytes(
        match x {
            Some(v) => v,
            None => 0,
        },
    )
}

/// The bits `ddsfile`'s `PixelFormatFlags` knows (ALPHA_PIXELS, ALPHA, FOURCC, RGB, YUV,
/// LUMINANCE); it drops others when it takes flags in.
pub open spec fn pixel_format_flag_bits() -> u32 {
    0x20247
}

/// The 32 bytes `ddsfile` writes for a pixel format: size 32, the known flags, FourCC, bit
/// count and the four masks, a missing value as 0.
pub open spec fn pixel_format_bytes(p: HeaderPixelFormat) -> Seq<u8> {
    vstd::bytes::spec_u32_to_le_bytes(32) + vstd::bytes::spec_u32_to_le_bytes(p.flags & pixel_format_flag_bits())
        + le_or_zero(p.fourcc) + le_or_zero(
        p.rgb_bit_count,
    ) + le_or_zero(p.r_bit_mask) + le_or_zero(p.g_bit_mask) + le_or_zero(p.b_bit_mask) + le_or_zero(p.a_bit_mask)
}

/// Header bytes with the pixel format replaced: it sits at bytes 76 to 108 (after the magic
/// and 72 bytes of header).
pub open spec fn with_pixel_format(head: Seq<u8>, p: HeaderPixelFormat) -> Seq<u8> {
    head.subrange(0, 76) + pixel_format_bytes(p) + head.subrange(108, head.len() as int)
}

/// Replaces the header's pixel format (`dds.header.spf`). Claimed: the written header then
/// holds `p`'s 32 bytes at 76 to 108 (`ddsfile` writes the magic, seven words, eleven reserved
/// words, then the pixel format); the data is unchanged.
#[verifier::external_body]
fn dds_set_pixel_format(d: &mut ddsfile::Dds, p: HeaderPixelFormat)
    requires
        dds_head_of(*old(d)).len() == 128,
    ensures
        dds_head_of(*final(d)) == with_pixel_format(dds_head_of(*old(d)), p),
        dds_data_of(*final(d)) == dds_data_of(*old(d)),
{
    d.header.spf = ddsfile::PixelFormat { size: 32, flags: ddsfile::PixelFormatFlags::from_bits_truncate(p.flags),
        fourcc: p.fourcc.map(ddsfile::FourCC), rgb_bit_count: p.rgb_bit_count, r_bit_mask: p.r_bit_mask,
        g_bit_mask: p.g_bit_mask, b_bit_mask: p.b_bit_mask, a_bit_mask: p.a_bit_mask };
}

/// The length of `dds.data`.
#[verifier::external_body]
fn dds_data_len(d: &ddsfile::Dds) -> (n: usize)
    ensures
        n == dds_data_of(*d).len(),
{
    d.data.len()
}

/// Copies `body` to the start of `dds.data`. Claimed: the data becomes `body` followed by the
/// rest of the old data; the header is unchanged.
#[verifier::external_body]
fn dds_put_body(d: &mut ddsfile::Dds, body: &[u8])
    requires
        body@.len() <= dds_data_of(*old(d)).len(),
    ensures
        dds_data_of(*final(d)) == body@ + dds_data_of(*old(d)).subrange(body@.len() as int, dds_data_of(*old(d)).len() as int),
        dds_head_of(*final(d)) == dds_head_of(*old(d)),
{
    d.data[..body.len()].copy_from_slice(body);
}

/// `ddsfile::Dds::write` into a `Vec`. Claimed: the header bytes, then the data (writing into a
/// `Vec` cannot fail).
#[verifier::external_body]
fn dds_write(d: &ddsfile::Dds) -> (out: Vec<u8>)
    ensures
        out@ == dds_head_of(*d) + dds_data_of(*d),
{
    let mut out = Vec::new();
    let _ = d.write(&mut out);
    out
}

/// What encoding an RGBA8 image in a format fails with, if anything: a buffer that is not
/// `width * height * 4` bytes, a surface that cannot be encoded within the address space or
/// whose sizes overflow the container's `u32` fields (`Unencodable`), or an error of the
/// surface encoding itself.
pub open spec fn encode_error_spec(w: u32, h: u32, rgba: Seq<u8>, f: (FormatKind, FormatFacts)) -> Option<DdsError> {
    if rgba.len() != w * h * 4 {
        Some(DdsError::RgbaSizeMismatch(rgba.len() as usize, w, h))
    } else if !encode_defined(w, h, surface_of(f)) || !container_fits(w as nat, h as nat) {
        Some(DdsError::Unencodable(w, h))
    } else {
        match encode_spec(w, h, surface_of(f), rgba) {
            Err(e) => Some(e),
            Ok(_) => None,
        }
    }
}

/// The DDS file an RGBA8 `w` x `h` image is written as in format `f`: `encode_error_spec`'s
/// error if any; `ContainerRefused` when `ddsfile` makes no file of that format and size;
/// `BodyTooLarge` when the surface data is longer than the data `ddsfile` allocates; else the
/// header (its pixel format replaced by `header_pixel_format_spec`'s for single-channel
/// formats), the surface data, and zeros up to the allocated length.
pub open spec fn encode_file_spec(w: u32, h: u32, rgba: Seq<u8>, f: TextureFormat) -> Result<Seq<u8>, DdsError> {
    match encode_error_spec(w, h, rgba, (f.kind, f.facts)) {
        Some(e) => Err(e),
        None => match dds_created(f.pixel_format, w, h) {
            None => Err(DdsError::ContainerRefused),
            Some((head, n)) => {
                let body = encode_spec(w, h, surface_of((f.kind, f.facts)), rgba)->Ok_0;
                if body.len() > n {
                    Err(DdsError::BodyTooLarge(body.len() as usize, n as usize))
                } else {
                    let head2 = match header_pixel_format_spec(f.kind) {
                        Some(p) => with_pixel_format(head, p),
                        None => head,
                    };
                    Ok(head2 + body + Seq::new((n - body.len()) as nat, |i: int| 0u8))
                }
            },
        },
    }
}

/// Encodes an RGBA8 `width` x `height` image as a single-mip DDS file in `format` (see
/// `encode_file_spec`).
pub fn encode(width: u32, height: u32, rgba: &[u8], format: &TextureFormat) -> (r: Result<Vec<u8>, DdsError>)
    ensures
        match encode_file_spec(width, height, rgba@, *format) {
            Err(e) => r == Err::<Vec<u8>, DdsError>(e),
            Ok(b) => r matches Ok(out) && out@ == b,
        },
{
    check_rgba_len(width, height, rgba.len())?;
    let (bits, r, g, b, a) = format.facts;
    let surface = surface_format(format.kind, bits, r, g, b, a);
    if !encodable(width, height, surface) || !container_fits_exec(width, height) {
        return Err(DdsError::Unencodable(width, height));
    }
    let body = encode_body(width, height, rgba, surface)?;
    let mut dds = match dds_new(format.pixel_format, width, height) {
        None => return Err(DdsError::ContainerRefused),
        Some(d) => d,
    };
    let n = dds_data_len(&dds);
    if body.len() > n {
        return Err(DdsError::BodyTooLarge(body.len(), n));
    }
    match header_pixel_format(format.kind) {
        Some(p) => dds_set_pixel_format(&mut dds, p),
        None => {},
    }
    let ghost data0 = dds_data_of(dds);
    dds_put_body(&mut dds, body.as_slice());
    proof {
        assert(data0.subrange(body@.len() as int, data0.len() as int) =~= Seq::new(
            (data0.len() - body@.len()) as nat,
            |i: int| 0u8,
        ));
    }
    Ok(dds_write(&dds))
}

/// Decoding a surface looks at its top-level mip only: data after it changes nothing.
proof fn lemma_decode_ignores_tail(w: u32, h: u32, f: SurfaceFormat, d: Seq<u8>, tail: Seq<u8>)
    requires
        mip_size(w, h, f) matches Ok(n) && d.len() >= n,
    ensures
        decode_spec(w, h, f, d + tail) == decode_spec(w, h, f, d),
{
    let n = mip_size(w, h, f)->Ok_0;
    assert((d + tail).subrange(0, n) =~= d.subrange(0, n));
}

/// What is written is what is read: the data part of a DDS file `encode` writes (the
/// allocated data at its end) decodes, in the texture's format, back to the image for formats
/// with four whole-byte channels, and to opaque gray of each pixel's red value for 8-bit
/// single-channel formats (so an opaque gray image comes back unchanged).
pub proof fn lemma_encoded_data_decodes(w: u32, h: u32, rgba: Seq<u8>, f: TextureFormat)
    requires
        encode_file_spec(w, h, rgba, f) is Ok,
        byte_channel_format(surface_of((f.kind, f.facts))) || gray_format(surface_of((f.kind, f.facts))),
    ensures
        ({
            let out = encode_file_spec(w, h, rgba, f)->Ok_0;
            let n = dds_created(f.pixel_format, w, h)->Some_0.1;
            let s = surface_of((f.kind, f.facts));
            &&& n <= out.len()
            &&& decode_spec(w, h, s, out.subrange(out.len() - n, out.len() as int)) == Ok::<Seq<u8>, DdsError>(
                if byte_channel_format(s) { rgba } else { gray_upto(rgba, (w * h) as nat) },
            )
        }),
{
    let s = surface_of((f.kind, f.facts));
    let out = encode_file_spec(w, h, rgba, f)->Ok_0;
    let (head, n) = dds_created(f.pixel_format, w, h)->Some_0;
    let body = encode_spec(w, h, s, rgba)->Ok_0;
    let head2 = match header_pixel_format_spec(f.kind) {
        Some(p) => with_pixel_format(head, p),
        None => head,
    };
    let zeros = Seq::new((n - body.len()) as nat, |i: int| 0u8);
    assert(out == head2 + body + zeros);
    assert(out.subrange(out.len() - n, out.len() as int) =~= body + zeros);
    if byte_channel_format(s) {
        lemma_byte_channels_round_trip(w, h, s, rgba);
    } else {
        lemma_gray_round_trip(w, h, s, rgba);
    }
    lemma_decode_ignores_tail(w, h, s, body, zeros);
}

} // verus!
