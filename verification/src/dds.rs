//! DDS pixel data to and from RGBA8. Uncompressed formats keep each channel under a bit mask
//! of the pixel's little-endian word, scaled between its own bit depth and 8 bits; formats
//! with one channel (luminance, alpha) are shown as opaque grayscale. Block-compressed formats
//! (BC1 to BC3) go through `texpresso`. The DDS container around a surface is
//! `ddscontainer`'s.

use vstd::prelude::*;
use vstd::std_specs::bits::{u32_trailing_zeros, axiom_u32_trailing_zeros};

verus! {

/// A decoded image: width, height and RGBA8 pixels, row by row.
#[derive(Debug, Clone)]
pub struct DecodedImage {
    pub width: u32,
    pub height: u32,
    pub rgba: Vec<u8>,
}

/// Where an uncompressed format keeps its channels: bytes per pixel, the red, green and
/// blue masks (0 for a channel it lacks), the alpha mask if it has alpha, and, for a format
/// with a single channel, that channel's mask.
#[derive(Debug, Clone, Copy, PartialEq, Eq, Structural)]
pub struct ChannelLayout {
    pub bytes_per_pixel: u32,
    pub r_mask: u32,
    pub g_mask: u32,
    pub b_mask: u32,
    pub a_mask: Option<u32>,
    pub value_mask: Option<u32>,
}

/// Why pixel data could not be converted.
#[derive(Debug, Clone, Copy, PartialEq, Eq, Structural)]
pub enum DdsError {
    /// The format has no fixed bit depth (a block-compressed one).
    NoFixedBitDepth,
    /// The format's bit depth is not a whole number of bytes.
    NotByteAligned(u8),
    /// The data holds fewer bytes than the image needs: (got, needed).
    DataTooShort(usize, usize),
    /// The DDS data holds fewer bytes than its top-level mip: (got, needed).
    MipTooShort(usize, usize),
    /// The RGBA buffer's length is not `width * height * 4`: (length, width, height).
    RgbaSizeMismatch(usize, u32, u32),
    /// A block-compressed surface too wide or too tall for the block codec's row and block
    /// arithmetic on this machine: (width, height).
    SurfaceTooLarge(u32, u32),
    /// The bytes are not a DDS file.
    NotDds,
    /// The DDS file's pixel format is not a recognised D3D format.
    UnknownFormat,
    /// The surface's size and format cannot be converted within the address space, or its
    /// pixels are wider than 4 bytes: (width, height).
    Undecodable(u32, u32),
    /// The image cannot be encoded in the format within the address space, or the format's
    /// pixels are wider than 4 bytes: (width, height).
    Unencodable(u32, u32),
    /// `ddsfile` refused to build a file of that format and size.
    ContainerRefused,
    /// The encoded surface is longer than the data `ddsfile` allocated: (surface, allocated).
    BodyTooLarge(usize, usize),
}

/// Bytes per pixel from a format's bits per pixel.
pub open spec fn bytes_per_pixel_spec(bits: Option<u8>) -> Result<u32, DdsError> {
    match bits {
        None => Err(DdsError::NoFixedBitDepth),
        Some(b) => if b % 8 != 0 {
            Err(DdsError::NotByteAligned(b))
        } else {
            Ok((b / 8) as u32)
        },
    }
}

/// Bytes per pixel for a format of `bits` bits per pixel (see `bytes_per_pixel_spec`).
pub fn bytes_per_pixel(bits: Option<u8>) -> (r: Result<u32, DdsError>)
    ensures
        r == bytes_per_pixel_spec(bits),
{
    match bits {
        None => Err(DdsError::NoFixedBitDepth),
        Some(b) => if b % 8 != 0 {
            Err(DdsError::NotByteAligned(b))
        } else {
            Ok((b / 8) as u32)
        },
    }
}

/// The number of set bits of `m`.
pub open spec fn popcount(m: u32) -> nat
    decreases m,
{
    if m == 0 {
        0
    } else {
        (m % 2) as nat + popcount(m / 2)
    }
}

proof fn lemma_popcount_bound(m: u32, k: nat)
    requires
        m < pow2_u32(k),
        k <= 32,
    ensures
        popcount(m) <= k,
    decreases k,
{
    if k > 0 && m != 0 {
        lemma_popcount_bound(m / 2, (k - 1) as nat);
    }
}

/// `2^k` for `k <= 32`.
pub open spec fn pow2_u32(k: nat) -> int
    decreases k,
{
    if k == 0 {
        1
    } else {
        2 * pow2_u32((k - 1) as nat)
    }
}

proof fn lemma_pow2_32()
    ensures
        pow2_u32(32) == 0x1_0000_0000,
{
    reveal_with_fuel(pow2_u32, 33);
}

fn count_ones(m: u32) -> (c: u32)
    ensures
        c == popcount(m),
        c <= 32,
{
    proof {
        lemma_pow2_32();
        lemma_popcount_bound(m, 32);
    }
    let mut x = m;
    let mut c: u32 = 0;
    while x != 0
        invariant
            c + popcount(x) == popcount(m),
            popcount(m) <= 32,
        decreases x,
    {
        assert(x & 1 == x % 2) by (bit_vector);
        assert(x >> 1 == x / 2) by (bit_vector);
        c = c + (x & 1);
        x = x >> 1;
    }
    c
}

/// The 8-bit value of the channel under `mask` in `pixel`: the masked bits shifted down,
/// then scaled to 8 bits (a deeper channel keeps its top 8 bits; a shallower one is shifted
/// up with its own bits repeated below).
pub open spec fn extract_spec(pixel: u32, mask: u32) -> u8 {
    if mask == 0 {
        0
    } else {
        let shift = u32_trailing_zeros(mask);
        let bits = popcount(mask);
        let value = (pixel & mask) >> shift;
        if bits >= 8 {
            (value >> ((bits - 8) as u32)) as u8
        } else {
            ((value << ((8 - bits) as u32)) | value) as u8
        }
    }
}

/// The channel under `mask` of `pixel` as an 8-bit value (see `extract_spec`).
pub fn extract_channel(pixel: u32, mask: u32) -> (r: u8)
    ensures
        r == extract_spec(pixel, mask),
{
    if mask == 0 {
        return 0;
    }
    proof {
        axiom_u32_trailing_zeros(mask);
    }
    let shift = mask.trailing_zeros();
    let bits = count_ones(mask);
    let value = (pixel & mask) >> shift;
    if bits >= 8 {
        (value >> (bits - 8)) as u8
    } else {
        ((value << (8 - bits)) | value) as u8
    }
}

/// An 8-bit value placed under `mask`: scaled to the channel's bit depth (up by shifting
/// left, down by keeping the top bits) and shifted into place.
pub open spec fn place_spec(value: u8, mask: u32) -> u32 {
    if mask == 0 {
        0
    } else {
        let shift = u32_trailing_zeros(mask);
        let bits = popcount(mask);
        let scaled: u32 = if bits >= 8 {
            ((value as u32) << ((bits - 8) as u32)) as u32
        } else {
            ((value as u32) >> ((8 - bits) as u32)) as u32
        };
        (scaled << shift) & mask
    }
}

/// `value` placed into the channel under `mask` (see `place_spec`).
pub fn place_channel(value: u8, mask: u32) -> (r: u32)
    ensures
        r == place_spec(value, mask),
{
    if mask == 0 {
        return 0;
    }
    proof {
        axiom_u32_trailing_zeros(mask);
    }
    let shift = mask.trailing_zeros();
    let bits = count_ones(mask);
    let scaled: u32 = if bits >= 8 {
        (value as u32) << (bits - 8)
    } else {
        (value as u32) >> (8 - bits)
    };
    (scaled << shift) & mask
}

/// The `u32` whose little-endian bytes are the first four of `b`.
pub open spec fn le_word(b: Seq<u8>) -> u32 {
    (b[0] as u32) | ((b[1] as u32) << 8u32) | ((b[2] as u32) << 16u32) | ((b[3] as u32) << 24u32)
}

/// The four little-endian bytes of `x`.
pub open spec fn le_bytes(x: u32) -> Seq<u8> {
    seq![(x & 0xff) as u8, ((x >> 8u32) & 0xff) as u8, ((x >> 16u32) & 0xff) as u8, ((x >> 24u32) & 0xff) as u8]
}

/// The pixel word of pixel `i`: its `bpp` bytes, little-endian, zero above them.
pub open spec fn pixel_word(d: Seq<u8>, i: int, bpp: int) -> u32 {
    le_word(d.subrange(i * bpp, i * bpp + bpp) + Seq::new((4 - bpp) as nat, |k: int| 0u8))
}

/// A pixel word as RGBA8: a one-channel format as opaque gray, otherwise each channel from
/// its mask, alpha 255 without an alpha mask.
pub open spec fn rgba_of(p: u32, l: ChannelLayout) -> Seq<u8> {
    match l.value_mask {
        Some(m) => {
            let v = extract_spec(p, m);
            seq![v, v, v, 255u8]
        },
        None => seq![
            extract_spec(p, l.r_mask),
            extract_spec(p, l.g_mask),
            extract_spec(p, l.b_mask),
            match l.a_mask {
                Some(a) => extract_spec(p, a),
                None => 255u8,
            },
        ],
    }
}

/// The RGBA8 bytes of the first `k` pixels.
pub open spec fn unpacked_upto(d: Seq<u8>, l: ChannelLayout, k: nat) -> Seq<u8>
    decreases k,
{
    if k == 0 {
        Seq::empty()
    } else {
        unpacked_upto(d, l, (k - 1) as nat) + rgba_of(pixel_word(d, k - 1, l.bytes_per_pixel as int), l)
    }
}

proof fn lemma_unpacked_len(d: Seq<u8>, l: ChannelLayout, k: nat)
    ensures
        unpacked_upto(d, l, k).len() == 4 * k,
    decreases k,
{
    if k > 0 {
        lemma_unpacked_len(d, l, (k - 1) as nat);
    }
}

/// Whether unpacking a `width` x `height` image from `d` can run to the end: the sizes fit
/// the address space, and when the data is long enough, the pixel width is 1 to 4 bytes
/// (0 bytes only for an image without pixels is still refused).
pub open spec fn unpack_defined(len: int, width: u32, height: u32, l: ChannelLayout) -> bool {
    let n = width * height;
    &&& n <= usize::MAX
    &&& n * l.bytes_per_pixel <= usize::MAX
    &&& len >= n * l.bytes_per_pixel ==> (n * 4 <= isize::MAX && 1 <= l.bytes_per_pixel && (n > 0
        ==> l.bytes_per_pixel <= 4))
}

/// Unpacks `width * height` pixels of an uncompressed format into RGBA8; refused when the
/// data is shorter than the image.
pub fn unpack_pixels(data: &[u8], width: u32, height: u32, l: ChannelLayout) -> (r: Result<Vec<u8>, DdsError>)
    requires
        unpack_defined(data@.len() as int, width, height, l),
    ensures
        data@.len() < width * height * l.bytes_per_pixel ==> r == Err::<Vec<u8>, DdsError>(
            DdsError::DataTooShort(data@.len() as usize, (width * height * l.bytes_per_pixel) as usize),
        ),
        data@.len() >= width * height * l.bytes_per_pixel ==> (r matches Ok(v) && v@ == unpacked_upto(
            data@,
            l,
            (width * height) as nat,
        )),
{
    let n: usize = (width as usize) * (height as usize);
    let bpp = l.bytes_per_pixel as usize;
    let expected = n * bpp;
    if data.len() < expected {
        return Err(DdsError::DataTooShort(data.len(), expected));
    }
    let dl = data.len();
    let mut out: Vec<u8> = Vec::new();
    let mut i: usize = 0;
    while i < n
        invariant
            dl == data@.len(),
            n == width * height,
            bpp == l.bytes_per_pixel,
            n > 0 ==> 1 <= bpp <= 4,
            data@.len() >= n * bpp,
            i <= n,
            out@ == unpacked_upto(data@, l, i as nat),
        decreases n - i,
    {
        assert(i * bpp + bpp <= n * bpp) by (nonlinear_arith)
            requires
                i < n,
        ;
        let start = i * bpp;
        let mut buf: [u8; 4] = [0u8; 4];
        let mut k: usize = 0;
        while k < bpp
            invariant
                bpp <= 4,
                dl == data@.len(),
                start + bpp <= data@.len(),
                k <= bpp,
                forall|q: int| 0 <= q < k ==> buf@[q] == data@[start + q],
                forall|q: int| k <= q < 4 ==> buf@[q] == 0,
            decreases bpp - k,
        {
            buf[k] = data[start + k];
            k += 1;
        }
        let p: u32 = (buf[0] as u32) | ((buf[1] as u32) << 8u32) | ((buf[2] as u32) << 16u32) | ((buf[3] as u32) << 24u32);
        proof {
            assert(buf@ =~= data@.subrange(i * bpp, i * bpp + bpp) + Seq::new((4 - bpp) as nat, |q: int| 0u8));
        }
        match l.value_mask {
            Some(m) => {
                let v = extract_channel(p, m);
                out.push(v);
                out.push(v);
                out.push(v);
                out.push(255);
            },
            None => {
                out.push(extract_channel(p, l.r_mask));
                out.push(extract_channel(p, l.g_mask));
                out.push(extract_channel(p, l.b_mask));
                out.push(
                    match l.a_mask {
                        Some(a) => extract_channel(p, a),
                        None => 255,
                    },
                );
            },
        }
        proof {
            assert(((i + 1) as nat - 1) as nat == i as nat);
            assert(out@ =~= unpacked_upto(data@, l, i as nat) + rgba_of(pixel_word(data@, i as int, bpp as int), l));
        }
        i += 1;
    }
    Ok(out)
}

/// An RGBA8 pixel as a pixel word: a one-channel format takes red, otherwise each channel is
/// placed under its mask (alpha only when the format has it).
pub open spec fn word_of(px: Seq<u8>, l: ChannelLayout) -> u32 {
    match l.value_mask {
        Some(m) => place_spec(px[0], m),
        None => {
            let rgb = place_spec(px[0], l.r_mask) | place_spec(px[1], l.g_mask) | place_spec(px[2], l.b_mask);
            match l.a_mask {
                Some(a) => rgb | place_spec(px[3], a),
                None => rgb,
            }
        },
    }
}

/// The stored bytes of the first `k` whole RGBA8 pixels: each word's low `bpp` bytes.
pub open spec fn packed_upto(rgba: Seq<u8>, l: ChannelLayout, k: nat) -> Seq<u8>
    decreases k,
{
    if k == 0 {
        Seq::empty()
    } else {
        packed_upto(rgba, l, (k - 1) as nat) + le_bytes(
            word_of(rgba.subrange(4 * (k - 1), (4 * k) as int), l),
        ).subrange(0, l.bytes_per_pixel as int)
    }
}

/// Packs RGBA8 pixels (a trailing partial pixel is ignored) into an uncompressed format.
pub fn pack_pixels(rgba: &[u8], l: ChannelLayout) -> (v: Vec<u8>)
    requires
        rgba@.len() >= 4 ==> l.bytes_per_pixel <= 4,
    ensures
        v@ == packed_upto(rgba@, l, (rgba@.len() / 4) as nat),
{
    let rl = rgba.len();
    let n = rl / 4;
    let bpp = l.bytes_per_pixel as usize;
    let mut out: Vec<u8> = Vec::new();
    let mut i: usize = 0;
    while i < n
        invariant
            rl == rgba@.len(),
            4 * n <= rl,
            n == rgba@.len() / 4,
            bpp == l.bytes_per_pixel,
            n > 0 ==> bpp <= 4,
            i <= n,
            out@ == packed_upto(rgba@, l, i as nat),
        decreases n - i,
    {
        let px = vstd::slice::slice_subrange(rgba, 4 * i, 4 * i + 4);
        let word: u32 = match l.value_mask {
            Some(m) => place_channel(px[0], m),
            None => {
                let rgb = place_channel(px[0], l.r_mask) | place_channel(px[1], l.g_mask) | place_channel(px[2], l.b_mask);
                match l.a_mask {
                    Some(a) => rgb | place_channel(px[3], a),
                    None => rgb,
                }
            },
        };
        let bytes: [u8; 4] = [
            (word & 0xff) as u8,
            ((word >> 8u32) & 0xff) as u8,
            ((word >> 16u32) & 0xff) as u8,
            ((word >> 24u32) & 0xff) as u8,
        ];
        assert(bytes@ =~= le_bytes(word));
        let mut k: usize = 0;
        let ghost before = out@;
        while k < bpp
            invariant
                bpp <= 4,
                bytes@.len() == 4,
                k <= bpp,
                out@ == before + bytes@.subrange(0, k as int),
            decreases bpp - k,
        {
            out.push(bytes[k]);
            proof {
                assert(bytes@.subrange(0, k + 1) =~= bytes@.subrange(0, k as int).push(bytes@[k as int]));
            }
            k += 1;
        }
        proof {
            assert(((i + 1) as nat - 1) as nat == i as nat);
            assert(px@ == rgba@.subrange(4 * i, 4 * (i + 1)));
        }
        i += 1;
    }
    out
}

// ---------------------------------------------------------------------------------------
// Surfaces
// ---------------------------------------------------------------------------------------

/// The block-compressed formats: BC1 (DXT1), BC2 (DXT2/3), BC3 (DXT4/5).
#[derive(Debug, Clone, Copy, PartialEq, Eq, Structural)]
pub enum BlockFormat {
    Bc1,
    Bc2,
    Bc3,
}

/// A surface's pixel format: block-compressed, or plain with the format's bits per pixel
/// (if fixed) and its channel masks.
#[derive(Debug, Clone, Copy, PartialEq, Eq, Structural)]
pub enum SurfaceFormat {
    Block(BlockFormat),
    Plain { bits: Option<u8>, r_mask: u32, g_mask: u32, b_mask: u32, a_mask: Option<u32>, value_mask: Option<u32> },
}

/// What the surface logic tells apart among D3D formats: the block-compressed ones, the two
/// single-channel ones, and all others.
#[derive(Debug, Clone, Copy, PartialEq, Eq, Structural)]
pub enum FormatKind {
    Dxt1,
    Dxt2,
    Dxt3,
    Dxt4,
    Dxt5,
    L8,
    A8,
    Other,
}

/// The block-compressed format of a D3D format, if it is one.
pub open spec fn bc_format_spec(k: FormatKind) -> Option<BlockFormat> {
    match k {
        FormatKind::Dxt1 => Some(BlockFormat::Bc1),
        FormatKind::Dxt2 | FormatKind::Dxt3 => Some(BlockFormat::Bc2),
        FormatKind::Dxt4 | FormatKind::Dxt5 => Some(BlockFormat::Bc3),
        _ => None,
    }
}

/// The block-compressed format of a D3D format (see `bc_format_spec`).
pub fn bc_format_for(k: FormatKind) -> (r: Option<BlockFormat>)
    ensures
        r == bc_format_spec(k),
{
    match k {
        FormatKind::Dxt1 => Some(BlockFormat::Bc1),
        FormatKind::Dxt2 | FormatKind::Dxt3 => Some(BlockFormat::Bc2),
        FormatKind::Dxt4 | FormatKind::Dxt5 => Some(BlockFormat::Bc3),
        _ => None,
    }
}

/// For a format with one channel that carries data, that channel's mask: luminance (held
/// under the red mask) for `L8`, alpha for `A8`; `None` for every other format.
pub open spec fn single_channel_spec(k: FormatKind, r_mask: Option<u32>, a_mask: Option<u32>) -> Option<u32> {
    match k {
        FormatKind::L8 => r_mask,
        FormatKind::A8 => a_mask,
        _ => None,
    }
}

/// The mask of a single-channel format's one channel (see `single_channel_spec`).
pub fn single_channel_mask(k: FormatKind, r_mask: Option<u32>, a_mask: Option<u32>) -> (r: Option<u32>)
    ensures
        r == single_channel_spec(k, r_mask, a_mask),
{
    match k {
        FormatKind::L8 => r_mask,
        FormatKind::A8 => a_mask,
        _ => None,
    }
}

/// The surface format of a D3D format of kind `k`, with its bits per pixel and its channel
/// masks as the format defines them: block-compressed for DXT1 to DXT5, else plain, with a
/// missing red, green or blue mask taken as 0.
pub open spec fn surface_format_spec(
    k: FormatKind,
    bits: Option<u8>,
    r: Option<u32>,
    g: Option<u32>,
    b: Option<u32>,
    a: Option<u32>,
) -> SurfaceFormat {
    match bc_format_spec(k) {
        Some(bc) => SurfaceFormat::Block(bc),
        None => SurfaceFormat::Plain {
            bits,
            r_mask: match r { Some(m) => m, None => 0 },
            g_mask: match g { Some(m) => m, None => 0 },
            b_mask: match b { Some(m) => m, None => 0 },
            a_mask: a,
            value_mask: single_channel_spec(k, r, a),
        },
    }
}

/// The surface format of a D3D format (see `surface_format_spec`).
pub fn surface_format(
    k: FormatKind,
    bits: Option<u8>,
    r: Option<u32>,
    g: Option<u32>,
    b: Option<u32>,
    a: Option<u32>,
) -> (f: SurfaceFormat)
    ensures
        f == surface_format_spec(k, bits, r, g, b, a),
{
    match bc_format_for(k) {
        Some(bc) => SurfaceFormat::Block(bc),
        None => SurfaceFormat::Plain {
            bits,
            r_mask: match r { Some(m) => m, None => 0 },
            g_mask: match g { Some(m) => m, None => 0 },
            b_mask: match b { Some(m) => m, None => 0 },
            a_mask: a,
            value_mask: single_channel_mask(k, r, a),
        },
    }
}

/// The pixel-format flags and bit count of a DDS header that `resolve_format` reads.
#[derive(Debug, Clone, Copy, PartialEq, Eq, Structural)]
pub struct HeaderPixelFlags {
    pub luminance: bool,
    pub alpha: bool,
    pub alpha_pixels: bool,
    pub rgb_bit_count: Option<u32>,
}

/// The D3D format of a DDS header: the one recognised from the header as it stands, else
/// `l8` for a header flagged luminance alone (no alpha flags) with 8 bits per pixel, else
/// none.
pub open spec fn resolve_format_spec<F>(recognized: Option<F>, l8: F, h: HeaderPixelFlags) -> Option<F> {
    match recognized {
        Some(f) => Some(f),
        None => if h.luminance && !h.alpha && !h.alpha_pixels && h.rgb_bit_count == Some(8u32) {
            Some(l8)
        } else {
            None
        },
    }
}

/// The D3D format of a DDS header, where the format that the container recognised
/// (`recognized`) misses 8-bit luminance headers (see `resolve_format_spec`).
pub fn resolve_format<F>(recognized: Option<F>, l8: F, h: HeaderPixelFlags) -> (r: Option<F>)
    ensures
        r == resolve_format_spec(recognized, l8, h),
{
    match recognized {
        Some(f) => Some(f),
        None => if h.luminance && !h.alpha && !h.alpha_pixels && h.rgb_bit_count == Some(8u32) {
            Some(l8)
        } else {
            None
        },
    }
}

/// Bytes per 4x4 block.
pub open spec fn block_bytes(f: BlockFormat) -> nat {
    match f {
        BlockFormat::Bc1 => 8,
        BlockFormat::Bc2 => 16,
        BlockFormat::Bc3 => 16,
    }
}

/// The bytes a `w` x `h` image takes block-compressed (`texpresso`'s `compressed_size`):
/// whole 4x4 blocks, rounding each side up.
pub open spec fn compressed_size_spec(f: BlockFormat, w: nat, h: nat) -> nat {
    ((w + 3) / 4) * ((h + 3) / 4) * block_bytes(f)
}

fn compressed_size(f: BlockFormat, w: u32, h: u32) -> (n: u128)
    ensures
        n == compressed_size_spec(f, w as nat, h as nat),
{
    let bw = (w as u128 + 3) / 4;
    let bh = (h as u128 + 3) / 4;
    let bs: u128 = match f {
        BlockFormat::Bc1 => 8,
        BlockFormat::Bc2 => 16,
        BlockFormat::Bc3 => 16,
    };
    assert(bw * bh <= 0x4000_0000 * 0x4000_0000) by (nonlinear_arith)
        requires
            bw <= 0x4000_0000,
            bh <= 0x4000_0000,
    ;
    let area = bw * bh;
    assert(area * bs <= 0x4000_0000 * 0x4000_0000 * 16) by (nonlinear_arith)
        requires
            area <= 0x4000_0000 * 0x4000_0000,
            bs <= 16,
    ;
    area * bs
}

/// `width * height * 4`, computed without overflow.
fn rgba_size(w: u32, h: u32) -> (n: u128)
    ensures
        n == w * h * 4,
{
    assert(w * h <= 0xffff_ffff * 0xffff_ffff) by (nonlinear_arith)
        requires
            w <= 0xffff_ffff,
            h <= 0xffff_ffff,
    ;
    let area = w as u128 * h as u128;
    area * 4
}

/// The RGBA8 image `texpresso` decompresses from block data of a `width` x `height` image.
pub uninterp spec fn bc_decoded(f: BlockFormat, data: Seq<u8>, width: nat, height: nat) -> Seq<u8>;

/// The block data `texpresso` compresses an RGBA8 `width` x `height` image to, with its
/// default parameters.
pub uninterp spec fn bc_encoded(f: BlockFormat, rgba: Seq<u8>, width: nat, height: nat) -> Seq<u8>;

/// Whether the block codec's row length (`16 * width` bytes of pixels) and block counts
/// (`(side + 3) / 4`) fit a `usize` for a `w` x `h` image.
pub open spec fn bc_fits(w: nat, h: nat) -> bool {
    w * 16 <= usize::MAX && h + 3 <= usize::MAX
}

fn bc_size_fits(w: u32, h: u32) -> (b: bool)
    ensures
        b == bc_fits(w as nat, h as nat),
{
    (w as u128) * 16 <= usize::MAX as u128 && (h as u128) + 3 <= usize::MAX as u128
}

/// `texpresso::Format::decompress` into a zeroed `width * height * 4` buffer. Claimed: the
/// output depends on the format, data and size alone (`bc_decoded`) and is that buffer's
/// size. The width must not be 0 (its row chunking refuses a zero width), and its row and
/// block arithmetic must not overflow (`bc_fits`).
#[verifier::external_body]
fn bc_decompress(f: BlockFormat, data: &[u8], width: usize, height: usize) -> (out: Vec<u8>)
    requires
        width > 0,
        bc_fits(width as nat, height as nat),
        data@.len() >= compressed_size_spec(f, width as nat, height as nat),
        width * height * 4 <= isize::MAX,
    ensures
        out@ == bc_decoded(f, data@, width as nat, height as nat),
        out@.len() == width * height * 4,
{
    let format = match f {
        BlockFormat::Bc1 => texpresso::Format::Bc1,
        BlockFormat::Bc2 => texpresso::Format::Bc2,
        BlockFormat::Bc3 => texpresso::Format::Bc3,
    };
    let mut out = vec![0u8; width * height * 4];
    format.decompress(data, width, height, &mut out);
    out
}

/// `texpresso::Format::compress` with `Params::default()` into a buffer of the compressed
/// size. Claimed: the output depends on the format, pixels and size alone (`bc_encoded`) and
/// is that buffer's size. The width must not be 0 (its row chunking refuses a zero width),
/// and its block arithmetic must not overflow (`bc_fits`).
#[verifier::external_body]
fn bc_compress(f: BlockFormat, rgba: &[u8], width: usize, height: usize) -> (out: Vec<u8>)
    requires
        width > 0,
        bc_fits(width as nat, height as nat),
        rgba@.len() == width * height * 4,
        compressed_size_spec(f, width as nat, height as nat) <= isize::MAX,
    ensures
        out@ == bc_encoded(f, rgba@, width as nat, height as nat),
        out@.len() == compressed_size_spec(f, width as nat, height as nat),
{
    let format = match f {
        BlockFormat::Bc1 => texpresso::Format::Bc1,
        BlockFormat::Bc2 => texpresso::Format::Bc2,
        BlockFormat::Bc3 => texpresso::Format::Bc3,
    };
    let mut out = vec![0u8; format.compressed_size(width, height)];
    format.compress(rgba, width, height, texpresso::Params::default(), &mut out);
    out
}

/// A plain format's channel layout with `bpp` bytes per pixel.
pub open spec fn plain_layout(f: SurfaceFormat, bpp: u32) -> ChannelLayout {
    match f {
        SurfaceFormat::Plain { bits, r_mask, g_mask, b_mask, a_mask, value_mask } => ChannelLayout {
            bytes_per_pixel: bpp,
            r_mask,
            g_mask,
            b_mask,
            a_mask,
            value_mask,
        },
        SurfaceFormat::Block(_) => ChannelLayout {
            bytes_per_pixel: bpp,
            r_mask: 0,
            g_mask: 0,
            b_mask: 0,
            a_mask: None,
            value_mask: None,
        },
    }
}

/// The size of a surface's top-level mip, or why the format has none.
pub open spec fn mip_size(w: u32, h: u32, f: SurfaceFormat) -> Result<int, DdsError> {
    match f {
        SurfaceFormat::Block(b) => Ok(compressed_size_spec(b, w as nat, h as nat) as int),
        SurfaceFormat::Plain { bits, .. } => match bytes_per_pixel_spec(bits) {
            Err(e) => Err(e),
            Ok(bpp) => Ok(w * h * bpp),
        },
    }
}

/// Whether decoding can run to the end: the sizes fit the address space, a block-compressed
/// surface whose data is long enough has a non-zero width, and a plain one can be unpacked.
pub open spec fn decode_defined(w: u32, h: u32, f: SurfaceFormat, len: int) -> bool {
    &&& w * h * 4 <= isize::MAX
    &&& match mip_size(w, h, f) {
        Err(_) => true,
        Ok(n) => n <= usize::MAX && (len >= n ==> match f {
            SurfaceFormat::Block(_) => w > 0,
            SurfaceFormat::Plain { bits, .. } => unpack_defined(n, w, h, plain_layout(f, bytes_per_pixel_spec(bits)->Ok_0)),
        }),
    }
}

/// The RGBA8 pixels of a surface's top-level mip.
pub open spec fn decode_spec(w: u32, h: u32, f: SurfaceFormat, d: Seq<u8>) -> Result<Seq<u8>, DdsError> {
    match mip_size(w, h, f) {
        Err(e) => Err(e),
        Ok(n) => if d.len() < n {
            Err(DdsError::MipTooShort(d.len() as usize, n as usize))
        } else {
            match f {
                SurfaceFormat::Block(b) => if bc_fits(w as nat, h as nat) {
                    Ok(bc_decoded(b, d.subrange(0, n), w as nat, h as nat))
                } else {
                    Err(DdsError::SurfaceTooLarge(w, h))
                },
                SurfaceFormat::Plain { bits, .. } => Ok(
                    unpacked_upto(d.subrange(0, n), plain_layout(f, bytes_per_pixel_spec(bits)->Ok_0), (w * h) as nat),
                ),
            }
        },
    }
}

/// Decodes the top-level mip of a `width` x `height` surface of format `format` whose data
/// is `data` (see `decode_spec`).
pub fn decode_surface(width: u32, height: u32, format: SurfaceFormat, data: &[u8]) -> (r: Result<DecodedImage, DdsError>)
    requires
        decode_defined(width, height, format, data@.len() as int),
    ensures
        match decode_spec(width, height, format, data@) {
            Err(e) => r == Err::<DecodedImage, DdsError>(e),
            Ok(px) => r matches Ok(img) && img.width == width && img.height == height && img.rgba@ == px,
        },
        r matches Ok(img) ==> img.rgba@.len() == width * height * 4,
{
    let main_size: usize = match format {
        SurfaceFormat::Block(b) => {
            let n = compressed_size(b, width, height);
            if n > data.len() as u128 {
                return Err(DdsError::MipTooShort(data.len(), n as usize));
            }
            n as usize
        },
        SurfaceFormat::Plain { bits, .. } => {
            let bpp = bytes_per_pixel(bits)?;
            assert(width * height * bpp <= 0xffff_ffff * 0xffff_ffff * 0xffff_ffff) by (nonlinear_arith)
                requires
                    width <= 0xffff_ffff,
                    height <= 0xffff_ffff,
                    bpp <= 0xffff_ffff,
            ;
            let area = width as u128 * height as u128;
            let n: u128 = area * bpp as u128;
            if n > data.len() as u128 {
                return Err(DdsError::MipTooShort(data.len(), n as usize));
            }
            n as usize
        },
    };
    let level0 = vstd::slice::slice_subrange(data, 0, main_size);
    let rgba = match format {
        SurfaceFormat::Block(b) => {
            if !bc_size_fits(width, height) {
                return Err(DdsError::SurfaceTooLarge(width, height));
            }
            bc_decompress(b, level0, width as usize, height as usize)
        },
        SurfaceFormat::Plain { bits, r_mask, g_mask, b_mask, a_mask, value_mask } => {
            let bpp = bytes_per_pixel(bits)?;
            let layout = ChannelLayout { bytes_per_pixel: bpp, r_mask, g_mask, b_mask, a_mask, value_mask };
            let px = unpack_pixels(level0, width, height, layout)?;
            proof {
                lemma_unpacked_len(level0@, layout, (width * height) as nat);
            }
            px
        },
    };
    Ok(DecodedImage { width, height, rgba })
}

/// Whether an RGBA8 buffer of `len` bytes is a `width` x `height` image.
pub fn check_rgba_len(width: u32, height: u32, len: usize) -> (r: Result<(), DdsError>)
    ensures
        len == width * height * 4 ==> r is Ok,
        len != width * height * 4 ==> r == Err::<(), DdsError>(DdsError::RgbaSizeMismatch(len, width, height)),
{
    if len as u128 != rgba_size(width, height) {
        Err(DdsError::RgbaSizeMismatch(len, width, height))
    } else {
        Ok(())
    }
}

/// What encoding an image into a surface's data gives.
pub open spec fn encode_spec(w: u32, h: u32, f: SurfaceFormat, rgba: Seq<u8>) -> Result<Seq<u8>, DdsError> {
    match f {
        SurfaceFormat::Block(b) => if bc_fits(w as nat, h as nat) {
            Ok(bc_encoded(b, rgba, w as nat, h as nat))
        } else {
            Err(DdsError::SurfaceTooLarge(w, h))
        },
        SurfaceFormat::Plain { bits, .. } => match bytes_per_pixel_spec(bits) {
            Err(e) => Err(e),
            Ok(bpp) => Ok(packed_upto(rgba, plain_layout(f, bpp), (rgba.len() / 4) as nat)),
        },
    }
}

/// Whether encoding can run to the end: a block-compressed image has a non-zero width and a
/// compressed size that fits, a plain one a pixel width of at most 4 bytes when it has pixels.
pub open spec fn encode_defined(w: u32, h: u32, f: SurfaceFormat) -> bool {
    match f {
        SurfaceFormat::Block(b) => w > 0 && compressed_size_spec(b, w as nat, h as nat) <= isize::MAX,
        SurfaceFormat::Plain { bits, .. } => match bytes_per_pixel_spec(bits) {
            Err(_) => true,
            Ok(bpp) => w * h > 0 ==> bpp <= 4,
        },
    }
}

/// The surface data for an RGBA8 `width` x `height` image in `format` (see `encode_spec`).
pub fn encode_body(width: u32, height: u32, rgba: &[u8], format: SurfaceFormat) -> (r: Result<Vec<u8>, DdsError>)
    requires
        rgba@.len() == width * height * 4,
        encode_defined(width, height, format),
    ensures
        match encode_spec(width, height, format, rgba@) {
            Err(e) => r == Err::<Vec<u8>, DdsError>(e),
            Ok(b) => r matches Ok(v) && v@ == b,
        },
{
    match format {
        SurfaceFormat::Block(b) => {
            if !bc_size_fits(width, height) {
                return Err(DdsError::SurfaceTooLarge(width, height));
            }
            Ok(bc_compress(b, rgba, width as usize, height as usize))
        },
        SurfaceFormat::Plain { bits, r_mask, g_mask, b_mask, a_mask, value_mask } => {
            let bpp = bytes_per_pixel(bits)?;
            let layout = ChannelLayout { bytes_per_pixel: bpp, r_mask, g_mask, b_mask, a_mask, value_mask };
            Ok(pack_pixels(rgba, layout))
        },
    }
}

/// Whether `decode_surface` is defined on a surface of this size and format with `len`
/// bytes of data (see `decode_defined`).
pub fn decodable(width: u32, height: u32, format: SurfaceFormat, len: usize) -> (b: bool)
    ensures
        b == decode_defined(width, height, format, len as int),
{
    let px = rgba_size(width, height);
    if px > isize::MAX as u128 {
        return false;
    }
    match format {
        SurfaceFormat::Block(bc) => {
            let n = compressed_size(bc, width, height);
            n <= usize::MAX as u128 && ((len as u128) < n || width > 0)
        },
        SurfaceFormat::Plain { bits, .. } => match bytes_per_pixel(bits) {
            Err(_) => true,
            Ok(bpp) => {
                assert(width * height * bpp <= 0xffff_ffff * 0xffff_ffff * 0xffff_ffff) by (nonlinear_arith)
                    requires
                        width <= 0xffff_ffff,
                        height <= 0xffff_ffff,
                        bpp <= 0xffff_ffff,
                ;
                let area = width as u128 * height as u128;
                let n = area * bpp as u128;
                if n > usize::MAX as u128 {
                    return false;
                }
                (len as u128) < n || (area * 4 <= isize::MAX as u128 && 1 <= bpp && (area == 0 || bpp <= 4))
            },
        },
    }
}

/// Whether `encode_body` is defined on an image of this size and format (see
/// `encode_defined`).
pub fn encodable(width: u32, height: u32, format: SurfaceFormat) -> (b: bool)
    ensures
        b == encode_defined(width, height, format),
{
    match format {
        SurfaceFormat::Block(bc) => {
            let n = compressed_size(bc, width, height);
            width > 0 && n <= isize::MAX as u128
        },
        SurfaceFormat::Plain { bits, .. } => match bytes_per_pixel(bits) {
            Err(_) => true,
            Ok(bpp) => {
                assert(width * height > 0 <==> (width > 0 && height > 0)) by (nonlinear_arith);
                (width == 0 || height == 0) || bpp <= 4
            },
        },
    }
}

} // verus!
