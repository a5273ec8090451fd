//! Why uncompressed pixels survive a round trip: for formats that keep each channel in a
//! whole byte, packing RGBA8 pixels and unpacking the result gives the same pixels back; for
//! single-channel formats, it gives the pixels back as opaque gray of their red value.

use vstd::prelude::*;
use vstd::std_specs::bits::{u32_trailing_zeros, axiom_u32_trailing_zeros};
use crate::dds::{
    ChannelLayout, SurfaceFormat, popcount, extract_spec, place_spec, pixel_word, rgba_of, unpacked_upto, word_of,
    packed_upto, plain_layout, le_word, le_bytes, decode_spec, encode_spec, bytes_per_pixel_spec, mip_size,
};

verus! {

/// One of the four byte-wide masks of a 32-bit pixel word.
pub open spec fn byte_mask(m: u32) -> bool {
    m == 0xffu32 || m == 0xff00u32 || m == 0xff_0000u32 || m == 0xff00_0000u32
}

/// The shift of a byte-wide mask.
spec fn byte_shift(m: u32) -> u32 {
    if m == 0xffu32 {
        0
    } else if m == 0xff00u32 {
        8
    } else if m == 0xff_0000u32 {
        16
    } else {
        24
    }
}

proof fn lemma_popcount_low_byte()
    ensures
        popcount(0xffu32) == 8,
{
    reveal_with_fuel(popcount, 10);
}

/// `popcount(2 * m) == popcount(m)`.
proof fn lemma_popcount_double(m: u32)
    requires
        m < 0x8000_0000,
    ensures
        popcount((2 * m) as u32) == popcount(m),
{
    reveal_with_fuel(popcount, 2);
    if m != 0 {
        assert(((2 * m) as u32) % 2 == 0);
        assert(((2 * m) as u32) / 2 == m);
    }
}

/// `popcount(m * 256) == popcount(m)`.
proof fn lemma_popcount_byte_up(m: u32)
    requires
        m < 0x0100_0000,
    ensures
        popcount((m * 256) as u32) == popcount(m),
{
    lemma_popcount_double(m);
    lemma_popcount_double((2 * m) as u32);
    lemma_popcount_double((4 * m) as u32);
    lemma_popcount_double((8 * m) as u32);
    lemma_popcount_double((16 * m) as u32);
    lemma_popcount_double((32 * m) as u32);
    lemma_popcount_double((64 * m) as u32);
    lemma_popcount_double((128 * m) as u32);
    assert((2 * ((2 * m) as u32)) as u32 == (4 * m) as u32);
    assert((2 * ((4 * m) as u32)) as u32 == (8 * m) as u32);
    assert((2 * ((8 * m) as u32)) as u32 == (16 * m) as u32);
    assert((2 * ((16 * m) as u32)) as u32 == (32 * m) as u32);
    assert((2 * ((32 * m) as u32)) as u32 == (64 * m) as u32);
    assert((2 * ((64 * m) as u32)) as u32 == (128 * m) as u32);
    assert((2 * ((128 * m) as u32)) as u32 == (m * 256) as u32);
}

proof fn lemma_popcount_byte_masks()
    ensures
        popcount(0xffu32) == 8,
        popcount(0xff00u32) == 8,
        popcount(0xff_0000u32) == 8,
        popcount(0xff00_0000u32) == 8,
{
    lemma_popcount_low_byte();
    lemma_popcount_byte_up(0xffu32);
    lemma_popcount_byte_up(0xff00u32);
    lemma_popcount_byte_up(0xff_0000u32);
}

proof fn lemma_byte_mask_shape(m: u32)
    requires
        byte_mask(m),
    ensures
        u32_trailing_zeros(m) == byte_shift(m),
        popcount(m) == 8,
        m == 0xffu32 << byte_shift(m),
{
    lemma_popcount_byte_masks();
    axiom_u32_trailing_zeros(m);
    let t = u32_trailing_zeros(m);
    let s = byte_shift(m);
    assert(m == 0xffu32 << s) by (bit_vector)
        requires
            m == 0xffu32 || m == 0xff00u32 || m == 0xff_0000u32 || m == 0xff00_0000u32,
            s == (if m == 0xffu32 { 0u32 } else if m == 0xff00u32 { 8u32 } else if m == 0xff_0000u32 { 16u32 } else { 24u32 }),
    ;
    assert((m >> s) & 1u32 == 1u32) by (bit_vector)
        requires
            m == 0xffu32 << s,
            s == 0u32 || s == 8u32 || s == 16u32 || s == 24u32,
    ;
    assert(t < s ==> (m >> t) & 1u32 == 0u32) by (bit_vector)
        requires
            m == 0xffu32 << s,
            s == 0u32 || s == 8u32 || s == 16u32 || s == 24u32,
    ;
    if t > s {
        assert((m >> s) & 1u32 == 0u32);
    }
}

/// A value placed under a byte-wide mask is the value shifted into that byte.
proof fn lemma_place_byte(v: u8, m: u32)
    requires
        byte_mask(m),
    ensures
        place_spec(v, m) == (v as u32) << byte_shift(m),
        place_spec(v, m) & m == place_spec(v, m),
{
    lemma_byte_mask_shape(m);
    let s = byte_shift(m);
    let x = v as u32;
    assert(x < 256);
    assert(((x << 0u32) << s) & m == x << s && (x << s) & m == x << s) by (bit_vector)
        requires
            x < 256,
            m == 0xffu32 << s,
            s == 0u32 || s == 8u32 || s == 16u32 || s == 24u32,
    ;
}

/// The value under a byte-wide mask is that byte of the word.
proof fn lemma_extract_byte(w: u32, m: u32)
    requires
        byte_mask(m),
    ensures
        extract_spec(w, m) as u32 == (w & m) >> byte_shift(m),
{
    lemma_byte_mask_shape(m);
    let s = byte_shift(m);
    let value = (w & m) >> s;
    assert(value < 256 && value >> 0u32 == value) by (bit_vector)
        requires
            value == (w & m) >> s,
            m == 0xffu32 << s,
            s == 0u32 || s == 8u32 || s == 16u32 || s == 24u32,
    ;
}

/// Two different byte-wide masks share no bit.
proof fn lemma_byte_masks_disjoint(m: u32, n: u32, x: u32)
    requires
        byte_mask(m),
        byte_mask(n),
        m != n,
        x & n == x,
    ensures
        x & m == 0,
{
    assert(x & m == 0) by (bit_vector)
        requires
            m == 0xffu32 || m == 0xff00u32 || m == 0xff_0000u32 || m == 0xff00_0000u32,
            n == 0xffu32 || n == 0xff00u32 || n == 0xff_0000u32 || n == 0xff00_0000u32,
            m != n,
            x & n == x,
    ;
}

/// Whether a layout keeps red, green, blue and alpha in four different whole bytes of a
/// 4-byte pixel (as `A8R8G8B8` and `A8B8G8R8` do).
pub open spec fn byte_channels(l: ChannelLayout) -> bool {
    &&& l.bytes_per_pixel == 4
    &&& l.value_mask is None
    &&& l.a_mask is Some
    &&& byte_mask(l.r_mask) && byte_mask(l.g_mask) && byte_mask(l.b_mask) && byte_mask(l.a_mask->Some_0)
    &&& l.r_mask != l.g_mask && l.r_mask != l.b_mask && l.r_mask != l.a_mask->Some_0
    &&& l.g_mask != l.b_mask && l.g_mask != l.a_mask->Some_0 && l.b_mask != l.a_mask->Some_0
}

/// For such a layout, a pixel's word gives back its four channels.
proof fn lemma_pixel_back(px: Seq<u8>, l: ChannelLayout)
    requires
        byte_channels(l),
        px.len() == 4,
    ensures
        rgba_of(word_of(px, l), l) == px,
{
    let a = l.a_mask->Some_0;
    let pr = place_spec(px[0], l.r_mask);
    let pg = place_spec(px[1], l.g_mask);
    let pb = place_spec(px[2], l.b_mask);
    let pa = place_spec(px[3], a);
    lemma_place_byte(px[0], l.r_mask);
    lemma_place_byte(px[1], l.g_mask);
    lemma_place_byte(px[2], l.b_mask);
    lemma_place_byte(px[3], a);
    let w = ((pr | pg) | pb) | pa;
    assert(word_of(px, l) == w);
    // Each channel's mask sees only its own placed value.
    lemma_byte_masks_disjoint(l.r_mask, l.g_mask, pg);
    lemma_byte_masks_disjoint(l.r_mask, l.b_mask, pb);
    lemma_byte_masks_disjoint(l.r_mask, a, pa);
    lemma_byte_masks_disjoint(l.g_mask, l.r_mask, pr);
    lemma_byte_masks_disjoint(l.g_mask, l.b_mask, pb);
    lemma_byte_masks_disjoint(l.g_mask, a, pa);
    lemma_byte_masks_disjoint(l.b_mask, l.r_mask, pr);
    lemma_byte_masks_disjoint(l.b_mask, l.g_mask, pg);
    lemma_byte_masks_disjoint(l.b_mask, a, pa);
    lemma_byte_masks_disjoint(a, l.r_mask, pr);
    lemma_byte_masks_disjoint(a, l.g_mask, pg);
    lemma_byte_masks_disjoint(a, l.b_mask, pb);
    let (rm, gm, bm) = (l.r_mask, l.g_mask, l.b_mask);
    assert(w & rm == pr && w & gm == pg && w & bm == pb && w & a == pa) by (bit_vector)
        requires
            w == ((pr | pg) | pb) | pa,
            pr & rm == pr && pg & rm == 0 && pb & rm == 0 && pa & rm == 0,
            pg & gm == pg && pr & gm == 0 && pb & gm == 0 && pa & gm == 0,
            pb & bm == pb && pr & bm == 0 && pg & bm == 0 && pa & bm == 0,
            pa & a == pa && pr & a == 0 && pg & a == 0 && pb & a == 0,
    ;
    assert(w & l.r_mask == pr);
    assert(w & l.g_mask == pg);
    assert(w & l.b_mask == pb);
    assert(w & a == pa);
    lemma_extract_byte(w, l.r_mask);
    lemma_extract_byte(w, l.g_mask);
    lemma_extract_byte(w, l.b_mask);
    lemma_extract_byte(w, a);
    lemma_byte_mask_shape(l.r_mask);
    lemma_byte_mask_shape(l.g_mask);
    lemma_byte_mask_shape(l.b_mask);
    lemma_byte_mask_shape(a);
    assert forall|v: u8, s: u32| s == 0u32 || s == 8u32 || s == 16u32 || s == 24u32 implies #[trigger] (((v as u32) << s)
        >> s) == v as u32 by {
        let x = v as u32;
        assert(x < 256);
        assert(x < 256 && (s == 0u32 || s == 8u32 || s == 16u32 || s == 24u32) ==> (x << s) >> s == x) by (bit_vector);
    }
    assert(rgba_of(w, l) =~= px);
}

/// Reading back the four little-endian bytes of a word gives the word.
proof fn lemma_le_round(x: u32)
    ensures
        le_bytes(x).len() == 4,
        le_word(le_bytes(x)) == x,
{
    let b = le_bytes(x);
    let (b0, b1, b2, b3) = (b[0], b[1], b[2], b[3]);
    assert(b0 == (x & 0xff) as u8 && b1 == ((x >> 8u32) & 0xff) as u8 && b2 == ((x >> 16u32) & 0xff) as u8 && b3 == ((x
        >> 24u32) & 0xff) as u8);
    assert((b0 as u32) | ((b1 as u32) << 8u32) | ((b2 as u32) << 16u32) | ((b3 as u32) << 24u32) == x) by (bit_vector)
        requires
            b0 == (x & 0xff) as u8,
            b1 == ((x >> 8u32) & 0xff) as u8,
            b2 == ((x >> 16u32) & 0xff) as u8,
            b3 == ((x >> 24u32) & 0xff) as u8,
    ;
}

/// The word packed for pixel `i`.
pub open spec fn packed_word(rgba: Seq<u8>, l: ChannelLayout, i: int) -> u32 {
    word_of(rgba.subrange(4 * i, 4 * i + 4), l)
}

/// The packed bytes of the first `n` pixels hold `bpp` bytes per pixel, the low bytes of
/// each pixel's word in turn.
proof fn lemma_packed_chunks(rgba: Seq<u8>, l: ChannelLayout, n: nat)
    requires
        1 <= l.bytes_per_pixel <= 4,
    ensures
        packed_upto(rgba, l, n).len() == n * l.bytes_per_pixel,
        forall|i: int|
            0 <= i < n ==> #[trigger] packed_upto(rgba, l, n).subrange(
                i * l.bytes_per_pixel,
                i * l.bytes_per_pixel + l.bytes_per_pixel,
            ) == le_bytes(packed_word(rgba, l, i)).subrange(0, l.bytes_per_pixel as int),
    decreases n,
{
    let b = l.bytes_per_pixel as int;
    if n > 0 {
        lemma_le_round(word_of(rgba.subrange(4 * ((n - 1) as int), 4 * (n as int)), l));
        let m = (n - 1) as nat;
        lemma_packed_chunks(rgba, l, m);
        let prev = packed_upto(rgba, l, m);
        let cur = packed_upto(rgba, l, n);
        let chunk = le_bytes(word_of(rgba.subrange(4 * (m as int), 4 * (n as int)), l)).subrange(0, b);
        assert(cur == prev + chunk);
        assert(m * b + b == n * b) by (nonlinear_arith)
            requires
                m + 1 == n,
        ;
        assert forall|i: int| 0 <= i < n implies #[trigger] cur.subrange(i * b, i * b + b)
            == le_bytes(packed_word(rgba, l, i)).subrange(0, b) by {
            if i < m {
                assert(i * b + b <= m * b) by (nonlinear_arith)
                    requires
                        i < m,
                        b >= 1,
                ;
                assert(0 <= i * b) by (nonlinear_arith)
                    requires
                        0 <= i,
                        b >= 1,
                ;
                assert(cur.subrange(i * b, i * b + b) =~= prev.subrange(i * b, i * b + b));
            } else {
                assert(i == m);
                assert(cur.subrange(i * b, i * b + b) =~= chunk);
            }
        }
    }
}

/// For a layout of four whole-byte channels, unpacking the first `k` packed pixels gives
/// back the first `k` RGBA8 pixels.
proof fn lemma_unpack_packed(rgba: Seq<u8>, l: ChannelLayout, n: nat, k: nat)
    requires
        byte_channels(l),
        k <= n,
        4 * n <= rgba.len(),
    ensures
        unpacked_upto(packed_upto(rgba, l, n), l, k) == rgba.subrange(0, 4 * (k as int)),
    decreases k,
{
    if k > 0 {
        let jn = (k - 1) as nat;
        let j = jn as int;
        lemma_unpack_packed(rgba, l, n, jn);
        lemma_packed_chunks(rgba, l, n);
        let d = packed_upto(rgba, l, n);
        assert(d.subrange(j * 4, j * 4 + 4) == le_bytes(packed_word(rgba, l, j)).subrange(0, 4));
        let chunk = d.subrange(j * 4, j * 4 + 4);
        lemma_le_round(packed_word(rgba, l, j));
        assert(chunk + Seq::new(0, |t: int| 0u8) =~= le_bytes(packed_word(rgba, l, j)));
        assert(pixel_word(d, j, 4) == packed_word(rgba, l, j));
        lemma_pixel_back(rgba.subrange(4 * j, 4 * j + 4), l);
        assert(rgba.subrange(0, 4 * (k as int)) =~= rgba.subrange(0, 4 * j) + rgba.subrange(4 * j, 4 * j + 4));
    }
}

/// Whether a layout keeps red, green and blue in three different whole bytes of a 4-byte
/// pixel, without alpha (as `X8R8G8B8` and `X8B8G8R8` do).
pub open spec fn rgb_byte_channels(l: ChannelLayout) -> bool {
    &&& l.bytes_per_pixel == 4
    &&& l.value_mask is None
    &&& l.a_mask is None
    &&& byte_mask(l.r_mask) && byte_mask(l.g_mask) && byte_mask(l.b_mask)
    &&& l.r_mask != l.g_mask && l.r_mask != l.b_mask && l.g_mask != l.b_mask
}

/// Packing keeps red, green and blue where a format without alpha has them: the word packed
/// for a pixel holds its red under the red mask, its green under the green mask and its blue
/// under the blue mask, so unpacking gives back the pixel with alpha 255.
pub proof fn lemma_rgb_pixel_back(px: Seq<u8>, l: ChannelLayout)
    requires
        rgb_byte_channels(l),
        px.len() == 4,
    ensures
        extract_spec(word_of(px, l), l.r_mask) == px[0],
        extract_spec(word_of(px, l), l.g_mask) == px[1],
        extract_spec(word_of(px, l), l.b_mask) == px[2],
        rgba_of(word_of(px, l), l) == seq![px[0], px[1], px[2], 255u8],
{
    let pr = place_spec(px[0], l.r_mask);
    let pg = place_spec(px[1], l.g_mask);
    let pb = place_spec(px[2], l.b_mask);
    lemma_place_byte(px[0], l.r_mask);
    lemma_place_byte(px[1], l.g_mask);
    lemma_place_byte(px[2], l.b_mask);
    let w = (pr | pg) | pb;
    assert(word_of(px, l) == w);
    lemma_byte_masks_disjoint(l.r_mask, l.g_mask, pg);
    lemma_byte_masks_disjoint(l.r_mask, l.b_mask, pb);
    lemma_byte_masks_disjoint(l.g_mask, l.r_mask, pr);
    lemma_byte_masks_disjoint(l.g_mask, l.b_mask, pb);
    lemma_byte_masks_disjoint(l.b_mask, l.r_mask, pr);
    lemma_byte_masks_disjoint(l.b_mask, l.g_mask, pg);
    let (rm, gm, bm) = (l.r_mask, l.g_mask, l.b_mask);
    assert(w & rm == pr && w & gm == pg && w & bm == pb) by (bit_vector)
        requires
            w == (pr | pg) | pb,
            pr & rm == pr && pg & rm == 0 && pb & rm == 0,
            pg & gm == pg && pr & gm == 0 && pb & gm == 0,
            pb & bm == pb && pr & bm == 0 && pg & bm == 0,
    ;
    lemma_extract_byte(w, l.r_mask);
    lemma_extract_byte(w, l.g_mask);
    lemma_extract_byte(w, l.b_mask);
    lemma_byte_mask_shape(l.r_mask);
    lemma_byte_mask_shape(l.g_mask);
    lemma_byte_mask_shape(l.b_mask);
    assert forall|v: u8, s: u32| s == 0u32 || s == 8u32 || s == 16u32 || s == 24u32 implies #[trigger] (((v as u32) << s)
        >> s) == v as u32 by {
        let x = v as u32;
        assert(x < 256);
        assert(x < 256 && (s == 0u32 || s == 8u32 || s == 16u32 || s == 24u32) ==> (x << s) >> s == x) by (bit_vector);
    }
    assert(rgba_of(w, l) =~= seq![px[0], px[1], px[2], 255u8]);
}

/// The first `k` RGBA8 pixels made opaque: alpha 255, red, green and blue kept.
pub open spec fn opaque_upto(rgba: Seq<u8>, k: nat) -> Seq<u8>
    decreases k,
{
    if k == 0 {
        Seq::empty()
    } else {
        let i = 4 * (k - 1);
        opaque_upto(rgba, (k - 1) as nat) + seq![rgba[i], rgba[i + 1], rgba[i + 2], 255u8]
    }
}

/// A format without alpha whose red, green and blue are whole bytes keeps every pixel's colour:
/// unpacking the packed pixels gives them back opaque.
pub proof fn lemma_rgb_round_trip(rgba: Seq<u8>, l: ChannelLayout, n: nat, k: nat)
    requires
        rgb_byte_channels(l),
        k <= n,
        4 * n <= rgba.len(),
    ensures
        unpacked_upto(packed_upto(rgba, l, n), l, k) == opaque_upto(rgba, k),
    decreases k,
{
    if k > 0 {
        let jn = (k - 1) as nat;
        let j = jn as int;
        lemma_rgb_round_trip(rgba, l, n, jn);
        lemma_packed_chunks(rgba, l, n);
        let d = packed_upto(rgba, l, n);
        assert(d.subrange(j * 4, j * 4 + 4) == le_bytes(packed_word(rgba, l, j)).subrange(0, 4));
        let chunk = d.subrange(j * 4, j * 4 + 4);
        lemma_le_round(packed_word(rgba, l, j));
        assert(chunk + Seq::new(0, |t: int| 0u8) =~= le_bytes(packed_word(rgba, l, j)));
        assert(pixel_word(d, j, 4) == packed_word(rgba, l, j));
        let px = rgba.subrange(4 * j, 4 * j + 4);
        lemma_rgb_pixel_back(px, l);
        assert(px[0] == rgba[4 * j] && px[1] == rgba[4 * j + 1] && px[2] == rgba[4 * j + 2]);
    }
}

/// Whether a surface format keeps red, green, blue and alpha in four different whole bytes
/// of a 32-bit pixel, as `A8R8G8B8` and `A8B8G8R8` do.
pub open spec fn byte_channel_format(f: SurfaceFormat) -> bool {
    f matches SurfaceFormat::Plain { bits, .. } && bits == Some(32u8) && byte_channels(plain_layout(f, 4))
}

/// An uncompressed format with four whole-byte channels is lossless: encoding a
/// `width` x `height` RGBA8 image and decoding the result gives the image back.
pub proof fn lemma_byte_channels_round_trip(width: u32, height: u32, f: SurfaceFormat, rgba: Seq<u8>)
    requires
        byte_channel_format(f),
        rgba.len() == width * height * 4,
    ensures
        encode_spec(width, height, f, rgba) matches Ok(body) && decode_spec(width, height, f, body) == Ok::<
            Seq<u8>,
            crate::dds::DdsError,
        >(rgba),
{
    let l = plain_layout(f, 4);
    assert(bytes_per_pixel_spec(Some(32u8)) == Ok::<u32, crate::dds::DdsError>(4));
    let n = (width * height) as nat;
    assert(rgba.len() / 4 == n);
    let body = packed_upto(rgba, l, n);
    assert(encode_spec(width, height, f, rgba) == Ok::<Seq<u8>, crate::dds::DdsError>(body));
    lemma_packed_chunks(rgba, l, n);
    assert(mip_size(width, height, f) == Ok::<int, crate::dds::DdsError>(width * height * 4));
    assert(body.subrange(0, (width * height * 4) as int) =~= body);
    lemma_unpack_packed(rgba, l, n, n);
    assert(rgba.subrange(0, 4 * (n as int)) =~= rgba);
}

/// The first `k` RGBA8 pixels as opaque gray of their red value.
pub open spec fn gray_upto(rgba: Seq<u8>, k: nat) -> Seq<u8>
    decreases k,
{
    if k == 0 {
        Seq::empty()
    } else {
        let r = rgba[4 * (k - 1)];
        gray_upto(rgba, (k - 1) as nat) + seq![r, r, r, 255u8]
    }
}

/// Every pixel is opaque gray: red, green and blue equal, alpha 255.
pub open spec fn opaque_gray(rgba: Seq<u8>) -> bool {
    forall|i: int|
        0 <= i < rgba.len() / 4 ==> rgba[4 * i + 1] == #[trigger] rgba[4 * i] && rgba[4 * i + 2] == rgba[4 * i]
            && rgba[4 * i + 3] == 255u8
}

/// Whether a surface format is an 8-bit format with one channel in its byte (as `L8` and
/// `A8` are).
pub open spec fn gray_format(f: SurfaceFormat) -> bool {
    f matches SurfaceFormat::Plain { bits, value_mask, .. } && bits == Some(8u8) && value_mask == Some(0xffu32)
}

proof fn lemma_unpack_packed_gray(rgba: Seq<u8>, l: ChannelLayout, n: nat, k: nat)
    requires
        l.bytes_per_pixel == 1,
        l.value_mask == Some(0xffu32),
        k <= n,
        4 * n <= rgba.len(),
    ensures
        unpacked_upto(packed_upto(rgba, l, n), l, k) == gray_upto(rgba, k),
    decreases k,
{
    if k > 0 {
        let jn = (k - 1) as nat;
        let j = jn as int;
        lemma_unpack_packed_gray(rgba, l, n, jn);
        lemma_packed_chunks(rgba, l, n);
        let d = packed_upto(rgba, l, n);
        let px = rgba.subrange(4 * j, 4 * j + 4);
        let v = px[0];
        lemma_place_byte(v, 0xffu32);
        lemma_byte_mask_shape(0xffu32);
        let w = packed_word(rgba, l, j);
        let x0 = v as u32;
        assert(x0 << 0u32 == x0) by (bit_vector);
        assert(word_of(px, l) == place_spec(v, 0xffu32));
        assert(w == v as u32);
        assert(d.subrange(j * 1, j * 1 + 1) == le_bytes(w).subrange(0, 1));
        let x = v as u32;
        assert(((x & 0xff) as u8) as u32 == x && ((x & 0xff) >> 0u32) == x) by (bit_vector)
            requires
                x < 256,
        ;
        let word = d.subrange(j, j + 1) + Seq::new(3, |t: int| 0u8);
        assert(word[0] == v && word[1] == 0 && word[2] == 0 && word[3] == 0);
        let (b0, b1, b2, b3) = (word[0], word[1], word[2], word[3]);
        assert((b0 as u32) | ((b1 as u32) << 8u32) | ((b2 as u32) << 16u32) | ((b3 as u32) << 24u32) == b0 as u32)
            by (bit_vector)
            requires
                b1 == 0u8 && b2 == 0u8 && b3 == 0u8,
        ;
        assert(pixel_word(d, j, 1) == x);
        lemma_extract_byte(x, 0xffu32);
        assert(extract_spec(x, 0xffu32) == v);
        assert(rgba[4 * j] == v);
    }
}

/// A single-channel 8-bit format keeps what it shows: encoding a `width` x `height` RGBA8
/// image and decoding the result gives each pixel back as opaque gray of its red value, so an
/// opaque gray image comes back unchanged.
pub proof fn lemma_gray_round_trip(width: u32, height: u32, f: SurfaceFormat, rgba: Seq<u8>)
    requires
        gray_format(f),
        rgba.len() == width * height * 4,
    ensures
        encode_spec(width, height, f, rgba) matches Ok(body) && decode_spec(width, height, f, body) == Ok::<
            Seq<u8>,
            crate::dds::DdsError,
        >(gray_upto(rgba, (width * height) as nat)),
        opaque_gray(rgba) ==> gray_upto(rgba, (width * height) as nat) == rgba,
{
    let l = plain_layout(f, 1);
    assert(bytes_per_pixel_spec(Some(8u8)) == Ok::<u32, crate::dds::DdsError>(1));
    let n = (width * height) as nat;
    assert(rgba.len() / 4 == n);
    let body = packed_upto(rgba, l, n);
    assert(encode_spec(width, height, f, rgba) == Ok::<Seq<u8>, crate::dds::DdsError>(body));
    lemma_packed_chunks(rgba, l, n);
    assert(mip_size(width, height, f) == Ok::<int, crate::dds::DdsError>(width * height * 1));
    assert(body.subrange(0, (width * height) as int) =~= body);
    lemma_unpack_packed_gray(rgba, l, n, n);
    if opaque_gray(rgba) {
        lemma_gray_identity(rgba, n);
        assert(rgba.subrange(0, 4 * (n as int)) =~= rgba);
    }
}

proof fn lemma_gray_identity(rgba: Seq<u8>, k: nat)
    requires
        opaque_gray(rgba),
        4 * k <= rgba.len(),
    ensures
        gray_upto(rgba, k) == rgba.subrange(0, 4 * (k as int)),
    decreases k,
{
    if k > 0 {
        let j = k - 1;
        lemma_gray_identity(rgba, (k - 1) as nat);
        assert(j < rgba.len() / 4);
        let r = rgba[4 * j];
        assert(rgba[4 * j + 1] == r && rgba[4 * j + 2] == r && rgba[4 * j + 3] == 255u8);
        assert(rgba.subrange(0, 4 * (k as int)) =~= rgba.subrange(0, 4 * j) + seq![r, r, r, 255u8]);
    }
}

} // verus!
