use ddsfile::{D3DFormat, DataFormat, Dds, PixelFormatFlags};
use risenlab::ddscontainer::{header_pixel_format, texture_format, HeaderPixelFormat, TextureFormat};
use risenlab::dds::{
    bc_format_for, bytes_per_pixel, check_rgba_len, decode_surface, encode_body, extract_channel,
    place_channel, resolve_format, single_channel_mask, surface_format, unpack_pixels, pack_pixels,
    BlockFormat, ChannelLayout, DdsError, DecodedImage, FormatKind, HeaderPixelFlags, SurfaceFormat, decodable,
    encodable,
};

fn kind_of(fmt: D3DFormat) -> FormatKind {
    match fmt {
        D3DFormat::DXT1 => FormatKind::Dxt1,
        D3DFormat::DXT2 => FormatKind::Dxt2,
        D3DFormat::DXT3 => FormatKind::Dxt3,
        D3DFormat::DXT4 => FormatKind::Dxt4,
        D3DFormat::DXT5 => FormatKind::Dxt5,
        D3DFormat::L8 => FormatKind::L8,
        D3DFormat::A8 => FormatKind::A8,
        _ => FormatKind::Other,
    }
}

fn surface_of(fmt: D3DFormat) -> SurfaceFormat {
    surface_format(
        kind_of(fmt),
        fmt.get_bits_per_pixel(),
        fmt.r_bit_mask(),
        fmt.g_bit_mask(),
        fmt.b_bit_mask(),
        fmt.a_bit_mask(),
    )
}

fn header_flags(dds: &Dds) -> HeaderPixelFlags {
    let spf = &dds.header.spf;
    HeaderPixelFlags {
        luminance: spf.flags.contains(PixelFormatFlags::LUMINANCE),
        alpha: spf.flags.contains(PixelFormatFlags::ALPHA),
        alpha_pixels: spf.flags.contains(PixelFormatFlags::ALPHA_PIXELS),
        rgb_bit_count: spf.rgb_bit_count,
    }
}

fn container_format(dds: &Dds) -> Option<D3DFormat> {
    resolve_format(dds.get_d3d_format(), D3DFormat::L8, header_flags(dds))
}

fn decode(dds_bytes: &[u8]) -> DecodedImage {
    risenlab::ddscontainer::decode(dds_bytes).unwrap()
}

/// A small DDS file of `fmt` as the game's files have it (single-channel formats with their
/// LUMINANCE / ALPHA header), and the texture format the library reads from it.
fn texture_format_of(fmt: D3DFormat) -> TextureFormat {
    let mut dds = Dds::new_d3d(ddsfile::NewD3dParams {
        height: 4,
        width: 4,
        depth: None,
        format: fmt,
        mipmap_levels: Some(1),
        caps2: None,
    })
    .unwrap();
    if let Some(h) = header_pixel_format(kind_of(fmt)) {
        dds.header.spf = ddsfile::PixelFormat {
            size: 32,
            flags: PixelFormatFlags::from_bits_truncate(h.flags),
            fourcc: None,
            rgb_bit_count: h.rgb_bit_count,
            r_bit_mask: h.r_bit_mask,
            g_bit_mask: h.g_bit_mask,
            b_bit_mask: h.b_bit_mask,
            a_bit_mask: h.a_bit_mask,
        };
    }
    let mut bytes = Vec::new();
    dds.write(&mut bytes).unwrap();
    let f = texture_format(&bytes).unwrap();
    assert_eq!(f.kind, kind_of(fmt));
    f
}

fn encode(width: u32, height: u32, rgba: &[u8], format: D3DFormat) -> Vec<u8> {
    risenlab::ddscontainer::encode(width, height, rgba, &texture_format_of(format)).unwrap()
}

fn checkerboard(width: u32, height: u32) -> Vec<u8> {
    let mut out = Vec::with_capacity((width * height * 4) as usize);
    for y in 0..height {
        for x in 0..width {
            let on = (x / 4 + y / 4) % 2 == 0;
            if on {
                out.extend_from_slice(&[255, 0, 0, 255]);
            } else {
                out.extend_from_slice(&[0, 0, 255, 128]);
            }
        }
    }
    out
}

fn grayscale_gradient(width: u32, height: u32) -> Vec<u8> {
    let mut out = Vec::with_capacity((width * height * 4) as usize);
    for y in 0..height {
        for x in 0..width {
            let v = ((x + y) * 255 / (width + height).max(1)) as u8;
            out.extend_from_slice(&[v, v, v, 255]);
        }
    }
    out
}

#[test]
fn dxt5_round_trip_preserves_dimensions_and_is_visually_close() {
    let (w, h) = (16, 16);
    let original = checkerboard(w, h);
    let dds_bytes = encode(w, h, &original, D3DFormat::DXT5);
    let decoded = decode(&dds_bytes);
    assert_eq!(decoded.width, w);
    assert_eq!(decoded.height, h);
    assert_eq!(decoded.rgba.len(), original.len());
    let mut max_diff = 0i32;
    for (a, b) in original.iter().zip(decoded.rgba.iter()) {
        max_diff = max_diff.max((*a as i32 - *b as i32).abs());
    }
    assert!(max_diff <= 40, "max channel diff too large: {max_diff}");
}

#[test]
fn dxt1_round_trip_preserves_dimensions() {
    let (w, h) = (8, 8);
    let original = checkerboard(w, h);
    let dds_bytes = encode(w, h, &original, D3DFormat::DXT1);
    let decoded = decode(&dds_bytes);
    assert_eq!((decoded.width, decoded.height), (w, h));
}

#[test]
fn a8r8g8b8_round_trip_is_lossless() {
    let (w, h) = (4, 4);
    let original = checkerboard(w, h);
    let dds_bytes = encode(w, h, &original, D3DFormat::A8R8G8B8);
    let decoded = decode(&dds_bytes);
    assert_eq!(decoded.rgba, original, "uncompressed format must round-trip exactly");
}

#[test]
fn a8b8g8r8_round_trip_is_lossless() {
    let (w, h) = (4, 4);
    let original = checkerboard(w, h);
    let dds_bytes = encode(w, h, &original, D3DFormat::A8B8G8R8);
    let decoded = decode(&dds_bytes);
    assert_eq!(decoded.rgba, original);
}

#[test]
fn l8_round_trips_through_two_full_encode_decode_cycles() {
    let (w, h) = (8, 8);
    let original = grayscale_gradient(w, h);
    let dds_bytes = encode(w, h, &original, D3DFormat::L8);
    let decoded = decode(&dds_bytes);
    assert_eq!(decoded.rgba, original, "L8 is lossless (no sub-byte packing)");

    let dds = Dds::read(&dds_bytes[..]).unwrap();
    assert!(dds.get_d3d_format().is_none());
    assert_eq!(container_format(&dds), Some(D3DFormat::L8), "resolve_format must recognize our own L8 output");
    let format = texture_format(&dds_bytes).expect("resolve_format must recognize our own L8 output");
    assert_eq!(format.pixel_format.flags, 0x20000);
    assert_eq!(format.kind, FormatKind::L8);

    let dds_bytes_2 = risenlab::ddscontainer::encode(w, h, &decoded.rgba, &format).unwrap();
    let decoded_2 = decode(&dds_bytes_2);
    assert_eq!(decoded_2.rgba, original);
}

#[test]
fn a8_round_trip_is_lossless_and_viewable_as_grayscale() {
    let (w, h) = (8, 8);
    let original = grayscale_gradient(w, h);
    let dds_bytes = encode(w, h, &original, D3DFormat::A8);
    let decoded = decode(&dds_bytes);
    assert_eq!(decoded.rgba, original);

    let dds = Dds::read(&dds_bytes[..]).unwrap();
    let format = dds.get_d3d_format().expect("A8 with the ALPHA-only flag must round-trip via ddsfile directly");
    assert_eq!(format, D3DFormat::A8);
}

#[test]
fn channel_extraction_scales_to_eight_bits() {
    assert_eq!(extract_channel(0x00ff_0000, 0x00ff_0000), 0xff);
    assert_eq!(extract_channel(0x0012_3456, 0x0000_ff00), 0x34);
    assert_eq!(extract_channel(0xffff_ffff, 0), 0);
    // A 5-bit channel is shifted up and its own bits fill the low end.
    assert_eq!(extract_channel(0x7c00, 0x7c00), 0xff);
    assert_eq!(extract_channel(0x4000, 0x7c00), 0x90);
    // A 10-bit channel keeps its top 8 bits.
    assert_eq!(extract_channel(0x3ff0_0000, 0x3ff0_0000), 0xff);
    assert_eq!(extract_channel(0x2000_0000, 0x3ff0_0000), 0x80);
}

#[test]
fn channel_placement_scales_from_eight_bits() {
    assert_eq!(place_channel(0xab, 0x00ff_0000), 0x00ab_0000);
    assert_eq!(place_channel(0xff, 0x7c00), 0x7c00);
    assert_eq!(place_channel(0x80, 0x3ff0_0000), 0x2000_0000);
    assert_eq!(place_channel(0x12, 0), 0);
}

#[test]
fn bytes_per_pixel_needs_a_fixed_byte_aligned_depth() {
    assert_eq!(bytes_per_pixel(Some(32)), Ok(4));
    assert_eq!(bytes_per_pixel(Some(8)), Ok(1));
    assert_eq!(bytes_per_pixel(None), Err(DdsError::NoFixedBitDepth));
    assert_eq!(bytes_per_pixel(Some(4)), Err(DdsError::NotByteAligned(4)));
}

#[test]
fn format_kinds_map_to_block_formats() {
    assert_eq!(bc_format_for(FormatKind::Dxt1), Some(BlockFormat::Bc1));
    assert_eq!(bc_format_for(FormatKind::Dxt2), Some(BlockFormat::Bc2));
    assert_eq!(bc_format_for(FormatKind::Dxt3), Some(BlockFormat::Bc2));
    assert_eq!(bc_format_for(FormatKind::Dxt4), Some(BlockFormat::Bc3));
    assert_eq!(bc_format_for(FormatKind::Dxt5), Some(BlockFormat::Bc3));
    assert_eq!(bc_format_for(FormatKind::L8), None);
    assert_eq!(single_channel_mask(FormatKind::L8, Some(0xff), None), Some(0xff));
    assert_eq!(single_channel_mask(FormatKind::A8, None, Some(0xff)), Some(0xff));
    assert_eq!(single_channel_mask(FormatKind::Other, Some(0xff), Some(0xff00)), None);
}

#[test]
fn resolve_format_falls_back_to_l8_for_luminance_only_headers() {
    let lum = HeaderPixelFlags { luminance: true, alpha: false, alpha_pixels: false, rgb_bit_count: Some(8) };
    assert_eq!(resolve_format(None, "L8", lum), Some("L8"));
    assert_eq!(resolve_format(Some("A8"), "L8", lum), Some("A8"));
    assert_eq!(resolve_format(None, "L8", HeaderPixelFlags { rgb_bit_count: Some(16), ..lum }), None);
    assert_eq!(resolve_format(None, "L8", HeaderPixelFlags { alpha_pixels: true, ..lum }), None);
    assert_eq!(resolve_format(None, "L8", HeaderPixelFlags { luminance: false, ..lum }), None);
}

fn bgra_layout() -> ChannelLayout {
    ChannelLayout {
        bytes_per_pixel: 4,
        r_mask: 0x00ff_0000,
        g_mask: 0x0000_ff00,
        b_mask: 0x0000_00ff,
        a_mask: Some(0xff00_0000),
        value_mask: None,
    }
}

#[test]
fn unpack_reads_little_endian_words_under_masks() {
    let data = [0x01, 0x02, 0x03, 0x04, 0x10, 0x20, 0x30, 0x40];
    let rgba = unpack_pixels(&data, 2, 1, bgra_layout()).unwrap();
    assert_eq!(rgba, vec![0x03, 0x02, 0x01, 0x04, 0x30, 0x20, 0x10, 0x40]);
    assert_eq!(pack_pixels(&rgba, bgra_layout()), data.to_vec());
}

#[test]
fn unpack_without_alpha_is_opaque_and_single_channel_is_gray() {
    let no_alpha = ChannelLayout { a_mask: None, ..bgra_layout() };
    assert_eq!(unpack_pixels(&[1, 2, 3, 4], 1, 1, no_alpha).unwrap(), vec![3, 2, 1, 255]);
    let lum = ChannelLayout {
        bytes_per_pixel: 1,
        r_mask: 0xff,
        g_mask: 0,
        b_mask: 0,
        a_mask: None,
        value_mask: Some(0xff),
    };
    assert_eq!(unpack_pixels(&[7, 9], 2, 1, lum).unwrap(), vec![7, 7, 7, 255, 9, 9, 9, 255]);
    assert_eq!(pack_pixels(&[7, 1, 2, 3, 9, 4, 5, 6], lum), vec![7, 9]);
}

#[test]
fn unpack_rejects_short_data() {
    assert_eq!(unpack_pixels(&[1, 2, 3], 1, 1, bgra_layout()), Err(DdsError::DataTooShort(3, 4)));
}

#[test]
fn decode_rejects_a_short_top_level_mip() {
    let plain = surface_of(D3DFormat::A8R8G8B8);
    assert_eq!(decode_surface(2, 2, plain, &[0u8; 15]).err(), Some(DdsError::MipTooShort(15, 16)));
    let bc1 = SurfaceFormat::Block(BlockFormat::Bc1);
    assert_eq!(decode_surface(8, 8, bc1, &[0u8; 31]).err(), Some(DdsError::MipTooShort(31, 32)));
    let bc3 = SurfaceFormat::Block(BlockFormat::Bc3);
    assert_eq!(decode_surface(5, 5, bc3, &[0u8; 63]).err(), Some(DdsError::MipTooShort(63, 64)));
}

#[test]
fn decode_and_encode_refuse_formats_without_whole_bytes() {
    let odd = SurfaceFormat::Plain {
        bits: Some(4),
        r_mask: 0xf,
        g_mask: 0,
        b_mask: 0,
        a_mask: None,
        value_mask: None,
    };
    assert_eq!(decode_surface(1, 1, odd, &[0u8; 4]).err(), Some(DdsError::NotByteAligned(4)));
    assert_eq!(encode_body(1, 1, &[0u8; 4], odd), Err(DdsError::NotByteAligned(4)));
    let none = SurfaceFormat::Plain {
        bits: None,
        r_mask: 0xf,
        g_mask: 0,
        b_mask: 0,
        a_mask: None,
        value_mask: None,
    };
    assert_eq!(encode_body(1, 1, &[0u8; 4], none), Err(DdsError::NoFixedBitDepth));
}

#[test]
fn block_bodies_have_the_compressed_size() {
    let rgba = checkerboard(8, 4);
    assert_eq!(encode_body(8, 4, &rgba, SurfaceFormat::Block(BlockFormat::Bc1)).unwrap().len(), 16);
    assert_eq!(encode_body(8, 4, &rgba, SurfaceFormat::Block(BlockFormat::Bc3)).unwrap().len(), 32);
    let body = encode_body(8, 4, &rgba, SurfaceFormat::Block(BlockFormat::Bc2)).unwrap();
    let decoded = decode_surface(8, 4, SurfaceFormat::Block(BlockFormat::Bc2), &body).unwrap();
    assert_eq!(decoded.rgba.len(), 8 * 4 * 4);
    assert_ne!(decoded.rgba, vec![0u8; 8 * 4 * 4]);
}

#[test]
fn rgba_length_must_match_the_image() {
    assert_eq!(check_rgba_len(4, 4, 64), Ok(()));
    assert_eq!(check_rgba_len(4, 4, 63), Err(DdsError::RgbaSizeMismatch(63, 4, 4)));
}

#[test]
fn definedness_checks_refuse_what_cannot_be_converted() {
    let bc1 = SurfaceFormat::Block(BlockFormat::Bc1);
    assert!(decodable(8, 8, bc1, 32));
    assert!(!decodable(0, 8, bc1, 32));
    assert!(!decodable(0, 8, bc1, 0));
    assert!(encodable(8, 8, bc1));
    assert!(!encodable(0, 8, bc1));
    let wide = SurfaceFormat::Plain {
        bits: Some(64),
        r_mask: 0xffff,
        g_mask: 0,
        b_mask: 0,
        a_mask: None,
        value_mask: None,
    };
    assert!(!decodable(2, 2, wide, 32));
    assert!(decodable(2, 2, wide, 31));
    assert!(!encodable(2, 2, wide));
    assert!(encodable(0, 2, wide));
    assert!(decodable(4, 4, surface_of(D3DFormat::A8R8G8B8), 64));
    assert!(!decodable(u32::MAX, u32::MAX, surface_of(D3DFormat::A8R8G8B8), 0));
}

#[test]
fn byte_channel_surfaces_round_trip_any_pixels() {
    let rgba: Vec<u8> = (0..2 * 3 * 4).map(|i| (i * 37 % 256) as u8).collect();
    for fmt in [D3DFormat::A8R8G8B8, D3DFormat::A8B8G8R8] {
        let body = encode_body(2, 3, &rgba, surface_of(fmt)).unwrap();
        let back = decode_surface(2, 3, surface_of(fmt), &body).unwrap();
        assert_eq!(back.rgba, rgba);
    }
}

#[test]
fn single_channel_surfaces_come_back_as_gray_of_red() {
    let rgba = vec![10, 20, 30, 40, 200, 0, 0, 0];
    for fmt in [D3DFormat::L8, D3DFormat::A8] {
        let body = encode_body(2, 1, &rgba, surface_of(fmt)).unwrap();
        assert_eq!(body, vec![10, 200]);
        let back = decode_surface(2, 1, surface_of(fmt), &body).unwrap();
        assert_eq!(back.rgba, vec![10, 10, 10, 255, 200, 200, 200, 255]);
    }
}

#[test]
fn container_decode_refuses_what_is_not_a_recognised_dds() {
    assert_eq!(risenlab::ddscontainer::decode(b"not a dds file").err(), Some(DdsError::NotDds));
    let mut bytes = encode(4, 4, &checkerboard(4, 4), D3DFormat::A8R8G8B8);
    // Clear the pixel format's flags and masks: no format is recognised, none resolved.
    for b in &mut bytes[80..108] {
        *b = 0;
    }
    bytes[76..80].copy_from_slice(&32u32.to_le_bytes());
    assert_eq!(risenlab::ddscontainer::decode(&bytes).err(), Some(DdsError::UnknownFormat));
}

#[test]
fn container_decode_reports_a_short_mip() {
    let mut bytes = encode(4, 4, &checkerboard(4, 4), D3DFormat::A8R8G8B8);
    bytes.truncate(128 + 10);
    assert_eq!(risenlab::ddscontainer::decode(&bytes).err(), Some(DdsError::MipTooShort(10, 64)));
}

#[test]
fn single_channel_headers_use_the_luminance_and_alpha_flags() {
    assert_eq!(
        header_pixel_format(FormatKind::L8),
        Some(HeaderPixelFormat {
            flags: 0x20000,
            fourcc: None,
            rgb_bit_count: Some(8),
            r_bit_mask: Some(0xff),
            g_bit_mask: None,
            b_bit_mask: None,
            a_bit_mask: None
        })
    );
    assert_eq!(header_pixel_format(FormatKind::A8).unwrap().a_bit_mask, Some(0xff));
    assert_eq!(header_pixel_format(FormatKind::A8).unwrap().flags, 0x2);
    assert_eq!(header_pixel_format(FormatKind::Dxt5), None);
    assert_eq!(header_pixel_format(FormatKind::Other), None);
}

#[test]
fn container_encode_reports_its_error_cases() {
    let argb = texture_format_of(D3DFormat::A8R8G8B8);
    assert_eq!(
        risenlab::ddscontainer::encode(2, 2, &[0u8; 15], &argb).err(),
        Some(DdsError::RgbaSizeMismatch(15, 2, 2))
    );
    let wide = TextureFormat { facts: (Some(64), Some(0xffff), None, None, None), kind: FormatKind::Other, ..argb };
    assert_eq!(risenlab::ddscontainer::encode(1, 1, &[0u8; 4], &wide).err(), Some(DdsError::Unencodable(1, 1)));
    let dxt1 = texture_format_of(D3DFormat::DXT1);
    assert_eq!(risenlab::ddscontainer::encode(0, 4, &[], &dxt1).err(), Some(DdsError::Unencodable(0, 4)));
    assert_eq!(texture_format(b"not a dds").err(), Some(DdsError::NotDds));
}

#[test]
fn encoded_files_start_with_the_header_then_the_surface() {
    let rgba = checkerboard(4, 4);
    let out = encode(4, 4, &rgba, D3DFormat::A8R8G8B8);
    assert_eq!(&out[0..4], b"DDS ");
    let body = encode_body(4, 4, &rgba, surface_of(D3DFormat::A8R8G8B8)).unwrap();
    assert_eq!(&out[128..128 + body.len()], &body[..]);
    assert_eq!(out.len(), 128 + 64);
}

#[test]
fn sizes_past_the_containers_u32_fields_are_refused() {
    let argb = texture_format_of(D3DFormat::A8R8G8B8);
    let w = (1u32 << 27) + 1;
    assert_eq!(risenlab::ddscontainer::encode(w, 0, &[], &argb).err(), Some(DdsError::Unencodable(w, 0)));
}
