use risenlab::ximg::{
    extract_dds, parse, pixel_format_readable, read_pixel_format, replace_dds, try_replace_dds, ReplaceOptions,
    XimgError, XimgProperty,
};

const MAGIC: &[u8] = b"GR01IM04";

fn push_prop(buf: &mut Vec<u8>, name: &str, kind_name: &str, value: &[u8]) {
    buf.extend_from_slice(&(name.len() as u16).to_le_bytes());
    buf.extend_from_slice(name.as_bytes());
    buf.extend_from_slice(&(kind_name.len() as u16).to_le_bytes());
    buf.extend_from_slice(kind_name.as_bytes());
    buf.extend_from_slice(&30u16.to_le_bytes());
    buf.extend_from_slice(&(value.len() as u32).to_le_bytes());
    buf.extend_from_slice(value);
}

fn synthetic_ximg(width: i32, height: i32, pixel_format: &str) -> Vec<u8> {
    let mut props = Vec::new();
    push_prop(&mut props, "Width", "int", &width.to_le_bytes());
    push_prop(&mut props, "Height", "int", &height.to_le_bytes());
    push_prop(&mut props, "SkipMips", "long", &0i32.to_le_bytes());
    let mut fmt_value = vec![0xC9, 0x00];
    fmt_value.extend_from_slice(pixel_format.as_bytes());
    push_prop(&mut props, "PixelFormat", "bTPropertyContainer<enum eCGfxShared::eEColorFormat>", &fmt_value);

    let dds_offset = 20 + props.len();
    let mut buf = Vec::new();
    buf.extend_from_slice(MAGIC);
    buf.extend_from_slice(&40i32.to_le_bytes());
    buf.extend_from_slice(&(props.len() as i32).to_le_bytes());
    buf.extend_from_slice(&(dds_offset as i32).to_le_bytes());
    buf.extend_from_slice(&props);
    buf.extend_from_slice(b"DDS ");
    buf.extend_from_slice(&[0u8; 16]);
    buf
}

#[test]
fn rejects_non_ximg_data() {
    assert!(parse(b"not an ximg file at all").is_err());
}

#[test]
fn truncated_width_value_is_a_parse_error_not_a_panic() {
    let mut buf = Vec::new();
    buf.extend_from_slice(MAGIC);
    buf.extend_from_slice(&40i32.to_le_bytes());
    buf.extend_from_slice(&0i32.to_le_bytes());
    buf.extend_from_slice(&20i32.to_le_bytes());
    buf.extend_from_slice(b"DDS ");
    buf.extend_from_slice(&[0u8; 12]);
    push_prop(&mut buf, "Height", "int", &64i32.to_le_bytes());
    push_prop(&mut buf, "Width", "int", &1234i32.to_le_bytes());
    let short = buf.len() - 2;
    buf.truncate(short);

    let err = parse(&buf).expect_err("truncated Width value must not panic");
    assert!(err.message().contains("Width"), "error should name the field: {err:?}");
}

#[test]
fn parses_synthetic_header() {
    let data = synthetic_ximg(64, 64, "DXT3");
    let info = parse(&data).unwrap();
    assert_eq!(info.width, 64);
    assert_eq!(info.height, 64);
    assert_eq!(read_pixel_format(&data).unwrap(), "DXT3");
}

#[test]
fn replace_dds_same_length_format_does_not_shift_offset() {
    let data = synthetic_ximg(64, 64, "DXT3");
    let before = parse(&data).unwrap();
    let out = replace_dds(
        &data,
        ReplaceOptions { width: 256, height: 256, skip_mips: None, pixel_format: Some("DXT5") },
        b"DDS \x00\x00\x00\x00fake-pixels",
    )
    .unwrap();
    let after = parse(&out).unwrap();
    assert_eq!(after.width, 256);
    assert_eq!(after.height, 256);
    assert_eq!(after.dds_offset, before.dds_offset);
    assert_eq!(read_pixel_format(&out).unwrap(), "DXT5");
}

#[test]
fn replace_dds_longer_format_shifts_offset_correctly() {
    let data = synthetic_ximg(64, 64, "DXT3");
    let before = parse(&data).unwrap();
    let new_dds = b"DDS \x00\x00\x00\x00fake-pixels";
    let out = replace_dds(
        &data,
        ReplaceOptions { width: 128, height: 128, skip_mips: Some(1), pixel_format: Some("UNCOMPRESSED") },
        new_dds,
    )
    .unwrap();
    let after = parse(&out).unwrap();
    let expected_shift = "UNCOMPRESSED".len() as isize - "DXT3".len() as isize;
    assert_eq!(after.dds_offset as isize, before.dds_offset as isize + expected_shift);
    assert_eq!(read_pixel_format(&out).unwrap(), "UNCOMPRESSED");
    assert_eq!(&out[after.dds_offset..after.dds_offset + 4], b"DDS ");
    assert_eq!(&out[after.dds_offset..], new_dds);
}

#[test]
fn replace_dds_then_extract_gives_back_the_new_payload() {
    let data = synthetic_ximg(32, 16, "DXT1");
    let new_dds = b"DDS 0123456789";
    let out = replace_dds(
        &data,
        ReplaceOptions { width: 64, height: 32, skip_mips: Some(2), pixel_format: Some("A8R8G8B8") },
        new_dds,
    )
    .unwrap();
    assert_eq!(extract_dds(&out).unwrap(), new_dds);
    assert_eq!(read_pixel_format(&out).unwrap(), "A8R8G8B8");
    let info = parse(&out).unwrap();
    assert_eq!((info.width, info.height), (64, 32));
}

#[test]
fn replace_dds_shorter_format_shifts_offset_back() {
    let data = synthetic_ximg(8, 8, "UNCOMPRESSED");
    let before = parse(&data).unwrap();
    let out = replace_dds(
        &data,
        ReplaceOptions { width: 8, height: 8, skip_mips: None, pixel_format: Some("L8") },
        b"DDS x",
    )
    .unwrap();
    let after = parse(&out).unwrap();
    assert_eq!(after.dds_offset + 10, before.dds_offset);
    assert_eq!(after.property_block_size + 10, before.property_block_size);
}

#[test]
fn extract_dds_returns_everything_from_the_dds_offset() {
    let data = synthetic_ximg(4, 4, "DXT5");
    let info = parse(&data).unwrap();
    let dds = extract_dds(&data).unwrap();
    assert_eq!(dds.len(), 20);
    assert_eq!(&dds[..4], b"DDS ");
    assert_eq!(info.header_const, 40);
}

#[test]
fn a_dds_offset_that_misses_the_signature_is_refused() {
    let mut data = synthetic_ximg(4, 4, "DXT5");
    let off = parse(&data).unwrap().dds_offset;
    data[off] = b'X';
    assert_eq!(parse(&data), Err(XimgError::NoDdsSignature));
}

#[test]
fn missing_properties_are_named_in_the_error() {
    let mut buf = Vec::new();
    buf.extend_from_slice(MAGIC);
    buf.extend_from_slice(&40i32.to_le_bytes());
    buf.extend_from_slice(&0i32.to_le_bytes());
    buf.extend_from_slice(&20i32.to_le_bytes());
    buf.extend_from_slice(b"DDS ");
    assert_eq!(parse(&buf), Err(XimgError::PropertyNotFound(XimgProperty::Width)));
    assert_eq!(read_pixel_format(&buf), Err(XimgError::PropertyNotFound(XimgProperty::PixelFormat)));
    push_prop(&mut buf, "Width", "int", &1i32.to_le_bytes());
    assert_eq!(parse(&buf), Err(XimgError::PropertyNotFound(XimgProperty::Height)));
    assert!(parse(&buf).unwrap_err().message().contains("Height"));
}

#[test]
fn short_or_unmarked_buffers_are_not_ximg() {
    assert_eq!(parse(b"GR01IM04"), Err(XimgError::NotXimg));
    assert_eq!(parse(&[0u8; 40]), Err(XimgError::NotXimg));
}

#[test]
fn replace_dds_without_skip_mips_slot_fails_when_asked_to_set_it() {
    let mut props = Vec::new();
    push_prop(&mut props, "Width", "int", &1i32.to_le_bytes());
    push_prop(&mut props, "Height", "int", &1i32.to_le_bytes());
    let mut buf = Vec::new();
    buf.extend_from_slice(MAGIC);
    buf.extend_from_slice(&40i32.to_le_bytes());
    buf.extend_from_slice(&(props.len() as i32).to_le_bytes());
    buf.extend_from_slice(&((20 + props.len()) as i32).to_le_bytes());
    buf.extend_from_slice(&props);
    buf.extend_from_slice(b"DDS ");
    let r = replace_dds(&buf, ReplaceOptions { width: 2, height: 2, skip_mips: Some(1), pixel_format: None }, b"DDS ");
    assert_eq!(r, Err(XimgError::PropertyNotFound(XimgProperty::SkipMips)));
    let ok = replace_dds(&buf, ReplaceOptions { width: 2, height: 2, skip_mips: None, pixel_format: None }, b"DDS y").unwrap();
    assert_eq!(extract_dds(&ok).unwrap(), b"DDS y");
}

#[test]
fn try_replace_dds_agrees_with_replace_dds() {
    let original = synthetic_ximg(64, 64, "DXT3");
    let opts = || ReplaceOptions { width: 128, height: 32, skip_mips: Some(0), pixel_format: Some("UNCOMPRESSED") };
    let a = replace_dds(&original, opts(), b"DDS new").unwrap();
    let b = try_replace_dds(&original, opts(), b"DDS new").unwrap().unwrap();
    assert_eq!(a, b);
    assert_eq!(try_replace_dds(b"nope", opts(), b"DDS "), Some(Err(XimgError::NotXimg)));
}

#[test]
fn try_replace_dds_refuses_a_width_slot_past_the_header() {
    // The Width property sits after the DDS offset, so the header part holds no slot for it.
    let mut buf = Vec::new();
    buf.extend_from_slice(MAGIC);
    buf.extend_from_slice(&40i32.to_le_bytes());
    buf.extend_from_slice(&0i32.to_le_bytes());
    buf.extend_from_slice(&20i32.to_le_bytes());
    buf.extend_from_slice(b"DDS ");
    push_prop(&mut buf, "Width", "int", &4i32.to_le_bytes());
    push_prop(&mut buf, "Height", "int", &4i32.to_le_bytes());
    let opts = ReplaceOptions { width: 8, height: 8, skip_mips: None, pixel_format: None };
    assert!(parse(&buf).is_ok());
    assert_eq!(try_replace_dds(&buf, opts, b"DDS "), None);
}

#[test]
fn definedness_checks_follow_the_header() {
    let original = synthetic_ximg(64, 64, "DXT3");
    assert!(pixel_format_readable(&original));
    let cut = original.len() - 20 - 2;
    assert!(!pixel_format_readable(&original[..cut]));
}

#[test]
fn a_negative_or_overflowing_dds_offset_is_an_error_not_a_panic() {
    let original = synthetic_ximg(64, 64, "DXT3");
    for off in [-1i32, -2, -4, i32::MIN, i32::MAX] {
        let mut bad = original.clone();
        bad[16..20].copy_from_slice(&off.to_le_bytes());
        assert_eq!(parse(&bad).err(), Some(XimgError::NoDdsSignature));
        assert_eq!(extract_dds(&bad).err(), Some(XimgError::NoDdsSignature));
        let opts = ReplaceOptions { width: 1, height: 1, skip_mips: None, pixel_format: None };
        assert_eq!(replace_dds(&bad, opts, b"DDS ").err(), Some(XimgError::NoDdsSignature));
    }
}

#[test]
fn patching_the_size_changes_only_the_two_value_slots() {
    let original = synthetic_ximg(64, 64, "DXT3");
    let info = parse(&original).unwrap();
    let opts = ReplaceOptions { width: 512, height: 256, skip_mips: None, pixel_format: None };
    let out = replace_dds(&original, opts, b"DDS new payload").unwrap();
    assert_eq!(out.len(), info.dds_offset + b"DDS new payload".len());
    assert_eq!(&out[info.dds_offset..], b"DDS new payload");
    let changed: Vec<usize> = (0..info.dds_offset).filter(|&i| out[i] != original[i]).collect();
    // 64 -> 512 changes the value's two low bytes, 64 -> 256 two bytes as well.
    assert!(changed.len() <= 8);
    let after = parse(&out).unwrap();
    assert_eq!((after.width, after.height), (512, 256));
}
