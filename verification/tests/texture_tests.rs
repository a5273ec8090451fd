use ddsfile::{D3DFormat, Dds, NewD3dParams};
use risenlab::batch::fnv1a;
use risenlab::ddscontainer::decode;
use risenlab::texture::{extract_texture, patched_texture, TextureError};
use risenlab::ximg::{extract_dds, parse, XimgError};

fn push_prop(buf: &mut Vec<u8>, name: &str, kind_name: &str, value: &[u8]) {
    buf.extend_from_slice(&(name.len() as u16).to_le_bytes());
    buf.extend_from_slice(name.as_bytes());
    buf.extend_from_slice(&(kind_name.len() as u16).to_le_bytes());
    buf.extend_from_slice(kind_name.as_bytes());
    buf.extend_from_slice(&30u16.to_le_bytes());
    buf.extend_from_slice(&(value.len() as u32).to_le_bytes());
    buf.extend_from_slice(value);
}

fn ximg_with(width: i32, height: i32, dds: &[u8]) -> Vec<u8> {
    let mut props = Vec::new();
    push_prop(&mut props, "Width", "int", &width.to_le_bytes());
    push_prop(&mut props, "Height", "int", &height.to_le_bytes());
    push_prop(&mut props, "SkipMips", "long", &0i32.to_le_bytes());
    let mut fmt_value = vec![0xC9, 0x00];
    fmt_value.extend_from_slice(b"UNCOMPRESSED");
    push_prop(&mut props, "PixelFormat", "bTPropertyContainer<enum eCGfxShared::eEColorFormat>", &fmt_value);
    let dds_offset = 20 + props.len();
    let mut buf = Vec::new();
    buf.extend_from_slice(b"GR01IM04");
    buf.extend_from_slice(&40i32.to_le_bytes());
    buf.extend_from_slice(&(props.len() as i32).to_le_bytes());
    buf.extend_from_slice(&(dds_offset as i32).to_le_bytes());
    buf.extend_from_slice(&props);
    buf.extend_from_slice(dds);
    buf
}

fn argb_dds(width: u32, height: u32, bgra: &[u8]) -> Vec<u8> {
    let mut dds = Dds::new_d3d(NewD3dParams {
        height,
        width,
        depth: None,
        format: D3DFormat::A8R8G8B8,
        mipmap_levels: Some(1),
        caps2: None,
    })
    .unwrap();
    dds.data.copy_from_slice(bgra);
    let mut out = Vec::new();
    dds.write(&mut out).unwrap();
    out
}

fn png_of(width: u32, height: u32, rgba: &[u8]) -> Vec<u8> {
    let img = image::RgbaImage::from_raw(width, height, rgba.to_vec()).unwrap();
    let mut out = Vec::new();
    img.write_to(&mut std::io::Cursor::new(&mut out), image::ImageFormat::Png).unwrap();
    out
}

#[test]
fn a_texture_extracts_to_its_png_path_pixels_and_manifest_line() {
    // Two pixels stored as B, G, R, A.
    let ximg = ximg_with(2, 1, &argb_dds(2, 1, &[1, 2, 3, 4, 5, 6, 7, 8]));
    let (rel, png, line) =
        extract_texture("C:/Game/data/compiled/images.pak", "compiled", &"/Special/Rock._ximg".to_string(), &ximg).unwrap();
    assert_eq!(rel, "compiled/images/Special/Rock.png");
    let img = image::load_from_memory_with_format(&png, image::ImageFormat::Png).unwrap().to_rgba8();
    assert_eq!(img.dimensions(), (2, 1));
    assert_eq!(img.into_raw(), vec![3, 2, 1, 4, 7, 6, 5, 8]);
    assert_eq!(
        line,
        format!(
            "C:/Game/data/compiled/images.pak\tcompiled\t/Special/Rock._ximg\tcompiled/images/Special/Rock.png\t{:016x}\n",
            fnv1a(&png)
        )
    );
}

#[test]
fn extracting_reports_what_failed() {
    let err = extract_texture("a.pak", "compiled", &"/x._ximg".to_string(), b"not an ximg").err();
    assert_eq!(err, Some(TextureError::Ximg(XimgError::NotXimg)));
    let ximg = ximg_with(2, 1, b"DDS broken");
    assert!(matches!(
        extract_texture("a.pak", "compiled", &"/x._ximg".to_string(), &ximg),
        Err(TextureError::Dds(_))
    ));
}

#[test]
fn an_edited_png_is_written_back_in_the_textures_format() {
    let original = ximg_with(2, 1, &argb_dds(2, 1, &[0; 8]));
    let rgba: Vec<u8> = (0..4 * 3 * 4).map(|i| (i * 11 % 256) as u8).collect();
    let patched = patched_texture(&original, &png_of(4, 3, &rgba)).unwrap();
    let info = parse(&patched).unwrap();
    assert_eq!((info.width, info.height), (4, 3));
    let decoded = decode(extract_dds(&patched).unwrap()).unwrap();
    assert_eq!((decoded.width, decoded.height), (4, 3));
    assert_eq!(decoded.rgba, rgba);
}

#[test]
fn patching_with_something_other_than_a_png_is_refused() {
    let original = ximg_with(2, 1, &argb_dds(2, 1, &[0; 8]));
    assert_eq!(patched_texture(&original, b"not a png").err(), Some(TextureError::PngDecode));
}
