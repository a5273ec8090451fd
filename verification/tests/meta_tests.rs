use risenlab::ai::text_config_from_parts;
use risenlab::batch::{texture_meta, TextureMetaError};
use risenlab::logic::{default_settings_for, read_texture_meta};
use risenlab::pak::PakArchive;
use risenlab::pakwrite::write_archive_from_dir;

const MAGIC: &[u8] = b"GR01IM04";

fn push_prop(buf: &mut Vec<u8>, name: &str, kind_name: &str, value: &[u8]) {
    buf.extend_from_slice(&(name.len() as u16).to_le_bytes());
    buf.extend_from_slice(name.as_bytes());
    buf.extend_from_slice(&(kind_name.len() as u16).to_le_bytes());
    buf.extend_from_slice(kind_name.as_bytes());
    buf.extend_from_slice(&30u16.to_le_bytes());
    buf.extend_from_slice(&(value.len() as u32).to_le_bytes());
    buf.extend_from_slice(value);
}

fn synthetic_ximg(width: i32, height: i32, pixel_format: &str) -> Vec<u8> {
    let mut props = Vec::new();
    push_prop(&mut props, "Width", "int", &width.to_le_bytes());
    push_prop(&mut props, "Height", "int", &height.to_le_bytes());
    push_prop(&mut props, "SkipMips", "long", &0i32.to_le_bytes());
    let mut fmt_value = vec![0xC9, 0x00];
    fmt_value.extend_from_slice(pixel_format.as_bytes());
    push_prop(&mut props, "PixelFormat", "bTPropertyContainer<enum eCGfxShared::eEColorFormat>", &fmt_value);
    let dds_offset = 20 + props.len();
    let mut buf = Vec::new();
    buf.extend_from_slice(MAGIC);
    buf.extend_from_slice(&40i32.to_le_bytes());
    buf.extend_from_slice(&(props.len() as i32).to_le_bytes());
    buf.extend_from_slice(&(dds_offset as i32).to_le_bytes());
    buf.extend_from_slice(&props);
    buf.extend_from_slice(b"DDS ");
    buf.extend_from_slice(&[0u8; 16]);
    buf
}

fn archive_of(files: Vec<(&str, Vec<u8>)>) -> PakArchive {
    let files: Vec<(String, Vec<u8>)> = files.into_iter().map(|(p, d)| (p.to_string(), d)).collect();
    PakArchive::from_bytes(write_archive_from_dir(&files)).unwrap()
}

#[test]
fn texture_meta_reads_real_width_height_format_from_a_packed_archive() {
    let ximg_bytes = synthetic_ximg(64, 32, "DXT3");
    let archive = archive_of(vec![("Level/Test._ximg", ximg_bytes.clone())]);
    let entry_path = archive.files()[0].path.clone();
    let meta = texture_meta(&archive, &entry_path).unwrap();
    assert_eq!(meta.width, 64);
    assert_eq!(meta.height, 32);
    assert_eq!(meta.pixel_format, "DXT3");
    assert_eq!(meta.file_size, ximg_bytes.len() as u64);
}

#[test]
fn texture_meta_errors_when_entry_not_found() {
    let archive = archive_of(vec![("real.txt", b"x".to_vec())]);
    assert!(texture_meta(&archive, "does/not/exist._ximg").is_err());
    assert_eq!(texture_meta(&archive, "does/not/exist._ximg").err(), Some(TextureMetaError::EntryNotFound));
}

#[test]
fn texture_meta_errors_when_archive_does_not_exist() {
    assert!(PakArchive::from_bytes(Vec::new()).is_err());
}

#[test]
fn read_texture_meta_reads_real_width_height_format_from_a_packed_archive() {
    let ximg_bytes = synthetic_ximg(128, 16, "DXT5");
    let archive = archive_of(vec![("Level/Test._ximg", ximg_bytes.clone())]);
    let entry_path = archive.files()[0].path.clone();
    let meta = read_texture_meta(&archive, &entry_path).unwrap();
    assert_eq!(meta.width, 128);
    assert_eq!(meta.height, 16);
    assert_eq!(meta.pixel_format, "DXT5");
    assert_eq!(meta.file_size, ximg_bytes.len() as u64);
}

#[test]
fn read_texture_meta_errors_when_entry_not_found() {
    let archive = archive_of(vec![("real.txt", b"x".to_vec())]);
    assert!(read_texture_meta(&archive, "does/not/exist._ximg").is_err());
}

#[test]
fn read_texture_meta_errors_when_archive_does_not_exist() {
    assert!(PakArchive::from_bytes(b"not an archive".to_vec()).is_err());
}

#[test]
fn texture_meta_of_a_non_texture_entry_is_a_format_error() {
    let archive = archive_of(vec![("Level/Notes.txt", b"plain text, not a texture".to_vec())]);
    let entry_path = archive.files()[0].path.clone();
    assert!(matches!(texture_meta(&archive, &entry_path), Err(TextureMetaError::Ximg(_))));
}

#[test]
fn default_settings_root_desktop_paths_match_the_approved_design_defaults() {
    let s = default_settings_for("C:/Users/Гравець");
    assert!(s.output_dir.ends_with("RisenLab-Textures"));
    assert!(s.patch_dir.ends_with("RisenLab-Patch"));
    assert!(s.review_html.ends_with("RisenLab-Review.html"));
    assert_eq!(s.language, "uk");
    assert_eq!(s.game_exe, None);
    assert_eq!(s.output_dir, "C:/Users/Гравець/Desktop/RisenLab-Textures");
}

#[test]
fn text_config_treats_a_blank_key_as_unconfigured() {
    assert!(text_config_from_parts(None, "", None).is_none());
    assert!(text_config_from_parts(None, "   ", None).is_none());
}

#[test]
fn text_config_defaults_model_and_provider_when_absent_or_blank() {
    let cfg = text_config_from_parts(None, "r8_abc", None).unwrap();
    assert_eq!(cfg.model, "nightmareai/real-esrgan");
    assert_eq!(cfg.provider, "replicate");
    let cfg = text_config_from_parts(Some(""), " r8_abc ", Some("  ")).unwrap();
    assert_eq!(cfg.api_key, "r8_abc");
    assert_eq!(cfg.model, "nightmareai/real-esrgan");
    assert_eq!(cfg.provider, "replicate");
}

#[test]
fn text_config_trims_and_lowercases_the_provider() {
    let cfg = text_config_from_parts(Some(" Stability "), "sk-abc", Some(" stability-ai/sdxl ")).unwrap();
    assert_eq!(cfg.provider, "stability");
    assert_eq!(cfg.model, "stability-ai/sdxl");
}
