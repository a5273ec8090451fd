use risenlab::gamepath::{
    archive_subdir_names, discover_archives, discover_game_root, lnk_target_readable, looks_like_archive,
    parse_lnk_target, FoundFile, RootProbe,
};

fn synthetic_lnk(target_path: &str) -> Vec<u8> {
    let shell_link_clsid: [u8; 16] = [
        0x01, 0x14, 0x02, 0x00, 0x00, 0x00, 0x00, 0x00, 0xC0, 0x00, 0x00, 0x00, 0x00, 0x00, 0x00, 0x46,
    ];
    let mut buf = vec![0u8; 76];
    buf[0..4].copy_from_slice(&0x4Cu32.to_le_bytes());
    buf[4..20].copy_from_slice(&shell_link_clsid);
    let has_link_info: u32 = 0x0000_0002;
    buf[20..24].copy_from_slice(&has_link_info.to_le_bytes());

    let mut path_bytes = target_path.as_bytes().to_vec();
    path_bytes.push(0);
    let local_base_path_offset: u32 = 28;
    let link_info_size = 28 + path_bytes.len() as u32;

    buf.extend_from_slice(&link_info_size.to_le_bytes());
    buf.extend_from_slice(&28u32.to_le_bytes());
    buf.extend_from_slice(&1u32.to_le_bytes());
    buf.extend_from_slice(&28u32.to_le_bytes());
    buf.extend_from_slice(&local_base_path_offset.to_le_bytes());
    buf.extend_from_slice(&0u32.to_le_bytes());
    buf.extend_from_slice(&0u32.to_le_bytes());
    buf.extend_from_slice(&path_bytes);
    buf
}

#[test]
fn parses_local_base_path_from_synthetic_link_info() {
    let data = synthetic_lnk(r"C:\Games\Risen\bin\Risen.exe");
    let target = parse_lnk_target(&data).expect("should parse a target path");
    assert_eq!(target, r"C:\Games\Risen\bin\Risen.exe");
}

#[test]
fn recognizes_archive_extensions() {
    assert!(looks_like_archive("images.pak"));
    assert!(looks_like_archive("images.p01"));
    assert!(looks_like_archive("images.00"));
    assert!(!looks_like_archive("readme.txt"));
    assert!(!looks_like_archive("risen.exe"));
}

#[test]
fn archive_names_ignore_case_and_need_a_real_extension() {
    assert!(looks_like_archive("IMAGES.PAK"));
    assert!(looks_like_archive("x.P12"));
    assert!(!looks_like_archive(".pak"));
    assert!(!looks_like_archive("pak"));
    assert!(!looks_like_archive("x.p"));
    assert!(!looks_like_archive("x.p1a"));
}

#[test]
fn a_link_without_link_info_has_no_target() {
    let mut data = synthetic_lnk("C:\\x.exe");
    data[20..24].copy_from_slice(&0u32.to_le_bytes());
    assert!(lnk_target_readable(&data));
    assert_eq!(parse_lnk_target(&data), None);
    assert_eq!(parse_lnk_target(b"not a shortcut"), None);
}

#[test]
fn a_link_target_with_invalid_utf8_is_decoded_lossily() {
    let mut data = synthetic_lnk("C:\\ab.exe");
    let at = data.len() - 6;
    data[at] = 0xff;
    let target = parse_lnk_target(&data).unwrap();
    assert_eq!(target, "C:\\a\u{fffd}.exe");
}

#[test]
fn discovers_root_and_archives_from_a_synthetic_install() {
    let probes = [
        RootProbe { data_dir: false, archive_subdir: false },
        RootProbe { data_dir: true, archive_subdir: true },
        RootProbe { data_dir: true, archive_subdir: true },
    ];
    assert_eq!(discover_game_root(&probes), Some(1));

    let found = vec![
        FoundFile { path: "G/data/compiled/images.pak".into(), file_name: "images.pak".into(), group: "compiled".into() },
        FoundFile { path: "G/data/compiled/images.p01".into(), file_name: "images.p01".into(), group: "compiled".into() },
        FoundFile { path: "G/data/compiled/readme.txt".into(), file_name: "readme.txt".into(), group: "compiled".into() },
        FoundFile { path: "G/data/common/materials.pak".into(), file_name: "materials.pak".into(), group: "common".into() },
    ];
    let archives = discover_archives(&found);
    assert_eq!(archives.len(), 3);
    assert!(archives.iter().any(|a| a.path.ends_with("images.pak") && a.group == "compiled"));
    assert!(archives.iter().any(|a| a.path.ends_with("materials.pak") && a.group == "common"));
}

#[test]
fn no_root_when_no_ancestor_has_an_archive_folder() {
    let probes = [RootProbe { data_dir: true, archive_subdir: false }, RootProbe { data_dir: false, archive_subdir: true }];
    assert_eq!(discover_game_root(&probes), None);
    assert_eq!(discover_game_root(&[]), None);
}

#[test]
fn archive_subfolders_are_compiled_then_common() {
    assert_eq!(archive_subdir_names(), vec!["compiled".to_string(), "common".to_string()]);
}

#[test]
fn shortcuts_are_recognized_by_extension_in_any_case() {
    assert!(risenlab::gamepath::is_shortcut_path("C:/Users/me/Desktop/Risen.lnk"));
    assert!(risenlab::gamepath::is_shortcut_path("Risen.LNK"));
    assert!(!risenlab::gamepath::is_shortcut_path("C:/Games/Risen/bin/Risen.exe"));
    assert!(!risenlab::gamepath::is_shortcut_path(".lnk"));
}

#[test]
fn name_extensions_follow_the_last_dot() {
    assert_eq!(risenlab::gamepath::name_extension("images.p01"), Some("p01".to_string()));
    assert_eq!(risenlab::gamepath::name_extension("a.b.pak"), Some("pak".to_string()));
    assert_eq!(risenlab::gamepath::name_extension(".hidden"), None);
    assert_eq!(risenlab::gamepath::name_extension("noext"), None);
    assert_eq!(risenlab::gamepath::name_extension(".."), None);
    assert_eq!(risenlab::gamepath::name_extension("trailing."), Some(String::new()));
}
