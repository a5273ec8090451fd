use risenlab::batch::{
    embed_real_texture_paths, fnv1a, guess_normal_from_diffuse_name, html_escape, list_actors, list_library,
    list_meshes, list_motions, manifest_line, parse_hex_u64, parse_manifest, read_material_texture_refs,
    split_lines, strip_ext_lower, ArchiveListing, LibraryEntry, ManifestEntry, ManifestError, RegenEngine,
};
use risenlab::gamepath::DiscoveredArchive;
use risenlab::logic::base64_encode;
use risenlab::pak::{FileCompression, FileEntry};

fn entry(archive: &str, entry_path: &str, png_rel: &str, hash: u64) -> ManifestEntry {
    ManifestEntry {
        archive: archive.to_string(),
        group: "compiled".to_string(),
        entry_path: entry_path.to_string(),
        png_rel: png_rel.to_string(),
        hash,
    }
}

fn library_of(entries: &[ManifestEntry]) -> Vec<LibraryEntry> {
    let mut text = String::new();
    for e in entries {
        text.push_str(&manifest_line(e));
    }
    list_library(&text).unwrap()
}

#[test]
fn batch_base64_matches_known_vectors() {
    assert_eq!(base64_encode(b""), "");
    assert_eq!(base64_encode(b"f"), "Zg==");
    assert_eq!(base64_encode(b"fo"), "Zm8=");
    assert_eq!(base64_encode(b"foo"), "Zm9v");
    assert_eq!(base64_encode(b"foobar"), "Zm9vYmFy");
}

#[test]
fn fnv1a_is_deterministic_and_sensitive_to_content() {
    assert_eq!(fnv1a(b"hello"), fnv1a(b"hello"));
    assert_ne!(fnv1a(b"hello"), fnv1a(b"hellp"));
}

#[test]
fn fnv1a_matches_the_published_test_vectors() {
    assert_eq!(fnv1a(b""), 0xcbf2_9ce4_8422_2325);
    assert_eq!(fnv1a(b"a"), 0xaf63_dc4c_8601_ec8c);
    assert_eq!(fnv1a(b"foobar"), 0x8594_4171_f739_67e8);
}

#[test]
fn list_library_groups_and_names_entries_from_a_manifest() {
    let lib = library_of(&[entry(
        "C:/Game/data/compiled/images.pak",
        "Level/Nat_Rock/Nat_Stone_Rock_01._ximg",
        "compiled/images/Level/Nat_Rock/Nat_Stone_Rock_01.png",
        0xdead_beef,
    )]);
    assert_eq!(lib.len(), 1);
    let e = &lib[0];
    assert_eq!(e.group, "compiled");
    assert_eq!(e.archive_stem, "images");
    assert_eq!(e.archive_path, "C:/Game/data/compiled/images.pak");
    assert_eq!(e.name, "Nat_Stone_Rock_01._ximg");
    assert_eq!(e.folder, "Level/Nat_Rock");
    assert_eq!(e.png_rel, "compiled/images/Level/Nat_Rock/Nat_Stone_Rock_01.png");
}

#[test]
fn list_library_strips_leading_slash_from_folder_like_real_archive_entries() {
    let lib = library_of(&[entry(
        "C:/Game/data/compiled/images.pak",
        "/Animation/Monster/Foo._ximg",
        "compiled/images/Animation/Monster/Foo.png",
        0xdead_beef,
    )]);
    assert_eq!(lib[0].folder, "Animation/Monster");
}

#[test]
fn list_library_writes_windows_archive_paths_with_forward_slashes() {
    let lib = library_of(&[entry("C:\\Game\\data\\compiled\\images.pak", "/A/B._ximg", "x.png", 1)]);
    assert_eq!(lib[0].archive_path, "C:/Game/data/compiled/images.pak");
    assert_eq!(lib[0].folder, "A");
    assert_eq!(lib[0].name, "B._ximg");
}

#[test]
fn manifest_lines_read_back_as_the_entries_they_record() {
    let entries = vec![
        entry("C:/Game/data/compiled/images.pak", "/Level/A._ximg", "compiled/images/Level/A.png", 0x0123_4567_89ab_cdef),
        entry("C:/Game/data/common/x.pak", "/B._ximg", "common/x/B.png", 0),
    ];
    let mut text = String::new();
    for e in &entries {
        text.push_str(&manifest_line(e));
    }
    let back = parse_manifest(&text).unwrap();
    assert_eq!(back.len(), 2);
    for (a, b) in entries.iter().zip(back.iter()) {
        assert_eq!(a.archive, b.archive);
        assert_eq!(a.group, b.group);
        assert_eq!(a.entry_path, b.entry_path);
        assert_eq!(a.png_rel, b.png_rel);
        assert_eq!(a.hash, b.hash);
    }
}

#[test]
fn manifest_line_has_five_tab_separated_fields_and_a_sixteen_digit_hash() {
    let line = manifest_line(&entry("a.pak", "/b", "c.png", 0xbeef));
    assert_eq!(line, "a.pak\tcompiled\t/b\tc.png\t000000000000beef\n");
}

#[test]
fn parse_manifest_reports_the_line_of_a_malformed_row_and_of_a_bad_hash() {
    assert_eq!(parse_manifest("a\tb\tc\n").unwrap_err(), ManifestError::Malformed(1));
    let text = "a\tb\tc\td\t00ff\nx\ty\tz\tw\tnothex\n";
    assert_eq!(parse_manifest(text).unwrap_err(), ManifestError::BadHash(2));
    assert!(parse_manifest("").unwrap().is_empty());
    assert!(parse_manifest("\n   \n").unwrap().is_empty());
}

#[test]
fn parse_hex_reads_u64_values_and_refuses_overflow_and_junk() {
    assert_eq!(parse_hex_u64("ff"), Some(255));
    assert_eq!(parse_hex_u64("DeadBeef"), Some(0xdead_beef));
    assert_eq!(parse_hex_u64("ffffffffffffffff"), Some(u64::MAX));
    assert_eq!(parse_hex_u64("10000000000000000"), None);
    assert_eq!(parse_hex_u64(""), None);
    assert_eq!(parse_hex_u64("xyz"), None);
}

#[test]
fn split_lines_drops_the_carriage_return_of_crlf_endings() {
    assert_eq!(split_lines("a\r\nb\nc"), vec!["a".to_string(), "b".to_string(), "c".to_string()]);
    assert_eq!(split_lines("a\n"), vec!["a".to_string()]);
    assert!(split_lines("").is_empty());
}

#[test]
fn read_material_texture_refs_parses_map_kd_and_map_bump_from_a_real_shaped_mtl() {
    let refs = read_material_texture_refs(
        "newmtl ItWpn_SwordBlades_01\r\nmap_Kd ItWpn_SwordBlades_01_Diffuse_01.tga\r\nmap_bump ItWpn_SwordBlades_01_Normal_01.tga\r\n\r\n",
        None,
    );
    assert_eq!(refs.diffuse.as_deref(), Some("ItWpn_SwordBlades_01_Diffuse_01.tga"));
    assert_eq!(refs.normal.as_deref(), Some("ItWpn_SwordBlades_01_Normal_01.tga"));
}

#[test]
fn read_material_texture_refs_returns_a_bare_name_even_when_map_kd_is_a_real_absolute_path() {
    let refs = read_material_texture_refs(
        "newmtl ItMisc_01_Diffuse_01\r\nmap_Kd C:/Users/rusak/Desktop/RisenLab-Textures/compiled/images/Special/ItMisc_01_Diffuse_01.png\r\nmap_bump C:/Users/rusak/Desktop/RisenLab-Textures/compiled/images/Special/ItMisc_01_Normal_01.png\r\n\r\n",
        None,
    );
    assert_eq!(refs.diffuse.as_deref(), Some("ItMisc_01_Diffuse_01.png"));
    assert_eq!(refs.normal.as_deref(), Some("ItMisc_01_Normal_01.png"));
}

#[test]
fn read_material_texture_refs_picks_the_material_covering_the_most_surface_area() {
    let mtl = "newmtl ItWpn_SwordMisc_01_Diffuse_01\r\n\r\nnewmtl ItWpn_SwordBlades_01_Diffuse_01\r\n\r\n";
    let refs = read_material_texture_refs(mtl, Some("ItWpn_SwordBlades_01_Diffuse_01".to_string()));
    assert_eq!(refs.diffuse.as_deref(), Some("ItWpn_SwordBlades_01_Diffuse_01"));
    assert_eq!(refs.normal.as_deref(), Some("ItWpn_SwordBlades_01_Normal_01"));
    let first = read_material_texture_refs(mtl, None);
    assert_eq!(first.diffuse.as_deref(), Some("ItWpn_SwordMisc_01_Diffuse_01"));
}

#[test]
fn read_material_texture_refs_returns_none_when_no_mtl_file_exists() {
    let refs = read_material_texture_refs("", None);
    assert_eq!(refs.diffuse, None);
    assert_eq!(refs.normal, None);
}

#[test]
fn embed_real_texture_paths_adds_real_absolute_map_lines_for_name_only_materials() {
    let lib = library_of(&[
        entry(
            "C:/Game/data/compiled/images.pak",
            "/Special/ItWpn_Axes_01_Diffuse_01._ximg",
            "compiled/images/Special/ItWpn_Axes_01_Diffuse_01.png",
            0,
        ),
        entry(
            "C:/Game/data/compiled/images.pak",
            "/Special/ItWpn_Axes_01_Normal_01._ximg",
            "compiled/images/Special/ItWpn_Axes_01_Normal_01.png",
            0,
        ),
    ]);
    let (text, added) = embed_real_texture_paths("newmtl ItWpn_Axes_01_Diffuse_01\r\n\r\n", &lib, "C:/lib");
    assert_eq!(added, 1);
    assert!(text.contains("map_Kd C:/lib/compiled/images/Special/ItWpn_Axes_01_Diffuse_01.png"), "{text}");
    assert!(text.contains("map_bump C:/lib/compiled/images/Special/ItWpn_Axes_01_Normal_01.png"), "{text}");

    let (again, added_again) = embed_real_texture_paths(&text, &lib, "C:/lib");
    assert_eq!(added_again, 0);
    assert_eq!(again.matches("map_Kd").count(), 1);
}

#[test]
fn embed_real_texture_paths_never_overwrites_an_explicit_map_kd_mimicry_already_wrote() {
    let (text, added) = embed_real_texture_paths("newmtl Blade\r\nmap_Kd Blade_Diffuse_01.tga\r\n\r\n", &Vec::new(), "C:/lib");
    assert_eq!(added, 0);
    assert_eq!(text.matches("map_Kd").count(), 1);
    assert!(text.contains("map_Kd Blade_Diffuse_01.tga"));
}

#[test]
fn embed_real_texture_paths_falls_back_to_the_base_texture_for_a_ghost_variant() {
    let lib = library_of(&[entry(
        "C:/Game/data/compiled/images.pak",
        "/Animation/Heads/Ani_Hero_Helmet_Titanlord_01_Diffuse_S1._ximg",
        "compiled/images/Animation/Heads/Ani_Hero_Helmet_Titanlord_01_Diffuse_S1.png",
        0,
    )]);
    let (text, added) =
        embed_real_texture_paths("newmtl Ani_Hero_Helmet_Titanlord_01_Diffuse_S1_Ghost\r\n\r\n", &lib, "C:/lib");
    assert_eq!(added, 1);
    assert!(text.contains("map_Kd") && text.contains("Ani_Hero_Helmet_Titanlord_01_Diffuse_S1.png"), "{text}");
}

#[test]
fn embed_real_texture_paths_leaves_text_without_materials_unchanged_but_for_crlf() {
    let (text, added) = embed_real_texture_paths("# comment\nv 1 2 3\n", &Vec::new(), "C:/lib");
    assert_eq!(added, 0);
    assert_eq!(text, "# comment\r\nv 1 2 3\r\n");
}

fn file(path: &str, attrs: u32) -> FileEntry {
    FileEntry {
        path: path.to_string(),
        data_offset: 0,
        file_attributes: attrs,
        compression: FileCompression::Uncompressed,
        data_size: 0,
        file_size: 0,
    }
}

fn listing(path: &str, group: &str, entries: Vec<FileEntry>) -> ArchiveListing {
    ArchiveListing { archive: DiscoveredArchive { path: path.to_string(), group: group.to_string() }, entries }
}

#[test]
fn list_meshes_finds_only_xmsh_entries_across_all_archives_with_correct_folders() {
    let archives = vec![
        listing("C:/Game/data/compiled/images.pak", "compiled", vec![file("/Foo._xmat", 0)]),
        listing(
            "C:/Game/data/common/meshes.pak",
            "common",
            vec![
                file("/Animation/Monster/Wolf._xmsh", 0),
                file("/UI_Crosshair._xmsh", 0),
                file("/compiled_meshes.bin", 0),
            ],
        ),
    ];
    let entries = list_meshes(&archives);
    assert_eq!(entries.len(), 2, "{entries:?}");
    let top = entries.iter().find(|e| e.name == "UI_Crosshair._xmsh").unwrap();
    assert_eq!(top.folder, "");
    assert_eq!(top.group, "common");
    assert_eq!(top.archive_stem, "meshes");
    assert_eq!(top.entry_path, "/UI_Crosshair._xmsh");
    let nested = entries.iter().find(|e| e.name == "Wolf._xmsh").unwrap();
    assert_eq!(nested.folder, "Animation/Monster");
}

#[test]
fn listings_skip_deleted_entries_and_match_extensions_in_any_case() {
    let archives = vec![listing(
        "C:/Game/data/common/animations.pak",
        "common",
        vec![file("/A._XMAC", 0), file("/B._xmac", 0x8000), file("/C._xmot", 0)],
    )];
    let actors = list_actors(&archives);
    assert_eq!(actors.len(), 1);
    assert_eq!(actors[0].name, "A._XMAC");
    let motions = list_motions(&archives);
    assert_eq!(motions.len(), 1);
    assert_eq!(motions[0].entry_path, "/C._xmot");
}

#[test]
fn normal_names_are_guessed_from_diffuse_names() {
    assert_eq!(guess_normal_from_diffuse_name("X_Diffuse_01").as_deref(), Some("X_Normal_01"));
    assert_eq!(guess_normal_from_diffuse_name("x_diffuse_01").as_deref(), Some("x_normal_01"));
    assert_eq!(guess_normal_from_diffuse_name("XDiffuse").as_deref(), Some("XNormal"));
    assert_eq!(guess_normal_from_diffuse_name("Plain"), None);
}

#[test]
fn strip_ext_lower_drops_only_the_last_extension() {
    assert_eq!(strip_ext_lower("Nat_Stone._XIMG"), "nat_stone");
    assert_eq!(strip_ext_lower("a.b.PNG"), "a.b");
    assert_eq!(strip_ext_lower("NoExt"), "noext");
}

#[test]
fn html_escape_escapes_markup_characters() {
    assert_eq!(html_escape("a<b>&c"), "a&lt;b&gt;&amp;c");
    assert_eq!(html_escape("plain"), "plain");
}

#[test]
fn regen_engine_names_parse_in_any_case() {
    assert_eq!(RegenEngine::parse_name("AUTO"), Ok(RegenEngine::Auto));
    assert_eq!(RegenEngine::parse_name("Lanczos"), Ok(RegenEngine::Lanczos));
    assert_eq!(RegenEngine::parse_name("ai"), Ok(RegenEngine::Ai));
    assert_eq!(RegenEngine::parse_name("Magic"), Err("magic".to_string()));
    assert_eq!("lanczos".parse::<RegenEngine>(), Ok(RegenEngine::Lanczos));
    assert_eq!(RegenEngine::default(), RegenEngine::Auto);
}
