use risenlab::batch::{ManifestEntry, RegenEngine};
use risenlab::logic::base64_encode;
use risenlab::pak::{FileCompression, FileEntry};
use risenlab::patchplan::{
    auto_scale, base_archive_name, group_changed, next_patch_slot, is_patch_volume, is_texture_entry, obj_path_for, patch_volume_name, png_rel_for,
    regen_next, review_page, review_row, staged_raw_name, wants_ai, AiOutcome, RegenNext,
};

fn file_entry(path: &str, attrs: u32) -> FileEntry {
    FileEntry {
        path: path.to_string(),
        data_offset: 0,
        file_attributes: attrs,
        compression: FileCompression::Uncompressed,
        data_size: 0,
        file_size: 0,
    }
}

fn manifest_entry(archive: &str, group: &str, hash: u64) -> ManifestEntry {
    ManifestEntry {
        archive: archive.to_string(),
        group: group.to_string(),
        entry_path: "/x._ximg".to_string(),
        png_rel: "x.png".to_string(),
        hash,
    }
}

#[test]
fn texture_entries_are_live_ximg_files() {
    assert!(is_texture_entry(&file_entry("/Level/Rock._ximg", 0)));
    assert!(is_texture_entry(&file_entry("/Level/ROCK._XIMG", 0)));
    assert!(!is_texture_entry(&file_entry("/Level/Rock._xmsh", 0)));
    assert!(!is_texture_entry(&file_entry("/Level/Rock._ximg", 0x8000)));
    assert!(is_texture_entry(&file_entry("/Level/Rock._ximg", 0x80)));
}

#[test]
fn png_paths_mirror_the_archive_layout() {
    let rel = png_rel_for("compiled", "images", &"/Special/ItWpn_Axes_01_Diffuse_01._ximg".to_string());
    assert_eq!(rel, "compiled/images/Special/ItWpn_Axes_01_Diffuse_01.png");
    let rel = png_rel_for("common", "textures", &"//a/b._ximg".to_string());
    assert_eq!(rel, "common/textures/a/b.png");
}

#[test]
fn patch_volumes_are_numbered_with_two_digits() {
    assert_eq!(patch_volume_name("images", 1), "images.p01");
    assert_eq!(patch_volume_name("images", 42), "images.p42");
    assert_eq!(patch_volume_name("images", 99), "images.p99");
}

#[test]
fn patch_volume_files_are_recognized_by_extension() {
    assert!(is_patch_volume("images.p01"));
    assert!(is_patch_volume("images.p7"));
    assert!(!is_patch_volume("images.pak"));
    assert!(!is_patch_volume("images.p"));
    assert!(!is_patch_volume("images"));
    assert!(!is_patch_volume("images.x01"));
}

#[test]
fn converted_meshes_are_cached_beside_their_entry_path() {
    assert_eq!(obj_path_for("/out", &"/Level/Tree._xmsh".to_string()), "/out/Level/Tree.obj");
}

#[test]
fn staged_names_hash_the_entry_path() {
    let name = staged_raw_name("/Level/Tree._xmsh", "xmsh");
    assert_eq!(name.len(), 16 + 1 + 4);
    assert!(name.ends_with(".xmsh"));
    assert_eq!(name, format!("{:016x}.xmsh", risenlab::batch::fnv1a(b"/Level/Tree._xmsh")));
    // FNV-1a of the empty string is its offset basis.
    assert_eq!(staged_raw_name("", "xmac"), "cbf29ce484222325.xmac");
}

#[test]
fn changed_entries_are_grouped_by_archive_in_first_seen_order() {
    let entries = vec![
        manifest_entry("a.pak", "compiled", 1),
        manifest_entry("b.pak", "common", 2),
        manifest_entry("a.pak", "compiled", 3),
        manifest_entry("c.pak", "compiled", 4),
        manifest_entry("b.pak", "common", 5),
    ];
    // Entry 0 unchanged, entry 3 gone, the rest changed.
    let current = vec![Some(1), Some(20), Some(30), None, Some(50)];
    let groups = group_changed(&entries, &current);
    assert_eq!(groups.len(), 2);
    assert_eq!(groups[0].archive, "b.pak");
    assert_eq!(groups[0].group, "common");
    assert_eq!(groups[0].entries, vec![1, 4]);
    assert_eq!(groups[1].archive, "a.pak");
    assert_eq!(groups[1].entries, vec![2]);
}

#[test]
fn nothing_changed_gives_no_groups() {
    let entries = vec![manifest_entry("a.pak", "compiled", 1)];
    assert!(group_changed(&entries, &vec![Some(1)]).is_empty());
    assert!(group_changed(&entries, &vec![None]).is_empty());
}

#[test]
fn automatic_scale_favours_small_textures() {
    assert_eq!(auto_scale(256, 128), 4);
    assert_eq!(auto_scale(64, 64), 4);
    assert_eq!(auto_scale(257, 16), 2);
    assert_eq!(auto_scale(1024, 1024), 2);
}

#[test]
fn data_maps_never_go_to_the_ai_engine() {
    assert!(wants_ai(RegenEngine::Auto, "compiled/images/Rock_Diffuse_01.png"));
    assert!(!wants_ai(RegenEngine::Auto, "compiled/images/Rock_Normal_01.png"));
    assert!(!wants_ai(RegenEngine::Ai, "compiled/images/Rock_Normal_01.png"));
    assert!(!wants_ai(RegenEngine::Lanczos, "compiled/images/Rock_Diffuse_01.png"));
}

#[test]
fn a_failed_ai_attempt_is_final_only_when_ai_was_forced() {
    assert_eq!(regen_next(RegenEngine::Ai, AiOutcome::Succeeded), RegenNext::KeepAi);
    assert_eq!(regen_next(RegenEngine::Auto, AiOutcome::Succeeded), RegenNext::KeepAi);
    assert_eq!(regen_next(RegenEngine::Ai, AiOutcome::Failed), RegenNext::GiveUp);
    assert_eq!(regen_next(RegenEngine::Ai, AiOutcome::NotConfigured), RegenNext::GiveUp);
    assert_eq!(regen_next(RegenEngine::Auto, AiOutcome::Failed), RegenNext::Upscale);
    assert_eq!(regen_next(RegenEngine::Auto, AiOutcome::NotConfigured), RegenNext::Upscale);
}

#[test]
fn review_rows_embed_both_pngs_under_the_escaped_path() {
    let row = review_row("/a<b>&c._ximg", b"orig", b"edit");
    assert!(row.starts_with("<div class=\"row\"><h3>/a&lt;b&gt;&amp;c._ximg</h3>"));
    assert!(row.contains(&format!("data:image/png;base64,{}\"><figcaption>original", base64_encode(b"orig"))));
    assert!(row.contains(&format!("data:image/png;base64,{}\"><figcaption>edited", base64_encode(b"edit"))));
    assert!(row.ends_with("</div></div>\n"));
}

#[test]
fn review_page_counts_the_changed_textures() {
    let page = review_page(12, "ROWS");
    assert!(page.starts_with("<!doctype html>\n"));
    assert!(page.contains("<h1>12 changed texture(s)</h1>\nROWS\n</body></html>\n"));
    assert!(review_page(0, "").contains("<h1>0 changed texture(s)</h1>"));
    assert!(page.contains("body { font-family: sans-serif;"));
}

#[test]
fn the_first_free_patch_slot_is_chosen() {
    assert_eq!(next_patch_slot(&vec![false; 99]), Some(1));
    assert_eq!(next_patch_slot(&vec![true, true, false, true]), Some(3));
    assert_eq!(next_patch_slot(&vec![true; 4]), Some(5));
    assert_eq!(next_patch_slot(&vec![true; 99]), None);
}

#[test]
fn patch_volumes_patch_the_pak_of_their_stem() {
    assert_eq!(base_archive_name("images"), "images.pak");
}
