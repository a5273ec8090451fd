use risenlab::logic::{
    approved_pngs, base64_encode, data_url_png, join_path_str, list_edited_pngs, review_queue_from,
    review_status_path, settings_path, ReviewStatusMap, TextMap,
};

#[test]
fn settings_path_joins_config_dir() {
    assert_eq!(settings_path("C:/cfg"), "C:/cfg/settings.json");
}

#[test]
fn review_status_path_joins_output_dir() {
    assert_eq!(review_status_path("C:/out"), "C:/out/review_status.json");
}

#[test]
fn review_queue_from_defaults_missing_entries_to_pending() {
    let mut status = ReviewStatusMap::new();
    status.insert("a.png".to_string(), "approved".to_string());
    let queue = review_queue_from(&["a.png".to_string(), "b.png".to_string()], &status);
    assert_eq!(
        queue,
        vec![
            ("a.png".to_string(), "approved".to_string()),
            ("b.png".to_string(), "pending".to_string()),
        ]
    );
}

#[test]
fn approved_pngs_filters_and_sorts() {
    let mut status = ReviewStatusMap::new();
    status.insert("z.png".to_string(), "approved".to_string());
    status.insert("a.png".to_string(), "approved".to_string());
    status.insert("m.png".to_string(), "rejected".to_string());
    assert_eq!(approved_pngs(&status), vec!["a.png".to_string(), "z.png".to_string()]);
}

#[test]
fn logic_base64_matches_known_vectors() {
    assert_eq!(base64_encode(b""), "");
    assert_eq!(base64_encode(b"f"), "Zg==");
    assert_eq!(base64_encode(b"foobar"), "Zm9vYmFy");
}

#[test]
fn data_url_png_wraps_base64_with_the_right_prefix() {
    assert_eq!(data_url_png(b"foobar"), "data:image/png;base64,Zm9vYmFy");
}

#[test]
fn list_edited_pngs_finds_nested_pngs_and_ignores_other_files() {
    let found = list_edited_pngs(vec![
        "compiled/images/other.png".to_string(),
        "compiled/images/Level/rock.png".to_string(),
    ]);
    assert_eq!(
        found,
        vec!["compiled/images/Level/rock.png".to_string(), "compiled/images/other.png".to_string()]
    );
}

#[test]
fn list_edited_pngs_returns_empty_when_no_edited_dir_yet() {
    assert!(list_edited_pngs(Vec::new()).is_empty());
}

#[test]
fn list_edited_pngs_writes_backslashes_as_forward_slashes() {
    let found = list_edited_pngs(vec!["b\\c.png".to_string(), "a\\x.png".to_string()]);
    assert_eq!(found, vec!["a/x.png".to_string(), "b/c.png".to_string()]);
}

#[test]
fn join_path_adds_exactly_one_separator() {
    assert_eq!(join_path_str("C:/out/", "x.json"), "C:/out/x.json");
    assert_eq!(join_path_str("", "x.json"), "x.json");
    assert_eq!(join_path_str("dir", "x.json"), "dir/x.json");
}

#[test]
fn base64_pads_one_and_two_byte_tails() {
    assert_eq!(base64_encode(b"fo"), "Zm8=");
    assert_eq!(base64_encode(b"foo"), "Zm9v");
    assert_eq!(base64_encode(&[0xff, 0xfe, 0xfd]), "//79");
    assert_eq!(base64_encode(&[0xfb, 0xff]), "+/8=");
}

#[test]
fn text_map_insert_replaces_an_existing_key() {
    let mut m = TextMap::new();
    assert!(m.is_empty());
    m.insert("a.png".to_string(), "pending".to_string());
    m.insert("b.png".to_string(), "approved".to_string());
    m.insert("a.png".to_string(), "rejected".to_string());
    assert_eq!(m.len(), 2);
    assert_eq!(m.get("a.png").as_deref(), Some("rejected"));
    assert_eq!(m.get("b.png").as_deref(), Some("approved"));
    assert_eq!(m.get("c.png"), None);
    assert_eq!(
        m.entries(),
        vec![
            ("a.png".to_string(), "rejected".to_string()),
            ("b.png".to_string(), "approved".to_string()),
        ]
    );
}

#[test]
fn approved_pngs_lists_a_key_once_after_it_is_approved_twice() {
    let mut status = ReviewStatusMap::new();
    status.insert("k.png".to_string(), "approved".to_string());
    status.insert("k.png".to_string(), "approved".to_string());
    status.insert("j.png".to_string(), "pending".to_string());
    assert_eq!(approved_pngs(&status), vec!["k.png".to_string()]);
}

#[test]
fn review_queue_keeps_the_order_of_the_edited_list() {
    let mut status = ReviewStatusMap::new();
    status.insert("b.png".to_string(), "rejected".to_string());
    let queue = review_queue_from(&["b.png".to_string(), "a.png".to_string()], &status);
    assert_eq!(queue[0], ("b.png".to_string(), "rejected".to_string()));
    assert_eq!(queue[1], ("a.png".to_string(), "pending".to_string()));
}

#[test]
fn base64_decodes_back_and_pads_at_the_end_only() {
    use_standard_decoder_round_trip(b"");
    use_standard_decoder_round_trip(b"f");
    use_standard_decoder_round_trip(b"fo");
    use_standard_decoder_round_trip(&[0u8, 255, 128, 7, 64]);
    let s = base64_encode(b"fo");
    assert_eq!(s.len(), 4);
    assert_eq!(s.find('='), Some(3));
}

fn use_standard_decoder_round_trip(data: &[u8]) {
    let s = base64_encode(data);
    assert_eq!(s.len(), 4 * ((data.len() + 2) / 3));
    assert_eq!(base64::Engine::decode(&base64::engine::general_purpose::STANDARD, &s).unwrap(), data);
}
