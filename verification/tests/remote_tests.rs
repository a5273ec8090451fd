use risenlab::remote::{
    extract_trycloudflare_url, guess_content_type, parse_path_and_query, percent_decodable, percent_decode,
    query_decodable,
};

#[test]
fn percent_decode_turns_escapes_into_bytes() {
    assert_eq!(percent_decode("a%20b"), "a b");
    assert_eq!(percent_decode("%41%42C"), "ABC");
    assert_eq!(percent_decode("%e2%82%ac"), "\u{20ac}");
    assert_eq!(percent_decode("%+f"), "\u{f}");
}

#[test]
fn percent_decode_keeps_incomplete_or_non_hex_escapes() {
    assert_eq!(percent_decode("100%"), "100%");
    assert_eq!(percent_decode("%4"), "%4");
    assert_eq!(percent_decode("%zz!"), "%zz!");
    assert_eq!(percent_decode("%ff"), "\u{fffd}");
}

#[test]
fn percent_decoding_a_split_character_is_refused_up_front() {
    assert!(percent_decodable("a%20b"));
    assert!(percent_decodable("%\u{e9}"));
    assert!(!percent_decodable("%\u{20ac}"));
    assert!(!percent_decodable("%a\u{e9}"));
    assert!(query_decodable("/x?a=%20"));
    assert!(!query_decodable("/x?a=%\u{20ac}"));
    assert!(query_decodable("/x%\u{20ac}"));
}

#[test]
fn parse_path_and_query_splits_and_decodes_pairs() {
    let (path, q) = parse_path_and_query("/api/library?group=compiled&name=a%20b&flag&&x=1=2");
    assert_eq!(path, "/api/library");
    assert_eq!(q.get("group").as_deref(), Some("compiled"));
    assert_eq!(q.get("name").as_deref(), Some("a b"));
    assert_eq!(q.get("flag").as_deref(), Some(""));
    assert_eq!(q.get("x").as_deref(), Some("1=2"));
    assert_eq!(q.len(), 4);
}

#[test]
fn parse_path_and_query_without_query_has_no_params() {
    let (path, q) = parse_path_and_query("/index.html");
    assert_eq!(path, "/index.html");
    assert!(q.is_empty());
}

#[test]
fn later_query_keys_win() {
    let (_, q) = parse_path_and_query("/?k=1&k=2");
    assert_eq!(q.get("k").as_deref(), Some("2"));
    assert_eq!(q.len(), 1);
}

#[test]
fn content_types_follow_the_extension() {
    assert_eq!(guess_content_type("index.html"), "text/html; charset=utf-8");
    assert_eq!(guess_content_type("assets/app.mjs"), "text/javascript; charset=utf-8");
    assert_eq!(guess_content_type("a.js"), "text/javascript; charset=utf-8");
    assert_eq!(guess_content_type("a.css"), "text/css; charset=utf-8");
    assert_eq!(guess_content_type("a.svg"), "image/svg+xml");
    assert_eq!(guess_content_type("a.png"), "image/png");
    assert_eq!(guess_content_type("favicon.ico"), "image/x-icon");
    assert_eq!(guess_content_type("m.json"), "application/json; charset=utf-8");
    assert_eq!(guess_content_type("f.woff2"), "font/woff2");
    assert_eq!(guess_content_type("blob.bin"), "application/octet-stream");
}

#[test]
fn tunnel_url_is_found_in_cloudflared_output() {
    let line = "2024-01-01 INF |  https://quiet-river-1234.trycloudflare.com  |";
    assert_eq!(extract_trycloudflare_url(line).as_deref(), Some("https://quiet-river-1234.trycloudflare.com"));
    assert_eq!(
        extract_trycloudflare_url("Visit https://abc.trycloudflare.com.").as_deref(),
        Some("https://abc.trycloudflare.com")
    );
    assert_eq!(extract_trycloudflare_url("see https://example.com now"), None);
    assert_eq!(extract_trycloudflare_url("no url here"), None);
}
