//! The remote-access server's request handling: splitting a request target into its path and
//! decoded query parameters, the content type a static asset is served with, and spotting
//! the public tunnel URL in `cloudflared`'s output. Sockets and processes stay with the
//! caller.

use vstd::prelude::*;
use vstd::utf8::encode_utf8;
use crate::ai::{has_text, text_contains};
use crate::batch::{ends_with, whitespace, hex_digit};
use crate::logic::{TextMap};
use crate::text::{chars_of, string_from_chars, decoded_name, string_from_utf8_lossy, split_at_char, string_views, split_char};

verus! {

/// What the remote panel shows of the server.
#[derive(Debug, Clone)]
pub struct RemoteStatusDto {
    pub running: bool,
    pub port: Option<u16>,
    pub token: Option<String>,
    pub tunnel_url: Option<String>,
    pub cloudflared_available: bool,
}

// ---------------------------------------------------------------------------------------
// Percent-decoding
// ---------------------------------------------------------------------------------------

/// What `u8::from_str_radix` makes of the two bytes after a `%` in base 16: two hex digits,
/// or a `+` sign and one hex digit.
pub open spec fn hex_pair(a: u8, b: u8) -> Option<u8> {
    if a == 0x2b {
        match hex_digit(b as char) {
            Some(y) => Some(y as u8),
            None => None,
        }
    } else {
        match (hex_digit(a as char), hex_digit(b as char)) {
            (Some(x), Some(y)) => Some((x * 16 + y) as u8),
            _ => None,
        }
    }
}

/// Whether byte position `p` of UTF-8 text `b` starts a character (or is its end).
pub open spec fn char_boundary(b: Seq<u8>, p: int) -> bool {
    p == b.len() || (0 <= p < b.len() && !(0x80 <= b[p] < 0xc0))
}

/// Whether decoding `b[i..]` never slices the text inside a character: at each `%` that is
/// looked at with two bytes after it, the position after those two bytes starts a character.
pub open spec fn percent_defined_from(b: Seq<u8>, i: int) -> bool
    decreases b.len() - i,
{
    if i < 0 || i >= b.len() {
        true
    } else if b[i] == 0x25 && i + 3 <= b.len() {
        char_boundary(b, i + 3) && if hex_pair(b[i + 1], b[i + 2]) is Some {
            percent_defined_from(b, i + 3)
        } else {
            percent_defined_from(b, i + 1)
        }
    } else {
        percent_defined_from(b, i + 1)
    }
}

/// Whether `s` can be percent-decoded without a slice inside a character.
pub open spec fn percent_defined(s: Seq<char>) -> bool {
    percent_defined_from(encode_utf8(s), 0)
}

/// The bytes `b[i..]` decode to: `%` and two hex digits stand for that byte; anything else
/// stands for itself.
pub open spec fn percent_bytes_from(b: Seq<u8>, i: int) -> Seq<u8>
    decreases b.len() - i,
{
    if i < 0 || i >= b.len() {
        Seq::empty()
    } else if b[i] == 0x25 && i + 3 <= b.len() && hex_pair(b[i + 1], b[i + 2]) is Some {
        seq![hex_pair(b[i + 1], b[i + 2]).unwrap()] + percent_bytes_from(b, i + 3)
    } else {
        seq![b[i]] + percent_bytes_from(b, i + 1)
    }
}

/// The text a percent-encoded string decodes to (invalid UTF-8 replaced).
pub open spec fn percent_decoded(s: Seq<char>) -> Seq<char> {
    decoded_name(percent_bytes_from(encode_utf8(s), 0))
}

fn hex_byte(c: u8) -> (r: Option<u8>)
    ensures
        match hex_digit(c as char) {
            None => r is None,
            Some(d) => r == Some(d as u8),
        },
{
    if 0x30 <= c && c <= 0x39 {
        Some(c - 0x30)
    } else if 0x61 <= c && c <= 0x66 {
        Some(c - 87)
    } else if 0x41 <= c && c <= 0x46 {
        Some(c - 55)
    } else {
        None
    }
}

fn hex_pair_exec(a: u8, b: u8) -> (r: Option<u8>)
    ensures
        r == hex_pair(a, b),
{
    if a == 0x2b {
        hex_byte(b)
    } else {
        match (hex_byte(a), hex_byte(b)) {
            (Some(x), Some(y)) => Some(x * 16 + y),
            _ => None,
        }
    }
}

/// Whether `percent_decode` may be called on `s` (see `percent_defined`).
pub fn percent_decodable(s: &str) -> (ok: bool)
    ensures
        ok == percent_defined(s@),
{
    let bytes = s.as_bytes();
    let mut i: usize = 0;
    while i < bytes.len()
        invariant
            bytes@ == encode_utf8(s@),
            i <= bytes@.len(),
            percent_defined_from(bytes@, 0) == percent_defined_from(bytes@, i as int),
        decreases bytes.len() - i,
    {
        if bytes[i] == 0x25 && bytes.len() - i >= 3 {
            if i + 3 < bytes.len() && 0x80 <= bytes[i + 3] && bytes[i + 3] < 0xc0 {
                return false;
            }
            if hex_pair_exec(bytes[i + 1], bytes[i + 2]).is_some() {
                i += 3;
                continue;
            }
        }
        i += 1;
    }
    true
}

proof fn lemma_percent_prefix(b: Seq<u8>, i: int)
    requires
        0 <= i <= b.len(),
    ensures
        percent_bytes_from(b, i).len() <= b.len() - i,
    decreases b.len() - i,
{
    if i < b.len() {
        if b[i] == 0x25 && i + 3 <= b.len() && hex_pair(b[i + 1], b[i + 2]) is Some {
            lemma_percent_prefix(b, i + 3);
        } else {
            lemma_percent_prefix(b, i + 1);
        }
    }
}

/// Percent-decodes `s` (see `percent_decoded`).
pub fn percent_decode(s: &str) -> (t: String)
    requires
        percent_defined(s@),
    ensures
        t@ == percent_decoded(s@),
{
    let bytes = s.as_bytes();
    let mut out: Vec<u8> = Vec::new();
    let mut i: usize = 0;
    while i < bytes.len()
        invariant
            bytes@ == encode_utf8(s@),
            i <= bytes@.len(),
            out@ + percent_bytes_from(bytes@, i as int) == percent_bytes_from(bytes@, 0),
        decreases bytes.len() - i,
    {
        let ghost before = out@;
        if bytes[i] == 0x25 && bytes.len() - i >= 3 {
            match hex_pair_exec(bytes[i + 1], bytes[i + 2]) {
                Some(v) => {
                    out.push(v);
                    proof {
                        assert(hex_pair(bytes@[i + 1], bytes@[i + 2]) == Some(v));
                        assert(before + percent_bytes_from(bytes@, i as int) =~= out@ + percent_bytes_from(bytes@, i + 3));
                    }
                    i += 3;
                    continue;
                },
                _ => {},
            }
        }
        out.push(bytes[i]);
        proof {
            assert(before + percent_bytes_from(bytes@, i as int) =~= out@ + percent_bytes_from(bytes@, i + 1));
        }
        i += 1;
    }
    proof {
        assert(out@ + Seq::<u8>::empty() =~= out@);
    }
    string_from_utf8_lossy(out.as_slice())
}

// ---------------------------------------------------------------------------------------
// Request targets
// ---------------------------------------------------------------------------------------

/// The index of the first `c` in `s` at or after `i`.
pub open spec fn index_of_from(s: Seq<char>, c: char, i: int) -> Option<int>
    decreases s.len() - i,
{
    if i < 0 || i >= s.len() {
        None
    } else if s[i] == c {
        Some(i)
    } else {
        index_of_from(s, c, i + 1)
    }
}

/// `s` split at its first `c`: what comes before, and what comes after (if `c` occurs).
pub open spec fn split_once(s: Seq<char>, c: char) -> (Seq<char>, Option<Seq<char>>) {
    match index_of_from(s, c, 0) {
        None => (s, None),
        Some(i) => (s.subrange(0, i), Some(s.subrange(i + 1, s.len() as int))),
    }
}

/// The query parameters of the first `n` `&`-separated pairs, later keys winning: each
/// non-empty pair is `key=value` (or just `key`, with an empty value), both percent-decoded.
pub open spec fn query_upto(pairs: Seq<Seq<char>>, n: int) -> Map<Seq<char>, Seq<char>>
    decreases n,
{
    if n <= 0 {
        Map::empty()
    } else {
        let m = query_upto(pairs, n - 1);
        let p = pairs[n - 1];
        if p.len() == 0 {
            m
        } else {
            let (k, v) = split_once(p, '=');
            m.insert(
                percent_decoded(k),
                percent_decoded(
                    match v {
                        Some(x) => x,
                        None => Seq::empty(),
                    },
                ),
            )
        }
    }
}

/// A request target's path (before the first `?`) and its query parameters.
pub open spec fn path_and_query(raw: Seq<char>) -> (Seq<char>, Map<Seq<char>, Seq<char>>) {
    let (path, qs) = split_once(raw, '?');
    (
        path,
        match qs {
            None => Map::empty(),
            Some(q) => query_upto(split_char(q, '&'), split_char(q, '&').len() as int),
        },
    )
}

/// Whether a query pair's key and value can be percent-decoded (an empty pair is skipped).
pub open spec fn pair_defined(p: Seq<char>) -> bool {
    p.len() == 0 || {
        let (k, v) = split_once(p, '=');
        percent_defined(k) && percent_defined(
            match v {
                Some(x) => x,
                None => Seq::empty(),
            },
        )
    }
}

/// Whether every pair of a request target's query can be percent-decoded.
pub open spec fn query_defined(raw: Seq<char>) -> bool {
    match split_once(raw, '?').1 {
        None => true,
        Some(q) => forall|j: int| 0 <= j < split_char(q, '&').len() ==> pair_defined(#[trigger] split_char(q, '&')[j]),
    }
}

fn split_first(s: &str, c: char) -> (r: (String, Option<String>))
    ensures
        (r.0@, match r.1 {
            Some(x) => Some(x@),
            None => None,
        }) == split_once(s@, c),
{
    let cs = chars_of(s);
    let mut i: usize = 0;
    while i < cs.len() && cs[i] != c
        invariant
            cs@ == s@,
            i <= cs@.len(),
            index_of_from(cs@, c, 0) == index_of_from(cs@, c, i as int),
        decreases cs.len() - i,
    {
        i += 1;
    }
    if i == cs.len() {
        let whole = string_from_chars(cs.as_slice(), 0, cs.len());
        proof {
            assert(cs@.subrange(0, cs@.len() as int) =~= cs@);
        }
        (whole, None)
    } else {
        (string_from_chars(cs.as_slice(), 0, i), Some(string_from_chars(cs.as_slice(), i + 1, cs.len())))
    }
}

/// A request target's path and decoded query parameters (see `path_and_query`).
pub fn parse_path_and_query(raw: &str) -> (r: (String, TextMap))
    requires
        query_defined(raw@),
    ensures
        r.1.wf(),
        (r.0@, r.1.view_map()) == path_and_query(raw@),
{
    let (path, qs) = split_first(raw, '?');
    let mut map = TextMap::new();
    match qs {
        None => {},
        Some(q) => {
            let pairs = split_at_char(q.as_str(), '&');
            let ghost pv = string_views(pairs@);
            assert(split_once(raw@, '?').1 == Some(q@));
            assert forall|j: int| 0 <= j < pv.len() implies pair_defined(#[trigger] pv[j]) by {
                let qq = split_once(raw@, '?').1->0;
                assert(qq == q@);
                assert(pv[j] == split_char(qq, '&')[j]);
            }
            let mut i: usize = 0;
            while i < pairs.len()
                invariant
                    i <= pairs@.len(),
                    pv == string_views(pairs@),
                    pv == split_char(q@, '&'),
                    map.wf(),
                    map.view_map() == query_upto(pv, i as int),
                    forall|j: int| 0 <= j < pv.len() ==> pair_defined(#[trigger] pv[j]),
                decreases pairs.len() - i,
            {
                assert(pv[i as int] == pairs@[i as int]@);
                let pc = chars_of(pairs[i].as_str());
                if pc.len() > 0 {
                    let (k, v) = split_first(pairs[i].as_str(), '=');
                    assert(pair_defined(pv[i as int]));
                    let key = percent_decode(k.as_str());
                    let value = match v {
                        Some(x) => percent_decode(x.as_str()),
                        None => {
                            proof {
                                reveal_strlit("");
                                assert(""@ =~= Seq::<char>::empty());
                                assert(encode_utf8(Seq::<char>::empty()) =~= Seq::<u8>::empty());
                                assert(decoded_name(Seq::<u8>::empty()) =~= Seq::<char>::empty()) by {
                                    vstd::utf8::encode_utf8_decode_utf8(Seq::<char>::empty());
                                    vstd::utf8::encode_utf8_valid_utf8(Seq::<char>::empty());
                                }
                                assert(percent_bytes_from(Seq::<u8>::empty(), 0) =~= Seq::<u8>::empty());
                            }
                            percent_decode("")
                        },
                    };
                    let ghost kv = key@;
                    let ghost vv = value@;
                    map.insert(key, value);
                    proof {
                        let p = pv[i as int];
                        assert(p == pc@);
                        assert(p.len() > 0);
                        let (sk, sv) = split_once(p, '=');
                        assert(kv == percent_decoded(sk));
                        assert(vv == percent_decoded(match sv { Some(x) => x, None => Seq::<char>::empty() }));
                        assert(query_upto(pv, i + 1) == query_upto(pv, i as int).insert(kv, vv));
                    }
                } else {
                    proof {
                        assert(pv[i as int].len() == 0);
                    }
                }
                i += 1;
            }
        },
    }
    (path, map)
}

/// Whether `parse_path_and_query` may be called on `raw` (see `query_defined`).
pub fn query_decodable(raw: &str) -> (ok: bool)
    ensures
        ok == query_defined(raw@),
{
    let (_path, qs) = split_first(raw, '?');
    match qs {
        None => true,
        Some(q) => {
            let pairs = split_at_char(q.as_str(), '&');
            let ghost pv = string_views(pairs@);
            assert(split_once(raw@, '?').1 == Some(q@));
            let mut i: usize = 0;
            while i < pairs.len()
                invariant
                    i <= pairs@.len(),
                    pv == string_views(pairs@),
                    pv == split_char(q@, '&'),
                    split_once(raw@, '?').1 == Some(q@),
                    forall|j: int| 0 <= j < i ==> pair_defined(#[trigger] pv[j]),
                decreases pairs.len() - i,
            {
                assert(pv[i as int] == pairs@[i as int]@);
                let pc = chars_of(pairs[i].as_str());
                if pc.len() > 0 {
                    let (k, v) = split_first(pairs[i].as_str(), '=');
                    let value_ok = match &v {
                        Some(x) => percent_decodable(x.as_str()),
                        None => {
                            proof {
                                assert(encode_utf8(Seq::<char>::empty()) =~= Seq::<u8>::empty());
                            }
                            true
                        },
                    };
                    assert(pv[i as int] == pc@);
                    if !percent_decodable(k.as_str()) || !value_ok {
                        proof {
                            let p = pv[i as int];
                            assert(p == pc@);
                            assert(split_once(p, '=').0 == k@);
                            assert(!pair_defined(p));
                            let qq = split_once(raw@, '?').1->0;
                            assert(qq == q@);
                            assert(split_char(qq, '&')[i as int] == p);
                            assert(!query_defined(raw@));
                        }
                        return false;
                    }
                }
                i += 1;
            }
            assert forall|j: int| 0 <= j < split_char(q@, '&').len() implies pair_defined(
                #[trigger] split_char(q@, '&')[j],
            ) by {
                assert(pv[j] == split_char(q@, '&')[j]);
            }
            true
        },
    }
}

// ---------------------------------------------------------------------------------------
// Static assets
// ---------------------------------------------------------------------------------------

/// The content type a static asset is served with, by its extension.
pub open spec fn content_type_of(p: Seq<char>) -> Seq<char> {
    if ends_with(p, ".html"@) {
        "text/html; charset=utf-8"@
    } else if ends_with(p, ".js"@) || ends_with(p, ".mjs"@) {
        "text/javascript; charset=utf-8"@
    } else if ends_with(p, ".css"@) {
        "text/css; charset=utf-8"@
    } else if ends_with(p, ".svg"@) {
        "image/svg+xml"@
    } else if ends_with(p, ".png"@) {
        "image/png"@
    } else if ends_with(p, ".ico"@) {
        "image/x-icon"@
    } else if ends_with(p, ".json"@) {
        "application/json; charset=utf-8"@
    } else if ends_with(p, ".woff2"@) {
        "font/woff2"@
    } else {
        "application/octet-stream"@
    }
}

fn ends_with_str(p: &Vec<char>, suffix: &str) -> (b: bool)
    ensures
        b == ends_with(p@, suffix@),
{
    let t = chars_of(suffix);
    if t.len() > p.len() {
        return false;
    }
    let pl = p.len();
    let off = pl - t.len();
    let mut k: usize = 0;
    while k < t.len()
        invariant
            pl == p@.len(),
            t@ == suffix@,
            off + t@.len() == p@.len(),
            k <= t@.len(),
            forall|j: int| 0 <= j < k ==> p@[off + j] == t@[j],
        decreases t.len() - k,
    {
        if p[off + k] != t[k] {
            proof {
                assert(p@.subrange(off as int, p@.len() as int)[k as int] != t@[k as int]);
            }
            return false;
        }
        k += 1;
    }
    assert(p@.subrange(off as int, p@.len() as int) =~= t@);
    true
}

/// The content type for a static asset path (see `content_type_of`).
pub fn guess_content_type(path: &str) -> (s: String)
    ensures
        s@ == content_type_of(path@),
{
    let p = chars_of(path);
    if ends_with_str(&p, ".html") {
        String::from_str("text/html; charset=utf-8")
    } else if ends_with_str(&p, ".js") || ends_with_str(&p, ".mjs") {
        String::from_str("text/javascript; charset=utf-8")
    } else if ends_with_str(&p, ".css") {
        String::from_str("text/css; charset=utf-8")
    } else if ends_with_str(&p, ".svg") {
        String::from_str("image/svg+xml")
    } else if ends_with_str(&p, ".png") {
        String::from_str("image/png")
    } else if ends_with_str(&p, ".ico") {
        String::from_str("image/x-icon")
    } else if ends_with_str(&p, ".json") {
        String::from_str("application/json; charset=utf-8")
    } else if ends_with_str(&p, ".woff2") {
        String::from_str("font/woff2")
    } else {
        String::from_str("application/octet-stream")
    }
}

// ---------------------------------------------------------------------------------------
// The tunnel URL
// ---------------------------------------------------------------------------------------

/// The first position at or after `i` where `needle` starts in `hay`.
pub open spec fn text_at_from(hay: Seq<char>, needle: Seq<char>, i: int) -> Option<int>
    decreases hay.len() - i,
{
    if i < 0 || i >= hay.len() || i + needle.len() > hay.len() {
        None
    } else if hay.subrange(i, i + needle.len()) == needle {
        Some(i)
    } else {
        text_at_from(hay, needle, i + 1)
    }
}

/// The index of the first whitespace or `|` character at or after `i`.
pub open spec fn url_end_from(s: Seq<char>, i: int) -> Option<int>
    decreases s.len() - i,
{
    if i < 0 || i >= s.len() {
        None
    } else if whitespace(s[i]) || s[i] == '|' {
        Some(i)
    } else {
        url_end_from(s, i + 1)
    }
}

/// `s` without trailing `.` and `,` characters.
pub open spec fn trim_dots(s: Seq<char>) -> Seq<char>
    decreases s.len(),
{
    if s.len() > 0 && (s.last() == '.' || s.last() == ',') {
        trim_dots(s.drop_last())
    } else {
        s
    }
}

/// The `trycloudflare.com` URL a `cloudflared` output line announces: from the first
/// `https://` to the next whitespace or `|`, without trailing `.`/`,`.
pub open spec fn tunnel_url_of(line: Seq<char>) -> Option<Seq<char>> {
    match text_at_from(line, "https://"@, 0) {
        None => None,
        Some(idx) => {
            let rest = line.subrange(idx, line.len() as int);
            let end = match url_end_from(rest, 0) {
                Some(e) => e,
                None => rest.len() as int,
            };
            let cand = trim_dots(rest.subrange(0, end));
            if has_text(cand, "trycloudflare.com"@) {
                Some(cand)
            } else {
                None
            }
        },
    }
}

proof fn lemma_text_at_found(hay: Seq<char>, needle: Seq<char>, i: int, k: int)
    requires
        text_at_from(hay, needle, i) == Some(k),
    ensures
        i <= k < hay.len(),
    decreases hay.len() - i,
{
    if !(i < 0 || i >= hay.len() || i + needle.len() > hay.len()) && hay.subrange(i, i + needle.len()) != needle {
        lemma_text_at_found(hay, needle, i + 1, k);
    }
}

/// The tunnel URL in a `cloudflared` output line (see `tunnel_url_of`).
pub fn extract_trycloudflare_url(line: &str) -> (r: Option<String>)
    ensures
        match tunnel_url_of(line@) {
            None => r is None,
            Some(u) => r matches Some(s) && s@ == u,
        },
{
    let cs = chars_of(line);
    let needle = chars_of("https://");
    let n = needle.len();
    let mut i: usize = 0;
    let mut found = false;
    while i < cs.len() && !found
        invariant
            cs@ == line@,
            needle@ == "https://"@,
            n == needle@.len(),
            i <= cs@.len(),
            !found ==> text_at_from(cs@, needle@, 0) == text_at_from(cs@, needle@, i as int),
            found ==> text_at_from(cs@, needle@, 0) == Some(i as int) && i < cs@.len(),
        decreases cs.len() - i, if found { 0int } else { 1int },
    {
        if cs.len() - i >= n {
            let cl = cs.len();
            let mut k: usize = 0;
            let mut same = true;
            while k < n
                invariant
                    k <= n,
                    cl == cs@.len(),
                    n == needle@.len(),
                    i + n <= cs@.len(),
                    same == forall|t: int| 0 <= t < k ==> cs@[i + t] == needle@[t],
                decreases n - k,
            {
                if cs[i + k] != needle[k] {
                    same = false;
                }
                k += 1;
            }
            if same {
                proof {
                    assert(cs@.subrange(i as int, i + n) =~= needle@);
                }
                found = true;
            } else {
                proof {
                    let t = choose|t: int| 0 <= t < n && cs@[i + t] != needle@[t];
                    assert(cs@.subrange(i as int, i + n)[t] != needle@[t]);
                }
                i += 1;
            }
        } else {
            i += 1;
        }
    }
    if !found {
        return None;
    }
    let rest = string_from_chars(cs.as_slice(), i, cs.len());
    let rc = chars_of(rest.as_str());
    let mut e: usize = 0;
    while e < rc.len() && !crate::batch::is_whitespace(rc[e]) && rc[e] != '|'
        invariant
            e <= rc@.len(),
            url_end_from(rc@, 0) == url_end_from(rc@, e as int),
        decreases rc.len() - e,
    {
        e += 1;
    }
    let mut end = e;
    while end > 0 && (rc[end - 1] == '.' || rc[end - 1] == ',')
        invariant
            end <= e <= rc@.len(),
            trim_dots(rc@.subrange(0, e as int)) == trim_dots(rc@.subrange(0, end as int)),
        decreases end,
    {
        proof {
            assert(rc@.subrange(0, end as int).drop_last() =~= rc@.subrange(0, end - 1));
        }
        end -= 1;
    }
    proof {
        let c = rc@.subrange(0, end as int);
        if end > 0 {
            assert(c.last() == rc@[end - 1]);
        }
        assert(trim_dots(c) == c);
    }
    let cand = string_from_chars(rc.as_slice(), 0, end);
    if text_contains(cand.as_str(), "trycloudflare.com") {
        Some(cand)
    } else {
        None
    }
}

} // verus!
