//! The texture round trip's bookkeeping: content hashes, the `manifest.tsv` that records
//! where each extracted PNG came from, the library listing the UI shows, listings of meshes,
//! actors and motions, texture details, and the material texture references of a converted
//! mesh. Reading and writing files, decoding images and running converters stay with the
//! caller.

use vstd::prelude::*;
use vstd::wrapping::u64_specs::wrapping_mul;
use crate::ai::{file_stem_of, path_file_stem, lowercase_of, to_lowercase};
use crate::gamepath::DiscoveredArchive;
use crate::pak::{FileEntry, PakArchive, PakError, DELETED_ATTR, EntrySpec, entries_view, stored_bytes, entry_contents};
use crate::pakmerge::{trim_slashes, trim_leading_slashes};
use crate::text::{
    chars_of, string_from_chars, string_push, str_equal, split_char, split_at_char, string_views,
    lower_text, ascii_lowercase_chars,
};
use crate::ximg::{XimgError, parse, parse_spec, read_pixel_format, pixel_format_in_bounds, pixel_format_spec};
use crate::xmac::{XmacError, SkeletonNode, parse_skeleton, skeleton_spec, nodes_view};
use crate::xmesh_skin::{SkinError, SkinnedMesh, read_skinned_mesh, skinned_spec, skinned_view, read_margin};

verus! {

// ---------------------------------------------------------------------------------------
// Content hash
// ---------------------------------------------------------------------------------------

/// FNV-1a over `d` (64-bit, wrapping).
pub open spec fn fnv1a_spec(d: Seq<u8>) -> u64
    decreases d.len(),
{
    if d.len() == 0 {
        0xcbf2_9ce4_8422_2325
    } else {
        wrapping_mul(fnv1a_spec(d.drop_last()) ^ (d.last() as u64), 0x0000_0100_0000_01b3)
    }
}

/// FNV-1a (64-bit): a non-cryptographic content hash, used to tell whether a PNG changed.
pub fn fnv1a(data: &[u8]) -> (h: u64)
    ensures
        h == fnv1a_spec(data@),
{
    let mut hash: u64 = 0xcbf2_9ce4_8422_2325;
    let mut i: usize = 0;
    while i < data.len()
        invariant
            i <= data@.len(),
            hash == fnv1a_spec(data@.take(i as int)),
        decreases data.len() - i,
    {
        proof {
            assert(data@.take(i + 1).drop_last() =~= data@.take(i as int));
        }
        hash = (hash ^ data[i] as u64).wrapping_mul(0x0000_0100_0000_01b3);
        i += 1;
    }
    proof {
        assert(data@.take(data@.len() as int) =~= data@);
    }
    hash
}

// ---------------------------------------------------------------------------------------
// Hexadecimal
// ---------------------------------------------------------------------------------------

/// The lowercase hex digit for a value below 16.
pub open spec fn hex_char(v: u64) -> char {
    if v < 10 {
        ((48 + v) as u8) as char
    } else {
        ((87 + v) as u8) as char
    }
}

/// `h` as exactly 16 lowercase hex digits (`{:016x}`).
pub open spec fn hex16(h: u64) -> Seq<char> {
    Seq::new(16, |k: int| hex_char((h >> ((60 - 4 * k) as u64)) & 15))
}

fn hex_char_exec(v: u64) -> (c: char)
    requires
        v < 16,
    ensures
        c == hex_char(v),
{
    if v < 10 {
        ((48 + v) as u8) as char
    } else {
        ((87 + v) as u8) as char
    }
}

pub(crate) fn push_hex16(s: &mut String, h: u64)
    ensures
        final(s)@ == old(s)@ + hex16(h),
{
    let ghost start = s@;
    let mut k: u64 = 0;
    while k < 16
        invariant
            k <= 16,
            s@ == start + hex16(h).take(k as int),
        decreases 16 - k,
    {
        let sh: u64 = 60 - 4 * k;
        let v = (h >> sh) & 15;
        assert(v < 16) by (bit_vector)
            requires
                v == (h >> sh) & 15,
        ;
        let ghost before = s@;
        string_push(s, hex_char_exec(v));
        proof {
            assert(hex16(h).take(k + 1) =~= hex16(h).take(k as int).push(hex16(h)[k as int]));
        }
        k += 1;
    }
    proof {
        assert(hex16(h).take(16) =~= hex16(h));
    }
}

/// The value of a hex digit, if `c` is one (either case).
pub open spec fn hex_digit(c: char) -> Option<int> {
    if '0' <= c && c <= '9' {
        Some(c as int - 48)
    } else if 'a' <= c && c <= 'f' {
        Some(c as int - 87)
    } else if 'A' <= c && c <= 'F' {
        Some(c as int - 55)
    } else {
        None
    }
}

/// The value of a string of hex digits, or `None` when some character is not one.
pub open spec fn hex_value(s: Seq<char>) -> Option<int>
    decreases s.len(),
{
    if s.len() == 0 {
        Some(0)
    } else {
        match (hex_value(s.drop_last()), hex_digit(s.last())) {
            (Some(v), Some(d)) => Some(v * 16 + d),
            _ => None,
        }
    }
}

/// What `u64::from_str_radix(s, 16)` accepts: an optional `+`, then one or more hex digits
/// whose value fits a `u64`.
pub open spec fn parse_hex_spec(s: Seq<char>) -> Option<u64> {
    let body = if s.len() > 0 && s[0] == '+' {
        s.drop_first()
    } else {
        s
    };
    if body.len() == 0 {
        None
    } else {
        match hex_value(body) {
            Some(v) => if v <= u64::MAX {
                Some(v as u64)
            } else {
                None
            },
            None => None,
        }
    }
}

proof fn lemma_hex_value_nonneg(s: Seq<char>)
    ensures
        hex_value(s) matches Some(v) ==> v >= 0,
    decreases s.len(),
{
    if s.len() > 0 {
        lemma_hex_value_nonneg(s.drop_last());
    }
}

proof fn lemma_hex_value_grows(s: Seq<char>, n: int)
    requires
        0 <= n <= s.len(),
        hex_value(s) is Some,
    ensures
        hex_value(s.take(n)) is Some,
        hex_value(s.take(n)).unwrap() <= hex_value(s).unwrap(),
    decreases s.len() - n,
{
    if n < s.len() {
        let t = s.take(n + 1);
        lemma_hex_value_grows(s, n + 1);
        assert(t.drop_last() =~= s.take(n));
        lemma_hex_value_nonneg(s.take(n));
    } else {
        assert(s.take(n) =~= s);
    }
}

fn hex_digit_exec(c: char) -> (r: Option<u64>)
    ensures
        match hex_digit(c) {
            None => r is None,
            Some(d) => r == Some(d as u64),
        },
{
    if '0' <= c && c <= '9' {
        Some((c as u64) - 48)
    } else if 'a' <= c && c <= 'f' {
        Some((c as u64) - 87)
    } else if 'A' <= c && c <= 'F' {
        Some((c as u64) - 55)
    } else {
        None
    }
}

/// `u64::from_str_radix(s, 16)` (see `parse_hex_spec`).
pub fn parse_hex_u64(s: &str) -> (r: Option<u64>)
    ensures
        r == parse_hex_spec(s@),
{
    let cs = chars_of(s);
    let start: usize = if cs.len() > 0 && cs[0] == '+' { 1 } else { 0 };
    let ghost body = if s@.len() > 0 && s@[0] == '+' { s@.drop_first() } else { s@ };
    proof {
        assert(body =~= cs@.subrange(start as int, cs@.len() as int));
    }
    if start >= cs.len() {
        return None;
    }
    let mut v: u64 = 0;
    let mut i = start;
    while i < cs.len()
        invariant
            cs@ == s@,
            start <= i <= cs@.len(),
            start < cs@.len(),
            body == cs@.subrange(start as int, cs@.len() as int),
            body == (if s@.len() > 0 && s@[0] == '+' { s@.drop_first() } else { s@ }),
            hex_value(body.take(i - start)) == Some(v as int),
        decreases cs.len() - i,
    {
        let ghost pre = body.take(i - start);
        proof {
            assert(body.take(i - start + 1).drop_last() =~= pre);
            assert(body.take(i - start + 1).last() == cs@[i as int]);
        }
        let d = match hex_digit_exec(cs[i]) {
            None => {
                proof {
                    assert(hex_value(body.take(i - start + 1)) is None);
                    if hex_value(body) is Some {
                        lemma_hex_value_grows(body, i - start + 1);
                    }
                }
                return None;
            },
            Some(d) => d,
        };
        if v > (u64::MAX - d) / 16 {
            proof {
                let nv = v * 16 + d;
                assert(nv > u64::MAX) by (nonlinear_arith)
                    requires
                        v > (u64::MAX - d) / 16,
                        d < 16,
                        nv == v * 16 + d,
                ;
                assert(hex_value(body.take(i - start + 1)) == Some(nv));
                if hex_value(body) is Some {
                    lemma_hex_value_grows(body, i - start + 1);
                }
            }
            return None;
        }
        assert(v * 16 + d <= u64::MAX) by (nonlinear_arith)
            requires
                v <= (u64::MAX - d) / 16,
                d < 16,
        ;
        v = v * 16 + d;
        i += 1;
    }
    proof {
        assert(body.take(body.len() as int) =~= body);
    }
    Some(v)
}

// ---------------------------------------------------------------------------------------
// The manifest
// ---------------------------------------------------------------------------------------

/// One extracted texture: its archive and `data/` group, its path inside the archive, where
/// its PNG was written (relative to the output directory), and the PNG's hash.
#[derive(Debug, Clone)]
pub struct ManifestEntry {
    pub archive: String,
    pub group: String,
    pub entry_path: String,
    pub png_rel: String,
    pub hash: u64,
}

/// A manifest entry as values.
pub struct ManifestSpec {
    pub archive: Seq<char>,
    pub group: Seq<char>,
    pub entry_path: Seq<char>,
    pub png_rel: Seq<char>,
    pub hash: u64,
}

/// An entry's values.
pub open spec fn manifest_view(e: ManifestEntry) -> ManifestSpec {
    ManifestSpec { archive: e.archive@, group: e.group@, entry_path: e.entry_path@, png_rel: e.png_rel@, hash: e.hash }
}

/// The values of a list of entries.
pub open spec fn manifest_views(v: Seq<ManifestEntry>) -> Seq<ManifestSpec> {
    v.map_values(|e: ManifestEntry| manifest_view(e))
}

/// An entry's manifest line: the five fields tab-separated, the hash as 16 hex digits, then a
/// newline.
pub open spec fn manifest_line_text(e: ManifestSpec) -> Seq<char> {
    e.archive + seq!['\t'] + e.group + seq!['\t'] + e.entry_path + seq!['\t'] + e.png_rel + seq!['\t']
        + hex16(e.hash) + seq!['\n']
}

/// The manifest line recording `e`.
pub fn manifest_line(e: &ManifestEntry) -> (s: String)
    ensures
        s@ == manifest_line_text(manifest_view(*e)),
{
    let mut s = String::from_str(e.archive.as_str());
    string_push(&mut s, '\t');
    s.append(e.group.as_str());
    string_push(&mut s, '\t');
    s.append(e.entry_path.as_str());
    string_push(&mut s, '\t');
    s.append(e.png_rel.as_str());
    string_push(&mut s, '\t');
    push_hex16(&mut s, e.hash);
    string_push(&mut s, '\n');
    s
}

/// The lines of `t` as `str::lines` gives them so far: the lines ended by a `\n` (a `\r`
/// before it dropped), and the text after the last `\n`.
pub open spec fn line_state(t: Seq<char>) -> (Seq<Seq<char>>, Seq<char>)
    decreases t.len(),
{
    if t.len() == 0 {
        (Seq::empty(), Seq::empty())
    } else {
        let (done, cur) = line_state(t.drop_last());
        if t.last() == '\n' {
            (done.push(strip_cr(cur)), Seq::empty())
        } else {
            (done, cur.push(t.last()))
        }
    }
}

/// `s` without one trailing `\r`.
pub open spec fn strip_cr(s: Seq<char>) -> Seq<char> {
    if s.len() > 0 && s.last() == '\r' {
        s.drop_last()
    } else {
        s
    }
}

/// The lines of `t` (`str::lines`): split at `\n` or `\r\n`; a final line without a line
/// ending counts when not empty.
pub open spec fn lines_of(t: Seq<char>) -> Seq<Seq<char>> {
    let (done, cur) = line_state(t);
    if cur.len() > 0 {
        done.push(cur)
    } else {
        done
    }
}

/// A character with the Unicode White_Space property, as `char::is_whitespace` documents it:
/// U+0009 to U+000D, U+0020, U+0085, U+00A0, U+1680, U+2000 to U+200A, U+2028, U+2029,
/// U+202F, U+205F and U+3000.
pub open spec fn whitespace(c: char) -> bool {
    let n = c as u32;
    (0x09 <= n <= 0x0d) || n == 0x20 || n == 0x85 || n == 0xa0 || n == 0x1680 || (0x2000 <= n <= 0x200a)
        || n == 0x2028 || n == 0x2029 || n == 0x202f || n == 0x205f || n == 0x3000
}

/// Whether `c` is white space (see `whitespace`).
pub(crate) fn is_whitespace(c: char) -> (b: bool)
    ensures
        b == whitespace(c),
{
    let n = c as u32;
    (0x09 <= n && n <= 0x0d) || n == 0x20 || n == 0x85 || n == 0xa0 || n == 0x1680 || (0x2000 <= n && n
        <= 0x200a) || n == 0x2028 || n == 0x2029 || n == 0x202f || n == 0x205f || n == 0x3000
}

/// A line holding only whitespace (`line.trim().is_empty()`).
pub open spec fn blank(s: Seq<char>) -> bool {
    forall|k: int| 0 <= k < s.len() ==> whitespace(#[trigger] s[k])
}

/// Why a manifest was refused, with the 1-based number of the line at fault.
#[derive(Debug, Clone, Copy, PartialEq, Eq, Structural)]
pub enum ManifestError {
    /// Not five tab-separated fields.
    Malformed(usize),
    /// The hash field is not hexadecimal, or does not fit 64 bits.
    BadHash(usize),
}

/// The entry a (non-blank) line records: five tab-separated fields, the last one hex.
pub open spec fn parse_line_spec(line: Seq<char>, line_no: int) -> Result<ManifestSpec, ManifestError> {
    let parts = split_char(line, '\t');
    if parts.len() != 5 {
        Err(ManifestError::Malformed(line_no as usize))
    } else {
        match parse_hex_spec(parts[4]) {
            None => Err(ManifestError::BadHash(line_no as usize)),
            Some(h) => Ok(ManifestSpec { archive: parts[0], group: parts[1], entry_path: parts[2], png_rel: parts[3], hash: h }),
        }
    }
}

/// The entries of the first `n` lines, skipping blank ones; the first bad line's error.
pub open spec fn parse_lines_upto(lines: Seq<Seq<char>>, n: int) -> Result<Seq<ManifestSpec>, ManifestError>
    decreases n,
{
    if n <= 0 {
        Ok(Seq::empty())
    } else {
        match parse_lines_upto(lines, n - 1) {
            Err(e) => Err(e),
            Ok(es) => if blank(lines[n - 1]) {
                Ok(es)
            } else {
                match parse_line_spec(lines[n - 1], n) {
                    Err(e) => Err(e),
                    Ok(e) => Ok(es.push(e)),
                }
            },
        }
    }
}

/// The entries a manifest's text records.
pub open spec fn parse_manifest_spec(t: Seq<char>) -> Result<Seq<ManifestSpec>, ManifestError> {
    parse_lines_upto(lines_of(t), lines_of(t).len() as int)
}

/// The lines of `text` (see `lines_of`).
pub fn split_lines(text: &str) -> (v: Vec<String>)
    ensures
        string_views(v@) == lines_of(text@),
{
    let cs = chars_of(text);
    let mut done: Vec<String> = Vec::new();
    let mut cur: Vec<char> = Vec::new();
    let mut i: usize = 0;
    while i < cs.len()
        invariant
            cs@ == text@,
            i <= cs@.len(),
            string_views(done@) == line_state(cs@.take(i as int)).0,
            cur@ == line_state(cs@.take(i as int)).1,
        decreases cs.len() - i,
    {
        let ghost st = line_state(cs@.take(i as int));
        proof {
            assert(cs@.take(i + 1).drop_last() =~= cs@.take(i as int));
            assert(cs@.take(i + 1).last() == cs@[i as int]);
        }
        if cs[i] == '\n' {
            let end = if cur.len() > 0 && cur[cur.len() - 1] == '\r' { cur.len() - 1 } else { cur.len() };
            let line = string_from_chars(cur.as_slice(), 0, end);
            let ghost before = string_views(done@);
            proof {
                assert(cur@.subrange(0, end as int) =~= strip_cr(cur@));
            }
            done.push(line);
            cur = Vec::new();
            proof {
                assert(string_views(done@) =~= before.push(line@));
            }
        } else {
            cur.push(cs[i]);
        }
        i += 1;
    }
    proof {
        assert(cs@.take(cs@.len() as int) =~= cs@);
    }
    if cur.len() > 0 {
        let line = string_from_chars(cur.as_slice(), 0, cur.len());
        let ghost before = string_views(done@);
        proof {
            assert(cur@.subrange(0, cur@.len() as int) =~= cur@);
        }
        done.push(line);
        proof {
            assert(string_views(done@) =~= before.push(line@));
        }
    }
    done
}

fn is_blank(s: &str) -> (b: bool)
    ensures
        b == blank(s@),
{
    let cs = chars_of(s);
    let mut i: usize = 0;
    while i < cs.len()
        invariant
            cs@ == s@,
            i <= cs@.len(),
            forall|k: int| 0 <= k < i ==> whitespace(#[trigger] cs@[k]),
        decreases cs.len() - i,
    {
        if !is_whitespace(cs[i]) {
            return false;
        }
        i += 1;
    }
    true
}

/// The entries a manifest's text records, in order (see `parse_manifest_spec`).
pub fn parse_manifest(text: &str) -> (r: Result<Vec<ManifestEntry>, ManifestError>)
    ensures
        match parse_manifest_spec(text@) {
            Err(e) => r == Err::<Vec<ManifestEntry>, ManifestError>(e),
            Ok(es) => r matches Ok(v) && manifest_views(v@) == es,
        },
{
    let lines = split_lines(text);
    let ghost lv = string_views(lines@);
    let mut out: Vec<ManifestEntry> = Vec::new();
    proof {
        assert(manifest_views(out@) =~= Seq::<ManifestSpec>::empty());
    }
    let mut i: usize = 0;
    while i < lines.len()
        invariant
            i <= lines@.len(),
            lv == string_views(lines@),
            lv == lines_of(text@),
            parse_lines_upto(lv, i as int) == Ok::<Seq<ManifestSpec>, ManifestError>(manifest_views(out@)),
        decreases lines.len() - i,
    {
        assert(lv[i as int] == lines@[i as int]@);
        if is_blank(lines[i].as_str()) {
            i += 1;
            continue;
        }
        let parts = split_at_char(lines[i].as_str(), '\t');
        if parts.len() != 5 {
            proof {
                assert(parse_lines_upto(lv, i + 1) == Err::<Seq<ManifestSpec>, ManifestError>(ManifestError::Malformed((i + 1) as usize)));
                lemma_parse_err_stays(lv, i + 1, lv.len() as int);
            }
            return Err(ManifestError::Malformed(i + 1));
        }
        assert(string_views(parts@)[4] == parts@[4]@);
        let hash = match parse_hex_u64(parts[4].as_str()) {
            None => {
                proof {
                    assert(parse_lines_upto(lv, i + 1) == Err::<Seq<ManifestSpec>, ManifestError>(ManifestError::BadHash((i + 1) as usize)));
                    lemma_parse_err_stays(lv, i + 1, lv.len() as int);
                }
                return Err(ManifestError::BadHash(i + 1));
            },
            Some(h) => h,
        };
        let e = ManifestEntry {
            archive: parts[0].clone(),
            group: parts[1].clone(),
            entry_path: parts[2].clone(),
            png_rel: parts[3].clone(),
            hash,
        };
        let ghost before = manifest_views(out@);
        out.push(e);
        proof {
            assert(string_views(parts@)[0] == parts@[0]@);
            assert(string_views(parts@)[1] == parts@[1]@);
            assert(string_views(parts@)[2] == parts@[2]@);
            assert(string_views(parts@)[3] == parts@[3]@);
            assert(manifest_views(out@) =~= before.push(manifest_view(e)));
        }
        i += 1;
    }
    Ok(out)
}

proof fn lemma_parse_err_stays(lines: Seq<Seq<char>>, n: int, m: int)
    requires
        n <= m,
        parse_lines_upto(lines, n) is Err,
    ensures
        parse_lines_upto(lines, m) == parse_lines_upto(lines, n),
    decreases m - n,
{
    if n < m {
        lemma_parse_err_stays(lines, n, m - 1);
    }
}

// ---------------------------------------------------------------------------------------
// Path pieces (std's `Path`, on text)
// ---------------------------------------------------------------------------------------

/// What `Path::file_name` gives for a path, under the path rules of the platform the library
/// is built for.
pub uninterp spec fn file_name_of(p: Seq<char>) -> Option<Seq<char>>;

/// What `Path::parent` gives for a path, under the path rules of the platform the library is
/// built for.
pub uninterp spec fn parent_of(p: Seq<char>) -> Option<Seq<char>>;

/// `Path::new(p).file_name()`, as text. Claimed: depends on the path alone.
#[verifier::external_body]
pub(crate) fn path_file_name(p: &str) -> (r: Option<String>)
    ensures
        r is None ==> file_name_of(p@) is None,
        r matches Some(s) ==> file_name_of(p@) == Some(s@),
{
    std::path::Path::new(p).file_name().and_then(|s| s.to_str()).map(|s| s.to_string())
}

/// `Path::new(p).parent()`, as text. Claimed: depends on the path alone.
#[verifier::external_body]
fn path_parent(p: &str) -> (r: Option<String>)
    ensures
        r is None ==> parent_of(p@) is None,
        r matches Some(s) ==> parent_of(p@) == Some(s@),
{
    std::path::Path::new(p).parent().and_then(|s| s.to_str()).map(|s| s.to_string())
}

/// `s` with every `\` turned into `/`.
pub open spec fn slashes(s: Seq<char>) -> Seq<char> {
    s.map_values(|c: char| if c == '\\' { '/' } else { c })
}

fn to_slashes(s: &str) -> (t: String)
    ensures
        t@ == slashes(s@),
{
    let cs = chars_of(s);
    let mut v: Vec<char> = Vec::new();
    let mut i: usize = 0;
    while i < cs.len()
        invariant
            cs@ == s@,
            i <= cs@.len(),
            v@ == slashes(cs@.take(i as int)),
        decreases cs.len() - i,
    {
        let c = cs[i];
        v.push(if c == '\\' { '/' } else { c });
        proof {
            assert(slashes(cs@.take(i + 1)) =~= slashes(cs@.take(i as int)).push(if c == '\\' { '/' } else { c }));
        }
        i += 1;
    }
    proof {
        assert(cs@.take(cs@.len() as int) =~= cs@);
    }
    string_from_chars(v.as_slice(), 0, v.len())
}

/// The stem of an archive's path, `archive` when it has none.
pub open spec fn archive_stem_of(p: Seq<char>) -> Seq<char> {
    match file_stem_of(p) {
        Some(s) => s,
        None => "archive"@,
    }
}

/// An entry's file name (the whole path when it has none).
pub open spec fn entry_name_of(p: Seq<char>) -> Seq<char> {
    match file_name_of(p) {
        Some(s) => s,
        None => p,
    }
}

/// An entry's folder: its parent with `/` separators and no leading `/`.
pub open spec fn entry_folder_of(p: Seq<char>) -> Seq<char> {
    trim_slashes(
        match parent_of(p) {
            Some(s) => slashes(s),
            None => Seq::empty(),
        },
    )
}

/// The stem of an archive's path (see `archive_stem_of`).
pub fn archive_stem(p: &str) -> (s: String)
    ensures
        s@ == archive_stem_of(p@),
{
    match path_file_stem(p) {
        Some(s) => s,
        None => String::from_str("archive"),
    }
}

fn entry_name(p: &String) -> (s: String)
    ensures
        s@ == entry_name_of(p@),
{
    match path_file_name(p.as_str()) {
        Some(s) => s,
        None => p.clone(),
    }
}

fn entry_folder(p: &String) -> (s: String)
    ensures
        s@ == entry_folder_of(p@),
{
    let f = match path_parent(p.as_str()) {
        Some(s) => to_slashes(s.as_str()),
        None => String::new(),
    };
    trim_leading_slashes(&f)
}

// ---------------------------------------------------------------------------------------
// The library
// ---------------------------------------------------------------------------------------

/// One texture of the library, as the UI shows it.
#[derive(Debug, Clone)]
pub struct LibraryEntry {
    pub group: String,
    pub archive_path: String,
    pub archive_stem: String,
    pub entry_path: String,
    pub png_rel: String,
    pub name: String,
    pub folder: String,
}

/// A library entry as values.
pub struct LibrarySpec {
    pub group: Seq<char>,
    pub archive_path: Seq<char>,
    pub archive_stem: Seq<char>,
    pub entry_path: Seq<char>,
    pub png_rel: Seq<char>,
    pub name: Seq<char>,
    pub folder: Seq<char>,
}

/// A library entry's values.
pub open spec fn library_view(e: LibraryEntry) -> LibrarySpec {
    LibrarySpec {
        group: e.group@,
        archive_path: e.archive_path@,
        archive_stem: e.archive_stem@,
        entry_path: e.entry_path@,
        png_rel: e.png_rel@,
        name: e.name@,
        folder: e.folder@,
    }
}

/// The library entry a manifest entry becomes.
pub open spec fn library_entry_of(m: ManifestSpec) -> LibrarySpec {
    LibrarySpec {
        group: m.group,
        archive_path: slashes(m.archive),
        archive_stem: archive_stem_of(m.archive),
        entry_path: m.entry_path,
        png_rel: m.png_rel,
        name: entry_name_of(m.entry_path),
        folder: entry_folder_of(m.entry_path),
    }
}

/// Every texture a manifest's text records, reshaped for the UI (see `library_entry_of`);
/// fails as `parse_manifest` does.
pub fn list_library(manifest_text: &str) -> (r: Result<Vec<LibraryEntry>, ManifestError>)
    ensures
        match parse_manifest_spec(manifest_text@) {
            Err(e) => r == Err::<Vec<LibraryEntry>, ManifestError>(e),
            Ok(es) => r matches Ok(v) && v@.map_values(|e: LibraryEntry| library_view(e)) == es.map_values(
                |m: ManifestSpec| library_entry_of(m),
            ),
        },
{
    let entries = parse_manifest(manifest_text)?;
    let ghost ev = manifest_views(entries@);
    let mut out: Vec<LibraryEntry> = Vec::new();
    let mut i: usize = 0;
    while i < entries.len()
        invariant
            i <= entries@.len(),
            ev == manifest_views(entries@),
            out@.map_values(|e: LibraryEntry| library_view(e)) == ev.take(i as int).map_values(
                |m: ManifestSpec| library_entry_of(m),
            ),
        decreases entries.len() - i,
    {
        let e = &entries[i];
        let le = LibraryEntry {
            group: e.group.clone(),
            archive_path: to_slashes(e.archive.as_str()),
            archive_stem: archive_stem(e.archive.as_str()),
            entry_path: e.entry_path.clone(),
            png_rel: e.png_rel.clone(),
            name: entry_name(&e.entry_path),
            folder: entry_folder(&e.entry_path),
        };
        let ghost before = out@.map_values(|e: LibraryEntry| library_view(e));
        out.push(le);
        proof {
            assert(ev[i as int] == manifest_view(entries@[i as int]));
            assert(library_view(le) == library_entry_of(ev[i as int]));
            assert(out@.map_values(|e: LibraryEntry| library_view(e)) =~= before.push(library_view(le)));
            assert(ev.take(i + 1).map_values(|m: ManifestSpec| library_entry_of(m)) =~= ev.take(i as int).map_values(
                |m: ManifestSpec| library_entry_of(m),
            ).push(library_entry_of(ev[i as int])));
        }
        i += 1;
    }
    proof {
        assert(ev.take(ev.len() as int) =~= ev);
    }
    Ok(out)
}

// ---------------------------------------------------------------------------------------
// Asset listings
// ---------------------------------------------------------------------------------------

/// One mesh, actor or motion entry of an archive.
#[derive(Debug, Clone)]
pub struct ArchiveAssetEntry {
    pub group: String,
    pub archive_path: String,
    pub archive_stem: String,
    pub entry_path: String,
    pub name: String,
    pub folder: String,
}

/// An archive as read for listing: where it was found, and its entries.
pub struct ArchiveListing {
    pub archive: DiscoveredArchive,
    pub entries: Vec<FileEntry>,
}

/// An asset entry's values: group, archive path, archive stem, entry path, name, folder.
pub open spec fn asset_view(e: ArchiveAssetEntry) -> (Seq<char>, Seq<char>, Seq<char>, Seq<char>, Seq<char>, Seq<char>) {
    (e.group@, e.archive_path@, e.archive_stem@, e.entry_path@, e.name@, e.folder@)
}

/// `s` ends with `suffix`.
pub open spec fn ends_with(s: Seq<char>, suffix: Seq<char>) -> bool {
    suffix.len() <= s.len() && s.subrange(s.len() - suffix.len(), s.len() as int) == suffix
}

/// Whether an entry is listed under `ext`: not deleted, and its path in ASCII lowercase ends
/// with `ext`.
pub open spec fn listed_entry(path: Seq<char>, attrs: u32, ext: Seq<char>) -> bool {
    attrs & DELETED_ATTR == 0 && ends_with(lower_text(path), ext)
}

/// The asset entries of the first `n` entries of one archive.
pub open spec fn assets_of_archive(a: (Seq<char>, Seq<char>), entries: Seq<FileEntry>, ext: Seq<char>, n: int) -> Seq<
    (Seq<char>, Seq<char>, Seq<char>, Seq<char>, Seq<char>, Seq<char>),
>
    decreases n,
{
    if n <= 0 {
        Seq::empty()
    } else {
        let prev = assets_of_archive(a, entries, ext, n - 1);
        let e = entries[n - 1];
        if listed_entry(e.path@, e.file_attributes, ext) {
            prev.push((a.1, slashes(a.0), archive_stem_of(a.0), e.path@, entry_name_of(e.path@), entry_folder_of(e.path@)))
        } else {
            prev
        }
    }
}

/// The asset entries of the first `n` archives.
pub open spec fn assets_upto(archives: Seq<ArchiveListing>, ext: Seq<char>, n: int) -> Seq<
    (Seq<char>, Seq<char>, Seq<char>, Seq<char>, Seq<char>, Seq<char>),
>
    decreases n,
{
    if n <= 0 {
        Seq::empty()
    } else {
        let l = archives[n - 1];
        assets_upto(archives, ext, n - 1) + assets_of_archive(
            (l.archive.path@, l.archive.group@),
            l.entries@,
            ext,
            l.entries@.len() as int,
        )
    }
}

pub(crate) fn ends_with_text(s: &Vec<char>, suffix: &str) -> (b: bool)
    ensures
        b == ends_with(s@, suffix@),
{
    let t = chars_of(suffix);
    if t.len() > s.len() {
        return false;
    }
    let sl = s.len();
    let off = s.len() - t.len();
    let mut k: usize = 0;
    while k < t.len()
        invariant
            sl == s@.len(),
            t@ == suffix@,
            off + t@.len() == s@.len(),
            k <= t@.len(),
            forall|j: int| 0 <= j < k ==> s@[off + j] == t@[j],
        decreases t.len() - k,
    {
        if s[off + k] != t[k] {
            proof {
                assert(s@.subrange(off as int, s@.len() as int)[k as int] != t@[k as int]);
            }
            return false;
        }
        k += 1;
    }
    assert(s@.subrange(off as int, s@.len() as int) =~= t@);
    true
}

/// Every entry whose lowercased path ends with `extension`, archive by archive, in order.
pub fn list_by_extension(archives: &Vec<ArchiveListing>, extension: &str) -> (v: Vec<ArchiveAssetEntry>)
    ensures
        v@.map_values(|e: ArchiveAssetEntry| asset_view(e)) == assets_upto(archives@, extension@, archives@.len() as int),
{
    let mut out: Vec<ArchiveAssetEntry> = Vec::new();
    let mut i: usize = 0;
    while i < archives.len()
        invariant
            i <= archives@.len(),
            out@.map_values(|e: ArchiveAssetEntry| asset_view(e)) == assets_upto(archives@, extension@, i as int),
        decreases archives.len() - i,
    {
        let l = &archives[i];
        let stem = archive_stem(l.archive.path.as_str());
        let apath = to_slashes(l.archive.path.as_str());
        let ghost base = out@.map_values(|e: ArchiveAssetEntry| asset_view(e));
        let ghost a = (l.archive.path@, l.archive.group@);
        let mut j: usize = 0;
        while j < l.entries.len()
            invariant
                j <= l.entries@.len(),
                l == archives@[i as int],
                a == (l.archive.path@, l.archive.group@),
                stem@ == archive_stem_of(l.archive.path@),
                apath@ == slashes(l.archive.path@),
                out@.map_values(|e: ArchiveAssetEntry| asset_view(e)) == base + assets_of_archive(
                    a,
                    l.entries@,
                    extension@,
                    j as int,
                ),
            decreases l.entries.len() - j,
        {
            let e = &l.entries[j];
            let lower = ascii_lowercase_chars(e.path.as_str());
            if e.file_attributes & DELETED_ATTR == 0 && ends_with_text(&lower, extension) {
                let ae = ArchiveAssetEntry {
                    group: l.archive.group.clone(),
                    archive_path: apath.clone(),
                    archive_stem: stem.clone(),
                    entry_path: e.path.clone(),
                    name: entry_name(&e.path),
                    folder: entry_folder(&e.path),
                };
                let ghost before = out@.map_values(|e: ArchiveAssetEntry| asset_view(e));
                out.push(ae);
                proof {
                    assert(out@.map_values(|e: ArchiveAssetEntry| asset_view(e)) =~= before.push(asset_view(ae)));
                }
            }
            j += 1;
        }
        proof {
            assert(out@.map_values(|e: ArchiveAssetEntry| asset_view(e)) == assets_upto(archives@, extension@, i + 1));
        }
        i += 1;
    }
    out
}

/// Which archive the `k`-th asset listed from the first `n` archives comes from: the archive
/// whose listing covers position `k`.
pub open spec fn archive_of_asset(archives: Seq<ArchiveListing>, ext: Seq<char>, n: int, k: int) -> int
    decreases n,
{
    if n <= 0 {
        -1
    } else if k < assets_upto(archives, ext, n - 1).len() {
        archive_of_asset(archives, ext, n - 1, k)
    } else {
        n - 1
    }
}

proof fn lemma_assets_of_archive_fields(a: (Seq<char>, Seq<char>), entries: Seq<FileEntry>, ext: Seq<char>, n: int)
    ensures
        forall|k: int|
            0 <= k < assets_of_archive(a, entries, ext, n).len() ==> {
                let t = #[trigger] assets_of_archive(a, entries, ext, n)[k];
                t.0 == a.1 && t.1 == slashes(a.0) && t.2 == archive_stem_of(a.0)
            },
    decreases n,
{
    if n > 0 {
        lemma_assets_of_archive_fields(a, entries, ext, n - 1);
        let prev = assets_of_archive(a, entries, ext, n - 1);
        assert forall|k: int| 0 <= k < assets_of_archive(a, entries, ext, n).len() implies {
            let t = #[trigger] assets_of_archive(a, entries, ext, n)[k];
            t.0 == a.1 && t.1 == slashes(a.0) && t.2 == archive_stem_of(a.0)
        } by {
            if k < prev.len() {
                assert(assets_of_archive(a, entries, ext, n)[k] == prev[k]);
            }
        }
    }
}

/// Whether listed asset `t` carries the group, the path (with `/` separators) and the stem of
/// archive listing `l`.
pub open spec fn names_archive(t: (Seq<char>, Seq<char>, Seq<char>, Seq<char>, Seq<char>, Seq<char>), l: ArchiveListing) -> bool {
    t.0 == l.archive.group@ && t.1 == slashes(l.archive.path@) && t.2 == archive_stem_of(l.archive.path@)
}

/// Whether the `k`-th asset listed from the first `n` archives carries the group, path and
/// stem of the archive whose listing holds it.
pub open spec fn from_its_archive(archives: Seq<ArchiveListing>, ext: Seq<char>, n: int, k: int) -> bool {
    let i = archive_of_asset(archives, ext, n, k);
    0 <= i < n && names_archive(assets_upto(archives, ext, n)[k], archives[i])
}

/// Where each listed asset comes from: every asset of a listing carries the group, the path
/// (with `/` separators) and the stem of the archive whose listing holds it.
pub proof fn lemma_listed_assets_name_their_archive(archives: Seq<ArchiveListing>, ext: Seq<char>, n: int)
    requires
        0 <= n <= archives.len(),
    ensures
        forall|k: int| 0 <= k < assets_upto(archives, ext, n).len() ==> #[trigger] from_its_archive(archives, ext, n, k),
    decreases n,
{
    if n > 0 {
        lemma_listed_assets_name_their_archive(archives, ext, n - 1);
        let prev = assets_upto(archives, ext, n - 1);
        let l = archives[n - 1];
        let a = (l.archive.path@, l.archive.group@);
        let es = l.entries@;
        let mine = assets_of_archive(a, es, ext, es.len() as int);
        lemma_assets_of_archive_fields(a, es, ext, es.len() as int);
        assert(assets_upto(archives, ext, n) == prev + mine);
        assert forall|k: int| 0 <= k < assets_upto(archives, ext, n).len() implies #[trigger] from_its_archive(
            archives,
            ext,
            n,
            k,
        ) by {
            if k < prev.len() {
                assert(assets_upto(archives, ext, n)[k] == prev[k]);
                assert(from_its_archive(archives, ext, n - 1, k));
                assert(archive_of_asset(archives, ext, n, k) == archive_of_asset(archives, ext, n - 1, k));
            } else {
                assert(assets_upto(archives, ext, n)[k] == mine[k - prev.len()]);
                assert(archive_of_asset(archives, ext, n, k) == n - 1);
            }
        }
    } else {
        assert(assets_upto(archives, ext, n) =~= Seq::empty());
    }
}

/// Every `._xmsh` mesh entry of the archives.
pub fn list_meshes(archives: &Vec<ArchiveListing>) -> (v: Vec<ArchiveAssetEntry>)
    ensures
        v@.map_values(|e: ArchiveAssetEntry| asset_view(e)) == assets_upto(archives@, "._xmsh"@, archives@.len() as int),
{
    list_by_extension(archives, "._xmsh")
}

/// Every `._xmac` actor entry of the archives.
pub fn list_actors(archives: &Vec<ArchiveListing>) -> (v: Vec<ArchiveAssetEntry>)
    ensures
        v@.map_values(|e: ArchiveAssetEntry| asset_view(e)) == assets_upto(archives@, "._xmac"@, archives@.len() as int),
{
    list_by_extension(archives, "._xmac")
}

/// Every `._xmot` motion entry of the archives.
pub fn list_motions(archives: &Vec<ArchiveListing>) -> (v: Vec<ArchiveAssetEntry>)
    ensures
        v@.map_values(|e: ArchiveAssetEntry| asset_view(e)) == assets_upto(archives@, "._xmot"@, archives@.len() as int),
{
    list_by_extension(archives, "._xmot")
}

// ---------------------------------------------------------------------------------------
// Text helpers
// ---------------------------------------------------------------------------------------

/// The first position at or after `i` where `needle` occurs in `hay`.
pub open spec fn find_text_from(hay: Seq<char>, needle: Seq<char>, i: int) -> Option<int>
    decreases hay.len() - i,
{
    if i < 0 || i + needle.len() > hay.len() || i >= hay.len() {
        None
    } else if hay.subrange(i, i + needle.len()) == needle {
        Some(i)
    } else {
        find_text_from(hay, needle, i + 1)
    }
}

/// `hay` with the first occurrence of `from` replaced by `to` (unchanged when none).
pub open spec fn replace_first(hay: Seq<char>, from: Seq<char>, to: Seq<char>) -> Seq<char> {
    match find_text_from(hay, from, 0) {
        None => hay,
        Some(i) => hay.subrange(0, i) + to + hay.subrange(i + from.len(), hay.len() as int),
    }
}

proof fn lemma_find_text_found(hay: Seq<char>, needle: Seq<char>, i: int, k: int)
    requires
        find_text_from(hay, needle, i) == Some(k),
    ensures
        i <= k,
        k + needle.len() <= hay.len(),
        hay.subrange(k, k + needle.len()) == needle,
    decreases hay.len() - i,
{
    if !(i < 0 || i + needle.len() > hay.len() || i >= hay.len()) && hay.subrange(i, i + needle.len()) != needle {
        lemma_find_text_found(hay, needle, i + 1, k);
    }
}

fn find_text(hay: &Vec<char>, needle: &Vec<char>) -> (r: Option<usize>)
    ensures
        r is None ==> find_text_from(hay@, needle@, 0) is None,
        r matches Some(k) ==> find_text_from(hay@, needle@, 0) == Some(k as int),
{
    let hl = hay.len();
    let nl = needle.len();
    if nl > hl {
        return None;
    }
    let mut i: usize = 0;
    while i <= hl - nl && i < hl
        invariant
            hl == hay@.len(),
            nl == needle@.len(),
            nl <= hl,
            i <= hl - nl + 1,
            find_text_from(hay@, needle@, 0) == find_text_from(hay@, needle@, i as int),
        decreases hl - nl + 1 - i,
    {
        let mut k: usize = 0;
        let mut same = true;
        while k < nl
            invariant
                k <= nl,
                hl == hay@.len(),
                nl == needle@.len(),
                i + nl <= hl,
                same == forall|t: int| 0 <= t < k ==> hay@[i + t] == needle@[t],
            decreases nl - k,
        {
            if hay[i + k] != needle[k] {
                same = false;
            }
            k += 1;
        }
        if same {
            proof {
                assert(hay@.subrange(i as int, i + nl) =~= needle@);
            }
            return Some(i);
        }
        proof {
            let t = choose|t: int| 0 <= t < nl && hay@[i + t] != needle@[t];
            assert(hay@.subrange(i as int, i + nl)[t] != needle@[t]);
        }
        i += 1;
    }
    None
}

/// `hay` with the first `from` replaced by `to` (see `replace_first`).
fn replace_first_exec(hay: &str, from: &str, to: &str) -> (s: String)
    ensures
        s@ == replace_first(hay@, from@, to@),
{
    let h = chars_of(hay);
    let f = chars_of(from);
    match find_text(&h, &f) {
        None => String::from_str(hay),
        Some(i) => {
            proof {
                lemma_find_text_found(h@, f@, 0, i as int);
            }
            let hl = h.len();
            assert(i + f@.len() <= hl);
            let mut s = string_from_chars(h.as_slice(), 0, i);
            s.append(to);
            let tail = string_from_chars(h.as_slice(), i + f.len(), h.len());
            s.append(tail.as_str());
            s
        },
    }
}

/// `s` with `&`, `<` and `>` written as HTML entities.
pub open spec fn html_escaped(s: Seq<char>) -> Seq<char>
    decreases s.len(),
{
    if s.len() == 0 {
        Seq::empty()
    } else {
        let c = s.last();
        html_escaped(s.drop_last()) + if c == '&' {
            "&amp;"@
        } else if c == '<' {
            "&lt;"@
        } else if c == '>' {
            "&gt;"@
        } else {
            seq![c]
        }
    }
}

/// `s` with `&`, `<` and `>` escaped for HTML.
pub fn html_escape(s: &str) -> (t: String)
    ensures
        t@ == html_escaped(s@),
{
    let cs = chars_of(s);
    let mut out = String::new();
    let mut i: usize = 0;
    while i < cs.len()
        invariant
            cs@ == s@,
            i <= cs@.len(),
            out@ == html_escaped(cs@.take(i as int)),
        decreases cs.len() - i,
    {
        let c = cs[i];
        proof {
            assert(cs@.take(i + 1).drop_last() =~= cs@.take(i as int));
        }
        if c == '&' {
            out.append("&amp;");
        } else if c == '<' {
            out.append("&lt;");
        } else if c == '>' {
            out.append("&gt;");
        } else {
            string_push(&mut out, c);
        }
        i += 1;
    }
    proof {
        assert(cs@.take(cs@.len() as int) =~= cs@);
    }
    out
}

/// The index of the last `.` in `s`, if any.
pub open spec fn last_dot_index(s: Seq<char>, n: int) -> Option<int>
    decreases n,
{
    if n <= 0 {
        None
    } else if s[n - 1] == '.' {
        Some(n - 1)
    } else {
        last_dot_index(s, n - 1)
    }
}

/// A file name without its extension (from the last `.`), in ASCII lowercase.
pub open spec fn stem_lower(name: Seq<char>) -> Seq<char> {
    match last_dot_index(name, name.len() as int) {
        Some(i) => lower_text(name.subrange(0, i)),
        None => lower_text(name),
    }
}

/// `name` without its extension, in ASCII lowercase (see `stem_lower`).
pub fn strip_ext_lower(name: &str) -> (s: String)
    ensures
        s@ == stem_lower(name@),
{
    let cs = chars_of(name);
    let mut k = cs.len();
    while k > 0 && cs[k - 1] != '.'
        invariant
            k <= cs@.len(),
            cs@ == name@,
            last_dot_index(cs@, cs@.len() as int) == last_dot_index(cs@, k as int),
        decreases k,
    {
        k -= 1;
    }
    let end = if k > 0 { k - 1 } else { cs.len() };
    let base = string_from_chars(cs.as_slice(), 0, end);
    proof {
        if k == 0 {
            assert(cs@.subrange(0, end as int) =~= cs@);
        }
    }
    crate::text::ascii_lowercase(base.as_str())
}

/// The part of `s` after its last `/` or `\`.
pub open spec fn base_name(s: Seq<char>) -> Seq<char>
    decreases s.len(),
{
    if s.len() == 0 {
        s
    } else if s.last() == '/' || s.last() == '\\' {
        Seq::empty()
    } else {
        base_name(s.drop_last()).push(s.last())
    }
}

fn base_name_exec(s: &str) -> (t: String)
    ensures
        t@ == base_name(s@),
{
    let cs = chars_of(s);
    let mut k = cs.len();
    proof {
        assert(cs@.take(cs@.len() as int) =~= cs@);
        assert(cs@.subrange(cs@.len() as int, cs@.len() as int) =~= Seq::<char>::empty());
        assert(base_name(cs@) + Seq::<char>::empty() =~= base_name(cs@));
    }
    while k > 0 && cs[k - 1] != '/' && cs[k - 1] != '\\'
        invariant
            k <= cs@.len(),
            cs@ == s@,
            base_name(cs@) == base_name(cs@.take(k as int)) + cs@.subrange(k as int, cs@.len() as int),
        decreases k,
    {
        proof {
            let t = cs@.take(k as int);
            assert(t.drop_last() =~= cs@.take(k - 1));
            assert(cs@.subrange(k - 1, cs@.len() as int) =~= seq![cs@[k - 1]] + cs@.subrange(k as int, cs@.len() as int));
            assert(base_name(t) == base_name(t.drop_last()).push(t.last()));
            assert(base_name(t.drop_last()).push(t.last()) + cs@.subrange(k as int, cs@.len() as int) =~= base_name(
                cs@.take(k - 1),
            ) + cs@.subrange(k - 1, cs@.len() as int));
        }
        k -= 1;
    }
    proof {
        assert(base_name(cs@.take(k as int)) =~= Seq::<char>::empty());
        assert(Seq::<char>::empty() + cs@.subrange(k as int, cs@.len() as int) =~= cs@.subrange(k as int, cs@.len() as int));
    }
    string_from_chars(cs.as_slice(), k, cs.len())
}

/// A guessed normal-map name for a diffuse texture name: the first `_Diffuse_`, else
/// `_diffuse_`, else `Diffuse` replaced by its normal-map counterpart; `None` when the name
/// holds none of these.
pub open spec fn normal_guess(d: Seq<char>) -> Option<Seq<char>> {
    if crate::ai::has_text(d, "_Diffuse_"@) {
        Some(replace_first(d, "_Diffuse_"@, "_Normal_"@))
    } else if crate::ai::has_text(d, "_diffuse_"@) {
        Some(replace_first(d, "_diffuse_"@, "_normal_"@))
    } else if crate::ai::has_text(d, "Diffuse"@) {
        Some(replace_first(d, "Diffuse"@, "Normal"@))
    } else {
        None
    }
}

/// A normal-map name guessed from a diffuse one (see `normal_guess`).
pub fn guess_normal_from_diffuse_name(diffuse: &str) -> (r: Option<String>)
    ensures
        match normal_guess(diffuse@) {
            None => r is None,
            Some(n) => r matches Some(s) && s@ == n,
        },
{
    if crate::ai::text_contains(diffuse, "_Diffuse_") {
        return Some(replace_first_exec(diffuse, "_Diffuse_", "_Normal_"));
    }
    if crate::ai::text_contains(diffuse, "_diffuse_") {
        return Some(replace_first_exec(diffuse, "_diffuse_", "_normal_"));
    }
    if crate::ai::text_contains(diffuse, "Diffuse") {
        return Some(replace_first_exec(diffuse, "Diffuse", "Normal"));
    }
    None
}

// ---------------------------------------------------------------------------------------
// Regeneration engine
// ---------------------------------------------------------------------------------------

/// Which enhancement engine regeneration uses.
#[derive(Debug, Clone, Copy, PartialEq, Eq, Structural)]
pub enum RegenEngine {
    /// AI when an API key is configured and the texture is photo-like, otherwise Lanczos.
    Auto,
    /// Local Lanczos3 upscale only.
    Lanczos,
    /// AI, failing when no key is configured or the call fails.
    Ai,
}

impl Default for RegenEngine {
    fn default() -> (r: RegenEngine)
        ensures
            r == RegenEngine::Auto,
    {
        RegenEngine::Auto
    }
}

/// The engine a name selects (any case): `auto`, `lanczos` or `ai`.
pub open spec fn engine_of(s: Seq<char>) -> Option<RegenEngine> {
    let l = lowercase_of(s);
    if l == "auto"@ {
        Some(RegenEngine::Auto)
    } else if l == "lanczos"@ {
        Some(RegenEngine::Lanczos)
    } else if l == "ai"@ {
        Some(RegenEngine::Ai)
    } else {
        None
    }
}

impl RegenEngine {
    /// The engine a name selects; for an unknown name, the lowercased name back as the error.
    pub fn parse_name(s: &str) -> (r: Result<RegenEngine, String>)
        ensures
            match engine_of(s@) {
                Some(e) => r == Ok::<RegenEngine, String>(e),
                None => r matches Err(t) && t@ == lowercase_of(s@),
            },
    {
        let l = to_lowercase(s);
        if str_equal(l.as_str(), "auto") {
            Ok(RegenEngine::Auto)
        } else if str_equal(l.as_str(), "lanczos") {
            Ok(RegenEngine::Lanczos)
        } else if str_equal(l.as_str(), "ai") {
            Ok(RegenEngine::Ai)
        } else {
            Err(l)
        }
    }
}

impl std::str::FromStr for RegenEngine {
    type Err = String;

    fn from_str(s: &str) -> (r: Result<RegenEngine, String>)
        ensures
            match engine_of(s@) {
                Some(e) => r == Ok::<RegenEngine, String>(e),
                None => r matches Err(t) && t@ == lowercase_of(s@),
            },
    {
        RegenEngine::parse_name(s)
    }
}

// ---------------------------------------------------------------------------------------
// Trimming and prefixes
// ---------------------------------------------------------------------------------------

/// `s` without leading whitespace.
pub open spec fn trim_start_ws(s: Seq<char>) -> Seq<char>
    decreases s.len(),
{
    if s.len() > 0 && whitespace(s[0]) {
        trim_start_ws(s.drop_first())
    } else {
        s
    }
}

/// `s` without trailing whitespace.
pub open spec fn trim_end_ws(s: Seq<char>) -> Seq<char>
    decreases s.len(),
{
    if s.len() > 0 && whitespace(s.last()) {
        trim_end_ws(s.drop_last())
    } else {
        s
    }
}

/// `s` without leading and trailing whitespace (`str::trim`).
pub open spec fn trim_ws(s: Seq<char>) -> Seq<char> {
    trim_end_ws(trim_start_ws(s))
}

pub(crate) fn trim_text(s: &str) -> (t: String)
    ensures
        t@ == trim_ws(s@),
{
    let cs = chars_of(s);
    let mut a: usize = 0;
    proof {
        assert(cs@.subrange(0, cs@.len() as int) =~= cs@);
    }
    while a < cs.len() && is_whitespace(cs[a])
        invariant
            cs@ == s@,
            a <= cs@.len(),
            trim_start_ws(s@) == trim_start_ws(cs@.subrange(a as int, cs@.len() as int)),
        decreases cs.len() - a,
    {
        proof {
            assert(cs@.subrange(a as int, cs@.len() as int).drop_first() =~= cs@.subrange(a + 1, cs@.len() as int));
        }
        a += 1;
    }
    let ghost st = cs@.subrange(a as int, cs@.len() as int);
    proof {
        if a < cs@.len() {
            assert(st[0] == cs@[a as int]);
        }
        assert(trim_start_ws(st) == st);
    }
    let mut b = cs.len();
    proof {
        assert(cs@.subrange(a as int, b as int) =~= st);
    }
    while b > a && is_whitespace(cs[b - 1])
        invariant
            cs@ == s@,
            a <= b <= cs@.len(),
            st == cs@.subrange(a as int, cs@.len() as int),
            trim_end_ws(st) == trim_end_ws(cs@.subrange(a as int, b as int)),
        decreases b,
    {
        proof {
            assert(cs@.subrange(a as int, b as int).drop_last() =~= cs@.subrange(a as int, b - 1));
        }
        b -= 1;
    }
    proof {
        let r = cs@.subrange(a as int, b as int);
        if b > a {
            assert(r.last() == cs@[b - 1]);
        }
        assert(trim_end_ws(r) == r);
    }
    string_from_chars(cs.as_slice(), a, b)
}

/// `s` starts with `p`.
pub open spec fn starts_with(s: Seq<char>, p: Seq<char>) -> bool {
    p.len() <= s.len() && s.subrange(0, p.len() as int) == p
}

fn starts_with_text(s: &Vec<char>, p: &str) -> (b: bool)
    ensures
        b == starts_with(s@, p@),
{
    let t = chars_of(p);
    if t.len() > s.len() {
        return false;
    }
    let mut k: usize = 0;
    while k < t.len()
        invariant
            t@ == p@,
            t@.len() <= s@.len(),
            k <= t@.len(),
            forall|j: int| 0 <= j < k ==> s@[j] == t@[j],
        decreases t.len() - k,
    {
        if s[k] != t[k] {
            proof {
                assert(s@.subrange(0, t@.len() as int)[k as int] != t@[k as int]);
            }
            return false;
        }
        k += 1;
    }
    assert(s@.subrange(0, t@.len() as int) =~= t@);
    true
}

/// What follows a prefix of `n` characters, trimmed.
fn trimmed_rest(cs: &Vec<char>, n: usize) -> (t: String)
    requires
        n <= cs@.len(),
    ensures
        t@ == trim_ws(cs@.skip(n as int)),
{
    let rest = string_from_chars(cs.as_slice(), n, cs.len());
    proof {
        assert(rest@ =~= cs@.skip(n as int));
    }
    trim_text(rest.as_str())
}

// ---------------------------------------------------------------------------------------
// Materials
// ---------------------------------------------------------------------------------------

/// One `newmtl` block of a `.mtl` file: its name and the maps it declares.
pub struct MtlSpec {
    pub name: Seq<char>,
    pub map_kd: Option<Seq<char>>,
    pub map_bump: Option<Seq<char>>,
}

/// The material blocks of the first `n` lines: a trimmed `newmtl <name>` line opens one; a
/// `map_Kd <file>` or `map_bump <file>` line sets that map of the last one opened.
pub open spec fn mtl_upto(lines: Seq<Seq<char>>, n: int) -> Seq<MtlSpec>
    decreases n,
{
    if n <= 0 {
        Seq::empty()
    } else {
        let prev = mtl_upto(lines, n - 1);
        let line = trim_ws(lines[n - 1]);
        if starts_with(line, "newmtl "@) {
            prev.push(MtlSpec { name: trim_ws(line.skip(7)), map_kd: None, map_bump: None })
        } else if starts_with(line, "map_Kd "@) {
            if prev.len() > 0 {
                prev.update(prev.len() - 1, MtlSpec { map_kd: Some(trim_ws(line.skip(7))), ..prev.last() })
            } else {
                prev
            }
        } else if starts_with(line, "map_bump "@) {
            if prev.len() > 0 {
                prev.update(prev.len() - 1, MtlSpec { map_bump: Some(trim_ws(line.skip(9))), ..prev.last() })
            } else {
                prev
            }
        } else {
            prev
        }
    }
}

/// The material blocks of a `.mtl` text.
pub open spec fn mtl_materials(text: Seq<char>) -> Seq<MtlSpec> {
    mtl_upto(lines_of(text), lines_of(text).len() as int)
}

/// One parsed material block.
struct MtlMaterial {
    name: String,
    map_kd: Option<String>,
    map_bump: Option<String>,
}

/// An optional string's value.
pub open spec fn opt_view(o: Option<String>) -> Option<Seq<char>> {
    match o {
        Some(s) => Some(s@),
        None => None,
    }
}

spec fn mtl_view(m: MtlMaterial) -> MtlSpec {
    MtlSpec { name: m.name@, map_kd: opt_view(m.map_kd), map_bump: opt_view(m.map_bump) }
}

spec fn mtl_views(v: Seq<MtlMaterial>) -> Seq<MtlSpec> {
    v.map_values(|m: MtlMaterial| mtl_view(m))
}

fn parse_mtl(text: &str) -> (v: Vec<MtlMaterial>)
    ensures
        mtl_views(v@) == mtl_materials(text@),
{
    let lines = split_lines(text);
    let ghost lv = string_views(lines@);
    let mut mats: Vec<MtlMaterial> = Vec::new();
    let mut i: usize = 0;
    while i < lines.len()
        invariant
            i <= lines@.len(),
            lv == string_views(lines@),
            lv == lines_of(text@),
            mtl_views(mats@) == mtl_upto(lv, i as int),
        decreases lines.len() - i,
    {
        let ghost before = mtl_views(mats@);
        assert(lv[i as int] == lines@[i as int]@);
        let t = trim_text(lines[i].as_str());
        let cs = chars_of(t.as_str());
        if starts_with_text(&cs, "newmtl ") {
            proof {
                reveal_strlit("newmtl ");
            }
            let name = trimmed_rest(&cs, 7);
            let m = MtlMaterial { name, map_kd: None, map_bump: None };
            mats.push(m);
            proof {
                assert(mtl_views(mats@) =~= before.push(mtl_view(m)));
            }
        } else if starts_with_text(&cs, "map_Kd ") {
            proof {
                reveal_strlit("map_Kd ");
            }
            let rest = trimmed_rest(&cs, 7);
            let n = mats.len();
            if n > 0 {
                let mut last = mats.pop().unwrap();
                last.map_kd = Some(rest);
                let ghost lm = last;
                mats.push(last);
                proof {
                    assert(mtl_views(mats@) =~= before.update(before.len() - 1, mtl_view(lm)));
                }
            }
        } else if starts_with_text(&cs, "map_bump ") {
            proof {
                reveal_strlit("map_bump ");
            }
            let rest = trimmed_rest(&cs, 9);
            let n = mats.len();
            if n > 0 {
                let mut last = mats.pop().unwrap();
                last.map_bump = Some(rest);
                let ghost lm = last;
                mats.push(last);
                proof {
                    assert(mtl_views(mats@) =~= before.update(before.len() - 1, mtl_view(lm)));
                }
            }
        }
        i += 1;
    }
    mats
}

/// The texture names a mesh's primary material references.
#[derive(Debug, Clone)]
pub struct MaterialTextureRefs {
    pub diffuse: Option<String>,
    pub normal: Option<String>,
}

/// The first material named `name`.
pub open spec fn material_named(ms: Seq<MtlSpec>, name: Seq<char>, i: int) -> Option<MtlSpec>
    decreases ms.len() - i,
{
    if i < 0 || i >= ms.len() {
        None
    } else if ms[i].name == name {
        Some(ms[i])
    } else {
        material_named(ms, name, i + 1)
    }
}

/// The references of the primary material (the one covering most surface, else the first
/// declared): its `map_Kd` file name (the material's own name when it has none), and its
/// `map_bump` file name (a normal-map name guessed from the diffuse one when it has none).
pub open spec fn texture_refs_spec(mtl: Seq<char>, primary: Option<Seq<char>>) -> (Option<Seq<char>>, Option<Seq<char>>) {
    let ms = mtl_materials(mtl);
    let pname = match primary {
        Some(p) => Some(p),
        None => if ms.len() > 0 {
            Some(ms[0].name)
        } else {
            None
        },
    };
    match pname {
        None => (None, None),
        Some(name) => {
            let pm = material_named(ms, name, 0);
            let diffuse = match pm {
                Some(m) => match m.map_kd {
                    Some(k) => base_name(k),
                    None => name,
                },
                None => name,
            };
            let normal = match pm {
                Some(m) => match m.map_bump {
                    Some(b) => Some(base_name(b)),
                    None => normal_guess(diffuse),
                },
                None => normal_guess(diffuse),
            };
            (Some(diffuse), normal)
        },
    }
}

/// The texture references of a converted mesh from its `.mtl` text, given the material that
/// covers most of its surface (when the caller could tell from the `.obj`).
pub fn read_material_texture_refs(mtl_text: &str, primary_by_area: Option<String>) -> (r: MaterialTextureRefs)
    ensures
        (opt_view(r.diffuse), opt_view(r.normal)) == texture_refs_spec(mtl_text@, opt_view(primary_by_area)),
{
    let mats = parse_mtl(mtl_text);
    let ghost ms = mtl_views(mats@);
    let primary_name = match primary_by_area {
        Some(p) => p,
        None => {
            if mats.len() > 0 {
                assert(ms[0] == mtl_view(mats@[0]));
                mats[0].name.clone()
            } else {
                return MaterialTextureRefs { diffuse: None, normal: None };
            }
        },
    };
    let mut k: usize = 0;
    while k < mats.len() && !str_equal(mats[k].name.as_str(), primary_name.as_str())
        invariant
            k <= mats@.len(),
            ms == mtl_views(mats@),
            material_named(ms, primary_name@, 0) == material_named(ms, primary_name@, k as int),
        decreases mats.len() - k,
    {
        assert(ms[k as int] == mtl_view(mats@[k as int]));
        k += 1;
    }
    let (kd, bump) = if k < mats.len() {
        assert(ms[k as int] == mtl_view(mats@[k as int]));
        (
            match &mats[k].map_kd {
                Some(s) => Some(base_name_exec(s.as_str())),
                None => None,
            },
            match &mats[k].map_bump {
                Some(s) => Some(base_name_exec(s.as_str())),
                None => None,
            },
        )
    } else {
        (None, None)
    };
    let diffuse = match kd {
        Some(d) => d,
        None => primary_name,
    };
    let normal = match bump {
        Some(b) => Some(b),
        None => guess_normal_from_diffuse_name(diffuse.as_str()),
    };
    MaterialTextureRefs { diffuse: Some(diffuse), normal }
}

// ---------------------------------------------------------------------------------------
// Embedding real texture paths into a `.mtl`
// ---------------------------------------------------------------------------------------

/// `dir` joined with `rel` as `Path::join` does on `/` paths (an absolute `rel` replaces
/// `dir`), written with `/` separators.
pub open spec fn join_slashed(dir: Seq<char>, rel: Seq<char>) -> Seq<char> {
    slashes(
        if rel.len() > 0 && rel[0] == '/' {
            rel
        } else if dir.len() == 0 || dir.last() == '/' {
            dir + rel
        } else {
            dir + seq!['/'] + rel
        },
    )
}

/// The first library entry whose name, without extension and lowercased, is `target`.
pub open spec fn library_match(lib: Seq<LibraryEntry>, target: Seq<char>, i: int) -> Option<LibraryEntry>
    decreases lib.len() - i,
{
    if i < 0 || i >= lib.len() {
        None
    } else if stem_lower(lib[i].name@) == target {
        Some(lib[i])
    } else {
        library_match(lib, target, i + 1)
    }
}

/// The absolute path of the library texture named like `name` (ignoring extension and case).
pub open spec fn exact_path(lib: Seq<LibraryEntry>, dir: Seq<char>, name: Seq<char>) -> Option<Seq<char>> {
    match library_match(lib, stem_lower(name), 0) {
        Some(e) => Some(join_slashed(dir, e.png_rel@)),
        None => None,
    }
}

/// `exact_path`, falling back, for a `_Ghost` variant, to its base name.
pub open spec fn real_path(lib: Seq<LibraryEntry>, dir: Seq<char>, name: Seq<char>) -> Option<Seq<char>> {
    match exact_path(lib, dir, name) {
        Some(p) => Some(p),
        None => if ends_with(name, "_Ghost"@) {
            exact_path(lib, dir, name.subrange(0, name.len() - 6))
        } else {
            None
        },
    }
}

/// Rewriting state: the text so far, the material being read, whether it declared `map_Kd`
/// and `map_bump`, and how many `map_Kd` lines were added.
pub struct EmbedState {
    pub out: Seq<char>,
    pub current: Option<Seq<char>>,
    pub has_kd: bool,
    pub has_bump: bool,
    pub added: nat,
}

/// Closing the material being read: when it declared no `map_Kd` and its name resolves to a
/// library texture, a `map_Kd` line with that path, and (when it declared no `map_bump`
/// either and the guessed normal-map name resolves) a `map_bump` line.
pub open spec fn embed_flush(lib: Seq<LibraryEntry>, dir: Seq<char>, st: EmbedState) -> EmbedState {
    match st.current {
        None => st,
        Some(name) => if st.has_kd {
            st
        } else {
            match real_path(lib, dir, name) {
                None => st,
                Some(path) => {
                    let out1 = st.out + "map_Kd "@ + path + "\r\n"@;
                    let out2 = if st.has_bump {
                        out1
                    } else {
                        match normal_guess(name) {
                            None => out1,
                            Some(nn) => match real_path(lib, dir, nn) {
                                None => out1,
                                Some(np) => out1 + "map_bump "@ + np + "\r\n"@,
                            },
                        }
                    };
                    EmbedState { out: out2, added: st.added + 1, ..st }
                },
            }
        },
    }
}

/// Reading one line: a `newmtl` line closes the previous material and opens one; `map_Kd`
/// and `map_bump` lines are noted; every line is copied with a CRLF ending.
pub open spec fn embed_step(lib: Seq<LibraryEntry>, dir: Seq<char>, st: EmbedState, line: Seq<char>) -> EmbedState {
    let t = trim_ws(line);
    let st2 = if starts_with(t, "newmtl "@) {
        let f = embed_flush(lib, dir, st);
        EmbedState { current: Some(trim_ws(t.skip(7))), has_kd: false, has_bump: false, ..f }
    } else if starts_with(t, "map_Kd "@) {
        EmbedState { has_kd: true, ..st }
    } else if starts_with(t, "map_bump "@) {
        EmbedState { has_bump: true, ..st }
    } else {
        st
    };
    EmbedState { out: st2.out + line + "\r\n"@, ..st2 }
}

/// The state after the first `n` lines.
pub open spec fn embed_upto(lib: Seq<LibraryEntry>, dir: Seq<char>, lines: Seq<Seq<char>>, n: int) -> EmbedState
    decreases n,
{
    if n <= 0 {
        EmbedState { out: Seq::empty(), current: None, has_kd: false, has_bump: false, added: 0 }
    } else {
        embed_step(lib, dir, embed_upto(lib, dir, lines, n - 1), lines[n - 1])
    }
}

/// The rewritten `.mtl` text and the number of `map_Kd` lines added.
pub open spec fn embed_spec(mtl: Seq<char>, lib: Seq<LibraryEntry>, dir: Seq<char>) -> (Seq<char>, nat) {
    let st = embed_flush(lib, dir, embed_upto(lib, dir, lines_of(mtl), lines_of(mtl).len() as int));
    (st.out, st.added)
}

fn join_slashed_exec(dir: &str, rel: &str) -> (s: String)
    ensures
        s@ == join_slashed(dir@, rel@),
{
    let rc = chars_of(rel);
    let joined = if rc.len() > 0 && rc[0] == '/' {
        String::from_str(rel)
    } else {
        crate::logic::join_path_str(dir, rel)
    };
    to_slashes(joined.as_str())
}

fn exact_path_exec(lib: &Vec<LibraryEntry>, dir: &str, name: &str) -> (r: Option<String>)
    ensures
        r is None <==> exact_path(lib@, dir@, name@) is None,
        r matches Some(s) ==> exact_path(lib@, dir@, name@) == Some(s@),
{
    let target = strip_ext_lower(name);
    let mut i: usize = 0;
    while i < lib.len()
        invariant
            i <= lib@.len(),
            target@ == stem_lower(name@),
            library_match(lib@, target@, 0) == library_match(lib@, target@, i as int),
        decreases lib.len() - i,
    {
        let n = strip_ext_lower(lib[i].name.as_str());
        if str_equal(n.as_str(), target.as_str()) {
            let p = join_slashed_exec(dir, lib[i].png_rel.as_str());
            proof {
                assert(stem_lower(lib@[i as int].name@) == target@);
                assert(library_match(lib@, target@, i as int) == Some(lib@[i as int]));
            }
            return Some(p);
        }
        i += 1;
    }
    None
}

fn real_path_exec(lib: &Vec<LibraryEntry>, dir: &str, name: &str) -> (r: Option<String>)
    ensures
        r is None <==> real_path(lib@, dir@, name@) is None,
        r matches Some(s) ==> real_path(lib@, dir@, name@) == Some(s@),
{
    match exact_path_exec(lib, dir, name) {
        Some(p) => Some(p),
        None => {
            let cs = chars_of(name);
            if ends_with_text(&cs, "_Ghost") {
                proof {
                    reveal_strlit("_Ghost");
                }
                let base = string_from_chars(cs.as_slice(), 0, cs.len() - 6);
                exact_path_exec(lib, dir, base.as_str())
            } else {
                None
            }
        },
    }
}

fn flush_exec(
    lib: &Vec<LibraryEntry>,
    dir: &str,
    out: &mut String,
    current: &Option<String>,
    has_kd: bool,
    has_bump: bool,
    added: &mut usize,
)
    requires
        current is Some ==> *old(added) < usize::MAX,
    ensures
        ({
            let st = embed_flush(
                lib@,
                dir@,
                EmbedState { out: old(out)@, current: opt_view(*current), has_kd, has_bump, added: *old(added) as nat },
            );
            final(out)@ == st.out && *final(added) as nat == st.added
        }),
{
    let name = match current {
        None => return,
        Some(n) => n,
    };
    if has_kd {
        return;
    }
    match real_path_exec(lib, dir, name.as_str()) {
        None => {},
        Some(path) => {
            out.append("map_Kd ");
            out.append(path.as_str());
            out.append("\r\n");
            *added = *added + 1;
            if !has_bump {
                match guess_normal_from_diffuse_name(name.as_str()) {
                    None => {},
                    Some(nn) => match real_path_exec(lib, dir, nn.as_str()) {
                        None => {},
                        Some(np) => {
                            out.append("map_bump ");
                            out.append(np.as_str());
                            out.append("\r\n");
                        },
                    },
                }
            }
        },
    }
}

/// A `.mtl` text with explicit `map_Kd`/`map_bump` lines added, for every material without
/// one, pointing at the absolute path (under `library_out_dir`) of the library texture named
/// like the material (see `embed_spec`); and how many `map_Kd` lines were added. Lines are
/// written back with CRLF endings; declared maps are never replaced.
pub fn embed_real_texture_paths(mtl_text: &str, library: &Vec<LibraryEntry>, library_out_dir: &str) -> (r: (String, usize))
    ensures
        r.0@ == embed_spec(mtl_text@, library@, library_out_dir@).0,
        r.1 as nat == embed_spec(mtl_text@, library@, library_out_dir@).1,
{
    let lines = split_lines(mtl_text);
    let ghost lv = string_views(lines@);
    let mut out = String::new();
    let mut current: Option<String> = None;
    let mut has_kd = false;
    let mut has_bump = false;
    let mut added: usize = 0;
    let mut i: usize = 0;
    while i < lines.len()
        invariant
            i <= lines@.len(),
            lv == string_views(lines@),
            lv == lines_of(mtl_text@),
            added + (if current is Some { 1int } else { 0int }) <= i,
            embed_upto(library@, library_out_dir@, lv, i as int) == (EmbedState {
                out: out@,
                current: opt_view(current),
                has_kd,
                has_bump,
                added: added as nat,
            }),
        decreases lines.len() - i,
    {
        assert(lv[i as int] == lines@[i as int]@);
        let t = trim_text(lines[i].as_str());
        let cs = chars_of(t.as_str());
        if starts_with_text(&cs, "newmtl ") {
            proof {
                reveal_strlit("newmtl ");
            }
            flush_exec(library, library_out_dir, &mut out, &current, has_kd, has_bump, &mut added);
            current = Some(trimmed_rest(&cs, 7));
            has_kd = false;
            has_bump = false;
        } else if starts_with_text(&cs, "map_Kd ") {
            has_kd = true;
        } else if starts_with_text(&cs, "map_bump ") {
            has_bump = true;
        }
        out.append(lines[i].as_str());
        out.append("\r\n");
        i += 1;
    }
    proof {
        assert(lv.len() == lines@.len());
    }
    flush_exec(library, library_out_dir, &mut out, &current, has_kd, has_bump, &mut added);
    (out, added)
}

// ---------------------------------------------------------------------------------------
// Texture details
// ---------------------------------------------------------------------------------------

/// A texture's details as the review panel shows them.
#[derive(Debug, Clone)]
pub struct TextureMeta {
    pub width: i32,
    pub height: i32,
    pub pixel_format: String,
    pub file_size: u64,
}

/// Why a texture's details could not be read.
#[derive(Debug, Clone, Copy, PartialEq, Eq, Structural)]
pub enum TextureMetaError {
    /// The archive has no entry with that path.
    EntryNotFound,
    /// The entry's bytes could not be read.
    Pak(PakError),
    /// The entry is not a readable `._ximg`.
    Ximg(XimgError),
}

/// The first entry of `es` at or after `i` whose path is `p`.
pub open spec fn entry_with_path(es: Seq<EntrySpec>, p: Seq<char>, i: int) -> Option<EntrySpec>
    decreases es.len() - i,
{
    if i < 0 || i >= es.len() {
        None
    } else if es[i].path == p {
        Some(es[i])
    } else {
        entry_with_path(es, p, i + 1)
    }
}

/// The contents of an archive's first entry with path `p`, or why they cannot be had.
pub open spec fn contents_at_path(es: Seq<EntrySpec>, bytes: Seq<u8>, p: Seq<char>) -> Result<Seq<u8>, TextureMetaError> {
    match entry_with_path(es, p, 0) {
        None => Err(TextureMetaError::EntryNotFound),
        Some(e) => match stored_bytes(bytes, e) {
            None => Err(TextureMetaError::Pak(PakError::UnexpectedEof)),
            Some(_) => match entry_contents(bytes, e) {
                None => Err(TextureMetaError::Pak(PakError::InvalidData)),
                Some(c) => Ok(c),
            },
        },
    }
}

/// The width, height, pixel format (`?` when it cannot be read) and byte size of a texture's
/// `._ximg` contents.
pub open spec fn texture_meta_spec(c: Seq<u8>) -> Result<(i32, i32, Seq<char>, u64), TextureMetaError> {
    match parse_spec(c) {
        Err(e) => Err(TextureMetaError::Ximg(e)),
        Ok(info) => Ok(
            (
                info.width,
                info.height,
                match pixel_format_spec(c) {
                    Ok(f) => f,
                    Err(_) => "?"@,
                },
                c.len() as u64,
            ),
        ),
    }
}

/// The contents of the archive's first entry at `entry_path` (see `contents_at_path`).
pub fn read_entry_bytes(archive: &PakArchive, entry_path: &str) -> (r: Result<Vec<u8>, TextureMetaError>)
    ensures
        match contents_at_path(archive.entry_specs(), archive.bytes(), entry_path@) {
            Err(e) => r == Err::<Vec<u8>, TextureMetaError>(e),
            Ok(c) => r matches Ok(v) && v@ == c,
        },
{
    let entries = archive.files();
    let ghost es = entries_view(entries@);
    let mut i: usize = 0;
    while i < entries.len() && !str_equal(entries[i].path.as_str(), entry_path)
        invariant
            i <= entries@.len(),
            es == entries_view(entries@),
            entry_with_path(es, entry_path@, 0) == entry_with_path(es, entry_path@, i as int),
        decreases entries.len() - i,
    {
        assert(es[i as int] == entries@[i as int]@);
        i += 1;
    }
    if i == entries.len() {
        return Err(TextureMetaError::EntryNotFound);
    }
    assert(es[i as int] == entries@[i as int]@);
    match archive.read_file(&entries[i]) {
        Ok(d) => Ok(d),
        Err(e) => Err(TextureMetaError::Pak(e)),
    }
}

/// A texture's details, read from the archive entry at `entry_path`.
pub fn texture_meta(archive: &PakArchive, entry_path: &str) -> (r: Result<TextureMeta, TextureMetaError>)
    requires
        contents_at_path(archive.entry_specs(), archive.bytes(), entry_path@) matches Ok(c) ==> pixel_format_in_bounds(c),
    ensures
        match contents_at_path(archive.entry_specs(), archive.bytes(), entry_path@) {
            Err(e) => r == Err::<TextureMeta, TextureMetaError>(e),
            Ok(c) => match texture_meta_spec(c) {
                Err(e) => r == Err::<TextureMeta, TextureMetaError>(e),
                Ok((w, h, f, n)) => r matches Ok(m) && m.width == w && m.height == h && m.pixel_format@ == f
                    && m.file_size == n,
            },
        },
{
    let data = read_entry_bytes(archive, entry_path)?;
    let info = match parse(data.as_slice()) {
        Ok(x) => x,
        Err(e) => return Err(TextureMetaError::Ximg(e)),
    };
    let pixel_format = match read_pixel_format(data.as_slice()) {
        Ok(f) => f,
        Err(_) => String::from_str("?"),
    };
    Ok(TextureMeta { width: info.width, height: info.height, pixel_format, file_size: data.len() as u64 })
}

// ---------------------------------------------------------------------------------------
// Actors
// ---------------------------------------------------------------------------------------

/// Why an actor's skeleton or skinned mesh could not be read from its archive.
#[derive(Debug, Clone, Copy, PartialEq, Eq, Structural)]
pub enum ActorError {
    /// The archive has no entry with that path.
    EntryNotFound,
    /// The entry's bytes could not be read.
    Pak(PakError),
    /// The entry's skeleton is unreadable.
    Skeleton(XmacError),
    /// The entry's skinned mesh is unreadable.
    Mesh(SkinError),
}

/// An entry lookup's failure as an actor error.
pub open spec fn actor_lookup_error(e: TextureMetaError) -> ActorError {
    match e {
        TextureMetaError::EntryNotFound => ActorError::EntryNotFound,
        TextureMetaError::Pak(p) => ActorError::Pak(p),
        TextureMetaError::Ximg(_) => ActorError::EntryNotFound,
    }
}

fn actor_bytes(archive: &PakArchive, entry_path: &str) -> (r: Result<Vec<u8>, ActorError>)
    ensures
        match contents_at_path(archive.entry_specs(), archive.bytes(), entry_path@) {
            Err(e) => r == Err::<Vec<u8>, ActorError>(actor_lookup_error(e)),
            Ok(c) => r matches Ok(v) && v@ == c,
        },
{
    match read_entry_bytes(archive, entry_path) {
        Ok(d) => Ok(d),
        Err(TextureMetaError::EntryNotFound) => Err(ActorError::EntryNotFound),
        Err(TextureMetaError::Pak(p)) => Err(ActorError::Pak(p)),
        Err(TextureMetaError::Ximg(_)) => Err(ActorError::EntryNotFound),
    }
}

/// The bone hierarchy of the actor entry at `entry_path` (see `xmac::skeleton_spec`).
pub fn actor_skeleton(archive: &PakArchive, entry_path: &str) -> (r: Result<Vec<SkeletonNode>, ActorError>)
    requires
        contents_at_path(archive.entry_specs(), archive.bytes(), entry_path@) matches Ok(c) ==> c.len() <= isize::MAX,
    ensures
        match contents_at_path(archive.entry_specs(), archive.bytes(), entry_path@) {
            Err(e) => r == Err::<Vec<SkeletonNode>, ActorError>(actor_lookup_error(e)),
            Ok(c) => match skeleton_spec(c) {
                Err(e) => r == Err::<Vec<SkeletonNode>, ActorError>(ActorError::Skeleton(e)),
                Ok(ns) => r matches Ok(v) && nodes_view(v@) == ns,
            },
        },
{
    let data = actor_bytes(archive, entry_path)?;
    match parse_skeleton(data.as_slice()) {
        Ok(v) => Ok(v),
        Err(e) => Err(ActorError::Skeleton(e)),
    }
}

/// The skinned mesh of the actor entry at `entry_path` (see `xmesh_skin::skinned_spec`);
/// `None` where reading it cannot complete.
pub fn read_actor_skinned_mesh(archive: &PakArchive, entry_path: &str) -> (r: Option<Result<SkinnedMesh, ActorError>>)
    requires
        contents_at_path(archive.entry_specs(), archive.bytes(), entry_path@) matches Ok(c) ==> c.len() + read_margin()
            <= usize::MAX,
    ensures
        match contents_at_path(archive.entry_specs(), archive.bytes(), entry_path@) {
            Err(e) => r == Some(Err::<SkinnedMesh, ActorError>(actor_lookup_error(e))),
            Ok(c) => match skinned_spec(c) {
                None => r is None,
                Some(Err(e)) => r == Some(Err::<SkinnedMesh, ActorError>(ActorError::Mesh(e))),
                Some(Ok(m)) => r matches Some(Ok(x)) && skinned_view(x) == m,
            },
        },
{
    let data = match actor_bytes(archive, entry_path) {
        Ok(d) => d,
        Err(e) => return Some(Err(e)),
    };
    match read_skinned_mesh(data.as_slice()) {
        None => None,
        Some(Ok(m)) => Some(Ok(m)),
        Some(Err(e)) => Some(Err(ActorError::Mesh(e))),
    }
}

/// The skinned mesh of the actor entry at `entry_path`, for an entry whose reading completes
/// (see `read_actor_skinned_mesh`).
pub fn actor_skinned_mesh(archive: &PakArchive, entry_path: &str) -> (r: Result<SkinnedMesh, ActorError>)
    requires
        contents_at_path(archive.entry_specs(), archive.bytes(), entry_path@) matches Ok(c) ==> c.len() + read_margin()
            <= usize::MAX && skinned_spec(c) is Some,
    ensures
        match contents_at_path(archive.entry_specs(), archive.bytes(), entry_path@) {
            Err(e) => r == Err::<SkinnedMesh, ActorError>(actor_lookup_error(e)),
            Ok(c) => match skinned_spec(c) {
                None => false,
                Some(Err(e)) => r == Err::<SkinnedMesh, ActorError>(ActorError::Mesh(e)),
                Some(Ok(m)) => r matches Ok(x) && skinned_view(x) == m,
            },
        },
{
    match read_actor_skinned_mesh(archive, entry_path) {
        Some(r) => r,
        None => {
            proof {
                assert(false);
            }
            Err(ActorError::EntryNotFound)
        },
    }
}

} // verus!
