//! The decisions of the texture round trip: which archive entries are extracted and where
//! their PNGs go, which edited PNGs go into which patch volume and what a patch volume is
//! called, how a texture is regenerated, and the review page of the changed textures.

use vstd::prelude::*;
use crate::batch::{listed_entry, slashes, ends_with_text, fnv1a, fnv1a_spec, hex16, push_hex16, ManifestEntry};
use crate::text::string_push;
use crate::gamepath::{extension_of, name_extension};
use crate::batch::{html_escape, html_escaped, RegenEngine};
use crate::ai::{is_data_map, data_map_name};
use crate::logic::{base64_encode, b64};
use crate::pak::{FileEntry, DELETED_ATTR};
use crate::pakmerge::{trim_slashes, trim_leading_slashes};
use crate::text::{ascii_lowercase_chars, chars_of, string_from_chars, str_equal};

verus! {

/// What `Path::new(a).join(b)` gives, as text, under the path rules of the platform the
/// library is built for.
pub uninterp spec fn path_joined(a: Seq<char>, b: Seq<char>) -> Seq<char>;

/// What `Path::new(p).with_extension(ext)` gives, as text, under the path rules of the
/// platform the library is built for.
pub uninterp spec fn extension_replaced(p: Seq<char>, ext: Seq<char>) -> Seq<char>;

/// `Path::new(a).join(b)`, as text (joining two `&str` paths gives valid UTF-8). Claimed: the
/// result depends on the two paths alone.
#[verifier::external_body]
fn path_join(a: &str, b: &str) -> (r: String)
    ensures
        r@ == path_joined(a@, b@),
{
    std::path::Path::new(a).join(b).to_string_lossy().into_owned()
}

/// `Path::new(p).with_extension(ext)`, as text. Claimed: the result depends on the path and
/// the extension alone. An extension holding a path separator is refused (std panics on it).
#[verifier::external_body]
fn path_with_extension(p: &str, ext: &str) -> (r: String)
    requires
        forall|i: int| 0 <= i < ext@.len() ==> #[trigger] ext@[i] != '/' && ext@[i] != '\\',
    ensures
        r@ == extension_replaced(p@, ext@),
{
    std::path::Path::new(p).with_extension(ext).to_string_lossy().into_owned()
}

/// Whether an extension names a patch volume: `p` and at least one more character, all of
/// them ASCII digits.
pub open spec fn patch_extension(e: Seq<char>) -> bool {
    e.len() >= 2 && e[0] == 'p' && forall|i: int| 1 <= i < e.len() ==> '0' <= #[trigger] e[i] <= '9'
}

/// Whether a file name is that of a patch volume (`<stem>.pNN`), by its extension.
pub open spec fn patch_volume_file(name: Seq<char>) -> bool {
    extension_of(name) matches Some(e) && patch_extension(e)
}

/// Whether a file name is that of a patch volume (see `patch_volume_file`).
pub fn is_patch_volume(name: &str) -> (b: bool)
    ensures
        b == patch_volume_file(name@),
{
    let e = match name_extension(name) {
        Some(e) => e,
        None => return false,
    };
    let cs = chars_of(e.as_str());
    if cs.len() < 2 || cs[0] != 'p' {
        return false;
    }
    let mut i: usize = 1;
    while i < cs.len()
        invariant
            cs@ == e@,
            extension_of(name@) == Some(e@),
            cs@.len() >= 2 && cs@[0] == 'p',
            1 <= i <= cs@.len(),
            forall|j: int| 1 <= j < i ==> '0' <= #[trigger] cs@[j] <= '9',
        decreases cs.len() - i,
    {
        if cs[i] < '0' || cs[i] > '9' {
            assert(!patch_extension(e@));
            return false;
        }
        i += 1;
    }
    true
}

/// Where a converted mesh or actor is cached: `<out_dir>/<path inside the archive without
/// its leading slashes>` with the extension `obj`.
pub open spec fn obj_path_spec(out_dir: Seq<char>, entry_path: Seq<char>) -> Seq<char> {
    extension_replaced(path_joined(out_dir, trim_slashes(entry_path)), "obj"@)
}

/// The cache path of a converted mesh or actor (see `obj_path_spec`).
pub fn obj_path_for(out_dir: &str, entry_path: &String) -> (s: String)
    ensures
        s@ == obj_path_spec(out_dir@, entry_path@),
{
    let inside = trim_leading_slashes(entry_path);
    let full = path_join(out_dir, inside.as_str());
    proof {
        reveal_strlit("obj");
    }
    path_with_extension(full.as_str(), "obj")
}

/// The file name an archive entry is staged under for a conversion: the FNV-1a hash of the
/// entry's path (its UTF-8 bytes) as 16 hex digits, a dot, and the extension.
pub open spec fn staged_name_spec(entry_path: Seq<char>, ext: Seq<char>) -> Seq<char> {
    hex16(fnv1a_spec(vstd::utf8::encode_utf8(entry_path))) + seq!['.'] + ext
}

/// The staging file name of an archive entry (see `staged_name_spec`).
pub fn staged_raw_name(entry_path: &str, raw_extension: &str) -> (s: String)
    ensures
        s@ == staged_name_spec(entry_path@, raw_extension@),
{
    let h = fnv1a(entry_path.as_bytes());
    let mut s = String::new();
    push_hex16(&mut s, h);
    string_push(&mut s, '.');
    s.append(raw_extension);
    s
}

/// Whether an archive entry is a texture to extract: not deleted, and its path in ASCII
/// lowercase ends with `._ximg`.
pub fn is_texture_entry(e: &FileEntry) -> (b: bool)
    ensures
        b == listed_entry(e.path@, e.file_attributes, "._ximg"@),
{
    let lower = ascii_lowercase_chars(e.path.as_str());
    e.file_attributes & DELETED_ATTR == 0 && ends_with_text(&lower, "._ximg")
}

/// Where a texture's PNG goes under the output directory: `<group>/<archive stem>/<path
/// inside the archive without its leading slashes>`, its extension replaced by `png`, with
/// `/` separators.
pub open spec fn png_rel_spec(group: Seq<char>, archive_stem: Seq<char>, entry_path: Seq<char>) -> Seq<char> {
    slashes(extension_replaced(path_joined(path_joined(group, archive_stem), trim_slashes(entry_path)), "png"@))
}

/// The PNG path of a texture, relative to the output directory (see `png_rel_spec`).
pub fn png_rel_for(group: &str, archive_stem: &str, entry_path: &String) -> (s: String)
    ensures
        s@ == png_rel_spec(group@, archive_stem@, entry_path@),
{
    let inside = trim_leading_slashes(entry_path);
    let dir = path_join(group, archive_stem);
    let full = path_join(dir.as_str(), inside.as_str());
    proof {
        reveal_strlit("png");
    }
    let p = path_with_extension(full.as_str(), "png");
    let cs = chars_of(p.as_str());
    let mut v: Vec<char> = Vec::new();
    let mut i: usize = 0;
    while i < cs.len()
        invariant
            cs@ == p@,
            i <= cs@.len(),
            v@ == slashes(cs@.take(i as int)),
        decreases cs.len() - i,
    {
        let c = cs[i];
        v.push(if c == '\\' { '/' } else { c });
        proof {
            assert(slashes(cs@.take(i + 1)) =~= slashes(cs@.take(i as int)).push(if c == '\\' { '/' } else { c }));
        }
        i += 1;
    }
    proof {
        assert(cs@.take(cs@.len() as int) =~= cs@);
    }
    string_from_chars(v.as_slice(), 0, v.len())
}

/// The decimal digit `d` as a character.
pub open spec fn digit_char(d: int) -> char {
    ((48 + d) as u8) as char
}

/// The name of the `n`-th patch volume of an archive with stem `stem`: `<stem>.pNN`, with
/// `n` in two decimal digits.
pub open spec fn patch_volume_spec(stem: Seq<char>, n: int) -> Seq<char> {
    stem + ".p"@ + seq![digit_char(n / 10), digit_char(n % 10)]
}

/// The name of the `n`-th patch volume of an archive (see `patch_volume_spec`); volumes are
/// numbered 1 to 99.
pub fn patch_volume_name(stem: &str, n: u32) -> (s: String)
    requires
        1 <= n <= 99,
    ensures
        s@ == patch_volume_spec(stem@, n as int),
{
    let cs = chars_of(stem);
    let mut v: Vec<char> = cs;
    v.push('.');
    v.push('p');
    let hi: u8 = (48 + n / 10) as u8;
    let lo: u8 = (48 + n % 10) as u8;
    assert(hi as char == digit_char(n as int / 10));
    assert(lo as char == digit_char(n as int % 10));
    v.push(hi as char);
    v.push(lo as char);
    proof {
        reveal_strlit(".p");
        assert(".p"@ =~= seq!['.', 'p']);
    }
    assert(v@ =~= patch_volume_spec(stem@, n as int));
    string_from_chars(v.as_slice(), 0, v.len())
}

/// Whether patch slot `n` (1 to 99) is taken: the probe for it says so.
pub open spec fn slot_taken(taken: Seq<bool>, n: int) -> bool {
    n - 1 < taken.len() && taken[n - 1]
}

/// The first free patch slot among 1 to 99, where `taken[n - 1]` tells whether `<stem>.pNN`
/// already exists (in the game's folder or among the built patches); `None` when all are taken.
pub fn next_patch_slot(taken: &Vec<bool>) -> (r: Option<u32>)
    ensures
        r is None <==> forall|n: int| 1 <= n <= 99 ==> slot_taken(taken@, n),
        r matches Some(n) ==> 1 <= n <= 99 && !slot_taken(taken@, n as int) && forall|m: int|
            1 <= m < n ==> slot_taken(taken@, m),
{
    let mut n: u32 = 1;
    while n <= 99
        invariant
            1 <= n <= 100,
            forall|m: int| 1 <= m < n ==> slot_taken(taken@, m),
        decreases 100 - n,
    {
        let t = (n as usize) <= taken.len() && taken[(n - 1) as usize];
        if !t {
            assert(!slot_taken(taken@, n as int));
            return Some(n);
        }
        n += 1;
    }
    None
}

/// The base archive a patch volume `<stem>.pNN` patches: `<stem>.pak`.
pub open spec fn base_archive_spec(stem: Seq<char>) -> Seq<char> {
    stem + ".pak"@
}

/// The base archive's file name for a patch volume's stem (see `base_archive_spec`).
pub fn base_archive_name(stem: &str) -> (s: String)
    ensures
        s@ == base_archive_spec(stem@),
{
    let mut s = String::from_str(stem);
    s.append(".pak");
    s
}

/// The archives whose textures changed: the archive's path, its group, and the positions
/// in the manifest of its changed entries, in order.
#[derive(Debug, Clone)]
pub struct ChangedArchive {
    pub archive: String,
    pub group: String,
    pub entries: Vec<usize>,
}

/// A changed archive as values.
pub open spec fn changed_view(c: ChangedArchive) -> (Seq<char>, Seq<char>, Seq<usize>) {
    (c.archive@, c.group@, c.entries@)
}

/// Whether manifest entry `i` changed: its PNG is there now, with a hash other than the one
/// recorded when it was extracted.
pub open spec fn entry_changed(es: Seq<ManifestEntry>, current: Seq<Option<u64>>, i: int) -> bool {
    current[i] matches Some(h) && h != es[i].hash
}

/// The position of the first group for `archive` at or after `from`, or the number of groups
/// when none is.
pub open spec fn group_index(gs: Seq<(Seq<char>, Seq<char>, Seq<usize>)>, archive: Seq<char>, from: int) -> int
    decreases gs.len() - from,
{
    if from < 0 || from >= gs.len() {
        gs.len() as int
    } else if gs[from].0 == archive {
        from
    } else {
        group_index(gs, archive, from + 1)
    }
}

/// The changed archives of the first `n` manifest entries: an archive's group is made by its
/// first changed entry, which also gives the group its name; each later changed entry of the
/// same archive joins it.
pub open spec fn groups_upto(es: Seq<ManifestEntry>, current: Seq<Option<u64>>, n: int) -> Seq<
    (Seq<char>, Seq<char>, Seq<usize>),
>
    decreases n,
{
    if n <= 0 {
        Seq::empty()
    } else {
        let prev = groups_upto(es, current, n - 1);
        let e = es[n - 1];
        if !entry_changed(es, current, n - 1) {
            prev
        } else {
            let k = group_index(prev, e.archive@, 0);
            if k < prev.len() {
                prev.update(k, (prev[k].0, prev[k].1, prev[k].2.push((n - 1) as usize)))
            } else {
                prev.push((e.archive@, e.group@, seq![(n - 1) as usize]))
            }
        }
    }
}

proof fn lemma_group_index_bounds(gs: Seq<(Seq<char>, Seq<char>, Seq<usize>)>, archive: Seq<char>, from: int)
    requires
        0 <= from <= gs.len(),
    ensures
        from <= group_index(gs, archive, from) <= gs.len(),
        group_index(gs, archive, from) < gs.len() ==> gs[group_index(gs, archive, from)].0 == archive,
    decreases gs.len() - from,
{
    if from < gs.len() && gs[from].0 != archive {
        lemma_group_index_bounds(gs, archive, from + 1);
    }
}

/// Groups the changed manifest entries by archive, in the order in which each archive's
/// first changed entry comes (see `groups_upto`). `current[i]` is the hash of entry `i`'s
/// PNG as it is now, `None` when it is gone.
pub fn group_changed(entries: &Vec<ManifestEntry>, current: &Vec<Option<u64>>) -> (v: Vec<ChangedArchive>)
    requires
        current@.len() == entries@.len(),
    ensures
        v@.map_values(|c: ChangedArchive| changed_view(c)) == groups_upto(entries@, current@, entries@.len() as int),
{
    let mut out: Vec<ChangedArchive> = Vec::new();
    let mut i: usize = 0;
    while i < entries.len()
        invariant
            i <= entries@.len(),
            current@.len() == entries@.len(),
            out@.map_values(|c: ChangedArchive| changed_view(c)) == groups_upto(entries@, current@, i as int),
        decreases entries.len() - i,
    {
        let e = &entries[i];
        let changed = match current[i] {
            Some(h) => h != e.hash,
            None => false,
        };
        if changed {
            let ghost gs = out@.map_values(|c: ChangedArchive| changed_view(c));
            let mut k: usize = 0;
            while k < out.len() && !str_equal(out[k].archive.as_str(), e.archive.as_str())
                invariant
                    k <= out@.len(),
                    gs == out@.map_values(|c: ChangedArchive| changed_view(c)),
                    group_index(gs, e.archive@, 0) == group_index(gs, e.archive@, k as int),
                decreases out.len() - k,
            {
                assert(gs[k as int] == changed_view(out@[k as int]));
                k += 1;
            }
            proof {
                lemma_group_index_bounds(gs, e.archive@, k as int);
                if k < out@.len() {
                    assert(gs[k as int] == changed_view(out@[k as int]));
                }
            }
            if k < out.len() {
                out[k].entries.push(i);
                proof {
                    assert(out@.map_values(|c: ChangedArchive| changed_view(c)) =~= gs.update(
                        k as int,
                        (gs[k as int].0, gs[k as int].1, gs[k as int].2.push(i)),
                    ));
                }
            } else {
                let mut idx: Vec<usize> = Vec::new();
                idx.push(i);
                out.push(ChangedArchive { archive: e.archive.clone(), group: e.group.clone(), entries: idx });
                proof {
                    assert(idx@ =~= seq![i]);
                    assert(out@.map_values(|c: ChangedArchive| changed_view(c)) =~= gs.push(
                        (e.archive@, e.group@, seq![i]),
                    ));
                }
            }
        }
        i += 1;
    }
    out
}

/// Whether position `i` is listed in one of the groups.
pub open spec fn grouped(gs: Seq<(Seq<char>, Seq<char>, Seq<usize>)>, i: int) -> bool {
    exists|g: int, k: int| 0 <= g < gs.len() && 0 <= k < gs[g].2.len() && #[trigger] gs[g].2[k] == i
}

proof fn lemma_groups_sound(es: Seq<ManifestEntry>, current: Seq<Option<u64>>, n: int)
    requires
        0 <= n <= es.len(),
        current.len() == es.len(),
        n <= usize::MAX,
    ensures
        forall|g: int, k: int|
            0 <= g < groups_upto(es, current, n).len() && 0 <= k < groups_upto(es, current, n)[g].2.len() ==> {
                let i = #[trigger] groups_upto(es, current, n)[g].2[k] as int;
                &&& 0 <= i < n
                &&& entry_changed(es, current, i)
                &&& es[i].archive@ == groups_upto(es, current, n)[g].0
            },
        forall|i: int| 0 <= i < n && entry_changed(es, current, i) ==> grouped(groups_upto(es, current, n), i),
    decreases n,
{
    if n > 0 {
        lemma_groups_sound(es, current, n - 1);
        let prev = groups_upto(es, current, n - 1);
        let cur = groups_upto(es, current, n);
        let e = es[n - 1];
        if entry_changed(es, current, n - 1) {
            let k = group_index(prev, e.archive@, 0);
            lemma_group_index_bounds(prev, e.archive@, 0);
            if k < prev.len() {
                assert forall|g: int, j: int| 0 <= g < cur.len() && 0 <= j < cur[g].2.len() implies {
                    let i = #[trigger] cur[g].2[j] as int;
                    &&& 0 <= i < n
                    &&& entry_changed(es, current, i)
                    &&& es[i].archive@ == cur[g].0
                } by {
                    if g == k && j == prev[k].2.len() {
                        assert(cur[g].2[j] == (n - 1) as usize);
                    } else if g == k {
                        assert(cur[g].2[j] == prev[g].2[j]);
                    } else {
                        assert(cur[g] == prev[g]);
                    }
                }
                assert forall|i: int| 0 <= i < n && entry_changed(es, current, i) implies grouped(cur, i) by {
                    if i == n - 1 {
                        assert(cur[k].2[prev[k].2.len() as int] == i);
                    } else {
                        assert(grouped(prev, i));
                        let (g, j) = choose|g: int, j: int| 0 <= g < prev.len() && 0 <= j < prev[g].2.len() && prev[g].2[j] == i;
                        assert(cur[g].2[j] == i);
                    }
                }
            } else {
                assert forall|g: int, j: int| 0 <= g < cur.len() && 0 <= j < cur[g].2.len() implies {
                    let i = #[trigger] cur[g].2[j] as int;
                    &&& 0 <= i < n
                    &&& entry_changed(es, current, i)
                    &&& es[i].archive@ == cur[g].0
                } by {
                    if g < prev.len() {
                        assert(cur[g] == prev[g]);
                    }
                }
                assert forall|i: int| 0 <= i < n && entry_changed(es, current, i) implies grouped(cur, i) by {
                    if i == n - 1 {
                        assert(cur[prev.len() as int].2[0] == i);
                    } else {
                        assert(grouped(prev, i));
                        let (g, j) = choose|g: int, j: int| 0 <= g < prev.len() && 0 <= j < prev[g].2.len() && prev[g].2[j] == i;
                        assert(cur[g] == prev[g]);
                    }
                }
            }
        } else {
            assert forall|i: int| 0 <= i < n && entry_changed(es, current, i) implies grouped(cur, i) by {
                assert(i < n - 1);
            }
        }
    }
}

/// Only what changed is patched: a manifest entry is placed in a group exactly when its PNG
/// is there with a hash other than the recorded one, and then in the group of its own archive.
pub proof fn lemma_only_changed_are_grouped(es: Seq<ManifestEntry>, current: Seq<Option<u64>>)
    requires
        current.len() == es.len(),
        es.len() <= usize::MAX,
    ensures
        forall|i: int| 0 <= i < es.len() ==> (grouped(groups_upto(es, current, es.len() as int), i) <==> entry_changed(es, current, i)),
        forall|g: int, k: int|
            0 <= g < groups_upto(es, current, es.len() as int).len() && 0 <= k < groups_upto(es, current, es.len() as int)[g].2.len()
                ==> es[#[trigger] groups_upto(es, current, es.len() as int)[g].2[k] as int].archive@ == groups_upto(es, current, es.len() as int)[g].0,
{
    let n = es.len() as int;
    lemma_groups_sound(es, current, n);
    let gs = groups_upto(es, current, n);
    assert forall|i: int| 0 <= i < es.len() && grouped(gs, i) implies entry_changed(es, current, i) by {
        let (g, k) = choose|g: int, k: int| 0 <= g < gs.len() && 0 <= k < gs[g].2.len() && gs[g].2[k] == i;
    }
}

// ---------------------------------------------------------------------------------------
// Regenerating a texture
// ---------------------------------------------------------------------------------------

/// The upscale factor chosen for a `width` x `height` texture when none is asked for: 4 for
/// one whose longer side is at most 256 pixels, else 2.
pub open spec fn auto_scale_spec(width: u32, height: u32) -> u32 {
    if width <= 256 && height <= 256 { 4 } else { 2 }
}

/// The automatic upscale factor of a texture (see `auto_scale_spec`).
pub fn auto_scale(width: u32, height: u32) -> (s: u32)
    ensures
        s == auto_scale_spec(width, height),
{
    let longer = if width >= height { width } else { height };
    if longer <= 256 { 4 } else { 2 }
}

/// Whether a texture is first sent to the AI enhancer: never under `Lanczos`, and under `Ai`
/// or `Auto` only when it is not a data map.
pub open spec fn wants_ai_spec(engine: RegenEngine, png_rel: Seq<char>) -> bool {
    match engine {
        RegenEngine::Lanczos => false,
        _ => !data_map_name(png_rel),
    }
}

/// Whether a texture is first sent to the AI enhancer (see `wants_ai_spec`).
pub fn wants_ai(engine: RegenEngine, png_rel: &str) -> (b: bool)
    ensures
        b == wants_ai_spec(engine, png_rel@),
{
    match engine {
        RegenEngine::Lanczos => false,
        _ => !is_data_map(png_rel),
    }
}

/// How an attempt at the AI enhancer went.
#[derive(Debug, Clone, Copy, PartialEq, Eq, Structural)]
pub enum AiOutcome {
    /// No API key is configured.
    NotConfigured,
    /// The enhancer was called and failed.
    Failed,
    /// The enhancer gave an image.
    Succeeded,
}

/// What regenerating does after an attempt at the AI enhancer.
#[derive(Debug, Clone, Copy, PartialEq, Eq, Structural)]
pub enum RegenNext {
    /// Keep the enhancer's image.
    KeepAi,
    /// Fail with the enhancer's error, or for want of a key.
    GiveUp,
    /// Fall back to the local upscale.
    Upscale,
}

/// After an AI attempt: its image is kept when it succeeded; under `Ai` any failure (a failed
/// call, no key) is final; under the other engines regenerating falls back to the local upscale.
pub open spec fn regen_next_spec(engine: RegenEngine, outcome: AiOutcome) -> RegenNext {
    match outcome {
        AiOutcome::Succeeded => RegenNext::KeepAi,
        _ => if engine == RegenEngine::Ai { RegenNext::GiveUp } else { RegenNext::Upscale },
    }
}

/// What regenerating does after an AI attempt (see `regen_next_spec`).
pub fn regen_next(engine: RegenEngine, outcome: AiOutcome) -> (r: RegenNext)
    ensures
        r == regen_next_spec(engine, outcome),
{
    match outcome {
        AiOutcome::Succeeded => RegenNext::KeepAi,
        _ => match engine {
            RegenEngine::Ai => RegenNext::GiveUp,
            _ => RegenNext::Upscale,
        },
    }
}

// ---------------------------------------------------------------------------------------
// The review page
// ---------------------------------------------------------------------------------------

/// `n` in decimal, without leading zeros.
pub open spec fn decimal(n: nat) -> Seq<char>
    decreases n,
{
    if n < 10 {
        seq![digit_char(n as int)]
    } else {
        decimal(n / 10).push(digit_char((n % 10) as int))
    }
}

fn push_decimal(s: &mut String, n: usize)
    ensures
        final(s)@ == old(s)@ + decimal(n as nat),
    decreases n,
{
    if n >= 10 {
        push_decimal(s, n / 10);
    }
    let d: u8 = (48 + n % 10) as u8;
    assert(d as char == digit_char(n as int % 10));
    let ghost before = s@;
    string_push(s, d as char);
    proof {
        if n >= 10 {
            assert(s@ =~= old(s)@ + decimal(n as nat));
        } else {
            assert(s@ =~= old(s)@ + decimal(n as nat));
        }
    }
}

/// A PNG as an `img` source.
pub open spec fn png_source(bytes: Seq<u8>) -> Seq<char> {
    "data:image/png;base64,"@ + b64(bytes)
}

/// One changed texture on the review page: its entry path (HTML-escaped) over its original
/// and edited PNGs side by side, both embedded.
pub open spec fn review_row_spec(entry_path: Seq<char>, original: Seq<u8>, edited: Seq<u8>) -> Seq<char> {
    "<div class=\"row\"><h3>"@ + html_escaped(entry_path) + "</h3><div class=\"pair\">\n<figure><img src=\""@
        + png_source(original) + "\"><figcaption>original</figcaption></figure>\n<figure><img src=\""@
        + png_source(edited) + "\"><figcaption>edited</figcaption></figure>\n</div></div>\n"@
}

/// The review page's row for one changed texture (see `review_row_spec`).
pub fn review_row(entry_path: &str, original: &[u8], edited: &[u8]) -> (s: String)
    ensures
        s@ == review_row_spec(entry_path@, original@, edited@),
{
    let mut s = String::from_str("<div class=\"row\"><h3>");
    let esc = html_escape(entry_path);
    s.append(esc.as_str());
    s.append("</h3><div class=\"pair\">\n<figure><img src=\"");
    s.append("data:image/png;base64,");
    let a = base64_encode(original);
    s.append(a.as_str());
    s.append("\"><figcaption>original</figcaption></figure>\n<figure><img src=\"");
    s.append("data:image/png;base64,");
    let b = base64_encode(edited);
    s.append(b.as_str());
    s.append("\"><figcaption>edited</figcaption></figure>\n</div></div>\n");
    s
}

/// The head of the review page, up to the heading's count.
pub open spec fn review_head() -> Seq<char> {
    "<!doctype html>\n<html><head><meta charset=\"utf-8\"><title>RisenLab texture review</title>\n<style>\nbody { font-family: sans-serif; background: #111; color: #eee; padding: 1rem; }\n.row { margin-bottom: 2rem; border-bottom: 1px solid #333; padding-bottom: 1rem; }\n.pair { display: flex; gap: 1rem; flex-wrap: wrap; }\nfigure { margin: 0; }\nimg { max-width: 400px; max-height: 400px; image-rendering: pixelated; border: 1px solid #444; }\nfigcaption { text-align: center; color: #999; }\n</style></head>\n<body>\n<h1>"@
}

/// The whole review page: its head, the number of changed textures in its heading, then
/// their rows.
pub open spec fn review_page_spec(changed_count: nat, rows: Seq<char>) -> Seq<char> {
    review_head() + decimal(changed_count) + " changed texture(s)</h1>\n"@ + rows + "\n</body></html>\n"@
}

/// The review page for `changed_count` changed textures whose rows are `rows` (see
/// `review_page_spec`).
pub fn review_page(changed_count: usize, rows: &str) -> (s: String)
    ensures
        s@ == review_page_spec(changed_count as nat, rows@),
{
    let mut s = String::from_str("<!doctype html>\n<html><head><meta charset=\"utf-8\"><title>RisenLab texture review</title>\n<style>\nbody { font-family: sans-serif; background: #111; color: #eee; padding: 1rem; }\n.row { margin-bottom: 2rem; border-bottom: 1px solid #333; padding-bottom: 1rem; }\n.pair { display: flex; gap: 1rem; flex-wrap: wrap; }\nfigure { margin: 0; }\nimg { max-width: 400px; max-height: 400px; image-rendering: pixelated; border: 1px solid #444; }\nfigcaption { text-align: center; color: #999; }\n</style></head>\n<body>\n<h1>");
    push_decimal(&mut s, changed_count);
    s.append(" changed texture(s)</h1>\n");
    s.append(rows);
    s.append("\n</body></html>\n");
    s
}

} // verus!
