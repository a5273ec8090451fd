//! Text rules of the AI texture enhancement: which textures are data maps that must stay
//! on the local path, and the per-texture prompts img2img models get, built from the
//! texture's own library name (its category, and for a monster texture the creature's name),
//! and the text part of the AI settings. Talking to the providers stays with the caller.

use vstd::prelude::*;
use vstd::utf8::encode_utf8;
use crate::text::{chars_of, string_push, str_equal, string_from_chars};
use crate::batch::{trim_ws, trim_text};

verus! {

// ---------------------------------------------------------------------------------------
// std text functions whose results are named here
// ---------------------------------------------------------------------------------------

/// What `str::to_lowercase` gives for a string (Unicode lowercase mapping).
pub uninterp spec fn lowercase_of(s: Seq<char>) -> Seq<char>;

/// What `char::is_alphanumeric` says of a character (Unicode Alphabetic or Numeric).
pub uninterp spec fn alphanumeric(c: char) -> bool;

/// What `Path::file_stem` gives for a path under the path rules of the platform the library
/// is built for: the last component without its extension.
pub uninterp spec fn file_stem_of(p: Seq<char>) -> Option<Seq<char>>;

/// `str::to_lowercase`. Claimed: the result depends on the text alone (`lowercase_of`);
/// on ASCII text it is the ASCII lowercase (`A`-`Z` to `a`-`z`, every other character kept),
/// as Unicode's lowercase mapping is there. Other text is not described further.
#[verifier::external_body]
pub(crate) fn to_lowercase(s: &str) -> (t: String)
    ensures
        t@ == lowercase_of(s@),
        (forall|i: int| 0 <= i < s@.len() ==> (#[trigger] s@[i] as u32) < 128) ==> t@ == crate::text::lower_text(s@),
{
    s.to_lowercase()
}

/// `char::is_alphanumeric`. Claimed: the answer depends on the character alone
/// (`alphanumeric`); for an ASCII character it is whether it is a letter or a digit.
#[verifier::external_body]
fn is_alphanumeric(c: char) -> (b: bool)
    ensures
        b == alphanumeric(c),
        (c as u32) < 128 ==> (b <==> (('a' <= c && c <= 'z') || ('A' <= c && c <= 'Z') || ('0' <= c && c <= '9'))),
{
    c.is_alphanumeric()
}

/// `Path::new(p).file_stem()`, taken as text (a stem of a `&str` path is valid UTF-8).
/// Claimed: the result depends on the path alone and is `file_stem_of(p)`.
#[verifier::external_body]
pub(crate) fn path_file_stem(p: &str) -> (r: Option<String>)
    ensures
        r is None ==> file_stem_of(p@) is None,
        r matches Some(s) ==> file_stem_of(p@) == Some(s@),
{
    std::path::Path::new(p).file_stem().and_then(|s| s.to_str()).map(|s| s.to_string())
}

// ---------------------------------------------------------------------------------------
// Substrings
// ---------------------------------------------------------------------------------------

/// `needle` occurs somewhere in `hay`.
pub open spec fn has_text(hay: Seq<char>, needle: Seq<char>) -> bool {
    exists|i: int| 0 <= i && i + needle.len() <= hay.len() && #[trigger] hay.subrange(i, i + needle.len()) == needle
}

/// Whether `needle` occurs in `hay`.
pub fn text_contains(hay: &str, needle: &str) -> (b: bool)
    ensures
        b == has_text(hay@, needle@),
{
    let h = chars_of(hay);
    let n = chars_of(needle);
    if n.len() > h.len() {
        proof {
            assert forall|i: int| 0 <= i && i + n@.len() <= h@.len() implies #[trigger] h@.subrange(i, i + n@.len()) != n@ by {}
        }
        return false;
    }
    let hl = h.len();
    let mut i: usize = 0;
    while i <= h.len() - n.len()
        invariant
            hl == h@.len(),
            h@ == hay@,
            n@ == needle@,
            n@.len() <= h@.len(),
            i <= h@.len() - n@.len() + 1,
            forall|j: int| 0 <= j < i ==> #[trigger] h@.subrange(j, j + n@.len()) != n@,
        decreases h.len() - n.len() + 1 - i,
    {
        let mut k: usize = 0;
        let mut same = true;
        while k < n.len()
            invariant
                k <= n@.len(),
                hl == h@.len(),
                i + n@.len() <= h@.len(),
                same == forall|t: int| 0 <= t < k ==> h@[i + t] == n@[t],
            decreases n.len() - k,
        {
            if h[i + k] != n[k] {
                same = false;
            }
            k += 1;
        }
        if same {
            proof {
                assert(h@.subrange(i as int, i + n@.len()) =~= n@);
            }
            return true;
        }
        proof {
            let t = choose|t: int| 0 <= t < n@.len() && h@[i + t] != n@[t];
            assert(h@.subrange(i as int, i + n@.len())[t] != n@[t]);
        }
        i += 1;
    }
    false
}

// ---------------------------------------------------------------------------------------
// Data maps
// ---------------------------------------------------------------------------------------

/// A normal or specular map (by name): AI image models would destroy the vectors it encodes.
pub open spec fn data_map_name(p: Seq<char>) -> bool {
    let l = lowercase_of(p);
    has_text(l, "_normal"@) || has_text(l, "_specular"@) || has_text(l, "_nm_"@)
}

/// Whether a texture is a data map (normal/specular) that must stay on the local path.
pub fn is_data_map(png_rel: &str) -> (b: bool)
    ensures
        b == data_map_name(png_rel@),
{
    let lower = to_lowercase(png_rel);
    text_contains(lower.as_str(), "_normal") || text_contains(lower.as_str(), "_specular")
        || text_contains(lower.as_str(), "_nm_")
}

// ---------------------------------------------------------------------------------------
// Categories and creature names
// ---------------------------------------------------------------------------------------

/// The category words for a lowercased texture name, by the library's naming conventions.
pub open spec fn category_of(l: Seq<char>) -> Option<Seq<char>> {
    if has_text(l, "monster"@) || has_text(l, "wolf"@) || has_text(l, "ogre"@) {
        Some("creature skin, fur and hide of a fantasy monster"@)
    } else if has_text(l, "head"@) || has_text(l, "face"@) || has_text(l, "hero"@) || has_text(l, "npc"@) {
        Some("realistic human skin, face and hair"@)
    } else if has_text(l, "armor"@) || has_text(l, "wpn"@) || has_text(l, "weapon"@) || has_text(l, "sword"@)
        || has_text(l, "axe"@) {
        Some("weathered metal, steel and leather of medieval weapons and armor"@)
    } else if has_text(l, "nat_"@) || has_text(l, "stone"@) || has_text(l, "rock"@) || has_text(l, "tree"@)
        || has_text(l, "plant"@) {
        Some("natural rock, stone, bark and foliage surfaces"@)
    } else if has_text(l, "arch"@) || has_text(l, "wall"@) || has_text(l, "house"@) || has_text(l, "building"@) {
        Some("medieval architecture: plaster, brick, carved stone and timber"@)
    } else if has_text(l, "cloth"@) || has_text(l, "cape"@) || has_text(l, "robe"@) {
        Some("woven cloth, linen and rough medieval fabric"@)
    } else {
        None
    }
}

fn any_of(l: &str, words: &Vec<&str>) -> (b: bool)
    ensures
        b == exists|k: int| 0 <= k < words@.len() && has_text(l@, (#[trigger] words@[k])@),
{
    let mut i: usize = 0;
    while i < words.len()
        invariant
            i <= words@.len(),
            forall|k: int| 0 <= k < i ==> !has_text(l@, (#[trigger] words@[k])@),
        decreases words.len() - i,
    {
        if text_contains(l, words[i]) {
            return true;
        }
        i += 1;
    }
    false
}

/// The category words for a lowercased texture name (see `category_of`).
fn texture_category(lower: &str) -> (r: Option<String>)
    ensures
        match category_of(lower@) {
            None => r is None,
            Some(c) => r matches Some(s) && s@ == c,
        },
{
    let w1 = vec!["monster", "wolf", "ogre"];
    if any_of(lower, &w1) {
        proof {
            let k = choose|k: int| 0 <= k < w1@.len() && has_text(lower@, (#[trigger] w1@[k])@);
            assert(k == 0 || k == 1 || k == 2);
        }
        return Some(String::from_str("creature skin, fur and hide of a fantasy monster"));
    }
    proof {
        assert(!has_text(lower@, w1@[0]@) && !has_text(lower@, w1@[1]@) && !has_text(lower@, w1@[2]@));
    }
    let w2 = vec!["head", "face", "hero", "npc"];
    if any_of(lower, &w2) {
        proof {
            let k = choose|k: int| 0 <= k < w2@.len() && has_text(lower@, (#[trigger] w2@[k])@);
            assert(k == 0 || k == 1 || k == 2 || k == 3);
        }
        return Some(String::from_str("realistic human skin, face and hair"));
    }
    proof {
        assert(!has_text(lower@, w2@[0]@) && !has_text(lower@, w2@[1]@) && !has_text(lower@, w2@[2]@)
            && !has_text(lower@, w2@[3]@));
    }
    let w3 = vec!["armor", "wpn", "weapon", "sword", "axe"];
    if any_of(lower, &w3) {
        proof {
            let k = choose|k: int| 0 <= k < w3@.len() && has_text(lower@, (#[trigger] w3@[k])@);
            assert(k == 0 || k == 1 || k == 2 || k == 3 || k == 4);
        }
        return Some(String::from_str("weathered metal, steel and leather of medieval weapons and armor"));
    }
    proof {
        assert(!has_text(lower@, w3@[0]@) && !has_text(lower@, w3@[1]@) && !has_text(lower@, w3@[2]@)
            && !has_text(lower@, w3@[3]@) && !has_text(lower@, w3@[4]@));
    }
    let w4 = vec!["nat_", "stone", "rock", "tree", "plant"];
    if any_of(lower, &w4) {
        proof {
            let k = choose|k: int| 0 <= k < w4@.len() && has_text(lower@, (#[trigger] w4@[k])@);
            assert(k == 0 || k == 1 || k == 2 || k == 3 || k == 4);
        }
        return Some(String::from_str("natural rock, stone, bark and foliage surfaces"));
    }
    proof {
        assert(!has_text(lower@, w4@[0]@) && !has_text(lower@, w4@[1]@) && !has_text(lower@, w4@[2]@)
            && !has_text(lower@, w4@[3]@) && !has_text(lower@, w4@[4]@));
    }
    let w5 = vec!["arch", "wall", "house", "building"];
    if any_of(lower, &w5) {
        proof {
            let k = choose|k: int| 0 <= k < w5@.len() && has_text(lower@, (#[trigger] w5@[k])@);
            assert(k == 0 || k == 1 || k == 2 || k == 3);
        }
        return Some(String::from_str("medieval architecture: plaster, brick, carved stone and timber"));
    }
    proof {
        assert(!has_text(lower@, w5@[0]@) && !has_text(lower@, w5@[1]@) && !has_text(lower@, w5@[2]@)
            && !has_text(lower@, w5@[3]@));
    }
    let w6 = vec!["cloth", "cape", "robe"];
    if any_of(lower, &w6) {
        proof {
            let k = choose|k: int| 0 <= k < w6@.len() && has_text(lower@, (#[trigger] w6@[k])@);
            assert(k == 0 || k == 1 || k == 2);
        }
        return Some(String::from_str("woven cloth, linen and rough medieval fabric"));
    }
    proof {
        assert(!has_text(lower@, w6@[0]@) && !has_text(lower@, w6@[1]@) && !has_text(lower@, w6@[2]@));
    }
    None
}

/// Splitting on non-alphanumeric characters so far: the tokens completed, and the run in
/// progress.
pub open spec fn token_state(s: Seq<char>) -> (Seq<Seq<char>>, Seq<char>)
    decreases s.len(),
{
    if s.len() == 0 {
        (Seq::empty(), Seq::empty())
    } else {
        let (done, cur) = token_state(s.drop_last());
        let c = s.last();
        if alphanumeric(c) {
            (done, cur.push(c))
        } else if cur.len() > 0 {
            (done.push(cur), Seq::empty())
        } else {
            (done, Seq::empty())
        }
    }
}

/// The non-empty runs of alphanumeric characters of `s`, in order.
pub open spec fn alnum_tokens(s: Seq<char>) -> Seq<Seq<char>> {
    let (done, cur) = token_state(s);
    if cur.len() > 0 {
        done.push(cur)
    } else {
        done
    }
}

fn split_alnum(s: &str) -> (v: Vec<String>)
    ensures
        v@.map_values(|t: String| t@) == alnum_tokens(s@),
{
    let cs = chars_of(s);
    let mut done: Vec<String> = Vec::new();
    let mut cur: Vec<char> = Vec::new();
    let mut i: usize = 0;
    while i < cs.len()
        invariant
            cs@ == s@,
            i <= cs@.len(),
            done@.map_values(|t: String| t@) == token_state(cs@.take(i as int)).0,
            cur@ == token_state(cs@.take(i as int)).1,
        decreases cs.len() - i,
    {
        let ghost st = token_state(cs@.take(i as int));
        proof {
            assert(cs@.take(i + 1).drop_last() =~= cs@.take(i as int));
            assert(cs@.take(i + 1).last() == cs@[i as int]);
        }
        let c = cs[i];
        if is_alphanumeric(c) {
            cur.push(c);
            proof {
                assert(token_state(cs@.take(i + 1)) == (st.0, st.1.push(c)));
            }
        } else if cur.len() > 0 {
            let ghost before = done@.map_values(|t: String| t@);
            let t = string_from_chars(cur.as_slice(), 0, cur.len());
            proof {
                assert(cur@.subrange(0, cur@.len() as int) =~= cur@);
                assert(token_state(cs@.take(i + 1)) == (st.0.push(st.1), Seq::<char>::empty()));
            }
            done.push(t);
            cur = Vec::new();
            proof {
                assert(done@.map_values(|t: String| t@) =~= before.push(t@));
            }
        } else {
            proof {
                assert(token_state(cs@.take(i + 1)) == (st.0, Seq::<char>::empty()));
            }
            cur = Vec::new();
        }
        proof {
            assert(cur@ == token_state(cs@.take(i + 1)).1);
        }
        i += 1;
    }
    proof {
        assert(cs@.take(cs@.len() as int) =~= cs@);
    }
    if cur.len() > 0 {
        let ghost before = done@.map_values(|t: String| t@);
        let t = string_from_chars(cur.as_slice(), 0, cur.len());
        proof {
            assert(cur@.subrange(0, cur@.len() as int) =~= cur@);
        }
        done.push(t);
        proof {
            assert(done@.map_values(|t: String| t@) =~= before.push(t@));
        }
    }
    done
}

/// Words a creature name is never spelled as (exact tokens, lowercase).
pub open spec fn name_skip_tokens() -> Seq<Seq<char>> {
    seq![
        "ani"@, "hero"@, "monster"@, "object"@, "it"@, "body"@, "comp"@, "composite"@, "claws"@,
        "claw"@, "eyes"@, "eye"@, "head"@, "diffuse"@, "normal"@, "normalmap"@, "specular"@,
        "billboard"@, "billboards"@,
    ]
}

/// ASCII digits only (true of the empty string).
pub open spec fn ascii_digits(s: Seq<char>) -> bool {
    forall|k: int| 0 <= k < s.len() ==> '0' <= #[trigger] s[k] <= '9'
}

/// A lowercased token that can be a creature's name: not a skip word, more than one byte
/// long, not `s` followed by digits (a variant suffix such as `s1`), not digits alone.
pub open spec fn name_candidate(l: Seq<char>) -> bool {
    &&& !name_skip_tokens().contains(l)
    &&& encode_utf8(l).len() > 1
    &&& !(l.len() > 0 && l[0] == 's' && ascii_digits(l.drop_first()))
    &&& !ascii_digits(l)
}

/// The first index at or after `i` whose lowercased token is `monster`.
pub open spec fn monster_from(lows: Seq<Seq<char>>, i: int) -> Option<int>
    decreases lows.len() - i,
{
    if i < 0 || i >= lows.len() {
        None
    } else if lows[i] == "monster"@ {
        Some(i)
    } else {
        monster_from(lows, i + 1)
    }
}

/// The first index at or after `i` whose lowercased token is a name candidate.
pub open spec fn candidate_from(lows: Seq<Seq<char>>, i: int) -> Option<int>
    decreases lows.len() - i,
{
    if i < 0 || i >= lows.len() {
        None
    } else if name_candidate(lows[i]) {
        Some(i)
    } else {
        candidate_from(lows, i + 1)
    }
}

/// The creature name in a monster texture's file name: the first name candidate after the
/// `monster` token of the file stem, as spelled in the name (`None` when the stem has no
/// `monster` token or no candidate after it).
pub open spec fn creature_name_of(p: Seq<char>) -> Option<Seq<char>> {
    match file_stem_of(p) {
        None => None,
        Some(stem) => {
            let toks = alnum_tokens(stem);
            let lows = toks.map_values(|t: Seq<char>| lowercase_of(t));
            match monster_from(lows, 0) {
                None => None,
                Some(m) => match candidate_from(lows, m + 1) {
                    None => None,
                    Some(k) => Some(toks[k]),
                },
            }
        },
    }
}

fn skip_list() -> (v: Vec<&'static str>)
    ensures
        v@.map_values(|t: &str| t@) == name_skip_tokens(),
{
    let v = vec![
        "ani", "hero", "monster", "object", "it", "body", "comp", "composite", "claws", "claw",
        "eyes", "eye", "head", "diffuse", "normal", "normalmap", "specular", "billboard",
        "billboards",
    ];
    assert(v@.map_values(|t: &str| t@) =~= name_skip_tokens());
    v
}

fn digits_only(cs: &Vec<char>, from: usize) -> (b: bool)
    requires
        from <= cs@.len(),
    ensures
        b == ascii_digits(cs@.subrange(from as int, cs@.len() as int)),
{
    let mut i = from;
    while i < cs.len()
        invariant
            from <= i <= cs@.len(),
            forall|k: int| from <= k < i ==> '0' <= #[trigger] cs@[k] <= '9',
        decreases cs.len() - i,
    {
        if cs[i] < '0' || cs[i] > '9' {
            proof {
                assert(cs@.subrange(from as int, cs@.len() as int)[i - from] == cs@[i as int]);
            }
            return false;
        }
        i += 1;
    }
    assert forall|k: int| 0 <= k < cs@.len() - from implies '0' <= #[trigger] cs@.subrange(from as int, cs@.len() as int)[k] <= '9' by {
        assert(cs@.subrange(from as int, cs@.len() as int)[k] == cs@[from + k]);
    }
    true
}

fn is_name_candidate(l: &String) -> (b: bool)
    ensures
        b == name_candidate(l@),
{
    let skips = skip_list();
    let mut i: usize = 0;
    while i < skips.len()
        invariant
            i <= skips@.len(),
            skips@.map_values(|t: &str| t@) == name_skip_tokens(),
            forall|k: int| 0 <= k < i ==> name_skip_tokens()[k] != l@,
        decreases skips.len() - i,
    {
        if str_equal(skips[i], l.as_str()) {
            proof {
                assert(name_skip_tokens()[i as int] == l@);
            }
            return false;
        }
        i += 1;
    }
    if l.as_str().as_bytes().len() <= 1 {
        return false;
    }
    let cs = chars_of(l.as_str());
    if cs.len() > 0 && cs[0] == 's' && digits_only(&cs, 1) {
        proof {
            assert(cs@.subrange(1, cs@.len() as int) =~= l@.drop_first());
        }
        return false;
    }
    proof {
        if cs@.len() > 0 && cs@[0] == 's' {
            assert(cs@.subrange(1, cs@.len() as int) =~= l@.drop_first());
        }
    }
    let all = digits_only(&cs, 0);
    proof {
        assert(cs@.subrange(0, cs@.len() as int) =~= l@);
    }
    !all
}

/// The creature name a monster texture's file name carries (see `creature_name_of`).
pub fn guess_creature_name(png_rel: &str) -> (r: Option<String>)
    ensures
        match creature_name_of(png_rel@) {
            None => r is None,
            Some(n) => r matches Some(s) && s@ == n,
        },
{
    let stem = match path_file_stem(png_rel) {
        None => return None,
        Some(s) => s,
    };
    let toks = split_alnum(stem.as_str());
    let ghost tv = toks@.map_values(|t: String| t@);
    let mut lows: Vec<String> = Vec::new();
    let mut i: usize = 0;
    while i < toks.len()
        invariant
            i <= toks@.len(),
            tv == toks@.map_values(|t: String| t@),
            lows@.map_values(|t: String| t@) == tv.take(i as int).map_values(|t: Seq<char>| lowercase_of(t)),
        decreases toks.len() - i,
    {
        let ghost before = lows@.map_values(|t: String| t@);
        let l = to_lowercase(toks[i].as_str());
        lows.push(l);
        proof {
            assert(lows@.map_values(|t: String| t@) =~= before.push(lowercase_of(tv[i as int])));
            assert(tv.take(i + 1).map_values(|t: Seq<char>| lowercase_of(t)) =~= tv.take(i as int).map_values(
                |t: Seq<char>| lowercase_of(t),
            ).push(lowercase_of(tv[i as int])));
        }
        i += 1;
    }
    let ghost lv = tv.map_values(|t: Seq<char>| lowercase_of(t));
    proof {
        assert(tv.take(tv.len() as int) =~= tv);
        assert(lows@.map_values(|t: String| t@) == lv);
    }
    let mut m: usize = 0;
    while m < lows.len() && !str_equal(lows[m].as_str(), "monster")
        invariant
            m <= lows@.len(),
            lows@.map_values(|t: String| t@) == lv,
            monster_from(lv, 0) == monster_from(lv, m as int),
        decreases lows.len() - m,
    {
        proof {
            assert(lv[m as int] == lows@[m as int]@);
        }
        m += 1;
    }
    if m == lows.len() {
        return None;
    }
    proof {
        assert(lv[m as int] == lows@[m as int]@);
    }
    let mut k = m + 1;
    while k < lows.len() && !is_name_candidate(&lows[k])
        invariant
            m < k <= lows@.len(),
            lows@.map_values(|t: String| t@) == lv,
            candidate_from(lv, m + 1) == candidate_from(lv, k as int),
        decreases lows.len() - k,
    {
        proof {
            assert(lv[k as int] == lows@[k as int]@);
        }
        k += 1;
    }
    if k == lows.len() {
        return None;
    }
    proof {
        assert(lv[k as int] == lows@[k as int]@);
        assert(tv[k as int] == toks@[k as int]@);
    }
    Some(toks[k].clone())
}

// ---------------------------------------------------------------------------------------
// Prompts
// ---------------------------------------------------------------------------------------

/// Appended to both prompts: the texture may be an atlas of separate crops, and nothing may
/// be invented.
pub open spec fn guardrails_text() -> Seq<char> {
    "\
This image is source material for a real video-game texture remaster — a UV-mapped surface \
asset, not concept art, a poster, or a character illustration. It may be a texture ATLAS: \
several separate, disconnected material crops (e.g. body/claws/eyes) tiled on a plain or black \
background, each its own independent region, not one coherent photo or scene. If so, repaint \
each region's own material in place and leave the plain/black background between them empty — \
never merge separate regions into one connected image, and never add new content to fill the \
gaps between them. Do not invent a face, eyes, mouth, or head that isn't already present in the \
source — a blurry limb, patch of hide, or color blob stays exactly that, not a creature \
portrait. Do not add extra creatures, characters, or figures anywhere in the image."@
}

fn guardrails() -> (s: String)
    ensures
        s@ == guardrails_text(),
{
    String::from_str("\
This image is source material for a real video-game texture remaster — a UV-mapped surface \
asset, not concept art, a poster, or a character illustration. It may be a texture ATLAS: \
several separate, disconnected material crops (e.g. body/claws/eyes) tiled on a plain or black \
background, each its own independent region, not one coherent photo or scene. If so, repaint \
each region's own material in place and leave the plain/black background between them empty — \
never merge separate regions into one connected image, and never add new content to fill the \
gaps between them. Do not invent a face, eyes, mouth, or head that isn't already present in the \
source — a blurry limb, patch of hide, or color blob stays exactly that, not a creature \
portrait. Do not add extra creatures, characters, or figures anywhere in the image.")
}

/// The subject line: the category words (or `fallback`), and for a monster texture with a
/// creature name, `"{category} — specifically a {name}-type creature"`.
pub open spec fn subject_text(p: Seq<char>, fallback: Seq<char>) -> Seq<char> {
    let l = lowercase_of(p);
    let category = match category_of(l) {
        Some(c) => c,
        None => fallback,
    };
    match creature_name_of(p) {
        Some(name) => if has_text(l, "monster"@) {
            category + " — specifically a "@ + name + "-type creature"@
        } else {
            category
        },
        None => category,
    }
}

/// The subject line of a texture (see `subject_text`).
pub fn texture_subject(png_rel: &str, fallback: &str) -> (s: String)
    ensures
        s@ == subject_text(png_rel@, fallback@),
{
    let lower = to_lowercase(png_rel);
    let category = match texture_category(lower.as_str()) {
        Some(c) => c,
        None => String::from_str(fallback),
    };
    match guess_creature_name(png_rel) {
        Some(name) => {
            if text_contains(lower.as_str(), "monster") {
                let mut s = category;
                s.append(" — specifically a ");
                s.append(name.as_str());
                s.append("-type creature");
                s
            } else {
                category
            }
        },
        None => category,
    }
}

/// The faithful prompt's text between the subject and the kept-colors demand.
pub open spec fn faithful_detail_text() -> Seq<char> {
    ". \
         Extremely detailed micro-surface: pronounced muscle definition, skin pores, \
         individual fur strands, fabric weave, metal scratches and stone grain where the \
         material calls for it — crisp, never smoothed or plastic-looking. Keep the "@
}

/// The faithful prompt's text after the kept-colors demand.
pub open spec fn faithful_layout_text() -> Seq<char> {
    ", layout, silhouette and UV boundaries as the original image, seamless \
         where the original is seamless, no new objects, no text, 4k quality. \
         "@
}

/// The faithful re-detail prompt for a texture.
pub open spec fn prompt_text(p: Seq<char>) -> Seq<char> {
    "High-resolution remaster of a video game texture: "@ + subject_text(p, "game asset surface material"@)
        + faithful_detail_text() + "EXACT same colors"@ + faithful_layout_text() + guardrails_text()
}

/// The prompt for img2img models re-detailing a texture faithfully: its subject, the
/// micro-detail wanted, the exact colors, layout and UV boundaries kept, and the guardrails.
pub fn texture_prompt(png_rel: &str) -> (s: String)
    ensures
        s@ == prompt_text(png_rel@),
{
    let mut s = String::from_str("High-resolution remaster of a video game texture: ");
    let subject = texture_subject(png_rel, "game asset surface material");
    s.append(subject.as_str());
    s.append(". \
         Extremely detailed micro-surface: pronounced muscle definition, skin pores, \
         individual fur strands, fabric weave, metal scratches and stone grain where the \
         material calls for it — crisp, never smoothed or plastic-looking. Keep the ");
    s.append("EXACT same colors");
    s.append(", layout, silhouette and UV boundaries as the original image, seamless \
         where the original is seamless, no new objects, no text, 4k quality. \
         ");
    let g = guardrails();
    s.append(g.as_str());
    s
}

/// Concept art of a whole scene (loading screens, menus), not an atlas of crops.
pub open spec fn full_scene_name(p: Seq<char>) -> bool {
    let l = lowercase_of(p);
    has_text(l, "gui"@) || has_text(l, "loadinghint"@) || has_text(l, "menu"@) || has_text(l, "splash"@)
}

/// Whether a texture is whole-scene concept art (see `full_scene_name`).
pub fn is_full_scene_texture(png_rel: &str) -> (b: bool)
    ensures
        b == full_scene_name(png_rel@),
{
    let lower = to_lowercase(png_rel);
    text_contains(lower.as_str(), "gui") || text_contains(lower.as_str(), "loadinghint")
        || text_contains(lower.as_str(), "menu") || text_contains(lower.as_str(), "splash")
}

/// The repaint prompt's opening, before its subject.
pub open spec fn repaint_opening_text() -> Seq<char> {
    "Completely repaint this video game image as a "@ + "brand-new"@ + ", dramatically higher-fidelity \
         "@
}

/// The repaint prompt's text between the subject and the silhouette it keeps.
pub open spec fn repaint_freshness_text() -> Seq<char> {
    ". Do not just sharpen or clean up the input — invent fresh micro-detail, fresh \
         material variation, fresh color depth, fresh wear and grime: a genuinely new piece of \
         concept-art-quality art. This MUST still depict the same subject, the same objects and \
         the same overall composition as the input image — a repaint of THIS specific picture, \
         never a different, unrelated scene or character. Only the exact colors and fine surface \
         detail should be freshly generated; the "@
}

/// The repaint prompt's text after the silhouette it keeps.
pub open spec fn repaint_keep_text() -> Seq<char> {
    ", pose, layout and subject identity \
         must stay recognizable. Extremely detailed, 4k quality, no text, no watermark, no frame, \
         no new unrelated objects, no different character. \
         "@
}

/// The subject a whole-scene image is repainted as.
pub open spec fn scene_subject_text() -> Seq<char> {
    "dark fantasy concept-art illustration — the same characters, objects and scene composition as the input, painted with dramatically richer detail"@
}

/// The repaint prompt for a texture.
pub open spec fn regenerate_prompt_text(p: Seq<char>) -> Seq<char> {
    if full_scene_name(p) {
        repaint_opening_text() + scene_subject_text() + repaint_freshness_text() + "silhouette"@
            + repaint_keep_text()
    } else {
        repaint_opening_text() + subject_text(
            p,
            "photorealistic game asset material, matching the input's own real subject matter"@,
        ) + repaint_freshness_text() + "silhouette"@ + repaint_keep_text() + guardrails_text()
    }
}

fn append_repaint_tail(s: &mut String)
    ensures
        final(s)@ == old(s)@ + repaint_freshness_text() + "silhouette"@ + repaint_keep_text(),
{
    s.append(". Do not just sharpen or clean up the input — invent fresh micro-detail, fresh \
         material variation, fresh color depth, fresh wear and grime: a genuinely new piece of \
         concept-art-quality art. This MUST still depict the same subject, the same objects and \
         the same overall composition as the input image — a repaint of THIS specific picture, \
         never a different, unrelated scene or character. Only the exact colors and fine surface \
         detail should be freshly generated; the ");
    s.append("silhouette");
    s.append(", pose, layout and subject identity \
         must stay recognizable. Extremely detailed, 4k quality, no text, no watermark, no frame, \
         no new unrelated objects, no different character. \
         ");
}

/// The prompt for repainting a texture as new art: only the silhouette, layout and subject
/// must survive; whole-scene art is described as a scene and gets no atlas guardrails.
pub fn texture_prompt_regenerate(png_rel: &str) -> (s: String)
    ensures
        s@ == regenerate_prompt_text(png_rel@),
{
    let full = is_full_scene_texture(png_rel);
    let mut s = String::from_str("Completely repaint this video game image as a ");
    s.append("brand-new");
    s.append(", dramatically higher-fidelity \
         ");
    if full {
        s.append("dark fantasy concept-art illustration — the same characters, objects and scene composition as the input, painted with dramatically richer detail");
        append_repaint_tail(&mut s);
    } else {
        let subject = texture_subject(png_rel, "photorealistic game asset material, matching the input's own real subject matter");
        s.append(subject.as_str());
        append_repaint_tail(&mut s);
        let g = guardrails();
        s.append(g.as_str());
    }
    s
}

/// `b` occurs in `a + b + c`.
proof fn lemma_has_text_between(a: Seq<char>, b: Seq<char>, c: Seq<char>)
    ensures
        has_text(a + b + c, b),
{
    assert((a + b + c).subrange(a.len() as int, (a.len() + b.len()) as int) =~= b);
}

/// Every faithful prompt, whatever the texture, asks for the exact same colors, layout and
/// UV boundaries, and carries the atlas guardrails.
pub proof fn lemma_prompt_keeps_colors_and_guardrails(p: Seq<char>)
    ensures
        has_text(prompt_text(p), "EXACT same colors"@),
        has_text(prompt_text(p), guardrails_text()),
{
    let head = "High-resolution remaster of a video game texture: "@ + subject_text(p, "game asset surface material"@)
        + faithful_detail_text();
    lemma_has_text_between(head, "EXACT same colors"@, faithful_layout_text() + guardrails_text());
    assert(head + "EXACT same colors"@ + (faithful_layout_text() + guardrails_text()) =~= prompt_text(p));
    lemma_has_text_between(head + "EXACT same colors"@ + faithful_layout_text(), guardrails_text(), Seq::empty());
    assert(head + "EXACT same colors"@ + faithful_layout_text() + guardrails_text() + Seq::<char>::empty()
        =~= prompt_text(p));
}

/// Every repaint prompt asks for brand-new art that keeps the silhouette; every one but a
/// whole-scene image's carries the atlas guardrails.
pub proof fn lemma_repaint_keeps_silhouette(p: Seq<char>)
    ensures
        has_text(regenerate_prompt_text(p), "brand-new"@),
        has_text(regenerate_prompt_text(p), "silhouette"@),
        !full_scene_name(p) ==> has_text(regenerate_prompt_text(p), guardrails_text()),
{
    let t = regenerate_prompt_text(p);
    let open = "Completely repaint this video game image as a "@;
    let after = ", dramatically higher-fidelity \
         "@;
    let subject = if full_scene_name(p) {
        scene_subject_text()
    } else {
        subject_text(p, "photorealistic game asset material, matching the input's own real subject matter"@)
    };
    let tail = if full_scene_name(p) {
        Seq::<char>::empty()
    } else {
        guardrails_text()
    };
    assert(t =~= repaint_opening_text() + subject + repaint_freshness_text() + "silhouette"@ + repaint_keep_text()
        + tail);
    lemma_has_text_between(open, "brand-new"@, after + subject + repaint_freshness_text() + "silhouette"@
        + repaint_keep_text() + tail);
    assert(open + "brand-new"@ + (after + subject + repaint_freshness_text() + "silhouette"@ + repaint_keep_text()
        + tail) =~= t);
    let before = repaint_opening_text() + subject + repaint_freshness_text();
    lemma_has_text_between(before, "silhouette"@, repaint_keep_text() + tail);
    assert(before + "silhouette"@ + (repaint_keep_text() + tail) =~= t);
    if !full_scene_name(p) {
        lemma_has_text_between(before + "silhouette"@ + repaint_keep_text(), guardrails_text(), Seq::empty());
        assert(before + "silhouette"@ + repaint_keep_text() + guardrails_text() + Seq::<char>::empty() =~= t);
    }
}

// ---------------------------------------------------------------------------------------
// The bearer-token config file
// ---------------------------------------------------------------------------------------

/// `s` with `\` and `"` backslash-escaped.
pub open spec fn escape_quoted(s: Seq<char>) -> Seq<char>
    decreases s.len(),
{
    if s.len() == 0 {
        Seq::empty()
    } else {
        let c = s.last();
        escape_quoted(s.drop_last()) + if c == '\\' {
            seq!['\\', '\\']
        } else if c == '"' {
            seq!['\\', '"']
        } else {
            seq![c]
        }
    }
}

/// The curl config file that carries the API key: one `header = "..."` line with the
/// `Authorization: Bearer` header, the key escaped.
pub open spec fn bearer_config_text(key: Seq<char>) -> Seq<char> {
    "header = \"Authorization: Bearer "@ + escape_quoted(key) + "\"\n"@
}

/// The contents of the curl `-K` config file carrying the bearer token.
pub fn bearer_config_contents(api_key: &str) -> (s: String)
    ensures
        s@ == bearer_config_text(api_key@),
{
    let cs = chars_of(api_key);
    let mut esc = String::new();
    let mut i: usize = 0;
    while i < cs.len()
        invariant
            cs@ == api_key@,
            i <= cs@.len(),
            esc@ == escape_quoted(cs@.take(i as int)),
        decreases cs.len() - i,
    {
        let c = cs[i];
        let ghost before = esc@;
        if c == '\\' {
            string_push(&mut esc, '\\');
            string_push(&mut esc, '\\');
        } else if c == '"' {
            string_push(&mut esc, '\\');
            string_push(&mut esc, '"');
        } else {
            string_push(&mut esc, c);
        }
        proof {
            assert(cs@.take(i + 1).drop_last() =~= cs@.take(i as int));
            assert(esc@ =~= escape_quoted(cs@.take(i + 1)));
        }
        i += 1;
    }
    proof {
        assert(cs@.take(cs@.len() as int) =~= cs@);
    }
    let mut s = String::from_str("header = \"Authorization: Bearer ");
    s.append(esc.as_str());
    s.append("\"\n");
    s
}

// ---------------------------------------------------------------------------------------
// Settings
// ---------------------------------------------------------------------------------------

/// The Replicate model used when none is configured.
pub open spec fn default_model() -> Seq<char> {
    "nightmareai/real-esrgan"@
}

/// The text part of an AI configuration: provider, API key and model.
#[derive(Debug, Clone, PartialEq, Eq)]
pub struct AiTextConfig {
    pub provider: String,
    pub api_key: String,
    pub model: String,
}

/// The configuration's text from the settings' values: none when the key is blank; else the
/// key trimmed, the model trimmed (the default model when missing or blank), and the provider
/// trimmed and lowercased (`replicate` when missing or blank).
pub open spec fn text_config_spec(provider: Option<Seq<char>>, api_key: Seq<char>, model: Option<Seq<char>>) -> Option<
    (Seq<char>, Seq<char>, Seq<char>),
> {
    let key = trim_ws(api_key);
    if key.len() == 0 {
        None
    } else {
        let m = match model {
            Some(m) => if trim_ws(m).len() > 0 {
                trim_ws(m)
            } else {
                default_model()
            },
            None => default_model(),
        };
        let p = match provider {
            Some(p) => if lowercase_of(trim_ws(p)).len() > 0 {
                lowercase_of(trim_ws(p))
            } else {
                "replicate"@
            },
            None => "replicate"@,
        };
        Some((p, key, m))
    }
}

/// The text part of an AI configuration (see `text_config_spec`).
pub fn text_config_from_parts(provider: Option<&str>, api_key: &str, model: Option<&str>) -> (r: Option<AiTextConfig>)
    ensures
        match text_config_spec(
            match provider {
                Some(p) => Some(p@),
                None => None,
            },
            api_key@,
            match model {
                Some(m) => Some(m@),
                None => None,
            },
        ) {
            None => r is None,
            Some((p, k, m)) => r matches Some(c) && c.provider@ == p && c.api_key@ == k && c.model@ == m,
        },
{
    let key = trim_text(api_key);
    if chars_of(key.as_str()).len() == 0 {
        return None;
    }
    let model_text = match model {
        Some(m) => {
            let t = trim_text(m);
            if chars_of(t.as_str()).len() > 0 {
                t
            } else {
                String::from_str("nightmareai/real-esrgan")
            }
        },
        None => String::from_str("nightmareai/real-esrgan"),
    };
    let provider_text = match provider {
        Some(p) => {
            let t = trim_text(p);
            let l = to_lowercase(t.as_str());
            if chars_of(l.as_str()).len() > 0 {
                l
            } else {
                String::from_str("replicate")
            }
        },
        None => String::from_str("replicate"),
    };
    Some(AiTextConfig { provider: provider_text, api_key: key, model: model_text })
}

// ---------------------------------------------------------------------------------------
// Model inputs
// ---------------------------------------------------------------------------------------

/// The kinds of Replicate model the enhancer tells apart, each with its own input fields.
#[derive(Debug, Clone, Copy, PartialEq, Eq, Structural)]
pub enum ModelFamily {
    /// An upscaler that adds detail under a prompt (`clarity` in its name).
    Clarity,
    /// A plain upscaler without a prompt (`esrgan` in its name).
    Esrgan,
    /// A restoration model with its own field names (`supir` in its name).
    Supir,
    /// Any other: a generic img2img model.
    Generic,
}

/// The family of a model, by its lowercased `owner/name`: `clarity`, then `esrgan`, then
/// `supir` in it, else generic img2img.
pub open spec fn model_family_spec(model: Seq<char>) -> ModelFamily {
    let l = lowercase_of(model);
    if has_text(l, "clarity"@) {
        ModelFamily::Clarity
    } else if has_text(l, "esrgan"@) {
        ModelFamily::Esrgan
    } else if has_text(l, "supir"@) {
        ModelFamily::Supir
    } else {
        ModelFamily::Generic
    }
}

/// The family of a model (see `model_family_spec`).
pub fn model_family(model: &str) -> (f: ModelFamily)
    ensures
        f == model_family_spec(model@),
{
    let l = to_lowercase(model);
    if text_contains(l.as_str(), "clarity") {
        ModelFamily::Clarity
    } else if text_contains(l.as_str(), "esrgan") {
        ModelFamily::Esrgan
    } else if text_contains(l.as_str(), "supir") {
        ModelFamily::Supir
    } else {
        ModelFamily::Generic
    }
}

/// What the negative prompts of atlas textures add: the invented figures img2img models
/// tend to paint into texture atlases.
pub open spec fn atlas_negative_terms() -> Seq<char> {
    "invented face, invented eyes, creature portrait, character illustration, bestiary, poster, collage of unrelated creatures, extra heads, extra figures, humanoid silhouette, connected scene across separate regions"@
}

/// The atlas terms appended to a negative prompt: none for whole-scene art.
pub open spec fn negative_suffix(png_rel: Seq<char>) -> Seq<char> {
    if full_scene_name(png_rel) {
        Seq::empty()
    } else {
        ", "@ + atlas_negative_terms()
    }
}

/// The negative prompt a model family gets for a texture: none for the plain upscaler, else
/// the family's (for generic img2img, the mode's) base terms followed by the atlas terms.
pub open spec fn negative_prompt_spec(f: ModelFamily, regenerate: bool, png_rel: Seq<char>) -> Option<Seq<char>> {
    match f {
        ModelFamily::Esrgan => None,
        ModelFamily::Clarity => Some(
            "blurry, smooth, plastic, different colors, changed layout, new objects, text, watermark"@ + negative_suffix(
                png_rel,
            ),
        ),
        ModelFamily::Supir => Some(
            "blurring, dirty, messy, worst quality, low quality, frames, watermark, signature, jpeg artifacts, deformed, lowres, over-smooth"@
                + negative_suffix(png_rel),
        ),
        ModelFamily::Generic => Some(
            if regenerate {
                "blurry, low detail, flat, plain, same as input, watermark, text, frame"@
            } else {
                "different colors, changed layout, new objects, text, watermark, frame, blurry"@
            } + negative_suffix(png_rel),
        ),
    }
}

/// The negative prompt for a texture (see `negative_prompt_spec`).
pub fn negative_prompt(f: ModelFamily, regenerate: bool, png_rel: &str) -> (r: Option<String>)
    ensures
        match negative_prompt_spec(f, regenerate, png_rel@) {
            None => r is None,
            Some(t) => r matches Some(s) && s@ == t,
        },
{
    let mut s = match f {
        ModelFamily::Esrgan => return None,
        ModelFamily::Clarity => String::from_str(
            "blurry, smooth, plastic, different colors, changed layout, new objects, text, watermark",
        ),
        ModelFamily::Supir => String::from_str(
            "blurring, dirty, messy, worst quality, low quality, frames, watermark, signature, jpeg artifacts, deformed, lowres, over-smooth",
        ),
        ModelFamily::Generic => if regenerate {
            String::from_str("blurry, low detail, flat, plain, same as input, watermark, text, frame")
        } else {
            String::from_str("different colors, changed layout, new objects, text, watermark, frame, blurry")
        },
    };
    if !is_full_scene_texture(png_rel) {
        s.append(", ");
        s.append(
            "invented face, invented eyes, creature portrait, character illustration, bestiary, poster, collage of unrelated creatures, extra heads, extra figures, humanoid silhouette, connected scene across separate regions",
        );
    }
    Some(s)
}

/// The prompt a texture gets: the repaint prompt in regenerate mode, else the faithful one.
pub fn prompt_for(regenerate: bool, png_rel: &str) -> (s: String)
    ensures
        s@ == (if regenerate { regenerate_prompt_text(png_rel@) } else { prompt_text(png_rel@) }),
{
    if regenerate {
        texture_prompt_regenerate(png_rel)
    } else {
        texture_prompt(png_rel)
    }
}

/// What to do with a Replicate prediction after reading its status.
#[derive(Debug, Clone, Copy, PartialEq, Eq, Structural)]
pub enum PredictionNext {
    /// It succeeded: download its output.
    Download,
    /// It failed or was canceled.
    Fail,
    /// It is still running but the time is up.
    GiveUp,
    /// It is still running: poll again.
    Poll,
}

/// The next step for a prediction with text status `status` (none when absent or not text),
/// given whether the time allowed is spent.
pub open spec fn prediction_next_spec(status: Option<Seq<char>>, timed_out: bool) -> PredictionNext {
    if status == Some("succeeded"@) {
        PredictionNext::Download
    } else if status == Some("failed"@) || status == Some("canceled"@) {
        PredictionNext::Fail
    } else if timed_out {
        PredictionNext::GiveUp
    } else {
        PredictionNext::Poll
    }
}

/// The next step for a prediction (see `prediction_next_spec`).
pub fn prediction_next(status: Option<&str>, timed_out: bool) -> (r: PredictionNext)
    ensures
        r == prediction_next_spec(
            match status {
                Some(t) => Some(t@),
                None => None,
            },
            timed_out,
        ),
{
    match status {
        Some(t) => if str_equal(t, "succeeded") {
            PredictionNext::Download
        } else if str_equal(t, "failed") || str_equal(t, "canceled") {
            PredictionNext::Fail
        } else if timed_out {
            PredictionNext::GiveUp
        } else {
            PredictionNext::Poll
        },
        None => if timed_out {
            PredictionNext::GiveUp
        } else {
            PredictionNext::Poll
        },
    }
}

} // verus!
