//! The desktop app's bookkeeping: where settings and review status live, the review queue of
//! AI-regenerated textures (pending / approved / rejected), and thumbnails as `data:` URLs.

use vstd::prelude::*;
use vstd::relations::sorted_by;
use crate::order::{views, sort_strings, text_order, lemma_text_order_total};
use crate::text::{chars_of, string_from_chars, string_push, str_equal};
use crate::batch::{texture_meta, texture_meta_spec, contents_at_path, TextureMetaError};
use crate::pak::PakArchive;
use crate::ximg::pixel_format_in_bounds;

verus! {

// ---------------------------------------------------------------------------------------
// Paths
// ---------------------------------------------------------------------------------------

/// `dir` joined with a relative `name`: a `/` in between unless `dir` is empty or already
/// ends with one.
pub open spec fn join_path(dir: Seq<char>, name: Seq<char>) -> Seq<char> {
    if dir.len() == 0 || dir.last() == '/' {
        dir + name
    } else {
        dir + seq!['/'] + name
    }
}

/// `dir` joined with `name` (see `join_path`).
pub fn join_path_str(dir: &str, name: &str) -> (s: String)
    ensures
        s@ == join_path(dir@, name@),
{
    let cs = chars_of(dir);
    let mut s = String::from_str(dir);
    if cs.len() > 0 && cs[cs.len() - 1] != '/' {
        string_push(&mut s, '/');
    }
    s.append(name);
    s
}

/// The settings file inside the app's config directory.
pub fn settings_path(config_dir: &str) -> (s: String)
    ensures
        s@ == join_path(config_dir@, "settings.json"@),
{
    join_path_str(config_dir, "settings.json")
}

/// The review-status sidecar inside the output directory.
pub fn review_status_path(output_dir: &str) -> (s: String)
    ensures
        s@ == join_path(output_dir@, "review_status.json"@),
{
    join_path_str(output_dir, "review_status.json")
}

// ---------------------------------------------------------------------------------------
// Settings
// ---------------------------------------------------------------------------------------

/// The app's settings: the game's exe (once picked), the output, patch and review-page
/// locations, the UI language, and the AI provider, key, model and creativity dial (kept as
/// the bits of its `f32` value).
#[derive(Debug, Clone, PartialEq, Eq)]
pub struct AppSettings {
    pub game_exe: Option<String>,
    pub output_dir: String,
    pub patch_dir: String,
    pub review_html: String,
    pub language: String,
    pub ai_provider: Option<String>,
    pub ai_api_key: Option<String>,
    pub ai_model: Option<String>,
    pub ai_creativity_bits: Option<u32>,
}

/// The settings of a fresh install in home folder `home`: the textures, patch and review page
/// on the Desktop under their `RisenLab-` names, Ukrainian, no game and no AI configured.
pub open spec fn default_settings_spec(home: Seq<char>, s: AppSettings) -> bool {
    let desktop = join_path(home, "Desktop"@);
    &&& s.game_exe is None
    &&& s.output_dir@ == join_path(desktop, "RisenLab-Textures"@)
    &&& s.patch_dir@ == join_path(desktop, "RisenLab-Patch"@)
    &&& s.review_html@ == join_path(desktop, "RisenLab-Review.html"@)
    &&& s.language@ == "uk"@
    &&& s.ai_provider is None && s.ai_api_key is None && s.ai_model is None && s.ai_creativity_bits is None
}

/// The default settings for home folder `home` (see `default_settings_spec`).
pub fn default_settings_for(home: &str) -> (s: AppSettings)
    ensures
        default_settings_spec(home@, s),
{
    let desktop = join_path_str(home, "Desktop");
    AppSettings {
        game_exe: None,
        output_dir: join_path_str(desktop.as_str(), "RisenLab-Textures"),
        patch_dir: join_path_str(desktop.as_str(), "RisenLab-Patch"),
        review_html: join_path_str(desktop.as_str(), "RisenLab-Review.html"),
        language: String::from_str("uk"),
        ai_provider: None,
        ai_api_key: None,
        ai_model: None,
        ai_creativity_bits: None,
    }
}

// ---------------------------------------------------------------------------------------
// Review status
// ---------------------------------------------------------------------------------------

/// The keys of a list of entries.
pub open spec fn entry_keys(e: Seq<(String, String)>) -> Seq<Seq<char>> {
    e.map_values(|p: (String, String)| p.0@)
}

/// The map a list of entries with distinct keys stands for.
pub open spec fn entries_map(e: Seq<(String, String)>) -> Map<Seq<char>, Seq<char>>
    decreases e.len(),
{
    if e.len() == 0 {
        Map::empty()
    } else {
        entries_map(e.drop_last()).insert(e.last().0@, e.last().1@)
    }
}

/// A map from text to text, keys distinct, in insertion order.
pub struct TextMap {
    entries: Vec<(String, String)>,
}

/// The review status of each png (`"approved"`, `"rejected"`, ...), by its path relative to
/// the output directory.
pub type ReviewStatusMap = TextMap;

impl TextMap {
    /// Keys are distinct.
    pub closed spec fn wf(&self) -> bool {
        entry_keys(self.entries@).no_duplicates()
    }

    /// The statuses as a map.
    pub closed spec fn view_map(&self) -> Map<Seq<char>, Seq<char>> {
        entries_map(self.entries@)
    }

    proof fn lemma_map_lookup(e: Seq<(String, String)>, k: int)
        requires
            entry_keys(e).no_duplicates(),
            0 <= k < e.len(),
        ensures
            entries_map(e).contains_key(e[k].0@),
            entries_map(e)[e[k].0@] == e[k].1@,
        decreases e.len(),
    {
        if k < e.len() - 1 {
            assert(entry_keys(e.drop_last()) =~= entry_keys(e).drop_last());
            Self::lemma_map_lookup(e.drop_last(), k);
            assert(entry_keys(e)[k] != entry_keys(e)[e.len() - 1]);
        }
    }

    proof fn lemma_map_keys(e: Seq<(String, String)>, s: Seq<char>)
        ensures
            entries_map(e).contains_key(s) <==> entry_keys(e).contains(s),
        decreases e.len(),
    {
        if e.len() > 0 {
            let t = e.drop_last();
            Self::lemma_map_keys(t, s);
            assert(entry_keys(e) =~= entry_keys(t).push(e.last().0@));
            if entry_keys(e).contains(s) {
                let k = choose|k: int| 0 <= k < entry_keys(e).len() && entry_keys(e)[k] == s;
                if k < e.len() - 1 {
                    assert(entry_keys(t)[k] == s);
                } else {
                    assert(s == e.last().0@);
                }
            }
            if entry_keys(t).contains(s) {
                let k = choose|k: int| 0 <= k < entry_keys(t).len() && entry_keys(t)[k] == s;
                assert(entry_keys(e)[k] == s);
            }
            if s == e.last().0@ {
                assert(entry_keys(e)[e.len() - 1] == s);
            }
        }
    }

    /// No statuses.
    pub fn new() -> (m: TextMap)
        ensures
            m.wf(),
            m.view_map() == Map::<Seq<char>, Seq<char>>::empty(),
    {
        let m = TextMap { entries: Vec::new() };
        assert(entry_keys(m.entries@) =~= Seq::<Seq<char>>::empty());
        m
    }

    fn find(&self, key: &str) -> (r: Option<usize>)
        requires
            self.wf(),
        ensures
            r is None ==> !self.view_map().contains_key(key@),
            r matches Some(k) ==> k < self.entries@.len() && self.entries@[k as int].0@ == key@
                && self.view_map().contains_key(key@) && self.view_map()[key@] == self.entries@[k as int].1@,
    {
        let mut i: usize = 0;
        while i < self.entries.len()
            invariant
                i <= self.entries@.len(),
                entry_keys(self.entries@).no_duplicates(),
                forall|j: int| 0 <= j < i ==> self.entries@[j].0@ != key@,
            decreases self.entries.len() - i,
        {
            if str_equal(self.entries[i].0.as_str(), key) {
                proof {
                    Self::lemma_map_lookup(self.entries@, i as int);
                }
                return Some(i);
            }
            i += 1;
        }
        proof {
            Self::lemma_map_keys(self.entries@, key@);
            if entry_keys(self.entries@).contains(key@) {
                let k = choose|k: int| 0 <= k < entry_keys(self.entries@).len() && entry_keys(self.entries@)[k] == key@;
                assert(self.entries@[k].0@ == key@);
            }
        }
        None
    }

    /// Sets the status of `key`.
    pub fn insert(&mut self, key: String, value: String)
        requires
            old(self).wf(),
        ensures
            final(self).wf(),
            final(self).view_map() == old(self).view_map().insert(key@, value@),
    {
        match self.find(key.as_str()) {
            Some(k) => {
                let ghost e = self.entries@;
                let ghost kv = key@;
                let ghost vv = value@;
                self.entries.set(k, (key, value));
                proof {
                    let e2 = self.entries@;
                    assert(entry_keys(e2) =~= entry_keys(e));
                    assert forall|s: Seq<char>| #[trigger] entries_map(e2).contains_key(s) == entries_map(e).insert(kv, vv).contains_key(s) by {
                        Self::lemma_map_keys(e2, s);
                        Self::lemma_map_keys(e, s);
                    }
                    assert forall|s: Seq<char>| entries_map(e2).contains_key(s) implies #[trigger] entries_map(e2)[s] == entries_map(e).insert(kv, vv)[s] by {
                        Self::lemma_map_keys(e2, s);
                        let j = choose|j: int| 0 <= j < entry_keys(e2).len() && entry_keys(e2)[j] == s;
                        Self::lemma_map_lookup(e2, j);
                        if j != k {
                            assert(entry_keys(e2)[j] != entry_keys(e2)[k as int]);
                            assert(e2[j] == e[j]);
                            Self::lemma_map_lookup(e, j);
                        }
                    }
                    assert(entries_map(e2) =~= entries_map(e).insert(kv, vv));
                }
            },
            None => {
                let ghost e = self.entries@;
                self.entries.push((key, value));
                proof {
                    let e2 = self.entries@;
                    assert(e2.drop_last() =~= e);
                    assert(entry_keys(e2) =~= entry_keys(e).push(e2.last().0@));
                    Self::lemma_map_keys(e, e2.last().0@);
                }
            },
        }
    }

    /// The status of `key`, if it has one.
    pub fn get(&self, key: &str) -> (r: Option<String>)
        requires
            self.wf(),
        ensures
            match r {
                None => !self.view_map().contains_key(key@),
                Some(v) => self.view_map().contains_key(key@) && self.view_map()[key@] == v@,
            },
    {
        match self.find(key) {
            None => None,
            Some(k) => Some(self.entries[k].1.clone()),
        }
    }

    /// How many pngs have a status.
    pub fn len(&self) -> (n: usize)
        requires
            self.wf(),
        ensures
            n == self.view_map().dom().len(),
    {
        proof {
            Self::lemma_dom_len(self.entries@);
        }
        self.entries.len()
    }

    proof fn lemma_dom_len(e: Seq<(String, String)>)
        requires
            entry_keys(e).no_duplicates(),
        ensures
            entries_map(e).dom().finite(),
            entries_map(e).dom().len() == e.len(),
        decreases e.len(),
    {
        if e.len() > 0 {
            assert(entry_keys(e.drop_last()) =~= entry_keys(e).drop_last());
            Self::lemma_dom_len(e.drop_last());
            Self::lemma_map_keys(e.drop_last(), e.last().0@);
            if entry_keys(e.drop_last()).contains(e.last().0@) {
                let k = choose|k: int| 0 <= k < entry_keys(e.drop_last()).len() && entry_keys(e.drop_last())[k] == e.last().0@;
                assert(entry_keys(e)[k] == entry_keys(e)[e.len() - 1]);
            }
        }
    }

    /// Whether no png has a status.
    pub fn is_empty(&self) -> (b: bool)
        requires
            self.wf(),
        ensures
            b == (self.view_map().dom().len() == 0),
    {
        self.len() == 0
    }

    /// Every (png, status) pair, in no particular order.
    pub fn entries(&self) -> (v: Vec<(String, String)>)
        requires
            self.wf(),
        ensures
            entry_keys(v@).no_duplicates(),
            entries_map(v@) == self.view_map(),
    {
        let mut v: Vec<(String, String)> = Vec::new();
        let mut i: usize = 0;
        while i < self.entries.len()
            invariant
                i <= self.entries@.len(),
                entry_keys(self.entries@).no_duplicates(),
                entry_keys(v@) == entry_keys(self.entries@.take(i as int)),
                entries_map(v@) == entries_map(self.entries@.take(i as int)),
            decreases self.entries.len() - i,
        {
            let k = self.entries[i].0.clone();
            let s = self.entries[i].1.clone();
            let ghost before = v@;
            v.push((k, s));
            proof {
                let t = self.entries@.take(i + 1);
                assert(t.drop_last() =~= self.entries@.take(i as int));
                assert(v@.drop_last() =~= before);
                assert(entry_keys(v@) =~= entry_keys(before).push(k@));
                assert(entry_keys(t) =~= entry_keys(self.entries@.take(i as int)).push(t.last().0@));
                assert(entry_keys(v@) =~= entry_keys(t));
            }
            i += 1;
        }
        proof {
            assert(self.entries@.take(self.entries@.len() as int) =~= self.entries@);
        }
        v
    }
}

/// The status a png is shown with: its recorded one, `"pending"` when it has none.
pub open spec fn status_or_pending(m: Map<Seq<char>, Seq<char>>, png: Seq<char>) -> Seq<char> {
    if m.contains_key(png) {
        m[png]
    } else {
        "pending"@
    }
}

/// Every edited png, in order, with its status (`"pending"` when it has none yet).
pub fn review_queue_from(edited: &[String], status: &ReviewStatusMap) -> (q: Vec<(String, String)>)
    requires
        status.wf(),
    ensures
        q@.len() == edited@.len(),
        forall|i: int|
            0 <= i < q@.len() ==> (#[trigger] q@[i]).0@ == edited@[i]@ && q@[i].1@ == status_or_pending(
                status.view_map(),
                edited@[i]@,
            ),
{
    let mut q: Vec<(String, String)> = Vec::new();
    let mut i: usize = 0;
    while i < edited.len()
        invariant
            i <= edited@.len(),
            status.wf(),
            q@.len() == i,
            forall|j: int|
                0 <= j < i ==> (#[trigger] q@[j]).0@ == edited@[j]@ && q@[j].1@ == status_or_pending(
                    status.view_map(),
                    edited@[j]@,
                ),
        decreases edited.len() - i,
    {
        let s = match status.get(edited[i].as_str()) {
            Some(v) => v,
            None => String::from_str("pending"),
        };
        q.push((edited[i].clone(), s));
        i += 1;
    }
    q
}

/// Some entry before `n` has key `s` and status `"approved"`.
pub open spec fn approved_before(e: Seq<(String, String)>, n: int, s: Seq<char>) -> bool {
    exists|j: int| 0 <= j < n && e[j].0@ == s && e[j].1@ == "approved"@
}

proof fn lemma_approved_step(e: Seq<(String, String)>, i: int, s: Seq<char>)
    requires
        0 <= i < e.len(),
    ensures
        approved_before(e, i + 1, s) <==> approved_before(e, i, s) || (e[i].0@ == s && e[i].1@ == "approved"@),
{
    if approved_before(e, i + 1, s) {
        let j = choose|j: int| 0 <= j < i + 1 && e[j].0@ == s && e[j].1@ == "approved"@;
        if j < i {
            assert(approved_before(e, i, s));
        }
    }
    if approved_before(e, i, s) {
        let j = choose|j: int| 0 <= j < i && e[j].0@ == s && e[j].1@ == "approved"@;
        assert(approved_before(e, i + 1, s));
    }
}

/// The pngs marked `"approved"`, sorted, each once.
pub fn approved_pngs(status: &ReviewStatusMap) -> (v: Vec<String>)
    requires
        status.wf(),
    ensures
        sorted_by(views(v@), text_order()),
        views(v@).no_duplicates(),
        forall|s: Seq<char>|
            #[trigger] views(v@).contains(s) <==> status.view_map().contains_key(s)
                && status.view_map()[s] == "approved"@,
{
    let entries = status.entries();
    let mut keys: Vec<String> = Vec::new();
    let mut i: usize = 0;
    while i < entries.len()
        invariant
            i <= entries@.len(),
            entry_keys(entries@).no_duplicates(),
            views(keys@).no_duplicates(),
            forall|s: Seq<char>| #[trigger] views(keys@).contains(s) <==> approved_before(entries@, i as int, s),
        decreases entries.len() - i,
    {
        if str_equal(entries[i].1.as_str(), "approved") {
            let ghost before = views(keys@);
            let k = entries[i].0.clone();
            keys.push(k);
            proof {
                assert(views(keys@) =~= before.push(k@));
                assert(!before.contains(k@)) by {
                    if before.contains(k@) {
                        assert(approved_before(entries@, i as int, k@));
                        let j = choose|j: int| 0 <= j < i && entries@[j].0@ == k@ && entries@[j].1@ == "approved"@;
                        assert(entry_keys(entries@)[j] == entry_keys(entries@)[i as int]);
                    }
                }
                assert forall|s: Seq<char>| #[trigger] views(keys@).contains(s) <==> approved_before(entries@, i + 1, s) by {
                    lemma_approved_step(entries@, i as int, s);
                    if views(keys@).contains(s) && s != k@ {
                        let t = choose|t: int| 0 <= t < views(keys@).len() && views(keys@)[t] == s;
                        assert(before[t] == s);
                    }
                    if before.contains(s) {
                        let t = choose|t: int| 0 <= t < before.len() && before[t] == s;
                        assert(views(keys@)[t] == s);
                    }
                    if s == k@ {
                        assert(views(keys@)[before.len() as int] == s);
                    }
                }
            }
        } else {
            proof {
                assert forall|s: Seq<char>| #[trigger] views(keys@).contains(s) <==> approved_before(entries@, i + 1, s) by {
                    lemma_approved_step(entries@, i as int, s);
                }
            }
        }
        i += 1;
    }
    let ghost kv = views(keys@);
    let out = sort_strings(keys);
    proof {
        lemma_text_order_total();
        kv.lemma_sort_by_ensures(text_order());
        kv.lemma_multiset_has_no_duplicates();
        views(out@).lemma_multiset_has_no_duplicates_conv();
        assert forall|s: Seq<char>| #[trigger] views(out@).contains(s) <==> status.view_map().contains_key(s)
            && status.view_map()[s] == "approved"@ by {
            vstd::seq_lib::to_multiset_contains(views(out@), s);
            vstd::seq_lib::to_multiset_contains(kv, s);
            TextMap::lemma_entries_lookup(entries@, s);
            assert(kv.contains(s) <==> approved_before(entries@, entries@.len() as int, s));
        }
    }
    out
}

impl TextMap {
    proof fn lemma_entries_lookup(e: Seq<(String, String)>, s: Seq<char>)
        requires
            entry_keys(e).no_duplicates(),
        ensures
            approved_before(e, e.len() as int, s) <==> (entries_map(e).contains_key(s) && entries_map(e)[s]
                == "approved"@),
    {
        Self::lemma_map_keys(e, s);
        if approved_before(e, e.len() as int, s) {
            let j = choose|j: int| 0 <= j < e.len() && e[j].0@ == s && e[j].1@ == "approved"@;
            Self::lemma_map_lookup(e, j);
        }
        if entries_map(e).contains_key(s) && entries_map(e)[s] == "approved"@ {
            let j = choose|j: int| 0 <= j < entry_keys(e).len() && entry_keys(e)[j] == s;
            Self::lemma_map_lookup(e, j);
        }
    }
}

/// `s` with every `\` turned into `/`.
pub open spec fn posix_text(s: Seq<char>) -> Seq<char> {
    s.map_values(|c: char| if c == '\\' { '/' } else { c })
}

fn to_posix(s: &String) -> (t: String)
    ensures
        t@ == posix_text(s@),
{
    let cs = chars_of(s.as_str());
    let mut v: Vec<char> = Vec::new();
    let mut i: usize = 0;
    while i < cs.len()
        invariant
            cs@ == s@,
            i <= cs@.len(),
            v@ == posix_text(cs@.take(i as int)),
        decreases cs.len() - i,
    {
        let c = cs[i];
        v.push(if c == '\\' { '/' } else { c });
        proof {
            assert(posix_text(cs@.take(i + 1)) =~= posix_text(cs@.take(i as int)).push(
                if c == '\\' { '/' } else { c },
            ));
        }
        i += 1;
    }
    proof {
        assert(cs@.take(cs@.len() as int) =~= cs@);
    }
    string_from_chars(v.as_slice(), 0, v.len())
}

/// The edited pngs' paths relative to the output directory (as the caller found them under
/// `edited/`), sorted, then written with `/` separators.
pub fn list_edited_pngs(found: Vec<String>) -> (v: Vec<String>)
    ensures
        views(v@) == views(found@).sort_by(text_order()).map_values(|s: Seq<char>| posix_text(s)),
{
    let ghost fv = views(found@);
    let sorted = sort_strings(found);
    let mut v: Vec<String> = Vec::new();
    let mut i: usize = 0;
    while i < sorted.len()
        invariant
            i <= sorted@.len(),
            views(sorted@) == fv.sort_by(text_order()),
            views(v@) == views(sorted@).take(i as int).map_values(|s: Seq<char>| posix_text(s)),
        decreases sorted.len() - i,
    {
        let t = to_posix(&sorted[i]);
        let ghost before = views(v@);
        v.push(t);
        proof {
            assert(views(sorted@).take(i + 1) =~= views(sorted@).take(i as int).push(sorted@[i as int]@));
            assert(views(v@) =~= before.push(t@));
            assert(views(sorted@).take(i + 1).map_values(|s: Seq<char>| posix_text(s)) =~= views(
                sorted@,
            ).take(i as int).map_values(|s: Seq<char>| posix_text(s)).push(posix_text(sorted@[i as int]@)));
        }
        i += 1;
    }
    proof {
        assert(views(sorted@).take(sorted@.len() as int) =~= views(sorted@));
    }
    v
}

// ---------------------------------------------------------------------------------------
// Thumbnails as data: URLs
// ---------------------------------------------------------------------------------------

/// The base64 digit for a 6-bit value (`A-Z`, `a-z`, `0-9`, `+`, `/`).
pub open spec fn b64_digit(i: u32) -> char {
    if i < 26 {
        ((65 + i) as u8) as char
    } else if i < 52 {
        ((97 + i - 26) as u8) as char
    } else if i < 62 {
        ((48 + i - 52) as u8) as char
    } else if i == 62 {
        '+'
    } else {
        '/'
    }
}

/// The byte at `k`, or 0 past the end.
pub open spec fn byte_or_zero(d: Seq<u8>, k: int) -> u8 {
    if k < d.len() {
        d[k]
    } else {
        0
    }
}

/// The four characters chunk `c` (bytes `3c..3c+3`) encodes to, `=`-padded when the data
/// ends inside the chunk.
pub open spec fn b64_chunk(d: Seq<u8>, c: int) -> Seq<char> {
    let s = 3 * c;
    let n = ((d[s] as u32) << 16u32) | ((byte_or_zero(d, s + 1) as u32) << 8u32) | (byte_or_zero(d, s + 2) as u32);
    seq![
        b64_digit((n >> 18u32) & 0x3f),
        b64_digit((n >> 12u32) & 0x3f),
        if s + 1 < d.len() { b64_digit((n >> 6u32) & 0x3f) } else { '=' },
        if s + 2 < d.len() { b64_digit(n & 0x3f) } else { '=' },
    ]
}

/// The encodings of the first `k` chunks.
pub open spec fn b64_chunks(d: Seq<u8>, k: int) -> Seq<char>
    decreases k,
{
    if k <= 0 {
        Seq::empty()
    } else {
        b64_chunks(d, k - 1) + b64_chunk(d, k - 1)
    }
}

/// Standard base64 (with `=` padding) of `d`.
pub open spec fn b64(d: Seq<u8>) -> Seq<char> {
    b64_chunks(d, ((d.len() + 2) / 3) as int)
}

/// How many `=` end the base64 of `n` bytes: none for a whole number of 3-byte chunks, two
/// for one byte left over, one for two.
pub open spec fn b64_padding(n: nat) -> nat {
    if n % 3 == 0 {
        0
    } else if n % 3 == 1 {
        2
    } else {
        1
    }
}

proof fn lemma_b64_digit_not_pad(i: u32)
    requires
        i < 64,
    ensures
        b64_digit(i) != '=',
{
    if i < 26 {
        assert(((65 + i) as u8) as u32 == 65 + i);
    } else if i < 52 {
        assert(((97 + i - 26) as u8) as u32 == 97 + i - 26);
    } else if i < 62 {
        assert(((48 + i - 52) as u8) as u32 == 48 + i - 52);
    }
}

proof fn lemma_b64_chunks_index(d: Seq<u8>, k: int)
    requires
        0 <= k,
        3 * k <= d.len() + 2,
    ensures
        b64_chunks(d, k).len() == 4 * k,
        forall|i: int| 0 <= i < 4 * k ==> #[trigger] b64_chunks(d, k)[i] == b64_chunk(d, i / 4)[i % 4],
    decreases k,
{
    if k > 0 {
        lemma_b64_chunks_index(d, k - 1);
        let prev = b64_chunks(d, k - 1);
        assert forall|i: int| 0 <= i < 4 * k implies #[trigger] b64_chunks(d, k)[i] == b64_chunk(d, i / 4)[i % 4] by {
            if i < 4 * (k - 1) {
                assert(b64_chunks(d, k)[i] == prev[i]);
            } else {
                assert(i / 4 == k - 1);
                assert(b64_chunks(d, k)[i] == b64_chunk(d, k - 1)[i - 4 * (k - 1)]);
            }
        }
    }
}

/// Base64's shape: four characters for every started 3-byte chunk, the last
/// `b64_padding(n)` of them `=`, and no `=` anywhere else.
pub proof fn lemma_b64_shape(d: Seq<u8>)
    ensures
        b64(d).len() == 4 * ((d.len() + 2) / 3),
        forall|i: int|
            0 <= i < b64(d).len() ==> (#[trigger] b64(d)[i] == '=' <==> i >= b64(d).len() - b64_padding(d.len())),
{
    let n = d.len() as int;
    let k = (n + 2) / 3;
    lemma_b64_chunks_index(d, k);
    assert forall|i: int| 0 <= i < b64(d).len() implies (#[trigger] b64(d)[i] == '=' <==> i >= b64(d).len()
        - b64_padding(d.len())) by {
        let c = i / 4;
        let j = i % 4;
        assert(0 <= c < k);
        assert(3 * c < n);
        let s = 3 * c;
        let v = ((d[s] as u32) << 16u32) | ((byte_or_zero(d, s + 1) as u32) << 8u32) | (byte_or_zero(d, s + 2) as u32);
        assert((v >> 18u32) & 0x3f < 64 && (v >> 12u32) & 0x3f < 64 && (v >> 6u32) & 0x3f < 64 && v & 0x3f < 64)
            by (bit_vector);
        lemma_b64_digit_not_pad((v >> 18u32) & 0x3f);
        lemma_b64_digit_not_pad((v >> 12u32) & 0x3f);
        lemma_b64_digit_not_pad((v >> 6u32) & 0x3f);
        lemma_b64_digit_not_pad(v & 0x3f);
        assert(b64(d)[i] == b64_chunk(d, c)[j]);
        assert(i == 4 * c + j);
    }
}

/// The 6-bit value of a base64 digit (0 for a character that is none).
pub open spec fn b64_value(c: char) -> u32 {
    let x = c as u32;
    if 65 <= x <= 90 {
        (x - 65) as u32
    } else if 97 <= x <= 122 {
        (x - 71) as u32
    } else if 48 <= x <= 57 {
        (x + 4) as u32
    } else if c == '+' {
        62
    } else if c == '/' {
        63
    } else {
        0
    }
}

/// The bytes a group of four base64 characters decodes to: one, two or three, as the group
/// ends in two, one or no `=`.
pub open spec fn b64_group_bytes(g: Seq<char>) -> Seq<u8> {
    let v = (b64_value(g[0]) << 18u32) | (b64_value(g[1]) << 12u32) | ((if g[2] == '=' { 0 } else { b64_value(g[2]) })
        << 6u32) | (if g[3] == '=' { 0 } else { b64_value(g[3]) });
    let b0 = ((v >> 16u32) & 0xff) as u8;
    let b1 = ((v >> 8u32) & 0xff) as u8;
    let b2 = (v & 0xff) as u8;
    if g[2] == '=' {
        seq![b0]
    } else if g[3] == '=' {
        seq![b0, b1]
    } else {
        seq![b0, b1, b2]
    }
}

/// Standard base64 decoding of the first `k` four-character groups of `t`.
pub open spec fn b64_decode_upto(t: Seq<char>, k: int) -> Seq<u8>
    decreases k,
{
    if k <= 0 {
        Seq::empty()
    } else {
        b64_decode_upto(t, k - 1) + b64_group_bytes(t.subrange(4 * (k - 1), 4 * k))
    }
}

/// Standard base64 decoding of `t`, four characters at a time.
pub open spec fn b64_decode(t: Seq<char>) -> Seq<u8> {
    b64_decode_upto(t, (t.len() / 4) as int)
}

proof fn lemma_b64_value_digit(i: u32)
    requires
        i < 64,
    ensures
        b64_value(b64_digit(i)) == i,
{
    if i < 26 {
        assert(((65 + i) as u8) as u32 == 65 + i);
    } else if i < 52 {
        assert(((97 + i - 26) as u8) as u32 == 97 + i - 26);
    } else if i < 62 {
        assert(((48 + i - 52) as u8) as u32 == 48 + i - 52);
    }
}

proof fn lemma_b64_chunk_decodes(d: Seq<u8>, c: int)
    requires
        0 <= c,
        3 * c < d.len(),
    ensures
        b64_group_bytes(b64_chunk(d, c)) == d.subrange(3 * c, if 3 * c + 3 <= d.len() { 3 * c + 3 } else { d.len() as int }),
{
    let s = 3 * c;
    let x0 = d[s];
    let x1 = byte_or_zero(d, s + 1);
    let x2 = byte_or_zero(d, s + 2);
    let n = ((x0 as u32) << 16u32) | ((x1 as u32) << 8u32) | (x2 as u32);
    let a = (n >> 18u32) & 0x3f;
    let b = (n >> 12u32) & 0x3f;
    let cc = (n >> 6u32) & 0x3f;
    let e = n & 0x3f;
    assert(a < 64 && b < 64 && cc < 64 && e < 64) by (bit_vector)
        requires
            a == (n >> 18u32) & 0x3f,
            b == (n >> 12u32) & 0x3f,
            cc == (n >> 6u32) & 0x3f,
            e == n & 0x3f,
    ;
    lemma_b64_value_digit(a);
    lemma_b64_value_digit(b);
    lemma_b64_value_digit(cc);
    lemma_b64_value_digit(e);
    lemma_b64_digit_not_pad(cc);
    lemma_b64_digit_not_pad(e);
    let g = b64_chunk(d, c);
    let v_full = (a << 18u32) | (b << 12u32) | (cc << 6u32) | e;
    assert(((v_full >> 16u32) & 0xff) as u8 == x0 && ((v_full >> 8u32) & 0xff) as u8 == x1 && (v_full & 0xff) as u8 == x2)
        by (bit_vector)
        requires
            n == ((x0 as u32) << 16u32) | ((x1 as u32) << 8u32) | (x2 as u32),
            a == (n >> 18u32) & 0x3f,
            b == (n >> 12u32) & 0x3f,
            cc == (n >> 6u32) & 0x3f,
            e == n & 0x3f,
            v_full == (a << 18u32) | (b << 12u32) | (cc << 6u32) | e,
    ;
    let v_two = (a << 18u32) | (b << 12u32) | (cc << 6u32) | 0u32;
    assert(((v_two >> 16u32) & 0xff) as u8 == x0 && ((v_two >> 8u32) & 0xff) as u8 == x1) by (bit_vector)
        requires
            n == ((x0 as u32) << 16u32) | ((x1 as u32) << 8u32) | (x2 as u32),
            a == (n >> 18u32) & 0x3f,
            b == (n >> 12u32) & 0x3f,
            cc == (n >> 6u32) & 0x3f,
            v_two == (a << 18u32) | (b << 12u32) | (cc << 6u32) | 0u32,
    ;
    let v_one = (a << 18u32) | (b << 12u32) | (0u32 << 6u32) | 0u32;
    assert(((v_one >> 16u32) & 0xff) as u8 == x0) by (bit_vector)
        requires
            n == ((x0 as u32) << 16u32) | ((x1 as u32) << 8u32) | (x2 as u32),
            a == (n >> 18u32) & 0x3f,
            b == (n >> 12u32) & 0x3f,
            v_one == (a << 18u32) | (b << 12u32) | (0u32 << 6u32) | 0u32,
    ;
    if s + 2 < d.len() {
        assert(b64_group_bytes(g) =~= d.subrange(s, s + 3));
    } else if s + 1 < d.len() {
        assert(b64_group_bytes(g) =~= d.subrange(s, d.len() as int));
    } else {
        assert(b64_group_bytes(g) =~= d.subrange(s, d.len() as int));
    }
}

/// Decoding base64 gives the data back: `b64_decode(b64(d)) == d`.
pub proof fn lemma_b64_round_trip(d: Seq<u8>)
    ensures
        b64_decode(b64(d)) == d,
{
    let n = d.len() as int;
    let k = (n + 2) / 3;
    lemma_b64_chunks_index(d, k);
    let t = b64(d);
    assert(t.len() / 4 == k);
    assert forall|j: int| 0 <= j <= k implies #[trigger] b64_decode_upto(t, j) == d.subrange(
        0,
        if 3 * j <= n { 3 * j } else { n },
    ) by {
        lemma_b64_decode_prefix(d, j);
    }
    assert(d.subrange(0, n) =~= d);
}

proof fn lemma_b64_decode_prefix(d: Seq<u8>, j: int)
    requires
        0 <= j <= (d.len() + 2) / 3,
    ensures
        b64_decode_upto(b64(d), j) == d.subrange(0, if 3 * j <= d.len() { 3 * j } else { d.len() as int }),
    decreases j,
{
    let n = d.len() as int;
    let k = (n + 2) / 3;
    let t = b64(d);
    if j == 0 {
        assert(d.subrange(0, 0) =~= Seq::<u8>::empty());
    } else {
        lemma_b64_decode_prefix(d, j - 1);
        lemma_b64_chunks_index(d, k);
        let c = j - 1;
        assert(t.subrange(4 * c, 4 * c + 4) =~= b64_chunk(d, c)) by {
            assert forall|q: int| 0 <= q < 4 implies #[trigger] t.subrange(4 * c, 4 * c + 4)[q] == b64_chunk(d, c)[q] by {
                assert(t[4 * c + q] == b64_chunk(d, (4 * c + q) / 4)[(4 * c + q) % 4]);
            }
        }
        lemma_b64_chunk_decodes(d, c);
        let hi = if 3 * j <= n { 3 * j } else { n };
        assert(d.subrange(0, hi) =~= d.subrange(0, 3 * c) + d.subrange(3 * c, hi));
    }
}

fn b64_digit_exec(i: u32) -> (c: char)
    requires
        i < 64,
    ensures
        c == b64_digit(i),
{
    if i < 26 {
        ((65 + i) as u8) as char
    } else if i < 52 {
        ((97 + i - 26) as u8) as char
    } else if i < 62 {
        ((48 + i - 52) as u8) as char
    } else if i == 62 {
        '+'
    } else {
        '/'
    }
}

/// Standard base64 with `=` padding.
pub fn base64_encode(data: &[u8]) -> (s: String)
    ensures
        s@ == b64(data@),
{
    let mut out = String::new();
    let n = data.len();
    let chunks = n / 3 + if n % 3 == 0 { 0 } else { 1 };
    assert(chunks == (n + 2) / 3);
    let mut c: usize = 0;
    while c < chunks
        invariant
            n == data@.len(),
            chunks == (n + 2) / 3,
            c <= chunks,
            out@ == b64_chunks(data@, c as int),
        decreases chunks - c,
    {
        let s = 3 * c;
        let b0 = data[s];
        let b1 = if s + 1 < n { data[s + 1] } else { 0 };
        let b2 = if s + 2 < n { data[s + 2] } else { 0 };
        let v: u32 = ((b0 as u32) << 16u32) | ((b1 as u32) << 8u32) | (b2 as u32);
        assert((v >> 18u32) & 0x3f < 64) by (bit_vector);
        assert((v >> 12u32) & 0x3f < 64) by (bit_vector);
        assert((v >> 6u32) & 0x3f < 64) by (bit_vector);
        assert(v & 0x3f < 64) by (bit_vector);
        let ghost before = out@;
        string_push(&mut out, b64_digit_exec((v >> 18u32) & 0x3f));
        string_push(&mut out, b64_digit_exec((v >> 12u32) & 0x3f));
        string_push(&mut out, if s + 1 < n { b64_digit_exec((v >> 6u32) & 0x3f) } else { '=' });
        string_push(&mut out, if s + 2 < n { b64_digit_exec(v & 0x3f) } else { '=' });
        proof {
            assert(out@ =~= before + b64_chunk(data@, c as int));
        }
        c += 1;
    }
    out
}

/// A PNG as a `data:` URL.
pub fn data_url_png(bytes: &[u8]) -> (s: String)
    ensures
        s@ == "data:image/png;base64,"@ + b64(bytes@),
{
    let mut s = String::from_str("data:image/png;base64,");
    let enc = base64_encode(bytes);
    s.append(enc.as_str());
    s
}

// ---------------------------------------------------------------------------------------
// Texture details
// ---------------------------------------------------------------------------------------

/// What the detail panel shows of a texture.
#[derive(Debug, Clone)]
pub struct TextureMeta {
    pub width: i32,
    pub height: i32,
    pub pixel_format: String,
    pub file_size: u64,
}

/// A texture's details, read from the archive entry at `entry_path` (see
/// `batch::texture_meta`).
pub fn read_texture_meta(archive: &PakArchive, entry_path: &str) -> (r: Result<TextureMeta, TextureMetaError>)
    requires
        contents_at_path(archive.entry_specs(), archive.bytes(), entry_path@) matches Ok(c) ==> pixel_format_in_bounds(c),
    ensures
        match contents_at_path(archive.entry_specs(), archive.bytes(), entry_path@) {
            Err(e) => r == Err::<TextureMeta, TextureMetaError>(e),
            Ok(c) => match texture_meta_spec(c) {
                Err(e) => r == Err::<TextureMeta, TextureMetaError>(e),
                Ok((w, h, f, n)) => r matches Ok(m) && m.width == w && m.height == h && m.pixel_format@ == f
                    && m.file_size == n,
            },
        },
{
    match texture_meta(archive, entry_path) {
        Ok(m) => Ok(TextureMeta { width: m.width, height: m.height, pixel_format: m.pixel_format, file_size: m.file_size }),
        Err(e) => Err(e),
    }
}

} // verus!
