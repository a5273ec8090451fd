//! Finding a Risen install from `risen.exe` or a shortcut to it: the target a `.lnk` file
//! stores, which ancestor folder is the game root, and which files under `data/` are archives
//! (`*.pak`, `*.p0?`, `*.0?`). Walking the file system stays with the caller, which hands the
//! decisions here what it found.

use vstd::prelude::*;
use vstd::slice::slice_subrange;
use crate::le::{u16_at, u32_at, read_u16_at, read_u32_at, lemma_u32_roundtrip};
use vstd::bytes::{spec_u32_to_le_bytes, lemma_auto_spec_u32_to_from_le_bytes};
use crate::text::{
    decoded_name, string_from_utf8_lossy, chars_of, lower_text, ascii_lowercase_chars, ascii_lowercase, str_equal,
};
use crate::batch::{file_name_of, path_file_name};

verus! {

// ---------------------------------------------------------------------------------------
// Shortcuts
// ---------------------------------------------------------------------------------------

/// The shell link header's first four bytes and class id.
pub open spec fn lnk_magic() -> Seq<u8> {
    seq![
        0x4cu8, 0x00, 0x00, 0x00, 0x01, 0x14, 0x02, 0x00, 0x00, 0x00, 0x00, 0x00, 0xc0, 0x00,
        0x00, 0x00, 0x00, 0x00, 0x00, 0x46,
    ]
}

/// The first position at or after `i` holding a zero byte.
pub open spec fn zero_from(s: Seq<u8>, i: int) -> Option<int>
    decreases s.len() - i,
{
    if i < 0 || i >= s.len() {
        None
    } else if s[i] == 0 {
        Some(i)
    } else {
        zero_from(s, i + 1)
    }
}

/// Where the LinkInfo block starts: right after the 76-byte header, or after the target ID
/// list (a `u16` size and that many bytes) when the header flags one. `None` when the size
/// field is cut off.
pub open spec fn link_info_start(d: Seq<u8>) -> Option<int> {
    if u32_at(d, 20) & 1 != 0 {
        if 78 > d.len() {
            None
        } else {
            Some(78 + u16_at(d, 76))
        }
    } else {
        Some(76)
    }
}

/// The local base path a shortcut stores, as raw bytes up to its terminating zero: the outer
/// `None` where reading it panics (the path offset past the LinkInfo block, or the block's end
/// past the address range), the inner `None` where there is no such path.
pub open spec fn lnk_target_bytes(d: Seq<u8>) -> Option<Option<Seq<u8>>> {
    if d.len() < 76 || d.subrange(0, 20) != lnk_magic() {
        Some(None)
    } else {
        match link_info_start(d) {
            None => Some(None),
            Some(off) => if u32_at(d, 20) & 2 == 0 || off + 4 > d.len() {
                Some(None)
            } else {
                let size = u32_at(d, off) as int;
                if off + size > usize::MAX {
                    None
                } else if off + size > d.len() {
                    Some(None)
                } else {
                    let info = d.subrange(off, off + size);
                    if size < 12 || u32_at(info, 8) & 1 == 0 || size < 20 {
                        Some(None)
                    } else {
                        let lbp = u32_at(info, 16) as int;
                        if lbp > size {
                            None
                        } else {
                            match zero_from(info, lbp) {
                                None => Some(None),
                                Some(end) => Some(Some(info.subrange(lbp, end))),
                            }
                        }
                    }
                }
            },
        }
    }
}

/// Whether reading a shortcut's target stays in bounds.
pub open spec fn lnk_defined(d: Seq<u8>) -> bool {
    lnk_target_bytes(d) is Some
}

fn first_zero(s: &[u8], from: usize) -> (r: Option<usize>)
    requires
        from <= s@.len(),
    ensures
        r is None ==> zero_from(s@, from as int) is None,
        r matches Some(k) ==> zero_from(s@, from as int) == Some(k as int) && from <= k < s@.len(),
{
    let mut i = from;
    while i < s.len()
        invariant
            from <= i <= s@.len(),
            zero_from(s@, from as int) == zero_from(s@, i as int),
        decreases s.len() - i,
    {
        if s[i] == 0 {
            return Some(i);
        }
        i += 1;
    }
    None
}

fn is_lnk_magic(data: &[u8]) -> (b: bool)
    requires
        data@.len() >= 20,
    ensures
        b == (data@.subrange(0, 20) == lnk_magic()),
{
    let m: [u8; 20] = [
        0x4cu8, 0x00, 0x00, 0x00, 0x01, 0x14, 0x02, 0x00, 0x00, 0x00, 0x00, 0x00, 0xc0, 0x00,
        0x00, 0x00, 0x00, 0x00, 0x00, 0x46,
    ];
    let mut i: usize = 0;
    while i < 20
        invariant
            i <= 20,
            data@.len() >= 20,
            m@ == lnk_magic(),
            forall|k: int| 0 <= k < i ==> data@[k] == m@[k],
        decreases 20 - i,
    {
        if data[i] != m[i] {
            proof {
                assert(data@.subrange(0, 20)[i as int] != lnk_magic()[i as int]);
            }
            return false;
        }
        i += 1;
    }
    assert(data@.subrange(0, 20) =~= lnk_magic());
    true
}

/// Whether `parse_lnk_target` can read these bytes without running out of bounds.
pub fn lnk_target_readable(data: &[u8]) -> (b: bool)
    ensures
        b == lnk_defined(data@),
{
    lnk_target_raw(data).is_some()
}

/// The stored target bytes; `None` exactly where reading them panics.
fn lnk_target_raw(data: &[u8]) -> (r: Option<Option<&[u8]>>)
    ensures
        match lnk_target_bytes(data@) {
            None => r is None,
            Some(None) => r == Some(None::<&[u8]>),
            Some(Some(b)) => r matches Some(Some(x)) && x@ == b,
        },
{
    if data.len() < 76 || !is_lnk_magic(data) {
        return Some(None);
    }
    let flags = read_u32_at(data, 20).unwrap();
    let mut offset: usize = 76;
    if flags & 1 != 0 {
        match read_u16_at(data, 76) {
            None => return Some(None),
            Some(size) => {
                offset = 78 + size as usize;
            },
        }
    }
    if flags & 2 == 0 {
        return Some(None);
    }
    let size = match read_u32_at(data, offset) {
        None => return Some(None),
        Some(s) => s as usize,
    };
    if size > usize::MAX - offset {
        return None;
    }
    if offset + size > data.len() {
        return Some(None);
    }
    let info = slice_subrange(data, offset, offset + size);
    let info_flags = match read_u32_at(info, 8) {
        None => return Some(None),
        Some(f) => f,
    };
    if info_flags & 1 == 0 {
        return Some(None);
    }
    let lbp = match read_u32_at(info, 16) {
        None => return Some(None),
        Some(v) => v as usize,
    };
    if lbp > info.len() {
        return None;
    }
    match first_zero(info, lbp) {
        None => Some(None),
        Some(end) => Some(Some(slice_subrange(info, lbp, end))),
    }
}

/// The local base path a Windows `.lnk` shortcut points at (the LinkInfo block's
/// LocalBasePath, decoded as UTF-8 with invalid sequences replaced), or `None` when the
/// bytes are not a shell link or carry no such path.
pub fn parse_lnk_target(data: &[u8]) -> (r: Option<String>)
    requires
        lnk_defined(data@),
    ensures
        match lnk_target_bytes(data@) {
            Some(Some(b)) => r matches Some(s) && s@ == decoded_name(b),
            _ => r is None,
        },
{
    match lnk_target_raw(data) {
        Some(Some(b)) => Some(string_from_utf8_lossy(b)),
        _ => None,
    }
}

// ---------------------------------------------------------------------------------------
// Game root
// ---------------------------------------------------------------------------------------

/// The `data/` subfolders that hold archives, in the order they are searched.
pub open spec fn archive_subdirs() -> Seq<Seq<char>> {
    seq!["compiled"@, "common"@]
}

/// The `data/` subfolders that hold archives, in the order they are searched.
pub fn archive_subdir_names() -> (v: Vec<String>)
    ensures
        v@.map_values(|s: String| s@) == archive_subdirs(),
{
    let v = vec![String::from_str("compiled"), String::from_str("common")];
    assert(v@.map_values(|s: String| s@) =~= archive_subdirs());
    v
}

/// What the file system shows of one ancestor folder of the exe.
#[derive(Debug, Clone, Copy, PartialEq, Eq, Structural)]
pub struct RootProbe {
    /// It has a `data` directory.
    pub data_dir: bool,
    /// That `data` directory has a `compiled` or a `common` directory.
    pub archive_subdir: bool,
}

/// The first ancestor (nearest first: the exe's own folder, then upward) whose `data`
/// directory holds an archive subfolder.
pub open spec fn is_root(p: RootProbe) -> bool {
    p.data_dir && p.archive_subdir
}

/// Which of the exe's ancestor folders (nearest first) is the game root: the first with a
/// `data` directory holding `compiled/` or `common/`, or `None` when none is.
pub fn discover_game_root(ancestors: &[RootProbe]) -> (r: Option<usize>)
    ensures
        r is None ==> forall|k: int| 0 <= k < ancestors@.len() ==> !is_root(#[trigger] ancestors@[k]),
        r matches Some(i) ==> i < ancestors@.len() && is_root(ancestors@[i as int]) && forall|k: int|
            0 <= k < i ==> !is_root(#[trigger] ancestors@[k]),
{
    let mut i: usize = 0;
    while i < ancestors.len()
        invariant
            i <= ancestors@.len(),
            forall|k: int| 0 <= k < i ==> !is_root(#[trigger] ancestors@[k]),
        decreases ancestors.len() - i,
    {
        if ancestors[i].data_dir && ancestors[i].archive_subdir {
            return Some(i);
        }
        i += 1;
    }
    None
}

// ---------------------------------------------------------------------------------------
// Archives
// ---------------------------------------------------------------------------------------

/// The index of the last `.` before `i`, or -1.
pub open spec fn last_dot(s: Seq<char>, i: int) -> int
    decreases i,
{
    if i <= 0 {
        -1
    } else if s[i - 1] == '.' {
        i - 1
    } else {
        last_dot(s, i - 1)
    }
}

/// A file name's extension as `Path::extension` gives it: what follows the last `.`, when
/// that dot is not the name's first character (and the name is not `..`).
pub open spec fn extension_of(name: Seq<char>) -> Option<Seq<char>> {
    let k = last_dot(name, name.len() as int);
    if name == seq!['.', '.'] || k <= 0 {
        None
    } else {
        Some(name.subrange(k + 1, name.len() as int))
    }
}

/// Only ASCII digits.
pub open spec fn all_digits(s: Seq<char>) -> bool {
    forall|k: int| 0 <= k < s.len() ==> '0' <= #[trigger] s[k] <= '9'
}

/// An archive's file name: extension `pak`, or a patch volume's `p` and digits (`p01`), or
/// digits alone (`00`), in any case.
pub open spec fn is_archive_name(name: Seq<char>) -> bool {
    match extension_of(name) {
        None => false,
        Some(e) => {
            let l = lower_text(e);
            l == seq!['p', 'a', 'k'] || {
                let rest = if l.len() > 0 && l[0] == 'p' {
                    l.drop_first()
                } else {
                    l
                };
                rest.len() > 0 && all_digits(rest)
            }
        },
    }
}

/// Whether a file name is an archive's (see `is_archive_name`).
#[verifier::loop_isolation(false)]
pub fn looks_like_archive(file_name: &str) -> (b: bool)
    ensures
        b == is_archive_name(file_name@),
{
    let cs = chars_of(file_name);
    let n = cs.len();
    let mut k = n;
    while k > 0 && cs[k - 1] != '.'
        invariant
            k <= n,
            n == cs@.len(),
            cs@ == file_name@,
            last_dot(cs@, n as int) == last_dot(cs@, k as int),
        decreases k,
    {
        k -= 1;
    }
    let ghost ld = last_dot(cs@, n as int);
    proof {
        if k > 0 {
            assert(ld == k - 1);
        } else {
            assert(ld == -1);
        }
    }
    if k <= 1 || (n == 2 && cs[0] == '.' && cs[1] == '.') {
        proof {
            if n == 2 && cs@[0] == '.' && cs@[1] == '.' {
                assert(file_name@ =~= seq!['.', '.']);
            }
        }
        return false;
    }
    proof {
        if file_name@ == seq!['.', '.'] {
            assert(cs@[0] == '.' && cs@[1] == '.');
        }
    }
    let ext: String = crate::text::string_from_chars(cs.as_slice(), k, n);
    let l = ascii_lowercase_chars(ext.as_str());
    if l.len() == 3 && l[0] == 'p' && l[1] == 'a' && l[2] == 'k' {
        proof {
            assert(l@ =~= seq!['p', 'a', 'k']);
        }
        return true;
    }
    proof {
        assert(l@ != seq!['p', 'a', 'k']) by {
            if l@ == seq!['p', 'a', 'k'] {
                assert(l@.len() == 3 && l@[0] == 'p' && l@[1] == 'a' && l@[2] == 'k');
            }
        }
    }
    let start: usize = if l.len() > 0 && l[0] == 'p' { 1 } else { 0 };
    let ghost rest = if l@.len() > 0 && l@[0] == 'p' { l@.drop_first() } else { l@ };
    proof {
        assert(rest =~= l@.subrange(start as int, l@.len() as int));
    }
    if start >= l.len() {
        proof {
            assert(rest.len() == 0);
            assert(extension_of(file_name@) == Some(ext@));
            assert(l@ == lower_text(ext@));
            let ll = lower_text(ext@);
            assert(ll != seq!['p', 'a', 'k']);
            let rr = if ll.len() > 0 && ll[0] == 'p' { ll.drop_first() } else { ll };
            assert(rr == rest);
            assert(!is_archive_name(file_name@));
        }
        return false;
    }
    let mut i = start;
    while i < l.len()
        invariant
            start <= i <= l@.len(),
            rest == l@.subrange(start as int, l@.len() as int),
            forall|j: int| start <= j < i ==> '0' <= #[trigger] l@[j] <= '9',
        decreases l.len() - i,
    {
        if l[i] < '0' || l[i] > '9' {
            proof {
                assert(rest[i - start] == l@[i as int]);
                assert(!all_digits(rest));
                assert(extension_of(file_name@) == Some(ext@));
                let ll = lower_text(ext@);
                let rr = if ll.len() > 0 && ll[0] == 'p' { ll.drop_first() } else { ll };
                assert(rr == rest);
            }
            return false;
        }
        i += 1;
    }
    proof {
        assert forall|j: int| 0 <= j < rest.len() implies '0' <= #[trigger] rest[j] <= '9' by {
            assert(rest[j] == l@[start + j]);
        }
    }
    true
}

/// A file found under `data/<group>/` while walking the install.
#[derive(Debug, Clone)]
pub struct FoundFile {
    /// Its full path.
    pub path: String,
    /// Its file name (the path's last component).
    pub file_name: String,
    /// The `data/` subfolder it was found under.
    pub group: String,
}

/// An archive of the install, with the `data/` subfolder it came from.
#[derive(Debug, Clone)]
pub struct DiscoveredArchive {
    pub path: String,
    pub group: String,
}

/// The archives among the first `n` found files, in order, as (path, group).
pub open spec fn archives_upto(files: Seq<FoundFile>, n: int) -> Seq<(Seq<char>, Seq<char>)>
    decreases n,
{
    if n <= 0 {
        Seq::empty()
    } else if is_archive_name(files[n - 1].file_name@) {
        archives_upto(files, n - 1).push((files[n - 1].path@, files[n - 1].group@))
    } else {
        archives_upto(files, n - 1)
    }
}

/// An archive's (path, group).
pub open spec fn archive_view(a: DiscoveredArchive) -> (Seq<char>, Seq<char>) {
    (a.path@, a.group@)
}

/// The archives among the files found under `data/compiled` and `data/common`, in the order
/// they were found.
pub fn discover_archives(found: &Vec<FoundFile>) -> (v: Vec<DiscoveredArchive>)
    ensures
        v@.map_values(|a: DiscoveredArchive| archive_view(a)) == archives_upto(found@, found@.len() as int),
{
    let mut v: Vec<DiscoveredArchive> = Vec::new();
    let mut i: usize = 0;
    while i < found.len()
        invariant
            i <= found@.len(),
            v@.map_values(|a: DiscoveredArchive| archive_view(a)) == archives_upto(found@, i as int),
        decreases found.len() - i,
    {
        let ghost before = v@.map_values(|a: DiscoveredArchive| archive_view(a));
        if looks_like_archive(found[i].file_name.as_str()) {
            let a = DiscoveredArchive { path: found[i].path.clone(), group: found[i].group.clone() };
            v.push(a);
            proof {
                assert(v@.map_values(|a: DiscoveredArchive| archive_view(a)) =~= before.push(archive_view(a)));
            }
        }
        i += 1;
    }
    v
}

/// A file name's extension (see `extension_of`).
pub fn name_extension(file_name: &str) -> (r: Option<String>)
    ensures
        r is None ==> extension_of(file_name@) is None,
        r matches Some(e) ==> extension_of(file_name@) == Some(e@),
{
    let cs = chars_of(file_name);
    let n = cs.len();
    let mut k = n;
    while k > 0 && cs[k - 1] != '.'
        invariant
            k <= n,
            n == cs@.len(),
            cs@ == file_name@,
            last_dot(cs@, n as int) == last_dot(cs@, k as int),
        decreases k,
    {
        k -= 1;
    }
    proof {
        if k > 0 {
            assert(last_dot(cs@, n as int) == k - 1);
        }
    }
    if k <= 1 || (n == 2 && cs[0] == '.' && cs[1] == '.') {
        proof {
            if n == 2 && cs@[0] == '.' && cs@[1] == '.' {
                assert(file_name@ =~= seq!['.', '.']);
            }
        }
        return None;
    }
    proof {
        if file_name@ == seq!['.', '.'] {
            assert(cs@[0] == '.' && cs@[1] == '.');
        }
    }
    Some(crate::text::string_from_chars(cs.as_slice(), k, n))
}

/// Whether a path names a shortcut: its file name's extension is `lnk`, in any ASCII case.
pub open spec fn shortcut_path(p: Seq<char>) -> bool {
    file_name_of(p) matches Some(name) && (extension_of(name) matches Some(e) && lower_text(e) == "lnk"@)
}

/// Whether a path names a `.lnk` shortcut, to be resolved to its target before use (see
/// `shortcut_path`).
pub fn is_shortcut_path(p: &str) -> (b: bool)
    ensures
        b == shortcut_path(p@),
{
    let name = match path_file_name(p) {
        None => return false,
        Some(n) => n,
    };
    match name_extension(name.as_str()) {
        None => false,
        Some(e) => {
            let l = ascii_lowercase(e.as_str());
            str_equal(l.as_str(), "lnk")
        },
    }
}

/// A shortcut with its target ID list taken out: the LinkFlags word without bit 0, and the
/// list (its `u16` size at 76, then that many bytes) removed.
pub open spec fn without_id_list(d: Seq<u8>) -> Seq<u8> {
    d.subrange(0, 20) + spec_u32_to_le_bytes(u32_at(d, 20) & 0xffff_fffe) + d.subrange(24, 76) + d.subrange(
        78 + u16_at(d, 76),
        d.len() as int,
    )
}

/// The target ID list is skipped: a shortcut that has one (LinkFlags bit 0) stores the same
/// target as the same shortcut without it, its LinkInfo being read right after the list.
pub proof fn lemma_id_list_skipped(d: Seq<u8>)
    requires
        d.len() >= 78,
        d.subrange(0, 20) == lnk_magic(),
        u32_at(d, 20) & 1 != 0,
        78 + u16_at(d, 76) <= d.len(),
        d.len() + 0x1_0000_0000 <= usize::MAX,
    ensures
        lnk_target_bytes(d) == lnk_target_bytes(without_id_list(d)),
{
    lemma_auto_spec_u32_to_from_le_bytes();
    let s = u16_at(d, 76) as int;
    let f = u32_at(d, 20);
    let e = without_id_list(d);
    let off = 78 + s;
    assert(e.len() == d.len() - 2 - s);
    assert(e.subrange(0, 20) =~= d.subrange(0, 20));
    lemma_u32_roundtrip(d.subrange(0, 20), f & 0xffff_fffe, d.subrange(24, 76) + d.subrange(off, d.len() as int));
    assert(e =~= d.subrange(0, 20) + spec_u32_to_le_bytes(f & 0xffff_fffe) + (d.subrange(24, 76) + d.subrange(
        off,
        d.len() as int,
    )));
    let g = f & 0xffff_fffe;
    assert(u32_at(e, 20) == g);
    assert(g & 1 == 0 && g & 2 == f & 2) by (bit_vector)
        requires
            g == f & 0xffff_fffe,
    ;
    assert(link_info_start(e) == Some(76int));
    assert(link_info_start(d) == Some(off));
    assert forall|i: int| 0 <= i < e.len() - 76 implies #[trigger] e[76 + i] == d[off + i] by {}
    if off + 4 <= d.len() {
        assert(e.subrange(76, 80) =~= d.subrange(off, off + 4));
        assert(u32_at(e, 76) == u32_at(d, off));
        let size = u32_at(d, off) as int;
        if off + size <= d.len() {
            assert(e.subrange(76, 76 + size) =~= d.subrange(off, off + size));
        }
    }
}

proof fn lemma_zero_from_found(s: Seq<u8>, i: int, e: int)
    requires
        zero_from(s, i) == Some(e),
    ensures
        i <= e < s.len(),
        s[e] == 0,
        forall|q: int| i <= q < e ==> #[trigger] s[q] != 0,
    decreases s.len() - i,
{
    if !(i < 0 || i >= s.len()) && s[i] != 0 {
        lemma_zero_from_found(s, i + 1, e);
    }
}

/// A shortcut's target is the zero-terminated string at its LocalBasePath: the bytes from the
/// LinkInfo's start plus the offset stored 16 bytes into it, up to (not including) the first
/// zero byte, which lies inside the LinkInfo block.
pub proof fn lemma_target_is_local_base_path(d: Seq<u8>)
    requires
        lnk_target_bytes(d) matches Some(Some(_)),
    ensures
        ({
            let b = lnk_target_bytes(d)->Some_0->Some_0;
            let off = link_info_start(d)->Some_0;
            let start = off + u32_at(d, off + 16) as int;
            &&& start + b.len() < off + u32_at(d, off) as int
            &&& off + u32_at(d, off) as int <= d.len()
            &&& b == d.subrange(start, start + b.len())
            &&& d[start + b.len()] == 0
            &&& forall|i: int| 0 <= i < b.len() ==> #[trigger] b[i] != 0
        }),
{
    let off = link_info_start(d)->Some_0;
    let size = u32_at(d, off) as int;
    let info = d.subrange(off, off + size);
    let lbp = u32_at(info, 16) as int;
    assert(info.subrange(16, 20) =~= d.subrange(off + 16, off + 20));
    let e = zero_from(info, lbp)->Some_0;
    lemma_zero_from_found(info, lbp, e);
    let b = lnk_target_bytes(d)->Some_0->Some_0;
    assert(b == info.subrange(lbp, e));
    assert(b =~= d.subrange(off + lbp, off + lbp + b.len()));
}

} // verus!
