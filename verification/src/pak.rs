//! Risen 1 `.pak` / `.pXX` container format: parse an archive held in memory, read its entries,
//! and build fresh archives (patch volumes) or merge a patch into a full archive.
//!
//! Layout: `[header][file data][directory tree]`, every integer little-endian.

use vstd::prelude::*;
use vstd::slice::{slice_subrange, slice_to_vec};
use crate::le::{u32_at, u64_at, read_u32_at, read_u64_at, push_u32, push_u64};
use crate::text::{decoded_name, string_from_utf8_lossy, string_push};
use crate::zlib::{zlib_compress, zlib_decompress, zlib_deflated, zlib_inflated};

verus! {

/// Directory bit of an entry's attribute word.
pub const DIR_ATTR: u32 = 0x10;

/// "Deleted" bit of a file entry's attribute word.
pub const DELETED_ATTR: u32 = 0x8000;

/// Per-entry storage mode.
#[derive(Debug, Clone, Copy, PartialEq, Eq, Structural)]
pub enum FileCompression {
    Uncompressed,
    Auto,
    ZLib,
}

/// The storage mode a stored compression word stands for: 1 is "auto", 2 is zlib, anything
/// else means stored as is.
pub open spec fn compression_of(v: u32) -> FileCompression {
    if v == 1 {
        FileCompression::Auto
    } else if v == 2 {
        FileCompression::ZLib
    } else {
        FileCompression::Uncompressed
    }
}

/// The word a storage mode is written as.
pub open spec fn compression_word(c: FileCompression) -> u32 {
    match c {
        FileCompression::Uncompressed => 0,
        FileCompression::Auto => 1,
        FileCompression::ZLib => 2,
    }
}

impl FileCompression {
    pub fn from_u32(v: u32) -> (c: FileCompression)
        ensures
            c == compression_of(v),
    {
        if v == 1 {
            FileCompression::Auto
        } else if v == 2 {
            FileCompression::ZLib
        } else {
            FileCompression::Uncompressed
        }
    }

    pub fn to_u32(self) -> (v: u32)
        ensures
            v == compression_word(self),
            compression_of(v) == self,
    {
        match self {
            FileCompression::Uncompressed => 0,
            FileCompression::Auto => 1,
            FileCompression::ZLib => 2,
        }
    }
}

/// Why reading an archive or one of its entries failed.
#[derive(Debug, Clone, Copy, PartialEq, Eq, Structural)]
pub enum PakError {
    /// The bytes end before a field, name or entry payload they announce.
    UnexpectedEof,
    /// A zlib-stored entry does not decompress.
    InvalidData,
}

/// The fixed 48-byte header.
#[derive(Debug, Clone, Copy, PartialEq, Eq, Structural)]
pub struct PakHeader {
    pub version: u32,
    pub product: u32,
    pub revision: u32,
    pub encryption: u32,
    pub compression: u32,
    pub data_offset: u64,
    pub root_offset: u64,
    pub volume_size: u64,
}

/// One file of an archive, with its full path (`/dir/.../name`).
#[derive(Debug)]
pub struct FileEntry {
    pub path: String,
    pub data_offset: u64,
    pub file_attributes: u32,
    pub compression: FileCompression,
    pub data_size: u32,
    pub file_size: u32,
}

/// A file entry as a mathematical value.
pub struct EntrySpec {
    pub path: Seq<char>,
    pub data_offset: u64,
    pub file_attributes: u32,
    pub compression: FileCompression,
    pub data_size: u32,
    pub file_size: u32,
}

impl View for FileEntry {
    type V = EntrySpec;

    open spec fn view(&self) -> EntrySpec {
        EntrySpec {
            path: self.path@,
            data_offset: self.data_offset,
            file_attributes: self.file_attributes,
            compression: self.compression,
            data_size: self.data_size,
            file_size: self.file_size,
        }
    }
}

/// The views of a list of entries.
pub open spec fn entries_view(v: Seq<FileEntry>) -> Seq<EntrySpec> {
    v.map_values(|e: FileEntry| e@)
}

impl FileEntry {
    /// Whether the entry is marked deleted (attribute bit 0x8000).
    pub fn is_deleted(&self) -> (b: bool)
        ensures
            b == (self.file_attributes & DELETED_ATTR != 0),
    {
        self.file_attributes & DELETED_ATTR != 0
    }

    /// A field-by-field copy.
    pub fn duplicate(&self) -> (e: FileEntry)
        ensures
            e@ == self@,
    {
        FileEntry {
            path: self.path.clone(),
            data_offset: self.data_offset,
            file_attributes: self.file_attributes,
            compression: self.compression,
            data_size: self.data_size,
            file_size: self.file_size,
        }
    }
}

// ---------------------------------------------------------------------------------------
// What the bytes of an archive mean
// ---------------------------------------------------------------------------------------

/// A stored name at `pos`: a `u32` byte length, then that many bytes and a terminating zero
/// byte (no bytes and no terminator when the length is 0). Gives the name bytes and the
/// position after the name.
pub open spec fn name_at(d: Seq<u8>, pos: int) -> Option<(Seq<u8>, int)> {
    if pos < 0 || pos + 4 > d.len() {
        None
    } else {
        let n = u32_at(d, pos) as int;
        if n == 0 {
            Some((Seq::<u8>::empty(), pos + 4))
        } else if pos + 4 + n + 1 > d.len() {
            None
        } else {
            Some((d.subrange(pos + 4, pos + 4 + n), pos + 4 + n + 1))
        }
    }
}

/// `prefix/name`.
pub open spec fn child_path(prefix: Seq<char>, name: Seq<char>) -> Seq<char> {
    prefix + seq!['/'] + name
}

/// The path a directory named `name` inside `prefix` gives its children: `prefix` itself for
/// an unnamed directory (the root), `prefix/name` otherwise.
pub open spec fn dir_path(prefix: Seq<char>, name: Seq<char>) -> Seq<char> {
    if name.len() == 0 {
        prefix
    } else {
        child_path(prefix, name)
    }
}

/// Length in bytes of a file record after its name: data offset, three timestamps,
/// attributes, encryption, compression, stored size, original size.
pub open spec fn FILE_TAIL() -> int {
    52
}

/// Length in bytes of a directory record after its name: three timestamps, attributes, count.
pub open spec fn DIR_TAIL() -> int {
    32
}

/// The file record at `pos` inside directory `dir`, and the position after it.
pub open spec fn file_at(d: Seq<u8>, pos: int, dir: Seq<char>) -> Option<(EntrySpec, int)> {
    match name_at(d, pos) {
        None => None,
        Some((nb, p)) => if p + FILE_TAIL() > d.len() {
            None
        } else {
            Some(
                (
                    EntrySpec {
                        path: child_path(dir, decoded_name(nb)),
                        data_offset: u64_at(d, p),
                        file_attributes: u32_at(d, p + 32),
                        compression: compression_of(u32_at(d, p + 40)),
                        data_size: u32_at(d, p + 44),
                        file_size: u32_at(d, p + 48),
                    },
                    p + FILE_TAIL(),
                ),
            )
        },
    }
}

/// The files of the directory record at `pos` under `prefix`, in the order a depth-first walk
/// meets them, and the position after the record. `fuel` bounds the nesting depth; archives
/// are read with more fuel than they have bytes, so it never runs out before the bytes do.
pub open spec fn dir_at(d: Seq<u8>, pos: int, prefix: Seq<char>, fuel: nat) -> Option<
    (Seq<EntrySpec>, int),
>
    decreases fuel, 0nat, 0nat,
{
    if fuel == 0 {
        None
    } else {
        match name_at(d, pos) {
            None => None,
            Some((nb, p)) => if p + DIR_TAIL() > d.len() {
                None
            } else {
                entries_at(
                    d,
                    p + DIR_TAIL(),
                    dir_path(prefix, decoded_name(nb)),
                    u32_at(d, p + 28) as nat,
                    (fuel - 1) as nat,
                )
            },
        }
    }
}

/// `count` child records starting at `pos` inside directory `dir`: each is an attribute word
/// (bit 0x10 marks a directory) followed by a directory or a file record.
pub open spec fn entries_at(d: Seq<u8>, pos: int, dir: Seq<char>, count: nat, fuel: nat) -> Option<
    (Seq<EntrySpec>, int),
>
    decreases fuel, 1nat, count,
{
    if count == 0 {
        Some((Seq::<EntrySpec>::empty(), pos))
    } else if pos < 0 || pos + 4 > d.len() {
        None
    } else {
        let first = if u32_at(d, pos) & DIR_ATTR != 0 {
            dir_at(d, pos + 4, dir, fuel)
        } else {
            match file_at(d, pos + 4, dir) {
                Some((e, p)) => Some((seq![e], p)),
                None => None,
            }
        };
        match first {
            None => None,
            Some((es, p)) => match entries_at(d, p, dir, (count - 1) as nat, fuel) {
                None => None,
                Some((rest, q)) => Some((es + rest, q)),
            },
        }
    }
}

/// The header stored in the first 48 bytes.
pub open spec fn header_of(d: Seq<u8>) -> PakHeader {
    PakHeader {
        version: u32_at(d, 0),
        product: u32_at(d, 4),
        revision: u32_at(d, 8),
        encryption: u32_at(d, 12),
        compression: u32_at(d, 16),
        data_offset: u64_at(d, 24),
        root_offset: u64_at(d, 32),
        volume_size: u64_at(d, 40),
    }
}

/// Every file of the archive `d` (header, then the directory tree at the header's root
/// offset), or `None` when the bytes end early.
pub open spec fn archive_entries(d: Seq<u8>) -> Option<Seq<EntrySpec>> {
    if d.len() < 48 {
        None
    } else {
        match dir_at(d, header_of(d).root_offset as int, Seq::<char>::empty(), d.len()) {
            Some((es, _)) => Some(es),
            None => None,
        }
    }
}

// ---------------------------------------------------------------------------------------
// Reading
// ---------------------------------------------------------------------------------------

/// Reads the name stored at `pos` (see `name_at`), decoded as text.
fn read_name(data: &[u8], pos: usize) -> (r: Option<(String, usize)>)
    ensures
        match name_at(data@, pos as int) {
            None => r is None,
            Some((nb, p)) => r matches Some((s, q)) && s@ == decoded_name(nb) && q == p,
        },
        r matches Some((s, q)) ==> q <= data@.len(),
{
    if pos > data.len() || data.len() - pos < 4 {
        return None;
    }
    let n = match read_u32_at(data, pos) {
        None => return None,
        Some(n) => n,
    };
    if n == 0 {
        proof {
            assert(decoded_name(Seq::<u8>::empty()) =~= Seq::<char>::empty());
        }
        return Some((String::new(), pos + 4));
    }
    let n = n as usize;
    if n >= data.len() - (pos + 4) {
        return None;
    }
    let bytes = slice_subrange(data, pos + 4, pos + 4 + n);
    Some((string_from_utf8_lossy(bytes), pos + 4 + n + 1))
}

/// `prefix/name` as a string.
fn join_child(prefix: &String, name: &String) -> (s: String)
    ensures
        s@ == child_path(prefix@, name@),
{
    let mut s = prefix.clone();
    string_push(&mut s, '/');
    s.append(name.as_str());
    s
}

/// Reads the file record at `pos` inside directory `dir`.
fn read_file_entry(data: &[u8], pos: usize, dir: &String) -> (r: Option<(FileEntry, usize)>)
    ensures
        match file_at(data@, pos as int, dir@) {
            None => r is None,
            Some((e, p)) => r matches Some((fe, q)) && fe@ == e && q == p,
        },
        r matches Some((fe, q)) ==> q <= data@.len(),
{
    let (name, p) = match read_name(data, pos) {
        None => return None,
        Some(x) => x,
    };
    if p > data.len() || data.len() - p < 52 {
        return None;
    }
    let data_offset = read_u64_at(data, p).unwrap();
    let file_attributes = read_u32_at(data, p + 32).unwrap();
    let compression = FileCompression::from_u32(read_u32_at(data, p + 40).unwrap());
    let data_size = read_u32_at(data, p + 44).unwrap();
    let file_size = read_u32_at(data, p + 48).unwrap();
    let entry = FileEntry {
        path: join_child(dir, &name),
        data_offset,
        file_attributes,
        compression,
        data_size,
        file_size,
    };
    Some((entry, p + 52))
}

/// Reads the directory record at `pos` under `prefix`, appending its files to `out` in
/// depth-first order; gives the position after the record.
fn read_directory(data: &[u8], pos: usize, prefix: &String, fuel: usize, out: &mut Vec<FileEntry>) -> (r:
    Option<usize>)
    ensures
        match dir_at(data@, pos as int, prefix@, fuel as nat) {
            None => r is None,
            Some((es, e)) => r matches Some(q) && q as int == e && entries_view(final(out)@) == entries_view(
                old(out)@,
            ) + es,
        },
        r matches Some(q) ==> q <= data@.len(),
    decreases fuel,
{
    if fuel == 0 {
        return None;
    }
    let (name, p) = match read_name(data, pos) {
        None => return None,
        Some(x) => x,
    };
    if p > data.len() || data.len() - p < 32 {
        return None;
    }
    let count = read_u32_at(data, p + 28).unwrap();
    let my_path = if name.as_str().is_empty() {
        prefix.clone()
    } else {
        join_child(prefix, &name)
    };
    let ghost d = data@;
    let ghost f = (fuel - 1) as nat;
    let ghost start = p + 32;
    let ghost out0 = old(out)@;
    let ghost mut acc = Seq::<EntrySpec>::empty();
    assert(my_path@ == dir_path(prefix@, decoded_name(name_at(d, pos as int).unwrap().0)));
    let mut cur: usize = p + 32;
    let mut i: u32 = 0;
    while i < count
        invariant
            d == data@,
            i <= count,
            cur <= data@.len(),
            f == fuel - 1,
            fuel > 0,
            dir_at(d, pos as int, prefix@, fuel as nat) == entries_at(d, start as int, my_path@, count as nat, f),
            entries_view(out@) == entries_view(out0) + acc,
            entries_at(d, start as int, my_path@, count as nat, f) == match entries_at(
                d,
                cur as int,
                my_path@,
                (count - i) as nat,
                f,
            ) {
                None => None,
                Some((rest, q)) => Some((acc + rest, q)),
            },
        decreases count - i,
    {
        if data.len() - cur < 4 {
            return None;
        }
        let attr = read_u32_at(data, cur).unwrap();
        let ghost out_before = out@;
        let ghost mut es = Seq::<EntrySpec>::empty();
        let next = if attr & DIR_ATTR != 0 {
            match read_directory(data, cur + 4, &my_path, fuel - 1, out) {
                None => return None,
                Some(q) => {
                    proof {
                        es = dir_at(d, cur + 4, my_path@, f).unwrap().0;
                    }
                    q
                },
            }
        } else {
            match read_file_entry(data, cur + 4, &my_path) {
                None => return None,
                Some((e, q)) => {
                    out.push(e);
                    proof {
                        es = seq![e@];
                        assert(entries_view(out@) =~= entries_view(out_before) + es);
                    }
                    q
                },
            }
        };
        proof {
            let k = (count - i) as nat;
            assert(attr == u32_at(d, cur as int));
            assert(entries_at(d, cur as int, my_path@, k, f) == match entries_at(
                d,
                next as int,
                my_path@,
                (k - 1) as nat,
                f,
            ) {
                None => None,
                Some((rest, q)) => Some((es + rest, q)),
            });
            assert forall|rest: Seq<EntrySpec>| #[trigger] (acc + (es + rest)) =~= (acc + es) + rest by {}
            acc = acc + es;
        }
        cur = next;
        i = i + 1;
    }
    proof {
        assert(acc + Seq::<EntrySpec>::empty() =~= acc);
    }
    Some(cur)
}

/// The bytes an entry occupies in the archive `d` exactly as stored, or `None` when the archive
/// ends before them. An empty entry needs no bytes (only an offset that can be sought to).
pub open spec fn stored_bytes(d: Seq<u8>, e: EntrySpec) -> Option<Seq<u8>> {
    if e.data_size == 0 {
        if e.data_offset <= 0x7fff_ffff_ffff_ffff {
            Some(Seq::<u8>::empty())
        } else {
            None
        }
    } else if e.data_offset + e.data_size > d.len() {
        None
    } else {
        Some(d.subrange(e.data_offset as int, e.data_offset + e.data_size))
    }
}

/// An entry's contents: its stored bytes, inflated when the entry is zlib-stored.
pub open spec fn entry_contents(d: Seq<u8>, e: EntrySpec) -> Option<Seq<u8>> {
    match stored_bytes(d, e) {
        None => None,
        Some(raw) => if e.compression == FileCompression::ZLib {
            zlib_inflated(raw)
        } else {
            Some(raw)
        },
    }
}

/// An archive held in memory: its header, its bytes and the files its directory tree lists.
pub struct PakArchive {
    pub header: PakHeader,
    data: Vec<u8>,
    entries: Vec<FileEntry>,
}

impl PakArchive {
    /// The archive's header.
    pub closed spec fn header_spec(&self) -> PakHeader {
        self.header
    }

    /// The archive's bytes.
    pub closed spec fn bytes(&self) -> Seq<u8> {
        self.data@
    }

    /// The files the archive lists, in depth-first order.
    pub closed spec fn entry_specs(&self) -> Seq<EntrySpec> {
        entries_view(self.entries@)
    }

    /// Header and file list are those the bytes hold.
    pub closed spec fn wf(&self) -> bool {
        &&& self.header == header_of(self.data@)
        &&& archive_entries(self.data@) == Some(entries_view(self.entries@))
    }

    /// Parses a whole archive held in memory: the header, then the directory tree at the
    /// header's root offset. Fails when the bytes end before what they announce.
    pub fn from_bytes(data: Vec<u8>) -> (r: Result<PakArchive, PakError>)
        ensures
            match r {
                Ok(a) => a.wf() && a.bytes() == data@ && archive_entries(data@) == Some(
                    a.entry_specs(),
                ),
                Err(e) => archive_entries(data@) is None && e == PakError::UnexpectedEof,
            },
    {
        if data.len() < 48 {
            return Err(PakError::UnexpectedEof);
        }
        let header = PakHeader {
            version: read_u32_at(data.as_slice(), 0).unwrap(),
            product: read_u32_at(data.as_slice(), 4).unwrap(),
            revision: read_u32_at(data.as_slice(), 8).unwrap(),
            encryption: read_u32_at(data.as_slice(), 12).unwrap(),
            compression: read_u32_at(data.as_slice(), 16).unwrap(),
            data_offset: read_u64_at(data.as_slice(), 24).unwrap(),
            root_offset: read_u64_at(data.as_slice(), 32).unwrap(),
            volume_size: read_u64_at(data.as_slice(), 40).unwrap(),
        };
        if header.root_offset > data.len() as u64 {
            return Err(PakError::UnexpectedEof);
        }
        let mut entries: Vec<FileEntry> = Vec::new();
        let root = String::new();
        match read_directory(data.as_slice(), header.root_offset as usize, &root, data.len(), &mut entries) {
            None => Err(PakError::UnexpectedEof),
            Some(_) => {
                proof {
                    assert(entries_view(Seq::<FileEntry>::empty()) =~= Seq::<EntrySpec>::empty());
                }
                Ok(PakArchive { header, data, entries })
            },
        }
    }

    /// A copy of the header.
    pub fn get_header(&self) -> (h: PakHeader)
        ensures
            h == self.header_spec(),
    {
        self.header
    }

    /// Whether the product tag is `G3V0`.
    pub fn is_valid_g3v0(&self) -> (b: bool)
        ensures
            b == (self.header_spec().product == 0x3056_3347),
    {
        self.header.product == 0x3056_3347
    }

    /// An entry's bytes exactly as stored (still compressed for a zlib entry).
    pub fn read_file_raw(&self, entry: &FileEntry) -> (r: Result<Vec<u8>, PakError>)
        ensures
            match stored_bytes(self.bytes(), entry@) {
                None => r == Err::<Vec<u8>, PakError>(PakError::UnexpectedEof),
                Some(raw) => r matches Ok(v) && v@ == raw,
            },
    {
        let size = entry.data_size as u64;
        if size == 0 {
            if entry.data_offset <= 0x7fff_ffff_ffff_ffff {
                return Ok(Vec::new());
            } else {
                return Err(PakError::UnexpectedEof);
            }
        }
        let len = self.data.len() as u64;
        if entry.data_offset > len || len - entry.data_offset < size {
            return Err(PakError::UnexpectedEof);
        }
        let start = entry.data_offset as usize;
        let end = start + entry.data_size as usize;
        Ok(slice_to_vec(slice_subrange(self.data.as_slice(), start, end)))
    }

    /// An entry's contents: its stored bytes, inflated when the entry is zlib-stored.
    pub fn read_file(&self, entry: &FileEntry) -> (r: Result<Vec<u8>, PakError>)
        ensures
            match stored_bytes(self.bytes(), entry@) {
                None => r == Err::<Vec<u8>, PakError>(PakError::UnexpectedEof),
                Some(raw) => match entry_contents(self.bytes(), entry@) {
                    None => r == Err::<Vec<u8>, PakError>(PakError::InvalidData),
                    Some(c) => r matches Ok(v) && v@ == c,
                },
            },
    {
        let raw = self.read_file_raw(entry)?;
        match entry.compression {
            FileCompression::ZLib => match zlib_decompress(raw.as_slice()) {
                Some(out) => Ok(out),
                None => Err(PakError::InvalidData),
            },
            _ => Ok(raw),
        }
    }

    /// Every file the archive lists (deleted ones included), in depth-first order.
    pub fn files(&self) -> (v: Vec<FileEntry>)
        ensures
            entries_view(v@) == self.entry_specs(),
    {
        let mut v: Vec<FileEntry> = Vec::new();
        let mut i: usize = 0;
        while i < self.entries.len()
            invariant
                i <= self.entries@.len(),
                entries_view(v@) =~= entries_view(self.entries@.take(i as int)),
            decreases self.entries.len() - i,
        {
            let ghost old_v = v@;
            let x = self.entries[i].duplicate();
            v.push(x);
            proof {
                assert(v@ =~= old_v.push(x));
                assert(entries_view(v@) =~= entries_view(old_v).push(x@));
                assert(self.entries@.take(i + 1) =~= self.entries@.take(i as int).push(self.entries@[i as int]));
            }
            i += 1;
        }
        proof {
            assert(self.entries@.take(self.entries@.len() as int) =~= self.entries@);
        }
        v
    }
}

} // verus!
