//! Why the reader gives back what the writer wrote: the directory records `pakwrite` encodes
//! parse, under `pak`'s reading of the bytes, into exactly the files of the tree.

use vstd::prelude::*;
use vstd::bytes::*;
use vstd::utf8::{encode_utf8, encode_utf8_valid_utf8, encode_utf8_decode_utf8};
use crate::le::{u32_at, u64_at};
use crate::pak::{
    EntrySpec, PakHeader, FileCompression, header_of, archive_entries, stored_bytes, entry_contents, child_path, dir_path, name_at, file_at, dir_at, entries_at, compression_of,
    compression_word, FILE_TAIL, DIR_TAIL, DIR_ATTR,
};
use crate::pakwrite::{
    WriteNode, StoredMeta, FILE_ATTR, enc_name, enc_file_tail, enc_dir_tail, enc_node, enc_nodes,
    zero_times, name_fits, node_wf, nodes_wf, lemma_nodes_wf_index, enc_root, count_node,
    count_nodes, present, is_file_node, join_components, components, writable_path,
    lemma_components_nonempty, lemma_join_components,
};
use crate::text::decoded_name;
use crate::zlib::{zlib_deflated, zlib_inflated};

verus! {

/// The entry a reader lists for a file written with `m` under `path`.
pub open spec fn written_entry(path: Seq<char>, m: StoredMeta) -> EntrySpec {
    EntrySpec {
        path,
        data_offset: m.offset,
        file_attributes: FILE_ATTR,
        compression: m.compression,
        data_size: m.stored_size,
        file_size: m.original_size,
    }
}

/// The files of a node inside directory `dir`, in depth-first order.
pub open spec fn flat_node(n: WriteNode, dir: Seq<char>) -> Seq<EntrySpec>
    decreases n,
{
    match n {
        WriteNode::File { name, meta } => seq![written_entry(child_path(dir, name@), meta)],
        WriteNode::Dir { name, children } => flat_nodes(children@, child_path(dir, name@)),
    }
}

/// The files of a list of nodes inside directory `dir`, in order.
pub open spec fn flat_nodes(s: Seq<WriteNode>, dir: Seq<char>) -> Seq<EntrySpec>
    decreases s,
{
    if s.len() == 0 {
        Seq::<EntrySpec>::empty()
    } else {
        flat_node(s[0], dir) + flat_nodes(s.drop_first(), dir)
    }
}

/// `dir/parts[0]/parts[1]/...`.
pub open spec fn nested_path(dir: Seq<char>, parts: Seq<Seq<char>>) -> Seq<char>
    decreases parts.len(),
{
    if parts.len() <= 1 {
        child_path(dir, parts[0])
    } else {
        nested_path(child_path(dir, parts[0]), parts.drop_first())
    }
}

/// `d[a..a + x.len()]` is `x`.
pub open spec fn holds_at(d: Seq<u8>, a: int, x: Seq<u8>) -> bool {
    0 <= a && a + x.len() <= d.len() && d.subrange(a, a + x.len()) == x
}

pub proof fn lemma_split(d: Seq<u8>, a: int, x: Seq<u8>, y: Seq<u8>)
    requires
        holds_at(d, a, x + y),
    ensures
        holds_at(d, a, x),
        holds_at(d, a + x.len(), y),
{
    assert(d.subrange(a, a + x.len()) =~= x) by {
        assert forall|k: int| 0 <= k < x.len() implies d.subrange(a, a + x.len())[k] == x[k] by {
            assert(d.subrange(a, a + (x + y).len())[k] == (x + y)[k]);
        }
    }
    assert(d.subrange(a + x.len(), a + x.len() + y.len()) =~= y) by {
        assert forall|k: int| 0 <= k < y.len() implies d.subrange(a + x.len(), a + x.len() + y.len())[k]
            == y[k] by {
            assert(d.subrange(a, a + (x + y).len())[x.len() + k] == (x + y)[x.len() + k]);
        }
    }
}

/// A window of `d1` at or past `lo` is also one of `d2` when the two agree from `lo` on.
pub proof fn lemma_holds_transfer(d1: Seq<u8>, d2: Seq<u8>, a: int, x: Seq<u8>, lo: int)
    requires
        holds_at(d1, a, x),
        lo <= a,
        d1.len() <= d2.len(),
        forall|i: int| lo <= i < d1.len() ==> d2[i] == d1[i],
    ensures
        holds_at(d2, a, x),
{
    assert(d2.subrange(a, a + x.len()) =~= d1.subrange(a, a + x.len()));
}

pub proof fn lemma_u32_held(d: Seq<u8>, a: int, x: u32)
    requires
        holds_at(d, a, spec_u32_to_le_bytes(x)),
    ensures
        u32_at(d, a) == x,
        a + 4 <= d.len(),
{
    lemma_auto_spec_u32_to_from_le_bytes();
}

pub proof fn lemma_u64_held(d: Seq<u8>, a: int, x: u64)
    requires
        holds_at(d, a, spec_u64_to_le_bytes(x)),
    ensures
        u64_at(d, a) == x,
        a + 8 <= d.len(),
{
    lemma_auto_spec_u64_to_from_le_bytes();
}

/// A stored name reads back as the name.
proof fn lemma_name_held(d: Seq<u8>, p: int, nm: Seq<char>)
    requires
        holds_at(d, p, enc_name(nm)),
        name_fits(nm),
    ensures
        name_at(d, p) == Some((encode_utf8(nm), p + enc_name(nm).len())),
        decoded_name(encode_utf8(nm)) == nm,
{
    lemma_auto_spec_u32_to_from_le_bytes();
    encode_utf8_valid_utf8(nm);
    encode_utf8_decode_utf8(nm);
    let b = encode_utf8(nm);
    if b.len() == 0 {
        lemma_u32_held(d, p, 0);
        assert(b =~= Seq::<u8>::empty());
    } else {
        let n = b.len() as u32;
        lemma_split(d, p, spec_u32_to_le_bytes(n) + b, seq![0u8]);
        lemma_split(d, p, spec_u32_to_le_bytes(n), b);
        lemma_u32_held(d, p, n);
    }
}

/// Reads a field window out of a tail of known layout.
proof fn lemma_file_tail_held(d: Seq<u8>, p: int, m: StoredMeta)
    requires
        holds_at(d, p, enc_file_tail(m)),
    ensures
        enc_file_tail(m).len() == FILE_TAIL(),
        u64_at(d, p) == m.offset,
        u32_at(d, p + 32) == FILE_ATTR,
        u32_at(d, p + 40) == compression_word(m.compression),
        u32_at(d, p + 44) == m.stored_size,
        u32_at(d, p + 48) == m.original_size,
{
    lemma_auto_spec_u32_to_from_le_bytes();
    lemma_auto_spec_u64_to_from_le_bytes();
    let z = spec_u64_to_le_bytes(0);
    let a = spec_u64_to_le_bytes(m.offset);
    let b = zero_times();
    let c = spec_u32_to_le_bytes(FILE_ATTR);
    let e = spec_u32_to_le_bytes(0);
    let f = spec_u32_to_le_bytes(compression_word(m.compression));
    let g = spec_u32_to_le_bytes(m.stored_size);
    let h = spec_u32_to_le_bytes(m.original_size);
    assert(b.len() == 24);
    lemma_split(d, p, a + b + c + e + f + g, h);
    lemma_split(d, p, a + b + c + e + f, g);
    lemma_split(d, p, a + b + c + e, f);
    lemma_split(d, p, a + b + c, e);
    lemma_split(d, p, a + b, c);
    lemma_split(d, p, a, b);
    lemma_u64_held(d, p, m.offset);
    lemma_u32_held(d, p + 32, FILE_ATTR);
    lemma_u32_held(d, p + 40, compression_word(m.compression));
    lemma_u32_held(d, p + 44, m.stored_size);
    lemma_u32_held(d, p + 48, m.original_size);
}

proof fn lemma_dir_tail_held(d: Seq<u8>, p: int, count: u32)
    requires
        holds_at(d, p, enc_dir_tail(count)),
    ensures
        enc_dir_tail(count).len() == DIR_TAIL(),
        u32_at(d, p + 28) == count,
{
    lemma_auto_spec_u32_to_from_le_bytes();
    lemma_auto_spec_u64_to_from_le_bytes();
    let b = zero_times();
    let c = spec_u32_to_le_bytes(DIR_ATTR);
    let e = spec_u32_to_le_bytes(count);
    assert(b.len() == 24);
    lemma_split(d, p, b + c, e);
    lemma_u32_held(d, p + 28, count);
}

/// A child node written at `pos` parses back: its attribute word, then its record.
proof fn lemma_parse_node(d: Seq<u8>, pos: int, dir: Seq<char>, n: WriteNode, fuel: nat)
    requires
        node_wf(n),
        holds_at(d, pos, enc_node(n)),
        fuel > enc_node(n).len(),
    ensures
        pos + 4 <= d.len(),
        match n {
            WriteNode::File { .. } => u32_at(d, pos) & DIR_ATTR == 0 && file_at(d, pos + 4, dir) == Some(
                (flat_node(n, dir)[0], pos + enc_node(n).len()),
            ) && flat_node(n, dir).len() == 1,
            WriteNode::Dir { .. } => u32_at(d, pos) & DIR_ATTR != 0 && dir_at(d, pos + 4, dir, fuel) == Some(
                (flat_node(n, dir), pos + enc_node(n).len()),
            ),
        },
    decreases n,
{
    lemma_auto_spec_u32_to_from_le_bytes();
    match n {
        WriteNode::File { name, meta } => {
            let a = spec_u32_to_le_bytes(FILE_ATTR);
            let nb = enc_name(name@);
            let t = enc_file_tail(meta);
            lemma_split(d, pos, a + nb, t);
            lemma_split(d, pos, a, nb);
            lemma_u32_held(d, pos, FILE_ATTR);
            lemma_name_held(d, pos + 4, name@);
            lemma_file_tail_held(d, pos + 4 + nb.len(), meta);
            assert(FILE_ATTR & DIR_ATTR == 0) by (bit_vector);
            assert(compression_of(compression_word(meta.compression)) == meta.compression);
        },
        WriteNode::Dir { name, children } => {
            let a = spec_u32_to_le_bytes(DIR_ATTR);
            let nb = enc_name(name@);
            let t = enc_dir_tail(children@.len() as u32);
            let body = enc_nodes(children@);
            lemma_split(d, pos, a + nb + t, body);
            lemma_split(d, pos, a + nb, t);
            lemma_split(d, pos, a, nb);
            lemma_u32_held(d, pos, DIR_ATTR);
            lemma_name_held(d, pos + 4, name@);
            lemma_dir_tail_held(d, pos + 4 + nb.len(), children@.len() as u32);
            assert(DIR_ATTR & DIR_ATTR != 0) by (bit_vector);
            let p = pos + 4 + nb.len();
            assert(decreases_to!(n => n->children));
            assert(decreases_to!(children => children@));
            assert forall|k: int| 0 <= k < children@.len() implies #[trigger] node_wf(children@[k]) by {
                lemma_nodes_wf_index(children@, k);
            }
            lemma_parse_nodes(d, p + 32, child_path(dir, name@), children@, (fuel - 1) as nat);
            assert(dir_path(dir, name@) == child_path(dir, name@));
        },
    }
}

/// A list of child nodes written at `pos` parses back into their files, in order.
proof fn lemma_parse_nodes(d: Seq<u8>, pos: int, dir: Seq<char>, s: Seq<WriteNode>, fuel: nat)
    requires
        nodes_wf_front(s),
        holds_at(d, pos, enc_nodes(s)),
        fuel > enc_nodes(s).len(),
    ensures
        entries_at(d, pos, dir, s.len(), fuel) == Some((flat_nodes(s, dir), pos + enc_nodes(s).len())),
    decreases s,
{
    if s.len() == 0 {
    } else {
        let x = enc_node(s[0]);
        let rest = s.drop_first();
        lemma_split(d, pos, x, enc_nodes(rest));
        assert(decreases_to!(s => s[0]));
        lemma_parse_node(d, pos, dir, s[0], fuel);
        assert forall|k: int| 0 <= k < rest.len() implies #[trigger] node_wf(rest[k]) by {
            assert(rest[k] == s[k + 1]);
        }
        lemma_parse_nodes(d, pos + x.len(), dir, rest, fuel);
        assert((s.len() - 1) as nat == rest.len());
    }
}

/// The root record written at `root` parses back into the files of the tree, under the
/// empty path, with as much fuel as the archive has bytes.
pub proof fn lemma_parse_root(d: Seq<u8>, root: int, s: Seq<WriteNode>)
    requires
        nodes_wf(s),
        s.len() <= u32::MAX,
        holds_at(d, root, enc_root(s)),
    ensures
        dir_at(d, root, Seq::<char>::empty(), d.len()) == Some(
            (flat_nodes(s, Seq::<char>::empty()), root + enc_root(s).len()),
        ),
{
    lemma_auto_spec_u32_to_from_le_bytes();
    let e = Seq::<char>::empty();
    let nb = enc_name(e);
    let t = enc_dir_tail(s.len() as u32);
    lemma_split(d, root, nb + t, enc_nodes(s));
    lemma_split(d, root, nb, t);
    assert(name_fits(e)) by {
        assert(encode_utf8(e) =~= Seq::<u8>::empty());
    }
    lemma_name_held(d, root, e);
    lemma_dir_tail_held(d, root + nb.len(), s.len() as u32);
    assert(encode_utf8(e) =~= Seq::<u8>::empty());
    assert(nb.len() == 4);
    assert(dir_path(e, e) == e);
    assert forall|k: int| 0 <= k < s.len() implies #[trigger] node_wf(s[k]) by {
        lemma_nodes_wf_index(s, k);
    }
    lemma_parse_nodes(d, root + 36, e, s, (d.len() - 1) as nat);
}

proof fn lemma_flat_nodes_push(s: Seq<WriteNode>, x: WriteNode, dir: Seq<char>)
    ensures
        flat_nodes(s.push(x), dir) == flat_nodes(s, dir) + flat_node(x, dir),
    decreases s.len(),
{
    let t = s.push(x);
    if s.len() == 0 {
        assert(t.drop_first() =~= Seq::<WriteNode>::empty());
        assert(t[0] == x);
        assert(flat_nodes(t.drop_first(), dir) == Seq::<EntrySpec>::empty());
        assert(flat_nodes(t, dir) == flat_node(x, dir) + Seq::<EntrySpec>::empty());
        assert(flat_node(x, dir) + Seq::<EntrySpec>::empty() =~= flat_node(x, dir));
        assert(flat_nodes(s, dir) + flat_node(x, dir) =~= flat_node(x, dir));
    } else {
        lemma_flat_nodes_push(s.drop_first(), x, dir);
        assert(t.drop_first() =~= s.drop_first().push(x));
        assert(t[0] == s[0]);
        assert(flat_nodes(t, dir) =~= flat_nodes(s, dir) + flat_node(x, dir));
    }
}

/// A node lists as many files as it counts.
pub proof fn lemma_flat_node_len(n: WriteNode, dir: Seq<char>)
    ensures
        flat_node(n, dir).len() == count_node(n),
    decreases n,
{
    if let WriteNode::Dir { name, children } = n {
        assert(decreases_to!(n => n->children));
        assert(decreases_to!(children => children@));
        lemma_flat_nodes_len(children@, child_path(dir, name@));
    }
}

/// A list of nodes lists as many files as it counts.
pub proof fn lemma_flat_nodes_len(s: Seq<WriteNode>, dir: Seq<char>)
    ensures
        flat_nodes(s, dir).len() == count_nodes(s),
    decreases s,
{
    if s.len() > 0 {
        let t = s.drop_last();
        assert(s == t.push(s.last()));
        lemma_flat_nodes_push(t, s.last(), dir);
        assert(decreases_to!(s => s[s.len() - 1]));
        lemma_flat_node_len(s.last(), dir);
        lemma_flat_nodes_len(t, dir);
    }
}

proof fn lemma_flat_nodes_elem(s: Seq<WriteNode>, dir: Seq<char>, i: int, k: int)
    requires
        0 <= i < s.len(),
        0 <= k < flat_node(s[i], dir).len(),
    ensures
        exists|j: int|
            0 <= j < flat_nodes(s, dir).len() && #[trigger] flat_nodes(s, dir)[j] == flat_node(s[i], dir)[k],
    decreases s.len(),
{
    if i == 0 {
        assert(flat_nodes(s, dir)[k] == flat_node(s[i], dir)[k]);
    } else {
        let r = s.drop_first();
        assert(r[i - 1] == s[i]);
        lemma_flat_nodes_elem(r, dir, i - 1, k);
        let j0 = choose|j: int| 0 <= j < flat_nodes(r, dir).len() && #[trigger] flat_nodes(r, dir)[j] == flat_node(r[i - 1], dir)[k];
        let j = flat_node(s[0], dir).len() + j0;
        assert(flat_nodes(s, dir)[j] == flat_nodes(r, dir)[j0]);
    }
}

/// A file present in the tree is listed, under its nested path, with the metadata it was
/// written with.
pub proof fn lemma_present_listed(s: Seq<WriteNode>, parts: Seq<Seq<char>>, m: StoredMeta, dir: Seq<char>)
    requires
        present(s, parts, m),
    ensures
        exists|j: int|
            0 <= j < flat_nodes(s, dir).len() && #[trigger] flat_nodes(s, dir)[j] == written_entry(
                nested_path(dir, parts),
                m,
            ),
    decreases parts.len(),
{
    if parts.len() == 1 {
        let i = choose|i: int| 0 <= i < s.len() && #[trigger] is_file_node(s[i], parts[0], m);
        assert(flat_node(s[i], dir)[0] == written_entry(nested_path(dir, parts), m));
        lemma_flat_nodes_elem(s, dir, i, 0);
    } else {
        let i = choose|i: int|
            0 <= i < s.len() && match #[trigger] s[i] {
                WriteNode::Dir { name, children } => name@ == parts[0] && present(children@, parts.drop_first(), m),
                _ => false,
            };
        match s[i] {
            WriteNode::Dir { name, children } => {
                let sub = child_path(dir, parts[0]);
                lemma_present_listed(children@, parts.drop_first(), m, sub);
                let j0 = choose|j: int|
                    0 <= j < flat_nodes(children@, sub).len() && #[trigger] flat_nodes(children@, sub)[j]
                        == written_entry(nested_path(sub, parts.drop_first()), m);
                assert(flat_node(s[i], dir) == flat_nodes(children@, sub));
                lemma_flat_nodes_elem(s, dir, i, j0);
            },
            _ => {},
        }
    }
}

proof fn lemma_join_first(parts: Seq<Seq<char>>)
    requires
        parts.len() >= 2,
    ensures
        join_components(parts) == parts[0] + seq!['/'] + join_components(parts.drop_first()),
    decreases parts.len(),
{
    if parts.len() == 2 {
        assert(parts.drop_last() =~= seq![parts[0]]);
        assert(parts.drop_first() =~= seq![parts[1]]);
        assert(join_components(parts.drop_last()) == parts[0]);
        assert(join_components(parts.drop_first()) == parts[1]);
    } else {
        let t = parts.drop_last();
        lemma_join_first(t);
        let r = parts.drop_first();
        assert(r.drop_last() =~= t.drop_first());
        assert(r.last() == parts.last());
        assert(join_components(r) == join_components(r.drop_last()) + seq!['/'] + r.last());
        assert(join_components(parts) == join_components(t) + seq!['/'] + parts.last());
        assert(join_components(parts) =~= parts[0] + seq!['/'] + join_components(r));
    }
}

/// The nested path of components is the directory, a slash, and the components joined.
pub proof fn lemma_nested_path(dir: Seq<char>, parts: Seq<Seq<char>>)
    requires
        parts.len() >= 1,
    ensures
        nested_path(dir, parts) == dir + seq!['/'] + join_components(parts),
    decreases parts.len(),
{
    if parts.len() == 1 {
        assert(join_components(parts) == parts[0]);
    } else {
        lemma_nested_path(child_path(dir, parts[0]), parts.drop_first());
        lemma_join_first(parts);
        assert(nested_path(dir, parts) =~= dir + seq!['/'] + join_components(parts));
    }
}

/// The bytes a file is stored as: its zlib stream for zlib storage, the bytes themselves
/// otherwise.
pub open spec fn stored_form(data: Seq<u8>, c: FileCompression) -> Seq<u8> {
    if c == FileCompression::ZLib {
        zlib_deflated(data)
    } else {
        data
    }
}

/// The fixed 48-byte header of a written archive.
pub open spec fn header_bytes(word: u32, root: u64, volume: u64) -> Seq<u8> {
    spec_u32_to_le_bytes(1) + spec_u32_to_le_bytes(0x3056_3347) + spec_u32_to_le_bytes(0)
        + spec_u32_to_le_bytes(0) + spec_u32_to_le_bytes(word) + spec_u32_to_le_bytes(0)
        + spec_u64_to_le_bytes(48) + spec_u64_to_le_bytes(root) + spec_u64_to_le_bytes(volume)
}

/// The header a written archive carries.
pub open spec fn written_header(word: u32, root: u64, volume: u64) -> PakHeader {
    PakHeader {
        version: 1,
        product: 0x3056_3347,
        revision: 0,
        encryption: 0,
        compression: word,
        data_offset: 48,
        root_offset: root,
        volume_size: volume,
    }
}

pub proof fn lemma_header_held(d: Seq<u8>, word: u32, root: u64, volume: u64)
    requires
        holds_at(d, 0, header_bytes(word, root, volume)),
    ensures
        header_of(d) == written_header(word, root, volume),
        header_bytes(word, root, volume).len() == 48,
{
    lemma_auto_spec_u32_to_from_le_bytes();
    lemma_auto_spec_u64_to_from_le_bytes();
    let a = spec_u32_to_le_bytes(1);
    let b = spec_u32_to_le_bytes(0x3056_3347);
    let z = spec_u32_to_le_bytes(0);
    let w = spec_u32_to_le_bytes(word);
    let o = spec_u64_to_le_bytes(48);
    let r = spec_u64_to_le_bytes(root);
    let v = spec_u64_to_le_bytes(volume);
    lemma_split(d, 0, a + b + z + z + w + z + o + r, v);
    lemma_split(d, 0, a + b + z + z + w + z + o, r);
    lemma_split(d, 0, a + b + z + z + w + z, o);
    lemma_split(d, 0, a + b + z + z + w, z);
    lemma_split(d, 0, a + b + z + z, w);
    lemma_split(d, 0, a + b + z, z);
    lemma_split(d, 0, a + b, z);
    lemma_split(d, 0, a, b);
    lemma_u32_held(d, 0, 1);
    lemma_u32_held(d, 4, 0x3056_3347);
    lemma_u32_held(d, 8, 0);
    lemma_u32_held(d, 12, 0);
    lemma_u32_held(d, 16, word);
    lemma_u64_held(d, 24, 48);
    lemma_u64_held(d, 32, root);
    lemma_u64_held(d, 40, volume);
}

/// Among `es` is the file `path` written from `data` with storage `c`, and its contents read
/// back as `data` (for an archive small enough that every offset in it can be sought to).
pub open spec fn lists_file(d: Seq<u8>, es: Seq<EntrySpec>, path: Seq<char>, data: Seq<u8>, c: FileCompression) -> bool {
    exists|j: int|
        0 <= j < es.len() && (#[trigger] es[j]).path == seq!['/'] + path && es[j].compression == c
            && es[j].file_size == data.len() && es[j].file_attributes == FILE_ATTR && (d.len()
            <= 0x7fff_ffff_ffff_ffff ==> entry_contents(d, es[j]) == Some(data))
}

/// The archive `d` lists exactly as many files as were written, and each written file under
/// `/` and its relative path, with its contents.
pub open spec fn holds_files(d: Seq<u8>, paths: Seq<Seq<char>>, datas: Seq<Seq<u8>>, c: FileCompression) -> bool {
    &&& archive_entries(d) is Some
    &&& archive_entries(d).unwrap().len() == paths.len()
    &&& forall|i: int| 0 <= i < paths.len() ==> #[trigger] lists_file(d, archive_entries(d).unwrap(), paths[i], datas[i], c)
}

/// A written archive: header with the root offset, file data where the tree's metadata says,
/// and the root record at the root offset, reads back every written file.
pub proof fn lemma_written_archive(
    d: Seq<u8>,
    root: int,
    tree: Seq<WriteNode>,
    paths: Seq<Seq<char>>,
    datas: Seq<Seq<u8>>,
    metas: Seq<StoredMeta>,
    c: FileCompression,
)
    requires
        d.len() >= 48,
        header_of(d).root_offset == root,
        holds_at(d, root, enc_root(tree)),
        nodes_wf(tree),
        tree.len() <= u32::MAX,
        count_nodes(tree) == paths.len(),
        paths.len() == datas.len(),
        paths.len() == metas.len(),
        forall|k: int| 0 <= k < paths.len() ==> #[trigger] writable_path(paths[k]),
        forall|k: int| 0 <= k < paths.len() ==> present(tree, components(#[trigger] paths[k]), metas[k]),
        forall|k: int|
            0 <= k < paths.len() ==> {
                let st = stored_form(datas[k], c);
                &&& holds_at(d, (#[trigger] metas[k]).offset as int, st)
                &&& metas[k].stored_size == st.len()
                &&& metas[k].original_size == datas[k].len()
                &&& metas[k].compression == c
                &&& c == FileCompression::ZLib ==> zlib_inflated(st) == Some(datas[k])
            },
    ensures
        holds_files(d, paths, datas, c),
{
    let e = Seq::<char>::empty();
    lemma_parse_root(d, root, tree);
    let es = flat_nodes(tree, e);
    assert(archive_entries(d) == Some(es));
    lemma_flat_nodes_len(tree, e);
    assert forall|i: int| 0 <= i < paths.len() implies #[trigger] lists_file(d, es, paths[i], datas[i], c) by {
        let comps = components(paths[i]);
        let m = metas[i];
        lemma_present_listed(tree, comps, m, e);
        let j = choose|j: int| 0 <= j < es.len() && #[trigger] es[j] == written_entry(nested_path(e, comps), m);
        lemma_components_nonempty(paths[i]);
        lemma_nested_path(e, comps);
        lemma_join_components(paths[i]);
        assert(es[j].path =~= seq!['/'] + paths[i]);
        let st = stored_form(datas[i], c);
        assert(holds_at(d, m.offset as int, st));
        if d.len() <= 0x7fff_ffff_ffff_ffff {
            assert(stored_bytes(d, es[j]) == Some(st)) by {
                if st.len() == 0 {
                    assert(st =~= Seq::<u8>::empty());
                }
            }
        }
    }
}

/// Among `es` is an entry for the file written under `/path` with `m`.
pub open spec fn lists_written(es: Seq<EntrySpec>, path: Seq<char>, m: StoredMeta) -> bool {
    exists|j: int| 0 <= j < es.len() && #[trigger] es[j] == written_entry(seq!['/'] + path, m)
}

/// A written tree at the header's root offset lists exactly its files, each under `/` and
/// the relative path it was inserted with.
pub proof fn lemma_tree_listed(
    d: Seq<u8>,
    root: int,
    tree: Seq<WriteNode>,
    paths: Seq<Seq<char>>,
    metas: Seq<StoredMeta>,
)
    requires
        d.len() >= 48,
        header_of(d).root_offset == root,
        holds_at(d, root, enc_root(tree)),
        nodes_wf(tree),
        tree.len() <= u32::MAX,
        count_nodes(tree) == paths.len(),
        paths.len() == metas.len(),
        forall|k: int| 0 <= k < paths.len() ==> #[trigger] writable_path(paths[k]),
        forall|k: int| 0 <= k < paths.len() ==> present(tree, components(#[trigger] paths[k]), metas[k]),
    ensures
        archive_entries(d) == Some(flat_nodes(tree, Seq::<char>::empty())),
        flat_nodes(tree, Seq::<char>::empty()).len() == paths.len(),
        forall|k: int|
            0 <= k < paths.len() ==> #[trigger] lists_written(
                flat_nodes(tree, Seq::<char>::empty()),
                paths[k],
                metas[k],
            ),
{
    let e = Seq::<char>::empty();
    lemma_parse_root(d, root, tree);
    let es = flat_nodes(tree, e);
    lemma_flat_nodes_len(tree, e);
    assert forall|i: int| 0 <= i < paths.len() implies #[trigger] lists_written(es, paths[i], metas[i]) by {
        let comps = components(paths[i]);
        let m = metas[i];
        lemma_present_listed(tree, comps, m, e);
        let j = choose|j: int| 0 <= j < es.len() && #[trigger] es[j] == written_entry(nested_path(e, comps), m);
        lemma_components_nonempty(paths[i]);
        lemma_nested_path(e, comps);
        lemma_join_components(paths[i]);
        assert(nested_path(e, comps) =~= seq!['/'] + paths[i]);
    }
}

/// An entry whose stored size matches a window holding `raw` at its offset reads as `raw`.
pub proof fn lemma_stored_window(d: Seq<u8>, e: EntrySpec, raw: Seq<u8>)
    requires
        holds_at(d, e.data_offset as int, raw),
        e.data_size == raw.len(),
        d.len() <= 0x7fff_ffff_ffff_ffff,
    ensures
        stored_bytes(d, e) == Some(raw),
{
    if raw.len() == 0 {
        assert(raw =~= Seq::<u8>::empty());
    }
}

/// Well-formedness stated front-first, as the parser walks the list.
pub open spec fn nodes_wf_front(s: Seq<WriteNode>) -> bool {
    forall|k: int| 0 <= k < s.len() ==> #[trigger] node_wf(s[k])
}

} // verus!
