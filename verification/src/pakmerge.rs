//! Merging a patch volume into a full archive: every base entry is carried over with its
//! stored bytes unless the patch has the same path (the patch's entry then wins, or the entry
//! is dropped when the patch marks it deleted); entries only the patch has are appended.

use vstd::prelude::*;
use vstd::bytes::{spec_u32_to_le_bytes, spec_u64_to_le_bytes};
use vstd::bytes::{lemma_auto_spec_u32_to_from_le_bytes, lemma_auto_spec_u64_to_from_le_bytes};
use vstd::slice::slice_to_vec;
use crate::le::{push_u32, push_u64, set_u64_at};
use crate::pak::{
    EntrySpec, FileEntry, PakArchive, PakError, PakHeader, DELETED_ATTR, entries_view, stored_bytes,
    entry_contents, header_of, archive_entries, FileCompression,
};
use crate::pakproof::{
    holds_at, lemma_split, lemma_u32_held, lemma_u64_held, lemma_holds_transfer, lemma_tree_listed,
    lemma_stored_window, lists_written, written_entry,
};
use crate::pakwrite::{
    WriteNode, StoredMeta, FILE_ATTR, components, writable_path, nodes_wf, count_nodes, present,
    enc_root, strings_view, name_fits, parts_ok, lemma_components_nonempty, lemma_len_le_count,
    split_components, insert_write_node, write_directory_tree,
};
use crate::text::{chars_of, string_from_chars};

verus! {

/// `s` without its leading slashes.
pub open spec fn trim_slashes(s: Seq<char>) -> Seq<char>
    decreases s.len(),
{
    if s.len() > 0 && s[0] == '/' {
        trim_slashes(s.drop_first())
    } else {
        s
    }
}

/// The entry is marked deleted.
pub open spec fn entry_deleted(e: EntrySpec) -> bool {
    e.file_attributes & DELETED_ATTR != 0
}

/// The last entry of `es` with path `path`.
pub open spec fn last_with_path(es: Seq<EntrySpec>, path: Seq<char>) -> Option<EntrySpec>
    decreases es.len(),
{
    if es.len() == 0 {
        None
    } else if es.last().path == path {
        Some(es.last())
    } else {
        last_with_path(es.drop_last(), path)
    }
}

/// Some entry of `es` has path `path`.
pub open spec fn has_path_spec(es: Seq<EntrySpec>, path: Seq<char>) -> bool {
    exists|k: int| 0 <= k < es.len() && (#[trigger] es[k]).path == path
}

/// One file of the merged archive: the relative path it is written under, and the entry (of
/// the patch, or of the base) whose stored bytes it carries.
pub struct MergeItem {
    pub path: Seq<char>,
    pub from_patch: bool,
    pub entry: EntrySpec,
}

/// What a base entry contributes: the patch's entry of the same path (nothing when that one
/// is deleted), else the base entry itself unless deleted.
pub open spec fn base_item(b: EntrySpec, ps: Seq<EntrySpec>) -> Seq<MergeItem> {
    match last_with_path(ps, b.path) {
        Some(p) => if entry_deleted(p) {
            Seq::<MergeItem>::empty()
        } else {
            seq![MergeItem { path: trim_slashes(b.path), from_patch: true, entry: p }]
        },
        None => if entry_deleted(b) {
            Seq::<MergeItem>::empty()
        } else {
            seq![MergeItem { path: trim_slashes(b.path), from_patch: false, entry: b }]
        },
    }
}

/// What a patch entry contributes on its own: itself, unless deleted or already in the base.
pub open spec fn patch_item(p: EntrySpec, bs: Seq<EntrySpec>) -> Seq<MergeItem> {
    if entry_deleted(p) || has_path_spec(bs, p.path) {
        Seq::<MergeItem>::empty()
    } else {
        seq![MergeItem { path: trim_slashes(p.path), from_patch: true, entry: p }]
    }
}

/// The contributions of base entries, in order.
pub open spec fn base_items(bs: Seq<EntrySpec>, ps: Seq<EntrySpec>) -> Seq<MergeItem>
    decreases bs.len(),
{
    if bs.len() == 0 {
        Seq::<MergeItem>::empty()
    } else {
        base_items(bs.drop_last(), ps) + base_item(bs.last(), ps)
    }
}

/// The contributions of patch-only entries, in order.
pub open spec fn patch_items(ps: Seq<EntrySpec>, bs: Seq<EntrySpec>) -> Seq<MergeItem>
    decreases ps.len(),
{
    if ps.len() == 0 {
        Seq::<MergeItem>::empty()
    } else {
        patch_items(ps.drop_last(), bs) + patch_item(ps.last(), bs)
    }
}

/// The files of the merged archive, in the order they are written.
pub open spec fn merge_items(bs: Seq<EntrySpec>, ps: Seq<EntrySpec>) -> Seq<MergeItem> {
    base_items(bs, ps) + patch_items(ps, bs)
}

/// The stored bytes an item carries over, read from the archive it comes from.
pub open spec fn item_raw(base: Seq<u8>, patch: Seq<u8>, it: MergeItem) -> Option<Seq<u8>> {
    stored_bytes(if it.from_patch { patch } else { base }, it.entry)
}

/// `s` without its leading slashes.
pub(crate) fn trim_leading_slashes(s: &String) -> (t: String)
    ensures
        t@ == trim_slashes(s@),
{
    let cs = chars_of(s.as_str());
    proof {
        assert(cs@.subrange(0, cs@.len() as int) =~= cs@);
    }
    let mut i: usize = 0;
    while i < cs.len() && cs[i] == '/'
        invariant
            i <= cs@.len(),
            cs@ == s@,
            trim_slashes(s@) == trim_slashes(cs@.subrange(i as int, cs@.len() as int)),
        decreases cs.len() - i,
    {
        proof {
            let r = cs@.subrange(i as int, cs@.len() as int);
            assert(r.drop_first() =~= cs@.subrange(i + 1, cs@.len() as int));
        }
        i += 1;
    }
    proof {
        let r = cs@.subrange(i as int, cs@.len() as int);
        if i < cs@.len() {
            assert(r[0] == cs@[i as int]);
        }
    }
    string_from_chars(cs.as_slice(), i, cs.len())
}

/// The index of the last entry of `es` with path `path`.
fn find_last_with_path(es: &Vec<FileEntry>, path: &String) -> (r: Option<usize>)
    ensures
        match last_with_path(entries_view(es@), path@) {
            None => r is None,
            Some(e) => r matches Some(k) && k < es@.len() && es@[k as int]@ == e,
        },
{
    let ghost v = entries_view(es@);
    proof {
        assert(v.take(v.len() as int) =~= v);
    }
    let mut i = es.len();
    while i > 0
        invariant
            i <= es@.len(),
            v == entries_view(es@),
            last_with_path(v, path@) == last_with_path(v.take(i as int), path@),
        decreases i,
    {
        proof {
            let t = v.take(i as int);
            assert(t.drop_last() =~= v.take(i - 1));
            assert(t.last() == es@[i - 1]@);
        }
        if es[i - 1].path.eq(path) {
            return Some(i - 1);
        }
        i -= 1;
    }
    None
}

/// Whether some entry of `es` has path `path`.
fn has_path(es: &Vec<FileEntry>, path: &String) -> (b: bool)
    ensures
        b == has_path_spec(entries_view(es@), path@),
{
    let mut i: usize = 0;
    while i < es.len()
        invariant
            i <= es@.len(),
            forall|k: int| 0 <= k < i ==> es@[k].path@ != path@,
        decreases es.len() - i,
    {
        if es[i].path.eq(path) {
            proof {
                assert(entries_view(es@)[i as int].path == path@);
            }
            return true;
        }
        i += 1;
    }
    proof {
        assert forall|k: int| 0 <= k < entries_view(es@).len() implies (#[trigger] entries_view(es@)[k]).path != path@ by {
            assert(es@[k].path@ != path@);
        }
    }
    false
}

/// Every item of a merge sits before the rest: a prefix of the base entries contributes a
/// prefix of the base items.
proof fn lemma_base_items_prefix(bs: Seq<EntrySpec>, ps: Seq<EntrySpec>, n: int)
    requires
        0 <= n <= bs.len(),
    ensures
        base_items(bs.take(n), ps).len() <= base_items(bs, ps).len(),
        forall|k: int|
            0 <= k < base_items(bs.take(n), ps).len() ==> #[trigger] base_items(bs, ps)[k] == base_items(
                bs.take(n),
                ps,
            )[k],
    decreases bs.len(),
{
    if n == bs.len() {
        assert(bs.take(n) =~= bs);
    } else {
        lemma_base_items_prefix(bs.drop_last(), ps, n);
        assert(bs.drop_last().take(n) =~= bs.take(n));
    }
}

proof fn lemma_patch_items_prefix(ps: Seq<EntrySpec>, bs: Seq<EntrySpec>, n: int)
    requires
        0 <= n <= ps.len(),
    ensures
        patch_items(ps.take(n), bs).len() <= patch_items(ps, bs).len(),
        forall|k: int|
            0 <= k < patch_items(ps.take(n), bs).len() ==> #[trigger] patch_items(ps, bs)[k] == patch_items(
                ps.take(n),
                bs,
            )[k],
    decreases ps.len(),
{
    if n == ps.len() {
        assert(ps.take(n) =~= ps);
    } else {
        lemma_patch_items_prefix(ps.drop_last(), bs, n);
        assert(ps.drop_last().take(n) =~= ps.take(n));
    }
}

/// The header of the merged archive: the base's fields, the data right after the header.
pub open spec fn merged_header(h: PakHeader, root: u64, volume: u64) -> PakHeader {
    PakHeader {
        version: h.version,
        product: h.product,
        revision: h.revision,
        encryption: h.encryption,
        compression: h.compression,
        data_offset: 48,
        root_offset: root,
        volume_size: volume,
    }
}

/// The 48 bytes a header is stored as (the reserved word zero).
pub open spec fn header_bytes_for(h: PakHeader) -> Seq<u8> {
    spec_u32_to_le_bytes(h.version) + spec_u32_to_le_bytes(h.product) + spec_u32_to_le_bytes(h.revision)
        + spec_u32_to_le_bytes(h.encryption) + spec_u32_to_le_bytes(h.compression) + spec_u32_to_le_bytes(0)
        + spec_u64_to_le_bytes(h.data_offset) + spec_u64_to_le_bytes(h.root_offset) + spec_u64_to_le_bytes(
        h.volume_size,
    )
}

proof fn lemma_header_for_held(d: Seq<u8>, h: PakHeader)
    requires
        holds_at(d, 0, header_bytes_for(h)),
    ensures
        header_of(d) == h,
        header_bytes_for(h).len() == 48,
{
    lemma_auto_spec_u32_to_from_le_bytes();
    lemma_auto_spec_u64_to_from_le_bytes();
    let a = spec_u32_to_le_bytes(h.version);
    let b = spec_u32_to_le_bytes(h.product);
    let c = spec_u32_to_le_bytes(h.revision);
    let e = spec_u32_to_le_bytes(h.encryption);
    let w = spec_u32_to_le_bytes(h.compression);
    let z = spec_u32_to_le_bytes(0);
    let o = spec_u64_to_le_bytes(h.data_offset);
    let r = spec_u64_to_le_bytes(h.root_offset);
    let v = spec_u64_to_le_bytes(h.volume_size);
    lemma_split(d, 0, a + b + c + e + w + z + o + r, v);
    lemma_split(d, 0, a + b + c + e + w + z + o, r);
    lemma_split(d, 0, a + b + c + e + w + z, o);
    lemma_split(d, 0, a + b + c + e + w, z);
    lemma_split(d, 0, a + b + c + e, w);
    lemma_split(d, 0, a + b + c, e);
    lemma_split(d, 0, a + b, c);
    lemma_split(d, 0, a, b);
    lemma_u32_held(d, 0, h.version);
    lemma_u32_held(d, 4, h.product);
    lemma_u32_held(d, 8, h.revision);
    lemma_u32_held(d, 12, h.encryption);
    lemma_u32_held(d, 16, h.compression);
    lemma_u64_held(d, 24, h.data_offset);
    lemma_u64_held(d, 32, h.root_offset);
    lemma_u64_held(d, 40, h.volume_size);
}

/// The archive an item comes from.
pub open spec fn item_source(base: Seq<u8>, patch: Seq<u8>, it: MergeItem) -> Seq<u8> {
    if it.from_patch {
        patch
    } else {
        base
    }
}

/// The merged archive `d` lists, under `/` and the item's path, an entry with the item's sizes
/// and storage mode whose stored bytes are `raw` and whose contents are the source entry's.
pub open spec fn lists_item(d: Seq<u8>, es: Seq<EntrySpec>, it: MergeItem, src: Seq<u8>) -> bool {
    exists|j: int|
        0 <= j < es.len() && (#[trigger] es[j]).path == seq!['/'] + it.path && es[j].data_size
            == it.entry.data_size && es[j].file_size == it.entry.file_size && es[j].compression
            == it.entry.compression && es[j].file_attributes == FILE_ATTR && (d.len()
            <= 0x7fff_ffff_ffff_ffff ==> stored_bytes(d, es[j]) == stored_bytes(src, it.entry)
            && entry_contents(d, es[j]) == entry_contents(src, it.entry))
}

/// Fewer items than a 32-bit count can hold, each under a writable relative path.
pub open spec fn items_writable(items: Seq<MergeItem>) -> bool {
    &&& items.len() < u32::MAX
    &&& forall|k: int| 0 <= k < items.len() ==> #[trigger] writable_path(items[k].path)
}

/// The merged archive `d` lists exactly the merge's items, each as `lists_item` says.
pub open spec fn holds_items(d: Seq<u8>, items: Seq<MergeItem>, base: Seq<u8>, patch: Seq<u8>) -> bool {
    &&& archive_entries(d) is Some
    &&& archive_entries(d).unwrap().len() == items.len()
    &&& forall|k: int|
        0 <= k < items.len() ==> #[trigger] lists_item(
            d,
            archive_entries(d).unwrap(),
            items[k],
            item_source(base, patch, items[k]),
        )
}

/// The items written so far, with where each went.
pub open spec fn items_stored(
    out: Seq<u8>,
    tree: Seq<WriteNode>,
    items: Seq<MergeItem>,
    metas: Seq<StoredMeta>,
    base: Seq<u8>,
    patch: Seq<u8>,
) -> bool {
    &&& metas.len() == items.len()
    &&& count_nodes(tree) == items.len()
    &&& items_writable(items) ==> nodes_wf(tree)
    &&& forall|k: int|
        0 <= k < items.len() ==> {
            &&& item_raw(base, patch, #[trigger] items[k]) is Some
            &&& metas[k].offset >= 48
            &&& holds_at(out, metas[k].offset as int, item_raw(base, patch, items[k]).unwrap())
            &&& metas[k].stored_size == items[k].entry.data_size
            &&& metas[k].original_size == items[k].entry.file_size
            &&& metas[k].compression == items[k].entry.compression
            &&& present(tree, components(items[k].path), metas[k])
        }
}

/// Appends one item's stored bytes and enters it into the tree under `path`.
fn store_item(
    out: &mut Vec<u8>,
    tree: &mut Vec<WriteNode>,
    written: &mut Vec<StoredMeta>,
    path: &String,
    raw: Vec<u8>,
    stored_size: u32,
    original_size: u32,
    compression: FileCompression,
)
    ensures
        final(out)@ == old(out)@ + raw@,
        (old(out)@.len() as u64) as int == old(out)@.len(),
        final(written)@ == old(written)@.push(
            StoredMeta { offset: old(out)@.len() as u64, stored_size, original_size, compression },
        ),
        count_nodes(final(tree)@) == count_nodes(old(tree)@) + 1,
        present(
            final(tree)@,
            components(path@),
            StoredMeta { offset: old(out)@.len() as u64, stored_size, original_size, compression },
        ),
        forall|ps: Seq<Seq<char>>, m2: StoredMeta|
            present(old(tree)@, ps, m2) ==> #[trigger] present(final(tree)@, ps, m2),
        writable_path(path@) && nodes_wf(old(tree)@) && count_nodes(old(tree)@) < u32::MAX ==> nodes_wf(
            final(tree)@,
        ),
{
    let parts = split_components(path);
    let n = out.len();
    let offset = n as u64;
    assert(offset as int == n);
    let m = StoredMeta { offset, stored_size, original_size, compression };
    let mut raw = raw;
    out.append(&mut raw);
    written.push(m);
    proof {
        lemma_components_nonempty(path@);
        if writable_path(path@) {
            assert forall|k: int| 0 <= k < parts@.len() implies #[trigger] parts@[k]@.len() > 0 && name_fits(
                parts@[k]@,
            ) by {
                assert(parts@[k]@ == components(path@)[k]);
            }
            assert(parts_ok(parts@, 0));
        }
    }
    insert_write_node(tree, &parts, 0, m);
    proof {
        assert(strings_view(parts@).subrange(0, parts@.len() as int) =~= components(path@));
    }
}

/// Merges the patch volume `patch` into the full archive `base`, giving the merged archive's
/// bytes and how many files it holds. Base entries come first, in order: one the patch also
/// has (its last entry of that path) takes the patch's entry, or is dropped when that entry
/// is deleted; a deleted base entry the patch does not touch is dropped. Then every patch
/// entry the base lacks, unless deleted. Stored bytes are copied as they are; the header's
/// fields come from the base. Fails when an entry to copy ends past its archive's bytes.
pub fn merge_into_full_pak(base: &PakArchive, patch: &PakArchive) -> (r: Result<(Vec<u8>, usize), PakError>)
    ensures
        r is Err <==> exists|k: int|
            0 <= k < merge_items(base.entry_specs(), patch.entry_specs()).len() && item_raw(
                base.bytes(),
                patch.bytes(),
                #[trigger] merge_items(base.entry_specs(), patch.entry_specs())[k],
            ) is None,
        r matches Err(e) ==> e == PakError::UnexpectedEof,
        r matches Ok((out, count)) ==> {
            &&& count == merge_items(base.entry_specs(), patch.entry_specs()).len()
            &&& out@.len() >= 48
            &&& header_of(out@) == merged_header(base.header_spec(), header_of(out@).root_offset, out@.len() as u64)
            &&& 48 <= header_of(out@).root_offset <= out@.len()
            &&& out@.subrange(0, 48) == header_bytes_for(header_of(out@))
            &&& items_writable(merge_items(base.entry_specs(), patch.entry_specs())) ==> holds_items(
                out@,
                merge_items(base.entry_specs(), patch.entry_specs()),
                base.bytes(),
                patch.bytes(),
            )
        },
{
    let bs = base.files();
    let ps = patch.files();
    let ghost bsv = base.entry_specs();
    let ghost psv = patch.entry_specs();
    let ghost bd = base.bytes();
    let ghost pd = patch.bytes();
    let ghost all = merge_items(bsv, psv);
    let bh = base.get_header();
    let ghost h0 = merged_header(bh, 0, 0);
    let mut out: Vec<u8> = Vec::new();
    push_u32(&mut out, bh.version);
    push_u32(&mut out, bh.product);
    push_u32(&mut out, bh.revision);
    push_u32(&mut out, bh.encryption);
    push_u32(&mut out, bh.compression);
    push_u32(&mut out, 0);
    push_u64(&mut out, 48);
    push_u64(&mut out, 0);
    push_u64(&mut out, 0);
    proof {
        lemma_auto_spec_u32_to_from_le_bytes();
        lemma_auto_spec_u64_to_from_le_bytes();
        assert(out@ =~= header_bytes_for(h0));
        assert(out@.subrange(0, 48) =~= out@);
        assert(bsv.take(0) =~= Seq::<EntrySpec>::empty());
    }
    let mut tree: Vec<WriteNode> = Vec::new();
    let mut written: Vec<StoredMeta> = Vec::new();
    let ghost mut items: Seq<MergeItem> = Seq::empty();
    let mut i: usize = 0;
    while i < bs.len()
        invariant
            i <= bs@.len(),
            bsv == entries_view(bs@),
            psv == entries_view(ps@),
            bsv == base.entry_specs(),
            psv == patch.entry_specs(),
            all == merge_items(bsv, psv),
            bd == base.bytes(),
            pd == patch.bytes(),
            h0 == merged_header(bh, 0, 0),
            items == base_items(bsv.take(i as int), psv),
            out@.len() >= 48,
            out@.subrange(0, 48) == header_bytes_for(h0),
            items_stored(out@, tree@, items, written@, bd, pd),
        decreases bs.len() - i,
    {
        let ghost before = out@;
        let ghost old_tree = tree@;
        let ghost old_written = written@;
        let ghost b = bsv[i as int];
        proof {
            let t = bsv.take(i + 1);
            assert(t.drop_last() =~= bsv.take(i as int));
            assert(t.last() == b);
            assert(b == bs@[i as int]@);
            lemma_base_items_prefix(bsv, psv, i + 1);
        }
        let found = find_last_with_path(&ps, &bs[i].path);
        let mut added = false;
        let ghost mut new_raw = Seq::<u8>::empty();
        match found {
            Some(k) => {
                if !ps[k].is_deleted() {
                    let raw = match patch.read_file_raw(&ps[k]) {
                        Ok(v) => v,
                        Err(_) => {
                            proof {
                                let pos = items.len() as int;
                                let t = bsv.take(i + 1);
                                assert(base_items(t, psv) == base_items(t.drop_last(), psv) + base_item(t.last(), psv));
                                assert(base_items(t, psv)[pos] == base_item(b, psv)[0]);
                                assert(base_items(bsv, psv)[pos] == base_items(t, psv)[pos]);
                                assert(all[pos] == base_items(bsv, psv)[pos]);
                                assert(item_raw(bd, pd, all[pos]) is None);
                                assert(0 <= pos < all.len());
                            }
                            return Err(PakError::UnexpectedEof);
                        },
                    };
                    let tp = trim_leading_slashes(&bs[i].path);
                    let ghost rv = raw@;
                    store_item(&mut out, &mut tree, &mut written, &tp, raw, ps[k].data_size, ps[k].file_size, ps[k].compression);
                    proof {
                        items = items.push(MergeItem { path: tp@, from_patch: true, entry: ps@[k as int]@ });
                        new_raw = rv;
                        assert(item_raw(bd, pd, items.last()) == Some(rv));
                    }
                    added = true;
                }
            },
            None => {
                if !bs[i].is_deleted() {
                    let raw = match base.read_file_raw(&bs[i]) {
                        Ok(v) => v,
                        Err(_) => {
                            proof {
                                let pos = items.len() as int;
                                let t = bsv.take(i + 1);
                                assert(base_items(t, psv) == base_items(t.drop_last(), psv) + base_item(t.last(), psv));
                                assert(base_items(t, psv)[pos] == base_item(b, psv)[0]);
                                assert(base_items(bsv, psv)[pos] == base_items(t, psv)[pos]);
                                assert(all[pos] == base_items(bsv, psv)[pos]);
                                assert(item_raw(bd, pd, all[pos]) is None);
                                assert(0 <= pos < all.len());
                            }
                            return Err(PakError::UnexpectedEof);
                        },
                    };
                    let tp = trim_leading_slashes(&bs[i].path);
                    let ghost rv = raw@;
                    store_item(&mut out, &mut tree, &mut written, &tp, raw, bs[i].data_size, bs[i].file_size, bs[i].compression);
                    proof {
                        items = items.push(MergeItem { path: tp@, from_patch: false, entry: b });
                        new_raw = rv;
                        assert(item_raw(bd, pd, items.last()) == Some(rv));
                    }
                    added = true;
                }
            },
        }
        proof {
            assert(items == base_items(bsv.take(i + 1), psv));
            assert(out@.subrange(0, 48) =~= before.subrange(0, 48));
            if added {
                let n = items.len() - 1;
                assert forall|k: int| 0 <= k < items.len() implies {
                    &&& item_raw(bd, pd, #[trigger] items[k]) is Some
                    &&& written@[k].offset >= 48
                    &&& holds_at(out@, written@[k].offset as int, item_raw(bd, pd, items[k]).unwrap())
                    &&& written@[k].stored_size == items[k].entry.data_size
                    &&& written@[k].original_size == items[k].entry.file_size
                    &&& written@[k].compression == items[k].entry.compression
                    &&& present(tree@, components(items[k].path), written@[k])
                } by {
                    if k < n {
                        assert(items[k] == items.drop_last()[k]);
                        assert(written@[k] == old_written[k]);
                        assert(present(old_tree, components(items[k].path), old_written[k]));
                        lemma_holds_transfer(before, out@, written@[k].offset as int, item_raw(bd, pd, items[k]).unwrap(), 0);
                    } else {
                        assert(item_raw(bd, pd, items[k]).unwrap() == new_raw);
                        assert(out@.subrange(before.len() as int, (before.len() + new_raw.len()) as int) =~= new_raw);
                    }
                }
                if items_writable(items) {
                    assert(items_writable(items.drop_last())) by {
                        assert forall|k: int| 0 <= k < items.drop_last().len() implies #[trigger] writable_path(items.drop_last()[k].path) by {
                            assert(items.drop_last()[k] == items[k]);
                        }
                    }
                    assert(items.drop_last() =~= base_items(bsv.take(i as int), psv));
                    assert(writable_path(items[n].path));
                }
            }
        }
        i += 1;
    }
    proof {
        assert(bsv.take(bsv.len() as int) =~= bsv);
        assert(psv.take(0) =~= Seq::<EntrySpec>::empty());
        assert(items + patch_items(psv.take(0), bsv) =~= items);
    }
    let mut j: usize = 0;
    while j < ps.len()
        invariant
            j <= ps@.len(),
            bsv == entries_view(bs@),
            psv == entries_view(ps@),
            bsv == base.entry_specs(),
            psv == patch.entry_specs(),
            all == merge_items(bsv, psv),
            bd == base.bytes(),
            pd == patch.bytes(),
            h0 == merged_header(bh, 0, 0),
            items == base_items(bsv, psv) + patch_items(psv.take(j as int), bsv),
            out@.len() >= 48,
            out@.subrange(0, 48) == header_bytes_for(h0),
            items_stored(out@, tree@, items, written@, bd, pd),
        decreases ps.len() - j,
    {
        let ghost before = out@;
        let ghost old_tree = tree@;
        let ghost old_written = written@;
        let ghost old_items = items;
        let ghost p = psv[j as int];
        proof {
            let t = psv.take(j + 1);
            assert(t.drop_last() =~= psv.take(j as int));
            assert(t.last() == p);
            assert(p == ps@[j as int]@);
            lemma_patch_items_prefix(psv, bsv, j + 1);
        }
        let mut added = false;
        let ghost mut new_raw = Seq::<u8>::empty();
        if !ps[j].is_deleted() && !has_path(&bs, &ps[j].path) {
            let raw = match patch.read_file_raw(&ps[j]) {
                Ok(v) => v,
                Err(_) => {
                    proof {
                        let q = patch_items(psv.take(j as int), bsv).len() as int;
                        let pos = base_items(bsv, psv).len() + q;
                        let t = psv.take(j + 1);
                        assert(patch_items(t, bsv) == patch_items(t.drop_last(), bsv) + patch_item(t.last(), bsv));
                        assert(patch_items(t, bsv)[q] == patch_item(p, bsv)[0]);
                        assert(patch_items(psv, bsv)[q] == patch_items(t, bsv)[q]);
                        assert(all[pos] == patch_items(psv, bsv)[q]);
                        assert(item_raw(bd, pd, all[pos]) is None);
                        assert(0 <= pos < all.len());
                    }
                    return Err(PakError::UnexpectedEof);
                },
            };
            let tp = trim_leading_slashes(&ps[j].path);
            let ghost rv = raw@;
            store_item(&mut out, &mut tree, &mut written, &tp, raw, ps[j].data_size, ps[j].file_size, ps[j].compression);
            proof {
                items = items.push(MergeItem { path: tp@, from_patch: true, entry: p });
                new_raw = rv;
                assert(item_raw(bd, pd, items.last()) == Some(rv));
            }
            added = true;
        }
        proof {
            assert(items =~= base_items(bsv, psv) + patch_items(psv.take(j + 1), bsv));
            assert(out@.subrange(0, 48) =~= before.subrange(0, 48));
            if added {
                let n = items.len() - 1;
                assert forall|k: int| 0 <= k < items.len() implies {
                    &&& item_raw(bd, pd, #[trigger] items[k]) is Some
                    &&& written@[k].offset >= 48
                    &&& holds_at(out@, written@[k].offset as int, item_raw(bd, pd, items[k]).unwrap())
                    &&& written@[k].stored_size == items[k].entry.data_size
                    &&& written@[k].original_size == items[k].entry.file_size
                    &&& written@[k].compression == items[k].entry.compression
                    &&& present(tree@, components(items[k].path), written@[k])
                } by {
                    if k < n {
                        assert(items[k] == old_items[k]);
                        assert(written@[k] == old_written[k]);
                        assert(present(old_tree, components(items[k].path), old_written[k]));
                        lemma_holds_transfer(before, out@, written@[k].offset as int, item_raw(bd, pd, items[k]).unwrap(), 0);
                    } else {
                        assert(item_raw(bd, pd, items[k]).unwrap() == new_raw);
                        assert(out@.subrange(before.len() as int, (before.len() + new_raw.len()) as int) =~= new_raw);
                    }
                }
                if items_writable(items) {
                    assert(items_writable(old_items)) by {
                        assert forall|k: int| 0 <= k < old_items.len() implies #[trigger] writable_path(old_items[k].path) by {
                            assert(old_items[k] == items[k]);
                        }
                    }
                    assert(writable_path(items[n].path));
                }
            }
        }
        j += 1;
    }
    proof {
        assert(psv.take(psv.len() as int) =~= psv);
        assert(items == all);
    }
    let count = written.len();
    let root = out.len() as u64;
    let ghost pre = out@;
    write_directory_tree(&mut out, &tree);
    let volume = out.len() as u64;
    let ghost pre2 = out@;
    set_u64_at(&mut out, 32, root);
    set_u64_at(&mut out, 40, volume);
    proof {
        lemma_auto_spec_u32_to_from_le_bytes();
        lemma_auto_spec_u64_to_from_le_bytes();
        let d = out@;
        let hf = merged_header(bh, root, volume);
        assert(pre2.subrange(0, 48) =~= pre.subrange(0, 48));
        assert(d.subrange(0, 48) =~= header_bytes_for(hf));
        lemma_header_for_held(d, hf);
        assert forall|x: int| 48 <= x < pre2.len() implies d[x] == pre2[x] by {}
        assert forall|x: int| 48 <= x < pre.len() implies pre2[x] == pre[x] by {}
        assert(holds_at(pre2, root as int, enc_root(tree@))) by {
            assert(pre2.subrange(root as int, root + enc_root(tree@).len()) =~= enc_root(tree@));
        }
        lemma_holds_transfer(pre2, d, root as int, enc_root(tree@), 48);
        if items_writable(items) {
            lemma_len_le_count(tree@);
            let paths = items.map_values(|it: MergeItem| it.path);
            let metas = written@;
            assert forall|k: int| 0 <= k < paths.len() implies #[trigger] writable_path(paths[k]) by {
                assert(paths[k] == items[k].path);
            }
            assert forall|k: int| 0 <= k < paths.len() implies present(tree@, components(#[trigger] paths[k]), metas[k]) by {
                assert(paths[k] == items[k].path);
                assert(item_raw(bd, pd, items[k]) is Some);
            }
            lemma_tree_listed(d, root as int, tree@, paths, metas);
            let es = archive_entries(d).unwrap();
            assert forall|k: int| 0 <= k < items.len() implies #[trigger] lists_item(d, es, items[k], item_source(bd, pd, items[k])) by {
                assert(paths[k] == items[k].path);
                assert(lists_written(es, paths[k], metas[k]));
                let jj = choose|jj: int| 0 <= jj < es.len() && #[trigger] es[jj] == written_entry(seq!['/'] + paths[k], metas[k]);
                assert(item_raw(bd, pd, items[k]) is Some);
                let raw = item_raw(bd, pd, items[k]).unwrap();
                assert(holds_at(pre, metas[k].offset as int, raw));
                lemma_holds_transfer(pre, pre2, metas[k].offset as int, raw, 0);
                lemma_holds_transfer(pre2, d, metas[k].offset as int, raw, 48);
                if d.len() <= 0x7fff_ffff_ffff_ffff {
                    assert(raw.len() == items[k].entry.data_size) by {
                        if items[k].entry.data_size == 0 {
                        }
                    }
                    lemma_stored_window(d, es[jj], raw);
                }
            }
        }
    }
    Ok((out, count))
}

} // verus!
