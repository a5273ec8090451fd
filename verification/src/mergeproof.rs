//! What a merged archive holds of each path: the patch's entry wins over the base's, a path
//! the patch marks deleted is gone, and entries only one side has are kept unless deleted.

use vstd::prelude::*;
use crate::pak::EntrySpec;
use crate::pakmerge::{
    MergeItem, merge_items, base_items, patch_items, base_item, patch_item, last_with_path, has_path_spec,
    entry_deleted, trim_slashes,
};

verus! {

/// The merged archive lists `it`.
pub open spec fn merged_has(bs: Seq<EntrySpec>, ps: Seq<EntrySpec>, it: MergeItem) -> bool {
    exists|k: int| 0 <= k < merge_items(bs, ps).len() && #[trigger] merge_items(bs, ps)[k] == it
}

proof fn lemma_base_items_include(bs: Seq<EntrySpec>, ps: Seq<EntrySpec>, i: int, j: int)
    requires
        0 <= i < bs.len(),
        0 <= j < base_item(bs[i], ps).len(),
    ensures
        exists|k: int| 0 <= k < base_items(bs, ps).len() && base_items(bs, ps)[k] == base_item(bs[i], ps)[j],
    decreases bs.len(),
{
    let init = bs.drop_last();
    if i < bs.len() - 1 {
        assert(init[i] == bs[i]);
        lemma_base_items_include(init, ps, i, j);
        let k = choose|k: int| 0 <= k < base_items(init, ps).len() && base_items(init, ps)[k] == base_item(init[i], ps)[j];
        assert(base_items(bs, ps)[k] == base_items(init, ps)[k]);
    } else {
        let k = base_items(init, ps).len() + j;
        assert(base_items(bs, ps)[k] == base_item(bs.last(), ps)[j]);
    }
}

proof fn lemma_patch_items_include(ps: Seq<EntrySpec>, bs: Seq<EntrySpec>, i: int)
    requires
        0 <= i < ps.len(),
        patch_item(ps[i], bs).len() > 0,
    ensures
        exists|k: int| 0 <= k < patch_items(ps, bs).len() && patch_items(ps, bs)[k] == patch_item(ps[i], bs)[0],
    decreases ps.len(),
{
    let init = ps.drop_last();
    if i < ps.len() - 1 {
        assert(init[i] == ps[i]);
        lemma_patch_items_include(init, bs, i);
        let k = choose|k: int| 0 <= k < patch_items(init, bs).len() && patch_items(init, bs)[k] == patch_item(init[i], bs)[0];
        assert(patch_items(ps, bs)[k] == patch_items(init, bs)[k]);
    } else {
        let k = patch_items(init, bs).len() as int;
        assert(patch_items(ps, bs)[k] == patch_item(ps.last(), bs)[0]);
    }
}

/// Every base item carries an entry of the path of the base entry it comes from.
proof fn lemma_base_items_paths(bs: Seq<EntrySpec>, ps: Seq<EntrySpec>, path: Seq<char>)
    requires
        last_with_path(ps, path) matches Some(p) && entry_deleted(p),
    ensures
        forall|k: int| 0 <= k < base_items(bs, ps).len() ==> (#[trigger] base_items(bs, ps)[k]).entry.path != path,
    decreases bs.len(),
{
    if bs.len() > 0 {
        let init = bs.drop_last();
        lemma_base_items_paths(init, ps, path);
        let b = bs.last();
        lemma_last_with_path_has(ps, b.path);
        assert forall|k: int| 0 <= k < base_items(bs, ps).len() implies (#[trigger] base_items(bs, ps)[k]).entry.path
            != path by {
            if k >= base_items(init, ps).len() {
                let it = base_item(b, ps)[k - base_items(init, ps).len()];
                assert(base_items(bs, ps)[k] == it);
            } else {
                assert(base_items(bs, ps)[k] == base_items(init, ps)[k]);
            }
        }
    }
}

proof fn lemma_last_with_path_has(es: Seq<EntrySpec>, path: Seq<char>)
    ensures
        last_with_path(es, path) matches Some(p) ==> p.path == path,
    decreases es.len(),
{
    if es.len() > 0 && es.last().path != path {
        lemma_last_with_path_has(es.drop_last(), path);
    }
}

proof fn lemma_patch_items_paths(ps: Seq<EntrySpec>, bs: Seq<EntrySpec>, path: Seq<char>)
    requires
        has_path_spec(bs, path),
    ensures
        forall|k: int| 0 <= k < patch_items(ps, bs).len() ==> (#[trigger] patch_items(ps, bs)[k]).entry.path != path,
    decreases ps.len(),
{
    if ps.len() > 0 {
        let init = ps.drop_last();
        lemma_patch_items_paths(init, bs, path);
        assert forall|k: int| 0 <= k < patch_items(ps, bs).len() implies (#[trigger] patch_items(ps, bs)[k]).entry.path
            != path by {
            if k >= patch_items(init, bs).len() {
                assert(patch_items(ps, bs)[k] == patch_item(ps.last(), bs)[0]);
            } else {
                assert(patch_items(ps, bs)[k] == patch_items(init, bs)[k]);
            }
        }
    }
}

/// The merge rule, for each path: where the patch has a base entry's path, the merged archive
/// carries the patch's (last) entry of that path, unless that entry is marked deleted, in
/// which case no entry of the path is left at all; a base entry whose path the patch lacks
/// is kept unless deleted; a patch entry whose path the base lacks is added unless deleted.
pub proof fn lemma_merge_precedence(bs: Seq<EntrySpec>, ps: Seq<EntrySpec>)
    ensures
        forall|i: int|
            0 <= i < bs.len() ==> match last_with_path(ps, #[trigger] bs[i].path) {
                Some(p) => if entry_deleted(p) {
                    forall|k: int| 0 <= k < merge_items(bs, ps).len() ==> (#[trigger] merge_items(bs, ps)[k]).entry.path != bs[i].path
                } else {
                    merged_has(bs, ps, MergeItem { path: trim_slashes(bs[i].path), from_patch: true, entry: p })
                },
                None => !entry_deleted(bs[i]) ==> merged_has(
                    bs,
                    ps,
                    MergeItem { path: trim_slashes(bs[i].path), from_patch: false, entry: bs[i] },
                ),
            },
        forall|j: int|
            0 <= j < ps.len() && !entry_deleted(#[trigger] ps[j]) && !has_path_spec(bs, ps[j].path) ==> merged_has(
                bs,
                ps,
                MergeItem { path: trim_slashes(ps[j].path), from_patch: true, entry: ps[j] },
            ),
{
    let m = merge_items(bs, ps);
    let bi = base_items(bs, ps);
    assert forall|i: int| 0 <= i < bs.len() implies match last_with_path(ps, #[trigger] bs[i].path) {
        Some(p) => if entry_deleted(p) {
            forall|k: int| 0 <= k < merge_items(bs, ps).len() ==> (#[trigger] merge_items(bs, ps)[k]).entry.path != bs[i].path
        } else {
            merged_has(bs, ps, MergeItem { path: trim_slashes(bs[i].path), from_patch: true, entry: p })
        },
        None => !entry_deleted(bs[i]) ==> merged_has(
            bs,
            ps,
            MergeItem { path: trim_slashes(bs[i].path), from_patch: false, entry: bs[i] },
        ),
    } by {
        match last_with_path(ps, bs[i].path) {
            Some(p) => {
                if entry_deleted(p) {
                    lemma_base_items_paths(bs, ps, bs[i].path);
                    assert(has_path_spec(bs, bs[i].path));
                    lemma_patch_items_paths(ps, bs, bs[i].path);
                    assert forall|k: int| 0 <= k < m.len() implies (#[trigger] m[k]).entry.path != bs[i].path by {
                        if k < bi.len() {
                            assert(m[k] == bi[k]);
                        } else {
                            assert(m[k] == patch_items(ps, bs)[k - bi.len()]);
                        }
                    }
                } else {
                    lemma_base_items_include(bs, ps, i, 0);
                    let k = choose|k: int| 0 <= k < bi.len() && bi[k] == base_item(bs[i], ps)[0];
                    assert(m[k] == bi[k]);
                }
            },
            None => {
                if !entry_deleted(bs[i]) {
                    lemma_base_items_include(bs, ps, i, 0);
                    let k = choose|k: int| 0 <= k < bi.len() && bi[k] == base_item(bs[i], ps)[0];
                    assert(m[k] == bi[k]);
                }
            },
        }
    }
    assert forall|j: int|
        0 <= j < ps.len() && !entry_deleted(#[trigger] ps[j]) && !has_path_spec(bs, ps[j].path) implies merged_has(
        bs,
        ps,
        MergeItem { path: trim_slashes(ps[j].path), from_patch: true, entry: ps[j] },
    ) by {
        lemma_patch_items_include(ps, bs, j);
        let pi = patch_items(ps, bs);
        let k = choose|k: int| 0 <= k < pi.len() && pi[k] == patch_item(ps[j], bs)[0];
        assert(m[bi.len() + k] == pi[k]);
    }
}

} // verus!
