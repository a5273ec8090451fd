//! Writing `.pak` archives: a fresh archive from a list of files (a patch volume), and a
//! patch merged into a full archive. The directory tree is built by splitting each file's
//! relative path on `/`; children keep the order in which they were first met.

use vstd::prelude::*;
use vstd::bytes::{spec_u32_to_le_bytes, spec_u64_to_le_bytes};
use crate::le::{push_u32, push_u64, set_u64_at};
use crate::pak::{FileCompression, compression_word, DIR_ATTR, header_of};
use crate::pakproof::{
    stored_form, header_bytes, written_header, holds_at, holds_files, lemma_header_held,
    lemma_holds_transfer, lemma_written_archive,
};
use crate::zlib::{zlib_compress, zlib_inflated};
use vstd::bytes::{lemma_auto_spec_u32_to_from_le_bytes, lemma_auto_spec_u64_to_from_le_bytes};
use crate::text::{chars_of, string_from_chars};
use vstd::utf8::encode_utf8;
use vstd::slice::slice_to_vec;

verus! {

/// Attribute word of every file record this writer emits (`FILE_ATTRIBUTE_ARCHIVE`).
pub const FILE_ATTR: u32 = 0x20;

/// Where a written file's bytes went and how they are stored.
#[derive(Clone, Copy, Debug, PartialEq, Eq, Structural)]
pub struct StoredMeta {
    pub offset: u64,
    pub stored_size: u32,
    pub original_size: u32,
    pub compression: FileCompression,
}

/// The directory tree being written.
pub enum WriteNode {
    File { name: String, meta: StoredMeta },
    Dir { name: String, children: Vec<WriteNode> },
}

// ---------------------------------------------------------------------------------------
// Paths
// ---------------------------------------------------------------------------------------

/// The `/`-separated components of `s` (one empty component for the empty string).
pub open spec fn components(s: Seq<char>) -> Seq<Seq<char>>
    decreases s.len(),
{
    if s.len() == 0 {
        seq![Seq::<char>::empty()]
    } else {
        let parts = components(s.drop_last());
        if s.last() == '/' {
            parts.push(Seq::<char>::empty())
        } else {
            parts.update(parts.len() - 1, parts.last().push(s.last()))
        }
    }
}

/// Components joined back with `/`.
pub open spec fn join_components(parts: Seq<Seq<char>>) -> Seq<char>
    decreases parts.len(),
{
    if parts.len() == 0 {
        Seq::<char>::empty()
    } else if parts.len() == 1 {
        parts[0]
    } else {
        join_components(parts.drop_last()) + seq!['/'] + parts.last()
    }
}

/// A relative path a file can be written under, every component's encoding fitting a name
/// field.
pub open spec fn writable_path(s: Seq<char>) -> bool {
    &&& valid_rel_path(s)
    &&& forall|k: int| 0 <= k < components(s).len() ==> name_fits(#[trigger] components(s)[k])
}

/// A relative path a file can be written under: every component non-empty (no leading,
/// trailing or doubled `/`, not empty).
pub open spec fn valid_rel_path(s: Seq<char>) -> bool {
    forall|k: int| 0 <= k < components(s).len() ==> #[trigger] components(s)[k].len() > 0
}

pub proof fn lemma_components_nonempty(s: Seq<char>)
    ensures
        components(s).len() >= 1,
    decreases s.len(),
{
    if s.len() > 0 {
        lemma_components_nonempty(s.drop_last());
    }
}

/// Joining the components of a path gives the path back.
pub proof fn lemma_join_components(s: Seq<char>)
    ensures
        join_components(components(s)) == s,
    decreases s.len(),
{
    if s.len() > 0 {
        let t = s.drop_last();
        lemma_join_components(t);
        lemma_components_nonempty(t);
        let parts = components(t);
        if s.last() == '/' {
            assert(components(s).drop_last() =~= parts);
            assert(s =~= t + seq!['/'] + Seq::<char>::empty());
        } else {
            let np = parts.update(parts.len() - 1, parts.last().push(s.last()));
            if parts.len() == 1 {
                assert(s =~= parts[0].push(s.last()));
            } else {
                assert(np.drop_last() =~= parts.drop_last());
                assert(join_components(parts) == join_components(parts.drop_last()) + seq!['/'] + parts.last());
                assert(s =~= t.push(s.last()));
                assert(np.last() == parts.last().push(s.last()));
                assert(join_components(np) == join_components(np.drop_last()) + seq!['/'] + np.last());
                assert(s =~= join_components(parts.drop_last()) + seq!['/'] + parts.last().push(s.last()));
            }
        }
    }
}

/// Splits `s` on `/`.
pub(crate) fn split_components(s: &String) -> (parts: Vec<String>)
    ensures
        parts@.len() == components(s@).len(),
        forall|k: int| 0 <= k < parts@.len() ==> #[trigger] parts@[k]@ == components(s@)[k],
{
    let cs = chars_of(s.as_str());
    let mut parts: Vec<String> = Vec::new();
    let mut start: usize = 0;
    let mut i: usize = 0;
    while i < cs.len()
        invariant
            cs@ == s@,
            start <= i <= cs@.len(),
            parts@.len() + 1 == components(cs@.take(i as int)).len(),
            forall|k: int| 0 <= k < parts@.len() ==> #[trigger] parts@[k]@ == components(cs@.take(i as int))[k],
            components(cs@.take(i as int)).last() == cs@.subrange(start as int, i as int),
        decreases cs.len() - i,
    {
        let ghost before = components(cs@.take(i as int));
        proof {
            assert(cs@.take(i + 1).drop_last() =~= cs@.take(i as int));
            lemma_components_nonempty(cs@.take(i as int));
        }
        if cs[i] == '/' {
            let part = string_from_chars(cs.as_slice(), start, i);
            parts.push(part);
            start = i + 1;
            proof {
                assert(components(cs@.take(i + 1)) == before.push(Seq::<char>::empty()));
                assert(cs@.subrange(start as int, i + 1) =~= Seq::<char>::empty());
            }
        } else {
            proof {
                assert(cs@.subrange(start as int, i + 1) =~= cs@.subrange(start as int, i as int).push(cs@[i as int]));
            }
        }
        i += 1;
    }
    let last = string_from_chars(cs.as_slice(), start, cs.len());
    parts.push(last);
    proof {
        assert(cs@.take(cs@.len() as int) =~= cs@);
    }
    parts
}

// ---------------------------------------------------------------------------------------
// The tree
// ---------------------------------------------------------------------------------------

/// A name whose UTF-8 encoding fits a `u32` length field.
pub open spec fn name_fits(name: Seq<char>) -> bool {
    encode_utf8(name).len() <= u32::MAX
}

/// Names fit, directory names are non-empty, every directory holds at least one node and at
/// most `u32::MAX`.
pub open spec fn node_wf(n: WriteNode) -> bool
    decreases n,
{
    match n {
        WriteNode::File { name, meta } => name_fits(name@),
        WriteNode::Dir { name, children } => {
            &&& name@.len() > 0
            &&& name_fits(name@)
            &&& children@.len() > 0
            &&& children@.len() <= u32::MAX
            &&& nodes_wf(children@)
        },
    }
}

/// Every node of the list is well formed.
pub open spec fn nodes_wf(s: Seq<WriteNode>) -> bool
    decreases s,
{
    if s.len() == 0 {
        true
    } else {
        nodes_wf(s.drop_last()) && node_wf(s.last())
    }
}

/// Number of files in a node.
pub open spec fn count_node(n: WriteNode) -> nat
    decreases n,
{
    match n {
        WriteNode::File { .. } => 1,
        WriteNode::Dir { children, .. } => count_nodes(children@),
    }
}

/// Number of files in a list of nodes.
pub open spec fn count_nodes(s: Seq<WriteNode>) -> nat
    decreases s,
{
    if s.len() == 0 {
        0
    } else {
        count_nodes(s.drop_last()) + count_node(s.last())
    }
}

/// The views of a list of strings.
pub open spec fn strings_view(v: Seq<String>) -> Seq<Seq<char>> {
    v.map_values(|s: String| s@)
}

/// Node `n` is the file `name` written with `m`.
pub open spec fn is_file_node(n: WriteNode, name: Seq<char>, m: StoredMeta) -> bool {
    n matches WriteNode::File { name: nm, meta } && nm@ == name && meta == m
}

/// The tree `nodes` holds, at component path `parts`, a file written with `m`.
pub open spec fn present(nodes: Seq<WriteNode>, parts: Seq<Seq<char>>, m: StoredMeta) -> bool
    decreases parts.len(),
{
    if parts.len() == 0 {
        false
    } else if parts.len() == 1 {
        exists|i: int| 0 <= i < nodes.len() && #[trigger] is_file_node(nodes[i], parts[0], m)
    } else {
        exists|i: int|
            0 <= i < nodes.len() && match #[trigger] nodes[i] {
                WriteNode::Dir { name, children } => name@ == parts[0] && present(
                    children@,
                    parts.drop_first(),
                    m,
                ),
                _ => false,
            }
    }
}

pub proof fn lemma_nodes_wf_index(s: Seq<WriteNode>, k: int)
    requires
        nodes_wf(s),
        0 <= k < s.len(),
    ensures
        node_wf(s[k]),
    decreases s.len(),
{
    if k < s.len() - 1 {
        lemma_nodes_wf_index(s.drop_last(), k);
    }
}

proof fn lemma_nodes_wf_update(s: Seq<WriteNode>, k: int, x: WriteNode)
    requires
        nodes_wf(s),
        0 <= k < s.len(),
        node_wf(x),
    ensures
        nodes_wf(s.update(k, x)),
    decreases s.len(),
{
    let t = s.update(k, x);
    if k < s.len() - 1 {
        lemma_nodes_wf_update(s.drop_last(), k, x);
        assert(t.drop_last() =~= s.drop_last().update(k, x));
    } else {
        assert(t.drop_last() =~= s.drop_last());
    }
}

proof fn lemma_count_update(s: Seq<WriteNode>, k: int, x: WriteNode)
    requires
        0 <= k < s.len(),
    ensures
        count_nodes(s.update(k, x)) + count_node(s[k]) == count_nodes(s) + count_node(x),
    decreases s.len(),
{
    let t = s.update(k, x);
    if k < s.len() - 1 {
        lemma_count_update(s.drop_last(), k, x);
        assert(t.drop_last() =~= s.drop_last().update(k, x));
    } else {
        assert(t.drop_last() =~= s.drop_last());
    }
}

proof fn lemma_count_node_pos(n: WriteNode)
    requires
        node_wf(n),
    ensures
        count_node(n) >= 1,
    decreases n,
{
    if let WriteNode::Dir { name, children } = n {
        lemma_len_le_count(children@);
    }
}

/// In a well-formed list every node holds at least one file.
pub proof fn lemma_len_le_count(s: Seq<WriteNode>)
    requires
        nodes_wf(s),
    ensures
        s.len() <= count_nodes(s),
    decreases s,
{
    if s.len() > 0 {
        lemma_len_le_count(s.drop_last());
        lemma_count_node_pos(s.last());
    }
}

/// Components `parts[idx..]` are non-empty names whose encodings fit a name field.
pub open spec fn parts_ok(parts: Seq<String>, idx: int) -> bool {
    forall|k: int| idx <= k < parts.len() ==> #[trigger] parts[k]@.len() > 0 && name_fits(parts[k]@)
}

/// A directory node's name, `None` for a file node.
pub open spec fn dir_key(n: WriteNode) -> Option<Seq<char>> {
    match n {
        WriteNode::Dir { name, .. } => Some(name@),
        WriteNode::File { .. } => None,
    }
}

/// Two nodes are directories of the same name.
pub open spec fn same_dir(a: WriteNode, b: WriteNode) -> bool {
    dir_key(a) is Some && dir_key(a) == dir_key(b)
}

/// No two sibling directories share a name, in a node's subtree.
pub open spec fn node_unique(n: WriteNode) -> bool
    decreases n,
{
    match n {
        WriteNode::File { .. } => true,
        WriteNode::Dir { name, children } => nodes_unique(children@),
    }
}

/// No two sibling directories share a name, at any depth of the list.
pub open spec fn nodes_unique(s: Seq<WriteNode>) -> bool
    decreases s,
{
    if s.len() == 0 {
        true
    } else {
        &&& nodes_unique(s.drop_last())
        &&& node_unique(s.last())
        &&& forall|i: int| 0 <= i < s.len() - 1 ==> !same_dir(#[trigger] s[i], s.last())
    }
}

proof fn lemma_nodes_unique_iff(s: Seq<WriteNode>)
    ensures
        nodes_unique(s) == ((forall|k: int| 0 <= k < s.len() ==> node_unique(#[trigger] s[k])) && (forall|i: int, j: int|
            0 <= i < j < s.len() ==> !same_dir(#[trigger] s[i], #[trigger] s[j]))),
    decreases s.len(),
{
    if s.len() > 0 {
        let t = s.drop_last();
        lemma_nodes_unique_iff(t);
        if nodes_unique(s) {
            assert forall|k: int| 0 <= k < s.len() implies node_unique(#[trigger] s[k]) by {
                if k < s.len() - 1 {
                    assert(s[k] == t[k]);
                }
            }
            assert forall|i: int, j: int| 0 <= i < j < s.len() implies !same_dir(#[trigger] s[i], #[trigger] s[j]) by {
                if j < s.len() - 1 {
                    assert(s[i] == t[i] && s[j] == t[j]);
                }
            }
        }
        if (forall|k: int| 0 <= k < s.len() ==> node_unique(#[trigger] s[k])) && (forall|i: int, j: int|
            0 <= i < j < s.len() ==> !same_dir(#[trigger] s[i], #[trigger] s[j])) {
            assert forall|k: int| 0 <= k < t.len() implies node_unique(#[trigger] t[k]) by {
                assert(s[k] == t[k]);
            }
            assert forall|i: int, j: int| 0 <= i < j < t.len() implies !same_dir(#[trigger] t[i], #[trigger] t[j]) by {
                assert(s[i] == t[i] && s[j] == t[j]);
            }
            assert forall|i: int| 0 <= i < s.len() - 1 implies !same_dir(#[trigger] s[i], s.last()) by {
                assert(s.last() == s[s.len() - 1]);
            }
        }
    }
}

/// Inserts the file `parts[idx..]` (written with `m`) into `nodes`: the last component is a
/// new file node; every component before it is the first directory of that name at its
/// level, made when there is none yet.
pub(crate) fn insert_write_node(nodes: &mut Vec<WriteNode>, parts: &Vec<String>, idx: usize, m: StoredMeta)
    requires
        idx < parts@.len(),
    ensures
        parts_ok(parts@, idx as int) && nodes_wf(old(nodes)@) && count_nodes(old(nodes)@) < u32::MAX
            ==> nodes_wf(final(nodes)@),
        count_nodes(final(nodes)@) == count_nodes(old(nodes)@) + 1,
        present(final(nodes)@, strings_view(parts@).subrange(idx as int, parts@.len() as int), m),
        forall|ps: Seq<Seq<char>>, m2: StoredMeta|
            present(old(nodes)@, ps, m2) ==> #[trigger] present(final(nodes)@, ps, m2),
        nodes_unique(old(nodes)@) ==> nodes_unique(final(nodes)@),
        final(nodes)@.len() == old(nodes)@.len() || final(nodes)@.len() == old(nodes)@.len() + 1,
        forall|a: int, b: int|
            0 <= a < old(nodes)@.len() && 0 <= b < old(nodes)@.len() && #[trigger] final(nodes)@[a] != old(nodes)@[a]
                && #[trigger] final(nodes)@[b] != old(nodes)@[b] ==> a == b,
    decreases parts@.len() - idx,
{
    let ghost old_nodes = nodes@;
    let ghost ps_new = strings_view(parts@).subrange(idx as int, parts@.len() as int);
    if idx == parts.len() - 1 {
        let f = WriteNode::File { name: parts[idx].clone(), meta: m };
        nodes.push(f);
        proof {
            if parts_ok(parts@, idx as int) {
                assert(parts@[idx as int]@.len() > 0);
                assert(node_wf(f));
            }
            assert(count_node(f) == 1);
            assert(nodes@.drop_last() =~= old_nodes);
            assert(forall|k: int| 0 <= k < old_nodes.len() && k != -1 ==> #[trigger] nodes@[k] == old_nodes[k]);
            if nodes_unique(old_nodes) {
                assert(dir_key(f) is None);
                assert(node_unique(f));
                assert(nodes@.last() == f);
                assert forall|i: int| 0 <= i < nodes@.len() - 1 implies !same_dir(#[trigger] nodes@[i], nodes@.last()) by {}
                assert(nodes_unique(nodes@));
            }
            assert(nodes@.last() == f);
            assert(is_file_node(nodes@[nodes@.len() - 1], ps_new[0], m));
            assert forall|ps: Seq<Seq<char>>, m2: StoredMeta|
                present(old_nodes, ps, m2) implies #[trigger] present(nodes@, ps, m2) by {
                if ps.len() == 1 {
                    let i = choose|i: int| 0 <= i < old_nodes.len() && #[trigger] is_file_node(old_nodes[i], ps[0], m2);
                    assert(nodes@[i] == old_nodes[i]);
                } else if ps.len() > 1 {
                    let i = choose|i: int|
                        0 <= i < old_nodes.len() && match #[trigger] old_nodes[i] {
                            WriteNode::Dir { name, children } => name@ == ps[0] && present(children@, ps.drop_first(), m2),
                            _ => false,
                        };
                    assert(nodes@[i] == old_nodes[i]);
                }
            }
        }
        return;
    }
    let mut found = nodes.len();
    let mut j: usize = 0;
    while j < nodes.len()
        invariant_except_break
            idx < parts@.len(),
            j <= nodes@.len(),
            found == nodes@.len(),
            forall|k: int| 0 <= k < j ==> dir_key(#[trigger] nodes@[k]) != Some(parts@[idx as int]@),
        ensures
            found == nodes@.len() || (found < nodes@.len() && (nodes@[found as int] matches WriteNode::Dir { name, children } && name@ == parts@[idx as int]@)),
            found == nodes@.len() ==> forall|k: int| 0 <= k < nodes@.len() ==> dir_key(#[trigger] nodes@[k]) != Some(parts@[idx as int]@),
        decreases nodes.len() - j,
    {
        let hit = match &nodes[j] {
            WriteNode::Dir { name, .. } => name.eq(&parts[idx]),
            WriteNode::File { .. } => false,
        };
        if hit {
            found = j;
            break;
        }
        j += 1;
    }
    if found == nodes.len() {
        let d = WriteNode::Dir { name: parts[idx].clone(), children: Vec::new() };
        nodes.push(d);
        proof {
            assert(nodes@.drop_last() =~= old_nodes);
            assert(count_nodes(Seq::<WriteNode>::empty()) == 0);
            if nodes_unique(old_nodes) {
                assert(node_unique(d)) by {
                    assert(nodes_unique(Seq::<WriteNode>::empty()));
                }
                assert forall|i: int| 0 <= i < nodes@.len() - 1 implies !same_dir(#[trigger] nodes@[i], nodes@.last()) by {
                    assert(nodes@[i] == old_nodes[i]);
                }
            }
        }
    }
    let ghost mid = nodes@;
    let mut tmp = WriteNode::Dir { name: String::new(), children: Vec::new() };
    let ghost empty_dir = tmp;
    nodes.set_and_swap(found, &mut tmp);
    match tmp {
        WriteNode::Dir { name, mut children } => {
            let ghost old_children = children@;
            let ghost old_children_vec = children;
            proof {
                assert(count_node(empty_dir) == 0) by {
                    assert(count_nodes(Seq::<WriteNode>::empty()) == 0);
                }
                lemma_count_update(mid, found as int, empty_dir);
                if found < old_nodes.len() {
                    if nodes_wf(old_nodes) {
                        lemma_nodes_wf_index(old_nodes, found as int);
                    }
                } else {
                    assert(old_children.len() == 0);
                }
            }
            insert_write_node(&mut children, parts, idx + 1, m);
            let new_dir = WriteNode::Dir { name, children };
            let ghost nd = new_dir;
            nodes.set(found, new_dir);
            proof {
                assert(nodes@ =~= mid.update(found as int, nd));
                assert(forall|k: int| 0 <= k < old_nodes.len() && k != found ==> #[trigger] nodes@[k] == old_nodes[k]);
                if nodes_unique(old_nodes) {
                    lemma_nodes_unique_iff(mid);
                    assert(mid[found as int] == (WriteNode::Dir { name, children: old_children_vec }));
                    assert(node_unique(mid[found as int]));
                    assert(nodes_unique(old_children));
                    assert(node_unique(nd));
                    assert(dir_key(nd) == dir_key(mid[found as int]));
                    lemma_nodes_unique_iff(nodes@);
                    assert forall|k: int| 0 <= k < nodes@.len() implies node_unique(#[trigger] nodes@[k]) by {
                        if k != found {
                            assert(nodes@[k] == mid[k]);
                        }
                    }
                    assert forall|i: int, j: int| 0 <= i < j < nodes@.len() implies !same_dir(#[trigger] nodes@[i], #[trigger] nodes@[j]) by {
                        assert(!same_dir(mid[i], mid[j]));
                    }
                }
                lemma_count_update(mid, found as int, nd);
                assert(count_nodes(mid) == count_nodes(old_nodes));
                assert(count_node(nd) == count_nodes(children@));
                assert(mid[found as int] == (WriteNode::Dir { name, children: old_children_vec }));
                assert(count_node(mid[found as int]) == count_nodes(old_children));
                assert(count_nodes(nodes@) == count_nodes(old_nodes) + 1);
                if parts_ok(parts@, idx as int) && nodes_wf(old_nodes) && count_nodes(old_nodes) < u32::MAX {
                    assert(parts_ok(parts@, idx + 1));
                    assert(parts@[idx as int]@.len() > 0);
                    lemma_len_le_count(children@);
                    assert(node_wf(nd));
                    if found < old_nodes.len() {
                        assert(mid == old_nodes);
                        lemma_nodes_wf_update(old_nodes, found as int, nd);
                    } else {
                        assert(nodes@.drop_last() =~= old_nodes);
                    }
                }
                assert(ps_new.drop_first() =~= strings_view(parts@).subrange(idx + 1, parts@.len() as int));
                assert(ps_new[0] == parts@[idx as int]@);
                assert(match nodes@[found as int] {
                    WriteNode::Dir { name, children } => name@ == ps_new[0] && present(children@, ps_new.drop_first(), m),
                    _ => false,
                });
                assert forall|ps: Seq<Seq<char>>, m2: StoredMeta|
                    present(old_nodes, ps, m2) implies #[trigger] present(nodes@, ps, m2) by {
                    if ps.len() == 1 {
                        let i = choose|i: int| 0 <= i < old_nodes.len() && #[trigger] is_file_node(old_nodes[i], ps[0], m2);
                        assert(nodes@[i] == old_nodes[i]);
                    } else if ps.len() > 1 {
                        let i = choose|i: int|
                            0 <= i < old_nodes.len() && match #[trigger] old_nodes[i] {
                                WriteNode::Dir { name, children } => name@ == ps[0] && present(children@, ps.drop_first(), m2),
                                _ => false,
                            };
                        if i != found {
                            assert(nodes@[i] == old_nodes[i]);
                        } else {
                            assert(present(old_children, ps.drop_first(), m2));
                            assert(match nodes@[i] {
                                WriteNode::Dir { name, children } => name@ == ps[0] && present(children@, ps.drop_first(), m2),
                                _ => false,
                            });
                        }
                    }
                }
            }
        },
        WriteNode::File { .. } => {
            proof {
                assert(false);
            }
        },
    }
}

// ---------------------------------------------------------------------------------------
// Encoding the tree
// ---------------------------------------------------------------------------------------

/// Three zero timestamps.
pub open spec fn zero_times() -> Seq<u8> {
    spec_u64_to_le_bytes(0) + spec_u64_to_le_bytes(0) + spec_u64_to_le_bytes(0)
}

/// A stored name: its UTF-8 byte length, then (when not empty) the bytes and a zero byte.
pub open spec fn enc_name(name: Seq<char>) -> Seq<u8> {
    let b = encode_utf8(name);
    if b.len() == 0 {
        spec_u32_to_le_bytes(0)
    } else {
        spec_u32_to_le_bytes(b.len() as u32) + b + seq![0u8]
    }
}

/// A file record after its name.
pub open spec fn enc_file_tail(m: StoredMeta) -> Seq<u8> {
    spec_u64_to_le_bytes(m.offset) + zero_times() + spec_u32_to_le_bytes(FILE_ATTR)
        + spec_u32_to_le_bytes(0) + spec_u32_to_le_bytes(compression_word(m.compression))
        + spec_u32_to_le_bytes(m.stored_size) + spec_u32_to_le_bytes(m.original_size)
}

/// A directory record after its name.
pub open spec fn enc_dir_tail(count: u32) -> Seq<u8> {
    zero_times() + spec_u32_to_le_bytes(DIR_ATTR) + spec_u32_to_le_bytes(count)
}

/// A child node: its attribute word, then its record (and, for a directory, its children).
pub open spec fn enc_node(n: WriteNode) -> Seq<u8>
    decreases n,
{
    match n {
        WriteNode::File { name, meta } => spec_u32_to_le_bytes(FILE_ATTR) + enc_name(name@)
            + enc_file_tail(meta),
        WriteNode::Dir { name, children } => spec_u32_to_le_bytes(DIR_ATTR) + enc_name(name@)
            + enc_dir_tail(children@.len() as u32) + enc_nodes(children@),
    }
}

/// A list of child nodes, in order.
pub open spec fn enc_nodes(s: Seq<WriteNode>) -> Seq<u8>
    decreases s,
{
    if s.len() == 0 {
        Seq::<u8>::empty()
    } else {
        enc_node(s[0]) + enc_nodes(s.drop_first())
    }
}

/// The root directory record: no name, no leading attribute word.
pub open spec fn enc_root(s: Seq<WriteNode>) -> Seq<u8> {
    enc_name(Seq::<char>::empty()) + enc_dir_tail(s.len() as u32) + enc_nodes(s)
}

pub proof fn lemma_enc_nodes_push(s: Seq<WriteNode>, x: WriteNode)
    ensures
        enc_nodes(s.push(x)) == enc_nodes(s) + enc_node(x),
    decreases s.len(),
{
    if s.len() == 0 {
        let t = s.push(x);
        assert(t.drop_first() =~= Seq::<WriteNode>::empty());
        assert(t[0] == x);
        assert(enc_nodes(t.drop_first()) == Seq::<u8>::empty());
        assert(enc_nodes(t) == enc_node(x) + Seq::<u8>::empty());
        assert(enc_node(x) + Seq::<u8>::empty() =~= enc_node(x));
        assert(enc_nodes(s) == Seq::<u8>::empty());
        assert(enc_nodes(s) + enc_node(x) =~= enc_node(x));
    } else {
        lemma_enc_nodes_push(s.drop_first(), x);
        assert(s.push(x).drop_first() =~= s.drop_first().push(x));
        assert(enc_nodes(s.push(x)) =~= enc_nodes(s) + enc_node(x));
    }
}

/// Appends `name` as a stored name.
fn write_name(out: &mut Vec<u8>, name: &str)
    ensures
        final(out)@ == old(out)@ + enc_name(name@),
{
    let bytes = name.as_bytes();
    let n = bytes.len();
    push_u32(out, n as u32);
    if n != 0 {
        let mut v = slice_to_vec(bytes);
        out.append(&mut v);
        out.push(0u8);
    }
    proof {
        if n == 0 {
            assert(spec_u32_to_le_bytes(n as u32) == spec_u32_to_le_bytes(0));
        }
    }
}

fn write_zero_times(out: &mut Vec<u8>)
    ensures
        final(out)@ == old(out)@ + zero_times(),
{
    push_u64(out, 0);
    push_u64(out, 0);
    push_u64(out, 0);
    proof {
        assert(final(out)@ =~= old(out)@ + zero_times());
    }
}

/// Appends one child node with everything below it.
fn write_node(out: &mut Vec<u8>, node: &WriteNode)
    ensures
        final(out)@ == old(out)@ + enc_node(*node),
    decreases node,
{
    match node {
        WriteNode::File { name, meta } => {
            push_u32(out, FILE_ATTR);
            write_name(out, name.as_str());
            push_u64(out, meta.offset);
            write_zero_times(out);
            push_u32(out, FILE_ATTR);
            push_u32(out, 0);
            push_u32(out, meta.compression.to_u32());
            push_u32(out, meta.stored_size);
            push_u32(out, meta.original_size);
            proof {
                assert(final(out)@ =~= old(out)@ + enc_node(*node));
            }
        },
        WriteNode::Dir { name, children } => {
            push_u32(out, DIR_ATTR);
            write_name(out, name.as_str());
            write_zero_times(out);
            push_u32(out, DIR_ATTR);
            push_u32(out, children.len() as u32);
            let ghost start = out@;
            proof {
                assert(start =~= old(out)@ + spec_u32_to_le_bytes(DIR_ATTR) + enc_name(name@) + enc_dir_tail(children@.len() as u32));
                assert(children@.take(0) =~= Seq::<WriteNode>::empty());
            }
            let mut i: usize = 0;
            while i < children.len()
                invariant
                    i <= children@.len(),
                    *node == (WriteNode::Dir { name: *name, children: *children }),
                    out@ == start + enc_nodes(children@.take(i as int)),
                decreases children.len() - i,
            {
                proof {
                    assert(decreases_to!(*node => (*node)->children));
                    assert((*node)->children == *children);
                    assert(decreases_to!(*children => children@));
                    assert(decreases_to!(children@ => children@[i as int]));
                    lemma_enc_nodes_push(children@.take(i as int), children@[i as int]);
                    assert(children@.take(i + 1) =~= children@.take(i as int).push(children@[i as int]));
                }
                write_node(out, &children[i]);
                i += 1;
            }
            proof {
                assert(children@.take(children@.len() as int) =~= children@);
                assert(final(out)@ =~= old(out)@ + enc_node(*node));
            }
        },
    }
}

/// Appends the root directory record for `nodes`.
pub(crate) fn write_directory_tree(out: &mut Vec<u8>, nodes: &Vec<WriteNode>)
    ensures
        final(out)@ == old(out)@ + enc_root(nodes@),
{
    let root = String::new();
    write_name(out, root.as_str());
    write_zero_times(out);
    push_u32(out, DIR_ATTR);
    push_u32(out, nodes.len() as u32);
    let ghost start = out@;
    proof {
        assert(root@ =~= Seq::<char>::empty());
        assert(start =~= old(out)@ + enc_name(Seq::<char>::empty()) + enc_dir_tail(nodes@.len() as u32));
        assert(nodes@.take(0) =~= Seq::<WriteNode>::empty());
    }
    let mut i: usize = 0;
    while i < nodes.len()
        invariant
            i <= nodes@.len(),
            out@ == start + enc_nodes(nodes@.take(i as int)),
        decreases nodes.len() - i,
    {
        proof {
            lemma_enc_nodes_push(nodes@.take(i as int), nodes@[i as int]);
            assert(nodes@.take(i + 1) =~= nodes@.take(i as int).push(nodes@[i as int]));
        }
        write_node(out, &nodes[i]);
        i += 1;
    }
    proof {
        assert(nodes@.take(nodes@.len() as int) =~= nodes@);
        assert(final(out)@ =~= old(out)@ + enc_root(nodes@));
    }
}

// ---------------------------------------------------------------------------------------
// Whole archives
// ---------------------------------------------------------------------------------------

/// The relative paths of a file list.
pub open spec fn file_paths(files: Seq<(String, Vec<u8>)>) -> Seq<Seq<char>> {
    files.map_values(|f: (String, Vec<u8>)| f.0@)
}

/// The contents of a file list.
pub open spec fn file_datas(files: Seq<(String, Vec<u8>)>) -> Seq<Seq<u8>> {
    files.map_values(|f: (String, Vec<u8>)| f.1@)
}

/// Fewer files than a 32-bit count can hold, each under a writable relative path.
pub open spec fn writable_files(files: Seq<(String, Vec<u8>)>) -> bool {
    &&& files.len() < u32::MAX
    &&& forall|i: int| 0 <= i < files.len() ==> #[trigger] writable_path(files[i].0@)
}

/// Every file of the list, stored with `c`, has a stored size and an original size that fit
/// the archive's 32-bit size fields.
pub open spec fn sizes_fit(files: Seq<(String, Vec<u8>)>, c: FileCompression) -> bool {
    forall|i: int|
        0 <= i < files.len() ==> #[trigger] stored_form(files[i].1@, c).len() <= u32::MAX
            && files[i].1@.len() <= u32::MAX
}

/// Builds a fresh archive (a patch volume) from `(relative path, contents)` pairs, in order:
/// the 48-byte header (version 1, `G3V0`, the volume-wide compression word), every file's
/// stored bytes one after the other, then the directory tree; each file is stored with
/// `compression` (zlib-compressed for `ZLib`, as is otherwise). Reading the result back lists
/// every file under `/` and its path, with its contents, whenever the paths are writable
/// relative paths and the sizes fit the archive's fields.
pub fn write_archive_from_dir_with(files: &Vec<(String, Vec<u8>)>, compression: FileCompression) -> (out: Vec<u8>)
    ensures
        out@.len() >= 48,
        header_of(out@) == written_header(
            compression_word(compression),
            header_of(out@).root_offset,
            out@.len() as u64,
        ),
        48 <= header_of(out@).root_offset <= out@.len(),
        out@.subrange(0, 48) == header_bytes(compression_word(compression), header_of(out@).root_offset, out@.len() as u64),
        writable_files(files@) && sizes_fit(files@, compression) ==> holds_files(
            out@,
            file_paths(files@),
            file_datas(files@),
            compression,
        ),
{
    let word = compression.to_u32();
    let mut out: Vec<u8> = Vec::new();
    push_u32(&mut out, 1);
    push_u32(&mut out, 0x3056_3347);
    push_u32(&mut out, 0);
    push_u32(&mut out, 0);
    push_u32(&mut out, word);
    push_u32(&mut out, 0);
    push_u64(&mut out, 48);
    push_u64(&mut out, 0);
    push_u64(&mut out, 0);
    proof {
        lemma_auto_spec_u32_to_from_le_bytes();
        lemma_auto_spec_u64_to_from_le_bytes();
        assert(out@ =~= header_bytes(word, 0, 0));
        assert(out@.subrange(0, 48) =~= out@);
    }
    let mut tree: Vec<WriteNode> = Vec::new();
    let ghost mut metas: Seq<StoredMeta> = Seq::empty();
    let mut i: usize = 0;
    while i < files.len()
        invariant
            i <= files@.len(),
            out@.len() >= 48,
            out@.subrange(0, 48) == header_bytes(word, 0, 0),
            word == compression_word(compression),
            writable_files(files@) ==> nodes_wf(tree@),
            count_nodes(tree@) == i,
            metas.len() == i,
            forall|k: int| 0 <= k < i ==> present(tree@, components(files@[k].0@), #[trigger] metas[k]),
            forall|k: int|
                0 <= k < i ==> {
                    let st = stored_form(files@[k].1@, compression);
                    &&& (#[trigger] metas[k]).offset >= 48
                    &&& holds_at(out@, metas[k].offset as int, st)
                    &&& metas[k].stored_size == #[verifier::truncate] (st.len() as u32)
                    &&& metas[k].original_size == #[verifier::truncate] (files@[k].1@.len() as u32)
                    &&& metas[k].compression == compression
                    &&& compression == FileCompression::ZLib ==> zlib_inflated(st) == Some(files@[k].1@)
                },
        decreases files.len() - i,
    {
        let parts = split_components(&files[i].0);
        let mut stored = match compression {
            FileCompression::ZLib => zlib_compress(files[i].1.as_slice()),
            _ => slice_to_vec(files[i].1.as_slice()),
        };
        let ghost st = stored@;
        let offset = out.len() as u64;
        let m = StoredMeta {
            offset,
            stored_size: stored.len() as u32,
            original_size: files[i].1.len() as u32,
            compression,
        };
        let ghost before = out@;
        let ghost old_tree = tree@;
        out.append(&mut stored);
        proof {
            let p = files@[i as int].0@;
            lemma_components_nonempty(p);
            assert(st == stored_form(files@[i as int].1@, compression));
            if writable_files(files@) {
                assert forall|k: int| 0 <= k < parts@.len() implies #[trigger] parts@[k]@.len() > 0 && name_fits(
                    parts@[k]@,
                ) by {
                    assert(writable_path(files@[i as int].0@));
                    assert(parts@[k]@ == components(p)[k]);
                    assert(components(p)[k].len() > 0);
                    assert(name_fits(components(p)[k]));
                }
                assert(parts_ok(parts@, 0));
            }
        }
        insert_write_node(&mut tree, &parts, 0, m);
        proof {
            let p = files@[i as int].0@;
            assert(strings_view(parts@).subrange(0, parts@.len() as int) =~= components(p));
            let old_metas = metas;
            metas = metas.push(m);
            assert(out@ == before + st);
            assert forall|k: int| 0 <= k < i + 1 implies present(tree@, components(files@[k].0@), #[trigger] metas[k]) by {
                if k < i {
                    assert(metas[k] == old_metas[k]);
                    assert(present(old_tree, components(files@[k].0@), old_metas[k]));
                }
            }
            assert forall|k: int|
                0 <= k < i + 1 implies {
                    let st2 = stored_form(files@[k].1@, compression);
                    &&& (#[trigger] metas[k]).offset >= 48
                    &&& holds_at(out@, metas[k].offset as int, st2)
                    &&& metas[k].stored_size == #[verifier::truncate] (st2.len() as u32)
                    &&& metas[k].original_size == #[verifier::truncate] (files@[k].1@.len() as u32)
                    &&& metas[k].compression == compression
                    &&& compression == FileCompression::ZLib ==> zlib_inflated(st2) == Some(files@[k].1@)
                } by {
                let st2 = stored_form(files@[k].1@, compression);
                if k < i {
                    assert(metas[k] == old_metas[k]);
                    lemma_holds_transfer(before, out@, metas[k].offset as int, st2, 0);
                } else {
                    assert(out@.subrange(before.len() as int, (before.len() + st.len()) as int) =~= st);
                }
            }
            assert(out@.subrange(0, 48) =~= before.subrange(0, 48));
        }
        i += 1;
    }
    let root = out.len() as u64;
    let ghost pre = out@;
    write_directory_tree(&mut out, &tree);
    let volume = out.len() as u64;
    let ghost pre2 = out@;
    set_u64_at(&mut out, 32, root);
    let ghost mid = out@;
    set_u64_at(&mut out, 40, volume);
    proof {
        lemma_auto_spec_u32_to_from_le_bytes();
        lemma_auto_spec_u64_to_from_le_bytes();
        let d = out@;
        let hb0 = header_bytes(word, 0, 0);
        assert(pre2.subrange(0, 48) =~= pre.subrange(0, 48));
        assert(pre2.subrange(0, 32) =~= hb0.subrange(0, 32));
        assert(d.subrange(0, 48) =~= header_bytes(word, root, volume));
        lemma_header_held(d, word, root, volume);
        assert forall|j: int| 48 <= j < pre2.len() implies d[j] == pre2[j] by {}
        assert forall|j: int| 48 <= j < pre.len() implies pre2[j] == pre[j] by {}
        assert(holds_at(pre2, root as int, enc_root(tree@))) by {
            assert(pre2.subrange(root as int, root + enc_root(tree@).len()) =~= enc_root(tree@));
        }
        lemma_holds_transfer(pre2, d, root as int, enc_root(tree@), 48);
        if writable_files(files@) && sizes_fit(files@, compression) {
            lemma_len_le_count(tree@);
            let paths = file_paths(files@);
            let datas = file_datas(files@);
            assert forall|k: int| 0 <= k < paths.len() implies #[trigger] writable_path(paths[k]) by {
                assert(paths[k] == files@[k].0@);
            }
            assert forall|k: int| 0 <= k < paths.len() implies present(tree@, components(#[trigger] paths[k]), metas[k]) by {
                assert(paths[k] == files@[k].0@);
            }
            assert forall|k: int|
                0 <= k < paths.len() implies {
                    let st = stored_form(datas[k], compression);
                    &&& holds_at(d, (#[trigger] metas[k]).offset as int, st)
                    &&& metas[k].stored_size == st.len()
                    &&& metas[k].original_size == datas[k].len()
                    &&& metas[k].compression == compression
                    &&& compression == FileCompression::ZLib ==> zlib_inflated(st) == Some(datas[k])
                } by {
                assert(datas[k] == files@[k].1@);
                let st = stored_form(datas[k], compression);
                assert(stored_form(files@[k].1@, compression).len() <= u32::MAX);
                lemma_holds_transfer(pre, pre2, metas[k].offset as int, st, 0);
                lemma_holds_transfer(pre2, d, metas[k].offset as int, st, 48);
            }
            lemma_written_archive(d, root as int, tree@, paths, datas, metas, compression);
        }
    }
    out
}

/// `write_archive_from_dir_with` storing every file as is.
pub fn write_archive_from_dir(files: &Vec<(String, Vec<u8>)>) -> (out: Vec<u8>)
    ensures
        out@.len() >= 48,
        header_of(out@) == written_header(0, header_of(out@).root_offset, out@.len() as u64),
        48 <= header_of(out@).root_offset <= out@.len(),
        out@.subrange(0, 48) == header_bytes(0, header_of(out@).root_offset, out@.len() as u64),
        writable_files(files@) && sizes_fit(files@, FileCompression::Uncompressed) ==> holds_files(
            out@,
            file_paths(files@),
            file_datas(files@),
            FileCompression::Uncompressed,
        ),
{
    write_archive_from_dir_with(files, FileCompression::Uncompressed)
}

} // verus!
