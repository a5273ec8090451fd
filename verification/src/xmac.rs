//! The bone hierarchy of a `._xmac` actor: each node's name, parent and bind-pose local
//! transform, read from the nodes section (id 11). Rotations and positions are kept as the
//! IEEE-754 bit patterns the file stores; turning them into floats is the caller's business.
//!
//! Layout: the `u32` at 136 (always little-endian) plus 140 is where the section table ends;
//! `XAC` sits at 140; a non-zero byte at 146 makes every later field big-endian. Sections
//! start at 148 as `{id, size, version}` (size excludes the 12-byte header). A nodes section
//! holds a node count, 4 skipped bytes, then per node: rotation (4 words), 16 skipped bytes,
//! position (3 words), 32 skipped bytes, parent index, 76 skipped bytes, a name length and
//! the name's bytes.

use vstd::prelude::*;
use vstd::bytes::{spec_u32_from_le_bytes, u32_from_le_bytes};
use vstd::slice::slice_subrange;
use crate::le::{u32_at, read_u32_at};
use crate::text::{decoded_name, string_from_utf8_lossy};

verus! {

/// The id of the nodes section.
pub const SECTION_NODES: u32 = 11;

/// Why an actor's skeleton could not be read.
#[derive(Debug, Clone, Copy, PartialEq, Eq, Structural)]
pub enum XmacError {
    /// Fewer than 150 bytes (the length is given).
    TooShort(usize),
    /// No `XAC` at offset 140.
    MissingMagic,
    /// A 4-byte field at this offset runs past the end.
    EndOfFile(u64),
    /// A name of this length at this offset runs past the end.
    NamePastEnd(u64, u64),
}

/// One bone: name, parent (an index into the same list, `None` for a root), and bind-pose
/// local rotation `[x, y, z, w]` and position `[x, y, z]` as `f32` bit patterns.
#[derive(Debug, Clone)]
pub struct SkeletonNode {
    pub name: String,
    pub parent_index: Option<usize>,
    pub rotation_bits: [u32; 4],
    pub position_bits: [u32; 3],
}

/// A bone as values.
pub struct NodeSpec {
    pub name: Seq<char>,
    pub parent_index: Option<usize>,
    pub rotation_bits: Seq<u32>,
    pub position_bits: Seq<u32>,
}

/// A bone's values.
pub open spec fn node_view(n: SkeletonNode) -> NodeSpec {
    NodeSpec {
        name: n.name@,
        parent_index: n.parent_index,
        rotation_bits: n.rotation_bits@,
        position_bits: n.position_bits@,
    }
}

/// The values of a list of bones.
pub open spec fn nodes_view(v: Seq<SkeletonNode>) -> Seq<NodeSpec> {
    v.map_values(|n: SkeletonNode| node_view(n))
}

/// The word at `off`, little- or big-endian; `None` when it runs past the end.
pub open spec fn word_at(d: Seq<u8>, off: int, be: bool) -> Option<u32> {
    if off < 0 || off + 4 > d.len() {
        None
    } else if be {
        Some(spec_u32_from_le_bytes(seq![d[off + 3], d[off + 2], d[off + 1], d[off]]))
    } else {
        Some(u32_at(d, off))
    }
}

/// The word at `off`, or the end-of-file error naming `off`.
pub open spec fn word_or_eof(d: Seq<u8>, off: int, be: bool) -> Result<u32, XmacError> {
    match word_at(d, off, be) {
        Some(w) => Ok(w),
        None => Err(XmacError::EndOfFile(off as u64)),
    }
}

/// The node record at `off` of a section with `count` nodes, and where the next one starts.
/// Fields are read in file order; the first that runs past the end is the error.
pub open spec fn node_at(d: Seq<u8>, be: bool, off: int, count: int) -> Result<(NodeSpec, int), XmacError> {
    match (
        word_or_eof(d, off, be),
        word_or_eof(d, off + 4, be),
        word_or_eof(d, off + 8, be),
        word_or_eof(d, off + 12, be),
    ) {
        (Err(e), _, _, _) => Err(e),
        (Ok(_), Err(e), _, _) => Err(e),
        (Ok(_), Ok(_), Err(e), _) => Err(e),
        (Ok(_), Ok(_), Ok(_), Err(e)) => Err(e),
        (Ok(r0), Ok(r1), Ok(r2), Ok(r3)) => match (
            word_or_eof(d, off + 32, be),
            word_or_eof(d, off + 36, be),
            word_or_eof(d, off + 40, be),
        ) {
            (Err(e), _, _) => Err(e),
            (Ok(_), Err(e), _) => Err(e),
            (Ok(_), Ok(_), Err(e)) => Err(e),
            (Ok(p0), Ok(p1), Ok(p2)) => match word_or_eof(d, off + 76, be) {
                Err(e) => Err(e),
                Ok(parent) => match word_or_eof(d, off + 156, be) {
                    Err(e) => Err(e),
                    Ok(len) => if off + 160 + len > d.len() {
                        Err(XmacError::NamePastEnd(len as u64, (off + 160) as u64))
                    } else {
                        Ok(
                            (
                                NodeSpec {
                                    name: decoded_name(d.subrange(off + 160, off + 160 + len)),
                                    parent_index: if parent < count {
                                        Some(parent as usize)
                                    } else {
                                        None
                                    },
                                    rotation_bits: seq![r0, r1, r2, r3],
                                    position_bits: seq![p0, p1, p2],
                                },
                                off + 160 + len,
                            ),
                        )
                    },
                },
            },
        },
    }
}

/// The first `k` nodes of a section with `count` nodes whose records start at `start`, and
/// where the next record would start.
pub open spec fn nodes_upto(d: Seq<u8>, be: bool, start: int, k: nat, count: int) -> Result<(Seq<NodeSpec>, int), XmacError>
    decreases k,
{
    if k == 0 {
        Ok((Seq::empty(), start))
    } else {
        match nodes_upto(d, be, start, (k - 1) as nat, count) {
            Err(e) => Err(e),
            Ok((ns, off)) => match node_at(d, be, off, count) {
                Err(e) => Err(e),
                Ok((n, next)) => Ok((ns.push(n), next)),
            },
        }
    }
}

/// The nodes of every nodes section from the section at `next` up to `end`, after `acc`.
pub open spec fn sections_from(d: Seq<u8>, be: bool, next: int, end: int, acc: Seq<NodeSpec>) -> Result<Seq<NodeSpec>, XmacError>
    decreases end - next,
{
    if next >= end {
        Ok(acc)
    } else {
        match (word_or_eof(d, next, be), word_or_eof(d, next + 4, be)) {
            (Err(e), _) => Err(e),
            (Ok(_), Err(e)) => Err(e),
            (Ok(id), Ok(size)) => {
                let after = next + size + 12;
                if id != SECTION_NODES {
                    if after >= end {
                        Ok(acc)
                    } else {
                        sections_from(d, be, after, end, acc)
                    }
                } else {
                    match word_or_eof(d, next + 12, be) {
                        Err(e) => Err(e),
                        Ok(count) => match nodes_upto(d, be, next + 20, count as nat, count as int) {
                            Err(e) => Err(e),
                            Ok((ns, _)) => if after >= end {
                                Ok(acc + ns)
                            } else {
                                sections_from(d, be, after, end, acc + ns)
                            },
                        },
                    }
                }
            },
        }
    }
}

/// `XAC`.
pub open spec fn xac_magic() -> Seq<u8> {
    seq![0x58u8, 0x41, 0x43]
}

/// The skeleton an actor file holds, nodes in file order (a parent before its children).
pub open spec fn skeleton_spec(d: Seq<u8>) -> Result<Seq<NodeSpec>, XmacError> {
    if d.len() < 150 {
        Err(XmacError::TooShort(d.len() as usize))
    } else if d.subrange(140, 143) != xac_magic() {
        Err(XmacError::MissingMagic)
    } else {
        sections_from(d, d[146] != 0, 148, u32_at(d, 136) + 140, Seq::empty())
    }
}

fn read_word(data: &[u8], off: u64, be: bool) -> (r: Result<u32, XmacError>)
    requires
        data@.len() <= isize::MAX,
    ensures
        r == word_or_eof(data@, off as int, be),
{
    let n = data.len() as u64;
    if off > n || n - off < 4 {
        return Err(XmacError::EndOfFile(off));
    }
    let o = off as usize;
    if be {
        let b: [u8; 4] = [data[o + 3], data[o + 2], data[o + 1], data[o]];
        proof {
            assert(b@ =~= seq![data@[o + 3], data@[o + 2], data@[o + 1], data@[o as int]]);
        }
        Ok(u32_from_le_bytes(b.as_slice()))
    } else {
        Ok(read_u32_at(data, o).unwrap())
    }
}

fn read_node(data: &[u8], be: bool, off: u64, count: u32) -> (r: Result<(SkeletonNode, u64), XmacError>)
    requires
        data@.len() <= isize::MAX,
        off <= data@.len() + 0x2_0000_0000,
    ensures
        match node_at(data@, be, off as int, count as int) {
            Err(e) => r == Err::<(SkeletonNode, u64), XmacError>(e),
            Ok((n, next)) => r matches Ok((m, nx)) && node_view(m) == n && nx == next && nx <= data@.len(),
        },
{
    let r0 = read_word(data, off, be)?;
    let r1 = read_word(data, off + 4, be)?;
    let r2 = read_word(data, off + 8, be)?;
    let r3 = read_word(data, off + 12, be)?;
    let p0 = read_word(data, off + 32, be)?;
    let p1 = read_word(data, off + 36, be)?;
    let p2 = read_word(data, off + 40, be)?;
    let parent = read_word(data, off + 76, be)?;
    let len = read_word(data, off + 156, be)?;
    let n = data.len() as u64;
    let start = off + 160;
    if start + len as u64 > n {
        return Err(XmacError::NamePastEnd(len as u64, start));
    }
    let bytes = slice_subrange(data, start as usize, (start + len as u64) as usize);
    let name = string_from_utf8_lossy(bytes);
    let rotation_bits: [u32; 4] = [r0, r1, r2, r3];
    let position_bits: [u32; 3] = [p0, p1, p2];
    let node = SkeletonNode {
        name,
        parent_index: if parent < count {
            Some(parent as usize)
        } else {
            None
        },
        rotation_bits,
        position_bits,
    };
    proof {
        assert(rotation_bits@ =~= seq![r0, r1, r2, r3]);
        assert(position_bits@ =~= seq![p0, p1, p2]);
    }
    Ok((node, start + len as u64))
}

fn read_nodes(data: &[u8], be: bool, start: u64, count: u32, out: &mut Vec<SkeletonNode>) -> (r: Result<(), XmacError>)
    requires
        data@.len() <= isize::MAX,
        start <= data@.len() + 0x2_0000_0000,
    ensures
        match nodes_upto(data@, be, start as int, count as nat, count as int) {
            Err(e) => r == Err::<(), XmacError>(e),
            Ok((ns, _)) => r is Ok && nodes_view(final(out)@) == nodes_view(old(out)@) + ns,
        },
{
    let ghost base = nodes_view(out@);
    let mut off = start;
    let mut k: u32 = 0;
    while k < count
        invariant
            data@.len() <= isize::MAX,
            k <= count,
            off <= data@.len() + 0x2_0000_0000,
            nodes_upto(data@, be, start as int, k as nat, count as int) matches Ok((ns, o)) && o == off
                && nodes_view(out@) == base + ns,
        decreases count - k,
    {
        let ghost prev = nodes_view(out@);
        match read_node(data, be, off, count) {
            Err(e) => {
                proof {
                    assert((k + 1) as nat - 1 == k as nat);
                }
                proof {
                    lemma_nodes_err_stays(data@, be, start as int, (k + 1) as nat, count as nat, count as int);
                }
                return Err(e);
            },
            Ok((node, next)) => {
                out.push(node);
                proof {
                    assert((k + 1) as nat - 1 == k as nat);
                    assert(nodes_view(out@) =~= prev.push(node_view(node)));
                    let ns = nodes_upto(data@, be, start as int, k as nat, count as int)->Ok_0.0;
                    assert(base + ns.push(node_view(node)) =~= (base + ns).push(node_view(node)));
                }
                off = next;
            },
        }
        k += 1;
    }
    Ok(())
}

proof fn lemma_nodes_err_stays(d: Seq<u8>, be: bool, start: int, k: nat, m: nat, count: int)
    requires
        k <= m,
        nodes_upto(d, be, start, k, count) is Err,
    ensures
        nodes_upto(d, be, start, m, count) == nodes_upto(d, be, start, k, count),
    decreases m - k,
{
    if k < m {
        lemma_nodes_err_stays(d, be, start, k, (m - 1) as nat, count);
        assert((m - 1) as nat + 1 == m);
    }
}

/// The skeleton of an actor file (see `skeleton_spec`): bones in file order, each parent
/// before its children.
pub fn parse_skeleton(data: &[u8]) -> (r: Result<Vec<SkeletonNode>, XmacError>)
    requires
        data@.len() <= isize::MAX,
    ensures
        match skeleton_spec(data@) {
            Err(e) => r == Err::<Vec<SkeletonNode>, XmacError>(e),
            Ok(ns) => r matches Ok(v) && nodes_view(v@) == ns,
        },
{
    if data.len() < 150 {
        return Err(XmacError::TooShort(data.len()));
    }
    let end: u64 = read_u32_at(data, 136).unwrap() as u64 + 140;
    if !(data[140] == 0x58 && data[141] == 0x41 && data[142] == 0x43) {
        proof {
            if data@.subrange(140, 143) == xac_magic() {
                assert(data@.subrange(140, 143)[0] == data@[140]);
                assert(data@.subrange(140, 143)[1] == data@[141]);
                assert(data@.subrange(140, 143)[2] == data@[142]);
            }
        }
        return Err(XmacError::MissingMagic);
    }
    proof {
        assert(data@.subrange(140, 143) =~= xac_magic());
    }
    let be = data[146] != 0;
    let mut nodes: Vec<SkeletonNode> = Vec::new();
    let mut next: u64 = 148;
    proof {
        assert(nodes_view(nodes@) =~= Seq::<NodeSpec>::empty());
    }
    while next < end
        invariant
            data@.len() <= isize::MAX,
            data@.len() >= 150,
            end == u32_at(data@, 136) + 140,
            148 <= next <= end + 0x2_0000_0000,
            be == (data@[146] != 0),
            next < end ==> skeleton_spec(data@) == sections_from(data@, be, next as int, end as int, nodes_view(nodes@)),
            next >= end ==> skeleton_spec(data@) == Ok::<Seq<NodeSpec>, XmacError>(nodes_view(nodes@)),
        decreases end + 0x2_0000_0000 - next,
    {
        let id = read_word(data, next, be)?;
        let size = read_word(data, next + 4, be)?;
        let start = next;
        let after = next + size as u64 + 12;
        if id == SECTION_NODES {
            let count = read_word(data, start + 12, be)?;
            let ghost before = nodes_view(nodes@);
            read_nodes(data, be, start + 20, count, &mut nodes)?;
        }
        next = after;
    }
    Ok(nodes)
}

} // verus!
