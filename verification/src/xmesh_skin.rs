//! The skinned mesh of a `._xmac` actor: every mesh section (positions, normals, UVs and
//! faces, remapped from raw stream order to final vertex order through the `BaseVerts`
//! table) and every skin section (per-vertex bone weights), concatenated in file order with
//! a running vertex offset. Positions, normals, UVs and weights are kept as the IEEE-754 bit
//! patterns the file stores, passed through unchanged.
//!
//! Sections follow the `._xmac` framing (see `xmac`): the section table starts at 148 and
//! ends at the little-endian `u32` at 136 plus 140; only little-endian files are read. A
//! materials section's declared size is not trusted: it is walked field by field to find
//! where it really ends.

use vstd::prelude::*;
use crate::le::{u32_at, u16_at, read_u32_at, read_u16_at};

verus! {

/// How far past the data's end an offset can be taken while reading: sizes read from the
/// file move the read position by at most this much before the next read fails.
pub open spec fn read_margin() -> int {
    0x10_0000_0000
}

/// Section ids and mesh sub-block ids this reader acts on.
pub const SECTION_MESH: u32 = 1;
pub const SECTION_SKIN: u32 = 2;
pub const SECTION_MATERIALS: u32 = 13;
pub const MESH_VERTICES: u32 = 0;
pub const MESH_NORMALS: u32 = 1;
pub const MESH_TEXCOORDS: u32 = 3;
pub const MESH_BASEVERTS: u32 = 5;

/// Why an actor's skinned mesh could not be read.
#[derive(Debug, Clone, Copy, PartialEq, Eq, Structural)]
pub enum SkinError {
    /// Fewer than 150 bytes (the length is given).
    TooShort(usize),
    /// No `XAC` at offset 140.
    MissingMagic,
    /// The file is big-endian, which this reader does not handle.
    BigEndian,
    /// A field at this offset runs past the end.
    EndOfFile(usize),
}

/// The little-endian `u32` at `off`, or the end-of-file error naming `off`.
pub open spec fn word(d: Seq<u8>, off: int) -> Result<u32, SkinError> {
    if off < 0 || off + 4 > d.len() {
        Err(SkinError::EndOfFile(off as usize))
    } else {
        Ok(u32_at(d, off))
    }
}

/// The little-endian `u16` at `off`, or the end-of-file error naming `off`.
pub open spec fn half(d: Seq<u8>, off: int) -> Result<u16, SkinError> {
    if off < 0 || off + 2 > d.len() {
        Err(SkinError::EndOfFile(off as usize))
    } else {
        Ok(u16_at(d, off))
    }
}

/// The byte at `off`, or the end-of-file error naming `off`.
pub open spec fn byte(d: Seq<u8>, off: int) -> Result<u8, SkinError> {
    if off < 0 || off >= d.len() {
        Err(SkinError::EndOfFile(off as usize))
    } else {
        Ok(d[off])
    }
}

fn rd(data: &[u8], off: usize) -> (r: Result<u32, SkinError>)
    ensures
        r == word(data@, off as int),
{
    match read_u32_at(data, off) {
        Some(v) => Ok(v),
        None => Err(SkinError::EndOfFile(off)),
    }
}

fn rd16(data: &[u8], off: usize) -> (r: Result<u16, SkinError>)
    ensures
        r == half(data@, off as int),
{
    match read_u16_at(data, off) {
        Some(v) => Ok(v),
        None => Err(SkinError::EndOfFile(off)),
    }
}

// ---------------------------------------------------------------------------------------
// Materials: where the section really ends
// ---------------------------------------------------------------------------------------

/// The end of `k` texture-map records starting at `off`: 28 skipped bytes, a path length,
/// the path.
pub open spec fn maps_upto(d: Seq<u8>, off: int, k: nat) -> Result<int, SkinError>
    decreases k,
{
    if k == 0 {
        Ok(off)
    } else {
        match maps_upto(d, off, (k - 1) as nat) {
            Err(e) => Err(e),
            Ok(o) => match word(d, o + 28) {
                Err(e) => Err(e),
                Ok(len) => Ok(o + 32 + len),
            },
        }
    }
}

/// The end of one material record at `off`: 95 skipped bytes, a map count, a name length,
/// the name, then the maps.
pub open spec fn material_end(d: Seq<u8>, off: int) -> Result<int, SkinError> {
    match byte(d, off + 95) {
        Err(e) => Err(e),
        Ok(maps) => match word(d, off + 96) {
            Err(e) => Err(e),
            Ok(len) => maps_upto(d, off + 100 + len, maps as nat),
        },
    }
}

/// The end of the first `k` material records starting at `off`.
pub open spec fn materials_upto(d: Seq<u8>, off: int, k: nat) -> Result<int, SkinError>
    decreases k,
{
    if k == 0 {
        Ok(off)
    } else {
        match materials_upto(d, off, (k - 1) as nat) {
            Err(e) => Err(e),
            Ok(o) => material_end(d, o),
        }
    }
}

/// Where the materials section starting at `start` really ends.
pub open spec fn materials_end_spec(d: Seq<u8>, start: int) -> Result<int, SkinError> {
    match word(d, start + 12) {
        Err(e) => Err(e),
        Ok(count) => materials_upto(d, start + 24, count as nat),
    }
}

proof fn lemma_maps_err_stays(d: Seq<u8>, off: int, k: nat, m: nat)
    requires
        k <= m,
        maps_upto(d, off, k) is Err,
    ensures
        maps_upto(d, off, m) == maps_upto(d, off, k),
    decreases m - k,
{
    if k < m {
        lemma_maps_err_stays(d, off, k, (m - 1) as nat);
    }
}

proof fn lemma_materials_err_stays(d: Seq<u8>, off: int, k: nat, m: nat)
    requires
        k <= m,
        materials_upto(d, off, k) is Err,
    ensures
        materials_upto(d, off, m) == materials_upto(d, off, k),
    decreases m - k,
{
    if k < m {
        lemma_materials_err_stays(d, off, k, (m - 1) as nat);
    }
}

fn read_material_end(data: &[u8], off: usize) -> (r: Result<usize, SkinError>)
    requires
        data@.len() + read_margin() <= usize::MAX,
        off <= data@.len() + 0x2_0000_0000,
    ensures
        match material_end(data@, off as int) {
            Err(e) => r == Err::<usize, SkinError>(e),
            Ok(o) => r == Ok::<usize, SkinError>(o as usize) && o <= data@.len() + 0x2_0000_0000,
        },
{
    if off + 95 >= data.len() {
        return Err(SkinError::EndOfFile(off + 95));
    }
    let maps = data[off + 95];
    let len = rd(data, off + 96)?;
    let start = off + 100 + len as usize;
    let mut o = start;
    let mut k: u8 = 0;
    while k < maps
        invariant
            data@.len() + read_margin() <= usize::MAX,
            k <= maps,
            o <= data@.len() + 0x2_0000_0000,
            maps_upto(data@, start as int, k as nat) == Ok::<int, SkinError>(o as int),
            material_end(data@, off as int) == maps_upto(data@, start as int, maps as nat),
        decreases maps - k,
    {
        let plen = match rd(data, o + 28) {
            Ok(p) => p,
            Err(e) => {
                proof {
                    assert(((k + 1) as nat - 1) as nat == k as nat);
                    assert(maps_upto(data@, start as int, (k + 1) as nat) == Err::<int, SkinError>(e));
                    lemma_maps_err_stays(data@, start as int, (k + 1) as nat, maps as nat);
                }
                return Err(e);
            },
        };
        o = o + 32 + plen as usize;
        k += 1;
    }
    Ok(o)
}

fn read_materials_end(data: &[u8], start: usize) -> (r: Result<usize, SkinError>)
    requires
        data@.len() + read_margin() <= usize::MAX,
        start <= 0x1_0000_0100,
    ensures
        match materials_end_spec(data@, start as int) {
            Err(e) => r == Err::<usize, SkinError>(e),
            Ok(o) => r == Ok::<usize, SkinError>(o as usize) && o <= data@.len() + 0x2_0000_0000,
        },
{
    let count = rd(data, start + 12)?;
    let mut o = start + 24;
    let mut k: u32 = 0;
    while k < count
        invariant
            data@.len() + read_margin() <= usize::MAX,
            k <= count,
            o <= data@.len() + 0x2_0000_0000,
            materials_upto(data@, start + 24, k as nat) == Ok::<int, SkinError>(o as int),
            materials_end_spec(data@, start as int) == materials_upto(data@, start + 24, count as nat),
        decreases count - k,
    {
        o = match read_material_end(data, o) {
            Ok(x) => x,
            Err(e) => {
                proof {
                    assert(((k + 1) as nat - 1) as nat == k as nat);
                    assert(materials_upto(data@, start + 24, (k + 1) as nat) == Err::<int, SkinError>(e));
                    lemma_materials_err_stays(data@, start + 24, (k + 1) as nat, count as nat);
                }
                return Err(e);
            },
        };
        k += 1;
    }
    Ok(o)
}

// ---------------------------------------------------------------------------------------
// Mesh sections
// ---------------------------------------------------------------------------------------

/// The first `k` of a run of 12-byte `(x, y, z)` records at `o`.
pub open spec fn triples_upto(d: Seq<u8>, o: int, k: nat) -> Result<Seq<(u32, u32, u32)>, SkinError>
    decreases k,
{
    if k == 0 {
        Ok(Seq::empty())
    } else {
        match triples_upto(d, o, (k - 1) as nat) {
            Err(e) => Err(e),
            Ok(ts) => {
                let b = o + 12 * (k - 1);
                match (word(d, b), word(d, b + 4), word(d, b + 8)) {
                    (Err(e), _, _) => Err(e),
                    (Ok(_), Err(e), _) => Err(e),
                    (Ok(_), Ok(_), Err(e)) => Err(e),
                    (Ok(x), Ok(y), Ok(z)) => Ok(ts.push((x, y, z))),
                }
            },
        }
    }
}

/// The first `k` of a run of 8-byte `(u, v)` records at `o`.
pub open spec fn pairs_upto(d: Seq<u8>, o: int, k: nat) -> Result<Seq<(u32, u32)>, SkinError>
    decreases k,
{
    if k == 0 {
        Ok(Seq::empty())
    } else {
        match pairs_upto(d, o, (k - 1) as nat) {
            Err(e) => Err(e),
            Ok(ts) => {
                let b = o + 8 * (k - 1);
                match (word(d, b), word(d, b + 4)) {
                    (Err(e), _) => Err(e),
                    (Ok(_), Err(e)) => Err(e),
                    (Ok(x), Ok(y)) => Ok(ts.push((x, y))),
                }
            },
        }
    }
}

/// The first `k` of a run of words at `o`.
pub open spec fn words_upto(d: Seq<u8>, o: int, k: nat) -> Result<Seq<u32>, SkinError>
    decreases k,
{
    if k == 0 {
        Ok(Seq::empty())
    } else {
        match words_upto(d, o, (k - 1) as nat) {
            Err(e) => Err(e),
            Ok(ws) => match word(d, o + 4 * (k - 1)) {
                Err(e) => Err(e),
                Ok(w) => Ok(ws.push(w)),
            },
        }
    }
}

/// What reading a mesh section's sub-blocks has gathered so far: the read position, the raw
/// positions, normals and UVs, and the raw-to-final vertex table.
pub struct SubBlockState {
    pub off: int,
    pub positions: Seq<(u32, u32, u32)>,
    pub normals: Seq<(u32, u32, u32)>,
    pub uvs: Seq<(u32, u32)>,
    pub base_verts: Seq<u32>,
}

/// One sub-block `{id, size, skipped}` at the state's position: vertices (id 0, size 12),
/// normals (1, 12), UVs (3, 8) and the vertex table (5, 4) hold `uv` records each and replace
/// what was read before; any other block is skipped as `size * uv` bytes. `None` where the
/// position leaves the address range.
pub open spec fn sub_block(d: Seq<u8>, st: SubBlockState, uv: nat) -> Option<Result<SubBlockState, SkinError>> {
    if st.off + 4 > usize::MAX {
        None
    } else {
        match (word(d, st.off), word(d, st.off + 4)) {
            (Err(e), _) => Some(Err(e)),
            (Ok(_), Err(e)) => Some(Err(e)),
            (Ok(id), Ok(size)) => {
                let o = st.off + 12;
                if id == MESH_VERTICES && size == 12 {
                    match triples_upto(d, o, uv) {
                        Err(e) => Some(Err(e)),
                        Ok(t) => Some(Ok(SubBlockState { off: o + 12 * uv, positions: t, ..st })),
                    }
                } else if id == MESH_NORMALS && size == 12 {
                    match triples_upto(d, o, uv) {
                        Err(e) => Some(Err(e)),
                        Ok(t) => Some(Ok(SubBlockState { off: o + 12 * uv, normals: t, ..st })),
                    }
                } else if id == MESH_TEXCOORDS && size == 8 {
                    match pairs_upto(d, o, uv) {
                        Err(e) => Some(Err(e)),
                        Ok(t) => Some(Ok(SubBlockState { off: o + 8 * uv, uvs: t, ..st })),
                    }
                } else if id == MESH_BASEVERTS && size == 4 {
                    match words_upto(d, o, uv) {
                        Err(e) => Some(Err(e)),
                        Ok(t) => Some(Ok(SubBlockState { off: o + 4 * uv, base_verts: t, ..st })),
                    }
                } else if o + size * uv > usize::MAX {
                    None
                } else {
                    Some(Ok(SubBlockState { off: o + size * uv, ..st }))
                }
            },
        }
    }
}

/// The state after the first `k` sub-blocks.
pub open spec fn sub_blocks_upto(d: Seq<u8>, st: SubBlockState, uv: nat, k: nat) -> Option<Result<SubBlockState, SkinError>>
    decreases k,
{
    if k == 0 {
        Some(Ok(st))
    } else {
        match sub_blocks_upto(d, st, uv, (k - 1) as nat) {
            Some(Ok(s)) => sub_block(d, s, uv),
            other => other,
        }
    }
}

/// The first `k` faces of a face part whose indices start at `o`, each index offset by `pv`
/// (the vertices of the earlier parts). `None` where an offset index overflows a `u32`.
pub open spec fn part_faces(d: Seq<u8>, o: int, pv: u32, k: nat) -> Option<Result<Seq<(u32, u32, u32)>, SkinError>>
    decreases k,
{
    if k == 0 {
        Some(Ok(Seq::empty()))
    } else {
        match part_faces(d, o, pv, (k - 1) as nat) {
            Some(Ok(fs)) => {
                let b = o + 12 * (k - 1);
                match word(d, b) {
                    Err(e) => Some(Err(e)),
                    Ok(x) => if x + pv > u32::MAX {
                        None
                    } else {
                        match word(d, b + 4) {
                            Err(e) => Some(Err(e)),
                            Ok(y) => if y + pv > u32::MAX {
                                None
                            } else {
                                match word(d, b + 8) {
                                    Err(e) => Some(Err(e)),
                                    Ok(z) => if z + pv > u32::MAX {
                                        None
                                    } else {
                                        Some(Ok(fs.push(((x + pv) as u32, (y + pv) as u32, (z + pv) as u32))))
                                    },
                                }
                            },
                        }
                    },
                }
            },
            other => other,
        }
    }
}

pub proof fn lemma_part_faces_end(d: Seq<u8>, o: int, pv: u32, k: nat)
    requires
        k > 0,
        part_faces(d, o, pv, k) matches Some(Ok(_)),
    ensures
        o + 12 * k <= d.len(),
    decreases k,
{
}

/// What reading face parts has gathered: the read position, the faces (indices still in raw
/// vertex order), and the faces and vertices of the parts read.
pub struct FaceState {
    pub off: int,
    pub faces: Seq<(u32, u32, u32)>,
    pub passed_faces: int,
    pub passed_verts: u32,
}

/// Face parts from the state on, until `face_count` faces have been passed: each part is
/// `{3 * faces, vertices, material, skipped words}` then its faces. `None` where an index or
/// the vertex total overflows a `u32`, or the position leaves the address range.
pub open spec fn faces_from(d: Seq<u8>, st: FaceState, face_count: int) -> Option<Result<FaceState, SkinError>>
    decreases d.len() + 0x10_0000_0000 - st.off,
{
    if st.passed_faces == face_count {
        Some(Ok(st))
    } else if st.off + 4 > usize::MAX {
        None
    } else {
        match word(d, st.off) {
            Err(e) => Some(Err(e)),
            Ok(f3) => match word(d, st.off + 4) {
                Err(e) => Some(Err(e)),
                Ok(pvc) => match word(d, st.off + 12) {
                    Err(e) => Some(Err(e)),
                    Ok(skip) => {
                        let pfc = (f3 / 3) as nat;
                        match part_faces(d, st.off + 16, st.passed_verts, pfc) {
                            None => None,
                            Some(Err(e)) => Some(Err(e)),
                            Some(Ok(fs)) => if st.passed_verts + pvc > u32::MAX {
                                None
                            } else {
                                proof {
                                    if pfc > 0 {
                                        lemma_part_faces_end(d, st.off + 16, st.passed_verts, pfc);
                                    }
                                }
                                faces_from(
                                    d,
                                    FaceState {
                                        off: st.off + 16 + 12 * pfc + 4 * skip,
                                        faces: st.faces + fs,
                                        passed_faces: st.passed_faces + pfc,
                                        passed_verts: (st.passed_verts + pvc) as u32,
                                    },
                                    face_count,
                                )
                            },
                        }
                    },
                },
            },
        }
    }
}

/// Each index of a face is a row of the vertex table.
pub open spec fn face_in(f: (u32, u32, u32), n: int) -> bool {
    f.0 < n && f.1 < n && f.2 < n
}

/// Faces taken through the raw-to-final vertex table.
pub open spec fn remap_faces(fs: Seq<(u32, u32, u32)>, base: Seq<u32>) -> Seq<(u32, u32, u32)> {
    fs.map_values(|f: (u32, u32, u32)| (base[f.0 as int], base[f.1 as int], base[f.2 as int]))
}

/// A mesh section as read: its node, final vertex count, raw positions/normals/UVs, the
/// raw-to-final vertex table, and its faces in final vertex order.
pub struct MeshSpec {
    pub node_index: u32,
    pub final_vert_count: u32,
    pub positions: Seq<(u32, u32, u32)>,
    pub normals: Seq<(u32, u32, u32)>,
    pub uvs: Seq<(u32, u32)>,
    pub base_verts: Seq<u32>,
    pub faces: Seq<(u32, u32, u32)>,
}

/// `0, 1, ..., n - 1`.
pub open spec fn identity_table(n: nat) -> Seq<u32> {
    Seq::new(n, |i: int| i as u32)
}

/// A mesh section's result once its face parts are read.
pub open spec fn mesh_after_faces(node: u32, vc: u32, sb: SubBlockState, fr: Option<Result<FaceState, SkinError>>) -> Option<Result<MeshSpec, SkinError>> {
    match fr {
        None => None,
        Some(Err(e)) => Some(Err(e)),
        Some(Ok(f)) => if forall|i: int| 0 <= i < f.faces.len() ==> face_in(#[trigger] f.faces[i], sb.base_verts.len() as int) {
            Some(
                Ok(
                    MeshSpec {
                        node_index: node,
                        final_vert_count: vc,
                        positions: sb.positions,
                        normals: sb.normals,
                        uvs: sb.uvs,
                        base_verts: sb.base_verts,
                        faces: remap_faces(f.faces, sb.base_verts),
                    },
                ),
            )
        } else {
            None
        },
    }
}

/// A mesh section's result once its sub-blocks are read.
pub open spec fn mesh_after_blocks(d: Seq<u8>, node: u32, vc: u32, f3: u32, sbr: Option<Result<SubBlockState, SkinError>>) -> Option<Result<MeshSpec, SkinError>> {
    match sbr {
        None => None,
        Some(Err(e)) => Some(Err(e)),
        Some(Ok(sb)) => mesh_after_faces(
            node,
            vc,
            sb,
            faces_from(d, FaceState { off: sb.off, faces: Seq::empty(), passed_faces: 0, passed_verts: 0 }, (f3 / 3) as int),
        ),
    }
}

/// The mesh section starting at `start`: node index, final and raw vertex counts, three
/// times the face count, a skipped word, the sub-block count, a skipped word; then the
/// sub-blocks and the face parts. `None` where reading it cannot complete (see `sub_block`,
/// `faces_from`, and a face index outside the vertex table).
pub open spec fn mesh_section_spec(d: Seq<u8>, start: int) -> Option<Result<MeshSpec, SkinError>> {
    match (word(d, start + 12), word(d, start + 16), word(d, start + 20), word(d, start + 24), word(d, start + 32)) {
        (Err(e), _, _, _, _) => Some(Err(e)),
        (Ok(_), Err(e), _, _, _) => Some(Err(e)),
        (Ok(_), Ok(_), Err(e), _, _) => Some(Err(e)),
        (Ok(_), Ok(_), Ok(_), Err(e), _) => Some(Err(e)),
        (Ok(_), Ok(_), Ok(_), Ok(_), Err(e)) => Some(Err(e)),
        (Ok(node), Ok(vc), Ok(uv), Ok(f3), Ok(msc)) => mesh_after_blocks(
            d,
            node,
            vc,
            f3,
            sub_blocks_upto(
                d,
                SubBlockState {
                    off: start + 40,
                    positions: Seq::empty(),
                    normals: Seq::empty(),
                    uvs: Seq::empty(),
                    base_verts: identity_table(uv as nat),
                },
                uv as nat,
                msc as nat,
            ),
        ),
    }
}

// ---------------------------------------------------------------------------------------
// Skin sections
// ---------------------------------------------------------------------------------------

/// The first `k` of a run of 8-byte weight records at `o`: the weight, the bone index, two
/// skipped bytes.
pub open spec fn weights_upto(d: Seq<u8>, o: int, k: nat) -> Result<(Seq<u32>, Seq<u16>), SkinError>
    decreases k,
{
    if k == 0 {
        Ok((Seq::empty(), Seq::empty()))
    } else {
        match weights_upto(d, o, (k - 1) as nat) {
            Err(e) => Err(e),
            Ok((ws, bs)) => {
                let b = o + 8 * (k - 1);
                match word(d, b) {
                    Err(e) => Err(e),
                    Ok(w) => match half(d, b + 4) {
                        Err(e) => Err(e),
                        Ok(bone) => Ok((ws.push(w), bs.push(bone))),
                    },
                }
            },
        }
    }
}

/// The per-vertex weight counts from `off` on, until they cover `weight_count` weights: each
/// is a skipped word then the count.
pub open spec fn counts_from(d: Seq<u8>, off: int, consumed: int, weight_count: int, acc: Seq<u32>) -> Result<Seq<u32>, SkinError>
    decreases d.len() + 0x10_0000_0000 - off,
{
    if consumed >= weight_count {
        Ok(acc)
    } else {
        match word(d, off + 4) {
            Err(e) => Err(e),
            Ok(c) => counts_from(d, off + 8, consumed + c, weight_count, acc.push(c)),
        }
    }
}

/// A skin section as read: the node it skins, the weights (as bit patterns) with their bone
/// indices, and how many weights each final vertex takes, in vertex order.
pub struct SkinSpec {
    pub node_index: u32,
    pub weights: Seq<u32>,
    pub bones: Seq<u16>,
    pub counts: Seq<u32>,
}

/// The skin section starting at `start`: node index, a skipped word, the weight count, a
/// skipped word, the weight records, then the per-vertex counts.
pub open spec fn skin_section_spec(d: Seq<u8>, start: int) -> Result<SkinSpec, SkinError> {
    match (word(d, start + 12), word(d, start + 20)) {
        (Err(e), _) => Err(e),
        (Ok(_), Err(e)) => Err(e),
        (Ok(node), Ok(wc)) => match weights_upto(d, start + 28, wc as nat) {
            Err(e) => Err(e),
            Ok((ws, bs)) => match counts_from(d, start + 28 + 8 * wc, 0, wc as int, Seq::empty()) {
                Err(e) => Err(e),
                Ok(cs) => Ok(SkinSpec { node_index: node, weights: ws, bones: bs, counts: cs }),
            },
        },
    }
}

// ---------------------------------------------------------------------------------------
// Reading sections
// ---------------------------------------------------------------------------------------

proof fn lemma_triples_err(d: Seq<u8>, o: int, k: nat, m: nat)
    requires
        k <= m,
        triples_upto(d, o, k) is Err,
    ensures
        triples_upto(d, o, m) == triples_upto(d, o, k),
    decreases m - k,
{
    if k < m {
        lemma_triples_err(d, o, k, (m - 1) as nat);
    }
}

proof fn lemma_pairs_err(d: Seq<u8>, o: int, k: nat, m: nat)
    requires
        k <= m,
        pairs_upto(d, o, k) is Err,
    ensures
        pairs_upto(d, o, m) == pairs_upto(d, o, k),
    decreases m - k,
{
    if k < m {
        lemma_pairs_err(d, o, k, (m - 1) as nat);
    }
}

proof fn lemma_words_err(d: Seq<u8>, o: int, k: nat, m: nat)
    requires
        k <= m,
        words_upto(d, o, k) is Err,
    ensures
        words_upto(d, o, m) == words_upto(d, o, k),
    decreases m - k,
{
    if k < m {
        lemma_words_err(d, o, k, (m - 1) as nat);
    }
}

proof fn lemma_weights_err(d: Seq<u8>, o: int, k: nat, m: nat)
    requires
        k <= m,
        weights_upto(d, o, k) is Err,
    ensures
        weights_upto(d, o, m) == weights_upto(d, o, k),
    decreases m - k,
{
    if k < m {
        lemma_weights_err(d, o, k, (m - 1) as nat);
    }
}

proof fn lemma_part_faces_stop(d: Seq<u8>, o: int, pv: u32, k: nat, m: nat)
    requires
        k <= m,
        !(part_faces(d, o, pv, k) matches Some(Ok(_))),
    ensures
        part_faces(d, o, pv, m) == part_faces(d, o, pv, k),
    decreases m - k,
{
    if k < m {
        lemma_part_faces_stop(d, o, pv, k, (m - 1) as nat);
    }
}

proof fn lemma_sub_blocks_stop(d: Seq<u8>, st: SubBlockState, uv: nat, k: nat, m: nat)
    requires
        k <= m,
        !(sub_blocks_upto(d, st, uv, k) matches Some(Ok(_))),
    ensures
        sub_blocks_upto(d, st, uv, m) == sub_blocks_upto(d, st, uv, k),
    decreases m - k,
{
    if k < m {
        lemma_sub_blocks_stop(d, st, uv, k, (m - 1) as nat);
    }
}

fn read_triples(data: &[u8], o: usize, n: u32) -> (r: Result<Vec<(u32, u32, u32)>, SkinError>)
    requires
        data@.len() + read_margin() <= usize::MAX,
        o <= data@.len() + 0x8_0000_0000,
    ensures
        match triples_upto(data@, o as int, n as nat) {
            Err(e) => r == Err::<Vec<(u32, u32, u32)>, SkinError>(e),
            Ok(t) => r matches Ok(v) && v@ == t && (n == 0 || o + 12 * n <= data@.len()),
        },
{
    let mut v: Vec<(u32, u32, u32)> = Vec::new();
    let mut k: u32 = 0;
    while k < n
        invariant
            data@.len() + read_margin() <= usize::MAX,
            o <= data@.len() + 0x8_0000_0000,
            k <= n,
            k == 0 || o + 12 * k <= data@.len(),
            triples_upto(data@, o as int, k as nat) == Ok::<Seq<(u32, u32, u32)>, SkinError>(v@),
        decreases n - k,
    {
        let b = o + 12 * (k as usize);
        proof {
            assert(((k + 1) as nat - 1) as nat == k as nat);
        }
        let x = match rd(data, b) {
            Ok(x) => x,
            Err(e) => {
                proof {
                    lemma_triples_err(data@, o as int, (k + 1) as nat, n as nat);
                }
                return Err(e);
            },
        };
        let y = match rd(data, b + 4) {
            Ok(y) => y,
            Err(e) => {
                proof {
                    lemma_triples_err(data@, o as int, (k + 1) as nat, n as nat);
                }
                return Err(e);
            },
        };
        let z = match rd(data, b + 8) {
            Ok(z) => z,
            Err(e) => {
                proof {
                    lemma_triples_err(data@, o as int, (k + 1) as nat, n as nat);
                }
                return Err(e);
            },
        };
        v.push((x, y, z));
        k += 1;
    }
    Ok(v)
}

fn read_pairs(data: &[u8], o: usize, n: u32) -> (r: Result<Vec<(u32, u32)>, SkinError>)
    requires
        data@.len() + read_margin() <= usize::MAX,
        o <= data@.len() + 0x8_0000_0000,
    ensures
        match pairs_upto(data@, o as int, n as nat) {
            Err(e) => r == Err::<Vec<(u32, u32)>, SkinError>(e),
            Ok(t) => r matches Ok(v) && v@ == t && (n == 0 || o + 8 * n <= data@.len()),
        },
{
    let mut v: Vec<(u32, u32)> = Vec::new();
    let mut k: u32 = 0;
    while k < n
        invariant
            data@.len() + read_margin() <= usize::MAX,
            o <= data@.len() + 0x8_0000_0000,
            k <= n,
            k == 0 || o + 8 * k <= data@.len(),
            pairs_upto(data@, o as int, k as nat) == Ok::<Seq<(u32, u32)>, SkinError>(v@),
        decreases n - k,
    {
        let b = o + 8 * (k as usize);
        proof {
            assert(((k + 1) as nat - 1) as nat == k as nat);
        }
        let x = match rd(data, b) {
            Ok(x) => x,
            Err(e) => {
                proof {
                    lemma_pairs_err(data@, o as int, (k + 1) as nat, n as nat);
                }
                return Err(e);
            },
        };
        let y = match rd(data, b + 4) {
            Ok(y) => y,
            Err(e) => {
                proof {
                    lemma_pairs_err(data@, o as int, (k + 1) as nat, n as nat);
                }
                return Err(e);
            },
        };
        v.push((x, y));
        k += 1;
    }
    Ok(v)
}

fn read_words(data: &[u8], o: usize, n: u32) -> (r: Result<Vec<u32>, SkinError>)
    requires
        data@.len() + read_margin() <= usize::MAX,
        o <= data@.len() + 0x8_0000_0000,
    ensures
        match words_upto(data@, o as int, n as nat) {
            Err(e) => r == Err::<Vec<u32>, SkinError>(e),
            Ok(t) => r matches Ok(v) && v@ == t && (n == 0 || o + 4 * n <= data@.len()),
        },
{
    let mut v: Vec<u32> = Vec::new();
    let mut k: u32 = 0;
    while k < n
        invariant
            data@.len() + read_margin() <= usize::MAX,
            o <= data@.len() + 0x8_0000_0000,
            k <= n,
            k == 0 || o + 4 * k <= data@.len(),
            words_upto(data@, o as int, k as nat) == Ok::<Seq<u32>, SkinError>(v@),
        decreases n - k,
    {
        let b = o + 4 * (k as usize);
        proof {
            assert(((k + 1) as nat - 1) as nat == k as nat);
        }
        let x = match rd(data, b) {
            Ok(x) => x,
            Err(e) => {
                proof {
                    lemma_words_err(data@, o as int, (k + 1) as nat, n as nat);
                }
                return Err(e);
            },
        };
        v.push(x);
        k += 1;
    }
    Ok(v)
}

fn read_part_faces(data: &[u8], o: usize, pv: u32, n: u32) -> (r: Option<Result<Vec<(u32, u32, u32)>, SkinError>>)
    requires
        data@.len() + read_margin() <= usize::MAX,
        o <= data@.len() + 0x8_0000_0000,
    ensures
        match part_faces(data@, o as int, pv, n as nat) {
            None => r is None,
            Some(Err(e)) => r == Some(Err::<Vec<(u32, u32, u32)>, SkinError>(e)),
            Some(Ok(t)) => r matches Some(Ok(v)) && v@ == t,
        },
{
    let mut v: Vec<(u32, u32, u32)> = Vec::new();
    let mut k: u32 = 0;
    while k < n
        invariant
            data@.len() + read_margin() <= usize::MAX,
            o <= data@.len() + 0x8_0000_0000,
            k <= n,
            k == 0 || o + 12 * k <= data@.len(),
            part_faces(data@, o as int, pv, k as nat) == Some(Ok::<Seq<(u32, u32, u32)>, SkinError>(v@)),
        decreases n - k,
    {
        let b = o + 12 * (k as usize);
        proof {
            assert(((k + 1) as nat - 1) as nat == k as nat);
        }
        let x = match rd(data, b) {
            Ok(x) => x,
            Err(e) => {
                proof {
                    lemma_part_faces_stop(data@, o as int, pv, (k + 1) as nat, n as nat);
                }
                return Some(Err(e));
            },
        };
        if x as u64 + pv as u64 > 0xffff_ffff {
            proof {
                lemma_part_faces_stop(data@, o as int, pv, (k + 1) as nat, n as nat);
            }
            return None;
        }
        let y = match rd(data, b + 4) {
            Ok(y) => y,
            Err(e) => {
                proof {
                    lemma_part_faces_stop(data@, o as int, pv, (k + 1) as nat, n as nat);
                }
                return Some(Err(e));
            },
        };
        if y as u64 + pv as u64 > 0xffff_ffff {
            proof {
                lemma_part_faces_stop(data@, o as int, pv, (k + 1) as nat, n as nat);
            }
            return None;
        }
        let z = match rd(data, b + 8) {
            Ok(z) => z,
            Err(e) => {
                proof {
                    lemma_part_faces_stop(data@, o as int, pv, (k + 1) as nat, n as nat);
                }
                return Some(Err(e));
            },
        };
        if z as u64 + pv as u64 > 0xffff_ffff {
            proof {
                lemma_part_faces_stop(data@, o as int, pv, (k + 1) as nat, n as nat);
            }
            return None;
        }
        v.push((x + pv, y + pv, z + pv));
        k += 1;
    }
    Some(Ok(v))
}

/// A mesh section as read (see `MeshSpec`).
struct RawMesh {
    node_index: u32,
    final_vert_count: u32,
    positions: Vec<(u32, u32, u32)>,
    normals: Vec<(u32, u32, u32)>,
    uvs: Vec<(u32, u32)>,
    base_verts: Vec<u32>,
    faces: Vec<(u32, u32, u32)>,
}

spec fn raw_mesh_view(m: RawMesh) -> MeshSpec {
    MeshSpec {
        node_index: m.node_index,
        final_vert_count: m.final_vert_count,
        positions: m.positions@,
        normals: m.normals@,
        uvs: m.uvs@,
        base_verts: m.base_verts@,
        faces: m.faces@,
    }
}

fn identity_vec(n: u32) -> (v: Vec<u32>)
    ensures
        v@ == identity_table(n as nat),
{
    let mut v: Vec<u32> = Vec::new();
    let mut i: u32 = 0;
    while i < n
        invariant
            i <= n,
            v@ == identity_table(i as nat),
        decreases n - i,
    {
        v.push(i);
        proof {
            assert(v@ =~= identity_table((i + 1) as nat));
        }
        i += 1;
    }
    v
}

/// The state's values.
spec fn sub_view(off: usize, p: Seq<(u32, u32, u32)>, n: Seq<(u32, u32, u32)>, u: Seq<(u32, u32)>, b: Seq<u32>) -> SubBlockState {
    SubBlockState { off: off as int, positions: p, normals: n, uvs: u, base_verts: b }
}

fn read_mesh_section(data: &[u8], start: usize) -> (r: Option<Result<RawMesh, SkinError>>)
    requires
        data@.len() + read_margin() <= usize::MAX,
        start <= 0x1_0000_0100,
    ensures
        match mesh_section_spec(data@, start as int) {
            None => r is None,
            Some(Err(e)) => r matches Some(Err(x)) && x == e,
            Some(Ok(m)) => r matches Some(Ok(x)) && raw_mesh_view(x) == m,
        },
{
    let node = match rd(data, start + 12) {
        Ok(x) => x,
        Err(e) => return Some(Err(e)),
    };
    let vc = match rd(data, start + 16) {
        Ok(x) => x,
        Err(e) => return Some(Err(e)),
    };
    let uv = match rd(data, start + 20) {
        Ok(x) => x,
        Err(e) => return Some(Err(e)),
    };
    let f3 = match rd(data, start + 24) {
        Ok(x) => x,
        Err(e) => return Some(Err(e)),
    };
    let msc = match rd(data, start + 32) {
        Ok(x) => x,
        Err(e) => return Some(Err(e)),
    };
    let ghost dd = data@;
    let mut off: usize = start + 40;
    let mut positions: Vec<(u32, u32, u32)> = Vec::new();
    let mut normals: Vec<(u32, u32, u32)> = Vec::new();
    let mut uvs: Vec<(u32, u32)> = Vec::new();
    let mut base_verts = identity_vec(uv);
    let ghost st0 = sub_view(off, positions@, normals@, uvs@, base_verts@);
    assert(st0 == SubBlockState {
        off: start + 40,
        positions: Seq::empty(),
        normals: Seq::empty(),
        uvs: Seq::empty(),
        base_verts: identity_table(uv as nat),
    });
    assert(mesh_section_spec(dd, start as int) == mesh_after_blocks(dd, node, vc, f3, sub_blocks_upto(dd, st0, uv as nat, msc as nat)));
    let mut k: u32 = 0;
    while k < msc
        invariant
            data@.len() + read_margin() <= usize::MAX,
            dd == data@,
            k <= msc,
            mesh_section_spec(dd, start as int) == mesh_after_blocks(dd, node, vc, f3, sub_blocks_upto(dd, st0, uv as nat, msc as nat)),
            sub_blocks_upto(dd, st0, uv as nat, k as nat) == Some(
                Ok::<SubBlockState, SkinError>(sub_view(off, positions@, normals@, uvs@, base_verts@)),
            ),
        decreases msc - k,
    {
        proof {
            assert(((k + 1) as nat - 1) as nat == k as nat);
        }
        if off > usize::MAX - 4 {
            proof {
                lemma_sub_blocks_stop(dd, st0, uv as nat, (k + 1) as nat, msc as nat);
            }
            return None;
        }
        let id = match rd(data, off) {
            Ok(x) => x,
            Err(e) => {
                proof {
                    lemma_sub_blocks_stop(dd, st0, uv as nat, (k + 1) as nat, msc as nat);
                }
                return Some(Err(e));
            },
        };
        let size = match rd(data, off + 4) {
            Ok(x) => x,
            Err(e) => {
                proof {
                    lemma_sub_blocks_stop(dd, st0, uv as nat, (k + 1) as nat, msc as nat);
                }
                return Some(Err(e));
            },
        };
        let o = off + 12;
        if id == MESH_VERTICES && size == 12 {
            match read_triples(data, o, uv) {
                Ok(t) => {
                    positions = t;
                    off = o + 12 * (uv as usize);
                },
                Err(e) => {
                    proof {
                        lemma_sub_blocks_stop(dd, st0, uv as nat, (k + 1) as nat, msc as nat);
                    }
                    return Some(Err(e));
                },
            }
        } else if id == MESH_NORMALS && size == 12 {
            match read_triples(data, o, uv) {
                Ok(t) => {
                    normals = t;
                    off = o + 12 * (uv as usize);
                },
                Err(e) => {
                    proof {
                        lemma_sub_blocks_stop(dd, st0, uv as nat, (k + 1) as nat, msc as nat);
                    }
                    return Some(Err(e));
                },
            }
        } else if id == MESH_TEXCOORDS && size == 8 {
            match read_pairs(data, o, uv) {
                Ok(t) => {
                    uvs = t;
                    off = o + 8 * (uv as usize);
                },
                Err(e) => {
                    proof {
                        lemma_sub_blocks_stop(dd, st0, uv as nat, (k + 1) as nat, msc as nat);
                    }
                    return Some(Err(e));
                },
            }
        } else if id == MESH_BASEVERTS && size == 4 {
            match read_words(data, o, uv) {
                Ok(t) => {
                    base_verts = t;
                    off = o + 4 * (uv as usize);
                },
                Err(e) => {
                    proof {
                        lemma_sub_blocks_stop(dd, st0, uv as nat, (k + 1) as nat, msc as nat);
                    }
                    return Some(Err(e));
                },
            }
        } else {
            assert(size as u64 * uv as u64 <= 0xffff_fffe_0000_0001) by (nonlinear_arith)
                requires
                    size <= 0xffff_ffff,
                    uv <= 0xffff_ffff,
            ;
            let jump: u64 = size as u64 * uv as u64;
            if jump > (usize::MAX - o) as u64 {
                proof {
                    lemma_sub_blocks_stop(dd, st0, uv as nat, (k + 1) as nat, msc as nat);
                }
                return None;
            }
            off = o + jump as usize;
        }
        k += 1;
    }
    let ghost sb = sub_view(off, positions@, normals@, uvs@, base_verts@);
    let face_count: u64 = (f3 / 3) as u64;
    let mut faces: Vec<(u32, u32, u32)> = Vec::new();
    let mut passed_faces: u64 = 0;
    let mut passed_verts: u32 = 0;
    let ghost fs0 = FaceState { off: off as int, faces: Seq::empty(), passed_faces: 0, passed_verts: 0 };
    proof {
        assert(faces@ =~= Seq::<(u32, u32, u32)>::empty());
    }
    while passed_faces != face_count
        invariant
            data@.len() + read_margin() <= usize::MAX,
            dd == data@,
            face_count == (f3 / 3) as u64,
            passed_faces <= off,
            fs0.off == sb.off,
            fs0 == (FaceState { off: sb.off, faces: Seq::empty(), passed_faces: 0, passed_verts: 0 }),
            mesh_section_spec(dd, start as int) == mesh_after_faces(node, vc, sb, faces_from(dd, fs0, face_count as int)),
            sb.base_verts == base_verts@,
            sb == sub_view(sb.off as usize, positions@, normals@, uvs@, base_verts@),
            faces_from(dd, fs0, face_count as int) == faces_from(
                dd,
                FaceState { off: off as int, faces: faces@, passed_faces: passed_faces as int, passed_verts },
                face_count as int,
            ),
        decreases usize::MAX - off,
    {
        if off > usize::MAX - 4 {
            return None;
        }
        let pf3 = match rd(data, off) {
            Ok(x) => x,
            Err(e) => return Some(Err(e)),
        };
        let pvc = match rd(data, off + 4) {
            Ok(x) => x,
            Err(e) => return Some(Err(e)),
        };
        let skip = match rd(data, off + 12) {
            Ok(x) => x,
            Err(e) => return Some(Err(e)),
        };
        let pfc = pf3 / 3;
        let part = match read_part_faces(data, off + 16, passed_verts, pfc) {
            None => return None,
            Some(Err(e)) => return Some(Err(e)),
            Some(Ok(p)) => p,
        };
        if passed_verts as u64 + pvc as u64 > 0xffff_ffff {
            return None;
        }
        proof {
            if pfc > 0 {
                lemma_part_faces_end(dd, off + 16, passed_verts, pfc as nat);
            }
        }
        let ghost before = faces@;
        let mut part_v = part;
        faces.append(&mut part_v);
        off = off + 16 + 12 * (pfc as usize) + 4 * (skip as usize);
        passed_faces = passed_faces + pfc as u64;
        passed_verts = passed_verts + pvc;
    }
    let mut final_faces: Vec<(u32, u32, u32)> = Vec::new();
    let mut i: usize = 0;
    while i < faces.len()
        invariant
            dd == data@,
            mesh_section_spec(dd, start as int) == mesh_after_faces(node, vc, sb, Some(Ok::<FaceState, SkinError>(
                FaceState { off: off as int, faces: faces@, passed_faces: passed_faces as int, passed_verts },
            ))),
            sb == sub_view(sb.off as usize, positions@, normals@, uvs@, base_verts@),
            i <= faces@.len(),
            forall|j: int| 0 <= j < i ==> face_in(#[trigger] faces@[j], base_verts@.len() as int),
            final_faces@ == remap_faces(faces@.take(i as int), base_verts@),
        decreases faces.len() - i,
    {
        let f = faces[i];
        if !((f.0 as usize) < base_verts.len() && (f.1 as usize) < base_verts.len() && (f.2 as usize)
            < base_verts.len()) {
            proof {
                assert(!face_in(faces@[i as int], sb.base_verts.len() as int));
                let fr = FaceState { off: off as int, faces: faces@, passed_faces: passed_faces as int, passed_verts };
                assert(fr.faces[i as int] == faces@[i as int]);
                assert(!face_in(fr.faces[i as int], sb.base_verts.len() as int));
                assert(!(forall|j: int| 0 <= j < fr.faces.len() ==> face_in(#[trigger] fr.faces[j], sb.base_verts.len() as int)));
                assert(mesh_after_faces(node, vc, sb, Some(Ok::<FaceState, SkinError>(fr))) is None);
            }
            return None;
        }
        final_faces.push((base_verts[f.0 as usize], base_verts[f.1 as usize], base_verts[f.2 as usize]));
        proof {
            assert(faces@.take(i + 1) =~= faces@.take(i as int).push(f));
            assert(final_faces@ =~= remap_faces(faces@.take(i + 1), base_verts@));
        }
        i += 1;
    }
    proof {
        assert(faces@.take(faces@.len() as int) =~= faces@);
    }
    Some(
        Ok(
            RawMesh {
                node_index: node,
                final_vert_count: vc,
                positions,
                normals,
                uvs,
                base_verts,
                faces: final_faces,
            },
        ),
    )
}

/// A skin section as read (see `SkinSpec`).
struct RawSkin {
    node_index: u32,
    weights: Vec<u32>,
    bones: Vec<u16>,
    counts: Vec<u32>,
}

spec fn raw_skin_view(k: RawSkin) -> SkinSpec {
    SkinSpec { node_index: k.node_index, weights: k.weights@, bones: k.bones@, counts: k.counts@ }
}

fn read_skin_section(data: &[u8], start: usize) -> (r: Result<RawSkin, SkinError>)
    requires
        data@.len() + read_margin() <= usize::MAX,
        start <= 0x1_0000_0100,
    ensures
        match skin_section_spec(data@, start as int) {
            Err(e) => r matches Err(x) && x == e,
            Ok(k) => r matches Ok(x) && raw_skin_view(x) == k,
        },
        r matches Ok(x) ==> x.bones@.len() == x.weights@.len(),
{
    let node = rd(data, start + 12)?;
    let wc = rd(data, start + 20)?;
    let ghost dd = data@;
    let o = start + 28;
    let mut weights: Vec<u32> = Vec::new();
    let mut bones: Vec<u16> = Vec::new();
    let mut k: u32 = 0;
    while k < wc
        invariant
            dd == data@,
            data@.len() + read_margin() <= usize::MAX,
            o == start + 28,
            start <= 0x1_0000_0100,
            k <= wc,
            k == 0 || o + 8 * k <= data@.len() + 2,
            skin_section_spec(dd, start as int) == match weights_upto(dd, o as int, wc as nat) {
                Err(e) => Err(e),
                Ok((ws, bs)) => match counts_from(dd, o + 8 * wc, 0, wc as int, Seq::empty()) {
                    Err(e) => Err(e),
                    Ok(cs) => Ok(SkinSpec { node_index: node, weights: ws, bones: bs, counts: cs }),
                },
            },
            weights_upto(dd, o as int, k as nat) == Ok::<(Seq<u32>, Seq<u16>), SkinError>((weights@, bones@)),
            weights@.len() == k,
            bones@.len() == k,
        decreases wc - k,
    {
        let b = o + 8 * (k as usize);
        proof {
            assert(((k + 1) as nat - 1) as nat == k as nat);
        }
        let w = match rd(data, b) {
            Ok(x) => x,
            Err(e) => {
                proof {
                    lemma_weights_err(dd, o as int, (k + 1) as nat, wc as nat);
                }
                return Err(e);
            },
        };
        let bone = match rd16(data, b + 4) {
            Ok(x) => x,
            Err(e) => {
                proof {
                    lemma_weights_err(dd, o as int, (k + 1) as nat, wc as nat);
                }
                return Err(e);
            },
        };
        weights.push(w);
        bones.push(bone);
        k += 1;
    }
    let mut off: usize = o + 8 * (wc as usize);
    let ghost off0 = off;
    let mut consumed: u64 = 0;
    let mut counts: Vec<u32> = Vec::new();
    while consumed < wc as u64
        invariant
            dd == data@,
            data@.len() + read_margin() <= usize::MAX,
            weights@.len() == bones@.len(),
            off0 == o + 8 * wc,
            consumed < wc ==> off <= data@.len() + 2,
            consumed <= 0x1_ffff_ffff,
            skin_section_spec(dd, start as int) == match counts_from(dd, off0 as int, 0, wc as int, Seq::empty()) {
                Err(e) => Err(e),
                Ok(cs) => Ok(SkinSpec { node_index: node, weights: weights@, bones: bones@, counts: cs }),
            },
            counts_from(dd, off0 as int, 0, wc as int, Seq::empty()) == counts_from(
                dd,
                off as int,
                consumed as int,
                wc as int,
                counts@,
            ),
        decreases usize::MAX - off,
    {
        let c = rd(data, off + 4)?;
        counts.push(c);
        consumed = consumed + c as u64;
        off = off + 8;
    }
    Ok(RawSkin { node_index: node, weights, bones, counts })
}

// ---------------------------------------------------------------------------------------
// The section table
// ---------------------------------------------------------------------------------------

proof fn lemma_maps_grow(d: Seq<u8>, off: int, k: nat)
    ensures
        maps_upto(d, off, k) matches Ok(o) ==> o >= off,
    decreases k,
{
    if k > 0 {
        lemma_maps_grow(d, off, (k - 1) as nat);
    }
}

proof fn lemma_materials_grow(d: Seq<u8>, off: int, k: nat)
    ensures
        materials_upto(d, off, k) matches Ok(o) ==> o >= off,
    decreases k,
{
    if k > 0 {
        lemma_materials_grow(d, off, (k - 1) as nat);
        if let Ok(o) = materials_upto(d, off, (k - 1) as nat) {
            if let Ok(len) = word(d, o + 96) {
                if let Ok(maps) = byte(d, o + 95) {
                    lemma_maps_grow(d, o + 100 + len, maps as nat);
                }
            }
        }
    }
}

/// A materials section ends after its 24-byte head.
pub proof fn lemma_materials_end_after(d: Seq<u8>, start: int)
    ensures
        materials_end_spec(d, start) matches Ok(o) ==> o >= start + 24,
{
    if let Ok(count) = word(d, start + 12) {
        lemma_materials_grow(d, start + 24, count as nat);
    }
}

/// Where the section at `next` with header `(id, size)` ends: a materials section where its
/// records end, any other after its declared size.
pub open spec fn section_end(d: Seq<u8>, next: int, id: u32, size: u32) -> Result<int, SkinError> {
    if id == SECTION_MATERIALS {
        materials_end_spec(d, next)
    } else {
        Ok(next + size + 12)
    }
}

/// The mesh and skin sections gathered so far, with a section of id `id` at `next` added.
pub open spec fn with_section(d: Seq<u8>, next: int, id: u32, ms: Seq<MeshSpec>, ks: Seq<SkinSpec>) -> Option<Result<(Seq<MeshSpec>, Seq<SkinSpec>), SkinError>> {
    if id == SECTION_MESH {
        match mesh_section_spec(d, next) {
            None => None,
            Some(Err(e)) => Some(Err(e)),
            Some(Ok(m)) => Some(Ok((ms.push(m), ks))),
        }
    } else if id == SECTION_SKIN {
        match skin_section_spec(d, next) {
            Err(e) => Some(Err(e)),
            Ok(k) => Some(Ok((ms, ks.push(k)))),
        }
    } else {
        Some(Ok((ms, ks)))
    }
}

/// The mesh and skin sections from the section at `next` up to `end`, after those gathered.
pub open spec fn sections_walk(d: Seq<u8>, next: int, end: int, ms: Seq<MeshSpec>, ks: Seq<SkinSpec>) -> Option<Result<(Seq<MeshSpec>, Seq<SkinSpec>), SkinError>>
    decreases end - next,
{
    if next >= end {
        Some(Ok((ms, ks)))
    } else {
        match (word(d, next), word(d, next + 4)) {
            (Err(e), _) => Some(Err(e)),
            (Ok(_), Err(e)) => Some(Err(e)),
            (Ok(id), Ok(size)) => match section_end(d, next, id, size) {
                Err(e) => Some(Err(e)),
                Ok(after) => match with_section(d, next, id, ms, ks) {
                    None => None,
                    Some(Err(e)) => Some(Err(e)),
                    Some(Ok((ms2, ks2))) => if after >= end {
                        Some(Ok((ms2, ks2)))
                    } else {
                        proof {
                            lemma_materials_end_after(d, next);
                        }
                        sections_walk(d, after, end, ms2, ks2)
                    },
                },
            },
        }
    }
}

// ---------------------------------------------------------------------------------------
// Putting the mesh together
// ---------------------------------------------------------------------------------------

/// `init` with, for each raw index `r < k` that `src` has, the entry at `base[r]` set to
/// `src[r]` (a later raw index wins).
pub open spec fn scatter<T>(src: Seq<T>, base: Seq<u32>, init: Seq<T>, k: nat) -> Seq<T>
    decreases k,
{
    if k == 0 {
        init
    } else {
        let a = scatter(src, base, init, (k - 1) as nat);
        if k - 1 < src.len() {
            a.update(base[k - 1] as int, src[k - 1])
        } else {
            a
        }
    }
}

/// Every raw vertex that carries a position, normal or UV maps to a final vertex of the
/// mesh.
pub open spec fn scatter_fits(m: MeshSpec) -> bool {
    forall|r: int|
        0 <= r < m.base_verts.len() && (r < m.positions.len() || r < m.normals.len() || r < m.uvs.len())
            ==> #[trigger] m.base_verts[r] < m.final_vert_count
}

/// Shifting every index of `fs` by `vo` stays within `u32`.
pub open spec fn shift_fits(fs: Seq<(u32, u32, u32)>, vo: u32) -> bool {
    forall|i: int| 0 <= i < fs.len() ==> #[trigger] fs[i].0 + vo <= u32::MAX && fs[i].1 + vo <= u32::MAX && fs[i].2 + vo <= u32::MAX
}

/// `fs` with every index shifted by `vo`.
pub open spec fn shifted(fs: Seq<(u32, u32, u32)>, vo: u32) -> Seq<(u32, u32, u32)> {
    fs.map_values(|f: (u32, u32, u32)| ((f.0 + vo) as u32, (f.1 + vo) as u32, (f.2 + vo) as u32))
}

pub open spec fn zeros3(n: nat) -> Seq<(u32, u32, u32)> {
    Seq::new(n, |i: int| (0u32, 0u32, 0u32))
}

pub open spec fn zeros2(n: nat) -> Seq<(u32, u32)> {
    Seq::new(n, |i: int| (0u32, 0u32))
}

/// The meshes concatenated so far: final-order positions, normals and UVs, faces with the
/// running vertex offset added, where each mesh's node was placed `(node, offset, count)`,
/// and the vertex total.
pub struct MeshAcc {
    pub positions: Seq<(u32, u32, u32)>,
    pub normals: Seq<(u32, u32, u32)>,
    pub uvs: Seq<(u32, u32)>,
    pub faces: Seq<(u32, u32, u32)>,
    pub placed: Seq<(u32, u32, u32)>,
    pub vert_offset: u32,
}

/// Appends one mesh: its raw data scattered to final order (zero where nothing lands), its
/// faces shifted by the vertex total. `None` where a raw vertex maps outside the mesh or an
/// index or the vertex total overflows a `u32`.
pub open spec fn mesh_step(acc: MeshAcc, m: MeshSpec) -> Option<MeshAcc> {
    let n = m.final_vert_count as nat;
    if !scatter_fits(m) || !shift_fits(m.faces, acc.vert_offset) || acc.vert_offset + m.final_vert_count > u32::MAX {
        None
    } else {
        Some(
            MeshAcc {
                positions: acc.positions + scatter(m.positions, m.base_verts, zeros3(n), m.base_verts.len()),
                normals: acc.normals + scatter(m.normals, m.base_verts, zeros3(n), m.base_verts.len()),
                uvs: acc.uvs + scatter(m.uvs, m.base_verts, zeros2(n), m.base_verts.len()),
                faces: acc.faces + shifted(m.faces, acc.vert_offset),
                placed: acc.placed.push((m.node_index, acc.vert_offset, m.final_vert_count)),
                vert_offset: (acc.vert_offset + m.final_vert_count) as u32,
            },
        )
    }
}

pub open spec fn empty_acc() -> MeshAcc {
    MeshAcc {
        positions: Seq::empty(),
        normals: Seq::empty(),
        uvs: Seq::empty(),
        faces: Seq::empty(),
        placed: Seq::empty(),
        vert_offset: 0,
    }
}

/// The first `k` meshes concatenated.
pub open spec fn meshes_upto(ms: Seq<MeshSpec>, k: nat) -> Option<MeshAcc>
    decreases k,
{
    if k == 0 {
        Some(empty_acc())
    } else {
        match meshes_upto(ms, (k - 1) as nat) {
            None => None,
            Some(acc) => mesh_step(acc, ms[k - 1]),
        }
    }
}

/// Where the last mesh of node `node` among the first `k` placed was put: `(offset, count)`.
pub open spec fn placed_last(placed: Seq<(u32, u32, u32)>, node: u32, k: int) -> Option<(u32, u32)>
    decreases k,
{
    if k <= 0 {
        None
    } else if placed[k - 1].0 == node {
        Some((placed[k - 1].1, placed[k - 1].2))
    } else {
        placed_last(placed, node, k - 1)
    }
}

/// The (bone, weight) pairs of weights `w .. w + c` that the skin has.
pub open spec fn weight_pairs(sk: SkinSpec, w: int, c: int) -> Seq<(u32, u32)> {
    let hi = if w + c < sk.weights.len() {
        w + c
    } else {
        sk.weights.len() as int
    };
    if hi <= w {
        Seq::empty()
    } else {
        Seq::new((hi - w) as nat, |i: int| (sk.bones[w + i] as u32, sk.weights[w + i]))
    }
}

/// The weights after the skin's first `j` vertex counts are applied to the mesh placed at
/// `off` with `n` vertices, and how many weights those counts took.
pub open spec fn counts_apply(sw: Seq<Seq<(u32, u32)>>, sk: SkinSpec, off: int, n: int, j: nat) -> (Seq<Seq<(u32, u32)>>, int)
    decreases j,
{
    if j == 0 {
        (sw, 0)
    } else {
        let (s, w) = counts_apply(sw, sk, off, n, (j - 1) as nat);
        let v = j - 1;
        let c = sk.counts[v] as int;
        if v >= n {
            (s, w + c)
        } else {
            (s.update(off + v, s[off + v] + weight_pairs(sk, w, c)), w + c)
        }
    }
}

/// One skin section applied: weights go to the vertices of the last mesh of its node, none
/// when no mesh has that node.
pub open spec fn skin_step(sw: Seq<Seq<(u32, u32)>>, placed: Seq<(u32, u32, u32)>, sk: SkinSpec) -> Seq<Seq<(u32, u32)>> {
    match placed_last(placed, sk.node_index, placed.len() as int) {
        None => sw,
        Some((off, n)) => counts_apply(sw, sk, off as int, n as int, sk.counts.len()).0,
    }
}

/// The first `k` skin sections applied.
pub open spec fn skins_upto(sw: Seq<Seq<(u32, u32)>>, placed: Seq<(u32, u32, u32)>, ks: Seq<SkinSpec>, k: nat) -> Seq<Seq<(u32, u32)>>
    decreases k,
{
    if k == 0 {
        sw
    } else {
        skin_step(skins_upto(sw, placed, ks, (k - 1) as nat), placed, ks[k - 1])
    }
}

/// A skinned mesh as values: per-vertex positions, normals and UVs, faces, and per-vertex
/// (bone, weight) pairs.
pub struct SkinnedMeshSpec {
    pub positions: Seq<(u32, u32, u32)>,
    pub normals: Seq<(u32, u32, u32)>,
    pub uvs: Seq<(u32, u32)>,
    pub faces: Seq<(u32, u32, u32)>,
    pub skin_weights: Seq<Seq<(u32, u32)>>,
}

/// `XAC`.
pub open spec fn xac() -> Seq<u8> {
    seq![0x58u8, 0x41, 0x43]
}

/// The skinned mesh an actor file holds. `None` where reading cannot complete (see
/// `mesh_section_spec` and `mesh_step`).
pub open spec fn skinned_spec(d: Seq<u8>) -> Option<Result<SkinnedMeshSpec, SkinError>> {
    if d.len() < 150 {
        Some(Err(SkinError::TooShort(d.len() as usize)))
    } else if d.subrange(140, 143) != xac() {
        Some(Err(SkinError::MissingMagic))
    } else if d[146] != 0 {
        Some(Err(SkinError::BigEndian))
    } else {
        match sections_walk(d, 148, u32_at(d, 136) + 140, Seq::empty(), Seq::empty()) {
            None => None,
            Some(Err(e)) => Some(Err(e)),
            Some(Ok((ms, ks))) => match meshes_upto(ms, ms.len()) {
                None => None,
                Some(acc) => Some(
                    Ok(
                        SkinnedMeshSpec {
                            positions: acc.positions,
                            normals: acc.normals,
                            uvs: acc.uvs,
                            faces: acc.faces,
                            skin_weights: skins_upto(
                                Seq::new(acc.vert_offset as nat, |i: int| Seq::<(u32, u32)>::empty()),
                                acc.placed,
                                ks,
                                ks.len(),
                            ),
                        },
                    ),
                ),
            },
        }
    }
}

fn walk_sections(data: &[u8], end: u64) -> (r: Option<Result<(Vec<RawMesh>, Vec<RawSkin>), SkinError>>)
    requires
        data@.len() + read_margin() <= usize::MAX,
        end <= 0x1_0000_0000 + 139,
    ensures
        match sections_walk(data@, 148, end as int, Seq::empty(), Seq::empty()) {
            None => r is None,
            Some(Err(e)) => r matches Some(Err(x)) && x == e,
            Some(Ok((ms, ks))) => r matches Some(Ok((vm, vk))) && vm@.map_values(|m: RawMesh| raw_mesh_view(m)) == ms
                && vk@.map_values(|k: RawSkin| raw_skin_view(k)) == ks && forall|i: int|
                0 <= i < vk@.len() ==> (#[trigger] vk@[i]).bones@.len() == vk@[i].weights@.len(),
        },
{
    let ghost dd = data@;
    let mut meshes: Vec<RawMesh> = Vec::new();
    let mut skins: Vec<RawSkin> = Vec::new();
    let mut next: u64 = 148;
    if next >= end {
        proof {
            assert(meshes@.map_values(|m: RawMesh| raw_mesh_view(m)) =~= Seq::<MeshSpec>::empty());
            assert(skins@.map_values(|k: RawSkin| raw_skin_view(k)) =~= Seq::<SkinSpec>::empty());
        }
        return Some(Ok((meshes, skins)));
    }
    proof {
        assert(meshes@.map_values(|m: RawMesh| raw_mesh_view(m)) =~= Seq::<MeshSpec>::empty());
        assert(skins@.map_values(|k: RawSkin| raw_skin_view(k)) =~= Seq::<SkinSpec>::empty());
    }
    while next < end
        invariant
            dd == data@,
            data@.len() + read_margin() <= usize::MAX,
            end <= 0x1_0000_0000 + 139,
            148 <= next <= end,
            forall|i: int| 0 <= i < skins@.len() ==> (#[trigger] skins@[i]).bones@.len() == skins@[i].weights@.len(),
            next < end ==> sections_walk(dd, 148, end as int, Seq::empty(), Seq::empty()) == sections_walk(
                dd,
                next as int,
                end as int,
                meshes@.map_values(|m: RawMesh| raw_mesh_view(m)),
                skins@.map_values(|k: RawSkin| raw_skin_view(k)),
            ),
            next >= end ==> sections_walk(dd, 148, end as int, Seq::empty(), Seq::empty()) == Some(
                Ok::<(Seq<MeshSpec>, Seq<SkinSpec>), SkinError>(
                    (meshes@.map_values(|m: RawMesh| raw_mesh_view(m)), skins@.map_values(|k: RawSkin| raw_skin_view(k))),
                ),
            ),
        decreases end - next,
    {
        let at = next as usize;
        let id = match rd(data, at) {
            Ok(x) => x,
            Err(e) => return Some(Err(e)),
        };
        let size = match rd(data, at + 4) {
            Ok(x) => x,
            Err(e) => return Some(Err(e)),
        };
        let after: u64 = if id == SECTION_MATERIALS {
            match read_materials_end(data, at) {
                Ok(x) => x as u64,
                Err(e) => return Some(Err(e)),
            }
        } else {
            next + size as u64 + 12
        };
        proof {
            lemma_materials_end_after(dd, next as int);
        }
        let ghost ms0 = meshes@.map_values(|m: RawMesh| raw_mesh_view(m));
        let ghost ks0 = skins@.map_values(|k: RawSkin| raw_skin_view(k));
        if id == SECTION_MESH {
            match read_mesh_section(data, at) {
                None => return None,
                Some(Err(e)) => return Some(Err(e)),
                Some(Ok(m)) => {
                    meshes.push(m);
                    proof {
                        assert(meshes@.map_values(|m: RawMesh| raw_mesh_view(m)) =~= ms0.push(raw_mesh_view(m)));
                    }
                },
            }
        } else if id == SECTION_SKIN {
            match read_skin_section(data, at) {
                Err(e) => return Some(Err(e)),
                Ok(k) => {
                    skins.push(k);
                    proof {
                        assert(skins@.map_values(|k: RawSkin| raw_skin_view(k)) =~= ks0.push(raw_skin_view(k)));
                    }
                },
            }
        }
        next = if after >= end {
            end
        } else {
            after
        };
    }
    Some(Ok((meshes, skins)))
}

/// The meshes concatenated so far (see `MeshAcc`).
struct MeshBuild {
    positions: Vec<(u32, u32, u32)>,
    normals: Vec<(u32, u32, u32)>,
    uvs: Vec<(u32, u32)>,
    faces: Vec<(u32, u32, u32)>,
    placed: Vec<(u32, u32, u32)>,
    vert_offset: u32,
}

spec fn build_view(b: MeshBuild) -> MeshAcc {
    MeshAcc {
        positions: b.positions@,
        normals: b.normals@,
        uvs: b.uvs@,
        faces: b.faces@,
        placed: b.placed@,
        vert_offset: b.vert_offset,
    }
}

/// Every mesh placed lies within the vertex total.
spec fn placed_fit(placed: Seq<(u32, u32, u32)>, total: u32) -> bool {
    forall|i: int| 0 <= i < placed.len() ==> #[trigger] placed[i].1 + placed[i].2 <= total
}

fn fits_exec(m: &RawMesh) -> (b: bool)
    ensures
        b == scatter_fits(raw_mesh_view(*m)),
{
    let mut r: usize = 0;
    while r < m.base_verts.len()
        invariant
            r <= m.base_verts@.len(),
            forall|q: int|
                0 <= q < r && (q < m.positions@.len() || q < m.normals@.len() || q < m.uvs@.len())
                    ==> #[trigger] m.base_verts@[q] < m.final_vert_count,
        decreases m.base_verts.len() - r,
    {
        if (r < m.positions.len() || r < m.normals.len() || r < m.uvs.len()) && m.base_verts[r] >= m.final_vert_count {
            proof {
                let mv = raw_mesh_view(*m);
                assert(mv.base_verts[r as int] >= mv.final_vert_count);
            }
            return false;
        }
        r += 1;
    }
    true
}

fn scatter3(src: &Vec<(u32, u32, u32)>, base: &Vec<u32>, n: u32) -> (v: Vec<(u32, u32, u32)>)
    requires
        forall|q: int| 0 <= q < base@.len() && q < src@.len() ==> #[trigger] base@[q] < n,
    ensures
        v@ == scatter(src@, base@, zeros3(n as nat), base@.len()),
{
    let mut v: Vec<(u32, u32, u32)> = Vec::new();
    let mut i: u32 = 0;
    while i < n
        invariant
            i <= n,
            v@ == zeros3(i as nat),
        decreases n - i,
    {
        v.push((0, 0, 0));
        proof {
            assert(v@ =~= zeros3((i + 1) as nat));
        }
        i += 1;
    }
    let mut r: usize = 0;
    while r < base.len()
        invariant
            r <= base@.len(),
            forall|q: int| 0 <= q < base@.len() && q < src@.len() ==> #[trigger] base@[q] < n,
            v@.len() == n,
            v@ == scatter(src@, base@, zeros3(n as nat), r as nat),
        decreases base.len() - r,
    {
        if r < src.len() {
            v.set(base[r] as usize, src[r]);
        }
        proof {
            assert(((r + 1) as nat - 1) as nat == r as nat);
        }
        r += 1;
    }
    v
}

fn scatter2(src: &Vec<(u32, u32)>, base: &Vec<u32>, n: u32) -> (v: Vec<(u32, u32)>)
    requires
        forall|q: int| 0 <= q < base@.len() && q < src@.len() ==> #[trigger] base@[q] < n,
    ensures
        v@ == scatter(src@, base@, zeros2(n as nat), base@.len()),
{
    let mut v: Vec<(u32, u32)> = Vec::new();
    let mut i: u32 = 0;
    while i < n
        invariant
            i <= n,
            v@ == zeros2(i as nat),
        decreases n - i,
    {
        v.push((0, 0));
        proof {
            assert(v@ =~= zeros2((i + 1) as nat));
        }
        i += 1;
    }
    let mut r: usize = 0;
    while r < base.len()
        invariant
            r <= base@.len(),
            forall|q: int| 0 <= q < base@.len() && q < src@.len() ==> #[trigger] base@[q] < n,
            v@.len() == n,
            v@ == scatter(src@, base@, zeros2(n as nat), r as nat),
        decreases base.len() - r,
    {
        if r < src.len() {
            v.set(base[r] as usize, src[r]);
        }
        proof {
            assert(((r + 1) as nat - 1) as nat == r as nat);
        }
        r += 1;
    }
    v
}

fn shift_exec(fs: &Vec<(u32, u32, u32)>, vo: u32) -> (r: Option<Vec<(u32, u32, u32)>>)
    ensures
        match r {
            None => !shift_fits(fs@, vo),
            Some(v) => shift_fits(fs@, vo) && v@ == shifted(fs@, vo),
        },
{
    let mut v: Vec<(u32, u32, u32)> = Vec::new();
    let mut i: usize = 0;
    while i < fs.len()
        invariant
            i <= fs@.len(),
            forall|j: int| 0 <= j < i ==> #[trigger] fs@[j].0 + vo <= u32::MAX && fs@[j].1 + vo <= u32::MAX && fs@[j].2
                + vo <= u32::MAX,
            v@ == shifted(fs@.take(i as int), vo),
        decreases fs.len() - i,
    {
        let f = fs[i];
        if f.0 as u64 + vo as u64 > 0xffff_ffff || f.1 as u64 + vo as u64 > 0xffff_ffff || f.2 as u64 + vo as u64
            > 0xffff_ffff {
            return None;
        }
        v.push((f.0 + vo, f.1 + vo, f.2 + vo));
        proof {
            assert(fs@.take(i + 1) =~= fs@.take(i as int).push(f));
            assert(v@ =~= shifted(fs@.take(i + 1), vo));
        }
        i += 1;
    }
    proof {
        assert(fs@.take(fs@.len() as int) =~= fs@);
    }
    Some(v)
}

fn append_mesh(b: &mut MeshBuild, m: &RawMesh) -> (ok: bool)
    requires
        placed_fit(old(b).placed@, old(b).vert_offset),
    ensures
        match mesh_step(build_view(*old(b)), raw_mesh_view(*m)) {
            None => !ok,
            Some(a) => ok && build_view(*final(b)) == a && placed_fit(final(b).placed@, final(b).vert_offset),
        },
{
    if !fits_exec(m) {
        return false;
    }
    let sf = match shift_exec(&m.faces, b.vert_offset) {
        None => return false,
        Some(v) => v,
    };
    if b.vert_offset as u64 + m.final_vert_count as u64 > 0xffff_ffff {
        return false;
    }
    let mut p = scatter3(&m.positions, &m.base_verts, m.final_vert_count);
    let mut nv = scatter3(&m.normals, &m.base_verts, m.final_vert_count);
    let mut u = scatter2(&m.uvs, &m.base_verts, m.final_vert_count);
    let mut f = sf;
    let ghost old_placed = b.placed@;
    let ghost old_vo = b.vert_offset;
    b.positions.append(&mut p);
    b.normals.append(&mut nv);
    b.uvs.append(&mut u);
    b.faces.append(&mut f);
    b.placed.push((m.node_index, b.vert_offset, m.final_vert_count));
    b.vert_offset = b.vert_offset + m.final_vert_count;
    proof {
        assert forall|i: int| 0 <= i < b.placed@.len() implies #[trigger] b.placed@[i].1 + b.placed@[i].2 <= b.vert_offset by {
            if i < old_placed.len() {
                assert(b.placed@[i] == old_placed[i]);
            }
        }
    }
    true
}

fn find_placed(placed: &Vec<(u32, u32, u32)>, node: u32) -> (r: Option<(u32, u32)>)
    ensures
        r == placed_last(placed@, node, placed@.len() as int),
        r matches Some((o, n)) ==> exists|i: int| 0 <= i < placed@.len() && placed@[i] == (node, o, n),
{
    let mut k = placed.len();
    while k > 0
        invariant
            k <= placed@.len(),
            placed_last(placed@, node, placed@.len() as int) == placed_last(placed@, node, k as int),
        decreases k,
    {
        if placed[k - 1].0 == node {
            proof {
                assert(placed@[k - 1] == (node, placed@[k - 1].1, placed@[k - 1].2));
            }
            return Some((placed[k - 1].1, placed[k - 1].2));
        }
        k -= 1;
    }
    None
}

spec fn sw_view(v: Seq<Vec<(u32, u32)>>) -> Seq<Seq<(u32, u32)>> {
    v.map_values(|x: Vec<(u32, u32)>| x@)
}

fn apply_counts(sw: &mut Vec<Vec<(u32, u32)>>, sk: &RawSkin, off: u32, n: u32)
    requires
        off + n <= old(sw)@.len(),
        sk.bones@.len() == sk.weights@.len(),
    ensures
        sw_view(final(sw)@) == counts_apply(sw_view(old(sw)@), raw_skin_view(*sk), off as int, n as int, sk.counts@.len()).0,
        final(sw)@.len() == old(sw)@.len(),
{
    let ghost s0 = sw_view(sw@);
    let ghost kv = raw_skin_view(*sk);
    let mut w: u128 = 0;
    let mut j: usize = 0;
    while j < sk.counts.len()
        invariant
            off + n <= sw@.len(),
            sw@.len() == s0.len(),
            sk.bones@.len() == sk.weights@.len(),
            kv == raw_skin_view(*sk),
            j <= sk.counts@.len(),
            w <= j * 0x1_0000_0000,
            (sw_view(sw@), w as int) == counts_apply(s0, kv, off as int, n as int, j as nat),
        decreases sk.counts.len() - j,
    {
        let c = sk.counts[j];
        let ghost prev = counts_apply(s0, kv, off as int, n as int, j as nat);
        proof {
            assert(((j + 1) as nat - 1) as nat == j as nat);
            assert(kv.counts[j as int] == c);
            assert(prev == (sw_view(sw@), w as int));
        }
        if j as u64 >= n as u64 {
            w = w + c as u128;
        } else {
            let total = sw.len();
            assert(off + j < total);
            let out_i: usize = (off as usize) + j;
            let len = sk.weights.len() as u128;
            let hi: u128 = if w + (c as u128) < len {
                w + c as u128
            } else {
                len
            };
            let ghost sb = sw_view(sw@);
            let ghost base_row = sb[out_i as int];
            assert(sk.weights@.len() == sk.weights.len());
            let mut t = w;
            while t < hi
                invariant
                    off + n <= sw@.len(),
                    sw@.len() == s0.len(),
                    sk.bones@.len() == sk.weights@.len(),
                    out_i < sw@.len(),
                    w <= t,
                    t <= hi || t == w,
                    hi <= sk.weights@.len(),
                    sk.weights@.len() <= usize::MAX,
                    sb.len() == s0.len(),
                    hi <= w + c,
                    sw_view(sw@) == sb.update(out_i as int, base_row + weight_pairs(kv, w as int, (t - w) as int)),
                    kv == raw_skin_view(*sk),
                decreases hi - t,
            {
                let ti = t as usize;
                assert(ti as int == t as int);
                let pair = (sk.bones[ti] as u32, sk.weights[ti]);
                let ghost before = sw_view(sw@);
                let row = &mut sw[out_i];
                row.push(pair);
                proof {
                    let a = weight_pairs(kv, w as int, (t + 1 - w) as int);
                    let b = weight_pairs(kv, w as int, (t - w) as int);
                    assert(a.len() == b.len() + 1);
                    assert(kv.bones[t as int] == sk.bones@[t as int]);
                    assert(kv.weights[t as int] == sk.weights@[t as int]);
                    assert(b.len() == t - w);
                    assert(a[(t - w) as int] == (kv.bones[w + (t - w)] as u32, kv.weights[w + (t - w)]));
                    assert(w + (t - w) == t);
                    assert(a[b.len() as int] == pair);
                    assert forall|q: int| 0 <= q < b.len() implies a[q] == b[q] by {}
                    assert(a =~= b.push(pair));
                    assert(before == sb.update(out_i as int, base_row + b));
                    assert(sw_view(sw@) =~= before.update(out_i as int, before[out_i as int].push(pair)));
                    assert(base_row + b + seq![pair] =~= base_row + a);
                    assert((base_row + b).push(pair) =~= base_row + a);
                    assert(before[out_i as int] == base_row + b);
                    assert(sw_view(sw@) =~= sb.update(out_i as int, base_row + a));
                }
                t = t + 1;
            }
            proof {
                assert(weight_pairs(kv, w as int, (t - w) as int) =~= weight_pairs(kv, w as int, c as int));
                assert(sw_view(sw@) == sb.update(out_i as int, base_row + weight_pairs(kv, w as int, c as int)));
                assert(prev.0 == sb);
                assert(prev.1 == w as int);
                assert(out_i as int == off as int + j as int);
                assert(counts_apply(s0, kv, off as int, n as int, (j + 1) as nat) == (
                    prev.0.update(off + j, prev.0[off + j] + weight_pairs(kv, prev.1, c as int)),
                    prev.1 + c as int,
                ));
            }
            w = w + c as u128;
        }
        j += 1;
    }
}

fn assemble(meshes: &Vec<RawMesh>, skins: &Vec<RawSkin>) -> (r: Option<SkinnedMesh>)
    requires
        forall|i: int| 0 <= i < skins@.len() ==> (#[trigger] skins@[i]).bones@.len() == skins@[i].weights@.len(),
    ensures
        match meshes_upto(meshes@.map_values(|m: RawMesh| raw_mesh_view(m)), meshes@.len()) {
            None => r is None,
            Some(acc) => r matches Some(x) && skinned_view(x) == (SkinnedMeshSpec {
                positions: acc.positions,
                normals: acc.normals,
                uvs: acc.uvs,
                faces: acc.faces,
                skin_weights: skins_upto(
                    Seq::new(acc.vert_offset as nat, |i: int| Seq::<(u32, u32)>::empty()),
                    acc.placed,
                    skins@.map_values(|k: RawSkin| raw_skin_view(k)),
                    skins@.len(),
                ),
            }),
        },
{
    let ghost ms = meshes@.map_values(|m: RawMesh| raw_mesh_view(m));
    let mut b = MeshBuild {
        positions: Vec::new(),
        normals: Vec::new(),
        uvs: Vec::new(),
        faces: Vec::new(),
        placed: Vec::new(),
        vert_offset: 0,
    };
    proof {
        assert(build_view(b) == empty_acc());
    }
    let mut k: usize = 0;
    while k < meshes.len()
        invariant
            k <= meshes@.len(),
            ms == meshes@.map_values(|m: RawMesh| raw_mesh_view(m)),
            meshes_upto(ms, k as nat) == Some(build_view(b)),
            placed_fit(b.placed@, b.vert_offset),
        decreases meshes.len() - k,
    {
        proof {
            assert(((k + 1) as nat - 1) as nat == k as nat);
            assert(ms[k as int] == raw_mesh_view(meshes@[k as int]));
        }
        if !append_mesh(&mut b, &meshes[k]) {
            proof {
                assert(meshes_upto(ms, (k + 1) as nat) is None);
                lemma_meshes_none_stays(ms, (k + 1) as nat, meshes@.len());
            }
            return None;
        }
        k += 1;
    }
    let ghost ks = skins@.map_values(|k: RawSkin| raw_skin_view(k));
    let mut sw: Vec<Vec<(u32, u32)>> = Vec::new();
    let mut i: u32 = 0;
    while i < b.vert_offset
        invariant
            i <= b.vert_offset,
            sw_view(sw@) == Seq::new(i as nat, |q: int| Seq::<(u32, u32)>::empty()),
        decreases b.vert_offset - i,
    {
        let row: Vec<(u32, u32)> = Vec::new();
        assert(row@ =~= Seq::<(u32, u32)>::empty());
        let ghost before = sw@;
        sw.push(row);
        proof {
            assert(sw@ == before.push(row));
            assert(sw_view(sw@) =~= sw_view(before).push(row@));
            assert(sw_view(sw@) =~= Seq::new((i + 1) as nat, |q: int| Seq::<(u32, u32)>::empty()));
        }
        i += 1;
    }
    let ghost sw0 = sw_view(sw@);
    let mut k: usize = 0;
    while k < skins.len()
        invariant
            k <= skins@.len(),
            ks == skins@.map_values(|k: RawSkin| raw_skin_view(k)),
            forall|i: int| 0 <= i < skins@.len() ==> (#[trigger] skins@[i]).bones@.len() == skins@[i].weights@.len(),
            placed_fit(b.placed@, b.vert_offset),
            sw@.len() == b.vert_offset,
            sw_view(sw@) == skins_upto(sw0, b.placed@, ks, k as nat),
        decreases skins.len() - k,
    {
        proof {
            assert(((k + 1) as nat - 1) as nat == k as nat);
            assert(ks[k as int] == raw_skin_view(skins@[k as int]));
        }
        match find_placed(&b.placed, skins[k].node_index) {
            None => {},
            Some((off, n)) => {
                proof {
                    let q = choose|q: int| 0 <= q < b.placed@.len() && b.placed@[q] == (skins@[k as int].node_index, off, n);
                    assert(b.placed@[q].1 + b.placed@[q].2 <= b.vert_offset);
                }
                apply_counts(&mut sw, &skins[k], off, n);
            },
        }
        k += 1;
    }
    Some(SkinnedMesh { positions: b.positions, normals: b.normals, uvs: b.uvs, faces: b.faces, skin_weights: sw })
}

proof fn lemma_meshes_none_stays(ms: Seq<MeshSpec>, k: nat, m: nat)
    requires
        k <= m,
        meshes_upto(ms, k) is None,
    ensures
        meshes_upto(ms, m) is None,
    decreases m - k,
{
    if k < m {
        lemma_meshes_none_stays(ms, k, (m - 1) as nat);
    }
}

/// The skinned mesh of an actor: per vertex its position, normal and UV (bit patterns of
/// `f32`s, zero where the file gives none) and its (bone node index, weight bits) pairs, and
/// the faces as vertex index triples.
#[derive(Debug, Clone)]
pub struct SkinnedMesh {
    pub positions: Vec<(u32, u32, u32)>,
    pub normals: Vec<(u32, u32, u32)>,
    pub uvs: Vec<(u32, u32)>,
    pub faces: Vec<(u32, u32, u32)>,
    pub skin_weights: Vec<Vec<(u32, u32)>>,
}

/// A skinned mesh's values.
pub open spec fn skinned_view(m: SkinnedMesh) -> SkinnedMeshSpec {
    SkinnedMeshSpec {
        positions: m.positions@,
        normals: m.normals@,
        uvs: m.uvs@,
        faces: m.faces@,
        skin_weights: m.skin_weights@.map_values(|x: Vec<(u32, u32)>| x@),
    }
}

/// The skinned mesh of an actor file (see `skinned_spec`); `None` for a file on which
/// reading cannot complete: a raw vertex mapped outside its mesh, a face index outside the
/// vertex table, an index or vertex total overflowing a `u32`, or a skipped block leaving the
/// address range.
pub fn read_skinned_mesh(data: &[u8]) -> (r: Option<Result<SkinnedMesh, SkinError>>)
    requires
        data@.len() + read_margin() <= usize::MAX,
    ensures
        match skinned_spec(data@) {
            None => r is None,
            Some(Err(e)) => r matches Some(Err(x)) && x == e,
            Some(Ok(m)) => r matches Some(Ok(x)) && skinned_view(x) == m,
        },
{
    if data.len() < 150 {
        return Some(Err(SkinError::TooShort(data.len())));
    }
    let end: u64 = read_u32_at(data, 136).unwrap() as u64 + 140;
    if !(data[140] == 0x58 && data[141] == 0x41 && data[142] == 0x43) {
        proof {
            if data@.subrange(140, 143) == xac() {
                assert(data@.subrange(140, 143)[0] == data@[140]);
                assert(data@.subrange(140, 143)[1] == data@[141]);
                assert(data@.subrange(140, 143)[2] == data@[142]);
            }
        }
        return Some(Err(SkinError::MissingMagic));
    }
    proof {
        assert(data@.subrange(140, 143) =~= xac());
    }
    if data[146] != 0 {
        return Some(Err(SkinError::BigEndian));
    }
    let (meshes, skins) = match walk_sections(data, end) {
        None => return None,
        Some(Err(e)) => return Some(Err(e)),
        Some(Ok(p)) => p,
    };
    match assemble(&meshes, &skins) {
        None => None,
        Some(m) => Some(Ok(m)),
    }
}

/// The skinned mesh of an actor file, for a file on which reading completes (see
/// `read_skinned_mesh`).
pub fn parse_skinned_mesh(data: &[u8]) -> (r: Result<SkinnedMesh, SkinError>)
    requires
        data@.len() + read_margin() <= usize::MAX,
        skinned_spec(data@) is Some,
    ensures
        match skinned_spec(data@) {
            Some(Err(e)) => r == Err::<SkinnedMesh, SkinError>(e),
            Some(Ok(m)) => r matches Ok(x) && skinned_view(x) == m,
            None => false,
        },
{
    match read_skinned_mesh(data) {
        Some(r) => r,
        None => {
            proof {
                assert(false);
            }
            Err(SkinError::MissingMagic)
        },
    }
}

proof fn lemma_pairs_upto_values(d: Seq<u8>, o: int, k: nat)
    requires
        pairs_upto(d, o, k) is Ok,
    ensures
        pairs_upto(d, o, k)->Ok_0.len() == k,
        forall|v: int|
            0 <= v < k ==> #[trigger] pairs_upto(d, o, k)->Ok_0[v] == (u32_at(d, o + 8 * v), u32_at(d, o + 8 * v + 4)),
    decreases k,
{
    if k > 0 {
        lemma_pairs_upto_values(d, o, (k - 1) as nat);
    }
}

/// A texture-coordinate sub-block is read into the mesh's UVs: after a sub-block with id 3 and
/// record size 8 at the read position, the UVs are the `uv` pairs of little-endian `u32`s that
/// follow its 12-byte header, in order, whatever UVs were read before.
pub proof fn lemma_texcoords_read(d: Seq<u8>, st: SubBlockState, uv: nat)
    requires
        sub_block(d, st, uv) matches Some(Ok(_)),
        word(d, st.off) == Ok::<u32, SkinError>(MESH_TEXCOORDS),
        word(d, st.off + 4) == Ok::<u32, SkinError>(8u32),
    ensures
        ({
            let st2 = sub_block(d, st, uv)->Some_0->Ok_0;
            &&& st2.uvs.len() == uv
            &&& forall|v: int|
                0 <= v < uv ==> #[trigger] st2.uvs[v] == (u32_at(d, st.off + 12 + 8 * v), u32_at(d, st.off + 12 + 8 * v + 4))
            &&& st2.positions == st.positions
            &&& st2.normals == st.normals
            &&& st2.base_verts == st.base_verts
            &&& st2.off == st.off + 12 + 8 * uv
        }),
{
    lemma_pairs_upto_values(d, st.off + 12, uv);
}

/// Later rows win: scattering rows `0..k` of `src` into `init` through `base` puts row `r`'s
/// value at `base[r]` when no later row among them goes to the same place.
pub proof fn lemma_scatter_last_wins<T>(src: Seq<T>, base: Seq<u32>, init: Seq<T>, k: nat, r: int)
    requires
        0 <= r < k,
        r < src.len(),
        k <= base.len(),
        forall|q: int| 0 <= q < base.len() ==> (#[trigger] base[q]) < init.len(),
        forall|q: int| r < q < k && q < src.len() ==> #[trigger] base[q] != base[r],
    ensures
        scatter(src, base, init, k).len() == init.len(),
        scatter(src, base, init, k)[base[r] as int] == src[r],
    decreases k,
{
    lemma_scatter_len(src, base, init, k);
    if k - 1 > r {
        lemma_scatter_last_wins(src, base, init, (k - 1) as nat, r);
        lemma_scatter_len(src, base, init, (k - 1) as nat);
    } else {
        lemma_scatter_len(src, base, init, (k - 1) as nat);
    }
}

proof fn lemma_scatter_len<T>(src: Seq<T>, base: Seq<u32>, init: Seq<T>, k: nat)
    requires
        k <= base.len(),
        forall|q: int| 0 <= q < base.len() ==> (#[trigger] base[q]) < init.len(),
    ensures
        scatter(src, base, init, k).len() == init.len(),
    decreases k,
{
    if k > 0 {
        lemma_scatter_len(src, base, init, (k - 1) as nat);
    }
}

/// Each placed mesh's UVs land at its final vertices: after a mesh is added, the UV at its
/// offset plus `base_verts[r]` is its raw UV `r`, when no later raw vertex maps to the same
/// final vertex.
pub proof fn lemma_mesh_uvs_placed(acc: MeshAcc, m: MeshSpec, r: int)
    requires
        mesh_step(acc, m) is Some,
        acc.uvs.len() == acc.vert_offset,
        0 <= r < m.uvs.len(),
        r < m.base_verts.len(),
        forall|q: int| 0 <= q < m.base_verts.len() ==> (#[trigger] m.base_verts[q]) < m.final_vert_count,
        forall|q: int| r < q < m.base_verts.len() && q < m.uvs.len() ==> #[trigger] m.base_verts[q] != m.base_verts[r],
    ensures
        mesh_step(acc, m)->Some_0.uvs[acc.vert_offset + m.base_verts[r]] == m.uvs[r],
{
    let n = m.final_vert_count as nat;
    lemma_scatter_last_wins(m.uvs, m.base_verts, zeros2(n), m.base_verts.len(), r);
}

proof fn lemma_triples_upto_values(d: Seq<u8>, o: int, k: nat)
    requires
        triples_upto(d, o, k) is Ok,
    ensures
        triples_upto(d, o, k)->Ok_0.len() == k,
        forall|v: int|
            0 <= v < k ==> #[trigger] triples_upto(d, o, k)->Ok_0[v] == (
                u32_at(d, o + 12 * v),
                u32_at(d, o + 12 * v + 4),
                u32_at(d, o + 12 * v + 8),
            ),
    decreases k,
{
    if k > 0 {
        lemma_triples_upto_values(d, o, (k - 1) as nat);
    }
}

proof fn lemma_words_upto_values(d: Seq<u8>, o: int, k: nat)
    requires
        words_upto(d, o, k) is Ok,
    ensures
        words_upto(d, o, k)->Ok_0.len() == k,
        forall|v: int| 0 <= v < k ==> #[trigger] words_upto(d, o, k)->Ok_0[v] == u32_at(d, o + 4 * v),
    decreases k,
{
    if k > 0 {
        lemma_words_upto_values(d, o, (k - 1) as nat);
    }
}

/// Vertex, normal and vertex-table sub-blocks are read as stored: after a sub-block with id 0
/// (or 1) and record size 12, the positions (or normals) are the `uv` triples of `u32`s after
/// its 12-byte header; after one with id 5 and size 4, the raw-to-final vertex table is the
/// `uv` words after it. Everything else read so far is kept.
pub proof fn lemma_vertex_blocks_read(d: Seq<u8>, st: SubBlockState, uv: nat)
    requires
        sub_block(d, st, uv) matches Some(Ok(_)),
        word(d, st.off) is Ok,
        word(d, st.off + 4) is Ok,
    ensures
        ({
            let st2 = sub_block(d, st, uv)->Some_0->Ok_0;
            let id = word(d, st.off)->Ok_0;
            let size = word(d, st.off + 4)->Ok_0;
            &&& (id == MESH_VERTICES && size == 12) ==> st2.positions.len() == uv && st2.normals == st.normals
                && st2.uvs == st.uvs && st2.base_verts == st.base_verts && forall|v: int|
                0 <= v < uv ==> #[trigger] st2.positions[v] == (
                    u32_at(d, st.off + 12 + 12 * v),
                    u32_at(d, st.off + 12 + 12 * v + 4),
                    u32_at(d, st.off + 12 + 12 * v + 8),
                )
            &&& (id == MESH_NORMALS && size == 12) ==> st2.normals.len() == uv && st2.positions == st.positions
                && st2.uvs == st.uvs && st2.base_verts == st.base_verts && forall|v: int|
                0 <= v < uv ==> #[trigger] st2.normals[v] == (
                    u32_at(d, st.off + 12 + 12 * v),
                    u32_at(d, st.off + 12 + 12 * v + 4),
                    u32_at(d, st.off + 12 + 12 * v + 8),
                )
            &&& (id == MESH_BASEVERTS && size == 4) ==> st2.base_verts.len() == uv && st2.positions == st.positions
                && st2.normals == st.normals && st2.uvs == st.uvs && forall|v: int|
                0 <= v < uv ==> #[trigger] st2.base_verts[v] == u32_at(d, st.off + 12 + 4 * v)
        }),
{
    let id = word(d, st.off)->Ok_0;
    let size = word(d, st.off + 4)->Ok_0;
    if id == MESH_VERTICES && size == 12 {
        lemma_triples_upto_values(d, st.off + 12, uv);
    } else if id == MESH_NORMALS && size == 12 {
        lemma_triples_upto_values(d, st.off + 12, uv);
    } else if id == MESH_BASEVERTS && size == 4 {
        lemma_words_upto_values(d, st.off + 12, uv);
    }
}

} // verus!
