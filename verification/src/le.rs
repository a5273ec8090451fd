//! Little-endian integer fields inside byte buffers: bounds-checked reads at an offset and
//! appends, each tied to vstd's byte-conversion specs.

use vstd::prelude::*;
use vstd::bytes::*;
use vstd::slice::slice_subrange;

verus! {

/// The `u16` stored little-endian at `off`.
pub open spec fn u16_at(s: Seq<u8>, off: int) -> u16 {
    spec_u16_from_le_bytes(s.subrange(off, off + 2))
}

/// The `u32` stored little-endian at `off`.
pub open spec fn u32_at(s: Seq<u8>, off: int) -> u32 {
    spec_u32_from_le_bytes(s.subrange(off, off + 4))
}

/// The `u64` stored little-endian at `off`.
pub open spec fn u64_at(s: Seq<u8>, off: int) -> u64 {
    spec_u64_from_le_bytes(s.subrange(off, off + 8))
}

/// Reads the little-endian `u16` at `off`, or `None` when fewer than two bytes remain there.
pub fn read_u16_at(data: &[u8], off: usize) -> (r: Option<u16>)
    ensures
        off + 2 <= data@.len() ==> r == Some(u16_at(data@, off as int)),
        off + 2 > data@.len() ==> r is None,
{
    if off > data.len() || data.len() - off < 2 {
        None
    } else {
        Some(u16_from_le_bytes(slice_subrange(data, off, off + 2)))
    }
}

/// Reads the little-endian `u32` at `off`, or `None` when fewer than four bytes remain there.
pub fn read_u32_at(data: &[u8], off: usize) -> (r: Option<u32>)
    ensures
        off + 4 <= data@.len() ==> r == Some(u32_at(data@, off as int)),
        off + 4 > data@.len() ==> r is None,
{
    if off > data.len() || data.len() - off < 4 {
        None
    } else {
        Some(u32_from_le_bytes(slice_subrange(data, off, off + 4)))
    }
}

/// Reads the little-endian `u64` at `off`, or `None` when fewer than eight bytes remain there.
pub fn read_u64_at(data: &[u8], off: usize) -> (r: Option<u64>)
    ensures
        off + 8 <= data@.len() ==> r == Some(u64_at(data@, off as int)),
        off + 8 > data@.len() ==> r is None,
{
    if off > data.len() || data.len() - off < 8 {
        None
    } else {
        Some(u64_from_le_bytes(slice_subrange(data, off, off + 8)))
    }
}

/// Appends `x` as four little-endian bytes.
pub fn push_u32(out: &mut Vec<u8>, x: u32)
    ensures
        final(out)@ == old(out)@ + spec_u32_to_le_bytes(x),
{
    let mut b = u32_to_le_bytes(x);
    out.append(&mut b);
}

/// Appends `x` as eight little-endian bytes.
pub fn push_u64(out: &mut Vec<u8>, x: u64)
    ensures
        final(out)@ == old(out)@ + spec_u64_to_le_bytes(x),
{
    let mut b = u64_to_le_bytes(x);
    out.append(&mut b);
}

/// `s` with the four bytes at `off` replaced by `x` little-endian.
pub open spec fn with_u32_at(s: Seq<u8>, off: int, x: u32) -> Seq<u8> {
    s.subrange(0, off) + spec_u32_to_le_bytes(x) + s.subrange(off + 4, s.len() as int)
}

/// Overwrites the four bytes at `pos` with `x` little-endian.
pub fn set_u32_at(out: &mut Vec<u8>, pos: usize, x: u32)
    requires
        pos + 4 <= old(out)@.len(),
    ensures
        final(out)@ == with_u32_at(old(out)@, pos as int, x),
        final(out)@.len() == old(out)@.len(),
{
    let b = u32_to_le_bytes(x);
    proof {
        lemma_auto_spec_u32_to_from_le_bytes();
    }
    let ghost o = out@;
    let n = out.len();
    let mut k: usize = 0;
    while k < 4
        invariant
            k <= 4,
            n == out@.len(),
            pos + 4 <= o.len(),
            b@ == spec_u32_to_le_bytes(x),
            b@.len() == 4,
            out@.len() == o.len(),
            forall|i: int| 0 <= i < out@.len() ==> #[trigger] out@[i] == if pos <= i < pos + k {
                b@[i - pos]
            } else {
                o[i]
            },
        decreases 4 - k,
    {
        out.set(pos + k, b[k]);
        k += 1;
    }
    assert(out@ =~= with_u32_at(o, pos as int, x));
}

/// Overwrites the eight bytes at `pos` with `x` little-endian.
pub fn set_u64_at(out: &mut Vec<u8>, pos: usize, x: u64)
    requires
        pos + 8 <= old(out)@.len(),
    ensures
        final(out)@ == old(out)@.subrange(0, pos as int) + spec_u64_to_le_bytes(x) + old(out)@.subrange(
            pos + 8,
            old(out)@.len() as int,
        ),
{
    let b = u64_to_le_bytes(x);
    proof {
        lemma_auto_spec_u64_to_from_le_bytes();
    }
    let ghost o = out@;
    let n = out.len();
    let mut k: usize = 0;
    while k < 8
        invariant
            k <= 8,
            n == out@.len(),
            pos + 8 <= o.len(),
            b@ == spec_u64_to_le_bytes(x),
            b@.len() == 8,
            out@.len() == o.len(),
            forall|i: int| 0 <= i < out@.len() ==> #[trigger] out@[i] == if pos <= i < pos + k {
                b@[i - pos]
            } else {
                o[i]
            },
        decreases 8 - k,
    {
        out.set(pos + k, b[k]);
        k += 1;
    }
    assert(out@ =~= o.subrange(0, pos as int) + spec_u64_to_le_bytes(x) + o.subrange(pos + 8, o.len() as int));
}

/// Reading back what `push_u32` appended gives the same value.
pub proof fn lemma_u32_roundtrip(pre: Seq<u8>, x: u32, post: Seq<u8>)
    ensures
        u32_at(pre + spec_u32_to_le_bytes(x) + post, pre.len() as int) == x,
{
    lemma_auto_spec_u32_to_from_le_bytes();
    let s = pre + spec_u32_to_le_bytes(x) + post;
    assert(s.subrange(pre.len() as int, pre.len() + 4int) =~= spec_u32_to_le_bytes(x));
}

/// Reading back what `push_u64` appended gives the same value.
pub proof fn lemma_u64_roundtrip(pre: Seq<u8>, x: u64, post: Seq<u8>)
    ensures
        u64_at(pre + spec_u64_to_le_bytes(x) + post, pre.len() as int) == x,
{
    lemma_auto_spec_u64_to_from_le_bytes();
    let s = pre + spec_u64_to_le_bytes(x) + post;
    assert(s.subrange(pre.len() as int, pre.len() + 8int) =~= spec_u64_to_le_bytes(x));
}

} // verus!
