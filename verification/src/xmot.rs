//! Locating bone records in a legacy `._xmot` motion clip (the EMotionFX `XSM ` sub-format):
//! the clip payload starts 8 bytes after the first `XSM `, and a bone's record is found by
//! its name stored as a little-endian `u32` length followed by the name's bytes. The record
//! body (position, rotation and scale keys) follows the name; telling real keys from what
//! comes after them compares `f32` key times and magnitudes, which is left to the caller.

use vstd::prelude::*;
use vstd::bytes::{spec_u32_to_le_bytes, u32_to_le_bytes};
use vstd::utf8::encode_utf8;

verus! {

/// Why a buffer is not a motion clip.
#[derive(Debug, Clone, Copy, PartialEq, Eq, Structural)]
pub enum XmotError {
    /// No `XSM ` magic anywhere.
    NotMotion,
}

/// `needle` occurs in `d` at `q`.
pub open spec fn occurs_at(d: Seq<u8>, needle: Seq<u8>, q: int) -> bool {
    0 <= q && q + needle.len() <= d.len() && d.subrange(q, q + needle.len()) == needle
}

/// `needle` occurs at `q`, at least 4 bytes after `from`, right after its own length as a
/// little-endian `u32`.
pub open spec fn prefixed_at(d: Seq<u8>, needle: Seq<u8>, from: int, q: int) -> bool {
    occurs_at(d, needle, q) && q - 4 >= from && d.subrange(q - 4, q) == spec_u32_to_le_bytes(needle.len() as u32)
}

/// The length prefix of the first length-prefixed occurrence of `needle` at or after `q`.
pub open spec fn prefixed_from(d: Seq<u8>, needle: Seq<u8>, from: int, q: int) -> Option<int>
    decreases d.len() - q,
{
    if q < 0 || q >= d.len() || q + needle.len() > d.len() {
        None
    } else if prefixed_at(d, needle, from, q) {
        Some(q - 4)
    } else {
        prefixed_from(d, needle, from, q + 1)
    }
}

/// Where the first length-prefixed copy of `needle` at or after `from` starts (its length
/// prefix); `None` for an empty needle or a start past the end.
pub open spec fn find_prefixed_spec(d: Seq<u8>, needle: Seq<u8>, from: int) -> Option<int> {
    if needle.len() == 0 || from >= d.len() {
        None
    } else {
        prefixed_from(d, needle, from, from)
    }
}

fn occurs(data: &[u8], needle: &[u8], q: usize) -> (b: bool)
    requires
        q + needle@.len() <= data@.len(),
    ensures
        b == (data@.subrange(q as int, q + needle@.len()) == needle@),
{
    let dl = data.len();
    let mut k: usize = 0;
    while k < needle.len()
        invariant
            dl == data@.len(),
            q + needle@.len() <= data@.len(),
            k <= needle@.len(),
            forall|j: int| 0 <= j < k ==> data@[q + j] == needle@[j],
        decreases needle.len() - k,
    {
        if data[q + k] != needle[k] {
            proof {
                assert(data@.subrange(q as int, q + needle@.len())[k as int] != needle@[k as int]);
            }
            return false;
        }
        k += 1;
    }
    assert(data@.subrange(q as int, q + needle@.len()) =~= needle@);
    true
}

/// Where `name`, stored as a little-endian `u32` length then its bytes, first occurs at or
/// after `from`: the offset of its length prefix (see `find_prefixed_spec`).
pub fn find_length_prefixed_name(data: &[u8], name: &str, from: usize) -> (r: Option<usize>)
    ensures
        match find_prefixed_spec(data@, encode_utf8(name@), from as int) {
            None => r is None,
            Some(p) => r == Some(p as usize),
        },
{
    let needle = name.as_bytes();
    let n = needle.len();
    if n == 0 || from >= data.len() {
        return None;
    }
    let len_bytes = u32_to_le_bytes(n as u32);
    if n > data.len() {
        return None;
    }
    let mut q = from;
    while q <= data.len() - n
        invariant
            needle@ == encode_utf8(name@),
            n == needle@.len(),
            0 < n <= data@.len(),
            from < data@.len(),
            from <= q,
            len_bytes@ == spec_u32_to_le_bytes(n as u32),
            len_bytes@.len() == 4,
            prefixed_from(data@, needle@, from as int, from as int) == prefixed_from(data@, needle@, from as int, q as int),
        decreases data.len() - q,
    {
        if q - from >= 4 && occurs(data, needle, q) && occurs(data, len_bytes.as_slice(), q - 4) {
            proof {
                assert(data@.subrange(q - 4, q - 4 + 4) == data@.subrange(q - 4, q as int));
            }
            return Some(q - 4);
        }
        proof {
            if q - from >= 4 && occurs_at(data@, needle@, q as int) {
                assert(data@.subrange(q - 4, q - 4 + 4) == data@.subrange(q - 4, q as int));
            }
        }
        q += 1;
    }
    None
}

/// `XSM `.
pub open spec fn xsm_magic() -> Seq<u8> {
    seq![0x58u8, 0x53, 0x4d, 0x20]
}

/// The first position at or after `q` where `XSM ` occurs.
pub open spec fn xsm_from(d: Seq<u8>, q: int) -> Option<int>
    decreases d.len() - q,
{
    if q < 0 || q + 4 > d.len() {
        None
    } else if d.subrange(q, q + 4) == xsm_magic() {
        Some(q)
    } else {
        xsm_from(d, q + 1)
    }
}

proof fn lemma_xsm_bounds(d: Seq<u8>, q: int)
    ensures
        xsm_from(d, q) matches Some(x) ==> q <= x && x + 4 <= d.len(),
    decreases d.len() - q,
{
    if !(q < 0 || q + 4 > d.len()) && d.subrange(q, q + 4) != xsm_magic() {
        lemma_xsm_bounds(d, q + 1);
    }
}

fn find_xsm(data: &[u8]) -> (r: Option<usize>)
    ensures
        match xsm_from(data@, 0) {
            None => r is None,
            Some(x) => r == Some(x as usize) && 0 <= x && x + 4 <= data@.len(),
        },
{
    proof {
        lemma_xsm_bounds(data@, 0);
    }
    let magic: [u8; 4] = [0x58u8, 0x53, 0x4d, 0x20];
    proof {
        assert(magic@ =~= xsm_magic());
    }
    if data.len() < 4 {
        return None;
    }
    let mut x: usize = 0;
    while x <= data.len() - 4
        invariant
            data@.len() >= 4,
            magic@ == xsm_magic(),
            xsm_from(data@, 0) == xsm_from(data@, x as int),
        decreases data.len() - x,
    {
        if occurs(data, magic.as_slice(), x) {
            return Some(x);
        }
        x += 1;
    }
    None
}

/// Where each named bone's record body starts in a motion clip (just after its stored name),
/// `None` for a bone the clip does not hold; the clip payload starts 8 bytes after the first
/// `XSM `.
pub open spec fn record_starts_spec(d: Seq<u8>, names: Seq<Seq<char>>) -> Result<Seq<Option<int>>, XmotError> {
    match xsm_from(d, 0) {
        None => Err(XmotError::NotMotion),
        Some(x) => Ok(
            names.map_values(
                |nm: Seq<char>|
                    match find_prefixed_spec(d, encode_utf8(nm), x + 8) {
                        None => None,
                        Some(p) => Some(p + 4 + encode_utf8(nm).len()),
                    },
            ),
        ),
    }
}

/// Where each of `bone_names`' records starts its keys in a motion clip (see
/// `record_starts_spec`).
pub fn motion_record_starts(data: &[u8], bone_names: &Vec<String>) -> (r: Result<Vec<Option<usize>>, XmotError>)
    ensures
        match record_starts_spec(data@, bone_names@.map_values(|s: String| s@)) {
            Err(e) => r == Err::<Vec<Option<usize>>, XmotError>(e),
            Ok(v) => r matches Ok(w) && w@.len() == v.len() && forall|i: int|
                0 <= i < v.len() ==> match #[trigger] v[i] {
                    None => w@[i] is None,
                    Some(p) => w@[i] == Some(p as usize),
                },
        },
{
    let dl = data.len();
    let fx = find_xsm(data);
    let x = match fx {
        None => return Err(XmotError::NotMotion),
        Some(v) => v,
    };
    proof {
        assert(fx == Some(x));
        let x0 = xsm_from(data@, 0)->Some_0;
        assert(xsm_from(data@, 0) is Some);
        assert(x0 as usize == x);
        assert(xsm_from(data@, 0) == Some(x as int));
    }
    let ghost names = bone_names@.map_values(|s: String| s@);
    let payload = if x <= usize::MAX - 8 {
        x + 8
    } else {
        usize::MAX
    };
    let mut out: Vec<Option<usize>> = Vec::new();
    let mut i: usize = 0;
    while i < bone_names.len()
        invariant
            xsm_from(data@, 0) == Some(x as int),
            payload == x + 8 || (payload == usize::MAX && x + 8 > usize::MAX),
            x < data@.len(),
            dl == data@.len(),
            names == bone_names@.map_values(|s: String| s@),
            i <= bone_names@.len(),
            out@.len() == i,
            forall|j: int|
                0 <= j < i ==> match find_prefixed_spec(data@, encode_utf8(#[trigger] names[j]), x + 8) {
                    None => out@[j] is None,
                    Some(p) => out@[j] == Some((p + 4 + encode_utf8(names[j]).len()) as usize),
                },
        decreases bone_names.len() - i,
    {
        let name = &bone_names[i];
        assert(names[i as int] == name@);
        let found_at = find_length_prefixed_name(data, name.as_str(), payload);
        proof {
            let enc = encode_utf8(name@);
            assert(find_prefixed_spec(data@, enc, x + 8) == find_prefixed_spec(data@, enc, payload as int));
            lemma_prefixed_in_bounds(data@, enc, payload as int, payload as int);
            lemma_prefixed_lower(data@, enc, payload as int, payload as int);
        }
        match found_at {
            None => out.push(None),
            Some(p) => {
                let nb = name.as_str().as_bytes().len();
                proof {
                    assert(nb == encode_utf8(name@).len());
                }
                out.push(Some(p + 4 + nb));
            },
        }
        i += 1;
    }
    Ok(out)
}

proof fn lemma_prefixed_lower(d: Seq<u8>, needle: Seq<u8>, from: int, q: int)
    ensures
        prefixed_from(d, needle, from, q) matches Some(p) ==> p >= from,
    decreases d.len() - q,
{
    if !(q < 0 || q >= d.len() || q + needle.len() > d.len()) && !prefixed_at(d, needle, from, q) {
        lemma_prefixed_lower(d, needle, from, q + 1);
    }
}

proof fn lemma_prefixed_in_bounds(d: Seq<u8>, needle: Seq<u8>, from: int, q: int)
    ensures
        prefixed_from(d, needle, from, q) matches Some(p) ==> p + 4 + needle.len() <= d.len(),
    decreases d.len() - q,
{
    if !(q < 0 || q >= d.len() || q + needle.len() > d.len()) && !prefixed_at(d, needle, from, q) {
        lemma_prefixed_in_bounds(d, needle, from, q + 1);
    }
}

} // verus!
