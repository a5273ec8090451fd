//! Reading a manifest back: the lines `manifest_line` writes parse, as a manifest, to the
//! entries they record.

use vstd::prelude::*;
use crate::batch::{
    ManifestSpec, manifest_line_text, hex16, hex_char, hex_digit, hex_value, parse_hex_spec, line_state,
    lines_of, strip_cr, blank, whitespace, parse_line_spec, parse_lines_upto, parse_manifest_spec,
};
use crate::text::split_char;

verus! {

/// `c` does not occur in `s`.
pub open spec fn free_of(s: Seq<char>, c: char) -> bool {
    forall|k: int| 0 <= k < s.len() ==> s[k] != c
}

/// A text field a manifest line can hold: no tab (the field separator) and no newline.
pub open spec fn manifest_field(s: Seq<char>) -> bool {
    free_of(s, '\t') && free_of(s, '\n')
}

/// An entry whose four text fields a manifest line can hold.
pub open spec fn writable_entry(e: ManifestSpec) -> bool {
    manifest_field(e.archive) && manifest_field(e.group) && manifest_field(e.entry_path) && manifest_field(
        e.png_rel,
    )
}

/// The manifest text that records `es`, one line each, in order.
pub open spec fn manifest_text(es: Seq<ManifestSpec>) -> Seq<char>
    decreases es.len(),
{
    if es.len() == 0 {
        Seq::empty()
    } else {
        manifest_text(es.drop_last()) + manifest_line_text(es.last())
    }
}

/// A manifest line without its newline.
pub open spec fn line_body(e: ManifestSpec) -> Seq<char> {
    e.archive + seq!['\t'] + e.group + seq!['\t'] + e.entry_path + seq!['\t'] + e.png_rel + seq!['\t']
        + hex16(e.hash)
}

proof fn lemma_hex_char_digit(v: u64)
    requires
        v < 16,
    ensures
        hex_digit(hex_char(v)) == Some(v as int),
        !whitespace(hex_char(v)),
        hex_char(v) != '+',
        hex_char(v) != '\t',
        hex_char(v) != '\n',
        hex_char(v) != '\r',
{
    if v < 10 {
        assert(((48 + v) as u8) as char == hex_char(v));
    } else {
        assert(((87 + v) as u8) as char == hex_char(v));
    }
}

proof fn lemma_nibble_first(h: u64)
    ensures
        (h >> 60u64) & 15 == h >> 60u64,
{
    assert((h >> 60u64) & 15 == h >> 60u64) by (bit_vector);
}

proof fn lemma_nibble_step(h: u64, a: u64)
    requires
        a <= 56,
    ensures
        (h >> (a + 4) as u64) * 16 + ((h >> a) & 15) == h >> a,
{
    assert((h >> (a + 4) as u64) * 16 + ((h >> a) & 15) == h >> a) by (bit_vector)
        requires
            a <= 56,
    ;
}

proof fn lemma_hex16_chars(h: u64, k: int)
    requires
        0 <= k < 16,
    ensures
        hex16(h)[k] == hex_char((h >> ((60 - 4 * k) as u64)) & 15),
        (h >> ((60 - 4 * k) as u64)) & 15 < 16,
{
    let x = h >> ((60 - 4 * k) as u64);
    assert(x & 15 < 16) by (bit_vector);
}

proof fn lemma_hex16_prefix(h: u64, k: int)
    requires
        1 <= k <= 16,
    ensures
        hex_value(hex16(h).take(k)) == Some((h >> ((64 - 4 * k) as u64)) as int),
    decreases k,
{
    let t = hex16(h).take(k);
    lemma_hex16_chars(h, k - 1);
    let nib = (h >> ((60 - 4 * (k - 1)) as u64)) & 15;
    lemma_hex_char_digit(nib);
    assert(t.last() == hex16(h)[k - 1]);
    assert(hex_digit(t.last()) == Some(nib as int));
    if k == 1 {
        assert(t.drop_last() =~= Seq::<char>::empty());
        assert(hex_value(t.drop_last()) == Some(0int));
        lemma_nibble_first(h);
        assert(nib == h >> 60u64);
        assert(hex_value(t) == Some(0int * 16 + nib as int));
    } else {
        lemma_hex16_prefix(h, k - 1);
        assert(t.drop_last() =~= hex16(h).take(k - 1));
        let a = (64 - 4 * k) as u64;
        lemma_nibble_step(h, a);
        let prev = h >> ((64 - 4 * (k - 1)) as u64);
        assert((a + 4) as u64 == (64 - 4 * (k - 1)) as u64);
        assert(a == (60 - 4 * (k - 1)) as u64);
        assert(hex_value(t.drop_last()) == Some(prev as int));
        assert(prev * 16 + nib == h >> a);
        assert(hex_value(t) == Some(prev as int * 16 + nib as int));
    }
}

/// The 16 hex digits of a hash read back, as `u64::from_str_radix(.., 16)`, as the hash.
pub proof fn lemma_hex16_round_trip(h: u64)
    ensures
        parse_hex_spec(hex16(h)) == Some(h),
        forall|k: int| 0 <= k < 16 ==> !whitespace(#[trigger] hex16(h)[k]) && hex16(h)[k] != '\t' && hex16(h)[k]
            != '\n' && hex16(h)[k] != '\r',
{
    lemma_hex16_prefix(h, 16);
    assert(hex16(h).take(16) =~= hex16(h));
    assert((h >> 0u64) == h) by (bit_vector);
    lemma_hex16_chars(h, 0);
    lemma_hex_char_digit((h >> 60u64) & 15);
    assert forall|k: int| 0 <= k < 16 implies !whitespace(#[trigger] hex16(h)[k]) && hex16(h)[k] != '\t'
        && hex16(h)[k] != '\n' && hex16(h)[k] != '\r' by {
        lemma_hex16_chars(h, k);
        lemma_hex_char_digit((h >> ((60 - 4 * k) as u64)) & 15);
    }
}

/// Text without a separator extends the last piece of a split.
proof fn lemma_split_extend(x: Seq<char>, y: Seq<char>, sep: char)
    requires
        free_of(y, sep),
    ensures
        split_char(x + y, sep) == split_char(x, sep).update(
            split_char(x, sep).len() - 1,
            split_char(x, sep).last() + y,
        ),
    decreases y.len(),
{
    crate::text::lemma_split_char_nonempty(x, sep);
    if y.len() == 0 {
        assert(x + y =~= x);
        assert(split_char(x, sep).last() + y =~= split_char(x, sep).last());
        assert(split_char(x, sep).update(split_char(x, sep).len() - 1, split_char(x, sep).last())
            =~= split_char(x, sep));
    } else {
        let y0 = y.drop_last();
        assert(y[y.len() - 1] != sep);
        assert(free_of(y0, sep)) by {
            assert forall|k: int| 0 <= k < y0.len() implies y0[k] != sep by {
                assert(y0[k] == y[k]);
            }
        }
        lemma_split_extend(x, y0, sep);
        let sx = split_char(x, sep);
        let parts = split_char(x + y0, sep);
        assert((x + y).drop_last() =~= x + y0);
        assert((x + y).last() == y.last());
        assert(parts.len() == sx.len());
        assert(parts.last() == sx.last() + y0);
        assert((sx.last() + y0).push(y.last()) =~= sx.last() + y);
        assert(split_char(x + y, sep) =~= split_char(x, sep).update(
            split_char(x, sep).len() - 1,
            split_char(x, sep).last() + y,
        ));
    }
}

/// A separator starts a new, empty piece.
proof fn lemma_split_sep(x: Seq<char>, sep: char)
    ensures
        split_char(x + seq![sep], sep) == split_char(x, sep).push(Seq::<char>::empty()),
{
    assert((x + seq![sep]).drop_last() =~= x);
}

/// `pieces` joined by a separator that none of them holds, then split at it, gives back the
/// pieces: here for `s + sep + y` where `s` splits into `parts`.
proof fn lemma_split_append_field(x: Seq<char>, y: Seq<char>, sep: char)
    requires
        free_of(y, sep),
    ensures
        split_char(x + seq![sep] + y, sep) == split_char(x, sep).push(y),
{
    lemma_split_sep(x, sep);
    lemma_split_extend(x + seq![sep], y, sep);
    assert(Seq::<char>::empty() + y =~= y);
    assert(split_char(x, sep).push(Seq::<char>::empty()).update(split_char(x, sep).len() as int, y)
        =~= split_char(x, sep).push(y));
}

proof fn lemma_split_line_body(e: ManifestSpec)
    requires
        writable_entry(e),
    ensures
        split_char(line_body(e), '\t') == seq![e.archive, e.group, e.entry_path, e.png_rel, hex16(e.hash)],
{
    lemma_hex16_round_trip(e.hash);
    lemma_split_extend(Seq::empty(), e.archive, '\t');
    assert(Seq::<char>::empty() + e.archive =~= e.archive);
    assert(split_char(e.archive, '\t') =~= seq![e.archive]);
    lemma_split_append_field(e.archive, e.group, '\t');
    let s1 = e.archive + seq!['\t'] + e.group;
    lemma_split_append_field(s1, e.entry_path, '\t');
    let s2 = s1 + seq!['\t'] + e.entry_path;
    lemma_split_append_field(s2, e.png_rel, '\t');
    let s3 = s2 + seq!['\t'] + e.png_rel;
    lemma_split_append_field(s3, hex16(e.hash), '\t');
    assert(s3 + seq!['\t'] + hex16(e.hash) =~= line_body(e));
    assert(seq![e.archive].push(e.group).push(e.entry_path).push(e.png_rel).push(hex16(e.hash)) =~= seq![
        e.archive,
        e.group,
        e.entry_path,
        e.png_rel,
        hex16(e.hash),
    ]);
}

/// Text without a newline extends the current line.
proof fn lemma_line_state_extend(t: Seq<char>, y: Seq<char>)
    requires
        free_of(y, '\n'),
    ensures
        line_state(t + y) == (line_state(t).0, line_state(t).1 + y),
    decreases y.len(),
{
    if y.len() == 0 {
        assert(t + y =~= t);
        assert(line_state(t).1 + y =~= line_state(t).1);
    } else {
        let y0 = y.drop_last();
        lemma_line_state_extend(t, y0);
        assert((t + y).drop_last() =~= t + y0);
        assert((t + y).last() == y.last());
        assert(line_state(t).1 + y0 + seq![y.last()] =~= line_state(t).1 + y);
        assert((line_state(t).1 + y0).push(y.last()) =~= line_state(t).1 + y);
    }
}

proof fn lemma_line_body_free(e: ManifestSpec)
    requires
        writable_entry(e),
    ensures
        free_of(line_body(e), '\n'),
        line_body(e).len() > 0,
        line_body(e).last() != '\r',
        !blank(line_body(e)),
{
    lemma_hex16_round_trip(e.hash);
    let b = line_body(e);
    let pre = e.archive + seq!['\t'] + e.group + seq!['\t'] + e.entry_path + seq!['\t'] + e.png_rel + seq!['\t'];
    assert(b =~= pre + hex16(e.hash));
    assert forall|k: int| 0 <= k < b.len() implies b[k] != '\n' by {
        if k >= pre.len() {
            assert(b[k] == hex16(e.hash)[k - pre.len()]);
        } else {
            let k1 = e.archive.len() as int;
            let k2 = k1 + 1 + e.group.len();
            let k3 = k2 + 1 + e.entry_path.len();
            let k4 = k3 + 1 + e.png_rel.len();
            if k < k1 {
                assert(b[k] == e.archive[k]);
            } else if k == k1 {
            } else if k < k2 {
                assert(b[k] == e.group[k - k1 - 1]);
            } else if k == k2 {
            } else if k < k3 {
                assert(b[k] == e.entry_path[k - k2 - 1]);
            } else if k == k3 {
            } else if k < k4 {
                assert(b[k] == e.png_rel[k - k3 - 1]);
            }
        }
    }
    assert(b.last() == hex16(e.hash)[15]);
    assert(!whitespace(b[b.len() - 1]));
}

/// The state after the lines of `es`: those lines' bodies, and no pending text.
proof fn lemma_manifest_lines(es: Seq<ManifestSpec>)
    requires
        forall|i: int| 0 <= i < es.len() ==> writable_entry(#[trigger] es[i]),
    ensures
        line_state(manifest_text(es)) == (es.map_values(|e: ManifestSpec| line_body(e)), Seq::<char>::empty()),
    decreases es.len(),
{
    if es.len() > 0 {
        let prev = es.drop_last();
        let e = es.last();
        assert(writable_entry(es[es.len() - 1]));
        lemma_manifest_lines(prev);
        lemma_line_body_free(e);
        let t = manifest_text(prev);
        lemma_line_state_extend(t, line_body(e));
        assert(manifest_line_text(e) =~= line_body(e) + seq!['\n']);
        assert(manifest_text(es) =~= (t + line_body(e)) + seq!['\n']);
        assert((t + line_body(e) + seq!['\n']).drop_last() =~= t + line_body(e));
        assert(Seq::<char>::empty() + line_body(e) =~= line_body(e));
        assert(strip_cr(line_body(e)) == line_body(e));
        assert(es.map_values(|e: ManifestSpec| line_body(e)) =~= prev.map_values(|e: ManifestSpec| line_body(e)).push(
            line_body(e),
        ));
    } else {
        assert(es.map_values(|e: ManifestSpec| line_body(e)) =~= Seq::<Seq<char>>::empty());
    }
}

proof fn lemma_parse_bodies(es: Seq<ManifestSpec>, n: int)
    requires
        0 <= n <= es.len(),
        forall|i: int| 0 <= i < es.len() ==> writable_entry(#[trigger] es[i]),
    ensures
        parse_lines_upto(es.map_values(|e: ManifestSpec| line_body(e)), n) == Ok::<Seq<ManifestSpec>, crate::batch::ManifestError>(
            es.take(n),
        ),
    decreases n,
{
    let lines = es.map_values(|e: ManifestSpec| line_body(e));
    if n == 0 {
        assert(es.take(0) =~= Seq::<ManifestSpec>::empty());
    } else {
        lemma_parse_bodies(es, n - 1);
        let e = es[n - 1];
        assert(writable_entry(e));
        assert(lines[n - 1] == line_body(e));
        lemma_line_body_free(e);
        lemma_split_line_body(e);
        lemma_hex16_round_trip(e.hash);
        assert(parse_line_spec(line_body(e), n) == Ok::<ManifestSpec, crate::batch::ManifestError>(e));
        assert(es.take(n) =~= es.take(n - 1).push(e));
    }
}

/// What a manifest's lines record is read back: the text `manifest_line` writes for each of
/// `es`, one after another, parses to exactly `es`, provided no text field holds a tab or a
/// newline.
pub proof fn lemma_manifest_round_trip(es: Seq<ManifestSpec>)
    requires
        forall|i: int| 0 <= i < es.len() ==> writable_entry(#[trigger] es[i]),
    ensures
        parse_manifest_spec(manifest_text(es)) == Ok::<Seq<ManifestSpec>, crate::batch::ManifestError>(es),
{
    lemma_manifest_lines(es);
    let lines = es.map_values(|e: ManifestSpec| line_body(e));
    assert(lines_of(manifest_text(es)) == lines);
    lemma_parse_bodies(es, es.len() as int);
    assert(es.take(es.len() as int) =~= es);
}

} // verus!
