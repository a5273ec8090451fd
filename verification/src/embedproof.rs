//! Why embedding texture paths into a `.mtl` text twice changes nothing the second time: the
//! lines the first run adds are read back, by the second, as the materials' own `map_Kd`
//! declarations.

use vstd::prelude::*;
use crate::batch::{
    LibraryEntry, EmbedState, embed_flush, embed_step, embed_upto, embed_spec, lines_of, line_state, strip_cr,
    trim_ws, trim_start_ws, trim_end_ws, whitespace, starts_with, real_path, exact_path, library_match,
    join_slashed, slashes, normal_guess,
};

verus! {

/// Lines joined, each followed by `\r\n`.
pub open spec fn join_crlf(ls: Seq<Seq<char>>) -> Seq<char>
    decreases ls.len(),
{
    if ls.len() == 0 {
        Seq::empty()
    } else {
        join_crlf(ls.drop_last()) + ls.last() + "\r\n"@
    }
}

/// `s` holds no line break.
pub open spec fn one_line(s: Seq<char>) -> bool {
    forall|i: int| 0 <= i < s.len() ==> #[trigger] s[i] != '\n'
}

/// `s` holds a character that is not white space.
pub open spec fn not_blank(s: Seq<char>) -> bool {
    exists|i: int| 0 <= i < s.len() && !whitespace(#[trigger] s[i])
}

proof fn lemma_join_crlf_append(a: Seq<Seq<char>>, b: Seq<Seq<char>>)
    ensures
        join_crlf(a + b) == join_crlf(a) + join_crlf(b),
    decreases b.len(),
{
    if b.len() == 0 {
        assert(a + b =~= a);
        assert(join_crlf(a) + join_crlf(b) =~= join_crlf(a));
    } else {
        lemma_join_crlf_append(a, b.drop_last());
        assert((a + b).drop_last() =~= a + b.drop_last());
        assert((a + b).last() == b.last());
        assert(join_crlf(a + b) =~= join_crlf(a) + join_crlf(b));
    }
}

/// Reading text without a line break extends the current line.
proof fn lemma_line_state_extend(x: Seq<char>, s: Seq<char>)
    requires
        one_line(s),
    ensures
        line_state(x + s) == (line_state(x).0, line_state(x).1 + s),
    decreases s.len(),
{
    if s.len() == 0 {
        assert(x + s =~= x);
        assert(line_state(x).1 + s =~= line_state(x).1);
    } else {
        let s0 = s.drop_last();
        assert(one_line(s0)) by {
            assert forall|i: int| 0 <= i < s0.len() implies #[trigger] s0[i] != '\n' by {
                assert(s0[i] == s[i]);
            }
        }
        lemma_line_state_extend(x, s0);
        assert((x + s).drop_last() =~= x + s0);
        assert((x + s).last() == s.last());
        assert(s.last() != '\n') by {
            assert(s[s.len() - 1] != '\n');
        }
        assert(line_state(x).1 + s0.push(s.last()) =~= line_state(x).1 + s);
    }
}

/// The lines of CRLF-joined one-line texts are those texts.
proof fn lemma_lines_of_join(ls: Seq<Seq<char>>)
    requires
        forall|i: int| 0 <= i < ls.len() ==> one_line(#[trigger] ls[i]),
    ensures
        line_state(join_crlf(ls)) == (ls, Seq::<char>::empty()),
        lines_of(join_crlf(ls)) == ls,
    decreases ls.len(),
{
    reveal_strlit("\r\n");
    if ls.len() == 0 {
        assert(join_crlf(ls) =~= Seq::<char>::empty());
        assert(ls =~= Seq::<Seq<char>>::empty());
    } else {
        let init = ls.drop_last();
        assert forall|i: int| 0 <= i < init.len() implies one_line(#[trigger] init[i]) by {
            assert(init[i] == ls[i]);
        }
        lemma_lines_of_join(init);
        let x = join_crlf(init);
        let l = ls.last();
        assert(one_line(l)) by {
            assert(l == ls[ls.len() - 1]);
        }
        let lr = l.push('\r');
        assert(one_line(lr)) by {
            assert forall|i: int| 0 <= i < lr.len() implies #[trigger] lr[i] != '\n' by {
                if i < l.len() {
                    assert(lr[i] == l[i]);
                }
            }
        }
        lemma_line_state_extend(x, lr);
        let t = join_crlf(ls);
        assert(t =~= (x + lr).push('\n'));
        assert(t.drop_last() =~= x + lr);
        assert(line_state(x).1 + lr =~= lr);
        assert(strip_cr(lr) =~= l);
        assert(init.push(l) =~= ls);
    }
}

/// Every line of a text is one line.
proof fn lemma_line_state_one_line(t: Seq<char>)
    ensures
        one_line(line_state(t).1),
        forall|i: int| 0 <= i < line_state(t).0.len() ==> one_line(#[trigger] line_state(t).0[i]),
    decreases t.len(),
{
    if t.len() > 0 {
        lemma_line_state_one_line(t.drop_last());
        let (done, cur) = line_state(t.drop_last());
        if t.last() == '\n' {
            assert(one_line(strip_cr(cur))) by {
                assert forall|i: int| 0 <= i < strip_cr(cur).len() implies #[trigger] strip_cr(cur)[i] != '\n' by {
                    assert(strip_cr(cur)[i] == cur[i]);
                }
            }
            assert forall|i: int| 0 <= i < done.push(strip_cr(cur)).len() implies one_line(
                #[trigger] done.push(strip_cr(cur))[i],
            ) by {
                if i < done.len() {
                    assert(done.push(strip_cr(cur))[i] == done[i]);
                }
            }
        } else {
            let c2 = cur.push(t.last());
            assert forall|i: int| 0 <= i < c2.len() implies #[trigger] c2[i] != '\n' by {
                if i < cur.len() {
                    assert(c2[i] == cur[i]);
                }
            }
        }
    }
}

proof fn lemma_lines_one_line(t: Seq<char>)
    ensures
        forall|i: int| 0 <= i < lines_of(t).len() ==> one_line(#[trigger] lines_of(t)[i]),
{
    lemma_line_state_one_line(t);
    let (done, cur) = line_state(t);
    if cur.len() > 0 {
        assert forall|i: int| 0 <= i < done.push(cur).len() implies one_line(#[trigger] done.push(cur)[i]) by {
            if i < done.len() {
                assert(done.push(cur)[i] == done[i]);
            }
        }
    }
}

/// Trimming the end keeps a prefix that reaches past every non-blank character.
proof fn lemma_trim_end(s: Seq<char>)
    ensures
        trim_end_ws(s).len() <= s.len(),
        trim_end_ws(s) == s.subrange(0, trim_end_ws(s).len() as int),
        forall|i: int| 0 <= i < s.len() && !whitespace(#[trigger] s[i]) ==> i < trim_end_ws(s).len(),
    decreases s.len(),
{
    if s.len() > 0 && whitespace(s.last()) {
        let s0 = s.drop_last();
        lemma_trim_end(s0);
        assert forall|i: int| 0 <= i < s.len() && !whitespace(#[trigger] s[i]) implies i < trim_end_ws(s).len() by {
            if i == s.len() - 1 {
                assert(s[i] == s.last());
            } else {
                assert(s0[i] == s[i]);
            }
        }
        assert(s.subrange(0, trim_end_ws(s).len() as int) =~= s0.subrange(0, trim_end_ws(s0).len() as int));
    } else {
        assert(s.subrange(0, s.len() as int) =~= s);
    }
}

/// A line that starts with a letter trims to a prefix of itself.
proof fn lemma_trim_letter_line(f: Seq<char>)
    requires
        f.len() > 0,
        f[0] == 'm',
    ensures
        trim_ws(f) == f.subrange(0, trim_ws(f).len() as int),
        trim_ws(f).len() <= f.len(),
        forall|i: int| 0 <= i < f.len() && !whitespace(#[trigger] f[i]) ==> i < trim_ws(f).len(),
{
    assert(!whitespace('m'));
    assert(trim_start_ws(f) == f);
    lemma_trim_end(f);
}

/// A `map_Kd` line the first run adds is read as a `map_Kd` declaration.
proof fn lemma_step_kd_line(lib: Seq<LibraryEntry>, dir: Seq<char>, st: EmbedState, p: Seq<char>)
    requires
        not_blank(p),
    ensures
        embed_step(lib, dir, st, "map_Kd "@ + p) == (EmbedState { out: st.out + ("map_Kd "@ + p) + "\r\n"@, has_kd: true, ..st }),
{
    reveal_strlit("map_Kd ");
    reveal_strlit("newmtl ");
    let f = "map_Kd "@ + p;
    lemma_trim_letter_line(f);
    let i = choose|i: int| 0 <= i < p.len() && !whitespace(#[trigger] p[i]);
    assert(f[7 + i] == p[i]);
    let t = trim_ws(f);
    assert(t.len() > 7 + i);
    assert(t.subrange(0, 7) =~= "map_Kd "@) by {
        assert forall|k: int| 0 <= k < 7 implies #[trigger] t.subrange(0, 7)[k] == "map_Kd "@[k] by {
            assert(t[k] == f[k]);
        }
    }
    assert(starts_with(t, "map_Kd "@));
    assert(!starts_with(t, "newmtl "@)) by {
        if starts_with(t, "newmtl "@) {
            assert(t.subrange(0, 7)[0] == 'n');
            assert(t[0] == f[0]);
        }
    }
}

/// A `map_bump` line the first run adds neither opens a material nor declares `map_Kd`.
proof fn lemma_step_bump_line(lib: Seq<LibraryEntry>, dir: Seq<char>, st: EmbedState, q: Seq<char>)
    ensures
        embed_step(lib, dir, st, "map_bump "@ + q).out == st.out + ("map_bump "@ + q) + "\r\n"@,
        embed_step(lib, dir, st, "map_bump "@ + q).current == st.current,
        embed_step(lib, dir, st, "map_bump "@ + q).has_kd == st.has_kd,
        embed_step(lib, dir, st, "map_bump "@ + q).added == st.added,
{
    reveal_strlit("map_bump ");
    reveal_strlit("map_Kd ");
    reveal_strlit("newmtl ");
    let g = "map_bump "@ + q;
    lemma_trim_letter_line(g);
    let t = trim_ws(g);
    assert(!starts_with(t, "newmtl "@)) by {
        if starts_with(t, "newmtl "@) {
            assert(t.subrange(0, 7)[0] == 'n');
            assert(t[0] == g[0]);
        }
    }
    assert(!starts_with(t, "map_Kd "@)) by {
        if starts_with(t, "map_Kd "@) {
            assert(t.subrange(0, 7)[4] == 'K');
            assert(t[4] == g[4]);
        }
    }
}

/// The library's paths make one-line, non-blank `map_Kd` lines: the output directory and
/// every texture's relative PNG path hold no line break, and every relative path holds a
/// character that is not white space.
pub open spec fn library_paths_ok(lib: Seq<LibraryEntry>, dir: Seq<char>) -> bool {
    &&& one_line(dir)
    &&& forall|i: int| 0 <= i < lib.len() ==> one_line(#[trigger] lib[i].png_rel@) && not_blank(lib[i].png_rel@)
}

proof fn lemma_library_match_member(lib: Seq<LibraryEntry>, t: Seq<char>, i: int)
    requires
        library_match(lib, t, i) is Some,
    ensures
        exists|k: int| 0 <= k < lib.len() && library_match(lib, t, i)->Some_0 == #[trigger] lib[k],
    decreases lib.len() - i,
{
    if !(i < 0 || i >= lib.len()) && stem_differs(lib, t, i) {
        lemma_library_match_member(lib, t, i + 1);
    } else {
        assert(library_match(lib, t, i)->Some_0 == lib[i]);
    }
}

spec fn stem_differs(lib: Seq<LibraryEntry>, t: Seq<char>, i: int) -> bool {
    crate::batch::stem_lower(lib[i].name@) != t
}

proof fn lemma_join_slashed_ok(dir: Seq<char>, rel: Seq<char>)
    requires
        one_line(dir),
        one_line(rel),
        not_blank(rel),
    ensures
        one_line(join_slashed(dir, rel)),
        not_blank(join_slashed(dir, rel)),
{
    let x = if rel.len() > 0 && rel[0] == '/' {
        rel
    } else if dir.len() == 0 || dir.last() == '/' {
        dir + rel
    } else {
        dir + seq!['/'] + rel
    };
    let o = x.len() - rel.len();
    assert(forall|k: int| 0 <= k < rel.len() ==> x[o + k] == rel[k]);
    assert(one_line(x)) by {
        assert forall|k: int| 0 <= k < x.len() implies #[trigger] x[k] != '\n' by {
            if k >= o {
                assert(x[k] == rel[k - o]);
            } else {
                assert(x[k] == dir[k] || x[k] == '/');
            }
        }
    }
    let y = slashes(x);
    assert(y == join_slashed(dir, rel));
    assert(one_line(y)) by {
        assert forall|k: int| 0 <= k < y.len() implies #[trigger] y[k] != '\n' by {
            assert(x[k] != '\n');
        }
    }
    let i = choose|i: int| 0 <= i < rel.len() && !whitespace(#[trigger] rel[i]);
    assert(x[o + i] == rel[i]);
    assert(!whitespace('/'));
    assert(!whitespace(y[o + i]));
}

proof fn lemma_real_path_ok(lib: Seq<LibraryEntry>, dir: Seq<char>, name: Seq<char>)
    requires
        library_paths_ok(lib, dir),
        real_path(lib, dir, name) is Some,
    ensures
        one_line(real_path(lib, dir, name)->Some_0),
        not_blank(real_path(lib, dir, name)->Some_0),
{
    let n2 = if exact_path(lib, dir, name) is Some {
        name
    } else {
        name.subrange(0, name.len() - 6)
    };
    assert(exact_path(lib, dir, n2) == real_path(lib, dir, name));
    let t = crate::batch::stem_lower(n2);
    lemma_library_match_member(lib, t, 0);
    let e = library_match(lib, t, 0)->Some_0;
    let k = choose|k: int| 0 <= k < lib.len() && e == #[trigger] lib[k];
    assert(one_line(lib[k].png_rel@) && not_blank(lib[k].png_rel@));
    lemma_join_slashed_ok(dir, e.png_rel@);
}

/// Whether a line opens a material.
pub open spec fn opens_material(line: Seq<char>) -> bool {
    starts_with(trim_ws(line), "newmtl "@)
}

/// The lines that closing the material being read adds (see `embed_flush`).
pub open spec fn flush_lines(lib: Seq<LibraryEntry>, dir: Seq<char>, st: EmbedState) -> Seq<Seq<char>> {
    match st.current {
        None => Seq::empty(),
        Some(name) => if st.has_kd {
            Seq::empty()
        } else {
            match real_path(lib, dir, name) {
                None => Seq::empty(),
                Some(path) => {
                    let kd = seq!["map_Kd "@ + path];
                    if st.has_bump {
                        kd
                    } else {
                        match normal_guess(name) {
                            None => kd,
                            Some(nn) => match real_path(lib, dir, nn) {
                                None => kd,
                                Some(np) => kd.push("map_bump "@ + np),
                            },
                        }
                    }
                },
            }
        },
    }
}

/// The lines the first run writes for the first `j` input lines: each input line, preceded,
/// when it opens a material, by the lines closing the previous one.
pub open spec fn emitted_upto(lib: Seq<LibraryEntry>, dir: Seq<char>, ls: Seq<Seq<char>>, j: int) -> Seq<Seq<char>>
    decreases j,
{
    if j <= 0 {
        Seq::empty()
    } else {
        let line = ls[j - 1];
        let f = if opens_material(line) {
            flush_lines(lib, dir, embed_upto(lib, dir, ls, j - 1))
        } else {
            Seq::empty()
        };
        emitted_upto(lib, dir, ls, j - 1) + f + seq![line]
    }
}

proof fn lemma_flush(lib: Seq<LibraryEntry>, dir: Seq<char>, st: EmbedState)
    ensures
        embed_flush(lib, dir, st) == (EmbedState {
            out: st.out + join_crlf(flush_lines(lib, dir, st)),
            added: st.added + (if flush_lines(lib, dir, st).len() > 0 { 1nat } else { 0nat }),
            ..st
        }),
{
    reveal_with_fuel(join_crlf, 3);
    let f = flush_lines(lib, dir, st);
    if f.len() == 0 {
        assert(st.out + join_crlf(f) =~= st.out);
    } else {
        let name = st.current->Some_0;
        let path = real_path(lib, dir, name)->Some_0;
        let out1 = st.out + "map_Kd "@ + path + "\r\n"@;
        assert(f[0] == "map_Kd "@ + path);
        if f.len() == 1 {
            assert(f.drop_last() =~= Seq::<Seq<char>>::empty());
            assert(st.out + join_crlf(f) =~= out1);
        } else {
            let nn = normal_guess(name)->Some_0;
            let np = real_path(lib, dir, nn)->Some_0;
            assert(f[1] == "map_bump "@ + np);
            assert(f.drop_last().drop_last() =~= Seq::<Seq<char>>::empty());
            assert(f.drop_last() =~= seq![f[0]]);
            assert(st.out + join_crlf(f) =~= out1 + "map_bump "@ + np + "\r\n"@);
        }
    }
}

proof fn lemma_first_run_out(lib: Seq<LibraryEntry>, dir: Seq<char>, ls: Seq<Seq<char>>, j: int)
    requires
        0 <= j <= ls.len(),
    ensures
        embed_upto(lib, dir, ls, j).out == join_crlf(emitted_upto(lib, dir, ls, j)),
    decreases j,
{
    if j > 0 {
        lemma_first_run_out(lib, dir, ls, j - 1);
        let st = embed_upto(lib, dir, ls, j - 1);
        let line = ls[j - 1];
        let e = emitted_upto(lib, dir, ls, j - 1);
        let f = if opens_material(line) { flush_lines(lib, dir, st) } else { Seq::empty() };
        lemma_flush(lib, dir, st);
        lemma_join_crlf_append(e + f, seq![line]);
        lemma_join_crlf_append(e, f);
        assert(join_crlf(seq![line]) =~= line + "\r\n"@) by {
            reveal_with_fuel(join_crlf, 2);
            assert(seq![line].drop_last() =~= Seq::<Seq<char>>::empty());
        }
        if !opens_material(line) {
            assert(join_crlf(f) =~= Seq::<char>::empty());
        }
    }
}

proof fn lemma_emitted_one_line(lib: Seq<LibraryEntry>, dir: Seq<char>, ls: Seq<Seq<char>>, j: int)
    requires
        0 <= j <= ls.len(),
        library_paths_ok(lib, dir),
        forall|i: int| 0 <= i < ls.len() ==> one_line(#[trigger] ls[i]),
    ensures
        forall|i: int|
            0 <= i < emitted_upto(lib, dir, ls, j).len() ==> one_line(#[trigger] emitted_upto(lib, dir, ls, j)[i]),
    decreases j,
{
    if j > 0 {
        lemma_emitted_one_line(lib, dir, ls, j - 1);
        let st = embed_upto(lib, dir, ls, j - 1);
        lemma_flush_lines_one_line(lib, dir, st);
        let line = ls[j - 1];
        let e = emitted_upto(lib, dir, ls, j - 1);
        let f = if opens_material(line) { flush_lines(lib, dir, st) } else { Seq::empty() };
        let all = e + f + seq![line];
        assert forall|i: int| 0 <= i < all.len() implies one_line(#[trigger] all[i]) by {
            if i < e.len() {
                assert(all[i] == e[i]);
            } else if i < e.len() + f.len() {
                assert(all[i] == f[i - e.len()]);
            } else {
                assert(all[i] == line);
            }
        }
    }
}

proof fn lemma_prefixed_line(w: Seq<char>, p: Seq<char>)
    requires
        one_line(w),
        one_line(p),
    ensures
        one_line(w + p),
{
    assert forall|i: int| 0 <= i < (w + p).len() implies #[trigger] (w + p)[i] != '\n' by {
        if i < w.len() {
            assert((w + p)[i] == w[i]);
        } else {
            assert((w + p)[i] == p[i - w.len()]);
        }
    }
}

proof fn lemma_flush_lines_one_line(lib: Seq<LibraryEntry>, dir: Seq<char>, st: EmbedState)
    requires
        library_paths_ok(lib, dir),
    ensures
        forall|i: int| 0 <= i < flush_lines(lib, dir, st).len() ==> one_line(#[trigger] flush_lines(lib, dir, st)[i]),
        flush_lines(lib, dir, st).len() > 0 ==> (exists|p: Seq<char>| not_blank(p) && flush_lines(lib, dir, st)[0]
            == "map_Kd "@ + p),
        flush_lines(lib, dir, st).len() > 1 ==> (exists|q: Seq<char>| flush_lines(lib, dir, st)[1] == "map_bump "@ + q),
        flush_lines(lib, dir, st).len() <= 2,
{
    reveal_strlit("map_Kd ");
    reveal_strlit("map_bump ");
    let f = flush_lines(lib, dir, st);
    if f.len() > 0 {
        let name = st.current->Some_0;
        let path = real_path(lib, dir, name)->Some_0;
        lemma_real_path_ok(lib, dir, name);
        assert(one_line("map_Kd "@));
        lemma_prefixed_line("map_Kd "@, path);
        assert(f[0] == "map_Kd "@ + path);
        if f.len() > 1 {
            let nn = normal_guess(name)->Some_0;
            let np = real_path(lib, dir, nn)->Some_0;
            lemma_real_path_ok(lib, dir, nn);
            assert(one_line("map_bump "@));
            lemma_prefixed_line("map_bump "@, np);
            assert(f[1] == "map_bump "@ + np);
        }
    }
}

/// Reading the first `n` lines does not look past them.
proof fn lemma_embed_prefix(lib: Seq<LibraryEntry>, dir: Seq<char>, a: Seq<Seq<char>>, b: Seq<Seq<char>>, n: int)
    requires
        0 <= n <= a.len(),
    ensures
        embed_upto(lib, dir, a + b, n) == embed_upto(lib, dir, a, n),
    decreases n,
{
    if n > 0 {
        lemma_embed_prefix(lib, dir, a, b, n - 1);
        assert((a + b)[n - 1] == a[n - 1]);
    }
}

/// How the second run's state stands to the first run's: the same material open, every
/// `map_Kd` the first run saw seen too, nothing added, and the text read back as written.
pub open spec fn tracks(lib: Seq<LibraryEntry>, dir: Seq<char>, e: Seq<Seq<char>>, t: EmbedState, s: EmbedState) -> bool {
    &&& t.current == s.current
    &&& (s.has_kd ==> t.has_kd)
    &&& t.added == 0
    &&& t.out == join_crlf(e)
}

/// Second run over the lines the first run added when closing a material: they leave the
/// material marked as declaring `map_Kd` whenever there were any, so closing it adds nothing.
proof fn lemma_second_run_flush_lines(lib: Seq<LibraryEntry>, dir: Seq<char>, e: Seq<Seq<char>>, s: EmbedState)
    requires
        library_paths_ok(lib, dir),
        tracks(lib, dir, e, embed_upto(lib, dir, e, e.len() as int), s),
    ensures
        ({
            let x = e + flush_lines(lib, dir, s);
            let u = embed_upto(lib, dir, x, x.len() as int);
            &&& tracks(lib, dir, x, u, s)
            &&& flush_lines(lib, dir, u).len() == 0
        }),
{
    reveal_with_fuel(join_crlf, 2);
    let f = flush_lines(lib, dir, s);
    let x = e + f;
    let n = e.len() as int;
    let t = embed_upto(lib, dir, e, n);
    lemma_flush_lines_one_line(lib, dir, s);
    lemma_embed_prefix(lib, dir, e, f, n);
    if f.len() == 0 {
        assert(x =~= e);
        assert(embed_upto(lib, dir, x, x.len() as int) == t);
        assert(tracks(lib, dir, x, t, s));
        if t.current is Some && !t.has_kd {
            assert(!s.has_kd);
            assert(real_path(lib, dir, s.current->Some_0) is None);
        }
        assert(flush_lines(lib, dir, t).len() == 0);
    } else {
        let p = choose|p: Seq<char>| not_blank(p) && f[0] == "map_Kd "@ + p;
        assert(x[n] == f[0]);
        lemma_step_kd_line(lib, dir, t, p);
        let u1 = embed_upto(lib, dir, x, n + 1);
        assert(u1 == embed_step(lib, dir, t, f[0]));
        lemma_join_crlf_append(e, seq![f[0]]);
        assert(u1.out == join_crlf(e + seq![f[0]]));
        if f.len() == 1 {
            assert(e + seq![f[0]] =~= x);
            assert(embed_upto(lib, dir, x, x.len() as int) == u1);
            assert(tracks(lib, dir, x, u1, s));
            assert(flush_lines(lib, dir, u1).len() == 0);
        } else {
            let q = choose|q: Seq<char>| f[1] == "map_bump "@ + q;
            assert(x[n + 1] == f[1]);
            lemma_step_bump_line(lib, dir, u1, q);
            assert(f =~= seq![f[0], f[1]]);
            lemma_join_crlf_append(e + seq![f[0]], seq![f[1]]);
            assert(e + seq![f[0]] + seq![f[1]] =~= x);
            assert(join_crlf(seq![f[1]]) =~= f[1] + "\r\n"@) by {
                assert(seq![f[1]].drop_last() =~= Seq::<Seq<char>>::empty());
            }
            let u2 = embed_upto(lib, dir, x, n + 2);
            assert(u2 == embed_step(lib, dir, u1, f[1]));
            assert(u2.current == s.current);
            assert(u2.has_kd);
            assert(u2.added == 0);
            assert(u2.out == u1.out + f[1] + "\r\n"@);
            assert(u1.out == join_crlf(e + seq![f[0]]));
            assert(join_crlf(e + seq![f[0]] + seq![f[1]]) == join_crlf(e + seq![f[0]]) + join_crlf(seq![f[1]]));
            assert(u2.out == join_crlf(x));
            assert(tracks(lib, dir, x, u2, s));
            assert(flush_lines(lib, dir, u2).len() == 0);
        }
    }
}

/// Second run over one input line, with nothing to add before it.
proof fn lemma_second_run_line(
    lib: Seq<LibraryEntry>,
    dir: Seq<char>,
    x: Seq<Seq<char>>,
    line: Seq<char>,
    s: EmbedState,
)
    requires
        tracks(lib, dir, x, embed_upto(lib, dir, x, x.len() as int), s),
        opens_material(line) ==> flush_lines(lib, dir, embed_upto(lib, dir, x, x.len() as int)).len() == 0,
    ensures
        tracks(
            lib,
            dir,
            x + seq![line],
            embed_upto(lib, dir, x + seq![line], x.len() as int + 1),
            embed_step(lib, dir, s, line),
        ),
{
    reveal_with_fuel(join_crlf, 2);
    let n = x.len() as int;
    let u = embed_upto(lib, dir, x, n);
    lemma_embed_prefix(lib, dir, x, seq![line], n);
    assert((x + seq![line])[n] == line);
    let v = embed_upto(lib, dir, x + seq![line], n + 1);
    assert(v == embed_step(lib, dir, u, line));
    lemma_flush(lib, dir, u);
    lemma_flush(lib, dir, s);
    lemma_join_crlf_append(x, seq![line]);
    assert(join_crlf(seq![line]) =~= line + "\r\n"@) by {
        assert(seq![line].drop_last() =~= Seq::<Seq<char>>::empty());
    }
    let s2 = embed_step(lib, dir, s, line);
    if opens_material(line) {
        assert(join_crlf(flush_lines(lib, dir, u)) =~= Seq::<char>::empty());
        assert(embed_flush(lib, dir, u).out =~= u.out);
        assert(v.out == u.out + line + "\r\n"@);
    } else {
        assert(v.out == u.out + line + "\r\n"@);
    }
    assert(v.current == s2.current);
    assert(s2.has_kd ==> v.has_kd);
    assert(v.added == 0);
    assert(v.out == join_crlf(x + seq![line]));
}

/// After each input line, the second run over what the first run wrote tracks the first run.
proof fn lemma_second_run_tracks(lib: Seq<LibraryEntry>, dir: Seq<char>, ls: Seq<Seq<char>>, j: int)
    requires
        0 <= j <= ls.len(),
        library_paths_ok(lib, dir),
    ensures
        tracks(
            lib,
            dir,
            emitted_upto(lib, dir, ls, j),
            embed_upto(lib, dir, emitted_upto(lib, dir, ls, j), emitted_upto(lib, dir, ls, j).len() as int),
            embed_upto(lib, dir, ls, j),
        ),
    decreases j,
{
    if j == 0 {
        assert(join_crlf(Seq::<Seq<char>>::empty()) =~= Seq::<char>::empty());
    } else {
        lemma_second_run_tracks(lib, dir, ls, j - 1);
        let e = emitted_upto(lib, dir, ls, j - 1);
        let s = embed_upto(lib, dir, ls, j - 1);
        let line = ls[j - 1];
        if opens_material(line) {
            lemma_second_run_flush_lines(lib, dir, e, s);
            let x = e + flush_lines(lib, dir, s);
            lemma_second_run_line(lib, dir, x, line, s);
        } else {
            assert(e + Seq::<Seq<char>>::empty() =~= e);
            lemma_second_run_line(lib, dir, e, line, s);
        }
    }
}

/// Embedding is idempotent: run again on its own output, with the same library, it gives the
/// same text back and adds nothing, provided the library's paths make one-line, non-blank
/// `map_Kd` lines (see `library_paths_ok`).
pub proof fn lemma_embed_idempotent(mtl: Seq<char>, lib: Seq<LibraryEntry>, dir: Seq<char>)
    requires
        library_paths_ok(lib, dir),
    ensures
        embed_spec(embed_spec(mtl, lib, dir).0, lib, dir) == (embed_spec(mtl, lib, dir).0, 0nat),
{
    let ls = lines_of(mtl);
    let n = ls.len() as int;
    lemma_lines_one_line(mtl);
    let e = emitted_upto(lib, dir, ls, n);
    let s = embed_upto(lib, dir, ls, n);
    let f = flush_lines(lib, dir, s);
    let all = e + f;
    lemma_first_run_out(lib, dir, ls, n);
    lemma_flush(lib, dir, s);
    lemma_join_crlf_append(e, f);
    let out1 = embed_spec(mtl, lib, dir).0;
    assert(out1 == join_crlf(all));
    lemma_emitted_one_line(lib, dir, ls, n);
    lemma_flush_lines_one_line(lib, dir, s);
    assert forall|i: int| 0 <= i < all.len() implies one_line(#[trigger] all[i]) by {
        if i < e.len() {
            assert(all[i] == e[i]);
        } else {
            assert(all[i] == f[i - e.len()]);
        }
    }
    lemma_lines_of_join(all);
    lemma_second_run_tracks(lib, dir, ls, n);
    lemma_second_run_flush_lines(lib, dir, e, s);
    let u = embed_upto(lib, dir, all, all.len() as int);
    lemma_flush(lib, dir, u);
    assert(join_crlf(flush_lines(lib, dir, u)) =~= Seq::<char>::empty());
    assert(embed_flush(lib, dir, u).out =~= u.out);
}

} // verus!
