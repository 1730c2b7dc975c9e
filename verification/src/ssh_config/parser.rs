//! Line-preserving parser and renderer for `ssh_config` text.
//!
//! The file is split into lines that keep their own terminators. A line whose first word is
//! `Host` or `Match` (in any ASCII case) starts a new block; everything before the first such
//! line is a raw preamble. A `Host` line with exactly one pattern and no wildcard or negation
//! starts a [`ManagedBlock`] whose lines are classified as known directives or opaque lines;
//! blank lines at the end of such a block are kept apart, as raw lines. Every other block is
//! kept raw. Rendering concatenates all lines, so `render(parse(t)) == t` for every text `t`.

use vstd::prelude::*;

use super::model::{
    all_lines, lemma_all_lines_concat, lemma_all_lines_one, lines_view, raw_view, render_view,
    seg_lines, segs_view, BlockLine, BlockView, KnownDirective, LineView, ManagedBlock, RawLine,
    SegView, Segment,
};
use crate::text::{
    all_ws, eq_ignore_case, eq_ignore_case_exec, first_word, first_word_bounds,
    is_blank, lead_ws, lead_ws_len, lemma_lead_ws, lemma_line_len, lemma_lines_flatten, lemma_tok_len,
    line_len, lines_of,
    split_lines, string_of, strip_terminator, subvec, tok_end, tok_len, trim_start, words,
};

verus! {

pub open spec fn vecs_view(v: Seq<Vec<char>>) -> Seq<Seq<char>> {
    v.map_values(|x: Vec<char>| x@)
}

// ----------------------------------------------------------------------------------------------
// Classification
// ----------------------------------------------------------------------------------------------

/// A line that starts a new block: its first word is `Host` or `Match`.
pub open spec fn is_header(line: Seq<char>) -> bool {
    let w = first_word(strip_terminator(line));
    eq_ignore_case(w, "host"@) || eq_ignore_case(w, "match"@)
}

/// A host pattern with no wildcard (`*`, `?`) and no negation (`!`).
pub open spec fn plain_pattern(p: Seq<char>) -> bool {
    forall|i: int| 0 <= i < p.len() ==> #[trigger] p[i] != '*' && p[i] != '?' && p[i] != '!'
}

/// `Some(alias)` for a `Host <alias>` line with a single plain pattern.
pub open spec fn managed_alias(line: Seq<char>) -> Option<Seq<char>> {
    let ws = words(strip_terminator(line));
    if ws.len() == 2 && eq_ignore_case(ws[0], "host"@) && plain_pattern(ws[1]) {
        Some(ws[1])
    } else {
        None
    }
}

/// The known directive a block line sets, judged by its first word.
pub open spec fn directive_of(line: Seq<char>) -> Option<KnownDirective> {
    let w = first_word(strip_terminator(line));
    if eq_ignore_case(w, "HostName"@) {
        Some(KnownDirective::HostName)
    } else if eq_ignore_case(w, "User"@) {
        Some(KnownDirective::User)
    } else if eq_ignore_case(w, "Port"@) {
        Some(KnownDirective::Port)
    } else if eq_ignore_case(w, "IdentityFile"@) {
        Some(KnownDirective::IdentityFile)
    } else if eq_ignore_case(w, "ProxyJump"@) {
        Some(KnownDirective::ProxyJump)
    } else {
        None
    }
}

pub open spec fn classify_line(line: Seq<char>) -> LineView {
    match directive_of(line) {
        Some(d) => LineView::Known(d, line),
        None => LineView::Other(line),
    }
}

// ----------------------------------------------------------------------------------------------
// Grouping lines into segments
// ----------------------------------------------------------------------------------------------

/// Number of leading lines that do not start a block.
pub open spec fn non_header_run(ls: Seq<Seq<char>>) -> nat
    decreases ls.len(),
{
    if ls.len() > 0 && !is_header(ls[0]) {
        1 + non_header_run(ls.drop_first())
    } else {
        0
    }
}

/// Number of trailing blank lines.
pub open spec fn trailing_blank(ls: Seq<Seq<char>>) -> nat
    decreases ls.len(),
{
    if ls.len() > 0 && all_ws(ls.last()) {
        1 + trailing_blank(ls.drop_last())
    } else {
        0
    }
}

/// The segments of one chunk: a first line and the lines up to the next block start.
pub open spec fn chunk_segs(chunk: Seq<Seq<char>>) -> Seq<SegView> {
    match managed_alias(chunk[0]) {
        Some(alias) => {
            let body = chunk.drop_first();
            let k = body.len() - trailing_blank(body);
            seq![
                SegView::Managed(
                    BlockView {
                        alias,
                        header: chunk[0],
                        lines: body.take(k).map_values(|l: Seq<char>| classify_line(l)),
                    },
                ),
            ] + if k < body.len() {
                seq![SegView::Raw(body.skip(k))]
            } else {
                Seq::empty()
            }
        },
        None => seq![SegView::Raw(chunk)],
    }
}

/// The segments of a sequence of lines.
pub open spec fn parse_lines(ls: Seq<Seq<char>>) -> Seq<SegView>
    decreases ls.len(),
{
    if ls.len() == 0 {
        Seq::empty()
    } else {
        let n = 1 + non_header_run(ls.drop_first());
        if n > ls.len() {
            Seq::empty()
        } else {
            chunk_segs(ls.take(n as int)) + parse_lines(ls.skip(n as int))
        }
    }
}

/// The segments of a file's text.
pub open spec fn parse_view(text: Seq<char>) -> Seq<SegView> {
    parse_lines(lines_of(text))
}

pub proof fn lemma_non_header_run(ls: Seq<Seq<char>>)
    ensures
        non_header_run(ls) <= ls.len(),
    decreases ls.len(),
{
    if ls.len() > 0 && !is_header(ls[0]) {
        lemma_non_header_run(ls.drop_first());
    }
}

proof fn lemma_non_header_run_is(ls: Seq<Seq<char>>, n: int)
    requires
        0 <= n <= ls.len(),
        forall|i: int| 0 <= i < n ==> !is_header(#[trigger] ls[i]),
        n < ls.len() ==> is_header(ls[n]),
    ensures
        non_header_run(ls) == n,
    decreases n,
{
    if n > 0 {
        assert forall|i: int| 0 <= i < n - 1 implies !is_header(#[trigger] ls.drop_first()[i]) by {
            assert(ls.drop_first()[i] == ls[i + 1]);
        }
        if n < ls.len() {
            assert(ls.drop_first()[n - 1] == ls[n]);
        }
        assert(!is_header(ls[0]));
        lemma_non_header_run_is(ls.drop_first(), n - 1);
    }
}

proof fn lemma_trailing_blank(ls: Seq<Seq<char>>)
    ensures
        trailing_blank(ls) <= ls.len(),
    decreases ls.len(),
{
    if ls.len() > 0 && all_ws(ls.last()) {
        lemma_trailing_blank(ls.drop_last());
    }
}

proof fn lemma_trailing_blank_is(ls: Seq<Seq<char>>, n: int)
    requires
        0 <= n <= ls.len(),
        forall|i: int| ls.len() - n <= i < ls.len() ==> all_ws(#[trigger] ls[i]),
        n < ls.len() ==> !all_ws(ls[ls.len() - n - 1]),
    ensures
        trailing_blank(ls) == n,
    decreases n,
{
    if n > 0 {
        let d = ls.drop_last();
        assert forall|i: int| d.len() - (n - 1) <= i < d.len() implies all_ws(#[trigger] d[i]) by {
            assert(d[i] == ls[i]);
        }
        if n < ls.len() {
            assert(d[d.len() - (n - 1) - 1] == ls[ls.len() - n - 1]);
        }
        assert(all_ws(ls.last()));
        lemma_trailing_blank_is(d, n - 1);
    }
}

// ----------------------------------------------------------------------------------------------
// Fidelity: rendering the parsed segments gives back the text
// ----------------------------------------------------------------------------------------------

proof fn lemma_chunk_lines(chunk: Seq<Seq<char>>)
    requires
        chunk.len() > 0,
    ensures
        all_lines(chunk_segs(chunk)) == chunk,
{
    match managed_alias(chunk[0]) {
        Some(alias) => {
            let body = chunk.drop_first();
            lemma_trailing_blank(body);
            let k = body.len() - trailing_blank(body);
            let b = BlockView {
                alias,
                header: chunk[0],
                lines: body.take(k).map_values(|l: Seq<char>| classify_line(l)),
            };
            let m = SegView::Managed(b);
            assert(b.lines.map_values(|l: LineView| l.text()) =~= body.take(k));
            if k < body.len() {
                let r = SegView::Raw(body.skip(k));
                lemma_all_lines_concat(seq![m], seq![r]);
                lemma_all_lines_one(m);
                lemma_all_lines_one(r);
                assert(chunk_segs(chunk) =~= seq![m] + seq![r]);
                assert(seq![chunk[0]] + body.take(k) + body.skip(k) =~= chunk);
            } else {
                lemma_all_lines_one(m);
                assert(chunk_segs(chunk) =~= seq![m]);
                assert(seq![chunk[0]] + body.take(k) =~= chunk);
            }
        },
        None => {
            lemma_all_lines_one(SegView::Raw(chunk));
        },
    }
}

pub proof fn lemma_parse_lines_lines(ls: Seq<Seq<char>>)
    ensures
        all_lines(parse_lines(ls)) == ls,
    decreases ls.len(),
{
    if ls.len() > 0 {
        lemma_non_header_run(ls.drop_first());
        let n = 1 + non_header_run(ls.drop_first());
        lemma_chunk_lines(ls.take(n as int));
        lemma_parse_lines_lines(ls.skip(n as int));
        lemma_all_lines_concat(chunk_segs(ls.take(n as int)), parse_lines(ls.skip(n as int)));
        assert(ls.take(n as int) + ls.skip(n as int) =~= ls);
    } else {
        assert(all_lines(parse_lines(ls)) =~= ls);
    }
}

/// No raw segment of a parse is empty.
pub proof fn lemma_parse_lines_raw(ls: Seq<Seq<char>>)
    ensures
        forall|i: int|
            0 <= i < parse_lines(ls).len() ==> (#[trigger] parse_lines(ls)[i] matches SegView::Raw(r)
                ==> r.len() > 0),
    decreases ls.len(),
{
    if ls.len() > 0 {
        lemma_non_header_run(ls.drop_first());
        let n = 1 + non_header_run(ls.drop_first());
        let chunk = ls.take(n as int);
        lemma_parse_lines_raw(ls.skip(n as int));
        let c = chunk_segs(chunk);
        let rest = parse_lines(ls.skip(n as int));
        assert(parse_lines(ls) == c + rest);
        assert forall|i: int| 0 <= i < c.len() implies (#[trigger] c[i] matches SegView::Raw(r) ==> r.len()
            > 0) by {
            match managed_alias(chunk[0]) {
                Some(alias) => {
                    let body = chunk.drop_first();
                    lemma_trailing_blank(body);
                },
                None => {},
            }
        }
        assert forall|i: int| 0 <= i < parse_lines(ls).len() implies (#[trigger] parse_lines(ls)[i] matches SegView::Raw(
            r,
        ) ==> r.len() > 0) by {
            if i < c.len() {
                assert(parse_lines(ls)[i] == c[i]);
            } else {
                assert(parse_lines(ls)[i] == rest[i - c.len()]);
            }
        }
    }
}

/// Every line of a text holds at least one character.
pub proof fn lemma_lines_nonempty(s: Seq<char>)
    ensures
        forall|i: int| 0 <= i < lines_of(s).len() ==> (#[trigger] lines_of(s)[i]).len() > 0,
        lines_of(s).len() == 0 <==> s.len() == 0,
    decreases s.len(),
{
    lemma_line_len(s);
    if s.len() > 0 {
        let k = line_len(s) as int;
        lemma_lines_nonempty(s.skip(k));
        assert forall|i: int| 0 <= i < lines_of(s).len() implies (#[trigger] lines_of(s)[i]).len() > 0 by {
            if i > 0 {
                assert(lines_of(s)[i] == lines_of(s.skip(k))[i - 1]);
            }
        }
    }
}

/// Parsing never loses or alters a byte: rendering the segments of any text gives the text back.
pub proof fn lemma_render_parse(text: Seq<char>)
    ensures
        render_view(parse_view(text)) == text,
{
    lemma_parse_lines_lines(lines_of(text));
    lemma_lines_flatten(text);
}

// ----------------------------------------------------------------------------------------------
// Executable parser
// ----------------------------------------------------------------------------------------------

// ----------------------------------------------------------------------------------------------
// Blocks end where the next one starts
// ----------------------------------------------------------------------------------------------

proof fn lemma_non_header_prefix(ls: Seq<Seq<char>>)
    ensures
        forall|i: int| 0 <= i < non_header_run(ls) ==> !is_header(#[trigger] ls[i]),
    decreases ls.len(),
{
    if ls.len() > 0 && !is_header(ls[0]) {
        lemma_non_header_run(ls);
        lemma_non_header_prefix(ls.drop_first());
        assert forall|i: int| 0 <= i < non_header_run(ls) implies !is_header(#[trigger] ls[i]) by {
            if i > 0 {
                assert(ls[i] == ls.drop_first()[i - 1]);
            }
        }
    }
}

/// Only a segment's first line may open a block, and a rewritable block opens with a
/// single-pattern `Host` line.
spec fn rest_plain(s: SegView) -> bool {
    &&& forall|j: int| 1 <= j < seg_lines(s).len() ==> !is_header(#[trigger] seg_lines(s)[j])
    &&& s matches SegView::Managed(b) ==> managed_alias(b.header) is Some
}

proof fn lemma_chunk_plain(chunk: Seq<Seq<char>>)
    requires
        chunk.len() > 0,
        forall|j: int| 1 <= j < chunk.len() ==> !is_header(#[trigger] chunk[j]),
    ensures
        forall|i: int| 0 <= i < chunk_segs(chunk).len() ==> rest_plain(#[trigger] chunk_segs(chunk)[i]),
{
    match managed_alias(chunk[0]) {
        Some(alias) => {
            let body = chunk.drop_first();
            lemma_trailing_blank(body);
            let k = body.len() - trailing_blank(body);
            let b = BlockView {
                alias,
                header: chunk[0],
                lines: body.take(k).map_values(|l: Seq<char>| classify_line(l)),
            };
            let m = SegView::Managed(b);
            assert(b.lines.map_values(|l: LineView| l.text()) =~= body.take(k));
            assert(seg_lines(m) =~= seq![chunk[0]] + body.take(k));
            assert forall|j: int| 1 <= j < seg_lines(m).len() implies !is_header(#[trigger] seg_lines(m)[j]) by {
                assert(seg_lines(m)[j] == chunk[j]);
            }
            assert(rest_plain(m));
            if k < body.len() {
                let r = SegView::Raw(body.skip(k));
                assert forall|j: int| 1 <= j < seg_lines(r).len() implies !is_header(#[trigger] seg_lines(r)[j]) by {
                    assert(seg_lines(r)[j] == chunk[k + j + 1]);
                }
                assert(chunk_segs(chunk) =~= seq![m, r]);
            } else {
                assert(chunk_segs(chunk) =~= seq![m]);
            }
        },
        None => {
            assert(chunk_segs(chunk) =~= seq![SegView::Raw(chunk)]);
            assert(rest_plain(SegView::Raw(chunk)));
        },
    }
}

proof fn lemma_parse_lines_plain(ls: Seq<Seq<char>>)
    ensures
        forall|i: int| 0 <= i < parse_lines(ls).len() ==> rest_plain(#[trigger] parse_lines(ls)[i]),
    decreases ls.len(),
{
    if ls.len() > 0 {
        let t = ls.drop_first();
        lemma_non_header_run(t);
        lemma_non_header_prefix(t);
        let n = 1 + non_header_run(t);
        let chunk = ls.take(n as int);
        assert forall|j: int| 1 <= j < chunk.len() implies !is_header(#[trigger] chunk[j]) by {
            assert(chunk[j] == t[j - 1]);
        }
        lemma_chunk_plain(chunk);
        lemma_parse_lines_plain(ls.skip(n as int));
        let a = chunk_segs(chunk);
        let r = parse_lines(ls.skip(n as int));
        assert(parse_lines(ls) == a + r);
        assert forall|i: int| 0 <= i < parse_lines(ls).len() implies rest_plain(#[trigger] parse_lines(ls)[i]) by {
            if i < a.len() {
                assert(parse_lines(ls)[i] == a[i]);
            } else {
                assert(parse_lines(ls)[i] == r[i - a.len()]);
            }
        }
    }
}

/// A line whose first word is `Host` or `Match` (in any ASCII case) always starts a segment of
/// its own: no later line of any parsed segment, and no line of a rewritable block's body, is
/// such a line; and a rewritable block always opens with a `Host` line, so a `Match` line opens
/// a raw segment. A `Match` block is thus never read or rewritten as part of a host's block.
pub proof fn law_blocks_stop_at_headers(text: Seq<char>)
    ensures
        forall|i: int|
            0 <= i < parse_view(text).len() && #[trigger] parse_view(text)[i] is Managed ==> eq_ignore_case(
                first_word(strip_terminator(parse_view(text)[i]->Managed_0.header)),
                "host"@,
            ),
        forall|i: int, j: int|
            0 <= i < parse_view(text).len() && 1 <= j < seg_lines(parse_view(text)[i]).len() ==> {
                let w = first_word(strip_terminator(#[trigger] seg_lines(parse_view(text)[i])[j]));
                !eq_ignore_case(w, "host"@) && !eq_ignore_case(w, "match"@)
            },
        forall|i: int, j: int|
            0 <= i < parse_view(text).len() && #[trigger] parse_view(text)[i] is Managed && 0 <= j
                < parse_view(text)[i]->Managed_0.lines.len() ==> {
                let w = first_word(
                    strip_terminator(#[trigger] parse_view(text)[i]->Managed_0.lines[j].text()),
                );
                !eq_ignore_case(w, "host"@) && !eq_ignore_case(w, "match"@)
            },
{
    let segs = parse_view(text);
    lemma_parse_lines_plain(lines_of(text));
    assert forall|i: int, j: int|
        0 <= i < segs.len() && 1 <= j < seg_lines(segs[i]).len() implies {
            let w = first_word(strip_terminator(#[trigger] seg_lines(segs[i])[j]));
            !eq_ignore_case(w, "host"@) && !eq_ignore_case(w, "match"@)
        } by {
        assert(rest_plain(segs[i]));
        assert(!is_header(seg_lines(segs[i])[j]));
    }
    assert forall|i: int, j: int|
        0 <= i < segs.len() && #[trigger] segs[i] is Managed && 0 <= j < segs[i]->Managed_0.lines.len() implies {
            let w = first_word(strip_terminator(#[trigger] segs[i]->Managed_0.lines[j].text()));
            !eq_ignore_case(w, "host"@) && !eq_ignore_case(w, "match"@)
        } by {
        let b = segs[i]->Managed_0;
        assert(rest_plain(segs[i]));
        assert(seg_lines(segs[i])[j + 1] == b.lines.map_values(|l: LineView| l.text())[j]);
        assert(!is_header(seg_lines(segs[i])[j + 1]));
    }
    assert forall|i: int| 0 <= i < segs.len() && #[trigger] segs[i] is Managed implies eq_ignore_case(
        first_word(strip_terminator(segs[i]->Managed_0.header)),
        "host"@,
    ) by {
        assert(rest_plain(segs[i]));
        let c = strip_terminator(segs[i]->Managed_0.header);
        lemma_words_step(c);
        assert(words(c).len() == 2);
        assert(words(c)[0] == first_word(c));
    }
}

/// The line without its terminator.
pub fn content_of(line: &Vec<char>) -> (res: Vec<char>)
    ensures
        res@ == strip_terminator(line@),
{
    let n = line.len();
    if n >= 2 && line[n - 1] == '\n' && line[n - 2] == '\r' {
        subvec(line, 0, n - 2)
    } else if n >= 1 && line[n - 1] == '\n' {
        subvec(line, 0, n - 1)
    } else {
        subvec(line, 0, n)
    }
}

fn first_word_of(line: &Vec<char>) -> (w: Vec<char>)
    ensures
        w@ == first_word(strip_terminator(line@)),
{
    let c = content_of(line);
    let (a, b) = first_word_bounds(&c);
    subvec(&c, a, b)
}

pub fn is_header_exec(line: &Vec<char>) -> (r: bool)
    ensures
        r == is_header(line@),
{
    let w = first_word_of(line);
    eq_ignore_case_exec(&w, "host") || eq_ignore_case_exec(&w, "match")
}

pub fn directive_of_exec(line: &Vec<char>) -> (r: Option<KnownDirective>)
    ensures
        r == directive_of(line@),
{
    let w = first_word_of(line);
    if eq_ignore_case_exec(&w, "HostName") {
        Some(KnownDirective::HostName)
    } else if eq_ignore_case_exec(&w, "User") {
        Some(KnownDirective::User)
    } else if eq_ignore_case_exec(&w, "Port") {
        Some(KnownDirective::Port)
    } else if eq_ignore_case_exec(&w, "IdentityFile") {
        Some(KnownDirective::IdentityFile)
    } else if eq_ignore_case_exec(&w, "ProxyJump") {
        Some(KnownDirective::ProxyJump)
    } else {
        None
    }
}

proof fn lemma_words_step(s: Seq<char>)
    ensures
        lead_ws(s) <= s.len(),
        ({
            let t = trim_start(s);
            let k = tok_len(t);
            &&& t.len() == 0 ==> words(s) == Seq::<Seq<char>>::empty()
            &&& t.len() > 0 ==> 0 < k <= t.len() && words(s) == seq![t.take(k as int)] + words(
                t.skip(k as int),
            )
        }),
{
    lemma_lead_ws(s);
    let t = trim_start(s);
    lemma_tok_len(t);
    if t.len() > 0 {
        assert(t[0] == s[lead_ws(s) as int]);
    }
}

/// `str::split_whitespace`, collected.
pub fn split_words(v: &Vec<char>) -> (res: Vec<Vec<char>>)
    ensures
        vecs_view(res@) == words(v@),
{
    let mut out: Vec<Vec<char>> = Vec::new();
    let mut pos: usize = 0;
    assert(v@.skip(0) =~= v@);
    assert(vecs_view(out@) + words(v@) =~= words(v@));
    loop
        invariant
            pos <= v.len(),
            vecs_view(out@) + words(v@.skip(pos as int)) == words(v@),
        decreases v.len() - pos,
    {
        let ghost s = v@.skip(pos as int);
        let a = lead_ws_len(v, pos);
        proof {
            lemma_words_step(s);
            assert(trim_start(s) =~= v@.skip(a as int));
        }
        if a == v.len() {
            proof {
                assert(vecs_view(out@) + Seq::<Seq<char>>::empty() =~= vecs_view(out@));
            }
            return out;
        }
        let b = tok_end(v, a);
        let w = subvec(v, a, b);
        proof {
            let t = v@.skip(a as int);
            assert(t.take(tok_len(t) as int) =~= w@);
            assert(t.skip(tok_len(t) as int) =~= v@.skip(b as int));
        }
        let ghost old_out = vecs_view(out@);
        out.push(w);
        proof {
            assert(vecs_view(out@) =~= old_out.push(w@));
            assert(vecs_view(out@) + words(v@.skip(b as int)) =~= old_out + words(s));
        }
        pos = b;
    }
}

fn plain_pattern_exec(p: &Vec<char>) -> (r: bool)
    ensures
        r == plain_pattern(p@),
{
    let mut i: usize = 0;
    while i < p.len()
        invariant
            i <= p.len(),
            forall|j: int| 0 <= j < i ==> #[trigger] p@[j] != '*' && p@[j] != '?' && p@[j] != '!',
        decreases p.len() - i,
    {
        if p[i] == '*' || p[i] == '?' || p[i] == '!' {
            return false;
        }
        i += 1;
    }
    true
}

pub fn managed_alias_exec(line: &Vec<char>) -> (r: Option<Vec<char>>)
    ensures
        match r {
            Some(a) => managed_alias(line@) == Some(a@),
            None => managed_alias(line@) is None,
        },
{
    let c = content_of(line);
    let ws = split_words(&c);
    proof {
        assert(vecs_view(ws@).len() == ws@.len());
    }
    if ws.len() == 2 {
        proof {
            assert(vecs_view(ws@)[0] == ws@[0]@);
            assert(vecs_view(ws@)[1] == ws@[1]@);
        }
        if eq_ignore_case_exec(&ws[0], "host") && plain_pattern_exec(&ws[1]) {
            let n = ws[1].len();
            return Some(subvec(&ws[1], 0, n));
        }
    }
    None
}

fn raw_lines(lines: &Vec<Vec<char>>, from: usize, to: usize) -> (res: Vec<RawLine>)
    requires
        from <= to <= lines.len(),
    ensures
        raw_view(res@) == vecs_view(lines@).subrange(from as int, to as int),
{
    let mut out: Vec<RawLine> = Vec::new();
    let mut i = from;
    while i < to
        invariant
            from <= i <= to <= lines.len(),
            raw_view(out@) == vecs_view(lines@).subrange(from as int, i as int),
        decreases to - i,
    {
        let ghost old_out = raw_view(out@);
        out.push(RawLine(string_of(lines[i].as_slice())));
        proof {
            assert(raw_view(out@) =~= old_out.push(lines@[i as int]@));
            assert(vecs_view(lines@).subrange(from as int, i + 1) =~= vecs_view(lines@).subrange(
                from as int,
                i as int,
            ).push(lines@[i as int]@));
        }
        i += 1;
    }
    out
}

fn block_lines_of(lines: &Vec<Vec<char>>, from: usize, to: usize) -> (res: Vec<BlockLine>)
    requires
        from <= to <= lines.len(),
    ensures
        lines_view(res@) == vecs_view(lines@).subrange(from as int, to as int).map_values(
            |l: Seq<char>| classify_line(l),
        ),
{
    let mut out: Vec<BlockLine> = Vec::new();
    let mut i = from;
    while i < to
        invariant
            from <= i <= to <= lines.len(),
            lines_view(out@) == vecs_view(lines@).subrange(from as int, i as int).map_values(
                |l: Seq<char>| classify_line(l),
            ),
        decreases to - i,
    {
        let ghost old_out = lines_view(out@);
        let text = RawLine(string_of(lines[i].as_slice()));
        let bl = match directive_of_exec(&lines[i]) {
            Some(d) => BlockLine::Known { directive: d, line: text },
            None => BlockLine::Other(text),
        };
        out.push(bl);
        proof {
            assert(lines_view(out@) =~= old_out.push(classify_line(lines@[i as int]@)));
            assert(vecs_view(lines@).subrange(from as int, i + 1).map_values(
                |l: Seq<char>| classify_line(l),
            ) =~= vecs_view(lines@).subrange(from as int, i as int).map_values(
                |l: Seq<char>| classify_line(l),
            ).push(classify_line(lines@[i as int]@)));
        }
        i += 1;
    }
    out
}

fn push_chunk(segs: &mut Vec<Segment>, lines: &Vec<Vec<char>>, from: usize, to: usize)
    requires
        from < to <= lines.len(),
    ensures
        segs_view(final(segs)@) == segs_view(old(segs)@) + chunk_segs(
            vecs_view(lines@).subrange(from as int, to as int),
        ),
{
    let ghost chunk = vecs_view(lines@).subrange(from as int, to as int);
    let ghost old_view = segs_view(segs@);
    proof {
        assert(chunk[0] == lines@[from as int]@);
    }
    match managed_alias_exec(&lines[from]) {
        Some(alias) => {
            let mut k = to;
            while k > from + 1 && is_blank(&lines[k - 1])
                invariant
                    from + 1 <= k <= to <= lines.len(),
                    forall|j: int| k <= j < to ==> all_ws(#[trigger] lines@[j]@),
                decreases k,
            {
                k -= 1;
            }
            let ghost body = chunk.drop_first();
            proof {
                assert(body =~= vecs_view(lines@).subrange(from + 1, to as int));
                assert forall|j: int| body.len() - (to - k) <= j < body.len() implies all_ws(
                    #[trigger] body[j],
                ) by {
                    assert(body[j] == lines@[from + 1 + j]@);
                }
                if k > from + 1 {
                    assert(body[body.len() - (to - k) - 1] == lines@[k - 1]@);
                }
                lemma_trailing_blank_is(body, (to - k) as int);
                assert(body.take(k - from - 1) =~= vecs_view(lines@).subrange(from + 1, k as int));
                assert(body.skip(k - from - 1) =~= vecs_view(lines@).subrange(k as int, to as int));
            }
            let block = ManagedBlock {
                alias: string_of(alias.as_slice()),
                header: RawLine(string_of(lines[from].as_slice())),
                lines: block_lines_of(lines, from + 1, k),
            };
            let ghost bv = block@;
            segs.push(Segment::Managed(block));
            if k < to {
                let rest = raw_lines(lines, k, to);
                let ghost rv = raw_view(rest@);
                segs.push(Segment::Raw(rest));
                proof {
                    assert(segs_view(segs@) =~= old_view + seq![SegView::Managed(bv)] + seq![
                        SegView::Raw(rv),
                    ]);
                }
            } else {
                proof {
                    assert(segs_view(segs@) =~= old_view + seq![SegView::Managed(bv)]);
                }
            }
        },
        None => {
            let rest = raw_lines(lines, from, to);
            let ghost rv = raw_view(rest@);
            segs.push(Segment::Raw(rest));
            proof {
                assert(segs_view(segs@) =~= old_view + seq![SegView::Raw(rv)]);
            }
        },
    }
}

/// Parses the whole text of a config file.
pub fn parse(text: &str) -> (segs: Vec<Segment>)
    ensures
        segs_view(segs@) == parse_view(text@),
{
    let lines = split_lines(text);
    let ghost lv = vecs_view(lines@);
    proof {
        assert(lv =~= lines_of(text@));
    }
    let mut segs: Vec<Segment> = Vec::new();
    let mut i: usize = 0;
    assert(lv.skip(0) =~= lv);
    assert(segs_view(segs@) + parse_lines(lv) =~= parse_lines(lv));
    while i < lines.len()
        invariant
            i <= lines.len(),
            lv == vecs_view(lines@),
            lv == lines_of(text@),
            segs_view(segs@) + parse_lines(lv.skip(i as int)) == parse_lines(lv),
        decreases lines.len() - i,
    {
        let mut j = i + 1;
        while j < lines.len() && !is_header_exec(&lines[j])
            invariant
                i < j <= lines.len(),
                lv == vecs_view(lines@),
                forall|m: int| i < m < j ==> !is_header(#[trigger] lv[m]),
            decreases lines.len() - j,
        {
            j += 1;
        }
        let ghost rest = lv.skip(i as int);
        proof {
            let tail = rest.drop_first();
            assert forall|m: int| 0 <= m < j - i - 1 implies !is_header(#[trigger] tail[m]) by {
                assert(tail[m] == lv[i + 1 + m]);
            }
            if j < lines.len() {
                assert(tail[j - i - 1] == lv[j as int]);
            }
            lemma_non_header_run_is(tail, j - i - 1);
            assert(rest.take(j - i) =~= lv.subrange(i as int, j as int));
            assert(rest.skip(j - i) =~= lv.skip(j as int));
        }
        let ghost before = segs_view(segs@);
        push_chunk(&mut segs, &lines, i, j);
        proof {
            assert(parse_lines(rest) == chunk_segs(lv.subrange(i as int, j as int)) + parse_lines(
                lv.skip(j as int),
            ));
            assert(segs_view(segs@) + parse_lines(lv.skip(j as int)) =~= before + parse_lines(rest));
        }
        i = j;
    }
    proof {
        assert(lv.skip(i as int) =~= Seq::<Seq<char>>::empty());
        assert(segs_view(segs@) + Seq::<SegView>::empty() =~= segs_view(segs@));
    }
    segs
}

/// Renders segments back to text: every line, verbatim, in order.
pub fn render(segments: &Vec<Segment>) -> (text: String)
    ensures
        text@ == render_view(segs_view(segments@)),
{
    let mut out = String::new();
    let mut i: usize = 0;
    let ghost sv = segs_view(segments@);
    while i < segments.len()
        invariant
            i <= segments.len(),
            sv == segs_view(segments@),
            out@ == all_lines(sv.take(i as int)).flatten(),
        decreases segments.len() - i,
    {
        let ghost before = out@;
        let ghost sl = seg_lines(sv[i as int]);
        match &segments[i] {
            Segment::Raw(lines) => {
                let mut j: usize = 0;
                while j < lines.len()
                    invariant
                        j <= lines.len(),
                        sl == raw_view(lines@),
                        out@ == before + sl.take(j as int).flatten(),
                    decreases lines.len() - j,
                {
                    out.append(lines[j].0.as_str());
                    proof {
                        assert(sl.take(j + 1) =~= sl.take(j as int).push(sl[j as int]));
                        sl.take(j as int).lemma_flatten_push(sl[j as int]);
                    }
                    j += 1;
                }
                proof {
                    assert(sl.take(lines.len() as int) =~= sl);
                }
            },
            Segment::Managed(block) => {
                out.append(block.header.0.as_str());
                proof {
                    assert(sl.take(1) =~= seq![block.header@]);
                    seq![block.header@].lemma_flatten_one_element();
                }
                let mut j: usize = 0;
                while j < block.lines.len()
                    invariant
                        j <= block.lines.len(),
                        sl == seg_lines(SegView::Managed(block@)),
                        sl.len() == block.lines.len() + 1,
                        out@ == before + sl.take(j + 1).flatten(),
                    decreases block.lines.len() - j,
                {
                    match &block.lines[j] {
                        BlockLine::Known { line, .. } => out.append(line.0.as_str()),
                        BlockLine::Other(line) => out.append(line.0.as_str()),
                    }
                    proof {
                        assert(sl[j + 1] == block.lines@[j as int]@.text());
                        assert(sl.take(j + 2) =~= sl.take(j + 1).push(sl[j + 1]));
                        sl.take(j + 1).lemma_flatten_push(sl[j + 1]);
                    }
                    j += 1;
                }
                proof {
                    assert(sl.take(block.lines.len() + 1) =~= sl);
                }
            },
        }
        proof {
            let a = sv.take(i as int);
            assert(sv.take(i + 1) =~= a + seq![sv[i as int]]);
            lemma_all_lines_concat(a, seq![sv[i as int]]);
            lemma_all_lines_one(sv[i as int]);
            vstd::seq_lib::lemma_flatten_concat(all_lines(a), sl);
        }
        i += 1;
    }
    proof {
        assert(sv.take(segments.len() as int) =~= sv);
    }
    out
}

} // verus!
