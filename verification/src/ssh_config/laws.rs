//! What the config model promises across operations: saving an unchanged file gives the same
//! bytes back, a host that was written is read back unchanged, editing touches only its own
//! block, a new host is appended after the existing text, every editable host has a block to
//! rewrite, writing the same host twice is writing it once, and a removed host is gone; the
//! same laws are stated over the listed hosts.

use vstd::prelude::*;

use super::all_read_only;
use super::host::{
    first_port, first_value, host_patterns, hosts_of, host_from_block, last_known,
    lemma_hosts_of_concat, lemma_hosts_of_one, opt_seq, other_lines, port_of, raw_host,
    seg_host, HostView,
};
use super::model::{
    all_lines, block_lines, lemma_all_lines_concat, lemma_all_lines_one, render_view, seg_lines,
    BlockView, KnownDirective, LineView, SegView,
};
use super::parser::{
    directive_of, lemma_lines_nonempty, lemma_parse_lines_lines, lemma_parse_lines_raw,
    lemma_render_parse, parse_view,
};
use super::writer::{
    apply_known, before_known, before_managed, extra_lines, is_known_as, is_managed_as,
    keyword_part, known_end, known_only, piece_lines, new_block_view, new_line, opt_line, port_text,
    push_raw, rewrite_view, terminate_last, terminated, terminator, upsert_renaming_view,
    upsert_view, with_value, ensure_appendable,
};
use crate::num::{decimal, is_digit, lemma_parse_decimal};
use crate::text::{
    all_ws, first_word, is_ws, join, lead_ws, lemma_join_split, lines_of, lemma_lead_ws, lemma_lead_ws_is,
    lemma_tok_len, lemma_tok_len_is, lemma_trail_ws_is, split_on, strip_terminator, tok_len,
    trim_start, value_of, words,
};

verus! {

/// Saving a config that was not changed writes back exactly the text that was read.
pub proof fn law_unchanged_config_roundtrips(text: Seq<char>)
    ensures
        render_view(parse_view(text)) == text,
{
    lemma_render_parse(text);
}

// ----------------------------------------------------------------------------------------------
// Vocabulary
// ----------------------------------------------------------------------------------------------

/// A value that reads back as written: no leading or trailing whitespace.
pub open spec fn clean(v: Seq<char>) -> bool {
    v.len() == 0 || (!is_ws(v[0]) && !is_ws(v.last()))
}

pub open spec fn clean_opt(v: Option<Seq<char>>) -> bool {
    match v {
        Some(v) => clean(v),
        None => true,
    }
}

/// A host whose fields can be written and read back verbatim: trimmed values and no carriage
/// return in the advanced-options text.
pub open spec fn clean_host(h: HostView) -> bool {
    &&& clean_opt(h.host_name)
    &&& clean_opt(h.user)
    &&& clean_opt(h.identity_file)
    &&& clean_opt(h.proxy_jump)
    &&& forall|i: int| 0 <= i < h.extra.len() ==> #[trigger] h.extra[i] != '\r'
}

/// A value that a line ending with `term` keeps when it is set again: its last character does
/// not merge with the terminator (a carriage return before `\n`, or a line break on a line
/// without one).
pub open spec fn keeps(v: Seq<char>, term: Seq<char>) -> bool {
    v.len() > 0 ==> {
        &&& term == seq!['\n'] ==> v.last() != '\r'
        &&& term.len() == 0 ==> v.last() != '\n'
    }
}

pub open spec fn keeps_opt(v: Option<Seq<char>>, term: Seq<char>) -> bool {
    match v {
        Some(v) => keeps(v, term),
        None => true,
    }
}

/// The terminator of the line that directive `d` is written on: that of its first line in `l`,
/// or `\n` for a new line.
pub open spec fn term_for(l: Seq<LineView>, d: KnownDirective) -> Seq<char> {
    if known_texts(l, d).len() > 0 {
        terminator(known_texts(l, d)[0])
    } else {
        seq!['\n']
    }
}

/// Every value of `h` is kept by the line it is written on over the lines `l`.
pub open spec fn kept_in(l: Seq<LineView>, h: HostView) -> bool {
    &&& keeps_opt(h.host_name, term_for(l, KnownDirective::HostName))
    &&& keeps_opt(h.user, term_for(l, KnownDirective::User))
    &&& keeps_opt(h.identity_file, term_for(l, KnownDirective::IdentityFile))
    &&& keeps_opt(h.proxy_jump, term_for(l, KnownDirective::ProxyJump))
}

/// A trimmed value is kept by every line.
proof fn lemma_clean_keeps(v: Option<Seq<char>>)
    ensures
        forall|term: Seq<char>| clean_opt(v) ==> #[trigger] keeps_opt(v, term),
{
    if let Some(x) = v {
        if clean(x) && x.len() > 0 {
            assert(is_ws('\r'));
            assert(is_ws('\n'));
        }
    }
}

/// The host as it reads back from its own rewritable block.
pub open spec fn as_saved(h: HostView) -> HostView {
    HostView {
        alias: h.alias,
        host_name: h.host_name,
        user: h.user,
        port: h.port,
        identity_file: h.identity_file,
        proxy_jump: h.proxy_jump,
        extra: h.extra,
        read_only: false,
    }
}

/// The texts of the lines that set `d`, in order.
pub open spec fn known_texts(l: Seq<LineView>, d: KnownDirective) -> Seq<Seq<char>>
    decreases l.len(),
{
    if l.len() == 0 {
        Seq::empty()
    } else {
        known_texts(l.drop_last(), d) + if is_known_as(l.last(), d) {
            seq![l.last().text()]
        } else {
            Seq::empty()
        }
    }
}

/// Every directive is set by at most one line, and each such line starts with a keyword.
pub open spec fn editable_lines(l: Seq<LineView>) -> bool {
    forall|d: KnownDirective|
        #![trigger known_texts(l, d)]
        known_texts(l, d).len() <= 1 && forall|k: int|
            0 <= k < known_texts(l, d).len() ==> first_word(
                strip_terminator(#[trigger] known_texts(l, d)[k]),
            ).len() > 0
}

pub open spec fn editable_block(b: BlockView) -> bool {
    editable_lines(b.lines)
}

// ----------------------------------------------------------------------------------------------
// Reading back one written line
// ----------------------------------------------------------------------------------------------

/// `p w v` with whitespace `p`, a keyword `w` and a clean value `v` reads as keyword `w` and
/// value `v`.
proof fn lemma_keyword_line(p: Seq<char>, w: Seq<char>, v: Seq<char>)
    requires
        all_ws(p),
        w.len() > 0,
        forall|i: int| 0 <= i < w.len() ==> !is_ws(#[trigger] w[i]),
    ensures
        first_word(p + w + seq![' '] + v) == w,
        clean(v) ==> value_of(p + w + seq![' '] + v) == v,
{
    let c = p + w + seq![' '] + v;
    assert forall|i: int| 0 <= i < p.len() implies is_ws(#[trigger] c[i]) by {
        assert(c[i] == p[i]);
    }
    assert(c[p.len() as int] == w[0]);
    lemma_lead_ws_is(c, p.len() as int);
    let t = trim_start(c);
    assert(t =~= w + seq![' '] + v);
    assert forall|i: int| 0 <= i < w.len() implies !is_ws(#[trigger] t[i]) by {
        assert(t[i] == w[i]);
    }
    assert(t[w.len() as int] == ' ');
    lemma_tok_len_is(t, w.len() as int);
    assert(t.take(w.len() as int) =~= w);
    if clean(v) {
        let x = t.skip(w.len() as int);
        assert(x =~= seq![' '] + v);
        if v.len() > 0 {
            assert(x[1] == v[0]);
        }
        assert forall|i: int| 0 <= i < 1 implies is_ws(#[trigger] x[i]) by {}
        lemma_lead_ws_is(x, 1);
        assert(x.skip(1) =~= v);
        if v.len() > 0 {
            assert(v[v.len() - 0 - 1] == v.last());
        }
        lemma_trail_ws_is(v, 0);
        assert(v.take(v.len() as int) =~= v);
    }
}

/// A line and its terminator.
proof fn lemma_strip(t: Seq<char>)
    ensures
        t == strip_terminator(t) + terminator(t),
        terminator(t) == Seq::<char>::empty() || terminator(t) == seq!['\n'] || terminator(t)
            == seq!['\r', '\n'],
        strip_terminator(t).len() <= t.len(),
{
    let c = strip_terminator(t);
    assert(t =~= c + t.skip(c.len() as int));
    if t.len() >= 2 && t[t.len() - 1] == '\n' && t[t.len() - 2] == '\r' {
        assert(t.skip(c.len() as int) =~= seq!['\r', '\n']);
    } else if t.len() >= 1 && t[t.len() - 1] == '\n' {
        assert(t.skip(c.len() as int) =~= seq!['\n']);
    } else {
        assert(t.skip(c.len() as int) =~= Seq::<char>::empty());
    }
}

/// The content of `x + term` is `x`, for a line terminator `term` that the end of `x` does not
/// merge with.
proof fn lemma_strip_of(x: Seq<char>, term: Seq<char>)
    requires
        term == Seq::<char>::empty() || term == seq!['\n'] || term == seq!['\r', '\n'],
        x.len() > 0,
        term.len() == 0 ==> x.last() != '\n',
        term == seq!['\n'] ==> x.last() != '\r',
    ensures
        strip_terminator(x + term) == x,
{
    let n = x + term;
    if term.len() == 2 {
        assert(n.take(n.len() - 2) =~= x);
    } else if term.len() == 1 {
        assert(n[n.len() - 2] == x.last());
        assert(n.take(n.len() - 1) =~= x);
    } else {
        assert(n =~= x);
    }
}

/// Replacing the value of a keyword line keeps its keyword; a trimmed value reads back as it
/// was written.
proof fn lemma_with_value(t: Seq<char>, v: Seq<char>)
    requires
        first_word(strip_terminator(t)).len() > 0,
        keeps(v, terminator(t)),
    ensures
        first_word(strip_terminator(with_value(t, v))) == first_word(strip_terminator(t)),
        clean(v) ==> value_of(strip_terminator(with_value(t, v))) == v,
{
    let c = strip_terminator(t);
    lemma_strip(t);
    lemma_lead_ws(c);
    let l = lead_ws(c);
    let ts = c.skip(l as int);
    lemma_tok_len(ts);
    let k = tok_len(ts);
    let w = first_word(c);
    assert(trim_start(c) == ts);
    assert(w =~= ts.take(k as int));
    let p = c.take(l as int);
    assert(keyword_part(t) =~= p + w);
    assert forall|i: int| 0 <= i < p.len() implies is_ws(#[trigger] p[i]) by {
        assert(p[i] == c[i]);
    }
    assert forall|i: int| 0 <= i < w.len() implies !is_ws(#[trigger] w[i]) by {
        assert(w[i] == ts[i]);
    }
    let x = p + w + seq![' '] + v;
    assert(with_value(t, v) =~= x + terminator(t));
    if v.len() > 0 {
        assert(x.last() == v.last());
    } else {
        assert(x.last() == ' ');
    }
    lemma_strip_of(x, terminator(t));
    lemma_keyword_line(p, w, v);
}

/// A line `p w v` plus terminator, with whitespace `p`, a keyword `w` and a value `v` that the
/// terminator keeps, is left as it is when its value is set to `v` again.
proof fn lemma_written_form(p: Seq<char>, w: Seq<char>, v: Seq<char>, term: Seq<char>)
    requires
        all_ws(p),
        w.len() > 0,
        forall|i: int| 0 <= i < w.len() ==> !is_ws(#[trigger] w[i]),
        keeps(v, term),
        term == Seq::<char>::empty() || term == seq!['\n'] || term == seq!['\r', '\n'],
    ensures
        with_value(p + w + seq![' '] + v + term, v) == p + w + seq![' '] + v + term,
{
    let x = p + w + seq![' '] + v;
    let t = x + term;
    if v.len() > 0 {
        assert(x.last() == v.last());
    } else {
        assert(x.last() == ' ');
    }
    lemma_strip_of(x, term);
    assert(terminator(t) =~= term);
    assert forall|i: int| 0 <= i < p.len() implies is_ws(#[trigger] x[i]) by {
        assert(x[i] == p[i]);
    }
    assert(x[p.len() as int] == w[0]);
    lemma_lead_ws_is(x, p.len() as int);
    let rest = x.skip(p.len() as int);
    assert(rest =~= w + seq![' '] + v);
    assert forall|i: int| 0 <= i < w.len() implies !is_ws(#[trigger] rest[i]) by {
        assert(rest[i] == w[i]);
    }
    assert(rest[w.len() as int] == ' ');
    lemma_tok_len_is(rest, w.len() as int);
    assert(keyword_part(t) =~= p + w);
    assert(with_value(t, v) =~= t);
}

/// Setting a value twice gives the line of setting it once.
proof fn lemma_with_value_fixed(t: Seq<char>, v: Seq<char>)
    requires
        first_word(strip_terminator(t)).len() > 0,
        keeps(v, terminator(t)),
    ensures
        with_value(with_value(t, v), v) == with_value(t, v),
{
    let c = strip_terminator(t);
    lemma_strip(t);
    lemma_lead_ws(c);
    let l = lead_ws(c);
    let ts = c.skip(l as int);
    lemma_tok_len(ts);
    let k = tok_len(ts);
    let w = first_word(c);
    assert(trim_start(c) == ts);
    assert(w =~= ts.take(k as int));
    let p = c.take(l as int);
    assert(keyword_part(t) =~= p + w);
    assert forall|i: int| 0 <= i < p.len() implies is_ws(#[trigger] p[i]) by {
        assert(p[i] == c[i]);
    }
    assert forall|i: int| 0 <= i < w.len() implies !is_ws(#[trigger] w[i]) by {
        assert(w[i] == ts[i]);
    }
    assert(with_value(t, v) =~= p + w + seq![' '] + v + terminator(t));
    lemma_written_form(p, w, v, terminator(t));
}

/// A new directive line is left as it is when its value is set again.
proof fn lemma_new_line_fixed(d: KnownDirective, v: Seq<char>)
    requires
        keeps(v, seq!['\n']),
    ensures
        with_value(new_line(d, v), v) == new_line(d, v),
{
    reveal_strlit("    ");
    lemma_keyword_chars(d);
    let p = "    "@;
    assert forall|i: int| 0 <= i < p.len() implies is_ws(#[trigger] p[i]) by {}
    assert(new_line(d, v) =~= p + super::model::keyword_of(d) + seq![' '] + v + seq!['\n']);
    lemma_written_form(p, super::model::keyword_of(d), v, seq!['\n']);
}

proof fn lemma_keyword_chars(d: KnownDirective)
    ensures
        super::model::keyword_of(d).len() > 0,
        forall|i: int|
            0 <= i < super::model::keyword_of(d).len() ==> !is_ws(
                #[trigger] super::model::keyword_of(d)[i],
            ),
{
    reveal_strlit("HostName");
    reveal_strlit("User");
    reveal_strlit("Port");
    reveal_strlit("IdentityFile");
    reveal_strlit("ProxyJump");
}

/// A new directive line starts with its keyword and reads back a trimmed value.
proof fn lemma_new_line(d: KnownDirective, v: Seq<char>)
    requires
        keeps(v, seq!['\n']),
    ensures
        first_word(strip_terminator(new_line(d, v))) == super::model::keyword_of(d),
        clean(v) ==> value_of(strip_terminator(new_line(d, v))) == v,
{
    reveal_strlit("    ");
    let p = "    "@;
    let w = super::model::keyword_of(d);
    lemma_keyword_chars(d);
    let x = p + w + seq![' '] + v;
    assert(new_line(d, v) =~= x + seq!['\n']);
    if v.len() > 0 {
        assert(x.last() == v.last());
    } else {
        assert(x.last() == ' ');
    }
    lemma_strip_of(x, seq!['\n']);
    assert forall|i: int| 0 <= i < p.len() implies is_ws(#[trigger] p[i]) by {}
    lemma_keyword_line(p, w, v);
}

// ----------------------------------------------------------------------------------------------
// Lines of a directive
// ----------------------------------------------------------------------------------------------

proof fn lemma_last_known(l: Seq<LineView>, d: KnownDirective)
    ensures
        last_known(l, d) == if known_texts(l, d).len() == 0 {
            None
        } else {
            Some(value_of(strip_terminator(known_texts(l, d).last())))
        },
    decreases l.len(),
{
    if l.len() > 0 {
        lemma_last_known(l.drop_last(), d);
        if is_known_as(l.last(), d) {
            assert(known_texts(l, d).last() == l.last().text());
        } else {
            assert(known_texts(l, d) =~= known_texts(l.drop_last(), d));
        }
    }
}

proof fn lemma_known_texts_concat(a: Seq<LineView>, b: Seq<LineView>, d: KnownDirective)
    ensures
        known_texts(a + b, d) == known_texts(a, d) + known_texts(b, d),
    decreases b.len(),
{
    if b.len() == 0 {
        assert(a + b =~= a);
        assert(known_texts(a, d) + known_texts(b, d) =~= known_texts(a, d));
    } else {
        lemma_known_texts_concat(a, b.drop_last(), d);
        assert((a + b).drop_last() =~= a + b.drop_last());
        assert((a + b).last() == b.last());
        assert(known_texts(a + b, d) =~= known_texts(a, d) + known_texts(b, d));
    }
}

proof fn lemma_known_texts_none(l: Seq<LineView>, d: KnownDirective)
    requires
        forall|i: int| 0 <= i < l.len() ==> !is_known_as(#[trigger] l[i], d),
    ensures
        known_texts(l, d) == Seq::<Seq<char>>::empty(),
    decreases l.len(),
{
    if l.len() > 0 {
        assert forall|i: int| 0 <= i < l.len() - 1 implies !is_known_as(#[trigger] l.drop_last()[i], d) by {
            assert(l.drop_last()[i] == l[i]);
        }
        lemma_known_texts_none(l.drop_last(), d);
        assert(!is_known_as(l[l.len() - 1], d));
        assert(known_texts(l, d) =~= Seq::<Seq<char>>::empty());
    }
}

proof fn lemma_known_texts_one(x: LineView, d: KnownDirective)
    ensures
        known_texts(seq![x], d) == if is_known_as(x, d) {
            seq![x.text()]
        } else {
            Seq::<Seq<char>>::empty()
        },
{
    assert(seq![x].drop_last() =~= Seq::<LineView>::empty());
    assert(known_texts(seq![x].drop_last(), d) =~= Seq::<Seq<char>>::empty());
    assert(seq![x].last() == x);
    assert(known_texts(seq![x], d) =~= if is_known_as(x, d) {
        seq![x.text()]
    } else {
        Seq::<Seq<char>>::empty()
    });
}

proof fn lemma_before_known(l: Seq<LineView>, d: KnownDirective)
    ensures
        before_known(l, d) <= l.len(),
        forall|j: int| 0 <= j < before_known(l, d) ==> !is_known_as(#[trigger] l[j], d),
        before_known(l, d) < l.len() ==> is_known_as(l[before_known(l, d) as int], d),
    decreases l.len(),
{
    if l.len() > 0 && !is_known_as(l[0], d) {
        lemma_before_known(l.drop_first(), d);
        assert forall|j: int| 0 <= j < before_known(l, d) implies !is_known_as(#[trigger] l[j], d) by {
            if j > 0 {
                assert(l[j] == l.drop_first()[j - 1]);
            }
        }
        if before_known(l, d) < l.len() {
            assert(l[before_known(l, d) as int] == l.drop_first()[before_known(l, d) - 1]);
        }
    }
}

proof fn lemma_known_only(l: Seq<LineView>, d: KnownDirective)
    ensures
        known_texts(known_only(l), d) == known_texts(l, d),
        other_lines(known_only(l)) == Seq::<Seq<char>>::empty(),
    decreases l.len(),
{
    if l.len() > 0 {
        lemma_known_only(l.drop_last(), d);
        if l.last() is Known {
            let k = known_only(l.drop_last());
            assert(known_only(l).drop_last() =~= k);
            assert(known_only(l).last() == l.last());
        } else {
            assert(known_texts(l, d) =~= known_texts(l.drop_last(), d));
        }
    }
}

proof fn lemma_other_lines_concat(a: Seq<LineView>, b: Seq<LineView>)
    ensures
        other_lines(a + b) == other_lines(a) + other_lines(b),
    decreases b.len(),
{
    if b.len() == 0 {
        assert(a + b =~= a);
        assert(other_lines(a) + other_lines(b) =~= other_lines(a));
    } else {
        lemma_other_lines_concat(a, b.drop_last());
        assert((a + b).drop_last() =~= a + b.drop_last());
        assert((a + b).last() == b.last());
        assert(other_lines(a + b) =~= other_lines(a) + other_lines(b));
    }
}

/// Pieces of a split of a text without `\r` hold no `\r`.
proof fn lemma_split_no_cr(s: Seq<char>, c: char)
    requires
        forall|i: int| 0 <= i < s.len() ==> #[trigger] s[i] != '\r',
    ensures
        forall|k: int, i: int|
            0 <= k < split_on(s, c).len() && 0 <= i < split_on(s, c)[k].len() ==> #[trigger] split_on(
                s,
                c,
            )[k][i] != '\r',
    decreases s.len(),
{
    crate::text::lemma_before_char(s, c);
    let k0 = crate::text::before_char(s, c);
    if k0 < s.len() {
        let rest = s.skip(k0 + 1 as int);
        assert forall|i: int| 0 <= i < rest.len() implies #[trigger] rest[i] != '\r' by {
            assert(rest[i] == s[i + k0 + 1]);
        }
        lemma_split_no_cr(rest, c);
        assert forall|k: int, i: int|
            0 <= k < split_on(s, c).len() && 0 <= i < split_on(s, c)[k].len() implies #[trigger] split_on(
            s,
            c,
        )[k][i] != '\r' by {
            if k == 0 {
                assert(split_on(s, c)[0] == s.take(k0 as int));
                assert(s.take(k0 as int)[i] == s[i]);
            } else {
                assert(split_on(s, c)[k] == split_on(rest, c)[k - 1]);
            }
        }
    } else {
        assert forall|k: int, i: int|
            0 <= k < split_on(s, c).len() && 0 <= i < split_on(s, c)[k].len() implies #[trigger] split_on(
            s,
            c,
        )[k][i] != '\r' by {
            assert(split_on(s, c)[k] == s);
        }
    }
}

proof fn lemma_other_lines_pieces(ps: Seq<Seq<char>>)
    requires
        forall|k: int, i: int| 0 <= k < ps.len() && 0 <= i < ps[k].len() ==> #[trigger] ps[k][i] != '\r',
    ensures
        other_lines(piece_lines(ps)) == ps,
        forall|d: KnownDirective|
            #[trigger] known_texts(piece_lines(ps), d)
                == Seq::<Seq<char>>::empty(),
    decreases ps.len(),
{
    let m = piece_lines(ps);
    if ps.len() > 0 {
        let q = ps.drop_last();
        assert forall|k: int, i: int| 0 <= k < q.len() && 0 <= i < q[k].len() implies #[trigger] q[k][i] != '\r' by {
            assert(q[k] == ps[k]);
        }
        lemma_other_lines_pieces(q);
        assert(m.drop_last() =~= piece_lines(q));
        let last = ps.last();
        let x = last + seq!['\n'];
        assert(m.last() == LineView::Other(x));
        if last.len() > 0 {
            assert(last[last.len() - 1] != '\r');
            assert(x[x.len() - 2] == last[last.len() - 1]);
        }
        assert(x.take(x.len() - 1) =~= last);
        assert(strip_terminator(x) == last);
        assert(other_lines(m) =~= ps);
        assert forall|d: KnownDirective| #[trigger] known_texts(m, d) == Seq::<Seq<char>>::empty() by {
            assert(known_texts(m, d) =~= known_texts(m.drop_last(), d));
        }
    } else {
        assert(other_lines(m) =~= ps);
        assert forall|d: KnownDirective| #[trigger] known_texts(m, d) == Seq::<Seq<char>>::empty() by {}
    }
}

/// The advanced-options text reads back verbatim and sets no directive.
proof fn lemma_extra_lines(e: Seq<char>)
    requires
        forall|i: int| 0 <= i < e.len() ==> #[trigger] e[i] != '\r',
    ensures
        join(other_lines(extra_lines(e)), seq!['\n']) == e,
        forall|d: KnownDirective| #[trigger] known_texts(extra_lines(e), d) == Seq::<Seq<char>>::empty(),
{
    if e.len() > 0 {
        lemma_split_no_cr(e, '\n');
        lemma_other_lines_pieces(split_on(e, '\n'));
        lemma_join_split(e, '\n');
    } else {
        assert(other_lines(extra_lines(e)) =~= Seq::<Seq<char>>::empty());
        assert(join(Seq::<Seq<char>>::empty(), seq!['\n']) =~= e);
        assert forall|d: KnownDirective| #[trigger] known_texts(extra_lines(e), d) == Seq::<Seq<char>>::empty() by {}
    }
}

proof fn lemma_known_end(l: Seq<LineView>)
    ensures
        known_end(l) <= l.len(),
    decreases l.len(),
{
    if l.len() > 0 && !(l.last() is Known) {
        lemma_known_end(l.drop_last());
    }
}

/// Splits `l` around index `i` for every directive's line texts.
proof fn lemma_known_texts_split3(l: Seq<LineView>, i: int, x: LineView, d: KnownDirective)
    requires
        0 <= i <= l.len(),
    ensures
        known_texts(l.take(i) + seq![x] + l.skip(i), d) == known_texts(l.take(i), d) + known_texts(
            seq![x],
            d,
        ) + known_texts(l.skip(i), d),
        known_texts(l, d) == known_texts(l.take(i), d) + known_texts(l.skip(i), d),
{
    lemma_known_texts_concat(l.take(i) + seq![x], l.skip(i), d);
    lemma_known_texts_concat(l.take(i), seq![x], d);
    lemma_known_texts_concat(l.take(i), l.skip(i), d);
    assert(l.take(i) + l.skip(i) =~= l);
}

/// Setting, replacing or removing directive `d` leaves every other directive's lines alone and
/// leaves exactly the requested value for `d`.
proof fn lemma_apply_known(l: Seq<LineView>, d: KnownDirective, v: Option<Seq<char>>)
    requires
        known_texts(l, d).len() <= 1,
        forall|k: int|
            0 <= k < known_texts(l, d).len() ==> first_word(
                strip_terminator(#[trigger] known_texts(l, d)[k]),
            ).len() > 0,
        keeps_opt(v, term_for(l, d)),
    ensures
        forall|d2: KnownDirective|
            d2 != d ==> #[trigger] known_texts(apply_known(l, d, v), d2) == known_texts(l, d2),
        match v {
            Some(x) => {
                &&& known_texts(apply_known(l, d, v), d).len() == 1
                &&& clean(x) ==> value_of(strip_terminator(known_texts(apply_known(l, d, v), d)[0])) == x
                &&& first_word(strip_terminator(known_texts(apply_known(l, d, v), d)[0])).len() > 0
                &&& with_value(known_texts(apply_known(l, d, v), d)[0], x) == known_texts(
                    apply_known(l, d, v),
                    d,
                )[0]
            },
            None => known_texts(apply_known(l, d, v), d).len() == 0,
        },
{
    lemma_before_known(l, d);
    let i = before_known(l, d) as int;
    let r = apply_known(l, d, v);
    if i < l.len() {
        let li = l[i];
        let rest = l.skip(i + 1);
        assert(l.skip(i) =~= seq![li] + rest);
        assert forall|j: int| 0 <= j < l.take(i).len() implies !is_known_as(#[trigger] l.take(i)[j], d) by {
            assert(l.take(i)[j] == l[j]);
        }
        lemma_known_texts_none(l.take(i), d);
        lemma_known_texts_concat(seq![li], rest, d);
        lemma_known_texts_one(li, d);
        lemma_known_texts_split3(l, i, li, d);
        assert(known_texts(l, d) =~= seq![li.text()] + known_texts(rest, d));
        assert(known_texts(rest, d).len() == 0);
        assert(known_texts(l, d)[0] == li.text());
        match v {
            None => {
                assert(r =~= l.take(i) + rest);
                assert forall|d2: KnownDirective| d2 != d implies #[trigger] known_texts(r, d2)
                    == known_texts(l, d2) by {
                    lemma_known_texts_concat(l.take(i), rest, d2);
                    lemma_known_texts_concat(seq![li], rest, d2);
                    lemma_known_texts_one(li, d2);
                    lemma_known_texts_split3(l, i, li, d2);
                    assert(known_texts(l.skip(i), d2) =~= known_texts(rest, d2));
                    assert(known_texts(l, d2) =~= known_texts(r, d2));
                }
                lemma_known_texts_concat(l.take(i), rest, d);
            },
            Some(x) => {
                let nl = LineView::Known(d, with_value(li.text(), x));
                assert(r =~= l.take(i) + seq![nl] + rest);
                lemma_known_texts_one(nl, d);
                lemma_known_texts_concat(l.take(i) + seq![nl], rest, d);
                lemma_known_texts_concat(l.take(i), seq![nl], d);
                assert(known_texts(r, d) =~= seq![nl.text()]);
                lemma_with_value(li.text(), x);
                lemma_with_value_fixed(li.text(), x);
                assert forall|d2: KnownDirective| d2 != d implies #[trigger] known_texts(r, d2)
                    == known_texts(l, d2) by {
                    lemma_known_texts_concat(l.take(i) + seq![nl], rest, d2);
                    lemma_known_texts_concat(l.take(i), seq![nl], d2);
                    lemma_known_texts_one(nl, d2);
                    lemma_known_texts_concat(seq![li], rest, d2);
                    lemma_known_texts_one(li, d2);
                    lemma_known_texts_split3(l, i, li, d2);
                    assert(known_texts(l.skip(i), d2) =~= known_texts(rest, d2));
                    assert(known_texts(l, d2) =~= known_texts(r, d2));
                }
            },
        }
    } else {
        assert forall|j: int| 0 <= j < l.len() implies !is_known_as(#[trigger] l[j], d) by {}
        lemma_known_texts_none(l, d);
        match v {
            None => {},
            Some(x) => {
                lemma_known_end(l);
                let e = known_end(l) as int;
                let nl = LineView::Known(d, new_line(d, x));
                assert(r =~= l.take(e) + seq![nl] + l.skip(e));
                lemma_known_texts_one(nl, d);
                lemma_known_texts_split3(l, e, nl, d);
                assert(known_texts(r, d) =~= seq![nl.text()]);
                lemma_new_line(d, x);
                lemma_new_line_fixed(d, x);
                lemma_keyword_chars(d);
                assert forall|d2: KnownDirective| d2 != d implies #[trigger] known_texts(r, d2)
                    == known_texts(l, d2) by {
                    lemma_known_texts_one(nl, d2);
                    lemma_known_texts_split3(l, e, nl, d2);
                    assert(known_texts(l, d2) =~= known_texts(r, d2));
                }
            },
        }
    }
}

proof fn lemma_port_text_clean(p: Option<u16>)
    ensures
        clean_opt(port_text(p)),
        port_of(port_text(p)) == p,
{
    match p {
        Some(x) => {
            crate::num::lemma_decimal_digits(x as nat);
            lemma_parse_decimal(x);
            let s = decimal(x as nat);
            assert(is_digit(s[0]));
            assert(is_digit(s[s.len() - 1]));
        },
        None => {},
    }
}

/// The value a block shows for a directive, given the texts of that directive's lines.
proof fn lemma_reads(l: Seq<LineView>, d: KnownDirective, v: Option<Seq<char>>)
    requires
        match v {
            Some(x) => known_texts(l, d).len() == 1 && value_of(
                strip_terminator(known_texts(l, d)[0]),
            ) == x,
            None => known_texts(l, d).len() == 0,
        },
    ensures
        last_known(l, d) == v,
{
    lemma_last_known(l, d);
}

/// The lines of a rewritten block, directive by directive.
proof fn lemma_rewrite_lines(b: BlockView, h: HostView)
    requires
        editable_block(b),
        clean_host(h),
    ensures
        ({
            let r = rewrite_view(b, h).lines;
            &&& last_known(r, KnownDirective::HostName) == h.host_name
            &&& last_known(r, KnownDirective::User) == h.user
            &&& last_known(r, KnownDirective::Port) == port_text(h.port)
            &&& last_known(r, KnownDirective::IdentityFile) == h.identity_file
            &&& last_known(r, KnownDirective::ProxyJump) == h.proxy_jump
            &&& join(other_lines(r), seq!['\n']) == h.extra
        }),
{
    let l0 = b.lines;
    let hn = KnownDirective::HostName;
    let us = KnownDirective::User;
    let po = KnownDirective::Port;
    let idf = KnownDirective::IdentityFile;
    let pj = KnownDirective::ProxyJump;
    lemma_port_text_clean(h.port);
    lemma_clean_keeps(h.host_name);
    lemma_clean_keeps(h.user);
    lemma_clean_keeps(port_text(h.port));
    lemma_clean_keeps(h.identity_file);
    lemma_clean_keeps(h.proxy_jump);
    assert(known_texts(l0, hn).len() <= 1);
    assert(known_texts(l0, us).len() <= 1);
    assert(known_texts(l0, po).len() <= 1);
    assert(known_texts(l0, idf).len() <= 1);
    assert(known_texts(l0, pj).len() <= 1);
    let l1 = apply_known(l0, hn, h.host_name);
    lemma_apply_known(l0, hn, h.host_name);
    assert(known_texts(l1, us) == known_texts(l0, us));
    let l2 = apply_known(l1, us, h.user);
    lemma_apply_known(l1, us, h.user);
    assert(known_texts(l1, po) == known_texts(l0, po));
    assert(known_texts(l2, po) == known_texts(l0, po));
    let l3 = apply_known(l2, po, port_text(h.port));
    lemma_apply_known(l2, po, port_text(h.port));
    assert(known_texts(l1, idf) == known_texts(l0, idf));
    assert(known_texts(l2, idf) == known_texts(l0, idf));
    assert(known_texts(l3, idf) == known_texts(l0, idf));
    let l4 = apply_known(l3, idf, h.identity_file);
    lemma_apply_known(l3, idf, h.identity_file);
    assert(known_texts(l1, pj) == known_texts(l0, pj));
    assert(known_texts(l2, pj) == known_texts(l0, pj));
    assert(known_texts(l3, pj) == known_texts(l0, pj));
    assert(known_texts(l4, pj) == known_texts(l0, pj));
    let l5 = apply_known(l4, pj, h.proxy_jump);
    lemma_apply_known(l4, pj, h.proxy_jump);
    let e = extra_lines(h.extra);
    let r = known_only(l5) + e;
    assert(rewrite_view(b, h).lines == r);
    lemma_extra_lines(h.extra);
    lemma_other_lines_concat(known_only(l5), e);
    lemma_known_only(l5, hn);
    assert(other_lines(r) =~= other_lines(e));
    assert forall|d: KnownDirective| #[trigger] known_texts(r, d) == known_texts(l5, d) by {
        lemma_known_texts_concat(known_only(l5), e, d);
        lemma_known_only(l5, d);
        assert(known_texts(r, d) =~= known_texts(l5, d));
    }
    // host name: set by l1, kept by the later steps
    assert(known_texts(l5, hn) == known_texts(l1, hn));
    lemma_reads(r, hn, h.host_name);
    assert(known_texts(l5, us) == known_texts(l2, us));
    lemma_reads(r, us, h.user);
    assert(known_texts(l5, po) == known_texts(l3, po));
    lemma_reads(r, po, port_text(h.port));
    assert(known_texts(l5, idf) == known_texts(l4, idf));
    lemma_reads(r, idf, h.identity_file);
    lemma_reads(r, pj, h.proxy_jump);
}

/// A rewritten block reads back as the host that was written.
pub proof fn lemma_rewrite_reads_back(b: BlockView, h: HostView)
    requires
        editable_block(b),
        clean_host(h),
    ensures
        host_from_block(rewrite_view(b, h)) == as_saved(h),
{
    lemma_rewrite_lines(b, h);
    lemma_port_text_clean(h.port);
}

proof fn lemma_opt_line(d2: KnownDirective, v: Option<Seq<char>>, d: KnownDirective)
    ensures
        known_texts(opt_line(d2, v), d) == if d2 == d && v is Some {
            seq![new_line(d, v->0)]
        } else {
            Seq::<Seq<char>>::empty()
        },
        other_lines(opt_line(d2, v)) == Seq::<Seq<char>>::empty(),
{
    match v {
        Some(x) => {
            lemma_known_texts_one(LineView::Known(d2, new_line(d2, x)), d);
            assert(opt_line(d2, v).drop_last() =~= Seq::<LineView>::empty());
            assert(opt_line(d2, v).last() is Known);
            assert(other_lines(opt_line(d2, v).drop_last()) =~= Seq::<Seq<char>>::empty());
        },
        None => {
            assert(other_lines(opt_line(d2, v)) =~= Seq::<Seq<char>>::empty());
        },
    }
}

/// A new block reads back as the host it was built for.
pub proof fn lemma_new_block_reads_back(h: HostView)
    requires
        clean_host(h),
    ensures
        host_from_block(new_block_view(h)) == as_saved(h),
{
    let hn = KnownDirective::HostName;
    let us = KnownDirective::User;
    let po = KnownDirective::Port;
    let idf = KnownDirective::IdentityFile;
    let pj = KnownDirective::ProxyJump;
    lemma_port_text_clean(h.port);
    let a = opt_line(hn, h.host_name);
    let b = opt_line(us, h.user);
    let c = opt_line(po, port_text(h.port));
    let dd = opt_line(idf, h.identity_file);
    let f = opt_line(pj, h.proxy_jump);
    let e = extra_lines(h.extra);
    let l = new_block_view(h).lines;
    assert(l == a + b + c + dd + f + e);
    lemma_extra_lines(h.extra);
    assert forall|d: KnownDirective| #[trigger] known_texts(l, d) == known_texts(a, d) + known_texts(
        b,
        d,
    ) + known_texts(c, d) + known_texts(dd, d) + known_texts(f, d) by {
        lemma_known_texts_concat(a + b + c + dd + f, e, d);
        lemma_known_texts_concat(a + b + c + dd, f, d);
        lemma_known_texts_concat(a + b + c, dd, d);
        lemma_known_texts_concat(a + b, c, d);
        lemma_known_texts_concat(a, b, d);
        assert(known_texts(l, d) =~= known_texts(a, d) + known_texts(b, d) + known_texts(c, d)
            + known_texts(dd, d) + known_texts(f, d));
    }
    lemma_other_lines_concat(a + b + c + dd + f, e);
    lemma_other_lines_concat(a + b + c + dd, f);
    lemma_other_lines_concat(a + b + c, dd);
    lemma_other_lines_concat(a + b, c);
    lemma_other_lines_concat(a, b);
    lemma_opt_line(hn, h.host_name, hn);
    lemma_opt_line(us, h.user, hn);
    lemma_opt_line(po, port_text(h.port), hn);
    lemma_opt_line(idf, h.identity_file, hn);
    lemma_opt_line(pj, h.proxy_jump, hn);
    assert(other_lines(l) =~= other_lines(e));
    assert forall|d: KnownDirective| #[trigger] last_known(l, d) == match d {
        KnownDirective::HostName => h.host_name,
        KnownDirective::User => h.user,
        KnownDirective::Port => port_text(h.port),
        KnownDirective::IdentityFile => h.identity_file,
        KnownDirective::ProxyJump => h.proxy_jump,
    } by {
        lemma_opt_line(hn, h.host_name, d);
        lemma_opt_line(us, h.user, d);
        lemma_opt_line(po, port_text(h.port), d);
        lemma_opt_line(idf, h.identity_file, d);
        lemma_opt_line(pj, h.proxy_jump, d);
        let v = match d {
            KnownDirective::HostName => h.host_name,
            KnownDirective::User => h.user,
            KnownDirective::Port => port_text(h.port),
            KnownDirective::IdentityFile => h.identity_file,
            KnownDirective::ProxyJump => h.proxy_jump,
        };
        assert(known_texts(l, d) =~= match v {
            Some(x) => seq![new_line(d, x)],
            None => Seq::<Seq<char>>::empty(),
        });
        lemma_clean_keeps(v);
        match v {
            Some(x) => {
                lemma_new_line(d, x);
            },
            None => {},
        }
        lemma_reads(l, d, v);
    }
    assert(last_known(l, hn) == h.host_name);
    assert(last_known(l, us) == h.user);
    assert(last_known(l, po) == port_text(h.port));
    assert(last_known(l, idf) == h.identity_file);
    assert(last_known(l, pj) == h.proxy_jump);
}

// ----------------------------------------------------------------------------------------------
// Segment-level laws
// ----------------------------------------------------------------------------------------------

pub proof fn lemma_before_managed(segs: Seq<SegView>, a: Seq<char>)
    ensures
        before_managed(segs, a) <= segs.len(),
        forall|j: int| 0 <= j < before_managed(segs, a) ==> !is_managed_as(#[trigger] segs[j], a),
        before_managed(segs, a) < segs.len() ==> is_managed_as(segs[before_managed(segs, a) as int], a),
    decreases segs.len(),
{
    if segs.len() > 0 && !is_managed_as(segs[0], a) {
        lemma_before_managed(segs.drop_first(), a);
        assert forall|j: int| 0 <= j < before_managed(segs, a) implies !is_managed_as(#[trigger] segs[j], a) by {
            if j > 0 {
                assert(segs[j] == segs.drop_first()[j - 1]);
            }
        }
        if before_managed(segs, a) < segs.len() {
            assert(segs[before_managed(segs, a) as int] == segs.drop_first()[before_managed(segs, a)
                - 1]);
        }
    }
}

proof fn lemma_before_managed_is(segs: Seq<SegView>, a: Seq<char>, n: int)
    requires
        0 <= n <= segs.len(),
        forall|i: int| 0 <= i < n ==> !is_managed_as(#[trigger] segs[i], a),
        n < segs.len() ==> is_managed_as(segs[n], a),
    ensures
        before_managed(segs, a) == n,
    decreases n,
{
    if n > 0 {
        assert forall|i: int| 0 <= i < n - 1 implies !is_managed_as(#[trigger] segs.drop_first()[i], a) by {
            assert(segs.drop_first()[i] == segs[i + 1]);
        }
        if n < segs.len() {
            assert(segs.drop_first()[n - 1] == segs[n]);
        }
        assert(!is_managed_as(segs[0], a));
        lemma_before_managed_is(segs.drop_first(), a, n - 1);
    }
}

/// A host shown by one segment is among the listed hosts.
proof fn lemma_listed(segs: Seq<SegView>, i: int, h: HostView)
    requires
        0 <= i < segs.len(),
        seg_host(segs[i]) == Some(h),
    ensures
        hosts_of(segs).contains(h),
    decreases segs.len(),
{
    if i == 0 {
        assert(hosts_of(segs)[0] == h);
    } else {
        assert(segs.drop_first()[i - 1] == segs[i]);
        lemma_listed(segs.drop_first(), i - 1, h);
        let k = choose|k: int| 0 <= k < hosts_of(segs.drop_first()).len() && hosts_of(segs.drop_first())[k] == h;
        let pre = opt_seq(seg_host(segs[0]));
        assert(hosts_of(segs)[pre.len() + k] == h);
    }
}

/// Making room for a new block never adds or renames a rewritable block.
proof fn lemma_appendable_keeps_aliases(segs: Seq<SegView>, a: Seq<char>)
    requires
        forall|j: int| 0 <= j < segs.len() ==> !is_managed_as(#[trigger] segs[j], a),
    ensures
        forall|j: int|
            0 <= j < ensure_appendable(segs).len() ==> !is_managed_as(
                #[trigger] ensure_appendable(segs)[j],
                a,
            ),
{
    if segs.len() > 0 {
        let t = super::writer::terminate_last(segs);
        assert forall|j: int| 0 <= j < t.len() implies !is_managed_as(#[trigger] t[j], a) by {
            if j < segs.len() - 1 {
                assert(t[j] == segs[j]);
            } else {
                assert(!is_managed_as(segs[j], a));
            }
        }
        let e = ensure_appendable(segs);
        assert forall|j: int| 0 <= j < e.len() implies !is_managed_as(#[trigger] e[j], a) by {
            if j < t.len() - 1 {
                assert(e[j] == t[j]);
            } else if j == t.len() - 1 {
                if t.last() is Raw {
                    assert(e[j] is Raw);
                } else {
                    assert(e[j] == t[j]);
                }
            } else {
                assert(e[j] is Raw);
            }
        }
    }
}

/// Writing a host and listing the hosts again shows the host as written: its block is the one
/// found by its alias and it is among the listed hosts. Values must be trimmed and the
/// advanced-options text free of carriage returns; a block being rewritten must set each
/// directive at most once.
pub proof fn law_upsert_then_list(segs: Seq<SegView>, h: HostView)
    requires
        clean_host(h),
        before_managed(segs, h.alias) < segs.len() ==> editable_block(
            segs[before_managed(segs, h.alias) as int]->Managed_0,
        ),
    ensures
        ({
            let after = upsert_view(segs, h);
            let i = before_managed(after, h.alias);
            &&& i < after.len()
            &&& seg_host(after[i as int]) == Some(as_saved(h))
            &&& hosts_of(after).contains(as_saved(h))
        }),
{
    lemma_before_managed(segs, h.alias);
    let i = before_managed(segs, h.alias);
    let after = upsert_view(segs, h);
    if i < segs.len() {
        let b = segs[i as int]->Managed_0;
        lemma_rewrite_reads_back(b, h);
        assert forall|j: int| 0 <= j < i implies !is_managed_as(#[trigger] after[j], h.alias) by {
            assert(after[j] == segs[j]);
        }
        lemma_before_managed_is(after, h.alias, i as int);
        lemma_listed(after, i as int, as_saved(h));
    } else {
        let e = ensure_appendable(segs);
        lemma_appendable_keeps_aliases(segs, h.alias);
        lemma_new_block_reads_back(h);
        assert forall|j: int| 0 <= j < e.len() implies !is_managed_as(#[trigger] after[j], h.alias) by {
            assert(after[j] == e[j]);
        }
        lemma_before_managed_is(after, h.alias, e.len() as int);
        lemma_listed(after, e.len() as int, as_saved(h));
    }
}

/// Renaming a host rewrites its existing block in place, which then reads back as the host that
/// was written.
pub proof fn law_rename_in_place(segs: Seq<SegView>, previous: Seq<char>, h: HostView)
    requires
        clean_host(h),
        before_managed(segs, previous) < segs.len(),
        editable_block(segs[before_managed(segs, previous) as int]->Managed_0),
    ensures
        ({
            let i = before_managed(segs, previous) as int;
            let after = upsert_renaming_view(segs, Some(previous), h);
            &&& after.len() == segs.len()
            &&& seg_host(after[i]) == Some(as_saved(h))
            &&& forall|j: int| 0 <= j < segs.len() && j != i ==> after[j] == segs[j]
            &&& hosts_of(after).contains(as_saved(h))
        }),
{
    let i = before_managed(segs, previous) as int;
    lemma_rewrite_reads_back(segs[i]->Managed_0, h);
    let after = upsert_renaming_view(segs, Some(previous), h);
    lemma_listed(after, i, as_saved(h));
}

/// Removing the only rewritable block of an alias leaves none behind.
pub proof fn law_remove_then_absent(segs: Seq<SegView>, a: Seq<char>)
    requires
        forall|j: int, k: int|
            0 <= j < segs.len() && 0 <= k < segs.len() && #[trigger] is_managed_as(segs[j], a)
                && #[trigger] is_managed_as(segs[k], a) ==> j == k,
        before_managed(segs, a) < segs.len(),
    ensures
        ({
            let after = segs.remove(before_managed(segs, a) as int);
            before_managed(after, a) == after.len()
        }),
{
    lemma_before_managed(segs, a);
    let i = before_managed(segs, a) as int;
    let after = segs.remove(i);
    assert forall|j: int| 0 <= j < after.len() implies !is_managed_as(#[trigger] after[j], a) by {
        if j < i {
            assert(after[j] == segs[j]);
        } else {
            assert(after[j] == segs[j + 1]);
            if is_managed_as(segs[j + 1], a) {
                assert(is_managed_as(segs[i], a));
            }
        }
    }
    lemma_before_managed_is(after, a, after.len() as int);
}

// ----------------------------------------------------------------------------------------------
// Appending a new block
// ----------------------------------------------------------------------------------------------

/// Segments as parsing produces them: no raw segment without lines, and no empty line.
pub open spec fn well_formed_segments(segs: Seq<SegView>) -> bool {
    &&& forall|i: int| 0 <= i < segs.len() ==> (#[trigger] segs[i] matches SegView::Raw(ls) ==> ls.len() > 0)
    &&& forall|i: int| 0 <= i < all_lines(segs).len() ==> (#[trigger] all_lines(segs)[i]).len() > 0
}

proof fn lemma_terminated_concat(a: Seq<char>, b: Seq<char>)
    requires
        b.len() > 0,
    ensures
        terminated(a + b) == a + terminated(b),
{
    assert((a + b).last() == b.last());
    if !(b.last() == '\n') {
        assert((a + b).push('\n') =~= a + b.push('\n'));
    }
}

proof fn lemma_flatten_push(x: Seq<Seq<char>>, y: Seq<char>)
    ensures
        x.push(y).flatten() == x.flatten() + y,
{
    vstd::seq_lib::lemma_flatten_concat(x, seq![y]);
    assert(x.push(y) =~= x + seq![y]);
    seq![y].lemma_flatten_one_element();
}

/// Lines of the file minus its last segment, then the last segment's lines.
proof fn lemma_all_lines_last(segs: Seq<SegView>)
    requires
        segs.len() > 0,
    ensures
        all_lines(segs) == all_lines(segs.drop_last()) + seg_lines(segs.last()),
{
    lemma_all_lines_concat(segs.drop_last(), seq![segs.last()]);
    lemma_all_lines_one(segs.last());
    assert(segs.drop_last() + seq![segs.last()] =~= segs);
}

/// Terminating the last line changes the text only by the newline it may have lacked.
proof fn lemma_terminate_last_render(segs: Seq<SegView>)
    requires
        segs.len() > 0,
        well_formed_segments(segs),
    ensures
        render_view(terminate_last(segs)) == terminated(render_view(segs)),
{
    let n = segs.len() - 1;
    let last = segs[n as int];
    let t = terminate_last(segs);
    lemma_all_lines_last(segs);
    lemma_all_lines_last(t);
    assert(t.drop_last() =~= segs.drop_last());
    let x = seg_lines(last);
    let k = x.len() - 1;
    assert(x.len() > 0) by {
        if last matches SegView::Raw(ls) {
            assert(segs[n as int] matches SegView::Raw(ls2) ==> ls2.len() > 0);
        }
    }
    assert(all_lines(segs)[all_lines(segs).len() - 1] == x[k]);
    assert(x[k].len() > 0);
    assert(seg_lines(t.last()) =~= x.update(k, terminated(x[k]))) by {
        match last {
            SegView::Raw(ls) => {},
            SegView::Managed(b) => {
                if b.lines.len() == 0 {
                    assert(b.lines.map_values(|l: LineView| l.text()) =~= Seq::<Seq<char>>::empty());
                } else {
                    let l = b.lines.last();
                    let nl = match l {
                        LineView::Known(d, tx) => LineView::Known(d, terminated(tx)),
                        LineView::Other(tx) => LineView::Other(terminated(tx)),
                    };
                    assert(b.lines.update(b.lines.len() - 1, nl).map_values(|l: LineView| l.text())
                        =~= b.lines.map_values(|l: LineView| l.text()).update(
                        b.lines.len() - 1,
                        terminated(l.text()),
                    ));
                }
            },
        }
    }
    let before = all_lines(segs.drop_last());
    let y = x.update(k, terminated(x[k]));
    assert(x =~= x.drop_last().push(x[k]));
    assert(y =~= x.drop_last().push(terminated(x[k])));
    vstd::seq_lib::lemma_flatten_concat(before, x);
    vstd::seq_lib::lemma_flatten_concat(before, y);
    lemma_flatten_push(x.drop_last(), x[k]);
    lemma_flatten_push(x.drop_last(), terminated(x[k]));
    lemma_terminated_concat(before.flatten() + x.drop_last().flatten(), x[k]);
    assert(before.flatten() + x.flatten() =~= (before.flatten() + x.drop_last().flatten()) + x[k]);
    assert(before.flatten() + y.flatten() =~= (before.flatten() + x.drop_last().flatten())
        + terminated(x[k]));
}

/// Adding a raw line adds it at the end of the text.
proof fn lemma_push_raw_render(segs: Seq<SegView>, line: Seq<char>)
    ensures
        render_view(push_raw(segs, line)) == render_view(segs) + line,
{
    let p = push_raw(segs, line);
    if segs.len() > 0 && segs.last() is Raw {
        let ls = segs.last()->Raw_0;
        lemma_all_lines_last(segs);
        lemma_all_lines_last(p);
        assert(p.drop_last() =~= segs.drop_last());
        assert(seg_lines(p.last()) == ls.push(line));
        assert(all_lines(p) =~= all_lines(segs).push(line));
    } else {
        lemma_all_lines_concat(segs, seq![SegView::Raw(seq![line])]);
        lemma_all_lines_one(SegView::Raw(seq![line]));
        assert(p == segs + seq![SegView::Raw(seq![line])]);
        assert(all_lines(p) =~= all_lines(segs).push(line));
    }
    lemma_flatten_push(all_lines(segs), line);
}

/// A host whose alias has no rewritable block is appended after the existing text: the file's
/// last line is terminated if it lacked its newline, one blank line separates the new block,
/// and an empty file gets the block alone.
pub proof fn law_new_host_appended(segs: Seq<SegView>, h: HostView)
    requires
        well_formed_segments(segs),
        before_managed(segs, h.alias) == segs.len(),
    ensures
        render_view(upsert_view(segs, h)) == (if segs.len() == 0 {
            Seq::empty()
        } else {
            terminated(render_view(segs)) + seq!['\n']
        }) + block_lines(new_block_view(h)).flatten(),
{
    let e = ensure_appendable(segs);
    let after = upsert_view(segs, h);
    let nb = SegView::Managed(new_block_view(h));
    assert(after == e.push(nb));
    lemma_all_lines_concat(e, seq![nb]);
    lemma_all_lines_one(nb);
    assert(e.push(nb) =~= e + seq![nb]);
    vstd::seq_lib::lemma_flatten_concat(all_lines(e), block_lines(new_block_view(h)));
    if segs.len() == 0 {
        assert(all_lines(e) =~= Seq::<Seq<char>>::empty());
        assert(all_lines(e).flatten() =~= Seq::<char>::empty());
    } else {
        lemma_terminate_last_render(segs);
        lemma_push_raw_render(terminate_last(segs), seq!['\n']);
    }
}

/// Parsing produces well-formed segments.
pub proof fn lemma_parse_well_formed(text: Seq<char>)
    ensures
        well_formed_segments(parse_view(text)),
        parse_view(text).len() == 0 <==> text.len() == 0,
{
    let ls = lines_of(text);
    lemma_lines_nonempty(text);
    lemma_parse_lines_lines(ls);
    lemma_parse_lines_raw(ls);
    if text.len() == 0 {
        assert(ls.len() == 0);
    } else {
        if parse_view(text).len() == 0 {
            assert(all_lines(parse_view(text)) =~= Seq::<Seq<char>>::empty());
        }
    }
}

/// Adding a host to a file that has no block for its alias keeps the file's text and appends
/// the new block: the last line gets its missing newline, one blank line separates the block,
/// and an empty file gets the block alone.
pub proof fn law_new_host_appended_to_text(text: Seq<char>, h: HostView)
    requires
        before_managed(parse_view(text), h.alias) == parse_view(text).len(),
    ensures
        render_view(upsert_view(parse_view(text), h)) == (if text.len() == 0 {
            Seq::empty()
        } else {
            terminated(text) + seq!['\n']
        }) + block_lines(new_block_view(h)).flatten(),
{
    lemma_parse_well_formed(text);
    lemma_render_parse(text);
    law_new_host_appended(parse_view(text), h);
}

/// Editing an existing host changes its block and no other segment.
pub proof fn law_upsert_touches_only_its_block(segs: Seq<SegView>, h: HostView)
    requires
        before_managed(segs, h.alias) < segs.len(),
    ensures
        upsert_view(segs, h).len() == segs.len(),
        forall|j: int|
            0 <= j < segs.len() && j != before_managed(segs, h.alias) ==> #[trigger] upsert_view(segs, h)[j]
                == segs[j],
{
}

// ----------------------------------------------------------------------------------------------
// Which listed hosts can be edited
// ----------------------------------------------------------------------------------------------

proof fn lemma_editable_in_segments(segs: Seq<SegView>, h: HostView)
    requires
        hosts_of(segs).contains(h),
        !h.read_only,
    ensures
        before_managed(segs, h.alias) < segs.len(),
    decreases segs.len(),
{
    let first = opt_seq(seg_host(segs[0]));
    let rest = hosts_of(segs.drop_first());
    assert(hosts_of(segs) == first + rest);
    let k = choose|k: int| 0 <= k < hosts_of(segs).len() && hosts_of(segs)[k] == h;
    if k < first.len() {
        assert(seg_host(segs[0]) == Some(h));
        if let SegView::Raw(ls) = segs[0] {
            assert(raw_host(ls) matches Some(r) ==> r.read_only);
        }
        assert(is_managed_as(segs[0], h.alias));
    } else {
        assert(rest[k - first.len()] == h);
        assert(rest.contains(h));
        lemma_editable_in_segments(segs.drop_first(), h);
    }
}

/// Every editable host in the list (hosts of the file, then the read-only hosts of its
/// included files) has a rewritable block under its alias, so saving an edit of it rewrites that
/// block in place rather than appending a new one.
pub proof fn law_editable_hosts_have_blocks(segs: Seq<SegView>, included: Seq<HostView>, h: HostView)
    requires
        all_read_only(included),
        (hosts_of(segs) + included).contains(h),
        !h.read_only,
    ensures
        before_managed(segs, h.alias) < segs.len(),
{
    let all = hosts_of(segs) + included;
    let k = choose|k: int| 0 <= k < all.len() && all[k] == h;
    if k < hosts_of(segs).len() {
        assert(hosts_of(segs)[k] == h);
        lemma_editable_in_segments(segs, h);
    } else {
        assert(included[k - hosts_of(segs).len()] == h);
    }
}

// ----------------------------------------------------------------------------------------------
// The same laws over the listed hosts
// ----------------------------------------------------------------------------------------------

/// An entry the user can edit, under alias `a`.
pub open spec fn editable_as(h: HostView, a: Seq<char>) -> bool {
    !h.read_only && h.alias == a
}

/// The hosts a config lists: those of its file, then those of its included files.
pub open spec fn listed(segs: Seq<SegView>, included: Seq<HostView>) -> Seq<HostView> {
    hosts_of(segs) + included
}

/// Position of the first entry editable under `a`, or the length when there is none.
pub open spec fn first_editable(l: Seq<HostView>, a: Seq<char>) -> nat
    decreases l.len(),
{
    if l.len() == 0 {
        0
    } else if editable_as(l[0], a) {
        0
    } else {
        1 + first_editable(l.drop_first(), a)
    }
}

proof fn lemma_first_editable_is(l: Seq<HostView>, a: Seq<char>, n: int)
    requires
        0 <= n <= l.len(),
        forall|j: int| 0 <= j < n ==> !editable_as(#[trigger] l[j], a),
        n < l.len() ==> editable_as(l[n], a),
    ensures
        first_editable(l, a) == n,
    decreases n,
{
    if n > 0 {
        assert forall|j: int| 0 <= j < n - 1 implies !editable_as(#[trigger] l.drop_first()[j], a) by {
            assert(l.drop_first()[j] == l[j + 1]);
        }
        if n < l.len() {
            assert(l.drop_first()[n - 1] == l[n]);
        }
        assert(!editable_as(l[0], a));
        lemma_first_editable_is(l.drop_first(), a, n - 1);
    }
}

/// Without a rewritable block for `a`, no listed host of the file is editable under `a`.
proof fn lemma_no_block_no_editable(segs: Seq<SegView>, a: Seq<char>)
    requires
        forall|j: int| 0 <= j < segs.len() ==> !is_managed_as(#[trigger] segs[j], a),
    ensures
        forall|j: int| 0 <= j < hosts_of(segs).len() ==> !editable_as(#[trigger] hosts_of(segs)[j], a),
{
    assert forall|j: int| 0 <= j < hosts_of(segs).len() implies !editable_as(#[trigger] hosts_of(segs)[j], a) by {
        let h = hosts_of(segs)[j];
        if editable_as(h, a) {
            assert(hosts_of(segs).contains(h));
            lemma_editable_in_segments(segs, h);
            lemma_before_managed(segs, a);
        }
    }
}

/// The hosts of a file around segment `i`.
proof fn lemma_split_at(segs: Seq<SegView>, i: int)
    requires
        0 <= i < segs.len(),
    ensures
        hosts_of(segs) == hosts_of(segs.take(i)) + opt_seq(seg_host(segs[i])) + hosts_of(segs.skip(i + 1)),
{
    lemma_hosts_of_concat(segs.take(i), segs.skip(i));
    assert(segs.take(i) + segs.skip(i) =~= segs);
    assert(segs.skip(i) =~= seq![segs[i]] + segs.skip(i + 1));
    lemma_hosts_of_concat(seq![segs[i]], segs.skip(i + 1));
    lemma_hosts_of_one(segs[i]);
}

/// The first rewritable block of `a` gives the first listed entry editable under `a`.
pub proof fn lemma_block_entry(segs: Seq<SegView>, included: Seq<HostView>, a: Seq<char>)
    requires
        before_managed(segs, a) < segs.len(),
    ensures
        ({
            let i = before_managed(segs, a) as int;
            let l = listed(segs, included);
            let k = hosts_of(segs.take(i)).len() as int;
            &&& first_editable(l, a) == k
            &&& k < hosts_of(segs).len()
            &&& l[k] == host_from_block(segs[i]->Managed_0)
            &&& editable_as(l[k], a)
            &&& hosts_of(segs) == hosts_of(segs.take(i)) + seq![host_from_block(segs[i]->Managed_0)]
                + hosts_of(segs.skip(i + 1))
        }),
{
    lemma_before_managed(segs, a);
    let i = before_managed(segs, a) as int;
    let pre = segs.take(i);
    assert forall|j: int| 0 <= j < pre.len() implies !is_managed_as(#[trigger] pre[j], a) by {
        assert(pre[j] == segs[j]);
    }
    lemma_no_block_no_editable(pre, a);
    lemma_split_at(segs, i);
    let b = segs[i]->Managed_0;
    assert(opt_seq(seg_host(segs[i])) == seq![host_from_block(b)]);
    let l = listed(segs, included);
    let k = hosts_of(pre).len() as int;
    assert forall|j: int| 0 <= j < k implies !editable_as(#[trigger] l[j], a) by {
        assert(l[j] == hosts_of(pre)[j]);
    }
    assert(l[k] == host_from_block(b));
    lemma_first_editable_is(l, a, k);
}

/// With the included hosts read-only, a listed entry is editable under `a` exactly when the
/// file has a rewritable block of `a`.
pub proof fn lemma_first_editable_block(segs: Seq<SegView>, included: Seq<HostView>, a: Seq<char>)
    requires
        all_read_only(included),
    ensures
        (first_editable(listed(segs, included), a) < listed(segs, included).len()) == (before_managed(
            segs,
            a,
        ) < segs.len()),
{
    lemma_before_managed(segs, a);
    let l = listed(segs, included);
    if before_managed(segs, a) < segs.len() {
        lemma_block_entry(segs, included, a);
    } else {
        lemma_no_block_no_editable(segs, a);
        assert forall|j: int| 0 <= j < l.len() implies !editable_as(#[trigger] l[j], a) by {
            if j < hosts_of(segs).len() {
                assert(l[j] == hosts_of(segs)[j]);
            } else {
                assert(l[j] == included[j - hosts_of(segs).len()]);
            }
        }
        lemma_first_editable_is(l, a, l.len() as int);
    }
}

/// Rewriting the first block of `a` replaces the first entry editable under `a` and keeps every
/// other entry, in order.
proof fn lemma_rewrite_in_list(segs: Seq<SegView>, included: Seq<HostView>, a: Seq<char>, h: HostView)
    requires
        before_managed(segs, a) < segs.len(),
    ensures
        ({
            let i = before_managed(segs, a) as int;
            let l = listed(segs, included);
            let k = first_editable(l, a);
            let r = rewrite_view(segs[i]->Managed_0, h);
            &&& k < l.len()
            &&& listed(segs.update(i, SegView::Managed(r)), included) == l.update(k as int, host_from_block(r))
        }),
{
    let i = before_managed(segs, a) as int;
    lemma_block_entry(segs, included, a);
    let r = rewrite_view(segs[i]->Managed_0, h);
    let after = segs.update(i, SegView::Managed(r));
    assert(after.take(i) =~= segs.take(i));
    assert(after.skip(i + 1) =~= segs.skip(i + 1));
    lemma_split_at(after, i);
    let l = listed(segs, included);
    let k = hosts_of(segs.take(i)).len() as int;
    assert(listed(after, included) =~= l.update(k, host_from_block(r)));
}

/// Editing a host that has a rewritable block replaces, among the listed hosts, the first
/// entry editable under its alias by what the rewritten block reads back, which is editable
/// under that alias; every other entry stays, in order. With trimmed values, advanced options
/// free of carriage returns and a block that sets each directive at most once, the entry is the
/// host as written.
pub proof fn law_upsert_existing_in_list(segs: Seq<SegView>, included: Seq<HostView>, h: HostView)
    requires
        before_managed(segs, h.alias) < segs.len(),
    ensures
        ({
            let l = listed(segs, included);
            let k = first_editable(l, h.alias);
            let b = segs[before_managed(segs, h.alias) as int]->Managed_0;
            let x = host_from_block(rewrite_view(b, h));
            &&& k < l.len()
            &&& listed(upsert_view(segs, h), included) == l.update(k as int, x)
            &&& editable_as(x, h.alias)
            &&& clean_host(h) && editable_block(b) ==> x == as_saved(h)
        }),
{
    let b = segs[before_managed(segs, h.alias) as int]->Managed_0;
    lemma_rewrite_in_list(segs, included, h.alias, h);
    if clean_host(h) && editable_block(b) {
        lemma_rewrite_reads_back(b, h);
    }
}

/// Renaming, seen through the listed hosts: when an entry is editable under the previous alias,
/// the first such entry is replaced by what the rewritten block reads back (the host as written,
/// for trimmed values, advanced options free of carriage returns and a block that sets each
/// directive at most once), the list keeps its length and every other entry; otherwise the
/// rename is the plain write of the host.
pub proof fn law_rename_in_list(segs: Seq<SegView>, included: Seq<HostView>, previous: Seq<char>, h: HostView)
    requires
        all_read_only(included),
    ensures
        ({
            let l = listed(segs, included);
            let k = first_editable(l, previous);
            let i = before_managed(segs, previous) as int;
            let after = upsert_renaming_view(segs, Some(previous), h);
            &&& (k < l.len()) == (i < segs.len())
            &&& k < l.len() ==> listed(after, included) == l.update(
                k as int,
                host_from_block(rewrite_view(segs[i]->Managed_0, h)),
            )
            &&& k < l.len() && clean_host(h) && editable_block(segs[i]->Managed_0) ==> host_from_block(
                rewrite_view(segs[i]->Managed_0, h),
            ) == as_saved(h)
            &&& k == l.len() ==> after == upsert_view(segs, h)
        }),
{
    lemma_first_editable_block(segs, included, previous);
    let i = before_managed(segs, previous) as int;
    if i < segs.len() {
        let b = segs[i]->Managed_0;
        lemma_rewrite_in_list(segs, included, previous, h);
        if clean_host(h) && editable_block(b) {
            lemma_rewrite_reads_back(b, h);
        }
    }
}

/// Removing an alias succeeds exactly when a listed entry is editable under it; then the first
/// such entry leaves the list and every other entry stays, in order. Wildcard, multi-pattern and
/// included hosts are never editable, so they are never removed.
pub proof fn law_remove_in_list(segs: Seq<SegView>, included: Seq<HostView>, a: Seq<char>)
    requires
        all_read_only(included),
    ensures
        ({
            let l = listed(segs, included);
            let k = first_editable(l, a);
            &&& (before_managed(segs, a) < segs.len()) == (k < l.len())
            &&& k < l.len() ==> listed(segs.remove(before_managed(segs, a) as int), included) == l.remove(
                k as int,
            )
        }),
{
    lemma_first_editable_block(segs, included, a);
    let l = listed(segs, included);
    if before_managed(segs, a) < segs.len() {
        let i = before_managed(segs, a) as int;
        lemma_block_entry(segs, included, a);
        let after = segs.remove(i);
        assert(after.take(i) =~= segs.take(i));
        assert(after.skip(i) =~= segs.skip(i + 1));
        lemma_hosts_of_concat(after.take(i), after.skip(i));
        assert(after.take(i) + after.skip(i) =~= after);
        let k = hosts_of(segs.take(i)).len() as int;
        assert(listed(after, included) =~= l.remove(k));
    }
}

// A new block among the listed hosts

/// A blank line sets no directive and starts no `Host` block.
proof fn lemma_blank_line()
    ensures
        directive_of(seq!['\n']) is None,
        host_patterns(seq!['\n']) is None,
{
    reveal_strlit("HostName");
    reveal_strlit("User");
    reveal_strlit("Port");
    reveal_strlit("IdentityFile");
    reveal_strlit("ProxyJump");
    assert(strip_terminator(seq!['\n']) =~= Seq::<char>::empty());
    assert(trim_start(Seq::<char>::empty()) =~= Seq::<char>::empty());
    assert(first_word(Seq::<char>::empty()) =~= Seq::<char>::empty());
    assert(words(Seq::<char>::empty()) =~= Seq::<Seq<char>>::empty());
}

proof fn lemma_first_value_blank(ls: Seq<Seq<char>>, d: KnownDirective)
    ensures
        first_value(ls.push(seq!['\n']), d) == first_value(ls, d),
        first_port(ls.push(seq!['\n'])) == first_port(ls),
    decreases ls.len(),
{
    lemma_blank_line();
    let p = ls.push(seq!['\n']);
    if ls.len() == 0 {
        assert(p[0] == seq!['\n']);
        assert(p.drop_first() =~= Seq::<Seq<char>>::empty());
        assert(first_value(p.drop_first(), d) is None);
        assert(first_port(p.drop_first()) is None);
        assert(directive_of(p[0]) is None);
    } else {
        assert(p[0] == ls[0]);
        assert(p.drop_first() =~= ls.drop_first().push(seq!['\n']));
        lemma_first_value_blank(ls.drop_first(), d);
    }
}

/// Adding the blank separator line changes no listed host.
proof fn lemma_push_blank_hosts(segs: Seq<SegView>)
    ensures
        hosts_of(push_raw(segs, seq!['\n'])) == hosts_of(segs),
{
    lemma_blank_line();
    let p = push_raw(segs, seq!['\n']);
    if segs.len() > 0 && segs.last() is Raw {
        let n = segs.len() - 1;
        let ls = segs.last()->Raw_0;
        let lp = ls.push(seq!['\n']);
        if ls.len() > 0 {
            assert(lp[0] == ls[0]);
            assert(lp.drop_first() =~= ls.drop_first().push(seq!['\n']));
            lemma_first_value_blank(ls.drop_first(), KnownDirective::HostName);
            lemma_first_value_blank(ls.drop_first(), KnownDirective::User);
            lemma_first_value_blank(ls.drop_first(), KnownDirective::IdentityFile);
            lemma_first_value_blank(ls.drop_first(), KnownDirective::ProxyJump);
        } else {
            assert(lp[0] == seq!['\n']);
        }
        assert(raw_host(lp) == raw_host(ls));
        lemma_split_at(segs, n);
        lemma_split_at(p, n);
        assert(p.take(n) =~= segs.take(n));
        assert(p.skip(n + 1) =~= segs.skip(n + 1));
    } else {
        lemma_hosts_of_concat(segs, seq![SegView::Raw(seq![seq!['\n']])]);
        lemma_hosts_of_one(SegView::Raw(seq![seq!['\n']]));
        assert(p == segs + seq![SegView::Raw(seq![seq!['\n']])]);
        assert(hosts_of(p) =~= hosts_of(segs));
    }
}

/// A text whose last character is a carriage return.
pub open spec fn ends_in_cr(t: Seq<char>) -> bool {
    t.len() > 0 && t.last() == '\r'
}

/// Terminating a line that does not end with a carriage return keeps its content.
proof fn lemma_strip_terminated(t: Seq<char>)
    requires
        !ends_in_cr(t),
    ensures
        strip_terminator(terminated(t)) == strip_terminator(t),
{
    if !(t.len() > 0 && t.last() == '\n') {
        let u = t.push('\n');
        if t.len() > 0 {
            assert(u[u.len() - 2] == t.last());
        }
        assert(u.take(u.len() - 1) =~= t);
    }
}

/// Two runs of lines with the same contents, terminators aside.
pub open spec fn same_content(a: Seq<Seq<char>>, b: Seq<Seq<char>>) -> bool {
    &&& a.len() == b.len()
    &&& forall|i: int| 0 <= i < a.len() ==> strip_terminator(#[trigger] a[i]) == strip_terminator(b[i])
}

proof fn lemma_same_content_rest(a: Seq<Seq<char>>, b: Seq<Seq<char>>)
    requires
        same_content(a, b),
        a.len() > 0,
    ensures
        same_content(a.drop_first(), b.drop_first()),
        strip_terminator(a[0]) == strip_terminator(b[0]),
{
    assert forall|i: int| 0 <= i < a.drop_first().len() implies strip_terminator(
        #[trigger] a.drop_first()[i],
    ) == strip_terminator(b.drop_first()[i]) by {
        assert(strip_terminator(a[i + 1]) == strip_terminator(b[i + 1]));
    }
}

proof fn lemma_first_value_same(a: Seq<Seq<char>>, b: Seq<Seq<char>>, d: KnownDirective)
    requires
        same_content(a, b),
    ensures
        first_value(a, d) == first_value(b, d),
        first_port(a) == first_port(b),
    decreases a.len(),
{
    if a.len() > 0 {
        lemma_same_content_rest(a, b);
        assert(directive_of(a[0]) == directive_of(b[0]));
        lemma_first_value_same(a.drop_first(), b.drop_first(), d);
    }
}

/// A read-only block reads the same from lines with the same contents.
proof fn lemma_raw_host_same(a: Seq<Seq<char>>, b: Seq<Seq<char>>)
    requires
        same_content(a, b),
    ensures
        raw_host(a) == raw_host(b),
{
    if a.len() > 0 {
        lemma_same_content_rest(a, b);
        assert(host_patterns(a[0]) == host_patterns(b[0]));
        lemma_first_value_same(a.drop_first(), b.drop_first(), KnownDirective::HostName);
        lemma_first_value_same(a.drop_first(), b.drop_first(), KnownDirective::User);
        lemma_first_value_same(a.drop_first(), b.drop_first(), KnownDirective::IdentityFile);
        lemma_first_value_same(a.drop_first(), b.drop_first(), KnownDirective::ProxyJump);
    }
}

/// Terminating the file's last line changes no listed host, unless that line ends with a
/// carriage return.
proof fn lemma_terminate_last_hosts(segs: Seq<SegView>)
    requires
        segs.len() > 0,
        well_formed_segments(segs),
        !ends_in_cr(render_view(segs)),
    ensures
        hosts_of(terminate_last(segs)) == hosts_of(segs),
{
    let n = segs.len() - 1;
    let last = segs[n as int];
    lemma_all_lines_last(segs);
    let x = seg_lines(last);
    assert(x.len() > 0) by {
        if last matches SegView::Raw(ls) {
            assert(segs[n as int] matches SegView::Raw(ls2) ==> ls2.len() > 0);
        }
    }
    let k = x.len() - 1;
    let before = all_lines(segs.drop_last());
    assert(all_lines(segs)[all_lines(segs).len() - 1] == x[k]);
    assert(x[k].len() > 0);
    assert(x =~= x.drop_last().push(x[k]));
    vstd::seq_lib::lemma_flatten_concat(before, x);
    lemma_flatten_push(x.drop_last(), x[k]);
    assert(render_view(segs) =~= (before.flatten() + x.drop_last().flatten()) + x[k]);
    assert(!ends_in_cr(x[k]));
    let t = terminate_last(segs);
    match last {
        SegView::Raw(ls) => {
            let ls2 = ls.update(ls.len() - 1, terminated(ls.last()));
            assert(x[k] == ls.last());
            lemma_strip_terminated(ls.last());
            assert forall|i: int| 0 <= i < ls2.len() implies strip_terminator(#[trigger] ls2[i])
                == strip_terminator(ls[i]) by {
                if i != ls.len() - 1 {
                    assert(ls2[i] == ls[i]);
                }
            }
            lemma_raw_host_same(ls2, ls);
            assert(t[n as int] == SegView::Raw(ls2));
        },
        SegView::Managed(b) => {
            if b.lines.len() > 0 {
                let l = b.lines.last();
                assert(x[k] == b.lines.map_values(|l: LineView| l.text())[b.lines.len() - 1]);
                assert(x[k] == l.text());
                lemma_strip_terminated(l.text());
                let nl = match l {
                    LineView::Known(d, tx) => LineView::Known(d, terminated(tx)),
                    LineView::Other(tx) => LineView::Other(terminated(tx)),
                };
                let l2 = b.lines.update(b.lines.len() - 1, nl);
                assert(l2.drop_last() =~= b.lines.drop_last());
                assert(l2.last() == nl);
                assert forall|d: KnownDirective| #[trigger] last_known(l2, d) == last_known(b.lines, d) by {}
                assert(other_lines(l2) == other_lines(b.lines));
                assert(host_from_block(t[n as int]->Managed_0) == host_from_block(b));
            }
        },
    }
    assert(seg_host(t[n as int]) == seg_host(segs[n as int]));
    lemma_split_at(segs, n as int);
    lemma_split_at(t, n as int);
    assert(t.take(n as int) =~= segs.take(n as int));
    assert(t.skip(n + 1) =~= segs.skip(n + 1));
}

/// Adding a host whose alias has no rewritable block appends what its new block reads back
/// after the file's listed hosts and before the included ones; it is then the only entry
/// editable under its alias, and with trimmed values and advanced options free of carriage
/// returns it is the host as written. Making room for the block (terminating the last line,
/// adding one blank line) keeps every other listed host, unless the file's last line ends with a
/// carriage return: its content then loses that character.
pub proof fn law_new_host_in_list(segs: Seq<SegView>, included: Seq<HostView>, h: HostView)
    requires
        before_managed(segs, h.alias) == segs.len(),
        all_read_only(included),
    ensures
        ({
            let e = hosts_of(ensure_appendable(segs));
            let x = host_from_block(new_block_view(h));
            let l2 = listed(upsert_view(segs, h), included);
            &&& l2 == e + seq![x] + included
            &&& forall|j: int| 0 <= j < l2.len() ==> (editable_as(#[trigger] l2[j], h.alias) <==> j
                == e.len())
            &&& clean_host(h) ==> x == as_saved(h)
            &&& well_formed_segments(segs) && !ends_in_cr(render_view(segs)) ==> e == hosts_of(segs)
        }),
{
    let e = ensure_appendable(segs);
    let nb = SegView::Managed(new_block_view(h));
    let after = upsert_view(segs, h);
    assert(after == e.push(nb));
    lemma_hosts_of_concat(e, seq![nb]);
    lemma_hosts_of_one(nb);
    assert(after =~= e + seq![nb]);
    if clean_host(h) {
        lemma_new_block_reads_back(h);
    }
    lemma_before_managed(segs, h.alias);
    lemma_appendable_keeps_aliases(segs, h.alias);
    lemma_no_block_no_editable(e, h.alias);
    let x = host_from_block(new_block_view(h));
    let he = hosts_of(e);
    let l2 = listed(after, included);
    assert(l2 =~= he + seq![x] + included);
    assert forall|j: int| 0 <= j < l2.len() implies (editable_as(#[trigger] l2[j], h.alias) <==> j
        == he.len()) by {
        if j < he.len() {
            assert(l2[j] == he[j]);
        } else if j > he.len() {
            assert(l2[j] == included[j - he.len() - 1]);
        }
    }
    if well_formed_segments(segs) && !ends_in_cr(render_view(segs)) && segs.len() > 0 {
        lemma_terminate_last_hosts(segs);
        lemma_push_blank_hosts(terminate_last(segs));
    }
}

/// The same over the text of a file: making room for the new block keeps every other listed
/// host unless the text ends with a carriage return.
pub proof fn law_new_host_in_list_of_text(text: Seq<char>, included: Seq<HostView>, h: HostView)
    requires
        before_managed(parse_view(text), h.alias) == parse_view(text).len(),
        all_read_only(included),
    ensures
        ({
            let segs = parse_view(text);
            let e = hosts_of(ensure_appendable(segs));
            let x = host_from_block(new_block_view(h));
            let l2 = listed(upsert_view(segs, h), included);
            &&& l2 == e + seq![x] + included
            &&& forall|j: int| 0 <= j < l2.len() ==> (editable_as(#[trigger] l2[j], h.alias) <==> j
                == e.len())
            &&& clean_host(h) ==> x == as_saved(h)
            &&& !ends_in_cr(text) ==> e == hosts_of(segs)
        }),
{
    lemma_parse_well_formed(text);
    lemma_render_parse(text);
    law_new_host_in_list(parse_view(text), included, h);
}

/// Writing a host, seen through the listed hosts: an entry editable under its alias is
/// replaced by what the rewritten block reads back and the list keeps its length; without one,
/// what the new block reads back is inserted after the file's hosts and every other entry stays,
/// in order, unless the file's last line ends with a carriage return.
pub proof fn law_upsert_in_list(segs: Seq<SegView>, included: Seq<HostView>, h: HostView)
    requires
        all_read_only(included),
    ensures
        ({
            let l = listed(segs, included);
            let k = first_editable(l, h.alias);
            let i = before_managed(segs, h.alias) as int;
            let l2 = listed(upsert_view(segs, h), included);
            &&& k < l.len() ==> l2 == l.update(k as int, host_from_block(rewrite_view(segs[i]->Managed_0, h)))
            &&& k == l.len() && well_formed_segments(segs) && !ends_in_cr(render_view(segs)) ==> l2
                == l.insert(hosts_of(segs).len() as int, host_from_block(new_block_view(h)))
        }),
{
    lemma_first_editable_block(segs, included, h.alias);
    lemma_before_managed(segs, h.alias);
    let l = listed(segs, included);
    if before_managed(segs, h.alias) < segs.len() {
        law_upsert_existing_in_list(segs, included, h);
    } else {
        law_new_host_in_list(segs, included, h);
        if well_formed_segments(segs) && !ends_in_cr(render_view(segs)) {
            let x = host_from_block(new_block_view(h));
            assert(hosts_of(segs) + seq![x] + included =~= l.insert(hosts_of(segs).len() as int, x));
        }
    }
}

// ----------------------------------------------------------------------------------------------
// Writing the same host twice
// ----------------------------------------------------------------------------------------------

/// A block's lines for `d` are settled at `v`: none when `v` is `None`, otherwise one line that
/// setting `v` again leaves as it is.
pub open spec fn settled(l: Seq<LineView>, d: KnownDirective, v: Option<Seq<char>>) -> bool {
    match v {
        Some(x) => known_texts(l, d).len() == 1 && with_value(known_texts(l, d)[0], x) == known_texts(
            l,
            d,
        )[0],
        None => known_texts(l, d).len() == 0,
    }
}

/// Every directive of a block is settled at the value `h` gives it.
pub open spec fn settled_for(l: Seq<LineView>, h: HostView) -> bool {
    &&& settled(l, KnownDirective::HostName, h.host_name)
    &&& settled(l, KnownDirective::User, h.user)
    &&& settled(l, KnownDirective::Port, port_text(h.port))
    &&& settled(l, KnownDirective::IdentityFile, h.identity_file)
    &&& settled(l, KnownDirective::ProxyJump, h.proxy_jump)
}

/// A block that already shows `h`: its alias, every directive settled, and its directive lines
/// followed by exactly the advanced-options lines of `h`.
pub open spec fn shows(b: BlockView, h: HostView) -> bool {
    &&& b.alias == h.alias
    &&& settled_for(b.lines, h)
    &&& known_only(b.lines) + extra_lines(h.extra) == b.lines
}

/// Setting a settled directive again changes nothing.
proof fn lemma_apply_known_idle(l: Seq<LineView>, d: KnownDirective, v: Option<Seq<char>>)
    requires
        settled(l, d, v),
    ensures
        apply_known(l, d, v) == l,
{
    lemma_before_known(l, d);
    let i = before_known(l, d) as int;
    if i < l.len() {
        let li = l[i];
        let rest = l.skip(i + 1);
        assert(l.skip(i) =~= seq![li] + rest);
        assert forall|j: int| 0 <= j < l.take(i).len() implies !is_known_as(#[trigger] l.take(i)[j], d) by {
            assert(l.take(i)[j] == l[j]);
        }
        lemma_known_texts_none(l.take(i), d);
        lemma_known_texts_concat(seq![li], rest, d);
        lemma_known_texts_one(li, d);
        lemma_known_texts_split3(l, i, li, d);
        assert(known_texts(l, d) =~= seq![li.text()] + known_texts(rest, d));
        assert(known_texts(l, d)[0] == li.text());
        if let Some(x) = v {
            assert(LineView::Known(d, with_value(li.text(), x)) == li);
            assert(l.update(i, li) =~= l);
        }
    } else {
        assert forall|j: int| 0 <= j < l.len() implies !is_known_as(#[trigger] l[j], d) by {}
        lemma_known_texts_none(l, d);
    }
}

/// Only directive lines remain.
proof fn lemma_known_only_known(l: Seq<LineView>)
    ensures
        forall|i: int| 0 <= i < known_only(l).len() ==> #[trigger] known_only(l)[i] is Known,
    decreases l.len(),
{
    if l.len() > 0 {
        lemma_known_only_known(l.drop_last());
        if l.last() is Known {
            let k = known_only(l.drop_last());
            assert forall|i: int| 0 <= i < known_only(l).len() implies #[trigger] known_only(l)[i] is Known by {
                if i < k.len() {
                    assert(known_only(l)[i] == k[i]);
                }
            }
        }
    }
}

/// Keeping the directive lines of directive lines and advanced-options lines gives the
/// directive lines.
proof fn lemma_known_only_split(k: Seq<LineView>, e: Seq<LineView>)
    requires
        forall|i: int| 0 <= i < k.len() ==> #[trigger] k[i] is Known,
        forall|i: int| 0 <= i < e.len() ==> #[trigger] e[i] is Other,
    ensures
        known_only(k + e) == k,
    decreases k.len() + e.len(),
{
    if e.len() > 0 {
        assert((k + e).drop_last() =~= k + e.drop_last());
        assert((k + e).last() == e.last());
        assert(e.last() is Other);
        lemma_known_only_split(k, e.drop_last());
    } else if k.len() > 0 {
        assert(k + e =~= k);
        assert(k.drop_last() + e =~= k.drop_last());
        lemma_known_only_split(k.drop_last(), e);
        assert(k.last() is Known);
        assert(known_only(k) =~= k.drop_last().push(k.last()));
    } else {
        assert(k + e =~= Seq::<LineView>::empty());
    }
}

proof fn lemma_extra_lines_other(e: Seq<char>)
    ensures
        forall|i: int| 0 <= i < extra_lines(e).len() ==> #[trigger] extra_lines(e)[i] is Other,
{
}

/// Rewriting a block that already shows `h` changes nothing.
proof fn lemma_rewrite_idle(b: BlockView, h: HostView)
    requires
        shows(b, h),
    ensures
        rewrite_view(b, h) == b,
{
    let l = b.lines;
    lemma_apply_known_idle(l, KnownDirective::HostName, h.host_name);
    lemma_apply_known_idle(l, KnownDirective::User, h.user);
    lemma_apply_known_idle(l, KnownDirective::Port, port_text(h.port));
    lemma_apply_known_idle(l, KnownDirective::IdentityFile, h.identity_file);
    lemma_apply_known_idle(l, KnownDirective::ProxyJump, h.proxy_jump);
}

/// A rewritten block shows the host it was rewritten for.
proof fn lemma_rewrite_shows(b: BlockView, h: HostView)
    requires
        editable_block(b),
        kept_in(b.lines, h),
    ensures
        shows(rewrite_view(b, h), h),
{
    let l0 = b.lines;
    let hn = KnownDirective::HostName;
    let us = KnownDirective::User;
    let po = KnownDirective::Port;
    let idf = KnownDirective::IdentityFile;
    let pj = KnownDirective::ProxyJump;
    lemma_port_text_clean(h.port);
    lemma_clean_keeps(port_text(h.port));
    assert(known_texts(l0, hn).len() <= 1);
    assert(known_texts(l0, us).len() <= 1);
    assert(known_texts(l0, po).len() <= 1);
    assert(known_texts(l0, idf).len() <= 1);
    assert(known_texts(l0, pj).len() <= 1);
    let l1 = apply_known(l0, hn, h.host_name);
    lemma_apply_known(l0, hn, h.host_name);
    assert(known_texts(l1, us) == known_texts(l0, us));
    let l2 = apply_known(l1, us, h.user);
    lemma_apply_known(l1, us, h.user);
    assert(known_texts(l1, po) == known_texts(l0, po));
    assert(known_texts(l2, po) == known_texts(l0, po));
    let l3 = apply_known(l2, po, port_text(h.port));
    lemma_apply_known(l2, po, port_text(h.port));
    assert(known_texts(l1, idf) == known_texts(l0, idf));
    assert(known_texts(l2, idf) == known_texts(l0, idf));
    assert(known_texts(l3, idf) == known_texts(l0, idf));
    let l4 = apply_known(l3, idf, h.identity_file);
    lemma_apply_known(l3, idf, h.identity_file);
    assert(known_texts(l1, pj) == known_texts(l0, pj));
    assert(known_texts(l2, pj) == known_texts(l0, pj));
    assert(known_texts(l3, pj) == known_texts(l0, pj));
    assert(known_texts(l4, pj) == known_texts(l0, pj));
    let l5 = apply_known(l4, pj, h.proxy_jump);
    lemma_apply_known(l4, pj, h.proxy_jump);
    let e = extra_lines(h.extra);
    let k = known_only(l5);
    let r = k + e;
    assert(rewrite_view(b, h).lines == r);
    lemma_extra_lines_other(h.extra);
    assert forall|d: KnownDirective| #[trigger] known_texts(r, d) == known_texts(l5, d) by {
        assert forall|i: int| 0 <= i < e.len() implies !is_known_as(#[trigger] e[i], d) by {
            assert(e[i] is Other);
        }
        lemma_known_texts_none(e, d);
        lemma_known_texts_concat(k, e, d);
        lemma_known_only(l5, d);
        assert(known_texts(r, d) =~= known_texts(l5, d));
    }
    assert(known_texts(l5, hn) == known_texts(l1, hn));
    assert(known_texts(r, hn) == known_texts(l1, hn));
    assert(known_texts(l5, us) == known_texts(l2, us));
    assert(known_texts(r, us) == known_texts(l2, us));
    assert(known_texts(l5, po) == known_texts(l3, po));
    assert(known_texts(r, po) == known_texts(l3, po));
    assert(known_texts(l5, idf) == known_texts(l4, idf));
    assert(known_texts(r, idf) == known_texts(l4, idf));
    assert(known_texts(r, pj) == known_texts(l5, pj));
    lemma_known_only_known(l5);
    lemma_extra_lines_other(h.extra);
    lemma_known_only_split(k, e);
}

/// A new block shows the host it was built for.
proof fn lemma_new_block_shows(h: HostView)
    requires
        kept_in(Seq::empty(), h),
    ensures
        shows(new_block_view(h), h),
{
    let hn = KnownDirective::HostName;
    let us = KnownDirective::User;
    let po = KnownDirective::Port;
    let idf = KnownDirective::IdentityFile;
    let pj = KnownDirective::ProxyJump;
    lemma_port_text_clean(h.port);
    lemma_clean_keeps(port_text(h.port));
    let a = opt_line(hn, h.host_name);
    let b = opt_line(us, h.user);
    let c = opt_line(po, port_text(h.port));
    let dd = opt_line(idf, h.identity_file);
    let f = opt_line(pj, h.proxy_jump);
    let e = extra_lines(h.extra);
    let k = a + b + c + dd + f;
    let l = new_block_view(h).lines;
    assert(l == k + e);
    lemma_extra_lines_other(h.extra);
    assert forall|d: KnownDirective| #[trigger] known_texts(l, d) == known_texts(a, d) + known_texts(
        b,
        d,
    ) + known_texts(c, d) + known_texts(dd, d) + known_texts(f, d) by {
        assert forall|i: int| 0 <= i < e.len() implies !is_known_as(#[trigger] e[i], d) by {
            assert(e[i] is Other);
        }
        lemma_known_texts_none(e, d);
        lemma_known_texts_concat(k, e, d);
        lemma_known_texts_concat(a + b + c + dd, f, d);
        lemma_known_texts_concat(a + b + c, dd, d);
        lemma_known_texts_concat(a + b, c, d);
        lemma_known_texts_concat(a, b, d);
        assert(known_texts(l, d) =~= known_texts(a, d) + known_texts(b, d) + known_texts(c, d)
            + known_texts(dd, d) + known_texts(f, d));
    }
    lemma_opt_line(hn, h.host_name, hn);
    lemma_opt_line(us, h.user, hn);
    lemma_opt_line(po, port_text(h.port), hn);
    lemma_opt_line(idf, h.identity_file, hn);
    lemma_opt_line(pj, h.proxy_jump, hn);
    lemma_opt_line(hn, h.host_name, us);
    lemma_opt_line(us, h.user, us);
    lemma_opt_line(po, port_text(h.port), us);
    lemma_opt_line(idf, h.identity_file, us);
    lemma_opt_line(pj, h.proxy_jump, us);
    lemma_opt_line(hn, h.host_name, po);
    lemma_opt_line(us, h.user, po);
    lemma_opt_line(po, port_text(h.port), po);
    lemma_opt_line(idf, h.identity_file, po);
    lemma_opt_line(pj, h.proxy_jump, po);
    lemma_opt_line(hn, h.host_name, idf);
    lemma_opt_line(us, h.user, idf);
    lemma_opt_line(po, port_text(h.port), idf);
    lemma_opt_line(idf, h.identity_file, idf);
    lemma_opt_line(pj, h.proxy_jump, idf);
    lemma_opt_line(hn, h.host_name, pj);
    lemma_opt_line(us, h.user, pj);
    lemma_opt_line(po, port_text(h.port), pj);
    lemma_opt_line(idf, h.identity_file, pj);
    lemma_opt_line(pj, h.proxy_jump, pj);
    if let Some(x) = h.host_name {
        lemma_new_line_fixed(hn, x);
    }
    if let Some(x) = h.user {
        lemma_new_line_fixed(us, x);
    }
    if let Some(x) = port_text(h.port) {
        lemma_new_line_fixed(po, x);
    }
    if let Some(x) = h.identity_file {
        lemma_new_line_fixed(idf, x);
    }
    if let Some(x) = h.proxy_jump {
        lemma_new_line_fixed(pj, x);
    }
    assert(settled(l, hn, h.host_name));
    assert(settled(l, us, h.user));
    assert(settled(l, po, port_text(h.port)));
    assert(settled(l, idf, h.identity_file));
    assert(settled(l, pj, h.proxy_jump));
    assert forall|i: int| 0 <= i < k.len() implies #[trigger] k[i] is Known by {}
    lemma_extra_lines_other(h.extra);
    lemma_known_only_split(k, e);
}

/// The lines a host is written over: those of the block of `a`, or none for a new block.
pub open spec fn lines_for(segs: Seq<SegView>, a: Seq<char>) -> Seq<LineView> {
    if before_managed(segs, a) < segs.len() {
        segs[before_managed(segs, a) as int]->Managed_0.lines
    } else {
        Seq::empty()
    }
}

/// Writing the same host twice leaves the file as writing it once. A block being rewritten must
/// set each directive at most once, on a line that starts with its keyword (as every parsed line
/// does), and no value may merge with the terminator of the line it is written on: a value
/// ending with a carriage return on a line ending with a bare `\n` (as every new line does), or
/// a value ending with a line break on the file's unterminated last line.
pub proof fn law_upsert_twice(segs: Seq<SegView>, h: HostView)
    requires
        kept_in(lines_for(segs, h.alias), h),
        before_managed(segs, h.alias) < segs.len() ==> editable_block(
            segs[before_managed(segs, h.alias) as int]->Managed_0,
        ),
    ensures
        upsert_view(upsert_view(segs, h), h) == upsert_view(segs, h),
{
    let a = h.alias;
    lemma_before_managed(segs, a);
    let i = before_managed(segs, a) as int;
    let after = upsert_view(segs, h);
    if i < segs.len() {
        let b = segs[i]->Managed_0;
        lemma_rewrite_shows(b, h);
        let r = rewrite_view(b, h);
        assert forall|j: int| 0 <= j < i implies !is_managed_as(#[trigger] after[j], a) by {
            assert(after[j] == segs[j]);
        }
        lemma_before_managed_is(after, a, i);
        lemma_rewrite_idle(r, h);
        assert(after.update(i, SegView::Managed(r)) =~= after);
    } else {
        let e = ensure_appendable(segs);
        lemma_appendable_keeps_aliases(segs, a);
        let nb = new_block_view(h);
        assert(after == e.push(SegView::Managed(nb)));
        assert forall|j: int| 0 <= j < e.len() implies !is_managed_as(#[trigger] after[j], a) by {
            assert(after[j] == e[j]);
        }
        lemma_before_managed_is(after, a, e.len() as int);
        lemma_new_block_shows(h);
        lemma_rewrite_idle(nb, h);
        assert(after.update(e.len() as int, SegView::Managed(nb)) =~= after);
    }
}

} // verus!
