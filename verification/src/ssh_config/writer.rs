//! Surgical, in-memory editing of parsed [`Segment`]s.
//!
//! Rewriting a block sets each directive's value on its existing line, keeping the line's
//! indentation, keyword spelling and line ending; a cleared field loses its line and a new one
//! gets a line after the other directives; the block's remaining lines are replaced by the
//! advanced-options text. Every other block in the file is never even visited. File I/O
//! (atomic write, backup, permissions) is the frontend's job — this module only ever touches the
//! in-memory model.

use vstd::prelude::*;

use super::host::{HostView, SshHost};
use super::model::{
    keyword_of, lines_view, BlockLine, BlockView, KnownDirective, LineView, ManagedBlock,
    RawLine, SegView, Segment, raw_view, segs_view,
};
use crate::num::{decimal, decimal_chars};
use crate::text::{
    append_chars, chars_of, lead_ws, lead_ws_len, lemma_lead_ws, split_char,
    split_on, string_of, strip_terminator, subvec, tok_end, tok_len,
};
use super::parser::content_of;

verus! {

// ----------------------------------------------------------------------------------------------
// Specification
// ----------------------------------------------------------------------------------------------

pub open spec fn is_known_as(l: LineView, d: KnownDirective) -> bool {
    l matches LineView::Known(d2, _) && d2 == d
}

/// Number of leading lines that do not set `d`: the index of the first line that does, if any.
pub open spec fn before_known(lines: Seq<LineView>, d: KnownDirective) -> nat
    decreases lines.len(),
{
    if lines.len() > 0 && !is_known_as(lines[0], d) {
        1 + before_known(lines.drop_first(), d)
    } else {
        0
    }
}

/// The index just past the last known-directive line (0 when there is none).
pub open spec fn known_end(lines: Seq<LineView>) -> nat
    decreases lines.len(),
{
    if lines.len() == 0 {
        0
    } else if lines.last() is Known {
        lines.len()
    } else {
        known_end(lines.drop_last())
    }
}

/// The leading whitespace and keyword of a line.
pub open spec fn keyword_part(line: Seq<char>) -> Seq<char> {
    let content = strip_terminator(line);
    let start = lead_ws(content);
    content.take((start + tok_len(content.skip(start as int))) as int)
}

/// The line terminator (`\n`, `\r\n` or nothing).
pub open spec fn terminator(line: Seq<char>) -> Seq<char> {
    line.skip(strip_terminator(line).len() as int)
}

/// The line with its value replaced, keeping indentation, keyword casing and line ending.
pub open spec fn with_value(line: Seq<char>, v: Seq<char>) -> Seq<char> {
    keyword_part(line) + seq![' '] + v + terminator(line)
}

/// A brand-new directive line.
pub open spec fn new_line(d: KnownDirective, v: Seq<char>) -> Seq<char> {
    "    "@ + keyword_of(d) + seq![' '] + v + seq!['\n']
}

/// Sets, replaces or removes the first line of directive `d`; a new line goes right after the
/// last known-directive line.
pub open spec fn apply_known(lines: Seq<LineView>, d: KnownDirective, v: Option<Seq<char>>) -> Seq<
    LineView,
> {
    let i = before_known(lines, d);
    if i < lines.len() {
        match v {
            None => lines.remove(i as int),
            Some(v) => lines.update(i as int, LineView::Known(d, with_value(lines[i as int].text(), v))),
        }
    } else {
        match v {
            None => lines,
            Some(v) => lines.insert(known_end(lines) as int, LineView::Known(d, new_line(d, v))),
        }
    }
}

/// Only the known-directive lines.
pub open spec fn known_only(lines: Seq<LineView>) -> Seq<LineView>
    decreases lines.len(),
{
    if lines.len() == 0 {
        Seq::empty()
    } else if lines.last() is Known {
        known_only(lines.drop_last()).push(lines.last())
    } else {
        known_only(lines.drop_last())
    }
}

/// Pieces of text as opaque lines, each terminated.
pub open spec fn piece_lines(ps: Seq<Seq<char>>) -> Seq<LineView> {
    ps.map_values(|p: Seq<char>| LineView::Other(p + seq!['\n']))
}

/// The "advanced options" text as block lines: one line per `\n`-separated piece.
pub open spec fn extra_lines(extra: Seq<char>) -> Seq<LineView> {
    if extra.len() == 0 {
        Seq::empty()
    } else {
        piece_lines(split_on(extra, '\n'))
    }
}

/// The port as it is written into the file.
pub open spec fn port_text(p: Option<u16>) -> Option<Seq<char>> {
    match p {
        Some(p) => Some(decimal(p as nat)),
        None => None,
    }
}

/// A block rewritten to show `h`.
pub open spec fn rewrite_view(b: BlockView, h: HostView) -> BlockView {
    let l1 = apply_known(b.lines, KnownDirective::HostName, h.host_name);
    let l2 = apply_known(l1, KnownDirective::User, h.user);
    let l3 = apply_known(l2, KnownDirective::Port, port_text(h.port));
    let l4 = apply_known(l3, KnownDirective::IdentityFile, h.identity_file);
    let l5 = apply_known(l4, KnownDirective::ProxyJump, h.proxy_jump);
    BlockView {
        alias: h.alias,
        header: if h.alias != b.alias {
            with_value(b.header, h.alias)
        } else {
            b.header
        },
        lines: known_only(l5) + extra_lines(h.extra),
    }
}

pub open spec fn opt_line(d: KnownDirective, v: Option<Seq<char>>) -> Seq<LineView> {
    match v {
        Some(v) => seq![LineView::Known(d, new_line(d, v))],
        None => Seq::empty(),
    }
}

/// A brand-new block for `h`.
pub open spec fn new_block_view(h: HostView) -> BlockView {
    BlockView {
        alias: h.alias,
        header: "Host "@ + h.alias + seq!['\n'],
        lines: opt_line(KnownDirective::HostName, h.host_name) + opt_line(
            KnownDirective::User,
            h.user,
        ) + opt_line(KnownDirective::Port, port_text(h.port)) + opt_line(
            KnownDirective::IdentityFile,
            h.identity_file,
        ) + opt_line(KnownDirective::ProxyJump, h.proxy_jump) + extra_lines(h.extra),
    }
}

/// A line ending with `\n`.
pub open spec fn terminated(t: Seq<char>) -> Seq<char> {
    if t.len() > 0 && t.last() == '\n' {
        t
    } else {
        t.push('\n')
    }
}

/// Terminates the last line of the file, if it is missing its newline.
pub open spec fn terminate_last(segs: Seq<SegView>) -> Seq<SegView> {
    if segs.len() == 0 {
        segs
    } else {
        let last = segs.len() - 1;
        match segs[last] {
            SegView::Raw(ls) => if ls.len() == 0 {
                segs
            } else {
                segs.update(last, SegView::Raw(ls.update(ls.len() - 1, terminated(ls.last()))))
            },
            SegView::Managed(b) => if b.lines.len() == 0 {
                segs.update(
                    last,
                    SegView::Managed(
                        BlockView { alias: b.alias, header: terminated(b.header), lines: b.lines },
                    ),
                )
            } else {
                let l = b.lines.last();
                let t = match l {
                    LineView::Known(d, t) => LineView::Known(d, terminated(t)),
                    LineView::Other(t) => LineView::Other(terminated(t)),
                };
                segs.update(
                    last,
                    SegView::Managed(
                        BlockView {
                            alias: b.alias,
                            header: b.header,
                            lines: b.lines.update(b.lines.len() - 1, t),
                        },
                    ),
                )
            },
        }
    }
}

/// Appends a raw line, to the trailing raw segment if there is one.
pub open spec fn push_raw(segs: Seq<SegView>, text: Seq<char>) -> Seq<SegView> {
    if segs.len() > 0 && segs.last() is Raw {
        segs.update(segs.len() - 1, SegView::Raw(segs.last()->Raw_0.push(text)))
    } else {
        segs.push(SegView::Raw(seq![text]))
    }
}

/// Makes room for a new block: terminates the last line and adds one blank separator line
/// (nothing for an empty file).
pub open spec fn ensure_appendable(segs: Seq<SegView>) -> Seq<SegView> {
    if segs.len() == 0 {
        segs
    } else {
        push_raw(terminate_last(segs), seq!['\n'])
    }
}

pub open spec fn is_managed_as(s: SegView, alias: Seq<char>) -> bool {
    s matches SegView::Managed(b) && b.alias == alias
}

/// Number of leading segments that are not the rewritable block of `alias`: the index of that
/// block, if any.
pub open spec fn before_managed(segs: Seq<SegView>, alias: Seq<char>) -> nat
    decreases segs.len(),
{
    if segs.len() > 0 && !is_managed_as(segs[0], alias) {
        1 + before_managed(segs.drop_first(), alias)
    } else {
        0
    }
}

/// Create or update the block of `h.alias`.
pub open spec fn upsert_view(segs: Seq<SegView>, h: HostView) -> Seq<SegView> {
    let i = before_managed(segs, h.alias);
    if i < segs.len() {
        segs.update(i as int, SegView::Managed(rewrite_view(segs[i as int]->Managed_0, h)))
    } else {
        ensure_appendable(segs).push(SegView::Managed(new_block_view(h)))
    }
}

/// Update the block of `previous` (a rename) if there is one, otherwise upsert.
pub open spec fn upsert_renaming_view(
    segs: Seq<SegView>,
    previous: Option<Seq<char>>,
    h: HostView,
) -> Seq<SegView> {
    match previous {
        Some(p) => if before_managed(segs, p) < segs.len() {
            let i = before_managed(segs, p);
            segs.update(i as int, SegView::Managed(rewrite_view(segs[i as int]->Managed_0, h)))
        } else {
            upsert_view(segs, h)
        },
        None => upsert_view(segs, h),
    }
}

// ----------------------------------------------------------------------------------------------
// Lemmas on the searches
// ----------------------------------------------------------------------------------------------

proof fn lemma_before_known_is(lines: Seq<LineView>, d: KnownDirective, n: int)
    requires
        0 <= n <= lines.len(),
        forall|i: int| 0 <= i < n ==> !is_known_as(#[trigger] lines[i], d),
        n < lines.len() ==> is_known_as(lines[n], d),
    ensures
        before_known(lines, d) == n,
    decreases n,
{
    if n > 0 {
        assert forall|i: int| 0 <= i < n - 1 implies !is_known_as(#[trigger] lines.drop_first()[i], d) by {
            assert(lines.drop_first()[i] == lines[i + 1]);
        }
        if n < lines.len() {
            assert(lines.drop_first()[n - 1] == lines[n]);
        }
        assert(!is_known_as(lines[0], d));
        lemma_before_known_is(lines.drop_first(), d, n - 1);
    }
}

proof fn lemma_known_end_is(lines: Seq<LineView>, n: int)
    requires
        0 <= n <= lines.len(),
        forall|i: int| n <= i < lines.len() ==> !(#[trigger] lines[i] is Known),
        n > 0 ==> lines[n - 1] is Known,
    ensures
        known_end(lines) == n,
    decreases lines.len(),
{
    if lines.len() > 0 && n < lines.len() {
        let d = lines.drop_last();
        assert forall|i: int| n <= i < d.len() implies !(#[trigger] d[i] is Known) by {
            assert(d[i] == lines[i]);
        }
        if n > 0 {
            assert(d[n - 1] == lines[n - 1]);
        }
        assert(!(lines[lines.len() - 1] is Known));
        lemma_known_end_is(d, n);
    }
}

proof fn lemma_before_managed_is(segs: Seq<SegView>, a: Seq<char>, n: int)
    requires
        0 <= n <= segs.len(),
        forall|i: int| 0 <= i < n ==> !is_managed_as(#[trigger] segs[i], a),
        n < segs.len() ==> is_managed_as(segs[n], a),
    ensures
        before_managed(segs, a) == n,
    decreases n,
{
    if n > 0 {
        assert forall|i: int| 0 <= i < n - 1 implies !is_managed_as(#[trigger] segs.drop_first()[i], a) by {
            assert(segs.drop_first()[i] == segs[i + 1]);
        }
        if n < segs.len() {
            assert(segs.drop_first()[n - 1] == segs[n]);
        }
        assert(!is_managed_as(segs[0], a));
        lemma_before_managed_is(segs.drop_first(), a, n - 1);
    }
}

// ----------------------------------------------------------------------------------------------
// Executable edits
// ----------------------------------------------------------------------------------------------

/// Index of the first rewritable block of `alias`, if any.
pub fn find_managed_index(segments: &Vec<Segment>, alias: &str) -> (r: Option<usize>)
    ensures
        match r {
            Some(i) => i == before_managed(segs_view(segments@), alias@) && i < segments.len()
                && is_managed_as(segs_view(segments@)[i as int], alias@),
            None => before_managed(segs_view(segments@), alias@) >= segments.len(),
        },
{
    let ghost sv = segs_view(segments@);
    let mut i: usize = 0;
    while i < segments.len()
        invariant
            i <= segments.len(),
            sv == segs_view(segments@),
            forall|j: int| 0 <= j < i ==> !is_managed_as(#[trigger] sv[j], alias@),
        decreases segments.len() - i,
    {
        let found = match &segments[i] {
            Segment::Managed(b) => crate::text::same_text(b.alias.as_str(), alias),
            Segment::Raw(_) => false,
        };
        proof {
            assert(sv[i as int] == segments@[i as int]@);
        }
        if found {
            proof {
                lemma_before_managed_is(sv, alias@, i as int);
            }
            return Some(i);
        }
        i += 1;
    }
    proof {
        lemma_before_managed_is(sv, alias@, i as int);
    }
    None
}

fn find_known_index(block: &ManagedBlock, d: KnownDirective) -> (r: usize)
    ensures
        r == before_known(block@.lines, d),
        r <= block.lines.len(),
{
    let ghost lv = block@.lines;
    let mut i: usize = 0;
    while i < block.lines.len()
        invariant
            i <= block.lines.len(),
            lv == block@.lines,
            forall|j: int| 0 <= j < i ==> !is_known_as(#[trigger] lv[j], d),
        decreases block.lines.len() - i,
    {
        let found = match &block.lines[i] {
            BlockLine::Known { directive, .. } => *directive == d,
            BlockLine::Other(_) => false,
        };
        proof {
            assert(lv[i as int] == block.lines@[i as int]@);
        }
        if found {
            proof {
                lemma_before_known_is(lv, d, i as int);
            }
            return i;
        }
        i += 1;
    }
    proof {
        lemma_before_known_is(lv, d, i as int);
    }
    i
}

fn last_known_end(block: &ManagedBlock) -> (r: usize)
    ensures
        r == known_end(block@.lines),
        r <= block.lines.len(),
{
    let ghost lv = block@.lines;
    let mut i = block.lines.len();
    while i > 0
        invariant
            i <= block.lines.len(),
            lv == block@.lines,
            forall|j: int| i <= j < lv.len() ==> !(#[trigger] lv[j] is Known),
        decreases i,
    {
        let known = match &block.lines[i - 1] {
            BlockLine::Known { .. } => true,
            BlockLine::Other(_) => false,
        };
        proof {
            assert(lv[i - 1] == block.lines@[i - 1]@);
        }
        if known {
            proof {
                lemma_known_end_is(lv, i as int);
            }
            return i;
        }
        i -= 1;
    }
    proof {
        lemma_known_end_is(lv, 0);
    }
    0
}

/// `with_value`, computed.
fn replace_value(line: &RawLine, v: &Vec<char>) -> (r: RawLine)
    ensures
        r@ == with_value(line@, v@),
{
    let text = chars_of(line.0.as_str());
    let content = content_of(&text);
    let start = lead_ws_len(&content, 0);
    let end = tok_end(&content, start);
    let mut out = subvec(&content, 0, end);
    out.push(' ');
    append_chars(&mut out, v);
    let term = subvec(&text, content.len(), text.len());
    append_chars(&mut out, &term);
    proof {
        assert(content@.skip(0) =~= content@);
        lemma_lead_ws(content@);
        assert(content@.skip(start as int) =~= content@.skip(lead_ws(content@) as int));
        assert(strip_terminator(text@).len() <= text@.len());
        assert(out@ =~= with_value(line@, v@));
    }
    RawLine(string_of(out.as_slice()))
}

fn new_line_exec(d: KnownDirective, v: &Vec<char>) -> (r: RawLine)
    ensures
        r@ == new_line(d, v@),
{
    let mut s = String::from_str("    ");
    s.append(d.keyword());
    s.append(" ");
    let mut out = chars_of(s.as_str());
    append_chars(&mut out, v);
    out.push('\n');
    proof {
        reveal_strlit(" ");
        assert(out@ =~= new_line(d, v@));
    }
    RawLine(string_of(out.as_slice()))
}

/// Sets, replaces or removes directive `d` in a block: its line is removed when `v` is `None`,
/// its value replaced (keyword, indentation and terminator kept) when `v` is given, and a new
/// line is inserted right after the last directive line when there was none.
pub fn apply_known_field(block: &mut ManagedBlock, d: KnownDirective, v: Option<Vec<char>>)
    ensures
        final(block)@ == (BlockView {
            alias: old(block)@.alias,
            header: old(block)@.header,
            lines: apply_known(old(block)@.lines, d, crate::ssh_config::host::opt_chars(v)),
        }),
{
    let i = find_known_index(block, d);
    if i < block.lines.len() {
        match v {
            None => {
                let ghost before = block.lines@;
                block.lines.remove(i);
                proof {
                    assert(lines_view(block.lines@) =~= lines_view(before).remove(i as int));
                }
            },
            Some(v) => {
                let new_line = match &block.lines[i] {
                    BlockLine::Known { line, .. } => replace_value(line, &v),
                    BlockLine::Other(line) => replace_value(line, &v),
                };
                let ghost before = block.lines@;
                proof {
                    assert(before[i as int]@.text() == match &block.lines@[i as int] {
                        BlockLine::Known { line, .. } => line@,
                        BlockLine::Other(line) => line@,
                    });
                }
                block.lines.set(i, BlockLine::Known { directive: d, line: new_line });
                proof {
                    assert(lines_view(block.lines@) =~= lines_view(before).update(
                        i as int,
                        LineView::Known(d, with_value(lines_view(before)[i as int].text(), v@)),
                    ));
                }
            },
        }
    } else {
        match v {
            None => {},
            Some(v) => {
                let at = last_known_end(block);
                let ghost before = block.lines@;
                let line = new_line_exec(d, &v);
                block.lines.insert(at, BlockLine::Known { directive: d, line });
                proof {
                    assert(lines_view(block.lines@) =~= lines_view(before).insert(
                        at as int,
                        LineView::Known(d, new_line(d, v@)),
                    ));
                }
            },
        }
    }
}

fn clone_line(l: &BlockLine) -> (r: BlockLine)
    ensures
        r@ == l@,
{
    match l {
        BlockLine::Known { directive, line } => BlockLine::Known {
            directive: *directive,
            line: RawLine(line.0.clone()),
        },
        BlockLine::Other(line) => BlockLine::Other(RawLine(line.0.clone())),
    }
}

fn extra_block_lines(extra: &str) -> (r: Vec<BlockLine>)
    ensures
        lines_view(r@) == extra_lines(extra@),
{
    let mut out: Vec<BlockLine> = Vec::new();
    let v = chars_of(extra);
    if v.len() == 0 {
        proof {
            assert(lines_view(out@) =~= extra_lines(extra@));
        }
        return out;
    }
    let pieces = split_char(&v, '\n');
    let ghost target = extra_lines(extra@);
    let mut i: usize = 0;
    while i < pieces.len()
        invariant
            i <= pieces.len(),
            v@ == extra@,
            v@.len() > 0,
            target == extra_lines(extra@),
            pieces@.len() == split_on(v@, '\n').len(),
            forall|k: int| 0 <= k < pieces@.len() ==> #[trigger] pieces@[k]@ == split_on(v@, '\n')[k],
            lines_view(out@) == target.take(i as int),
        decreases pieces.len() - i,
    {
        let mut t = subvec(&pieces[i], 0, pieces[i].len());
        t.push('\n');
        let ghost before = lines_view(out@);
        out.push(BlockLine::Other(RawLine(string_of(t.as_slice()))));
        proof {
            assert(pieces@[i as int]@.subrange(0, pieces@[i as int]@.len() as int) =~= pieces@[i as int]@);
            assert(extra@.len() > 0);
            assert(target == piece_lines(split_on(v@, '\n')));
            assert(t@ == split_on(v@, '\n')[i as int] + seq!['\n']);
            assert(target[i as int] == LineView::Other(split_on(v@, '\n')[i as int] + seq!['\n']));
            assert(lines_view(out@) =~= before.push(target[i as int]));
            assert(target.take(i + 1) =~= target.take(i as int).push(target[i as int]));
        }
        i += 1;
    }
    proof {
        assert(target.take(pieces.len() as int) =~= target);
    }
    out
}

/// Replace the block's free-form "advanced options" text (everything that isn't one of the known
/// fields) wholesale, keeping it grouped right after the known-directive lines.
fn replace_extra_lines(block: &mut ManagedBlock, extra: &str)
    ensures
        final(block)@ == (BlockView {
            alias: old(block)@.alias,
            header: old(block)@.header,
            lines: known_only(old(block)@.lines) + extra_lines(extra@),
        }),
{
    let ghost lv = block@.lines;
    let mut kept: Vec<BlockLine> = Vec::new();
    let mut i: usize = 0;
    assert(lv.take(0) =~= Seq::<LineView>::empty());
    while i < block.lines.len()
        invariant
            i <= block.lines.len(),
            lv == block@.lines,
            lines_view(kept@) == known_only(lv.take(i as int)),
        decreases block.lines.len() - i,
    {
        proof {
            assert(lv.take(i + 1).drop_last() =~= lv.take(i as int));
            assert(lv.take(i + 1).last() == block.lines@[i as int]@);
        }
        let known = match &block.lines[i] {
            BlockLine::Known { .. } => true,
            BlockLine::Other(_) => false,
        };
        if known {
            let ghost before = lines_view(kept@);
            let l = clone_line(&block.lines[i]);
            kept.push(l);
            proof {
                assert(lines_view(kept@) =~= before.push(block.lines@[i as int]@));
            }
        }
        i += 1;
    }
    proof {
        assert(lv.take(block.lines.len() as int) =~= lv);
    }
    let more = extra_block_lines(extra);
    let ghost kv = lines_view(kept@);
    let mut j: usize = 0;
    while j < more.len()
        invariant
            j <= more.len(),
            lines_view(kept@) == kv + lines_view(more@).take(j as int),
        decreases more.len() - j,
    {
        let l = clone_line(&more[j]);
        let ghost before = lines_view(kept@);
        kept.push(l);
        proof {
            assert(lines_view(kept@) =~= before.push(more@[j as int]@));
            assert(lines_view(more@).take(j + 1) =~= lines_view(more@).take(j as int).push(
                more@[j as int]@,
            ));
        }
        j += 1;
    }
    proof {
        assert(lines_view(more@).take(more.len() as int) =~= lines_view(more@));
    }
    block.lines = kept;
}

fn opt_chars_of(o: &Option<String>) -> (r: Option<Vec<char>>)
    ensures
        crate::ssh_config::host::opt_chars(r) == o.deep_view(),
{
    match o {
        Some(s) => Some(chars_of(s.as_str())),
        None => None,
    }
}

fn port_chars(p: Option<u16>) -> (r: Option<Vec<char>>)
    ensures
        crate::ssh_config::host::opt_chars(r) == port_text(p),
{
    match p {
        Some(p) => Some(decimal_chars(p)),
        None => None,
    }
}

/// Rewrites a block in place so that it shows `host`.
fn rewrite_block(block: &mut ManagedBlock, host: &SshHost)
    ensures
        final(block)@ == rewrite_view(old(block)@, host@),
{
    if !crate::text::same_text(host.alias.as_str(), block.alias.as_str()) {
        let a = chars_of(host.alias.as_str());
        block.header = replace_value(&block.header, &a);
        block.alias = host.alias.clone();
    } else {
        block.alias = host.alias.clone();
    }
    apply_known_field(block, KnownDirective::HostName, opt_chars_of(&host.host_name));
    apply_known_field(block, KnownDirective::User, opt_chars_of(&host.user));
    apply_known_field(block, KnownDirective::Port, port_chars(host.port));
    apply_known_field(block, KnownDirective::IdentityFile, opt_chars_of(&host.identity_file));
    apply_known_field(block, KnownDirective::ProxyJump, opt_chars_of(&host.proxy_jump));
    replace_extra_lines(block, host.extra.as_str());
}

fn push_known(lines: &mut Vec<BlockLine>, d: KnownDirective, v: Option<Vec<char>>)
    ensures
        lines_view(final(lines)@) == lines_view(old(lines)@) + opt_line(
            d,
            crate::ssh_config::host::opt_chars(v),
        ),
{
    match v {
        Some(v) => {
            let ghost before = lines_view(lines@);
            let line = new_line_exec(d, &v);
            lines.push(BlockLine::Known { directive: d, line });
            proof {
                assert(lines_view(lines@) =~= before + opt_line(d, Some(v@)));
            }
        },
        None => {
            proof {
                assert(lines_view(lines@) + Seq::<LineView>::empty() =~= lines_view(lines@));
            }
        },
    }
}

/// A brand-new `Host <alias>` block for `host`.
fn build_new_block(host: &SshHost) -> (b: ManagedBlock)
    ensures
        b@ == new_block_view(host@),
{
    let mut header = String::from_str("Host ");
    header.append(host.alias.as_str());
    header.append("\n");
    let mut lines: Vec<BlockLine> = Vec::new();
    push_known(&mut lines, KnownDirective::HostName, opt_chars_of(&host.host_name));
    push_known(&mut lines, KnownDirective::User, opt_chars_of(&host.user));
    push_known(&mut lines, KnownDirective::Port, port_chars(host.port));
    push_known(&mut lines, KnownDirective::IdentityFile, opt_chars_of(&host.identity_file));
    push_known(&mut lines, KnownDirective::ProxyJump, opt_chars_of(&host.proxy_jump));
    let more = extra_block_lines(host.extra.as_str());
    let ghost kv = lines_view(lines@);
    let mut j: usize = 0;
    while j < more.len()
        invariant
            j <= more.len(),
            lines_view(lines@) == kv + lines_view(more@).take(j as int),
        decreases more.len() - j,
    {
        let l = clone_line(&more[j]);
        let ghost before = lines_view(lines@);
        lines.push(l);
        proof {
            assert(lines_view(lines@) =~= before.push(more@[j as int]@));
            assert(lines_view(more@).take(j + 1) =~= lines_view(more@).take(j as int).push(
                more@[j as int]@,
            ));
        }
        j += 1;
    }
    proof {
        assert(lines_view(more@).take(more.len() as int) =~= lines_view(more@));
        reveal_strlit("\n");
    }
    let b = ManagedBlock { alias: host.alias.clone(), header: RawLine(header), lines };
    proof {
        assert(b@.header =~= new_block_view(host@).header);
        assert(b@.lines =~= new_block_view(host@).lines);
    }
    b
}

fn terminated_line(line: RawLine) -> (r: RawLine)
    ensures
        r@ == terminated(line@),
{
    let mut v = chars_of(line.0.as_str());
    let n = v.len();
    if n > 0 && v[n - 1] == '\n' {
        line
    } else {
        v.push('\n');
        RawLine(string_of(v.as_slice()))
    }
}

fn terminate_last_line(segments: &mut Vec<Segment>)
    ensures
        segs_view(final(segments)@) == terminate_last(segs_view(old(segments)@)),
{
    let ghost sv = segs_view(segments@);
    if segments.len() == 0 {
        return ;
    }
    let seg = segments.pop().unwrap();
    proof {
        assert(sv[sv.len() - 1] == seg@);
        assert(segs_view(segments@) =~= sv.drop_last());
    }
    let fixed = match seg {
        Segment::Raw(mut lines) => {
            if lines.len() > 0 {
                let ghost lv = raw_view(lines@);
                let last = lines.pop().unwrap();
                let t = terminated_line(last);
                lines.push(t);
                proof {
                    assert(raw_view(lines@) =~= lv.update(lv.len() - 1, terminated(lv.last())));
                }
            }
            Segment::Raw(lines)
        },
        Segment::Managed(mut b) => {
            if b.lines.len() == 0 {
                b.header = terminated_line(b.header);
            } else {
                let ghost lv = lines_view(b.lines@);
                let last = b.lines.pop().unwrap();
                let t = match last {
                    BlockLine::Known { directive, line } => BlockLine::Known {
                        directive,
                        line: terminated_line(line),
                    },
                    BlockLine::Other(line) => BlockLine::Other(terminated_line(line)),
                };
                b.lines.push(t);
                proof {
                    assert(lines_view(b.lines@) =~= lv.update(
                        lv.len() - 1,
                        match lv.last() {
                            LineView::Known(d, t) => LineView::Known(d, terminated(t)),
                            LineView::Other(t) => LineView::Other(terminated(t)),
                        },
                    ));
                }
            }
            Segment::Managed(b)
        },
    };
    let ghost fv = fixed@;
    segments.push(fixed);
    proof {
        assert(segs_view(segments@) =~= sv.update(sv.len() - 1, fv));
    }
}

fn push_raw_line(segments: &mut Vec<Segment>, text: &str)
    ensures
        segs_view(final(segments)@) == push_raw(segs_view(old(segments)@), text@),
{
    let ghost sv = segs_view(segments@);
    let n = segments.len();
    let last_is_raw = n > 0 && match &segments[n - 1] {
        Segment::Raw(_) => true,
        Segment::Managed(_) => false,
    };
    if last_is_raw {
        let seg = segments.pop().unwrap();
        proof {
            assert(sv.last() == seg@);
            assert(segs_view(segments@) =~= sv.drop_last());
        }
        match seg {
            Segment::Raw(mut lines) => {
                let ghost lv = raw_view(lines@);
                lines.push(RawLine(String::from_str(text)));
                proof {
                    assert(raw_view(lines@) =~= lv.push(text@));
                }
                let ghost nv = raw_view(lines@);
                segments.push(Segment::Raw(lines));
                proof {
                    assert(segs_view(segments@) =~= sv.update(sv.len() - 1, SegView::Raw(nv)));
                }
            },
            Segment::Managed(b) => {
                segments.push(Segment::Managed(b));
            },
        }
    } else {
        let mut lines: Vec<RawLine> = Vec::new();
        lines.push(RawLine(String::from_str(text)));
        proof {
            assert(raw_view(lines@) =~= seq![text@]);
        }
        segments.push(Segment::Raw(lines));
        proof {
            assert(segs_view(segments@) =~= sv.push(SegView::Raw(seq![text@])));
        }
    }
}

/// Make sure a brand-new block can be appended cleanly: terminate the file's last line if it was
/// missing a trailing newline, then add one blank separator line (skipped for an empty file).
fn ensure_appendable_exec(segments: &mut Vec<Segment>)
    ensures
        segs_view(final(segments)@) == ensure_appendable(segs_view(old(segments)@)),
{
    if segments.len() == 0 {
        return ;
    }
    let ghost sv = segs_view(segments@);
    terminate_last_line(segments);
    proof {
        reveal_strlit("\n");
        assert("\n"@ =~= seq!['\n']);
    }
    push_raw_line(segments, "\n");
}

/// Rewrites the segment at `idx`, which must be a rewritable block.
fn rewrite_at(segments: &mut Vec<Segment>, idx: usize, host: &SshHost)
    requires
        idx < old(segments).len(),
        segs_view(old(segments)@)[idx as int] is Managed,
    ensures
        segs_view(final(segments)@) == segs_view(old(segments)@).update(
            idx as int,
            SegView::Managed(rewrite_view(segs_view(old(segments)@)[idx as int]->Managed_0, host@)),
        ),
{
    let ghost sv = segs_view(segments@);
    let seg = segments.remove(idx);
    proof {
        assert(seg@ == sv[idx as int]);
        assert(segs_view(segments@) =~= sv.remove(idx as int));
    }
    match seg {
        Segment::Managed(mut b) => {
            rewrite_block(&mut b, host);
            let ghost bv = b@;
            segments.insert(idx, Segment::Managed(b));
            proof {
                assert(segs_view(segments@) =~= sv.update(idx as int, SegView::Managed(bv)));
            }
        },
        Segment::Raw(lines) => {
            segments.insert(idx, Segment::Raw(lines));
        },
    }
}

/// Create or update the `Host <alias>` block matching `host.alias`, appending a new block at the
/// end of the file if none exists yet.
pub fn upsert(segments: &mut Vec<Segment>, host: &SshHost)
    ensures
        segs_view(final(segments)@) == upsert_view(segs_view(old(segments)@), host@),
{
    match find_managed_index(segments, host.alias.as_str()) {
        Some(idx) => {
            rewrite_at(segments, idx, host);
        },
        None => {
            let ghost sv = segs_view(segments@);
            ensure_appendable_exec(segments);
            let ghost av = segs_view(segments@);
            let block = build_new_block(host);
            let ghost bv = block@;
            segments.push(Segment::Managed(block));
            proof {
                assert(segs_view(segments@) =~= av.push(SegView::Managed(bv)));
            }
        },
    }
}

/// Upsert under a possibly-renamed alias: `previous_alias` locates the block to edit even when
/// `host.alias` differs from it (renaming), falling back to `upsert` otherwise.
pub fn upsert_renaming(segments: &mut Vec<Segment>, previous_alias: Option<&str>, host: &SshHost)
    ensures
        segs_view(final(segments)@) == upsert_renaming_view(
            segs_view(old(segments)@),
            match previous_alias {
                Some(p) => Some(p@),
                None => None,
            },
            host@,
        ),
{
    let idx = match previous_alias {
        Some(a) => find_managed_index(segments, a),
        None => None,
    };
    match idx {
        Some(idx) => {
            rewrite_at(segments, idx, host);
        },
        None => {
            upsert(segments, host);
        },
    }
}

/// Remove the `Host <alias>` block entirely. Returns `false`, changing nothing, if no such block
/// exists.
pub fn remove(segments: &mut Vec<Segment>, alias: &str) -> (removed: bool)
    ensures
        removed == (before_managed(segs_view(old(segments)@), alias@) < old(segments).len()),
        removed ==> segs_view(final(segments)@) == segs_view(old(segments)@).remove(
            before_managed(segs_view(old(segments)@), alias@) as int,
        ),
        !removed ==> final(segments)@ == old(segments)@,
{
    match find_managed_index(segments, alias) {
        Some(idx) => {
            let ghost sv = segs_view(segments@);
            segments.remove(idx);
            proof {
                assert(segs_view(segments@) =~= sv.remove(idx as int));
            }
            true
        },
        None => false,
    }
}

} // verus!
