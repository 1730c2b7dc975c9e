//! Host entries as the UI sees them, read out of parsed segments.

use vstd::prelude::*;

use super::model::{BlockLine, BlockView, KnownDirective, LineView, ManagedBlock, RawLine, SegView, Segment, segs_view};
use super::parser::{content_of, directive_of, directive_of_exec, plain_pattern, split_words, vecs_view};
use crate::num::{parse_u16, parse_u16_exec};
use crate::text::{
    chars_of, eq_ignore_case, eq_ignore_case_exec, join, join_chars, string_of, strip_terminator,
    value_bounds, value_of, words,
};

verus! {

/// A host entry as shown to the UI, whether it came from a rewritable `Host <alias>` block, a
/// read-only wildcard/multi-pattern block, or an `Include`d file.
#[derive(Debug, Clone, Default, PartialEq, Eq)]
pub struct SshHost {
    pub alias: String,
    pub host_name: Option<String>,
    pub user: Option<String>,
    pub port: Option<u16>,
    pub identity_file: Option<String>,
    pub proxy_jump: Option<String>,
    /// Every directive not mapped to a dedicated field above, verbatim, one per line, in
    /// file order — this is exactly what the "advanced options" text shows and edits.
    pub extra: String,
    /// True for wildcard/multi-pattern `Host` blocks and anything coming from an `Include`d
    /// file: never rewritten, editing is disabled in the UI.
    pub read_only: bool,
}

pub struct HostView {
    pub alias: Seq<char>,
    pub host_name: Option<Seq<char>>,
    pub user: Option<Seq<char>>,
    pub port: Option<u16>,
    pub identity_file: Option<Seq<char>>,
    pub proxy_jump: Option<Seq<char>>,
    pub extra: Seq<char>,
    pub read_only: bool,
}

impl View for SshHost {
    type V = HostView;

    open spec fn view(&self) -> HostView {
        HostView {
            alias: self.alias@,
            host_name: self.host_name.deep_view(),
            user: self.user.deep_view(),
            port: self.port,
            identity_file: self.identity_file.deep_view(),
            proxy_jump: self.proxy_jump.deep_view(),
            extra: self.extra@,
            read_only: self.read_only,
        }
    }
}

pub open spec fn hosts_view(v: Seq<SshHost>) -> Seq<HostView> {
    v.map_values(|h: SshHost| h@)
}

/// A fresh host with only its alias set.
pub open spec fn empty_host(alias: Seq<char>) -> HostView {
    HostView {
        alias,
        host_name: None,
        user: None,
        port: None,
        identity_file: None,
        proxy_jump: None,
        extra: Seq::empty(),
        read_only: false,
    }
}

// ----------------------------------------------------------------------------------------------
// Managed blocks: the last line of each directive wins
// ----------------------------------------------------------------------------------------------

/// The value of the last line of `lines` that sets `d`.
pub open spec fn last_known(lines: Seq<LineView>, d: KnownDirective) -> Option<Seq<char>>
    decreases lines.len(),
{
    if lines.len() == 0 {
        None
    } else {
        match lines.last() {
            LineView::Known(d2, t) => if d2 == d {
                Some(value_of(strip_terminator(t)))
            } else {
                last_known(lines.drop_last(), d)
            },
            LineView::Other(_) => last_known(lines.drop_last(), d),
        }
    }
}

/// The opaque lines of a block, terminators stripped.
pub open spec fn other_lines(lines: Seq<LineView>) -> Seq<Seq<char>>
    decreases lines.len(),
{
    if lines.len() == 0 {
        Seq::empty()
    } else {
        match lines.last() {
            LineView::Other(t) => other_lines(lines.drop_last()).push(strip_terminator(t)),
            LineView::Known(_, _) => other_lines(lines.drop_last()),
        }
    }
}

/// A port value as the UI shows it: unparsable values show as no port.
pub open spec fn port_of(v: Option<Seq<char>>) -> Option<u16> {
    match v {
        Some(t) => parse_u16(t),
        None => None,
    }
}

/// The host a rewritable block stands for.
pub open spec fn host_from_block(b: BlockView) -> HostView {
    HostView {
        alias: b.alias,
        host_name: last_known(b.lines, KnownDirective::HostName),
        user: last_known(b.lines, KnownDirective::User),
        port: port_of(last_known(b.lines, KnownDirective::Port)),
        identity_file: last_known(b.lines, KnownDirective::IdentityFile),
        proxy_jump: last_known(b.lines, KnownDirective::ProxyJump),
        extra: join(other_lines(b.lines), seq!['\n']),
        read_only: false,
    }
}

// ----------------------------------------------------------------------------------------------
// Read-only blocks: the first line of each directive wins
// ----------------------------------------------------------------------------------------------

/// The value of the first line of `ls` that sets `d`.
pub open spec fn first_value(ls: Seq<Seq<char>>, d: KnownDirective) -> Option<Seq<char>>
    decreases ls.len(),
{
    if ls.len() == 0 {
        None
    } else if directive_of(ls[0]) == Some(d) {
        Some(value_of(strip_terminator(ls[0])))
    } else {
        first_value(ls.drop_first(), d)
    }
}

/// The first `Port` line whose value parses.
pub open spec fn first_port(ls: Seq<Seq<char>>) -> Option<u16>
    decreases ls.len(),
{
    if ls.len() == 0 {
        None
    } else if directive_of(ls[0]) == Some(KnownDirective::Port) && parse_u16(
        value_of(strip_terminator(ls[0])),
    ) is Some {
        parse_u16(value_of(strip_terminator(ls[0])))
    } else {
        first_port(ls.drop_first())
    }
}

/// The patterns of a `Host` line.
pub open spec fn host_patterns(line: Seq<char>) -> Option<Seq<Seq<char>>> {
    let ws = words(strip_terminator(line));
    if ws.len() > 0 && eq_ignore_case(ws[0], "host"@) {
        Some(ws.drop_first())
    } else {
        None
    }
}

/// Best-effort, read-only reading of a raw `Host` block with several or wildcard patterns.
pub open spec fn raw_host(ls: Seq<Seq<char>>) -> Option<HostView> {
    if ls.len() == 0 {
        None
    } else {
        match host_patterns(ls[0]) {
            Some(p) => if p.len() == 1 && plain_pattern(p[0]) {
                None
            } else {
                let body = ls.drop_first();
                Some(
                    HostView {
                        alias: join(p, seq![' ']),
                        host_name: first_value(body, KnownDirective::HostName),
                        user: first_value(body, KnownDirective::User),
                        port: first_port(body),
                        identity_file: first_value(body, KnownDirective::IdentityFile),
                        proxy_jump: first_value(body, KnownDirective::ProxyJump),
                        extra: Seq::empty(),
                        read_only: true,
                    },
                )
            },
            None => None,
        }
    }
}

/// The host a segment shows, if any.
pub open spec fn seg_host(s: SegView) -> Option<HostView> {
    match s {
        SegView::Managed(b) => Some(host_from_block(b)),
        SegView::Raw(ls) => raw_host(ls),
    }
}

/// An optional value as a sequence of zero or one element.
pub open spec fn opt_seq<T>(o: Option<T>) -> Seq<T> {
    match o {
        Some(x) => seq![x],
        None => Seq::empty(),
    }
}

/// Every host the segments show, in file order.
pub open spec fn hosts_of(segs: Seq<SegView>) -> Seq<HostView>
    decreases segs.len(),
{
    if segs.len() == 0 {
        Seq::empty()
    } else {
        opt_seq(seg_host(segs[0])) + hosts_of(segs.drop_first())
    }
}

/// The same hosts, marked read-only.
pub open spec fn read_only_hosts(hs: Seq<HostView>) -> Seq<HostView> {
    hs.map_values(
        |h: HostView|
            HostView {
                alias: h.alias,
                host_name: h.host_name,
                user: h.user,
                port: h.port,
                identity_file: h.identity_file,
                proxy_jump: h.proxy_jump,
                extra: h.extra,
                read_only: true,
            },
    )
}

// ----------------------------------------------------------------------------------------------
// `Include` lines
// ----------------------------------------------------------------------------------------------

/// The patterns of an `Include` line (none for any other line).
pub open spec fn line_includes(line: Seq<char>) -> Seq<Seq<char>> {
    let ws = words(strip_terminator(line));
    if ws.len() > 0 && eq_ignore_case(ws[0], "include"@) {
        ws.drop_first()
    } else {
        Seq::empty()
    }
}

pub open spec fn lines_includes(ls: Seq<Seq<char>>) -> Seq<Seq<char>>
    decreases ls.len(),
{
    if ls.len() == 0 {
        Seq::empty()
    } else {
        lines_includes(ls.drop_last()) + line_includes(ls.last())
    }
}

/// Every `Include` pattern of the raw parts of the file, in order.
pub open spec fn include_patterns(segs: Seq<SegView>) -> Seq<Seq<char>>
    decreases segs.len(),
{
    if segs.len() == 0 {
        Seq::empty()
    } else {
        include_patterns(segs.drop_last()) + match segs.last() {
            SegView::Raw(ls) => lines_includes(ls),
            SegView::Managed(_) => Seq::empty(),
        }
    }
}

// ----------------------------------------------------------------------------------------------
// Executable readers
// ----------------------------------------------------------------------------------------------

impl SshHost {
    pub fn new(alias: &str) -> (h: SshHost)
        ensures
            h@ == empty_host(alias@),
    {
        SshHost {
            alias: String::from_str(alias),
            host_name: None,
            user: None,
            port: None,
            identity_file: None,
            proxy_jump: None,
            extra: String::new(),
            read_only: false,
        }
    }
}

pub fn clone_host(h: &SshHost) -> (r: SshHost)
    ensures
        r@ == h@,
{
    SshHost {
        alias: h.alias.clone(),
        host_name: crate::text::clone_opt(&h.host_name),
        user: crate::text::clone_opt(&h.user),
        port: h.port,
        identity_file: crate::text::clone_opt(&h.identity_file),
        proxy_jump: crate::text::clone_opt(&h.proxy_jump),
        extra: h.extra.clone(),
        read_only: h.read_only,
    }
}

/// `value_of` of a line's content.
fn line_value(line: &Vec<char>) -> (r: Vec<char>)
    ensures
        r@ == value_of(strip_terminator(line@)),
{
    let c = content_of(line);
    let (a, b) = value_bounds(&c);
    crate::text::subvec(&c, a, b)
}

pub open spec fn opt_chars(o: Option<Vec<char>>) -> Option<Seq<char>> {
    match o {
        Some(v) => Some(v@),
        None => None,
    }
}

/// Reads a rewritable block: the last line of each directive wins, and every other line is
/// part of the "advanced options" text.
pub fn host_from_managed(block: &ManagedBlock) -> (h: SshHost)
    ensures
        h@ == host_from_block(block@),
{
    let ghost lv = block@.lines;
    let mut host_name: Option<String> = None;
    let mut user: Option<String> = None;
    let mut port_text: Option<Vec<char>> = None;
    let mut identity_file: Option<String> = None;
    let mut proxy_jump: Option<String> = None;
    let mut extra: Vec<Vec<char>> = Vec::new();
    let mut j: usize = 0;
    assert(lv.take(0) =~= Seq::<LineView>::empty());
    while j < block.lines.len()
        invariant
            j <= block.lines.len(),
            lv == block@.lines,
            host_name.deep_view() == last_known(lv.take(j as int), KnownDirective::HostName),
            user.deep_view() == last_known(lv.take(j as int), KnownDirective::User),
            opt_chars(port_text) == last_known(lv.take(j as int), KnownDirective::Port),
            identity_file.deep_view() == last_known(
                lv.take(j as int),
                KnownDirective::IdentityFile,
            ),
            proxy_jump.deep_view() == last_known(lv.take(j as int), KnownDirective::ProxyJump),
            vecs_view(extra@) == other_lines(lv.take(j as int)),
        decreases block.lines.len() - j,
    {
        proof {
            assert(lv.take(j + 1).drop_last() =~= lv.take(j as int));
            assert(lv.take(j + 1).last() == block.lines@[j as int]@);
        }
        match &block.lines[j] {
            BlockLine::Known { directive, line } => {
                let text = chars_of(line.0.as_str());
                let v = line_value(&text);
                match directive {
                    KnownDirective::HostName => {
                        host_name = Some(string_of(v.as_slice()));
                    },
                    KnownDirective::User => {
                        user = Some(string_of(v.as_slice()));
                    },
                    KnownDirective::Port => {
                        port_text = Some(v);
                    },
                    KnownDirective::IdentityFile => {
                        identity_file = Some(string_of(v.as_slice()));
                    },
                    KnownDirective::ProxyJump => {
                        proxy_jump = Some(string_of(v.as_slice()));
                    },
                }
            },
            BlockLine::Other(line) => {
                let text = chars_of(line.0.as_str());
                let c = content_of(&text);
                let ghost before = vecs_view(extra@);
                extra.push(c);
                proof {
                    assert(vecs_view(extra@) =~= before.push(strip_terminator(line@)));
                }
            },
        }
        j += 1;
    }
    proof {
        assert(lv.take(block.lines.len() as int) =~= lv);
    }
    let port = match &port_text {
        Some(t) => {
            let n = t.len();
            proof {
                assert(t@.subrange(0, n as int) =~= t@);
            }
            parse_u16_exec(t, 0, n)
        },
        None => None,
    };
    let joined = join_chars(&extra, '\n');
    proof {
        assert(extra@.map_values(|p: Vec<char>| p@) == vecs_view(extra@));
    }
    SshHost {
        alias: block.alias.clone(),
        host_name,
        user,
        port,
        identity_file,
        proxy_jump,
        extra: string_of(joined.as_slice()),
        read_only: false,
    }
}

fn tail_vecs(ws: &Vec<Vec<char>>) -> (res: Vec<Vec<char>>)
    requires
        ws.len() > 0,
    ensures
        vecs_view(res@) == vecs_view(ws@).drop_first(),
{
    let mut out: Vec<Vec<char>> = Vec::new();
    let mut i: usize = 1;
    while i < ws.len()
        invariant
            1 <= i <= ws.len(),
            vecs_view(out@) == vecs_view(ws@).subrange(1, i as int),
        decreases ws.len() - i,
    {
        let n = ws[i].len();
        let w = crate::text::subvec(&ws[i], 0, n);
        let ghost before = vecs_view(out@);
        out.push(w);
        proof {
            assert(ws@[i as int]@.subrange(0, n as int) =~= ws@[i as int]@);
            assert(vecs_view(out@) =~= before.push(ws@[i as int]@));
            assert(vecs_view(ws@).subrange(1, i + 1) =~= vecs_view(ws@).subrange(1, i as int).push(
                ws@[i as int]@,
            ));
        }
        i += 1;
    }
    proof {
        assert(vecs_view(ws@).subrange(1, ws.len() as int) =~= vecs_view(ws@).drop_first());
    }
    out
}

/// `Some(patterns)` when the line is a `Host` line.
fn host_patterns_exec(line: &Vec<char>) -> (r: Option<Vec<Vec<char>>>)
    ensures
        match r {
            Some(p) => host_patterns(line@) == Some(vecs_view(p@)),
            None => host_patterns(line@) is None,
        },
{
    let c = content_of(line);
    let ws = split_words(&c);
    proof {
        assert(vecs_view(ws@).len() == ws@.len());
    }
    if ws.len() > 0 {
        proof {
            assert(vecs_view(ws@)[0] == ws@[0]@);
        }
        if eq_ignore_case_exec(&ws[0], "host") {
            return Some(tail_vecs(&ws));
        }
    }
    None
}

fn plain_single(p: &Vec<Vec<char>>) -> (r: bool)
    ensures
        r == (vecs_view(p@).len() == 1 && plain_pattern(vecs_view(p@)[0])),
{
    proof {
        assert(vecs_view(p@).len() == p@.len());
    }
    if p.len() != 1 {
        return false;
    }
    let w = &p[0];
    proof {
        assert(vecs_view(p@)[0] == w@);
    }
    let mut i: usize = 0;
    while i < w.len()
        invariant
            i <= w.len(),
            p.len() == 1,
            vecs_view(p@).len() == 1,
            vecs_view(p@)[0] == w@,
            forall|j: int| 0 <= j < i ==> #[trigger] w@[j] != '*' && w@[j] != '?' && w@[j] != '!',
        decreases w.len() - i,
    {
        if w[i] == '*' || w[i] == '?' || w[i] == '!' {
            proof {
                assert(vecs_view(p@)[0][i as int] == w@[i as int]);
            }
            return false;
        }
        i += 1;
    }
    true
}

/// Best-effort, read-only scan of a wildcard/multi-pattern raw `Host` block, for display only:
/// the first line of each directive wins.
pub fn host_from_raw_host_block(lines: &Vec<RawLine>) -> (r: Option<SshHost>)
    ensures
        match r {
            Some(h) => raw_host(super::model::raw_view(lines@)) == Some(h@),
            None => raw_host(super::model::raw_view(lines@)) is None,
        },
{
    let ghost lv = super::model::raw_view(lines@);
    if lines.len() == 0 {
        return None;
    }
    let first = chars_of(lines[0].0.as_str());
    let patterns = match host_patterns_exec(&first) {
        Some(p) => p,
        None => {
            return None;
        },
    };
    if plain_single(&patterns) {
        return None;
    }
    let alias = join_chars(&patterns, ' ');
    proof {
        assert(patterns@.map_values(|p: Vec<char>| p@) == vecs_view(patterns@));
    }
    let mut host_name: Option<String> = None;
    let mut user: Option<String> = None;
    let mut port: Option<u16> = None;
    let mut identity_file: Option<String> = None;
    let mut proxy_jump: Option<String> = None;
    let n = lines.len();
    let mut k = n;
    assert(lv.subrange(n as int, n as int) =~= Seq::<Seq<char>>::empty());
    while k > 1
        invariant
            1 <= k <= n == lines.len(),
            lv == super::model::raw_view(lines@),
            host_name.deep_view() == first_value(lv.subrange(k as int, n as int), KnownDirective::HostName),
            user.deep_view() == first_value(lv.subrange(k as int, n as int), KnownDirective::User),
            port == first_port(lv.subrange(k as int, n as int)),
            identity_file.deep_view() == first_value(
                lv.subrange(k as int, n as int),
                KnownDirective::IdentityFile,
            ),
            proxy_jump.deep_view() == first_value(lv.subrange(k as int, n as int), KnownDirective::ProxyJump),
        decreases k,
    {
        k -= 1;
        let text = chars_of(lines[k].0.as_str());
        proof {
            let s = lv.subrange(k as int, n as int);
            assert(s[0] == text@);
            assert(s.drop_first() =~= lv.subrange(k + 1, n as int));
        }
        match directive_of_exec(&text) {
            Some(d) => {
                let v = line_value(&text);
                match d {
                    KnownDirective::HostName => {
                        host_name = Some(string_of(v.as_slice()));
                    },
                    KnownDirective::User => {
                        user = Some(string_of(v.as_slice()));
                    },
                    KnownDirective::Port => {
                        let nv = v.len();
                        proof {
                            assert(v@.subrange(0, nv as int) =~= v@);
                        }
                        match parse_u16_exec(&v, 0, nv) {
                            Some(p) => {
                                port = Some(p);
                            },
                            None => {},
                        }
                    },
                    KnownDirective::IdentityFile => {
                        identity_file = Some(string_of(v.as_slice()));
                    },
                    KnownDirective::ProxyJump => {
                        proxy_jump = Some(string_of(v.as_slice()));
                    },
                }
            },
            None => {},
        }
    }
    proof {
        assert(lv.subrange(1, n as int) =~= lv.drop_first());
    }
    Some(
        SshHost {
            alias: string_of(alias.as_slice()),
            host_name,
            user,
            port,
            identity_file,
            proxy_jump,
            extra: String::new(),
            read_only: true,
        },
    )
}

pub proof fn lemma_hosts_of_concat(a: Seq<SegView>, b: Seq<SegView>)
    ensures
        hosts_of(a + b) == hosts_of(a) + hosts_of(b),
    decreases a.len(),
{
    if a.len() == 0 {
        assert(a + b =~= b);
        assert(hosts_of(a) + hosts_of(b) =~= hosts_of(b));
    } else {
        lemma_hosts_of_concat(a.drop_first(), b);
        assert((a + b).drop_first() =~= a.drop_first() + b);
        assert((a + b)[0] == a[0]);
        assert(hosts_of(a + b) =~= opt_seq(seg_host(a[0])) + hosts_of(a.drop_first() + b));
    }
}

pub proof fn lemma_hosts_of_one(s: SegView)
    ensures
        hosts_of(seq![s]) == opt_seq(seg_host(s)),
{
    assert(seq![s].drop_first() =~= Seq::<SegView>::empty());
    assert(hosts_of(seq![s].drop_first()) =~= Seq::<HostView>::empty());
    assert(opt_seq(seg_host(s)) + Seq::<HostView>::empty() =~= opt_seq(seg_host(s)));
}

/// Every host the segments show: rewritable blocks and read-only wildcard/multi-pattern blocks,
/// in file order.
pub fn hosts_in(segments: &Vec<Segment>) -> (res: Vec<SshHost>)
    ensures
        hosts_view(res@) == hosts_of(segs_view(segments@)),
{
    let ghost sv = segs_view(segments@);
    let mut out: Vec<SshHost> = Vec::new();
    let mut i: usize = 0;
    assert(sv.take(0) =~= Seq::<SegView>::empty());
    while i < segments.len()
        invariant
            i <= segments.len(),
            sv == segs_view(segments@),
            hosts_view(out@) == hosts_of(sv.take(i as int)),
        decreases segments.len() - i,
    {
        let ghost before = hosts_view(out@);
        proof {
            assert(sv.take(i + 1) =~= sv.take(i as int) + seq![sv[i as int]]);
            lemma_hosts_of_concat(sv.take(i as int), seq![sv[i as int]]);
            lemma_hosts_of_one(sv[i as int]);
        }
        match &segments[i] {
            Segment::Managed(block) => {
                let h = host_from_managed(block);
                out.push(h);
                proof {
                    assert(hosts_view(out@) =~= before + seq![h@]);
                }
            },
            Segment::Raw(lines) => {
                match host_from_raw_host_block(lines) {
                    Some(h) => {
                        out.push(h);
                        proof {
                            assert(hosts_view(out@) =~= before + seq![h@]);
                        }
                    },
                    None => {
                        proof {
                            assert(before + Seq::<HostView>::empty() =~= before);
                        }
                    },
                }
            },
        }
        i += 1;
    }
    proof {
        assert(sv.take(segments.len() as int) =~= sv);
    }
    out
}

fn line_includes_exec(line: &Vec<char>, out: &mut Vec<String>)
    ensures
        crate::command::strings_view(final(out)@) == crate::command::strings_view(old(out)@)
            + line_includes(line@),
{
    let c = content_of(line);
    let ws = split_words(&c);
    proof {
        assert(vecs_view(ws@).len() == ws@.len());
    }
    if ws.len() > 0 {
        proof {
            assert(vecs_view(ws@)[0] == ws@[0]@);
        }
        if eq_ignore_case_exec(&ws[0], "include") {
            let ghost start = crate::command::strings_view(out@);
            let mut i: usize = 1;
            while i < ws.len()
                invariant
                    1 <= i <= ws.len(),
                    crate::command::strings_view(out@) == start + vecs_view(ws@).subrange(
                        1,
                        i as int,
                    ),
                decreases ws.len() - i,
            {
                let ghost before = crate::command::strings_view(out@);
                out.push(string_of(ws[i].as_slice()));
                proof {
                    assert(crate::command::strings_view(out@) =~= before.push(ws@[i as int]@));
                    assert(vecs_view(ws@).subrange(1, i + 1) =~= vecs_view(ws@).subrange(
                        1,
                        i as int,
                    ).push(ws@[i as int]@));
                }
                i += 1;
            }
            proof {
                assert(vecs_view(ws@).subrange(1, ws.len() as int) =~= vecs_view(ws@).drop_first());
            }
            return ;
        }
    }
    proof {
        assert(crate::command::strings_view(out@) + Seq::<Seq<char>>::empty()
            =~= crate::command::strings_view(out@));
    }
}

/// Every `Include` pattern found in the raw (non-rewritable) parts of the file, in order.
pub fn extract_include_patterns(segments: &Vec<Segment>) -> (res: Vec<String>)
    ensures
        crate::command::strings_view(res@) == include_patterns(segs_view(segments@)),
{
    let ghost sv = segs_view(segments@);
    let mut out: Vec<String> = Vec::new();
    let mut i: usize = 0;
    assert(sv.take(0) =~= Seq::<SegView>::empty());
    assert(crate::command::strings_view(out@) =~= Seq::<Seq<char>>::empty());
    while i < segments.len()
        invariant
            i <= segments.len(),
            sv == segs_view(segments@),
            crate::command::strings_view(out@) == include_patterns(sv.take(i as int)),
        decreases segments.len() - i,
    {
        proof {
            assert(sv.take(i + 1).drop_last() =~= sv.take(i as int));
            assert(sv.take(i + 1).last() == sv[i as int]);
        }
        match &segments[i] {
            Segment::Raw(lines) => {
                let ghost lv = super::model::raw_view(lines@);
                let ghost start = crate::command::strings_view(out@);
                let mut j: usize = 0;
                assert(lv.take(0) =~= Seq::<Seq<char>>::empty());
                assert(start + Seq::<Seq<char>>::empty() =~= start);
                while j < lines.len()
                    invariant
                        j <= lines.len(),
                        lv == super::model::raw_view(lines@),
                        crate::command::strings_view(out@) == start + lines_includes(
                            lv.take(j as int),
                        ),
                    decreases lines.len() - j,
                {
                    let text = chars_of(lines[j].0.as_str());
                    line_includes_exec(&text, &mut out);
                    proof {
                        assert(lv.take(j + 1).drop_last() =~= lv.take(j as int));
                        assert(lv.take(j + 1).last() == text@);
                    }
                    j += 1;
                }
                proof {
                    assert(lv.take(lines.len() as int) =~= lv);
                }
            },
            Segment::Managed(_) => {
                proof {
                    assert(crate::command::strings_view(out@) + Seq::<Seq<char>>::empty()
                        =~= crate::command::strings_view(out@));
                }
            },
        }
        i += 1;
    }
    proof {
        assert(sv.take(segments.len() as int) =~= sv);
    }
    out
}

} // verus!
