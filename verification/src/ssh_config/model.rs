//! The in-memory model of a parsed `~/.ssh/config` and its mathematical view.

use vstd::prelude::*;

verus! {

/// One of the directives this app has a dedicated UI field for. Anything else is preserved
/// verbatim in [`super::SshHost::extra`] and never interpreted.
#[derive(Debug, Clone, Copy, PartialEq, Eq, Structural)]
pub enum KnownDirective {
    HostName,
    User,
    Port,
    IdentityFile,
    ProxyJump,
}

/// The directive's keyword as written into new lines.
pub open spec fn keyword_of(d: KnownDirective) -> Seq<char> {
    match d {
        KnownDirective::HostName => "HostName"@,
        KnownDirective::User => "User"@,
        KnownDirective::Port => "Port"@,
        KnownDirective::IdentityFile => "IdentityFile"@,
        KnownDirective::ProxyJump => "ProxyJump"@,
    }
}

impl KnownDirective {
    pub fn keyword(self) -> (k: &'static str)
        ensures
            k@ == keyword_of(self),
    {
        match self {
            KnownDirective::HostName => "HostName",
            KnownDirective::User => "User",
            KnownDirective::Port => "Port",
            KnownDirective::IdentityFile => "IdentityFile",
            KnownDirective::ProxyJump => "ProxyJump",
        }
    }
}

/// A single line of the file, verbatim, including its own line terminator (or none, for a final
/// line with no trailing newline).
#[derive(Debug, Clone, PartialEq, Eq)]
pub struct RawLine(pub String);

impl View for RawLine {
    type V = Seq<char>;

    open spec fn view(&self) -> Seq<char> {
        self.0@
    }
}

#[derive(Debug, Clone, PartialEq, Eq)]
pub enum BlockLine {
    Known { directive: KnownDirective, line: RawLine },
    Other(RawLine),
}

/// The value of a [`BlockLine`]: its classification and its text.
pub enum LineView {
    Known(KnownDirective, Seq<char>),
    Other(Seq<char>),
}

impl LineView {
    pub open spec fn text(self) -> Seq<char> {
        match self {
            LineView::Known(_, t) => t,
            LineView::Other(t) => t,
        }
    }
}

impl View for BlockLine {
    type V = LineView;

    open spec fn view(&self) -> LineView {
        match self {
            BlockLine::Known { directive, line } => LineView::Known(*directive, line@),
            BlockLine::Other(line) => LineView::Other(line@),
        }
    }
}

/// A single-pattern, non-wildcard `Host <alias>` block: the only shape this app edits.
#[derive(Debug, Clone, PartialEq, Eq)]
pub struct ManagedBlock {
    pub alias: String,
    pub header: RawLine,
    pub lines: Vec<BlockLine>,
}

pub struct BlockView {
    pub alias: Seq<char>,
    pub header: Seq<char>,
    pub lines: Seq<LineView>,
}

pub open spec fn lines_view(v: Seq<BlockLine>) -> Seq<LineView> {
    v.map_values(|l: BlockLine| l@)
}

impl View for ManagedBlock {
    type V = BlockView;

    open spec fn view(&self) -> BlockView {
        BlockView { alias: self.alias@, header: self.header@, lines: lines_view(self.lines@) }
    }
}

/// One chunk of the file, in file order. `Raw` covers comments, blank lines, global
/// directives, `Include` lines, `Match` blocks, and any `Host` block with multiple patterns or a
/// glob/negation pattern — none of that is ever decomposed or rewritten.
#[derive(Debug, Clone, PartialEq, Eq)]
pub enum Segment {
    Raw(Vec<RawLine>),
    Managed(ManagedBlock),
}

pub enum SegView {
    Raw(Seq<Seq<char>>),
    Managed(BlockView),
}

pub open spec fn raw_view(v: Seq<RawLine>) -> Seq<Seq<char>> {
    v.map_values(|l: RawLine| l@)
}

impl View for Segment {
    type V = SegView;

    open spec fn view(&self) -> SegView {
        match self {
            Segment::Raw(lines) => SegView::Raw(raw_view(lines@)),
            Segment::Managed(b) => SegView::Managed(b@),
        }
    }
}

pub open spec fn segs_view(v: Seq<Segment>) -> Seq<SegView> {
    v.map_values(|s: Segment| s@)
}

/// The text lines of a block, header first.
pub open spec fn block_lines(b: BlockView) -> Seq<Seq<char>> {
    seq![b.header] + b.lines.map_values(|l: LineView| l.text())
}

/// The text lines of a segment, in file order.
pub open spec fn seg_lines(s: SegView) -> Seq<Seq<char>> {
    match s {
        SegView::Raw(ls) => ls,
        SegView::Managed(b) => block_lines(b),
    }
}

/// Every line of the file, in order.
pub open spec fn all_lines(segs: Seq<SegView>) -> Seq<Seq<char>>
    decreases segs.len(),
{
    if segs.len() == 0 {
        Seq::empty()
    } else {
        seg_lines(segs[0]) + all_lines(segs.drop_first())
    }
}

/// The file text that a list of segments stands for.
pub open spec fn render_view(segs: Seq<SegView>) -> Seq<char> {
    all_lines(segs).flatten()
}

pub proof fn lemma_all_lines_concat(a: Seq<SegView>, b: Seq<SegView>)
    ensures
        all_lines(a + b) == all_lines(a) + all_lines(b),
    decreases a.len(),
{
    if a.len() == 0 {
        assert(a + b =~= b);
        assert(all_lines(a) =~= Seq::<Seq<char>>::empty());
        assert(all_lines(a) + all_lines(b) =~= all_lines(b));
    } else {
        lemma_all_lines_concat(a.drop_first(), b);
        assert((a + b).drop_first() =~= a.drop_first() + b);
        assert((a + b)[0] == a[0]);
        assert(all_lines(a + b) =~= seg_lines(a[0]) + all_lines(a.drop_first() + b));
    }
}

pub proof fn lemma_all_lines_one(s: SegView)
    ensures
        all_lines(seq![s]) == seg_lines(s),
{
    assert(seq![s].drop_first() =~= Seq::<SegView>::empty());
    assert(all_lines(seq![s].drop_first()) =~= Seq::<Seq<char>>::empty());
    assert(all_lines(seq![s]) == seg_lines(seq![s][0]) + all_lines(seq![s].drop_first()));
    assert(seg_lines(s) + Seq::<Seq<char>>::empty() =~= seg_lines(s));
}

} // verus!
