//! Sidebar decisions: each row's subtitle and menu, the search filter, the group headers, and
//! the order of the rows.

use vstd::prelude::*;

use crate::metadata::{clone_meta, HostMeta, MetaView, Metadata};
use crate::num::{decimal, decimal_chars};
use crate::ssh_config::host::{clone_host, hosts_view, HostView};
use crate::ssh_config::parser::vecs_view;
use crate::ssh_config::SshHost;
use crate::text::{
    append_chars, chars_of, compare_text, contains_chars, same_chars, join, join_with, lemma_text_lt_asymmetric,
    lemma_text_lt_irreflexive, lemma_text_lt_transitive, occurs_in, string_of,
    text_lt,
};

verus! {

// ----------------------------------------------------------------------------------------------
// Subtitle
// ----------------------------------------------------------------------------------------------

/// The pieces of a row's subtitle: `user@host` (or whichever of the two is set), `:port`, and
/// the read-only label for hosts that cannot be edited.
pub open spec fn subtitle_parts(h: HostView, read_only_label: Seq<char>) -> Seq<Seq<char>> {
    let who = match (h.user, h.host_name) {
        (Some(u), Some(n)) => seq![u + "@"@ + n],
        (Some(u), None) => seq![u],
        (None, Some(n)) => seq![n],
        (None, None) => Seq::empty(),
    };
    let port = match h.port {
        Some(p) => seq![":"@ + decimal(p as nat)],
        None => Seq::empty(),
    };
    let label = if h.read_only {
        seq![read_only_label]
    } else {
        Seq::empty()
    };
    who + port + label
}

/// The subtitle: its pieces joined by ` · `.
pub open spec fn subtitle_text(h: HostView, read_only_label: Seq<char>) -> Seq<char> {
    join(subtitle_parts(h, read_only_label), " · "@)
}

/// The subtitle of `host`, with `read_only_label` as the (translated) read-only marker.
pub fn subtitle_with(host: &SshHost, read_only_label: &str) -> (r: String)
    ensures
        r@ == subtitle_text(host@, read_only_label@),
{
    let mut parts: Vec<Vec<char>> = Vec::new();
    match (&host.user, &host.host_name) {
        (Some(u), Some(n)) => {
            let mut p = chars_of(u.as_str());
            let at = chars_of("@");
            append_chars(&mut p, &at);
            let nc = chars_of(n.as_str());
            append_chars(&mut p, &nc);
            parts.push(p);
        },
        (Some(u), None) => {
            parts.push(chars_of(u.as_str()));
        },
        (None, Some(n)) => {
            parts.push(chars_of(n.as_str()));
        },
        (None, None) => {},
    }
    let ghost who = vecs_view(parts@);
    if let Some(port) = host.port {
        let mut p = chars_of(":");
        let digits = decimal_chars(port);
        append_chars(&mut p, &digits);
        parts.push(p);
    }
    let ghost with_port = vecs_view(parts@);
    if host.read_only {
        parts.push(chars_of(read_only_label));
    }
    proof {
        let h = host@;
        let port_part = match h.port {
            Some(p) => seq![":"@ + decimal(p as nat)],
            None => Seq::<Seq<char>>::empty(),
        };
        let label_part = if h.read_only {
            seq![read_only_label@]
        } else {
            Seq::<Seq<char>>::empty()
        };
        assert(with_port =~= who + port_part);
        assert(vecs_view(parts@) =~= who + port_part + label_part);
        assert(vecs_view(parts@) =~= subtitle_parts(h, read_only_label@));
        assert(parts@.map_values(|p: Vec<char>| p@) =~= vecs_view(parts@));
    }
    let sep = chars_of(" · ");
    let out = join_with(&parts, &sep);
    string_of(out.as_slice())
}

// ----------------------------------------------------------------------------------------------
// Search
// ----------------------------------------------------------------------------------------------

/// What `str::to_lowercase` gives for a text (Unicode lower case).
pub uninterp spec fn lower_text(s: Seq<char>) -> Seq<char>;

/// `str::to_lowercase`: the Unicode lower case of `s`, a function of `s` alone.
#[verifier::external_body]
fn lowercase(s: &str) -> (r: String)
    ensures
        r@ == lower_text(s@),
{
    s.to_lowercase()
}

/// The search matches when the (lower-cased) query is empty or occurs in the lower-cased alias,
/// host name or user.
pub open spec fn matches_lowered(alias: Seq<char>, host_name: Seq<char>, user: Seq<char>, query: Seq<char>) -> bool {
    query.len() == 0 || occurs_in(alias, query) || occurs_in(host_name, query) || occurs_in(user, query)
}

/// The search decision on texts already lower-cased.
pub fn lowered_match(alias: &str, host_name: &str, user: &str, query: &str) -> (r: bool)
    ensures
        r == matches_lowered(alias@, host_name@, user@, query@),
{
    let q = chars_of(query);
    if q.len() == 0 {
        return true;
    }
    let a = chars_of(alias);
    if contains_chars(&a, &q) {
        return true;
    }
    let n = chars_of(host_name);
    if contains_chars(&n, &q) {
        return true;
    }
    let u = chars_of(user);
    contains_chars(&u, &q)
}

pub open spec fn or_empty(s: Option<Seq<char>>) -> Seq<char> {
    match s {
        Some(v) => v,
        None => Seq::empty(),
    }
}

/// Whether the row of `h` passes the search `query`.
pub open spec fn row_matches(h: HostView, query: Seq<char>) -> bool {
    matches_lowered(
        lower_text(h.alias),
        lower_text(or_empty(h.host_name)),
        lower_text(or_empty(h.user)),
        lower_text(query),
    )
}

/// A row passes the search exactly when the lower-cased query is empty or is a piece of the
/// lower-cased alias, host name (none reads as empty) or user (likewise), found anywhere in it.
pub proof fn law_row_search(h: HostView, query: Seq<char>)
    ensures
        ({
            let q = lower_text(query);
            let a = lower_text(h.alias);
            let n = lower_text(or_empty(h.host_name));
            let u = lower_text(or_empty(h.user));
            row_matches(h, query) <==> (q.len() == 0 || (exists|i: int|
                0 <= i && i + q.len() <= a.len() && #[trigger] a.subrange(i, i + q.len()) == q) || (exists|i: int|
                0 <= i && i + q.len() <= n.len() && #[trigger] n.subrange(i, i + q.len()) == q) || (exists|i: int|
                0 <= i && i + q.len() <= u.len() && #[trigger] u.subrange(i, i + q.len()) == q))
        }),
{
}

/// The sidebar's search filter: case-insensitive substring search on alias, host name and user.
pub fn host_matches(host: &SshHost, query: &str) -> (r: bool)
    ensures
        r == row_matches(host@, query@),
{
    let q = lowercase(query);
    let a = lowercase(host.alias.as_str());
    let n = match &host.host_name {
        Some(v) => lowercase(v.as_str()),
        None => lowercase(""),
    };
    let u = match &host.user {
        Some(v) => lowercase(v.as_str()),
        None => lowercase(""),
    };
    proof {
        assert(""@ =~= Seq::<char>::empty()) by {
            reveal_strlit("");
        }
    }
    lowered_match(a.as_str(), n.as_str(), u.as_str(), q.as_str())
}

/// Any piece of the host name is found by the search, wherever it stands in the name; likewise
/// any piece of the alias or the user.
pub proof fn law_search_finds_every_piece(
    alias: Seq<char>,
    host_name: Seq<char>,
    user: Seq<char>,
    i: int,
    j: int,
)
    ensures
        0 <= i <= j <= host_name.len() ==> matches_lowered(alias, host_name, user, host_name.subrange(i, j)),
        0 <= i <= j <= alias.len() ==> matches_lowered(alias, host_name, user, alias.subrange(i, j)),
        0 <= i <= j <= user.len() ==> matches_lowered(alias, host_name, user, user.subrange(i, j)),
{
    if 0 <= i <= j <= host_name.len() {
        let q = host_name.subrange(i, j);
        assert(host_name.subrange(i, i + q.len()) == q);
    }
    if 0 <= i <= j <= alias.len() {
        let q = alias.subrange(i, j);
        assert(alias.subrange(i, i + q.len()) == q);
    }
    if 0 <= i <= j <= user.len() {
        let q = user.subrange(i, j);
        assert(user.subrange(i, i + q.len()) == q);
    }
}

/// A non-empty query that is not a piece of the alias, the host name or the user finds nothing.
pub proof fn law_search_finds_only_pieces(alias: Seq<char>, host_name: Seq<char>, user: Seq<char>, query: Seq<char>)
    requires
        query.len() > 0,
        forall|i: int| 0 <= i && i + query.len() <= alias.len() ==> #[trigger] alias.subrange(i, i + query.len()) != query,
        forall|i: int|
            0 <= i && i + query.len() <= host_name.len() ==> #[trigger] host_name.subrange(i, i + query.len()) != query,
        forall|i: int| 0 <= i && i + query.len() <= user.len() ==> #[trigger] user.subrange(i, i + query.len()) != query,
    ensures
        !matches_lowered(alias, host_name, user, query),
{
}

/// The empty query shows every row.
pub proof fn law_empty_search_shows_all(alias: Seq<char>, host_name: Seq<char>, user: Seq<char>)
    ensures
        matches_lowered(alias, host_name, user, Seq::empty()),
{
}

// ----------------------------------------------------------------------------------------------
// Group headers
// ----------------------------------------------------------------------------------------------

/// The header a row's group shows: its name, or the (translated) label for hosts without one.
pub open spec fn group_label(m: MetaView, no_group: Seq<char>) -> Seq<char> {
    match m.group {
        Some(g) => g,
        None => no_group,
    }
}

/// A header opens before a row whose group label differs from the previous row's.
pub open spec fn header_of(prev: Option<MetaView>, m: MetaView, no_group: Seq<char>) -> Option<Seq<char>> {
    match prev {
        Some(p) => if group_label(p, no_group) == group_label(m, no_group) {
            None
        } else {
            Some(group_label(m, no_group))
        },
        None => Some(group_label(m, no_group)),
    }
}

/// The first row always opens a header, showing its group or, for a row without one, the
/// no-group label; a later row opens one exactly when its label differs from the previous row's,
/// and the header then shows the row's own label.
pub proof fn law_headers_open_groups(prev: Option<MetaView>, m: MetaView, no_group: Seq<char>)
    ensures
        ({
            let label = match m.group {
                Some(g) => g,
                None => no_group,
            };
            &&& prev is None ==> header_of(prev, m, no_group) == Some(label)
            &&& prev matches Some(p) ==> (header_of(prev, m, no_group) is None <==> match p.group {
                Some(g) => g,
                None => no_group,
            } == label)
            &&& header_of(prev, m, no_group) matches Some(x) ==> x == label
        }),
{
}

pub open spec fn prev_view(prev: Option<&HostMeta>) -> Option<MetaView> {
    match prev {
        Some(p) => Some(p@),
        None => None,
    }
}

fn label_chars(meta: &HostMeta, no_group: &str) -> (r: Vec<char>)
    ensures
        r@ == group_label(meta@, no_group@),
{
    match &meta.group {
        Some(g) => chars_of(g.as_str()),
        None => chars_of(no_group),
    }
}

/// The header above a row, given the row before it, with `no_group` as the label of hosts that
/// have no group.
pub fn header_with(prev: Option<&HostMeta>, meta: &HostMeta, no_group: &str) -> (r: Option<String>)
    ensures
        r.deep_view() == header_of(
            prev_view(prev),
            meta@,
            no_group@,
        ),
{
    let label = label_chars(meta, no_group);
    match prev {
        Some(p) => {
            let before = label_chars(p, no_group);
            if same_chars(&before, &label) {
                None
            } else {
                Some(string_of(label.as_slice()))
            }
        },
        None => Some(string_of(label.as_slice())),
    }
}

// ----------------------------------------------------------------------------------------------
// Row menu and actions
// ----------------------------------------------------------------------------------------------

/// Every outcome a row's menu or activation can produce; the window acts on them.
pub enum HostAction {
    Connect(SshHost),
    Disconnect(SshHost),
    Edit(SshHost, HostMeta),
    Duplicate(SshHost, HostMeta),
    OpenFiles(SshHost),
    Delete(SshHost),
}

/// The entries of a row's menu.
#[derive(Debug, Clone, Copy, PartialEq, Eq, Structural)]
pub enum RowAction {
    Connect,
    Edit,
    Duplicate,
    OpenFiles,
    Delete,
}

pub open spec fn row_actions_of(read_only: bool) -> Seq<RowAction> {
    if read_only {
        seq![RowAction::Connect, RowAction::OpenFiles]
    } else {
        seq![RowAction::Connect, RowAction::Edit, RowAction::Duplicate, RowAction::OpenFiles, RowAction::Delete]
    }
}

/// The menu of a row, in order: read-only hosts can be connected to and browsed, never edited,
/// duplicated or deleted.
pub fn row_actions(read_only: bool) -> (r: Vec<RowAction>)
    ensures
        r@ == row_actions_of(read_only),
{
    let mut v: Vec<RowAction> = Vec::new();
    v.push(RowAction::Connect);
    if !read_only {
        v.push(RowAction::Edit);
        v.push(RowAction::Duplicate);
    }
    v.push(RowAction::OpenFiles);
    if !read_only {
        v.push(RowAction::Delete);
    }
    proof {
        if read_only {
            assert(v@ =~= row_actions_of(read_only));
        } else {
            assert(v@ =~= row_actions_of(read_only));
        }
    }
    v
}

/// The first menu entry connects, or disconnects a host whose session is running.
pub fn connect_action(host: SshHost, connected: bool) -> (r: HostAction)
    ensures
        connected ==> r == HostAction::Disconnect(host),
        !connected ==> r == HostAction::Connect(host),
{
    if connected {
        HostAction::Disconnect(host)
    } else {
        HostAction::Connect(host)
    }
}

// ----------------------------------------------------------------------------------------------
// Row order
// ----------------------------------------------------------------------------------------------

/// The metadata shown beside a host: its own, or empty metadata when it has none.
pub open spec fn meta_for(m: Map<Seq<char>, MetaView>, alias: Seq<char>) -> MetaView {
    if m.contains_key(alias) {
        m[alias]
    } else {
        MetaView { group: None, color: None, notes: None }
    }
}

/// Each host with its metadata, in the order given.
pub open spec fn row_entries(m: Map<Seq<char>, MetaView>, hosts: Seq<HostView>) -> Seq<(HostView, MetaView)> {
    hosts.map_values(|h: HostView| (h, meta_for(m, h.alias)))
}

pub open spec fn rows_view(v: Seq<(SshHost, HostMeta)>) -> Seq<(HostView, MetaView)> {
    v.map_values(|e: (SshHost, HostMeta)| (e.0@, e.1@))
}

/// Rows sort by group name (no group sorts as the empty name), then by lower-cased alias.
pub open spec fn row_key(e: (HostView, MetaView)) -> (Seq<char>, Seq<char>) {
    (or_empty(e.1.group), lower_text(e.0.alias))
}

/// `a` sorts strictly before `b`: by the first text, then by the second.
pub open spec fn key_before(a: (Seq<char>, Seq<char>), b: (Seq<char>, Seq<char>)) -> bool {
    text_lt(a.0, b.0) || (a.0 == b.0 && text_lt(a.1, b.1))
}

/// `out` is `src` sorted by `row_key` without reordering rows of equal key; `order[k]` is the
/// position in `src` of the row at position `k` of `out`.
pub open spec fn stable_sorted(src: Seq<(HostView, MetaView)>, out: Seq<(HostView, MetaView)>, order: Seq<int>) -> bool {
    &&& order.len() == src.len()
    &&& out.len() == src.len()
    &&& order.no_duplicates()
    &&& forall|k: int| 0 <= k < order.len() ==> 0 <= #[trigger] order[k] < src.len()
    &&& forall|k: int| 0 <= k < out.len() ==> #[trigger] out[k] == src[order[k]]
    &&& forall|i: int, j: int|
        0 <= i < j < out.len() ==> !key_before(row_key(#[trigger] out[j]), row_key(#[trigger] out[i]))
    &&& forall|i: int, j: int|
        0 <= i < j < out.len() && row_key(#[trigger] out[i]) == row_key(#[trigger] out[j]) ==> order[i]
            < order[j]
}

pub proof fn lemma_key_before_irreflexive(a: (Seq<char>, Seq<char>))
    ensures
        !key_before(a, a),
{
    lemma_text_lt_irreflexive(a.0);
    lemma_text_lt_irreflexive(a.1);
}

pub proof fn lemma_key_before_transitive(a: (Seq<char>, Seq<char>), b: (Seq<char>, Seq<char>), c: (Seq<char>, Seq<char>))
    requires
        key_before(a, b),
        key_before(b, c),
    ensures
        key_before(a, c),
{
    if text_lt(a.0, b.0) && text_lt(b.0, c.0) {
        lemma_text_lt_transitive(a.0, b.0, c.0);
    } else if text_lt(a.1, b.1) && text_lt(b.1, c.1) && a.0 == b.0 && b.0 == c.0 {
        lemma_text_lt_transitive(a.1, b.1, c.1);
    }
}

pub proof fn lemma_key_before_asymmetric(a: (Seq<char>, Seq<char>), b: (Seq<char>, Seq<char>))
    requires
        key_before(a, b),
    ensures
        !key_before(b, a),
{
    if text_lt(a.0, b.0) {
        lemma_text_lt_asymmetric(a.0, b.0);
        lemma_text_lt_irreflexive(a.0);
    } else {
        lemma_text_lt_asymmetric(a.1, b.1);
        lemma_text_lt_irreflexive(a.0);
    }
}

fn before_exec(ga: &Vec<char>, la: &Vec<char>, gb: &Vec<char>, lb: &Vec<char>) -> (r: bool)
    ensures
        r == key_before((ga@, la@), (gb@, lb@)),
{
    let c = compare_text(ga, gb);
    if c < 0 {
        true
    } else if c > 0 {
        proof {
            lemma_text_lt_asymmetric(gb@, ga@);
        }
        false
    } else {
        compare_text(la, lb) < 0
    }
}

/// The sidebar rows: each host with its metadata (empty when it has none), sorted by group,
/// then by lower-cased alias, rows of equal key keeping their order (`slice::sort_by` is
/// stable).
pub fn sorted_rows(hosts: Vec<SshHost>, metadata: &Metadata) -> (r: Vec<(SshHost, HostMeta)>)
    ensures
        exists|order: Seq<int>|
            stable_sorted(row_entries(metadata@, hosts_view(hosts@)), rows_view(r@), order),
{
    let ghost src = row_entries(metadata@, hosts_view(hosts@));
    let n = hosts.len();
    let mut items: Vec<(SshHost, HostMeta)> = Vec::new();
    let mut groups: Vec<Vec<char>> = Vec::new();
    let mut lowered: Vec<Vec<char>> = Vec::new();
    let mut i: usize = 0;
    while i < n
        invariant
            i <= n == hosts.len(),
            src == row_entries(metadata@, hosts_view(hosts@)),
            items.len() == i,
            groups.len() == i,
            lowered.len() == i,
            forall|k: int| 0 <= k < i ==> (#[trigger] items@[k]).0@ == src[k].0 && items@[k].1@ == src[k].1,
            forall|k: int| 0 <= k < i ==> row_key(#[trigger] src[k]) == (groups@[k]@, lowered@[k]@),
        decreases n - i,
    {
        let h = clone_host(&hosts[i]);
        let meta = match metadata.get(hosts[i].alias.as_str()) {
            Some(m) => clone_meta(m),
            None => HostMeta { group: None, color: None, notes: None },
        };
        let g = match &meta.group {
            Some(gr) => chars_of(gr.as_str()),
            None => Vec::new(),
        };
        let low = lowercase(hosts[i].alias.as_str());
        let l = chars_of(low.as_str());
        proof {
            assert(src[i as int] == (hosts@[i as int]@, meta_for(metadata@, hosts@[i as int]@.alias)));
            assert(meta@ == meta_for(metadata@, hosts@[i as int]@.alias));
        }
        items.push((h, meta));
        groups.push(g);
        lowered.push(l);
        i += 1;
    }
    let ghost ks = src.map_values(|e: (HostView, MetaView)| row_key(e));
    let mut order: Vec<usize> = Vec::new();
    let mut i: usize = 0;
    while i < n
        invariant
            i <= n == items.len() == groups.len() == lowered.len() == src.len(),
            ks == src.map_values(|e: (HostView, MetaView)| row_key(e)),
            forall|k: int| 0 <= k < n ==> #[trigger] ks[k] == (groups@[k]@, lowered@[k]@),
            order.len() == i,
            forall|k: int| 0 <= k < i ==> (#[trigger] order@[k]) < i,
            forall|a: int, b: int| 0 <= a < b < i ==> order@[a] != order@[b],
            forall|a: int, b: int|
                0 <= a < b < i ==> !key_before(ks[#[trigger] order@[b] as int], ks[#[trigger] order@[a] as int]),
            forall|a: int, b: int|
                0 <= a < b < i && ks[#[trigger] order@[a] as int] == ks[#[trigger] order@[b] as int] ==> order@[a]
                    < order@[b],
        decreases n - i,
    {
        let mut p: usize = 0;
        while p < order.len() && !before_exec(&groups[i], &lowered[i], &groups[order[p]], &lowered[order[p]])
            invariant
                p <= order.len() == i < n == groups.len() == lowered.len(),
                forall|k: int| 0 <= k < i ==> (#[trigger] order@[k]) < i,
                forall|k: int| 0 <= k < n ==> #[trigger] ks[k] == (groups@[k]@, lowered@[k]@),
                forall|q: int| 0 <= q < p ==> !key_before(ks[i as int], ks[#[trigger] order@[q] as int]),
            decreases order.len() - p,
        {
            p += 1;
        }
        let ghost old_order = order@;
        proof {
            if p < i {
                assert(key_before(ks[i as int], ks[old_order[p as int] as int]));
            }
        }
        order.insert(p, i);
        proof {
            let no = order@;
            assert(no =~= old_order.insert(p as int, i));
            let x = ks[i as int];
            assert forall|a: int, b: int| 0 <= a < b < i + 1 implies !key_before(
                ks[#[trigger] no[b] as int],
                ks[#[trigger] no[a] as int],
            ) by {
                if a == p {
                    let e = old_order[b - 1] as int;
                    assert(no[b] == old_order[b - 1]);
                    if b - 1 == p {
                        lemma_key_before_asymmetric(x, ks[e]);
                    } else {
                        let f = old_order[p as int] as int;
                        if key_before(ks[e], x) {
                            lemma_key_before_transitive(ks[e], x, ks[f]);
                            assert(!key_before(ks[old_order[b - 1] as int], ks[old_order[p as int] as int]));
                        }
                    }
                } else if b == p {
                    assert(no[a] == old_order[a]);
                } else {
                    let oa = if a < p { a } else { a - 1 };
                    let ob = if b < p { b } else { b - 1 };
                    assert(no[a] == old_order[oa]);
                    assert(no[b] == old_order[ob]);
                }
            }
            assert forall|a: int, b: int|
                0 <= a < b < i + 1 && ks[#[trigger] no[a] as int] == ks[#[trigger] no[b] as int] implies no[a]
                    < no[b] by {
                if a == p {
                    let e = old_order[b - 1] as int;
                    assert(no[b] == old_order[b - 1]);
                    let f = old_order[p as int] as int;
                    if b - 1 == p {
                        lemma_key_before_irreflexive(x);
                    } else {
                        assert(!key_before(ks[old_order[b - 1] as int], ks[old_order[p as int] as int]));
                    }
                } else if b == p {
                    assert(no[a] == old_order[a]);
                } else {
                    let oa = if a < p { a } else { a - 1 };
                    let ob = if b < p { b } else { b - 1 };
                    assert(no[a] == old_order[oa]);
                    assert(no[b] == old_order[ob]);
                }
            }
            assert forall|a: int, b: int| 0 <= a < b < i + 1 implies no[a] != no[b] by {
                if a != p && b != p {
                    let oa = if a < p { a } else { a - 1 };
                    let ob = if b < p { b } else { b - 1 };
                    assert(no[a] == old_order[oa]);
                    assert(no[b] == old_order[ob]);
                } else if a == p {
                    assert(no[b] == old_order[b - 1]);
                } else {
                    assert(no[a] == old_order[a]);
                }
            }
            assert forall|k: int| 0 <= k < i + 1 implies (#[trigger] no[k]) < i + 1 by {
                if k < p {
                    assert(no[k] == old_order[k]);
                } else if k > p {
                    assert(no[k] == old_order[k - 1]);
                }
            }
        }
        i += 1;
    }
    let mut out: Vec<(SshHost, HostMeta)> = Vec::new();
    let mut k: usize = 0;
    while k < n
        invariant
            k <= n == order.len() == items.len() == src.len(),
            forall|j: int| 0 <= j < n ==> (#[trigger] order@[j]) < n,
            forall|j: int| 0 <= j < n ==> (#[trigger] items@[j]).0@ == src[j].0 && items@[j].1@ == src[j].1,
            out.len() == k,
            forall|j: int| 0 <= j < k ==> #[trigger] rows_view(out@)[j] == src[order@[j] as int],
        decreases n - k,
    {
        let idx = order[k];
        let e = (clone_host(&items[idx].0), clone_meta(&items[idx].1));
        let ghost before = rows_view(out@);
        out.push(e);
        proof {
            assert(rows_view(out@) =~= before.push((e.0@, e.1@)));
            assert((e.0@, e.1@) == src[idx as int]);
            assert forall|j: int| 0 <= j < k + 1 implies #[trigger] rows_view(out@)[j] == src[order@[j] as int] by {
                if j < k {
                    assert(rows_view(out@)[j] == before[j]);
                }
            }
        }
        k += 1;
    }
    proof {
        let ord = order@.map_values(|x: usize| x as int);
        let ov = rows_view(out@);
        assert(ks.len() == n);
        assert forall|j: int| 0 <= j < n implies #[trigger] row_key(ov[j]) == ks[order@[j] as int] by {
            assert(ov[j] == src[order@[j] as int]);
        }
        assert(ord.no_duplicates()) by {
            assert forall|a: int, b: int| 0 <= a < ord.len() && 0 <= b < ord.len() && a != b implies ord[a]
                != ord[b] by {
                if a < b {
                    assert(order@[a] != order@[b]);
                } else {
                    assert(order@[b] != order@[a]);
                }
            }
        }
        assert forall|a: int, b: int| 0 <= a < b < ov.len() implies !key_before(
            row_key(#[trigger] ov[b]),
            row_key(#[trigger] ov[a]),
        ) by {
            assert(row_key(ov[a]) == ks[order@[a] as int]);
            assert(row_key(ov[b]) == ks[order@[b] as int]);
        }
        assert forall|a: int, b: int|
            0 <= a < b < ov.len() && row_key(#[trigger] ov[a]) == row_key(#[trigger] ov[b]) implies ord[a]
                < ord[b] by {
            assert(row_key(ov[a]) == ks[order@[a] as int]);
            assert(row_key(ov[b]) == ks[order@[b] as int]);
        }
        assert(stable_sorted(src, ov, ord));
    }
    out
}

} // verus!
