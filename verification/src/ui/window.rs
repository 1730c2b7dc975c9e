//! Main-window decisions: the alias of a duplicated host, the `sftp://` location of a host, the
//! aliases that metadata may keep, and the title of a session tab.

use vstd::prelude::*;

use crate::command::{strings_view, ConnectTarget};
use crate::num::{decimal, decimal_chars, decimal_chars_u128, lemma_decimal_digits, lemma_decimal_injective};
use crate::metadata::{set_view, HostMeta, Metadata};
use crate::ssh_config::host::{clone_host, host_from_block, hosts_of, hosts_view, HostView};
use crate::ssh_config::laws::{
    as_saved, clean_host, editable_as, ends_in_cr, law_new_host_in_list, lemma_block_entry, listed,
    well_formed_segments,
};
use crate::ssh_config::model::{render_view, SegView};
use crate::ssh_config::writer::{
    before_managed, ensure_appendable, new_block_view, upsert_renaming_view, upsert_view,
};
use crate::ssh_config::{all_read_only, SshConfig, SshHost};
use crate::text::{append_chars, chars_of, same_chars, same_text, string_of};

verus! {

// ----------------------------------------------------------------------------------------------
// Duplicating a host
// ----------------------------------------------------------------------------------------------

/// The `k`-th name tried for a copy of `base`: `base-copia` first, then `base-copia-2`,
/// `base-copia-3`, …
pub open spec fn copy_candidate(base: Seq<char>, k: nat) -> Seq<char> {
    if k < 2 {
        base + "-copia"@
    } else {
        base + "-copia-"@ + decimal(k)
    }
}

/// The alias of a copy of `base`: the first candidate, counting from `base-copia`, that no
/// existing alias takes.
pub open spec fn is_copy_alias(base: Seq<char>, existing: Seq<Seq<char>>, name: Seq<char>) -> bool {
    exists|k: nat|
        k >= 1 && #[trigger] copy_candidate(base, k) == name && !existing.contains(name) && forall|
            j: nat,
        |
            1 <= j < k ==> existing.contains(#[trigger] copy_candidate(base, j))
}

/// Different positions in the sequence of candidates give different names.
pub proof fn lemma_copy_candidates_distinct(base: Seq<char>, j: nat, k: nat)
    requires
        1 <= j < k,
    ensures
        copy_candidate(base, j) != copy_candidate(base, k),
{
    reveal_strlit("-copia");
    reveal_strlit("-copia-");
    let cj = copy_candidate(base, j);
    let ck = copy_candidate(base, k);
    lemma_decimal_digits(k);
    if j < 2 {
        assert("-copia"@.len() == 6);
        assert("-copia-"@.len() == 7);
        assert(cj.len() == base.len() + 6);
        assert(ck.len() >= base.len() + 8);
    } else {
        lemma_decimal_digits(j);
        assert(cj =~= base + "-copia-"@ + decimal(j));
        assert(ck =~= base + "-copia-"@ + decimal(k));
        assert("-copia-"@.len() == 7);
        if cj == ck {
            let p: int = base.len() as int + 7;
            assert(decimal(j).len() == decimal(k).len());
            assert(decimal(j) =~= cj.skip(p));
            assert(decimal(k) =~= ck.skip(p));
            lemma_decimal_injective(j, k);
        }
    }
}

/// When the first `n` candidates are all taken, there are at least `n` existing aliases.
pub proof fn lemma_taken_candidates_bound(base: Seq<char>, existing: Seq<Seq<char>>, n: nat)
    requires
        forall|j: nat| 1 <= j <= n ==> existing.contains(#[trigger] copy_candidate(base, j)),
    ensures
        n <= existing.len(),
{
    let cs = Seq::new(n, |i: int| copy_candidate(base, (i + 1) as nat));
    assert(cs.no_duplicates()) by {
        assert forall|a: int, b: int| 0 <= a < cs.len() && 0 <= b < cs.len() && a != b implies cs[a]
            != cs[b] by {
            if a < b {
                lemma_copy_candidates_distinct(base, (a + 1) as nat, (b + 1) as nat);
            } else {
                lemma_copy_candidates_distinct(base, (b + 1) as nat, (a + 1) as nat);
            }
        }
    }
    cs.unique_seq_to_set();
    existing.lemma_cardinality_of_set();
    assert(cs.to_set().subset_of(existing.to_set())) by {
        assert forall|x: Seq<char>| cs.to_set().contains(x) implies existing.to_set().contains(x) by {
            let i = choose|i: int| 0 <= i < cs.len() && cs[i] == x;
            assert(existing.contains(copy_candidate(base, (i + 1) as nat)));
        }
    }
    vstd::seq_lib::seq_to_set_is_finite(existing);
    vstd::set_lib::lemma_len_subset(cs.to_set(), existing.to_set());
}

fn is_taken(existing: &[String], name: &Vec<char>) -> (r: bool)
    ensures
        r == strings_view(existing@).contains(name@),
{
    let ghost names = strings_view(existing@);
    let mut i: usize = 0;
    while i < existing.len()
        invariant
            i <= existing.len(),
            names == strings_view(existing@),
            forall|j: int| 0 <= j < i ==> names[j] != name@,
        decreases existing.len() - i,
    {
        let e = chars_of(existing[i].as_str());
        if same_chars(&e, name) {
            proof {
                assert(names[i as int] == name@);
            }
            return true;
        }
        i += 1;
    }
    proof {
        if names.contains(name@) {
            let j = choose|j: int| 0 <= j < names.len() && names[j] == name@;
        }
    }
    false
}

/// The alias for a duplicate of the host `base`: `base-copia`, or `base-copia-N` with the
/// smallest `N` from 2 up that no existing alias takes.
pub fn unique_alias(base: &str, existing: &[String]) -> (r: String)
    ensures
        is_copy_alias(base@, strings_view(existing@), r@),
{
    let ghost names = strings_view(existing@);
    let b = chars_of(base);
    let mut first = b.clone();
    let suffix = chars_of("-copia");
    append_chars(&mut first, &suffix);
    assert(first@ == copy_candidate(base@, 1));
    if !is_taken(existing, &first) {
        return string_of(first.as_slice());
    }
    let dash = chars_of("-copia-");
    let mut n: u128 = 2;
    while n <= existing.len() as u128 + 1
        invariant
            2 <= n,
            names == strings_view(existing@),
            b@ == base@,
            dash@ == "-copia-"@,
            forall|j: nat| 1 <= j < n ==> names.contains(#[trigger] copy_candidate(base@, j)),
        decreases existing.len() as u128 + 2 - n,
    {
        let mut candidate = b.clone();
        append_chars(&mut candidate, &dash);
        let digits = decimal_chars_u128(n);
        append_chars(&mut candidate, &digits);
        assert(candidate@ == copy_candidate(base@, n as nat));
        if !is_taken(existing, &candidate) {
            return string_of(candidate.as_slice());
        }
        n += 1;
    }
    proof {
        lemma_taken_candidates_bound(base@, names, (n - 1) as nat);
        assert(false);
    }
    String::new()
}

// ----------------------------------------------------------------------------------------------
// File-manager location, editable aliases, tab titles
// ----------------------------------------------------------------------------------------------

/// `sftp://[user@]host[:port]/`, where `host` is the host name, or the alias when none is set.
pub open spec fn sftp_location(h: HostView) -> Seq<char> {
    let host_part = match h.host_name {
        Some(n) => n,
        None => h.alias,
    };
    let user_part = match h.user {
        Some(u) => u + "@"@,
        None => Seq::empty(),
    };
    let port_part = match h.port {
        Some(p) => ":"@ + decimal(p as nat),
        None => Seq::empty(),
    };
    "sftp://"@ + user_part + host_part + port_part + "/"@
}

/// The location starts with `sftp://`, then the user and `@` when the host has a user (nothing
/// otherwise), and ends with the host (its host name, or its alias when it has none), then `:`
/// and the port when the host has one, whether or not a user is set, and a final `/`.
pub proof fn law_sftp_location_shape(h: HostView)
    ensures
        ({
            let s = sftp_location(h);
            let host = match h.host_name {
                Some(n) => n,
                None => h.alias,
            };
            let tail = match h.port {
                Some(p) => host + seq![':'] + decimal(p as nat) + seq!['/'],
                None => host + seq!['/'],
            };
            &&& s.len() >= 7 + tail.len()
            &&& s.take(7) == seq!['s', 'f', 't', 'p', ':', '/', '/']
            &&& s.skip(s.len() - tail.len()) == tail
            &&& h.user is None ==> s.len() == 7 + tail.len()
            &&& h.user matches Some(u) ==> s.len() == 8 + u.len() + tail.len() && s.subrange(7, 8 + u.len() as int)
                == u.push('@')
        }),
{
    reveal_strlit("sftp://");
    reveal_strlit("/");
    reveal_strlit(":");
    reveal_strlit("@");
    let s = sftp_location(h);
    let host = match h.host_name {
        Some(n) => n,
        None => h.alias,
    };
    let user_part = match h.user {
        Some(u) => u + "@"@,
        None => Seq::<char>::empty(),
    };
    let port_part = match h.port {
        Some(p) => ":"@ + decimal(p as nat),
        None => Seq::<char>::empty(),
    };
    let tail = match h.port {
        Some(p) => host + seq![':'] + decimal(p as nat) + seq!['/'],
        None => host + seq!['/'],
    };
    assert(s == "sftp://"@ + user_part + host + port_part + "/"@);
    assert(tail =~= host + port_part + "/"@);
    assert(s =~= ("sftp://"@ + user_part) + tail);
    assert(s.take(7) =~= seq!['s', 'f', 't', 'p', ':', '/', '/']);
    assert(s.skip(s.len() - tail.len()) =~= tail);
    if let Some(u) = h.user {
        assert(s.subrange(7, 8 + u.len() as int) =~= u.push('@'));
    }
}

/// The location a file manager opens for `host`.
pub fn sftp_uri(host: &SshHost) -> (r: String)
    ensures
        r@ == sftp_location(host@),
{
    let mut out = chars_of("sftp://");
    if let Some(u) = &host.user {
        let uc = chars_of(u.as_str());
        append_chars(&mut out, &uc);
        let at = chars_of("@");
        append_chars(&mut out, &at);
    }
    let name = match &host.host_name {
        Some(n) => chars_of(n.as_str()),
        None => chars_of(host.alias.as_str()),
    };
    append_chars(&mut out, &name);
    if let Some(p) = host.port {
        let colon = chars_of(":");
        append_chars(&mut out, &colon);
        let digits = decimal_chars(p);
        append_chars(&mut out, &digits);
    }
    let slash = chars_of("/");
    append_chars(&mut out, &slash);
    proof {
        let h = host@;
        let user_part = match h.user {
            Some(u) => u + "@"@,
            None => Seq::<char>::empty(),
        };
        let port_part = match h.port {
            Some(p) => ":"@ + decimal(p as nat),
            None => Seq::<char>::empty(),
        };
        let host_part = match h.host_name {
            Some(n) => n,
            None => h.alias,
        };
        assert(out@ =~= "sftp://"@ + user_part + host_part + port_part + "/"@);
    }
    string_of(out.as_slice())
}

/// The aliases of the editable hosts among `hosts`, in order.
pub open spec fn editable_aliases(hosts: Seq<HostView>) -> Seq<Seq<char>>
    decreases hosts.len(),
{
    if hosts.len() == 0 {
        Seq::empty()
    } else {
        let rest = editable_aliases(hosts.drop_last());
        if hosts.last().read_only {
            rest
        } else {
            rest.push(hosts.last().alias)
        }
    }
}

/// An editable host's alias is among the editable aliases.
proof fn lemma_editable_alias_listed(l: Seq<HostView>, k: int)
    requires
        0 <= k < l.len(),
        !l[k].read_only,
    ensures
        editable_aliases(l).contains(l[k].alias),
    decreases l.len(),
{
    let rest = editable_aliases(l.drop_last());
    if k == l.len() - 1 {
        assert(editable_aliases(l) == rest.push(l[k].alias));
        assert(editable_aliases(l)[rest.len() as int] == l[k].alias);
    } else {
        assert(l.drop_last()[k] == l[k]);
        lemma_editable_alias_listed(l.drop_last(), k);
        let w = choose|w: int| 0 <= w < rest.len() && rest[w] == l[k].alias;
        assert(editable_aliases(l)[w] == l[k].alias);
    }
}

/// Duplicating a host, seen through the listed hosts: the copy's alias has no rewritable block,
/// so the copy gets a new block, appended after the file's hosts and before the included ones,
/// and it is then the only entry editable under that alias; with trimmed values and advanced
/// options free of carriage returns it is the host under its new alias. Every other listed host
/// stays, unless the file's last line ends with a carriage return.
pub proof fn law_duplicate_in_list(segs: Seq<SegView>, included: Seq<HostView>, h: HostView, r: Seq<char>)
    requires
        all_read_only(included),
        is_copy_alias(h.alias, editable_aliases(hosts_of(segs) + included), r),
    ensures
        ({
            let c = with_alias(h, r);
            let e = hosts_of(ensure_appendable(segs));
            let x = host_from_block(new_block_view(c));
            let l2 = listed(upsert_view(segs, c), included);
            &&& before_managed(segs, r) == segs.len()
            &&& l2 == e + seq![x] + included
            &&& forall|j: int| 0 <= j < l2.len() ==> (editable_as(#[trigger] l2[j], r) <==> j == e.len())
            &&& clean_host(h) ==> x == as_saved(c)
            &&& well_formed_segments(segs) && !ends_in_cr(render_view(segs)) ==> e == hosts_of(segs)
        }),
{
    let c = with_alias(h, r);
    let l = listed(segs, included);
    assert(!editable_aliases(l).contains(r));
    crate::ssh_config::laws::lemma_before_managed(segs, r);
    if before_managed(segs, r) < segs.len() {
        lemma_block_entry(segs, included, r);
        let k = crate::ssh_config::laws::first_editable(l, r) as int;
        lemma_editable_alias_listed(l, k);
    }
    assert(clean_host(c) == clean_host(h));
    law_new_host_in_list(segs, included, c);
}

/// The aliases this config can rewrite: metadata of any other alias is pruned on save.
pub fn known_aliases(cfg: &SshConfig) -> (r: Vec<String>)
    ensures
        strings_view(r@) == editable_aliases(hosts_of(cfg@.segments) + cfg@.included),
{
    let hosts = cfg.list_hosts();
    let mut out: Vec<String> = Vec::new();
    let mut i: usize = 0;
    while i < hosts.len()
        invariant
            i <= hosts.len(),
            hosts_view(hosts@) == hosts_of(cfg@.segments) + cfg@.included,
            strings_view(out@) == editable_aliases(hosts_view(hosts@).take(i as int)),
        decreases hosts.len() - i,
    {
        let ghost hv = hosts_view(hosts@);
        proof {
            assert(hv.take(i + 1).drop_last() =~= hv.take(i as int));
            assert(hv.take(i + 1).last() == hv[i as int]);
        }
        if !hosts[i].read_only {
            let a = hosts[i].alias.clone();
            let ghost before = strings_view(out@);
            out.push(a);
            proof {
                assert(strings_view(out@) =~= before.push(hv[i as int].alias));
            }
        }
        i += 1;
    }
    proof {
        assert(hosts_view(hosts@).take(hosts.len() as int) =~= hosts_view(hosts@));
    }
    out
}

/// The title of a session tab: the alias, or `user@host` / `host` for a quick connection.
pub open spec fn tab_title_of(t: crate::command::TargetView) -> Seq<char> {
    match t {
        crate::command::TargetView::Alias(a) => a,
        crate::command::TargetView::Quick { user, host, .. } => match user {
            Some(u) => u + "@"@ + host,
            None => host,
        },
    }
}

pub fn tab_title(target: &ConnectTarget) -> (r: String)
    ensures
        r@ == tab_title_of(target@),
{
    match target {
        ConnectTarget::Alias(alias) => alias.clone(),
        ConnectTarget::Quick { user, host, .. } => match user {
            Some(u) => {
                let mut out = chars_of(u.as_str());
                let at = chars_of("@");
                append_chars(&mut out, &at);
                let hc = chars_of(host.as_str());
                append_chars(&mut out, &hc);
                string_of(out.as_slice())
            },
            None => host.clone(),
        },
    }
}

// ----------------------------------------------------------------------------------------------
// Host actions: the config and the metadata after each one
// ----------------------------------------------------------------------------------------------

/// The host `h` under another alias.
pub open spec fn with_alias(h: HostView, a: Seq<char>) -> HostView {
    HostView { alias: a, ..h }
}

/// Adds a host from the "new connection" dialog: its block is created (or rewritten, when its
/// alias already has one) and its metadata set.
pub fn add_host(cfg: &mut SshConfig, metadata: &mut Metadata, host: SshHost, meta: HostMeta)
    ensures
        final(cfg)@.segments == upsert_view(old(cfg)@.segments, host@),
        final(cfg)@.included == old(cfg)@.included,
        final(cfg).path_of() == old(cfg).path_of(),
        final(metadata)@ == set_view(old(metadata)@, host@.alias, meta@),
{
    let alias = host.alias.clone();
    cfg.upsert_host(host);
    metadata.set(alias.as_str(), meta);
}

/// Saves a host edited from the alias `previous_alias`: its block is rewritten in place (found
/// by the previous alias when the alias changed) and its metadata set under the new alias.
pub fn save_edit(
    cfg: &mut SshConfig,
    metadata: &mut Metadata,
    previous_alias: &str,
    host: SshHost,
    meta: HostMeta,
)
    ensures
        final(cfg)@.segments == if host@.alias == previous_alias@ {
            upsert_view(old(cfg)@.segments, host@)
        } else {
            upsert_renaming_view(old(cfg)@.segments, Some(previous_alias@), host@)
        },
        final(cfg)@.included == old(cfg)@.included,
        final(cfg).path_of() == old(cfg).path_of(),
        final(metadata)@ == set_view(old(metadata)@, host@.alias, meta@),
{
    let alias = host.alias.clone();
    if same_text(alias.as_str(), previous_alias) {
        cfg.upsert_host(host);
    } else {
        cfg.upsert_host_renaming(previous_alias, host);
    }
    metadata.set(alias.as_str(), meta);
}

/// Duplicates a host under a fresh alias (see [`unique_alias`], over the editable aliases),
/// with the same metadata; returns the new alias.
pub fn duplicate_host(cfg: &mut SshConfig, metadata: &mut Metadata, host: &SshHost, meta: HostMeta) -> (r:
    String)
    ensures
        is_copy_alias(
            host@.alias,
            editable_aliases(hosts_of(old(cfg)@.segments) + old(cfg)@.included),
            r@,
        ),
        final(cfg)@.segments == upsert_view(old(cfg)@.segments, with_alias(host@, r@)),
        final(cfg)@.included == old(cfg)@.included,
        final(cfg).path_of() == old(cfg).path_of(),
        final(metadata)@ == set_view(old(metadata)@, r@, meta@),
{
    let existing = known_aliases(cfg);
    let new_alias = unique_alias(host.alias.as_str(), existing.as_slice());
    let mut copy = clone_host(host);
    copy.alias = new_alias.clone();
    proof {
        assert(copy@ == with_alias(host@, new_alias@));
    }
    cfg.upsert_host(copy);
    metadata.set(new_alias.as_str(), meta);
    new_alias
}

/// Deletes a host: its rewritable block is removed (when it has one) and its metadata cleared.
/// Returns whether a block was removed.
pub fn delete_host(cfg: &mut SshConfig, metadata: &mut Metadata, alias: &str) -> (removed: bool)
    ensures
        removed == (before_managed(old(cfg)@.segments, alias@) < old(cfg)@.segments.len()),
        removed ==> final(cfg)@.segments == old(cfg)@.segments.remove(
            before_managed(old(cfg)@.segments, alias@) as int,
        ),
        !removed ==> final(cfg)@.segments == old(cfg)@.segments,
        final(cfg)@.included == old(cfg)@.included,
        final(cfg).path_of() == old(cfg).path_of(),
        !final(metadata)@.contains_key(alias@),
        final(metadata)@ == old(metadata)@.remove(alias@),
{
    let removed = cfg.remove_host(alias);
    metadata.set(alias, HostMeta { group: None, color: None, notes: None });
    removed
}

} // verus!
