//! UI-only metadata (group, color, notes) that has no place in `~/.ssh/config` itself, keyed by
//! host alias. Reading and writing `metadata.toml` is the frontend's job.

use vstd::prelude::*;

use crate::command::strings_view;
use crate::ssh_config::parser::vecs_view;
use crate::text::{
    chars_of, clone_opt, compare_text, lemma_text_lt_total, lemma_text_lt_transitive, same_text, string_of, text_lt,
};

verus! {

#[derive(Debug, Clone, Default, PartialEq, Eq)]
pub struct HostMeta {
    pub group: Option<String>,
    pub color: Option<String>,
    pub notes: Option<String>,
}

pub struct MetaView {
    pub group: Option<Seq<char>>,
    pub color: Option<Seq<char>>,
    pub notes: Option<Seq<char>>,
}

impl View for HostMeta {
    type V = MetaView;

    open spec fn view(&self) -> MetaView {
        MetaView {
            group: self.group.deep_view(),
            color: self.color.deep_view(),
            notes: self.notes.deep_view(),
        }
    }
}

pub open spec fn meta_is_empty(m: MetaView) -> bool {
    m.group is None && m.color is None && m.notes is None
}

impl HostMeta {
    pub fn is_empty(&self) -> (r: bool)
        ensures
            r == meta_is_empty(self@),
    {
        self.group.is_none() && self.color.is_none() && self.notes.is_none()
    }
}

pub fn clone_meta(m: &HostMeta) -> (r: HostMeta)
    ensures
        r@ == m@,
{
    HostMeta { group: clone_opt(&m.group), color: clone_opt(&m.color), notes: clone_opt(&m.notes) }
}

// ----------------------------------------------------------------------------------------------
// Entries and their map
// ----------------------------------------------------------------------------------------------

pub open spec fn entries_view(v: Seq<(String, HostMeta)>) -> Seq<(Seq<char>, MetaView)> {
    v.map_values(|e: (String, HostMeta)| (e.0@, e.1@))
}

/// The map the entries stand for (a later entry of a key wins).
pub open spec fn entries_map(s: Seq<(Seq<char>, MetaView)>) -> Map<Seq<char>, MetaView>
    decreases s.len(),
{
    if s.len() == 0 {
        Map::empty()
    } else {
        entries_map(s.drop_last()).insert(s.last().0, s.last().1)
    }
}

pub open spec fn unique_keys(s: Seq<(Seq<char>, MetaView)>) -> bool {
    forall|i: int, j: int| 0 <= i < s.len() && 0 <= j < s.len() && i != j ==> s[i].0 != s[j].0
}

pub proof fn lemma_entries_map(s: Seq<(Seq<char>, MetaView)>)
    requires
        unique_keys(s),
    ensures
        forall|k: Seq<char>|
            #[trigger] entries_map(s).contains_key(k) <==> exists|i: int|
                0 <= i < s.len() && s[i].0 == k,
        forall|i: int| 0 <= i < s.len() ==> #[trigger] entries_map(s)[s[i].0] == s[i].1,
    decreases s.len(),
{
    if s.len() > 0 {
        let d = s.drop_last();
        assert(unique_keys(d)) by {
            assert forall|i: int, j: int| 0 <= i < d.len() && 0 <= j < d.len() && i != j implies d[i].0
                != d[j].0 by {
                assert(d[i] == s[i] && d[j] == s[j]);
            }
        }
        lemma_entries_map(d);
        let last = s.len() - 1;
        assert(entries_map(s) == entries_map(d).insert(s.last().0, s.last().1));
        assert(s.last() == s[last]);
        assert forall|k: Seq<char>|
            #[trigger] entries_map(s).contains_key(k) <==> exists|i: int|
                0 <= i < s.len() && s[i].0 == k by {
            if entries_map(s).contains_key(k) {
                if k != s.last().0 {
                    assert(entries_map(d).contains_key(k));
                    let i = choose|i: int| 0 <= i < d.len() && d[i].0 == k;
                    assert(s[i] == d[i]);
                } else {
                    assert(s[last].0 == k);
                }
            }
            if exists|i: int| 0 <= i < s.len() && s[i].0 == k {
                let i = choose|i: int| 0 <= i < s.len() && s[i].0 == k;
                if i < last {
                    assert(d[i] == s[i]);
                    assert(d[i].0 == k);
                    assert(entries_map(d).contains_key(k));
                }
            }
        }
        assert forall|i: int| 0 <= i < s.len() implies #[trigger] entries_map(s)[s[i].0] == s[i].1 by {
            if i < last {
                assert(d[i] == s[i]);
                assert(s[i].0 != s[last].0);
            }
        }
    }
}

/// The alias map after `Metadata::set`: empty metadata removes the alias, any other replaces it.
pub open spec fn set_view(m: Map<Seq<char>, MetaView>, alias: Seq<char>, meta: MetaView) -> Map<
    Seq<char>,
    MetaView,
> {
    if meta_is_empty(meta) {
        m.remove(alias)
    } else {
        m.insert(alias, meta)
    }
}

/// The aliases named in a list.
pub open spec fn alias_set(known: Seq<Seq<char>>) -> Set<Seq<char>> {
    Set::new(|k: Seq<char>| known.contains(k))
}

/// Host-alias-keyed metadata. Each alias has at most one entry.
pub struct Metadata {
    hosts: Vec<(String, HostMeta)>,
}

impl View for Metadata {
    type V = Map<Seq<char>, MetaView>;

    closed spec fn view(&self) -> Map<Seq<char>, MetaView> {
        entries_map(entries_view(self.hosts@))
    }
}

impl Metadata {
    #[verifier::type_invariant]
    closed spec fn keys_are_unique(&self) -> bool {
        unique_keys(entries_view(self.hosts@))
    }

    pub fn new() -> (m: Metadata)
        ensures
            m@ == Map::<Seq<char>, MetaView>::empty(),
    {
        Metadata { hosts: Vec::new() }
    }

    fn find(&self, alias: &str) -> (r: Option<usize>)
        ensures
            match r {
                Some(i) => i < self.hosts.len() && self.hosts@[i as int].0@ == alias@,
                None => forall|i: int| 0 <= i < self.hosts.len() ==> #[trigger] self.hosts@[i].0@ != alias@,
            },
    {
        let mut i: usize = 0;
        while i < self.hosts.len()
            invariant
                i <= self.hosts.len(),
                forall|j: int| 0 <= j < i ==> #[trigger] self.hosts@[j].0@ != alias@,
            decreases self.hosts.len() - i,
        {
            if same_text(self.hosts[i].0.as_str(), alias) {
                return Some(i);
            }
            i += 1;
        }
        None
    }

    pub fn get(&self, alias: &str) -> (r: Option<&HostMeta>)
        ensures
            match r {
                Some(m) => self@.contains_key(alias@) && m@ == self@[alias@],
                None => !self@.contains_key(alias@),
            },
    {
        proof {
            use_type_invariant(self);
            lemma_entries_map(entries_view(self.hosts@));
        }
        match self.find(alias) {
            Some(i) => {
                proof {
                    assert(entries_view(self.hosts@)[i as int].0 == alias@);
                }
                Some(&self.hosts[i].1)
            },
            None => {
                proof {
                    if self@.contains_key(alias@) {
                        let i = choose|i: int|
                            0 <= i < entries_view(self.hosts@).len() && entries_view(self.hosts@)[i].0
                                == alias@;
                        assert(self.hosts@[i].0@ == alias@);
                    }
                }
                None
            },
        }
    }

    /// Sets the metadata of `alias`; empty metadata removes the entry.
    pub fn set(&mut self, alias: &str, meta: HostMeta)
        ensures
            final(self)@ == set_view(old(self)@, alias@, meta@),
    {
        if meta.is_empty() {
            self.remove_entry(alias);
        } else {
            self.insert_raw(alias, meta);
        }
    }

    fn remove_entry(&mut self, alias: &str)
        ensures
            final(self)@ == old(self)@.remove(alias@),
    {
        proof {
            use_type_invariant(&*self);
            lemma_entries_map(entries_view(self.hosts@));
        }
        let ghost old_map = self@;
        let ghost old_entries = entries_view(self.hosts@);
        match self.find(alias) {
            Some(i) => {
                let mut hosts = Vec::new();
                std::mem::swap(&mut hosts, &mut self.hosts);
                hosts.remove(i);
                let ghost ne = entries_view(hosts@);
                proof {
                    assert(ne =~= old_entries.remove(i as int));
                    assert(unique_keys(ne)) by {
                        assert forall|a: int, b: int| 0 <= a < ne.len() && 0 <= b < ne.len() && a != b implies ne[a].0
                            != ne[b].0 by {
                            let oa = if a < i { a } else { a + 1 };
                            let ob = if b < i { b } else { b + 1 };
                            assert(ne[a] == old_entries[oa]);
                            assert(ne[b] == old_entries[ob]);
                        }
                    }
                    lemma_entries_map(ne);
                    assert(entries_map(ne) =~= old_map.remove(alias@)) by {
                        assert forall|k: Seq<char>| #[trigger] entries_map(ne).contains_key(k) <==> old_map.remove(
                            alias@,
                        ).contains_key(k) by {
                            if entries_map(ne).contains_key(k) {
                                let a = choose|a: int| 0 <= a < ne.len() && ne[a].0 == k;
                                let oa = if a < i { a } else { a + 1 };
                                assert(ne[a] == old_entries[oa]);
                                assert(old_entries[i as int].0 == alias@);
                            }
                            if old_map.remove(alias@).contains_key(k) {
                                let o = choose|o: int| 0 <= o < old_entries.len() && old_entries[o].0 == k;
                                assert(o != i);
                                let a = if o < i { o } else { o - 1 };
                                assert(ne[a] == old_entries[o]);
                            }
                        }
                        assert forall|k: Seq<char>| #[trigger] entries_map(ne).contains_key(k) implies entries_map(
                            ne,
                        )[k] == old_map.remove(alias@)[k] by {
                            let a = choose|a: int| 0 <= a < ne.len() && ne[a].0 == k;
                            let oa = if a < i { a } else { a + 1 };
                            assert(ne[a] == old_entries[oa]);
                            assert(old_entries[i as int].0 == alias@);
                        }
                    }
                }
                self.hosts = hosts;
            },
            None => {
                proof {
                    assert forall|k: Seq<char>| old_map.contains_key(k) implies k != alias@ by {
                        let o = choose|o: int| 0 <= o < old_entries.len() && old_entries[o].0 == k;
                        assert(self.hosts@[o].0@ == k);
                    }
                    assert(old_map.remove(alias@) =~= old_map);
                }
            },
        }
    }

    /// Stores `meta` for `alias` as is (even empty metadata), replacing any previous entry.
    pub fn insert_raw(&mut self, alias: &str, meta: HostMeta)
        ensures
            final(self)@ == old(self)@.insert(alias@, meta@),
    {
        proof {
            use_type_invariant(&*self);
            lemma_entries_map(entries_view(self.hosts@));
        }
        let ghost old_map = self@;
        let ghost old_entries = entries_view(self.hosts@);
        let key = String::from_str(alias);
        let ghost entry = (alias@, meta@);
        let mut hosts = Vec::new();
        std::mem::swap(&mut hosts, &mut self.hosts);
        let mut j: usize = 0;
        while j < hosts.len() && !same_text(hosts[j].0.as_str(), alias)
            invariant
                j <= hosts.len(),
                hosts@ == old(self).hosts@,
                forall|m: int| 0 <= m < j ==> #[trigger] hosts@[m].0@ != alias@,
            decreases hosts.len() - j,
        {
            j += 1;
        }
        let found = if j < hosts.len() {
            Some(j)
        } else {
            None
        };
        let ghost pre = hosts@;
        match found {
            Some(i) => {
                hosts.set(i, (key, meta));
                let ghost ne = entries_view(hosts@);
                proof {
                    assert(ne =~= old_entries.update(i as int, entry));
                    assert(unique_keys(ne)) by {
                        assert forall|a: int, b: int| 0 <= a < ne.len() && 0 <= b < ne.len() && a != b implies ne[a].0
                            != ne[b].0 by {
                            assert(old_entries[i as int].0 == alias@);
                        }
                    }
                    lemma_entries_map(ne);
                    assert(entries_map(ne) =~= old_map.insert(alias@, meta@)) by {
                        assert forall|k: Seq<char>| #[trigger] entries_map(ne).contains_key(k) <==> old_map.insert(
                            alias@,
                            meta@,
                        ).contains_key(k) by {
                            if old_map.insert(alias@, meta@).contains_key(k) && k != alias@ {
                                let o = choose|o: int| 0 <= o < old_entries.len() && old_entries[o].0 == k;
                                assert(ne[o] == old_entries[o]);
                            }
                            if k == alias@ {
                                assert(ne[i as int].0 == k);
                            }
                        }
                        assert forall|k: Seq<char>| #[trigger] entries_map(ne).contains_key(k) implies entries_map(
                            ne,
                        )[k] == old_map.insert(alias@, meta@)[k] by {
                            let a = choose|a: int| 0 <= a < ne.len() && ne[a].0 == k;
                            assert(entries_map(ne)[ne[a].0] == ne[a].1);
                            if a != i {
                                assert(ne[a] == old_entries[a]);
                                assert(ne[i as int].0 == alias@);
                                assert(k != alias@);
                                assert(old_map[old_entries[a].0] == old_entries[a].1);
                            } else {
                                assert(ne[a].1 == meta@);
                            }
                        }
                    }
                }
            },
            None => {
                hosts.push((key, meta));
                let ghost ne = entries_view(hosts@);
                proof {
                    assert(ne =~= old_entries.push(entry));
                    assert(unique_keys(ne)) by {
                        assert forall|a: int, b: int| 0 <= a < ne.len() && 0 <= b < ne.len() && a != b implies ne[a].0
                            != ne[b].0 by {
                            if a < old_entries.len() {
                                assert(ne[a] == old_entries[a]);
                                assert(pre[a].0@ != alias@);
                            }
                            if b < old_entries.len() {
                                assert(ne[b] == old_entries[b]);
                                assert(pre[b].0@ != alias@);
                            }
                        }
                    }
                    assert(ne.drop_last() =~= old_entries);
                }
            },
        }
        self.hosts = hosts;
    }

    /// Every entry, in storage order.
    pub fn entries(&self) -> (r: Vec<(String, HostMeta)>)
        ensures
            unique_keys(entries_view(r@)),
            entries_map(entries_view(r@)) == self@,
    {
        proof {
            use_type_invariant(self);
        }
        let mut out: Vec<(String, HostMeta)> = Vec::new();
        let mut i: usize = 0;
        while i < self.hosts.len()
            invariant
                i <= self.hosts.len(),
                entries_view(out@) == entries_view(self.hosts@).take(i as int),
            decreases self.hosts.len() - i,
        {
            let e = (self.hosts[i].0.clone(), clone_meta(&self.hosts[i].1));
            let ghost before = entries_view(out@);
            out.push(e);
            proof {
                assert(entries_view(out@) =~= before.push((e.0@, e.1@)));
                assert(entries_view(self.hosts@).take(i + 1) =~= entries_view(self.hosts@).take(
                    i as int,
                ).push(entries_view(self.hosts@)[i as int]));
            }
            i += 1;
        }
        proof {
            assert(entries_view(self.hosts@).take(self.hosts.len() as int) =~= entries_view(
                self.hosts@,
            ));
        }
        out
    }
}

impl Default for Metadata {
    fn default() -> (m: Metadata)
        ensures
            m@ == Map::<Seq<char>, MetaView>::empty(),
    {
        Metadata::new()
    }
}

// ----------------------------------------------------------------------------------------------
// Ordering of group names
// ----------------------------------------------------------------------------------------------

pub open spec fn strictly_sorted(s: Seq<Seq<char>>) -> bool {
    forall|i: int, j: int| 0 <= i < j < s.len() ==> text_lt(#[trigger] s[i], #[trigger] s[j])
}

/// Inserts `x` into a strictly sorted list unless it is already there.
fn insert_sorted(v: &mut Vec<Vec<char>>, x: Vec<char>)
    requires
        strictly_sorted(vecs_view(old(v)@)),
    ensures
        strictly_sorted(vecs_view(final(v)@)),
        forall|y: Seq<char>|
            #[trigger] vecs_view(final(v)@).contains(y) <==> (vecs_view(old(v)@).contains(y) || y
                == x@),
{
    let ghost old_v = vecs_view(v@);
    let mut p: usize = 0;
    while p < v.len() && compare_text(&v[p], &x) < 0
        invariant
            p <= v.len(),
            vecs_view(v@) == old_v,
            forall|k: int| 0 <= k < p ==> text_lt(#[trigger] old_v[k], x@),
        decreases v.len() - p,
    {
        proof {
            assert(old_v[p as int] == v@[p as int]@);
        }
        p += 1;
    }
    if p < v.len() {
        let c2 = compare_text(&v[p], &x);
        proof {
            assert(old_v[p as int] == v@[p as int]@);
            assert(!text_lt(old_v[p as int], x@));
            lemma_text_lt_total(old_v[p as int], x@);
        }
        if c2 == 0 {
            proof {
                assert(old_v[p as int] == x@);
                assert forall|y: Seq<char>| #[trigger] old_v.contains(y) <==> (old_v.contains(y) || y == x@) by {
                    if y == x@ {
                        assert(old_v[p as int] == y);
                    }
                }
            }
            return ;
        }
        proof {
            assert(text_lt(x@, old_v[p as int]));
        }
    }
    v.insert(p, x);
    proof {
        let nv = vecs_view(v@);
        assert(nv =~= old_v.insert(p as int, x@));
        assert forall|i: int, j: int| 0 <= i < j < nv.len() implies text_lt(#[trigger] nv[i], #[trigger] nv[j]) by {
            if j < p {
                assert(nv[i] == old_v[i] && nv[j] == old_v[j]);
            } else if j == p {
                assert(nv[i] == old_v[i]);
            } else if i < p {
                assert(nv[i] == old_v[i] && nv[j] == old_v[j - 1]);
                assert(text_lt(old_v[i], x@));
                if j - 1 > p {
                    assert(text_lt(old_v[p as int], old_v[j - 1]));
                    lemma_text_lt_transitive(x@, old_v[p as int], old_v[j - 1]);
                }
                lemma_text_lt_transitive(old_v[i], x@, old_v[j - 1]);
            } else if i == p {
                assert(nv[j] == old_v[j - 1]);
                if j - 1 > p {
                    assert(text_lt(old_v[p as int], old_v[j - 1]));
                    lemma_text_lt_transitive(x@, old_v[p as int], old_v[j - 1]);
                }
            } else {
                assert(nv[i] == old_v[i - 1] && nv[j] == old_v[j - 1]);
            }
        }
        assert forall|y: Seq<char>| #[trigger] nv.contains(y) <==> (old_v.contains(y) || y == x@) by {
            if nv.contains(y) {
                let k = choose|k: int| 0 <= k < nv.len() && nv[k] == y;
                if k < p {
                    assert(old_v[k] == y);
                } else if k > p {
                    assert(old_v[k - 1] == y);
                }
            }
            if old_v.contains(y) {
                let k = choose|k: int| 0 <= k < old_v.len() && old_v[k] == y;
                if k < p {
                    assert(nv[k] == y);
                } else {
                    assert(nv[k + 1] == y);
                }
            }
            if y == x@ {
                assert(nv[p as int] == y);
            }
        }
    }
}

impl Metadata {
    /// Every group name in use, sorted, each once.
    pub fn groups(&self) -> (g: Vec<String>)
        ensures
            strictly_sorted(strings_view(g@)),
            forall|name: Seq<char>|
                #[trigger] strings_view(g@).contains(name) <==> exists|k: Seq<char>|
                    self@.contains_key(k) && self@[k].group == Some(name),
    {
        proof {
            use_type_invariant(self);
            lemma_entries_map(entries_view(self.hosts@));
        }
        let ghost ev = entries_view(self.hosts@);
        let mut acc: Vec<Vec<char>> = Vec::new();
        let mut i: usize = 0;
        assert(vecs_view(acc@) =~= Seq::<Seq<char>>::empty());
        while i < self.hosts.len()
            invariant
                i <= self.hosts.len(),
                ev == entries_view(self.hosts@),
                strictly_sorted(vecs_view(acc@)),
                forall|name: Seq<char>|
                    #[trigger] vecs_view(acc@).contains(name) <==> exists|k: int|
                        0 <= k < i && ev[k].1.group == Some(name),
            decreases self.hosts.len() - i,
        {
            let ghost before = vecs_view(acc@);
            match &self.hosts[i].1.group {
                Some(g) => {
                    let gv = chars_of(g.as_str());
                    insert_sorted(&mut acc, gv);
                    proof {
                        assert(ev[i as int].1.group == Some(gv@));
                        assert forall|name: Seq<char>|
                            #[trigger] vecs_view(acc@).contains(name) <==> exists|k: int|
                                0 <= k < i + 1 && ev[k].1.group == Some(name) by {
                            if exists|k: int| 0 <= k < i + 1 && ev[k].1.group == Some(name) {
                                let k = choose|k: int| 0 <= k < i + 1 && ev[k].1.group == Some(name);
                                if k < i {
                                    assert(before.contains(name));
                                }
                            }
                        }
                    }
                },
                None => {
                    proof {
                        assert(ev[i as int].1.group is None);
                        assert forall|name: Seq<char>|
                            #[trigger] vecs_view(acc@).contains(name) <==> exists|k: int|
                                0 <= k < i + 1 && ev[k].1.group == Some(name) by {
                            if exists|k: int| 0 <= k < i + 1 && ev[k].1.group == Some(name) {
                                let k = choose|k: int| 0 <= k < i + 1 && ev[k].1.group == Some(name);
                                assert(k != i);
                            }
                        }
                    }
                },
            }
            i += 1;
        }
        let mut out: Vec<String> = Vec::new();
        let mut j: usize = 0;
        while j < acc.len()
            invariant
                j <= acc.len(),
                strings_view(out@) == vecs_view(acc@).take(j as int),
            decreases acc.len() - j,
        {
            let ghost before = strings_view(out@);
            out.push(string_of(acc[j].as_slice()));
            proof {
                assert(strings_view(out@) =~= before.push(acc@[j as int]@));
                assert(vecs_view(acc@).take(j + 1) =~= vecs_view(acc@).take(j as int).push(
                    acc@[j as int]@,
                ));
            }
            j += 1;
        }
        proof {
            assert(vecs_view(acc@).take(acc.len() as int) =~= vecs_view(acc@));
            assert forall|name: Seq<char>|
                #[trigger] strings_view(out@).contains(name) <==> exists|k: Seq<char>|
                    self@.contains_key(k) && self@[k].group == Some(name) by {
                if exists|k: int| 0 <= k < ev.len() && ev[k].1.group == Some(name) {
                    let k = choose|k: int| 0 <= k < ev.len() && ev[k].1.group == Some(name);
                    assert(self@[ev[k].0] == ev[k].1);
                    assert(self@.contains_key(ev[k].0));
                }
                if exists|k: Seq<char>| self@.contains_key(k) && self@[k].group == Some(name) {
                    let k = choose|k: Seq<char>| self@.contains_key(k) && self@[k].group == Some(name);
                    let idx = choose|idx: int| 0 <= idx < ev.len() && ev[idx].0 == k;
                    assert(self@[ev[idx].0] == ev[idx].1);
                }
            }
        }
        out
    }

    /// Drop any entry whose alias is not in `known_aliases` — hosts removed from the config
    /// outside the app don't leave orphaned metadata behind.
    pub fn prune(&mut self, known_aliases: &[String])
        ensures
            final(self)@ == old(self)@.restrict(alias_set(strings_view(known_aliases@))),
    {
        proof {
            use_type_invariant(&*self);
            lemma_entries_map(entries_view(self.hosts@));
        }
        let ghost known = Set::new(
            |k: Seq<char>| exists|j: int| 0 <= j < known_aliases@.len() && known_aliases@[j]@ == k,
        );
        let ghost old_map = self@;
        let ghost ev = entries_view(self.hosts@);
        let mut hosts = Vec::new();
        std::mem::swap(&mut hosts, &mut self.hosts);
        let mut kept: Vec<(String, HostMeta)> = Vec::new();
        let ghost mut src: Seq<int> = Seq::empty();
        let mut i: usize = 0;
        while i < hosts.len()
            invariant
                i <= hosts.len(),
                ev == entries_view(hosts@),
                unique_keys(ev),
                known == Set::new(
                    |k: Seq<char>|
                        exists|j: int| 0 <= j < known_aliases@.len() && known_aliases@[j]@ == k,
                ),
                unique_keys(entries_view(kept@)),
                src.len() == entries_view(kept@).len(),
                forall|a: int|
                    0 <= a < src.len() ==> 0 <= #[trigger] src[a] < i && entries_view(kept@)[a]
                        == ev[src[a]] && known.contains(ev[src[a]].0),
                forall|b: int|
                    0 <= b < i && known.contains(ev[b].0) ==> #[trigger] entries_view(
                        kept@,
                    ).contains(ev[b]),
            decreases hosts.len() - i,
        {
            let mut is_known = false;
            let mut j: usize = 0;
            while j < known_aliases.len()
                invariant
                    j <= known_aliases.len(),
                    is_known == exists|m: int| 0 <= m < j && known_aliases@[m]@ == hosts@[i as int].0@,
                    i < hosts.len(),
                decreases known_aliases.len() - j,
            {
                if same_text(known_aliases[j].as_str(), hosts[i].0.as_str()) {
                    is_known = true;
                }
                j += 1;
            }
            proof {
                assert(ev[i as int].0 == hosts@[i as int].0@);
                assert(is_known == known.contains(ev[i as int].0));
            }
            if is_known {
                let e = (hosts[i].0.clone(), clone_meta(&hosts[i].1));
                let ghost before = entries_view(kept@);
                kept.push(e);
                proof {
                    let kv = entries_view(kept@);
                    assert(kv =~= before.push(ev[i as int]));
                    assert(unique_keys(kv)) by {
                        assert forall|a: int, b: int| 0 <= a < kv.len() && 0 <= b < kv.len() && a != b implies kv[a].0
                            != kv[b].0 by {
                            if a < before.len() && b < before.len() {
                                assert(kv[a] == before[a] && kv[b] == before[b]);
                            } else if a < before.len() {
                                assert(kv[a] == before[a]);
                                assert(0 <= src[a] < i);
                                assert(before[a] == ev[src[a]]);
                            } else {
                                assert(kv[b] == before[b]);
                                assert(0 <= src[b] < i);
                                assert(before[b] == ev[src[b]]);
                            }
                        }
                    }
                    src = src.push(i as int);
                    assert forall|a: int|
                        0 <= a < src.len() implies 0 <= #[trigger] src[a] < i + 1 && kv[a] == ev[src[a]]
                            && known.contains(ev[src[a]].0) by {
                        if a < before.len() {
                            assert(kv[a] == before[a]);
                        } else {
                            assert(kv[a] == ev[i as int]);
                        }
                    }
                    assert forall|b: int|
                        0 <= b < i + 1 && known.contains(ev[b].0) implies #[trigger] kv.contains(ev[b]) by {
                        if b < i {
                            assert(before.contains(ev[b]));
                            let a = choose|a: int| 0 <= a < before.len() && before[a] == ev[b];
                            assert(kv[a] == ev[b]);
                        } else {
                            assert(kv[before.len() as int] == ev[b]);
                        }
                    }
                }
            } else {
                proof {
                    assert forall|a: int|
                        0 <= a < src.len() implies 0 <= #[trigger] src[a] < i + 1 by {}
                }
            }
            i += 1;
        }
        let ghost kv = entries_view(kept@);
        proof {
            lemma_entries_map(kv);
            assert(entries_map(kv) =~= old_map.restrict(known)) by {
                assert forall|k: Seq<char>| #[trigger] entries_map(kv).contains_key(k) <==> old_map.restrict(
                    known,
                ).contains_key(k) by {
                    if entries_map(kv).contains_key(k) {
                        let a = choose|a: int| 0 <= a < kv.len() && kv[a].0 == k;
                        assert(kv[a] == ev[src[a]] && known.contains(ev[src[a]].0));
                        assert(old_map.contains_key(ev[src[a]].0));
                    }
                    if old_map.restrict(known).contains_key(k) {
                        let b = choose|b: int| 0 <= b < ev.len() && ev[b].0 == k;
                        assert(kv.contains(ev[b]));
                    }
                }
                assert forall|k: Seq<char>| #[trigger] entries_map(kv).contains_key(k) implies entries_map(
                    kv,
                )[k] == old_map.restrict(known)[k] by {
                    let a = choose|a: int| 0 <= a < kv.len() && kv[a].0 == k;
                    let b = src[a];
                    assert(kv[a] == ev[b]);
                    assert(entries_map(kv)[kv[a].0] == kv[a].1);
                    assert(old_map[ev[b].0] == ev[b].1);
                }
            }
            let names = strings_view(known_aliases@);
            assert(alias_set(names) =~= known) by {
                assert forall|k: Seq<char>| #[trigger] known.contains(k) <==> names.contains(k) by {
                    if known.contains(k) {
                        let j = choose|j: int| 0 <= j < known_aliases@.len() && known_aliases@[j]@ == k;
                        assert(names[j] == k);
                    }
                    if names.contains(k) {
                        let j = choose|j: int| 0 <= j < names.len() && names[j] == k;
                        assert(known_aliases@[j]@ == k);
                    }
                }
            }
        }
        self.hosts = kept;
    }
}

// ----------------------------------------------------------------------------------------------
// Laws
// ----------------------------------------------------------------------------------------------

/// After `set`, the alias reads back the metadata just set, or, when that metadata was empty,
/// has no entry at all; every other alias keeps what it had.
pub proof fn law_set_then_get(m: Map<Seq<char>, MetaView>, alias: Seq<char>, meta: MetaView)
    ensures
        !meta_is_empty(meta) ==> set_view(m, alias, meta).contains_key(alias) && set_view(
            m,
            alias,
            meta,
        )[alias] == meta,
        meta_is_empty(meta) ==> !set_view(m, alias, meta).contains_key(alias),
        forall|other: Seq<char>|
            other != alias ==> (#[trigger] set_view(m, alias, meta).contains_key(other)
                <==> m.contains_key(other)) && (m.contains_key(other) ==> set_view(m, alias, meta)[other]
                == m[other]),
{
}

/// Setting the same alias twice keeps only the second value.
pub proof fn law_set_twice(m: Map<Seq<char>, MetaView>, alias: Seq<char>, first: MetaView, second: MetaView)
    ensures
        set_view(set_view(m, alias, first), alias, second) == set_view(m, alias, second),
{
    assert(set_view(set_view(m, alias, first), alias, second) =~= set_view(m, alias, second));
}

/// After pruning, exactly the aliases that had metadata and are still known remain, with their
/// metadata unchanged; pruning again with the same list changes nothing.
pub proof fn law_prune_keeps_known(m: Map<Seq<char>, MetaView>, known: Seq<Seq<char>>)
    ensures
        forall|k: Seq<char>|
            #[trigger] m.restrict(alias_set(known)).contains_key(k) <==> (m.contains_key(k)
                && known.contains(k)),
        forall|k: Seq<char>|
            #[trigger] m.restrict(alias_set(known)).contains_key(k) ==> m.restrict(alias_set(known))[k]
                == m[k],
        m.restrict(alias_set(known)).restrict(alias_set(known)) == m.restrict(alias_set(known)),
{
    assert(m.restrict(alias_set(known)).restrict(alias_set(known)) =~= m.restrict(alias_set(known)));
}

} // verus!
