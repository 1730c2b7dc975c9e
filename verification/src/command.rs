//! Turning a host alias or an ad-hoc `user@host` target into the `ssh` argv to execute.
//!
//! This never talks to a process itself — the frontend owns spawning, this module only builds
//! the argument vector. All SSH behavior (keys, `ssh-agent`, `known_hosts`, `ProxyJump`,
//! `~/.ssh/config`) is left entirely to the `ssh` binary.

use vstd::prelude::*;

use crate::num::{decimal, decimal_chars, parse_u16, parse_u16_exec};
use crate::text::{
    after_last, after_last_char, before_char, chars_of, count_char, count_char_exec, find_char,
    is_control, is_ctrl, is_whitespace, is_ws, lemma_before_char, lemma_count_found, string_of, substring, trim,
    trim_bounds,
};

verus! {

/// What to connect to: a saved host alias (resolved through `~/.ssh/config` by `ssh` itself), or
/// an ad-hoc "quick connect" target that doesn't need a saved profile.
#[derive(Debug, Clone, PartialEq, Eq)]
pub enum ConnectTarget {
    Alias(String),
    Quick { user: Option<String>, host: String, port: Option<u16> },
}

/// The mathematical value of a [`ConnectTarget`].
pub enum TargetView {
    Alias(Seq<char>),
    Quick { user: Option<Seq<char>>, host: Seq<char>, port: Option<u16> },
}

impl View for ConnectTarget {
    type V = TargetView;

    open spec fn view(&self) -> TargetView {
        match self {
            ConnectTarget::Alias(a) => TargetView::Alias(a@),
            ConnectTarget::Quick { user, host, port } => TargetView::Quick {
                user: user.deep_view(),
                host: host@,
                port: *port,
            },
        }
    }
}

/// Non-empty, not an option (`-…`), and free of control and whitespace characters, so it can
/// never be mistaken by `ssh` for a flag or smuggle a second directive.
pub open spec fn safe_component(v: Seq<char>) -> bool {
    &&& v.len() > 0
    &&& v[0] != '-'
    &&& forall|i: int| 0 <= i < v.len() ==> !is_ctrl(#[trigger] v[i]) && !is_ws(v[i])
}

/// A port number as written after `:` — `0` is rejected.
pub open spec fn positive_port(s: Seq<char>) -> Option<u16> {
    match parse_u16(s) {
        Some(p) => if p > 0 {
            Some(p)
        } else {
            None
        },
        None => None,
    }
}

/// `host`, `host:port`, `[host]` or `[host]:port`; a host with several `:` (a bare IPv6
/// address) never carries a port.
pub open spec fn split_host_port(rest: Seq<char>) -> Option<(Seq<char>, Option<u16>)> {
    if rest.len() > 0 && rest[0] == '[' {
        let b = rest.drop_first();
        let close = before_char(b, ']');
        if close >= b.len() {
            None
        } else {
            let host = b.take(close as int);
            let suffix = b.skip(close + 1 as int);
            if suffix.len() == 0 {
                Some((host, None))
            } else if suffix[0] == ':' {
                match positive_port(suffix.drop_first()) {
                    Some(p) => Some((host, Some(p))),
                    None => None,
                }
            } else {
                None
            }
        }
    } else if count_char(rest, ':') == 1 {
        let k = before_char(rest, ':');
        match positive_port(rest.skip(k + 1 as int)) {
            Some(p) => Some((rest.take(k as int), Some(p))),
            None => None,
        }
    } else {
        Some((rest, None))
    }
}

/// The result of parsing a quick-connect entry `[user@]host[:port]`: the input is trimmed, the
/// user is everything before the last `@`, and both user and host must be safe components.
pub open spec fn quick_target(input: Seq<char>) -> Option<TargetView> {
    let s = trim(input);
    let a = after_last(s, '@');
    if s.len() == 0 {
        None
    } else {
        let user: Option<Seq<char>> = if a < s.len() {
            Some(s.take(s.len() - a - 1))
        } else {
            None
        };
        let rest = s.skip(s.len() - a);
        if user matches Some(u) && !safe_component(u) {
            None
        } else if rest.len() == 0 {
            None
        } else {
            match split_host_port(rest) {
                Some((host, port)) => if safe_component(host) {
                    Some(TargetView::Quick { user, host, port })
                } else {
                    None
                },
                None => None,
            }
        }
    }
}

/// `user@host`, or just `host`.
pub open spec fn destination(user: Option<Seq<char>>, host: Seq<char>) -> Seq<char> {
    match user {
        Some(u) => u + seq!['@'] + host,
        None => host,
    }
}

/// The `ssh` argv for a target.
pub open spec fn ssh_argv(t: TargetView) -> Seq<Seq<char>> {
    match t {
        TargetView::Alias(a) => seq!["ssh"@, "--"@, a],
        TargetView::Quick { user, host, port } => seq!["ssh"@] + match port {
            Some(p) => seq!["-p"@, decimal(p as nat)],
            None => Seq::empty(),
        } + seq!["--"@, destination(user, host)],
    }
}

pub open spec fn strings_view(v: Seq<String>) -> Seq<Seq<char>> {
    v.map_values(|s: String| s@)
}

fn safe_range(v: &Vec<char>, from: usize, to: usize) -> (r: bool)
    requires
        from <= to <= v.len(),
    ensures
        r == safe_component(v@.subrange(from as int, to as int)),
{
    let ghost s = v@.subrange(from as int, to as int);
    if from == to || v[from] == '-' {
        return false;
    }
    let mut i = from;
    while i < to
        invariant
            from <= i <= to <= v.len(),
            s == v@.subrange(from as int, to as int),
            forall|j: int| 0 <= j < i - from ==> !is_ctrl(#[trigger] s[j]) && !is_ws(s[j]),
        decreases to - i,
    {
        if is_control(v[i]) || is_whitespace(v[i]) {
            proof {
                assert(s[i - from] == v@[i as int]);
            }
            return false;
        }
        i += 1;
    }
    true
}

fn positive_port_exec(v: &Vec<char>, from: usize, to: usize) -> (r: Option<u16>)
    requires
        from <= to <= v.len(),
    ensures
        r == positive_port(v@.subrange(from as int, to as int)),
{
    match parse_u16_exec(v, from, to) {
        Some(p) => if p > 0 {
            Some(p)
        } else {
            None
        },
        None => None,
    }
}

/// Build the `ssh` argv for a target. Never includes a password or any other secret — those are
/// handled interactively by `ssh` itself inside the terminal.
pub fn build_ssh_command(target: &ConnectTarget) -> (argv: Vec<String>)
    ensures
        strings_view(argv@) == ssh_argv(target@),
{
    match target {
        ConnectTarget::Alias(alias) => {
            let mut argv: Vec<String> = Vec::new();
            argv.push(String::from_str("ssh"));
            argv.push(String::from_str("--"));
            argv.push(alias.clone());
            proof {
                assert(strings_view(argv@) =~= ssh_argv(target@));
            }
            argv
        },
        ConnectTarget::Quick { user, host, port } => {
            let mut argv: Vec<String> = Vec::new();
            argv.push(String::from_str("ssh"));
            if let Some(p) = port {
                argv.push(String::from_str("-p"));
                let digits = decimal_chars(*p);
                argv.push(string_of(digits.as_slice()));
            }
            let ghost prefix = strings_view(argv@);
            proof {
                assert(prefix =~= seq!["ssh"@] + match *port {
                    Some(p) => seq!["-p"@, decimal(p as nat)],
                    None => Seq::empty(),
                });
            }
            let dest = match user {
                Some(u) => {
                    let mut d = u.clone();
                    d.append("@");
                    d.append(host.as_str());
                    proof {
                        reveal_strlit("@");
                        assert(d@ =~= u@ + seq!['@'] + host@);
                    }
                    d
                },
                None => host.clone(),
            };
            assert(dest@ == destination(user.deep_view(), host@));
            argv.push(String::from_str("--"));
            argv.push(dest);
            proof {
                assert(strings_view(argv@) =~= prefix + seq!["--"@, dest@]);
            }
            argv
        },
    }
}

/// `split_host_port(v[from..to])`, as bounds of the host within `v`.
fn host_port_bounds(v: &Vec<char>, from: usize, to: usize) -> (r: Option<(usize, usize, Option<u16>)>)
    requires
        from < to <= v.len(),
    ensures
        match r {
            Some((hf, ht, port)) => from <= hf <= ht <= to && split_host_port(
                v@.subrange(from as int, to as int),
            ) == Some((v@.subrange(hf as int, ht as int), port)),
            None => split_host_port(v@.subrange(from as int, to as int)) is None,
        },
{
    let ghost rest = v@.subrange(from as int, to as int);
    if v[from] == '[' {
        let close = find_char(v, from + 1, to, ']');
        let ghost bb = rest.drop_first();
        proof {
            assert(bb =~= v@.subrange(from + 1, to as int));
        }
        if close == to {
            return None;
        }
        proof {
            assert(bb.take(close - from - 1) =~= v@.subrange(from + 1, close as int));
            assert(bb.skip(close - from - 1 + 1) =~= v@.subrange(close + 1, to as int));
        }
        if close + 1 == to {
            return Some((from + 1, close, None));
        }
        if v[close + 1] != ':' {
            return None;
        }
        proof {
            assert(v@.subrange(close + 1, to as int).drop_first() =~= v@.subrange(
                close + 2,
                to as int,
            ));
        }
        match positive_port_exec(v, close + 2, to) {
            Some(p) => Some((from + 1, close, Some(p))),
            None => None,
        }
    } else if count_char_exec(v, from, to, ':') == 1 {
        let k = find_char(v, from, to, ':');
        proof {
            lemma_before_char(rest, ':');
            lemma_count_found(rest, ':');
            assert(rest.take(k - from) =~= v@.subrange(from as int, k as int));
            assert(rest.skip(k - from + 1) =~= v@.subrange(k + 1, to as int));
        }
        match positive_port_exec(v, k + 1, to) {
            Some(p) => Some((from, k, Some(p))),
            None => None,
        }
    } else {
        Some((from, to, None))
    }
}

/// Parse a quick-connect entry of the form `[user@]host[:port]`.
pub fn parse_quick_target(input: &str) -> (res: Option<ConnectTarget>)
    ensures
        match res {
            Some(t) => quick_target(input@) == Some(t@),
            None => quick_target(input@) is None,
        },
{
    let v = chars_of(input);
    let (a, b) = trim_bounds(&v, 0);
    let ghost s = trim(input@);
    proof {
        assert(v@.skip(0) =~= v@);
    }
    if a == b {
        return None;
    }
    let at_end = after_last_char(&v, a, b, '@');
    let ghost al = after_last(s, '@');
    proof {
        assert(s == v@.subrange(a as int, b as int));
        lemma_after_last_prop(s, '@');
    }
    let mut user: Option<String> = None;
    if at_end > a {
        let k = at_end - 1;
        proof {
            assert(s.take(s.len() - al - 1) =~= v@.subrange(a as int, k as int));
        }
        if !safe_range(&v, a, k) {
            return None;
        }
        user = Some(substring(&v, a, k));
    }
    proof {
        assert(s.skip(s.len() - al) =~= v@.subrange(at_end as int, b as int));
    }
    if at_end == b {
        return None;
    }
    match host_port_bounds(&v, at_end, b) {
        Some((hf, ht, port)) => {
            if !safe_range(&v, hf, ht) {
                return None;
            }
            let host = substring(&v, hf, ht);
            Some(ConnectTarget::Quick { user, host, port })
        },
        None => None,
    }
}

proof fn lemma_after_last_prop(s: Seq<char>, c: char)
    ensures
        after_last(s, c) <= s.len(),
        after_last(s, c) < s.len() ==> s[s.len() - after_last(s, c) - 1] == c,
    decreases s.len(),
{
    if s.len() > 0 && s.last() != c {
        lemma_after_last_prop(s.drop_last(), c);
        if after_last(s, c) < s.len() {
            assert(s[s.len() - after_last(s, c) - 1] == s.drop_last()[s.drop_last().len()
                - after_last(s.drop_last(), c) - 1]);
        }
    }
}

// ----------------------------------------------------------------------------------------------
// Laws
// ----------------------------------------------------------------------------------------------

/// Every accepted quick-connect entry has a safe host, a safe user when there is one, and a
/// non-zero port when there is one; so its `ssh` destination is never mistaken for an option
/// and carries no control or whitespace character.
pub proof fn law_quick_target_is_safe(input: Seq<char>)
    ensures
        quick_target(input) matches Some(TargetView::Quick { user, host, port }) ==> {
            &&& safe_component(host)
            &&& (user matches Some(u) ==> safe_component(u))
            &&& (port matches Some(p) ==> p > 0)
            &&& safe_component(destination(user, host))
        },
        !(quick_target(input) matches Some(TargetView::Alias(_))),
{
    if let Some(TargetView::Quick { user, host, port }) = quick_target(input) {
        let d = destination(user, host);
        if let Some(u) = user {
            assert forall|i: int| 0 <= i < d.len() implies !is_ctrl(#[trigger] d[i]) && !is_ws(d[i]) by {
                if i < u.len() {
                    assert(d[i] == u[i]);
                } else if i == u.len() {
                    assert(d[i] == '@');
                } else {
                    assert(d[i] == host[i - u.len() - 1]);
                }
            }
            assert(d[0] == u[0]);
        }
    }
}

/// A bracketed host (an IPv6 address, say) is accepted with or without a port: for a safe host
/// without `]` or `@`, `[host]` gives that host and no port, and `[host]:port` gives that host
/// and the port, for any non-zero port.
pub proof fn law_bracketed_host(h: Seq<char>, p: u16)
    requires
        safe_component(h),
        forall|i: int| 0 <= i < h.len() ==> #[trigger] h[i] != ']' && h[i] != '@',
    ensures
        quick_target(seq!['['] + h + seq![']']) == Some(
            TargetView::Quick { user: None, host: h, port: None },
        ),
        p > 0 ==> quick_target(seq!['['] + h + seq![']', ':'] + decimal(p as nat)) == Some(
            TargetView::Quick { user: None, host: h, port: Some(p) },
        ),
{
    let s0 = seq!['['] + h + seq![']'];
    lemma_bracketed(h, Seq::empty());
    assert(s0 + Seq::<char>::empty() =~= s0);
    assert(s0.skip(0) =~= s0);
    assert(s0.drop_first().skip(h.len() + 1int) =~= Seq::<char>::empty());
    assert(split_host_port(s0) == Some((h, None::<u16>)));
    if p > 0 {
        crate::num::lemma_decimal_digits(p as nat);
        crate::num::lemma_parse_decimal(p);
        let suffix = seq![':'] + decimal(p as nat);
        assert forall|i: int| 0 <= i < suffix.len() implies #[trigger] suffix[i] != '@' && !is_ws(suffix[i]) by {
            if i > 0 {
                assert(suffix[i] == decimal(p as nat)[i - 1]);
            }
        }
        lemma_bracketed(h, suffix);
        let s1 = seq!['['] + h + seq![']'] + suffix;
        assert(s1 =~= seq!['['] + h + seq![']', ':'] + decimal(p as nat));
        assert(s1.skip(0) =~= s1);
        assert(suffix.drop_first() =~= decimal(p as nat));
        assert(positive_port(decimal(p as nat)) == Some(p));
        assert(split_host_port(s1) == Some((h, Some(p))));
    }
}

/// A plain entry is read back as written: for a safe user and a safe host, neither holding `@`,
/// the host holding no `:` and not starting with `[`, the entry `[user@]host[:port]` gives that
/// user, that host and that port, for any non-zero port.
pub proof fn law_plain_target(user: Option<Seq<char>>, h: Seq<char>, port: Option<u16>)
    requires
        safe_component(h),
        h[0] != '[',
        forall|i: int| 0 <= i < h.len() ==> #[trigger] h[i] != '@' && h[i] != ':',
        user matches Some(u) ==> safe_component(u) && forall|i: int| 0 <= i < u.len() ==> #[trigger] u[i] != '@',
        port matches Some(p) ==> p > 0,
    ensures
        ({
            let pre = match user {
                Some(u) => u.push('@'),
                None => Seq::empty(),
            };
            let post = match port {
                Some(p) => seq![':'] + decimal(p as nat),
                None => Seq::empty(),
            };
            quick_target(pre + h + post) == Some(TargetView::Quick { user, host: h, port })
        }),
{
    let post = match port {
        Some(p) => seq![':'] + decimal(p as nat),
        None => Seq::<char>::empty(),
    };
    lemma_split_plain(h, port);
    let rest = h + post;
    assert forall|i: int| 0 <= i < rest.len() implies #[trigger] rest[i] != '@' by {
        if i >= h.len() {
            assert(rest[i] == post[i - h.len()]);
            if i > h.len() {
                crate::num::lemma_decimal_digits(port->0 as nat);
                assert(post[i - h.len()] == decimal(port->0 as nat)[i - h.len() - 1]);
            }
        } else {
            assert(rest[i] == h[i]);
        }
    }
    assert(rest[0] == h[0]);
    if post.len() > 0 {
        crate::num::lemma_decimal_digits(port->0 as nat);
        assert(rest.last() == post.last());
        assert(post.last() == decimal(port->0 as nat)[post.len() - 2]);
    } else {
        assert(rest.last() == h[h.len() - 1]);
    }
    lemma_entry(user, rest);
    let pre = match user {
        Some(u) => u.push('@'),
        None => Seq::<char>::empty(),
    };
    let e = pre + rest;
    assert(pre + h + post =~= e);
    let a = after_last(e, '@');
    assert(trim(e) == e);
    assert(a == rest.len());
    assert(e.skip(e.len() - a) == rest);
    assert(split_host_port(rest) == Some((h, port)));
    if let Some(u) = user {
        assert(a < e.len());
        assert(e.take(e.len() - a - 1) == u);
    } else {
        assert(e.len() == rest.len());
    }
}

/// `host` or `host:port`, with a host that holds no `:` and does not start with `[`, splits into
/// that host and that port.
proof fn lemma_split_plain(h: Seq<char>, port: Option<u16>)
    requires
        h.len() > 0,
        h[0] != '[',
        forall|i: int| 0 <= i < h.len() ==> #[trigger] h[i] != ':',
        port matches Some(p) ==> p > 0,
    ensures
        split_host_port(
            h + match port {
                Some(p) => seq![':'] + decimal(p as nat),
                None => Seq::empty(),
            },
        ) == Some((h, port)),
{
    crate::text::lemma_count_zero(h, ':');
    match port {
        Some(p) => {
            crate::num::lemma_decimal_digits(p as nat);
            crate::num::lemma_parse_decimal(p);
            let d = decimal(p as nat);
            let rest = h + (seq![':'] + d);
            assert(rest =~= h.push(':') + d);
            assert(h.push(':').drop_last() =~= h);
            assert(count_char(h.push(':'), ':') == 1);
            assert forall|i: int| 0 <= i < d.len() implies #[trigger] d[i] != ':' by {}
            lemma_count_append_none(h.push(':'), d, ':');
            assert forall|i: int| 0 <= i < h.len() implies #[trigger] rest[i] != ':' by {
                assert(rest[i] == h[i]);
            }
            assert(rest[h.len() as int] == ':');
            crate::text::lemma_before_char_is(rest, ':', h.len() as int);
            assert(rest.skip(h.len() + 1int) =~= d);
            assert(rest.take(h.len() as int) =~= h);
            assert(rest[0] == h[0]);
            assert(positive_port(d) == Some(p));
        },
        None => {
            assert(h + Seq::<char>::empty() =~= h);
        },
    }
}

/// An entry `[user@]rest` with no whitespace at its ends and no `@` in `rest` is already trimmed,
/// and splits at its `@` into that user and `rest`.
proof fn lemma_entry(user: Option<Seq<char>>, rest: Seq<char>)
    requires
        rest.len() > 0,
        !is_ws(rest[0]),
        !is_ws(rest.last()),
        forall|i: int| 0 <= i < rest.len() ==> #[trigger] rest[i] != '@',
        user matches Some(u) ==> u.len() > 0 && !is_ws(u[0]),
    ensures
        ({
            let s = match user {
                Some(u) => u.push('@'),
                None => Seq::empty(),
            } + rest;
            &&& trim(s) == s
            &&& after_last(s, '@') == rest.len()
            &&& s.skip(s.len() - rest.len()) == rest
            &&& user matches Some(u) ==> s.take(s.len() - rest.len() - 1) == u
        }),
{
    let pre = match user {
        Some(u) => u.push('@'),
        None => Seq::<char>::empty(),
    };
    let s = pre + rest;
    if let Some(u) = user {
        assert(s[0] == u[0]);
    } else {
        assert(s[0] == rest[0]);
    }
    crate::text::lemma_lead_ws_is(s, 0);
    assert(s.skip(0) =~= s);
    assert(s[s.len() - 0 - 1] == rest.last());
    crate::text::lemma_trail_ws_is(s, 0);
    assert(s.take(s.len() as int) =~= s);
    assert forall|i: int| s.len() - rest.len() <= i < s.len() implies #[trigger] s[i] != '@' by {
        assert(s[i] == rest[i - pre.len()]);
    }
    if let Some(u) = user {
        assert(s[s.len() - rest.len() - 1] == '@');
        assert(s.take(s.len() - rest.len() - 1) =~= u);
    }
    crate::text::lemma_after_last_is(s, '@', rest.len() as int);
    assert(s.skip(s.len() - rest.len()) =~= rest);
}

/// Appending characters other than `c` adds no `c`.
proof fn lemma_count_append_none(x: Seq<char>, d: Seq<char>, c: char)
    requires
        forall|i: int| 0 <= i < d.len() ==> #[trigger] d[i] != c,
    ensures
        count_char(x + d, c) == count_char(x, c),
    decreases d.len(),
{
    if d.len() > 0 {
        assert forall|i: int| 0 <= i < d.drop_last().len() implies #[trigger] d.drop_last()[i] != c by {
            assert(d.drop_last()[i] == d[i]);
        }
        lemma_count_append_none(x, d.drop_last(), c);
        assert((x + d).drop_last() =~= x + d.drop_last());
        assert((x + d).last() == d.last());
    } else {
        assert(x + d =~= x);
    }
}

/// `[host]` followed by a suffix of neither whitespace at its end nor `@`: it is taken whole as
/// the host part, with no user, and the bracket splits off exactly `host`.
proof fn lemma_bracketed(h: Seq<char>, suffix: Seq<char>)
    requires
        safe_component(h),
        forall|i: int| 0 <= i < h.len() ==> #[trigger] h[i] != ']' && h[i] != '@',
        forall|i: int| 0 <= i < suffix.len() ==> #[trigger] suffix[i] != '@' && !is_ws(suffix[i]),
    ensures
        ({
            let s = seq!['['] + h + seq![']'] + suffix;
            &&& trim(s) == s
            &&& after_last(s, '@') == s.len()
            &&& before_char(s.drop_first(), ']') == h.len()
            &&& s.drop_first().take(h.len() as int) == h
            &&& s.drop_first().skip(h.len() + 1int) == suffix
        }),
{
    let s = seq!['['] + h + seq![']'] + suffix;
    assert(s[0] == '[');
    crate::text::lemma_lead_ws_is(s, 0);
    assert(s.skip(0) =~= s);
    if suffix.len() > 0 {
        assert(s.last() == suffix.last());
        assert(s[s.len() - 0 - 1] == suffix[suffix.len() - 1]);
    } else {
        assert(s[s.len() - 0 - 1] == ']');
    }
    crate::text::lemma_trail_ws_is(s, 0);
    assert(s.take(s.len() as int) =~= s);
    assert forall|i: int| s.len() - s.len() <= i < s.len() implies #[trigger] s[i] != '@' by {
        if 1 <= i < 1 + h.len() {
            assert(s[i] == h[i - 1]);
        } else if i >= h.len() + 2 {
            assert(s[i] == suffix[i - h.len() - 2]);
        }
    }
    crate::text::lemma_after_last_is(s, '@', s.len() as int);
    let b = s.drop_first();
    assert forall|i: int| 0 <= i < h.len() implies #[trigger] b[i] != ']' by {
        assert(b[i] == h[i]);
    }
    assert(b[h.len() as int] == ']');
    crate::text::lemma_before_char_is(b, ']', h.len() as int);
    assert(b.take(h.len() as int) =~= h);
    assert(b.skip(h.len() + 1int) =~= suffix);
}

/// The target always comes last, right after `--`, so `ssh` never reads it as an option.
pub proof fn law_target_follows_separator(t: TargetView)
    ensures
        ssh_argv(t).len() >= 3,
        ssh_argv(t)[0] == "ssh"@,
        ssh_argv(t)[ssh_argv(t).len() - 2] == "--"@,
        ssh_argv(t).last() == match t {
            TargetView::Alias(a) => a,
            TargetView::Quick { user, host, .. } => destination(user, host),
        },
{
}

} // verus!
