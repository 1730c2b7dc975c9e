//! Placeholder filling for translated messages, and session-locale selection. Looking messages
//! up in the catalogs, binding the text domain and setting the process locale is the
//! frontend's job; this module holds what decides and computes.

use vstd::prelude::*;

use crate::text::{
    append_chars, ascii_lower, ascii_lower_code, before_char, chars_of, find_char, lemma_before_char,
    occurs_at, string_of,
};

verus! {

// ----------------------------------------------------------------------------------------------
// Placeholders
// ----------------------------------------------------------------------------------------------

/// `str::replace(pat, rep)` for a non-empty pattern: every occurrence, scanning from the left
/// and never overlapping, is replaced.
pub open spec fn replace_all(s: Seq<char>, pat: Seq<char>, rep: Seq<char>) -> Seq<char>
    decreases s.len(),
{
    if s.len() == 0 || pat.len() == 0 {
        s
    } else if pat.len() <= s.len() && s.take(pat.len() as int) == pat {
        rep + replace_all(s.skip(pat.len() as int), pat, rep)
    } else {
        seq![s[0]] + replace_all(s.skip(1), pat, rep)
    }
}

/// The placeholder `{name}`.
pub open spec fn placeholder(name: Seq<char>) -> Seq<char> {
    seq!['{'] + name + seq!['}']
}

/// Replaces each `{name}` by its value, one pair after the other, in the order given.
pub open spec fn fill(template: Seq<char>, values: Seq<(Seq<char>, Seq<char>)>) -> Seq<char>
    decreases values.len(),
{
    if values.len() == 0 {
        template
    } else {
        fill(replace_all(template, placeholder(values[0].0), values[0].1), values.drop_first())
    }
}

pub open spec fn pairs_view(values: Seq<(&str, &str)>) -> Seq<(Seq<char>, Seq<char>)> {
    values.map_values(|p: (&str, &str)| (p.0@, p.1@))
}

fn replace_chars(s: &Vec<char>, pat: &Vec<char>, rep: &Vec<char>) -> (r: Vec<char>)
    requires
        pat.len() > 0,
    ensures
        r@ == replace_all(s@, pat@, rep@),
{
    let mut out: Vec<char> = Vec::new();
    let mut i: usize = 0;
    proof {
        assert(s@.skip(0) =~= s@);
        assert(out@ + replace_all(s@, pat@, rep@) =~= replace_all(s@, pat@, rep@));
    }
    while i < s.len()
        invariant
            i <= s.len(),
            pat.len() > 0,
            out@ + replace_all(s@.skip(i as int), pat@, rep@) == replace_all(s@, pat@, rep@),
        decreases s.len() - i,
    {
        let ghost rest = s@.skip(i as int);
        if occurs_at(s, i, pat) {
            proof {
                assert(rest.take(pat.len() as int) =~= s@.subrange(i as int, i + pat.len()));
                assert(rest.skip(pat.len() as int) =~= s@.skip(i + pat.len()));
                assert(replace_all(rest, pat@, rep@) == rep@ + replace_all(
                    s@.skip(i + pat.len()),
                    pat@,
                    rep@,
                ));
            }
            let ghost before = out@;
            append_chars(&mut out, rep);
            proof {
                assert(out@ + replace_all(s@.skip(i + pat.len()), pat@, rep@) =~= before + (rep@
                    + replace_all(s@.skip(i + pat.len()), pat@, rep@)));
            }
            i += pat.len();
        } else {
            proof {
                if pat.len() <= rest.len() {
                    assert(rest.take(pat.len() as int) =~= s@.subrange(i as int, i + pat.len()));
                }
                assert(rest.skip(1) =~= s@.skip(i + 1));
                assert(rest[0] == s@[i as int]);
            }
            let ghost before = out@;
            out.push(s[i]);
            proof {
                assert(out@ + replace_all(s@.skip(i + 1), pat@, rep@) =~= before + (seq![s@[i as int]]
                    + replace_all(s@.skip(i + 1), pat@, rep@)));
            }
            i += 1;
        }
    }
    proof {
        assert(s@.skip(i as int) =~= Seq::<char>::empty());
        assert(out@ + Seq::<char>::empty() =~= out@);
    }
    out
}

/// Replaces each `{name}` placeholder of `template` by its value, pair by pair.
pub fn fill_placeholders(template: &str, values: &[(&str, &str)]) -> (r: String)
    ensures
        r@ == fill(template@, pairs_view(values@)),
{
    let ghost all = pairs_view(values@);
    let mut text = chars_of(template);
    let mut i: usize = 0;
    assert(all.skip(0) =~= all);
    while i < values.len()
        invariant
            i <= values.len(),
            all == pairs_view(values@),
            fill(text@, all.skip(i as int)) == fill(template@, all),
        decreases values.len() - i,
    {
        let (name, value) = values[i];
        let mut pat: Vec<char> = Vec::new();
        pat.push('{');
        let name_chars = chars_of(name);
        append_chars(&mut pat, &name_chars);
        pat.push('}');
        let rep = chars_of(value);
        let ghost old_text = text@;
        text = replace_chars(&text, &pat, &rep);
        proof {
            let rest = all.skip(i as int);
            assert(rest[0] == all[i as int]);
            assert(all[i as int] == (name@, value@));
            assert(pat@ =~= placeholder(name@));
            assert(rest.drop_first() =~= all.skip(i + 1));
        }
        i += 1;
    }
    proof {
        assert(all.skip(i as int) =~= Seq::<(Seq<char>, Seq<char>)>::empty());
    }
    string_of(text.as_slice())
}

// ----------------------------------------------------------------------------------------------
// Locale selection
// ----------------------------------------------------------------------------------------------

/// Length of the language-and-territory part of a POSIX locale name: everything before its
/// encoding (`.`) or modifier (`@`).
pub open spec fn base_len(raw: Seq<char>) -> nat {
    let dot = before_char(raw, '.');
    let at = before_char(raw, '@');
    if dot <= at {
        dot
    } else {
        at
    }
}

/// How the locale base compares: `-` reads as `_`, ASCII letters in lower case.
pub open spec fn fold_code(c: char) -> int {
    if c == '-' {
        '_' as int
    } else {
        ascii_lower(c)
    }
}

/// `base`, folded, equals `name` up to ASCII case.
pub open spec fn base_is(base: Seq<char>, name: Seq<char>) -> bool {
    &&& base.len() == name.len()
    &&& forall|i: int| 0 <= i < base.len() ==> #[trigger] fold_code(base[i]) == ascii_lower(name[i])
}

/// The supported BCP-47 locale for a POSIX locale name; anything unsupported falls back to
/// `en-US`.
pub open spec fn normalized_locale(raw: Seq<char>) -> Seq<char> {
    let base = raw.take(base_len(raw) as int);
    if base_is(base, "pt"@) || base_is(base, "pt_br"@) {
        "pt-BR"@
    } else if base_is(base, "es"@) || base_is(base, "es_es"@) {
        "es-ES"@
    } else if base_is(base, "zh"@) || base_is(base, "zh_cn"@) || base_is(base, "zh_hans"@) {
        "zh-CN"@
    } else {
        "en-US"@
    }
}

/// The four locales the application ships.
pub open spec fn is_supported_locale(l: Seq<char>) -> bool {
    l == "pt-BR"@ || l == "es-ES"@ || l == "zh-CN"@ || l == "en-US"@
}

fn fold_code_exec(c: char) -> (r: u32)
    ensures
        r == fold_code(c),
{
    if c == '-' {
        '_' as u32
    } else {
        ascii_lower_code(c)
    }
}

fn base_is_exec(v: &Vec<char>, len: usize, name: &str) -> (r: bool)
    requires
        len <= v.len(),
    ensures
        r == base_is(v@.take(len as int), name@),
{
    let n = chars_of(name);
    if n.len() != len {
        return false;
    }
    let mut i: usize = 0;
    while i < len
        invariant
            i <= len <= v.len(),
            n@ == name@,
            n.len() == len,
            forall|j: int| 0 <= j < i ==> #[trigger] fold_code(v@[j]) == ascii_lower(n@[j]),
        decreases len - i,
    {
        let code = fold_code_exec(v[i]);
        let c = n[i];
        let expected = ascii_lower_code(c);
        if code != expected {
            proof {
                assert(v@.take(len as int)[i as int] == v@[i as int]);
            }
            return false;
        }
        i += 1;
    }
    proof {
        assert forall|j: int| 0 <= j < len implies #[trigger] fold_code(v@.take(len as int)[j])
            == ascii_lower(name@[j]) by {
            assert(v@.take(len as int)[j] == v@[j]);
        }
    }
    true
}

/// The supported BCP-47 locale for a POSIX locale, ignoring encoding and modifier.
pub fn normalize_locale(raw: &str) -> (r: &'static str)
    ensures
        r@ == normalized_locale(raw@),
{
    let v = chars_of(raw);
    let dot = find_char(&v, 0, v.len(), '.');
    let at = find_char(&v, 0, v.len(), '@');
    let len = if dot <= at {
        dot
    } else {
        at
    };
    proof {
        assert(v@.subrange(0, v.len() as int) =~= raw@);
    }
    if base_is_exec(&v, len, "pt") || base_is_exec(&v, len, "pt_br") {
        "pt-BR"
    } else if base_is_exec(&v, len, "es") || base_is_exec(&v, len, "es_es") {
        "es-ES"
    } else if base_is_exec(&v, len, "zh") || base_is_exec(&v, len, "zh_cn") || base_is_exec(
        &v,
        len,
        "zh_hans",
    ) {
        "zh-CN"
    } else {
        "en-US"
    }
}

/// A locale variable that is set and not empty.
pub open spec fn is_set(v: Option<String>) -> bool {
    v matches Some(s) && s@.len() > 0
}

/// The session locale, by POSIX precedence: `LC_ALL`, then `LC_MESSAGES`, then `LANG`, the
/// first that is set and not empty; `en_US.UTF-8` when none is. `get` looks a variable up.
pub fn session_locale<F: Fn(&str) -> Option<String>>(get: F) -> (r: &'static str)
    requires
        forall|name: &str| #[trigger] get.requires((name,)),
    ensures
        exists|all: Option<String>|
            #[trigger] get.ensures(("LC_ALL",), all) && if is_set(all) {
                r@ == normalized_locale(all->0@)
            } else {
                exists|messages: Option<String>|
                    #[trigger] get.ensures(("LC_MESSAGES",), messages) && if is_set(messages) {
                        r@ == normalized_locale(messages->0@)
                    } else {
                        exists|lang: Option<String>|
                            #[trigger] get.ensures(("LANG",), lang) && if is_set(lang) {
                                r@ == normalized_locale(lang->0@)
                            } else {
                                r@ == normalized_locale("en_US.UTF-8"@)
                            }
                    }
            },
{
    let all = get("LC_ALL");
    if let Some(s) = &all {
        if !s.as_str().is_empty() {
            return normalize_locale(s.as_str());
        }
    }
    let messages = get("LC_MESSAGES");
    if let Some(s) = &messages {
        if !s.as_str().is_empty() {
            return normalize_locale(s.as_str());
        }
    }
    let lang = get("LANG");
    if let Some(s) = &lang {
        if !s.as_str().is_empty() {
            return normalize_locale(s.as_str());
        }
    }
    normalize_locale("en_US.UTF-8")
}

/// The POSIX locale to select for the messages category, given a supported BCP-47 locale.
pub open spec fn posix_locale_of(locale: Seq<char>) -> Seq<char> {
    if locale == "pt-BR"@ {
        "pt_BR.UTF-8"@
    } else if locale == "es-ES"@ {
        "es_ES.UTF-8"@
    } else if locale == "zh-CN"@ {
        "zh_CN.UTF-8"@
    } else {
        "en_US.UTF-8"@
    }
}

/// The POSIX locale for the messages category: the normalized locale can never select anything
/// outside the supported set.
pub fn posix_locale(locale: &str) -> (r: &'static str)
    ensures
        r@ == posix_locale_of(locale@),
{
    if crate::text::same_text(locale, "pt-BR") {
        "pt_BR.UTF-8"
    } else if crate::text::same_text(locale, "es-ES") {
        "es_ES.UTF-8"
    } else if crate::text::same_text(locale, "zh-CN") {
        "zh_CN.UTF-8"
    } else {
        "en_US.UTF-8"
    }
}

// ----------------------------------------------------------------------------------------------
// Laws
// ----------------------------------------------------------------------------------------------

/// Whatever the environment holds, the normalized locale is one of the supported four.
pub proof fn law_normalized_locale_is_supported(raw: Seq<char>)
    ensures
        is_supported_locale(normalized_locale(raw)),
{
}

/// The encoding and modifier never change the outcome: only the part before the first `.` or
/// `@` counts.
pub proof fn law_normalized_locale_ignores_suffix(raw: Seq<char>, suffix: Seq<char>)
    requires
        suffix.len() > 0,
        suffix[0] == '.' || suffix[0] == '@',
        !raw.contains('.'),
        !raw.contains('@'),
    ensures
        normalized_locale(raw + suffix) == normalized_locale(raw),
{
    lemma_before_char(raw, '.');
    lemma_before_char(raw, '@');
    let s = raw + suffix;
    lemma_before_char(s, '.');
    lemma_before_char(s, '@');
    assert forall|i: int| 0 <= i < raw.len() implies #[trigger] s[i] != '.' && s[i] != '@' by {
        assert(s[i] == raw[i]);
        if s[i] == '.' {
            assert(raw.contains('.'));
        }
        if s[i] == '@' {
            assert(raw.contains('@'));
        }
    }
    crate::text::lemma_before_char_is(raw, '.', raw.len() as int);
    crate::text::lemma_before_char_is(raw, '@', raw.len() as int);
    assert(s[raw.len() as int] == suffix[0]);
    if suffix[0] == '.' {
        crate::text::lemma_before_char_is(s, '.', raw.len() as int);
    } else {
        crate::text::lemma_before_char_is(s, '@', raw.len() as int);
    }
    assert(base_len(s) == raw.len());
    assert(s.take(raw.len() as int) =~= raw.take(raw.len() as int));
}

/// The part before the first `.` of a name holding a `.` and no `@`.
proof fn lemma_base_before_dot(s: Seq<char>, n: int)
    requires
        0 <= n < s.len(),
        s[n] == '.',
        forall|i: int| 0 <= i < n ==> #[trigger] s[i] != '.',
        forall|i: int| 0 <= i < s.len() ==> #[trigger] s[i] != '@',
    ensures
        base_len(s) == n,
{
    crate::text::lemma_before_char_is(s, '.', n);
    crate::text::lemma_before_char_is(s, '@', s.len() as int);
}

/// The POSIX locale selected for a supported locale normalizes back to it: the two mappings
/// agree on the supported set.
pub proof fn law_posix_locale_round_trip(l: Seq<char>)
    requires
        is_supported_locale(l),
    ensures
        normalized_locale(posix_locale_of(l)) == l,
        is_supported_locale(normalized_locale(posix_locale_of(l))),
{
    reveal_strlit("pt-BR");
    reveal_strlit("es-ES");
    reveal_strlit("zh-CN");
    reveal_strlit("en-US");
    reveal_strlit("pt_BR.UTF-8");
    reveal_strlit("es_ES.UTF-8");
    reveal_strlit("zh_CN.UTF-8");
    reveal_strlit("en_US.UTF-8");
    reveal_strlit("pt");
    reveal_strlit("pt_br");
    reveal_strlit("es");
    reveal_strlit("es_es");
    reveal_strlit("zh");
    reveal_strlit("zh_cn");
    reveal_strlit("zh_hans");
    let p = posix_locale_of(l);
    assert(p.len() == 11);
    assert(p[5] == '.');
    assert forall|i: int| 0 <= i < 5 implies #[trigger] p[i] != '.' by {}
    assert forall|i: int| 0 <= i < p.len() implies #[trigger] p[i] != '@' by {}
    lemma_base_before_dot(p, 5);
    let base = p.take(5);
    if l == "pt-BR"@ {
        assert(base_is(base, "pt_br"@));
    } else if l == "es-ES"@ {
        assert(!base_is(base, "pt_br"@) && !base_is(base, "pt"@)) by {
            assert(fold_code(base[0]) != ascii_lower("pt_br"@[0]));
        }
        assert(base_is(base, "es_es"@));
    } else if l == "zh-CN"@ {
        assert(!base_is(base, "pt_br"@) && !base_is(base, "pt"@)) by {
            assert(fold_code(base[0]) != ascii_lower("pt_br"@[0]));
        }
        assert(!base_is(base, "es_es"@) && !base_is(base, "es"@)) by {
            assert(fold_code(base[0]) != ascii_lower("es_es"@[0]));
        }
        assert(base_is(base, "zh_cn"@));
    } else {
        assert(!base_is(base, "pt_br"@) && !base_is(base, "pt"@)) by {
            assert(fold_code(base[0]) != ascii_lower("pt_br"@[0]));
        }
        assert(!base_is(base, "es_es"@) && !base_is(base, "es"@)) by {
            assert(fold_code(base[1]) != ascii_lower("es_es"@[1]));
        }
        assert(!base_is(base, "zh_cn"@) && !base_is(base, "zh"@) && !base_is(base, "zh_hans"@)) by {
            assert(fold_code(base[0]) != ascii_lower("zh_cn"@[0]));
        }
    }
}

} // verus!
