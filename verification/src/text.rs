//! Character-level building blocks shared by the parsers: Unicode whitespace and control
//! classification, trimming, word splitting, line splitting and the conversions between
//! `&str`/`String` and `Vec<char>`.

use vstd::prelude::*;

verus! {

// ----------------------------------------------------------------------------------------------
// Character classes
// ----------------------------------------------------------------------------------------------

/// The Unicode `White_Space` property, as `char::is_whitespace` implements it.
pub open spec fn is_ws(c: char) -> bool {
    ||| ('\t' <= c && c <= '\r')
    ||| c == ' '
    ||| c == '\u{85}'
    ||| c == '\u{a0}'
    ||| c == '\u{1680}'
    ||| ('\u{2000}' <= c && c <= '\u{200a}')
    ||| c == '\u{2028}'
    ||| c == '\u{2029}'
    ||| c == '\u{202f}'
    ||| c == '\u{205f}'
    ||| c == '\u{3000}'
}

/// General category `Cc`, as `char::is_control` implements it.
pub open spec fn is_ctrl(c: char) -> bool {
    c <= '\u{1f}' || ('\u{7f}' <= c && c <= '\u{9f}')
}

pub fn is_whitespace(c: char) -> (b: bool)
    ensures
        b == is_ws(c),
{
    ('\t' <= c && c <= '\r') || c == ' ' || c == '\u{85}' || c == '\u{a0}' || c == '\u{1680}'
        || ('\u{2000}' <= c && c <= '\u{200a}') || c == '\u{2028}' || c == '\u{2029}'
        || c == '\u{202f}' || c == '\u{205f}' || c == '\u{3000}'
}

pub fn is_control(c: char) -> (b: bool)
    ensures
        b == is_ctrl(c),
{
    c <= '\u{1f}' || ('\u{7f}' <= c && c <= '\u{9f}')
}

/// The code of `c` after ASCII lower-casing (non-ASCII letters are left alone).
pub open spec fn ascii_lower(c: char) -> int {
    if 'A' <= c && c <= 'Z' {
        c as int + 32
    } else {
        c as int
    }
}

pub fn ascii_lower_code(c: char) -> (r: u32)
    ensures
        r == ascii_lower(c),
{
    let x = c as u32;
    if 'A' <= c && c <= 'Z' {
        x + 32
    } else {
        x
    }
}

/// `str::eq_ignore_ascii_case`.
pub open spec fn eq_ignore_case(a: Seq<char>, b: Seq<char>) -> bool {
    &&& a.len() == b.len()
    &&& forall|i: int| 0 <= i < a.len() ==> #[trigger] ascii_lower(a[i]) == ascii_lower(b[i])
}

pub fn eq_ignore_case_exec(a: &Vec<char>, b: &str) -> (r: bool)
    ensures
        r == eq_ignore_case(a@, b@),
{
    let bv = chars_of(b);
    if a.len() != bv.len() {
        return false;
    }
    let mut i: usize = 0;
    while i < a.len()
        invariant
            a@.len() == bv@.len(),
            bv@ == b@,
            i <= a.len(),
            forall|j: int| 0 <= j < i ==> #[trigger] ascii_lower(a@[j]) == ascii_lower(bv@[j]),
        decreases a.len() - i,
    {
        if ascii_lower_code(a[i]) != ascii_lower_code(bv[i]) {
            return false;
        }
        i += 1;
    }
    true
}

// ----------------------------------------------------------------------------------------------
// Conversions
// ----------------------------------------------------------------------------------------------

/// Collects characters into a `String` (std's `FromIterator<&char> for String`).
#[verifier::external_body]
pub(crate) fn string_of(v: &[char]) -> (res: String)
    ensures
        res@ == v@,
{
    v.iter().collect()
}

pub fn chars_of(s: &str) -> (res: Vec<char>)
    ensures
        res@ == s@,
{
    let mut out: Vec<char> = Vec::new();
    for c in it: s.chars()
        invariant
            out@ == it.seq().take(it.index() as int),
            it.seq() == s@,
    {
        out.push(c);
    }
    out
}

pub fn subvec(v: &Vec<char>, from: usize, to: usize) -> (res: Vec<char>)
    requires
        from <= to <= v.len(),
    ensures
        res@ == v@.subrange(from as int, to as int),
{
    let mut out: Vec<char> = Vec::new();
    let mut i = from;
    while i < to
        invariant
            from <= i <= to <= v.len(),
            out@ == v@.subrange(from as int, i as int),
        decreases to - i,
    {
        out.push(v[i]);
        i += 1;
    }
    out
}

pub fn substring(v: &Vec<char>, from: usize, to: usize) -> (res: String)
    requires
        from <= to <= v.len(),
    ensures
        res@ == v@.subrange(from as int, to as int),
{
    let sub = subvec(v, from, to);
    string_of(sub.as_slice())
}

pub fn append_chars(out: &mut Vec<char>, s: &Vec<char>)
    ensures
        final(out)@ == old(out)@ + s@,
{
    let mut i: usize = 0;
    while i < s.len()
        invariant
            i <= s.len(),
            out@ == old(out)@ + s@.take(i as int),
        decreases s.len() - i,
    {
        out.push(s[i]);
        i += 1;
        assert(s@.take(i as int) =~= s@.take(i - 1) + seq![s@[i - 1]]);
    }
    assert(s@.take(s.len() as int) =~= s@);
}

pub fn clone_opt(s: &Option<String>) -> (res: Option<String>)
    ensures
        res.deep_view() == s.deep_view(),
{
    match s {
        Some(v) => Some(v.clone()),
        None => None,
    }
}

// ----------------------------------------------------------------------------------------------
// Trimming and words
// ----------------------------------------------------------------------------------------------

/// Number of leading whitespace characters.
pub open spec fn lead_ws(s: Seq<char>) -> nat
    decreases s.len(),
{
    if s.len() > 0 && is_ws(s[0]) {
        1 + lead_ws(s.drop_first())
    } else {
        0
    }
}

/// Number of trailing whitespace characters.
pub open spec fn trail_ws(s: Seq<char>) -> nat
    decreases s.len(),
{
    if s.len() > 0 && is_ws(s.last()) {
        1 + trail_ws(s.drop_last())
    } else {
        0
    }
}

/// Length of the leading run of non-whitespace characters.
pub open spec fn tok_len(s: Seq<char>) -> nat
    decreases s.len(),
{
    if s.len() > 0 && !is_ws(s[0]) {
        1 + tok_len(s.drop_first())
    } else {
        0
    }
}

/// `str::trim_start`.
pub open spec fn trim_start(s: Seq<char>) -> Seq<char> {
    s.skip(lead_ws(s) as int)
}

/// `str::trim_end`.
pub open spec fn trim_end(s: Seq<char>) -> Seq<char> {
    s.take(s.len() - trail_ws(s))
}

/// `str::trim`.
pub open spec fn trim(s: Seq<char>) -> Seq<char> {
    trim_end(trim_start(s))
}

/// The first whitespace-delimited word (empty for a blank line).
pub open spec fn first_word(s: Seq<char>) -> Seq<char> {
    let t = trim_start(s);
    t.take(tok_len(t) as int)
}

/// Everything after the first word, trimmed: the value of a `Keyword value` line.
pub open spec fn value_of(s: Seq<char>) -> Seq<char> {
    let t = trim_start(s);
    trim(t.skip(tok_len(t) as int))
}

pub open spec fn all_ws(s: Seq<char>) -> bool {
    forall|i: int| 0 <= i < s.len() ==> is_ws(#[trigger] s[i])
}

pub proof fn lemma_lead_ws(s: Seq<char>)
    ensures
        lead_ws(s) <= s.len(),
        forall|i: int| 0 <= i < lead_ws(s) ==> is_ws(#[trigger] s[i]),
        lead_ws(s) < s.len() ==> !is_ws(s[lead_ws(s) as int]),
    decreases s.len(),
{
    if s.len() > 0 && is_ws(s[0]) {
        lemma_lead_ws(s.drop_first());
        assert forall|i: int| 0 <= i < lead_ws(s) implies is_ws(#[trigger] s[i]) by {
            if i > 0 {
                assert(s[i] == s.drop_first()[i - 1]);
            }
        }
    }
}

pub proof fn lemma_trail_ws(s: Seq<char>)
    ensures
        trail_ws(s) <= s.len(),
        forall|i: int| s.len() - trail_ws(s) <= i < s.len() ==> is_ws(#[trigger] s[i]),
        trail_ws(s) < s.len() ==> !is_ws(s[s.len() - trail_ws(s) - 1]),
    decreases s.len(),
{
    if s.len() > 0 && is_ws(s.last()) {
        lemma_trail_ws(s.drop_last());
        assert forall|i: int| s.len() - trail_ws(s) <= i < s.len() implies is_ws(#[trigger] s[i]) by {
            if i < s.len() - 1 {
                assert(s[i] == s.drop_last()[i]);
            }
        }
    }
}

pub proof fn lemma_tok_len(s: Seq<char>)
    ensures
        tok_len(s) <= s.len(),
        forall|i: int| 0 <= i < tok_len(s) ==> !is_ws(#[trigger] s[i]),
        tok_len(s) < s.len() ==> is_ws(s[tok_len(s) as int]),
    decreases s.len(),
{
    if s.len() > 0 && !is_ws(s[0]) {
        lemma_tok_len(s.drop_first());
        assert forall|i: int| 0 <= i < tok_len(s) implies !is_ws(#[trigger] s[i]) by {
            if i > 0 {
                assert(s[i] == s.drop_first()[i - 1]);
            }
        }
    }
}

/// A prefix of whitespace of length `n` followed by a non-whitespace character (or the end)
/// is exactly the leading whitespace.
pub proof fn lemma_lead_ws_is(s: Seq<char>, n: int)
    requires
        0 <= n <= s.len(),
        forall|i: int| 0 <= i < n ==> is_ws(#[trigger] s[i]),
        n < s.len() ==> !is_ws(s[n]),
    ensures
        lead_ws(s) == n,
    decreases n,
{
    if n > 0 {
        assert forall|i: int| 0 <= i < n - 1 implies is_ws(#[trigger] s.drop_first()[i]) by {
            assert(s.drop_first()[i] == s[i + 1]);
        }
        if n < s.len() {
            assert(s.drop_first()[n - 1] == s[n]);
        }
        lemma_lead_ws_is(s.drop_first(), n - 1);
    }
}

pub proof fn lemma_trail_ws_is(s: Seq<char>, n: int)
    requires
        0 <= n <= s.len(),
        forall|i: int| s.len() - n <= i < s.len() ==> is_ws(#[trigger] s[i]),
        n < s.len() ==> !is_ws(s[s.len() - n - 1]),
    ensures
        trail_ws(s) == n,
    decreases n,
{
    if n > 0 {
        let d = s.drop_last();
        assert forall|i: int| d.len() - (n - 1) <= i < d.len() implies is_ws(#[trigger] d[i]) by {
            assert(d[i] == s[i]);
        }
        if n < s.len() {
            assert(d[d.len() - (n - 1) - 1] == s[s.len() - n - 1]);
        }
        lemma_trail_ws_is(d, n - 1);
    }
}

pub proof fn lemma_tok_len_is(s: Seq<char>, n: int)
    requires
        0 <= n <= s.len(),
        forall|i: int| 0 <= i < n ==> !is_ws(#[trigger] s[i]),
        n < s.len() ==> is_ws(s[n]),
    ensures
        tok_len(s) == n,
    decreases n,
{
    if n > 0 {
        assert forall|i: int| 0 <= i < n - 1 implies !is_ws(#[trigger] s.drop_first()[i]) by {
            assert(s.drop_first()[i] == s[i + 1]);
        }
        if n < s.len() {
            assert(s.drop_first()[n - 1] == s[n]);
        }
        lemma_tok_len_is(s.drop_first(), n - 1);
    }
}

/// Whitespace-separated words (`str::split_whitespace`).
pub open spec fn words(s: Seq<char>) -> Seq<Seq<char>>
    decreases s.len(),
{
    let t = trim_start(s);
    if t.len() == 0 || lead_ws(s) > s.len() {
        Seq::empty()
    } else {
        let k = tok_len(t);
        if k == 0 || k > t.len() {
            Seq::empty()
        } else {
            seq![t.take(k as int)] + words(t.skip(k as int))
        }
    }
}

pub fn lead_ws_len(v: &Vec<char>, from: usize) -> (n: usize)
    requires
        from <= v.len(),
    ensures
        n == from + lead_ws(v@.skip(from as int)),
        n <= v.len(),
{
    let mut i = from;
    while i < v.len() && is_whitespace(v[i])
        invariant
            from <= i <= v.len(),
            forall|j: int| from <= j < i ==> is_ws(#[trigger] v@[j]),
        decreases v.len() - i,
    {
        i += 1;
    }
    proof {
        let s = v@.skip(from as int);
        assert forall|j: int| 0 <= j < i - from implies is_ws(#[trigger] s[j]) by {
            assert(s[j] == v@[j + from]);
        }
        lemma_lead_ws_is(s, i - from);
    }
    i
}

pub fn tok_end(v: &Vec<char>, from: usize) -> (n: usize)
    requires
        from <= v.len(),
    ensures
        n == from + tok_len(v@.skip(from as int)),
        n <= v.len(),
{
    let mut i = from;
    while i < v.len() && !is_whitespace(v[i])
        invariant
            from <= i <= v.len(),
            forall|j: int| from <= j < i ==> !is_ws(#[trigger] v@[j]),
        decreases v.len() - i,
    {
        i += 1;
    }
    proof {
        let s = v@.skip(from as int);
        assert forall|j: int| 0 <= j < i - from implies !is_ws(#[trigger] s[j]) by {
            assert(s[j] == v@[j + from]);
        }
        lemma_tok_len_is(s, i - from);
    }
    i
}

/// End of `v[from..to]` once trailing whitespace is dropped.
pub fn trail_start(v: &Vec<char>, from: usize, to: usize) -> (n: usize)
    requires
        from <= to <= v.len(),
    ensures
        n == to - trail_ws(v@.subrange(from as int, to as int)),
        from <= n <= to,
{
    let mut i = to;
    while i > from && is_whitespace(v[i - 1])
        invariant
            from <= i <= to <= v.len(),
            forall|j: int| i <= j < to ==> is_ws(#[trigger] v@[j]),
        decreases i,
    {
        i -= 1;
    }
    proof {
        let s = v@.subrange(from as int, to as int);
        assert forall|j: int| s.len() - (to - i) <= j < s.len() implies is_ws(#[trigger] s[j]) by {
            assert(s[j] == v@[j + from]);
        }
        if i > from {
            assert(s[s.len() - (to - i) - 1] == v@[i - 1]);
        }
        lemma_trail_ws_is(s, to - i);
    }
    i
}

/// `trim(v[from..])`, as bounds into `v`.
pub fn trim_bounds(v: &Vec<char>, from: usize) -> (r: (usize, usize))
    requires
        from <= v.len(),
    ensures
        from <= r.0 <= r.1 <= v.len(),
        v@.subrange(r.0 as int, r.1 as int) == trim(v@.skip(from as int)),
{
    let a = lead_ws_len(v, from);
    let b = trail_start(v, a, v.len());
    proof {
        let s = v@.skip(from as int);
        lemma_lead_ws(s);
        assert(trim_start(s) =~= v@.subrange(a as int, v.len() as int));
        assert(v@.subrange(a as int, b as int) =~= trim_end(trim_start(s)));
    }
    (a, b)
}

/// The first word of `v` and its bounds.
pub fn first_word_bounds(v: &Vec<char>) -> (r: (usize, usize))
    ensures
        r.0 <= r.1 <= v.len(),
        v@.subrange(r.0 as int, r.1 as int) == first_word(v@),
        v@.skip(r.1 as int) == trim_start(v@).skip(tok_len(trim_start(v@)) as int),
{
    let a = lead_ws_len(v, 0);
    let b = tok_end(v, a);
    proof {
        assert(v@.skip(0) =~= v@);
        let t = trim_start(v@);
        lemma_lead_ws(v@);
        assert(t =~= v@.skip(a as int));
        lemma_tok_len(t);
        assert(v@.subrange(a as int, b as int) =~= t.take(tok_len(t) as int));
        assert(v@.skip(b as int) =~= t.skip(tok_len(t) as int));
    }
    (a, b)
}

/// `value_of`, computed.
pub fn value_bounds(v: &Vec<char>) -> (r: (usize, usize))
    ensures
        r.0 <= r.1 <= v.len(),
        v@.subrange(r.0 as int, r.1 as int) == value_of(v@),
{
    let (_a, b) = first_word_bounds(v);
    let (c, d) = trim_bounds(v, b);
    (c, d)
}

pub fn is_blank(v: &Vec<char>) -> (r: bool)
    ensures
        r == all_ws(v@),
{
    let n = lead_ws_len(v, 0);
    proof {
        assert(v@.skip(0) =~= v@);
        lemma_lead_ws(v@);
    }
    n == v.len()
}

// ----------------------------------------------------------------------------------------------
// Lines
// ----------------------------------------------------------------------------------------------

/// Length of the first line of `s`, its `\n` terminator included.
pub open spec fn line_len(s: Seq<char>) -> nat
    decreases s.len(),
{
    if s.len() == 0 {
        0
    } else if s[0] == '\n' {
        1
    } else {
        1 + line_len(s.drop_first())
    }
}

/// `str::split_inclusive('\n')`: every line keeps its own terminator.
pub open spec fn lines_of(s: Seq<char>) -> Seq<Seq<char>>
    decreases s.len(),
{
    if s.len() == 0 || line_len(s) == 0 || line_len(s) > s.len() {
        Seq::empty()
    } else {
        seq![s.take(line_len(s) as int)] + lines_of(s.skip(line_len(s) as int))
    }
}

/// A line without its `\n` or `\r\n` terminator.
pub open spec fn strip_terminator(s: Seq<char>) -> Seq<char> {
    if s.len() >= 2 && s[s.len() - 1] == '\n' && s[s.len() - 2] == '\r' {
        s.take(s.len() - 2)
    } else if s.len() >= 1 && s[s.len() - 1] == '\n' {
        s.take(s.len() - 1)
    } else {
        s
    }
}

pub proof fn lemma_line_len(s: Seq<char>)
    ensures
        s.len() > 0 ==> 1 <= line_len(s) <= s.len(),
        forall|i: int| 0 <= i < line_len(s) - 1 ==> #[trigger] s[i] != '\n',
        line_len(s) < s.len() ==> s[line_len(s) - 1] == '\n',
    decreases s.len(),
{
    if s.len() > 0 && s[0] != '\n' {
        lemma_line_len(s.drop_first());
        assert forall|i: int| 0 <= i < line_len(s) - 1 implies #[trigger] s[i] != '\n' by {
            if i > 0 {
                assert(s[i] == s.drop_first()[i - 1]);
            }
        }
        if line_len(s) < s.len() {
            assert(s[line_len(s) - 1] == s.drop_first()[line_len(s) - 2]);
        }
    }
}

pub proof fn lemma_line_len_is(s: Seq<char>, n: int)
    requires
        1 <= n <= s.len(),
        forall|i: int| 0 <= i < n - 1 ==> #[trigger] s[i] != '\n',
        n < s.len() ==> s[n - 1] == '\n',
    ensures
        line_len(s) == n,
    decreases n,
{
    if n > 1 {
        assert(s[0] != '\n');
        assert forall|i: int| 0 <= i < n - 2 implies #[trigger] s.drop_first()[i] != '\n' by {
            assert(s.drop_first()[i] == s[i + 1]);
        }
        if n < s.len() {
            assert(s.drop_first()[n - 2] == s[n - 1]);
        }
        lemma_line_len_is(s.drop_first(), n - 1);
    } else if n == s.len() && s[0] != '\n' {
        assert(s.drop_first().len() == 0);
        assert(line_len(s.drop_first()) == 0);
    }
}

pub proof fn lemma_lines_flatten(s: Seq<char>)
    ensures
        lines_of(s).flatten() == s,
    decreases s.len(),
{
    lemma_line_len(s);
    if s.len() > 0 {
        let k = line_len(s) as int;
        lemma_lines_flatten(s.skip(k));
        assert(lines_of(s).drop_first() =~= lines_of(s.skip(k)));
        assert(s.take(k) + s.skip(k) =~= s);
    } else {
        assert(s =~= Seq::<char>::empty());
    }
}

/// Splits `text` into lines (each keeping its terminator), as `Vec<char>`s.
pub fn split_lines(text: &str) -> (res: Vec<Vec<char>>)
    ensures
        res@.len() == lines_of(text@).len(),
        forall|i: int| 0 <= i < res@.len() ==> #[trigger] res@[i]@ == lines_of(text@)[i],
{
    let v = chars_of(text);
    let mut out: Vec<Vec<char>> = Vec::new();
    let mut start: usize = 0;
    assert(v@.skip(0) =~= v@);
    while start < v.len()
        invariant
            start <= v.len(),
            v@ == text@,
            out@.len() + lines_of(v@.skip(start as int)).len() == lines_of(v@).len(),
            forall|i: int| 0 <= i < out@.len() ==> #[trigger] out@[i]@ == lines_of(v@)[i],
            forall|i: int|
                0 <= i < lines_of(v@.skip(start as int)).len() ==> #[trigger] lines_of(
                    v@.skip(start as int),
                )[i] == lines_of(v@)[out@.len() + i],
        decreases v.len() - start,
    {
        let mut end = start;
        while end < v.len() && v[end] != '\n'
            invariant
                start <= end <= v.len(),
                forall|j: int| start <= j < end ==> #[trigger] v@[j] != '\n',
            decreases v.len() - end,
        {
            end += 1;
        }
        if end < v.len() {
            end += 1;
        }
        let ghost rest = v@.skip(start as int);
        proof {
            assert forall|i: int| 0 <= i < (end - start) - 1 implies #[trigger] rest[i] != '\n' by {
                assert(rest[i] == v@[start + i]);
            }
            lemma_line_len_is(rest, (end - start) as int);
            assert(rest.skip((end - start) as int) =~= v@.skip(end as int));
            assert(rest.take((end - start) as int) =~= v@.subrange(start as int, end as int));
            assert(lines_of(rest) == seq![rest.take((end - start) as int)] + lines_of(
                v@.skip(end as int),
            ));
            assert(lines_of(rest)[0] == v@.subrange(start as int, end as int));
            assert forall|i: int|
                0 <= i < lines_of(v@.skip(end as int)).len() implies #[trigger] lines_of(
                v@.skip(end as int),
            )[i] == lines_of(v@)[out@.len() + 1 + i] by {
                assert(lines_of(v@.skip(end as int))[i] == lines_of(rest)[i + 1]);
            }
        }
        let line = subvec(&v, start, end);
        out.push(line);
        start = end;
    }
    proof {
        assert(v@.skip(start as int).len() == 0);
    }
    out
}

// ----------------------------------------------------------------------------------------------
// Splitting on a separator and joining
// ----------------------------------------------------------------------------------------------

/// Length of the prefix of `s` that holds no `c`.
pub open spec fn before_char(s: Seq<char>, c: char) -> nat
    decreases s.len(),
{
    if s.len() == 0 || s[0] == c {
        0
    } else {
        1 + before_char(s.drop_first(), c)
    }
}

/// `str::split(c)`: always at least one (possibly empty) piece.
pub open spec fn split_on(s: Seq<char>, c: char) -> Seq<Seq<char>>
    decreases s.len(),
{
    let k = before_char(s, c);
    if k >= s.len() {
        seq![s]
    } else {
        seq![s.take(k as int)] + split_on(s.skip(k + 1 as int), c)
    }
}

/// `slice::join(sep)`.
pub open spec fn join(parts: Seq<Seq<char>>, sep: Seq<char>) -> Seq<char>
    decreases parts.len(),
{
    if parts.len() == 0 {
        Seq::empty()
    } else if parts.len() == 1 {
        parts[0]
    } else {
        parts[0] + sep + join(parts.drop_first(), sep)
    }
}

pub proof fn lemma_before_char(s: Seq<char>, c: char)
    ensures
        before_char(s, c) <= s.len(),
        forall|i: int| 0 <= i < before_char(s, c) ==> #[trigger] s[i] != c,
        before_char(s, c) < s.len() ==> s[before_char(s, c) as int] == c,
    decreases s.len(),
{
    if s.len() > 0 && s[0] != c {
        lemma_before_char(s.drop_first(), c);
        assert forall|i: int| 0 <= i < before_char(s, c) implies #[trigger] s[i] != c by {
            if i > 0 {
                assert(s[i] == s.drop_first()[i - 1]);
            }
        }
        if before_char(s, c) < s.len() {
            assert(s[before_char(s, c) as int] == s.drop_first()[before_char(s, c) - 1]);
        }
    }
}

pub proof fn lemma_before_char_is(s: Seq<char>, c: char, n: int)
    requires
        0 <= n <= s.len(),
        forall|i: int| 0 <= i < n ==> #[trigger] s[i] != c,
        n < s.len() ==> s[n] == c,
    ensures
        before_char(s, c) == n,
    decreases n,
{
    if n > 0 {
        assert forall|i: int| 0 <= i < n - 1 implies #[trigger] s.drop_first()[i] != c by {
            assert(s.drop_first()[i] == s[i + 1]);
        }
        if n < s.len() {
            assert(s.drop_first()[n - 1] == s[n]);
        }
        lemma_before_char_is(s.drop_first(), c, n - 1);
    }
}

/// Joining the pieces of a split with the same separator gives back the text that was split.
pub proof fn lemma_join_split(s: Seq<char>, c: char)
    ensures
        join(split_on(s, c), seq![c]) == s,
        split_on(s, c).len() >= 1,
    decreases s.len(),
{
    lemma_before_char(s, c);
    let k = before_char(s, c);
    if k < s.len() {
        let rest = s.skip(k + 1 as int);
        lemma_join_split(rest, c);
        let parts = split_on(s, c);
        assert(parts.drop_first() =~= split_on(rest, c));
        assert(parts.len() >= 2);
        assert(s =~= s.take(k as int) + seq![c] + rest);
    }
}

/// Splits `s` on `c` into owned pieces.
pub fn split_char(s: &Vec<char>, c: char) -> (res: Vec<Vec<char>>)
    ensures
        res@.len() == split_on(s@, c).len(),
        forall|i: int| 0 <= i < res@.len() ==> #[trigger] res@[i]@ == split_on(s@, c)[i],
{
    let mut out: Vec<Vec<char>> = Vec::new();
    let mut start: usize = 0;
    assert(s@.skip(0) =~= s@);
    loop
        invariant
            start <= s.len(),
            out@.len() + split_on(s@.skip(start as int), c).len() == split_on(s@, c).len(),
            forall|i: int| 0 <= i < out@.len() ==> #[trigger] out@[i]@ == split_on(s@, c)[i],
            forall|i: int|
                0 <= i < split_on(s@.skip(start as int), c).len() ==> #[trigger] split_on(
                    s@.skip(start as int),
                    c,
                )[i] == split_on(s@, c)[out@.len() + i],
        decreases s.len() - start,
    {
        let mut end = start;
        while end < s.len() && s[end] != c
            invariant
                start <= end <= s.len(),
                forall|j: int| start <= j < end ==> #[trigger] s@[j] != c,
            decreases s.len() - end,
        {
            end += 1;
        }
        let ghost rest = s@.skip(start as int);
        proof {
            assert forall|i: int| 0 <= i < end - start implies #[trigger] rest[i] != c by {
                assert(rest[i] == s@[start + i]);
            }
            if end < s.len() {
                assert(rest[end - start] == s@[end as int]);
            }
            lemma_before_char_is(rest, c, (end - start) as int);
        }
        let piece = subvec(s, start, end);
        if end >= s.len() {
            proof {
                assert(rest =~= s@.subrange(start as int, end as int));
                assert(split_on(rest, c) == seq![rest]);
                assert(split_on(rest, c)[0] == rest);
                assert(split_on(s@.skip(start as int), c)[0] == split_on(s@, c)[out@.len() as int]);
            }
            out.push(piece);
            return out;
        }
        proof {
            assert(rest.skip((end - start) + 1) =~= s@.skip(end + 1));
            assert(rest.take((end - start) as int) =~= s@.subrange(start as int, end as int));
            assert(split_on(rest, c) == seq![rest.take((end - start) as int)] + split_on(
                s@.skip(end + 1),
                c,
            ));
            assert forall|i: int|
                0 <= i < split_on(s@.skip(end + 1), c).len() implies #[trigger] split_on(
                s@.skip(end + 1),
                c,
            )[i] == split_on(s@, c)[out@.len() + 1 + i] by {
                assert(split_on(s@.skip(end + 1), c)[i] == split_on(rest, c)[i + 1]);
            }
            assert(split_on(s@, c)[out@.len() as int] == split_on(rest, c)[0]);
        }
        out.push(piece);
        start = end + 1;
    }
}

// ----------------------------------------------------------------------------------------------
// Searching
// ----------------------------------------------------------------------------------------------

/// Number of characters after the last `c` (the whole length when there is none).
pub open spec fn after_last(s: Seq<char>, c: char) -> nat
    decreases s.len(),
{
    if s.len() == 0 || s.last() == c {
        0
    } else {
        1 + after_last(s.drop_last(), c)
    }
}

/// Number of occurrences of `c`.
pub open spec fn count_char(s: Seq<char>, c: char) -> nat
    decreases s.len(),
{
    if s.len() == 0 {
        0
    } else {
        count_char(s.drop_last(), c) + if s.last() == c {
            1nat
        } else {
            0nat
        }
    }
}

pub proof fn lemma_after_last_is(s: Seq<char>, c: char, n: int)
    requires
        0 <= n <= s.len(),
        forall|i: int| s.len() - n <= i < s.len() ==> #[trigger] s[i] != c,
        n < s.len() ==> s[s.len() - n - 1] == c,
    ensures
        after_last(s, c) == n,
    decreases n,
{
    if n > 0 {
        let d = s.drop_last();
        assert forall|i: int| d.len() - (n - 1) <= i < d.len() implies #[trigger] d[i] != c by {
            assert(d[i] == s[i]);
        }
        if n < s.len() {
            assert(d[d.len() - (n - 1) - 1] == s[s.len() - n - 1]);
        }
        lemma_after_last_is(d, c, n - 1);
    }
}

/// Index of the first `c` in `v[from..to]`, or `to`.
pub fn find_char(v: &Vec<char>, from: usize, to: usize, c: char) -> (n: usize)
    requires
        from <= to <= v.len(),
    ensures
        n == from + before_char(v@.subrange(from as int, to as int), c),
        from <= n <= to,
{
    let mut i = from;
    while i < to && v[i] != c
        invariant
            from <= i <= to <= v.len(),
            forall|j: int| from <= j < i ==> #[trigger] v@[j] != c,
        decreases to - i,
    {
        i += 1;
    }
    proof {
        let s = v@.subrange(from as int, to as int);
        assert forall|j: int| 0 <= j < i - from implies #[trigger] s[j] != c by {
            assert(s[j] == v@[j + from]);
        }
        if i < to {
            assert(s[i - from] == v@[i as int]);
        }
        lemma_before_char_is(s, c, i - from);
    }
    i
}

/// Index just past the last `c` in `v[from..to]`, or `from` when there is none.
pub fn after_last_char(v: &Vec<char>, from: usize, to: usize, c: char) -> (n: usize)
    requires
        from <= to <= v.len(),
    ensures
        n == to - after_last(v@.subrange(from as int, to as int), c),
        from <= n <= to,
{
    let mut i = to;
    while i > from && v[i - 1] != c
        invariant
            from <= i <= to <= v.len(),
            forall|j: int| i <= j < to ==> #[trigger] v@[j] != c,
        decreases i,
    {
        i -= 1;
    }
    proof {
        let s = v@.subrange(from as int, to as int);
        assert forall|j: int| s.len() - (to - i) <= j < s.len() implies #[trigger] s[j] != c by {
            assert(s[j] == v@[j + from]);
        }
        if i > from {
            assert(s[s.len() - (to - i) - 1] == v@[i - 1]);
        }
        lemma_after_last_is(s, c, to - i);
    }
    i
}

pub fn count_char_exec(v: &Vec<char>, from: usize, to: usize, c: char) -> (n: usize)
    requires
        from <= to <= v.len(),
    ensures
        n == count_char(v@.subrange(from as int, to as int), c),
{
    let mut i = from;
    let mut n: usize = 0;
    while i < to
        invariant
            from <= i <= to <= v.len(),
            n == count_char(v@.subrange(from as int, i as int), c),
            n <= i - from,
        decreases to - i,
    {
        proof {
            assert(v@.subrange(from as int, i + 1).drop_last() =~= v@.subrange(from as int, i as int));
        }
        if v[i] == c {
            n += 1;
        }
        i += 1;
    }
    n
}

pub proof fn lemma_count_zero(s: Seq<char>, c: char)
    requires
        forall|i: int| 0 <= i < s.len() ==> #[trigger] s[i] != c,
    ensures
        count_char(s, c) == 0,
    decreases s.len(),
{
    if s.len() > 0 {
        assert forall|i: int| 0 <= i < s.len() - 1 implies #[trigger] s.drop_last()[i] != c by {
            assert(s.drop_last()[i] == s[i]);
        }
        lemma_count_zero(s.drop_last(), c);
    }
}

/// A character that occurs is found.
pub proof fn lemma_count_found(s: Seq<char>, c: char)
    requires
        count_char(s, c) > 0,
    ensures
        before_char(s, c) < s.len(),
{
    lemma_before_char(s, c);
    if before_char(s, c) >= s.len() {
        lemma_count_zero(s, c);
    }
}

pub proof fn lemma_join_push(parts: Seq<Seq<char>>, x: Seq<char>, sep: Seq<char>)
    ensures
        join(parts.push(x), sep) == if parts.len() == 0 {
            x
        } else {
            join(parts, sep) + sep + x
        },
    decreases parts.len(),
{
    if parts.len() == 1 {
        assert(parts.push(x).drop_first() =~= seq![x]);
        assert(join(seq![x], sep) == x);
    } else if parts.len() > 1 {
        lemma_join_push(parts.drop_first(), x, sep);
        assert(parts.push(x).drop_first() =~= parts.drop_first().push(x));
    }
}

/// Joins the pieces with `sep` between consecutive ones.
pub fn join_with(parts: &Vec<Vec<char>>, sep: &Vec<char>) -> (res: Vec<char>)
    ensures
        res@ == join(parts@.map_values(|p: Vec<char>| p@), sep@),
{
    let ghost pv = parts@.map_values(|p: Vec<char>| p@);
    let mut out: Vec<char> = Vec::new();
    let mut i: usize = 0;
    assert(pv.take(0) =~= Seq::<Seq<char>>::empty());
    while i < parts.len()
        invariant
            i <= parts.len(),
            pv == parts@.map_values(|p: Vec<char>| p@),
            out@ == join(pv.take(i as int), sep@),
        decreases parts.len() - i,
    {
        proof {
            assert(pv.take(i + 1) =~= pv.take(i as int).push(pv[i as int]));
            lemma_join_push(pv.take(i as int), pv[i as int], sep@);
        }
        if i > 0 {
            append_chars(&mut out, sep);
        }
        append_chars(&mut out, &parts[i]);
        i += 1;
    }
    proof {
        assert(pv.take(parts.len() as int) =~= pv);
    }
    out
}

/// Joins the pieces with the character `sep` between consecutive ones.
pub fn join_chars(parts: &Vec<Vec<char>>, sep: char) -> (res: Vec<char>)
    ensures
        res@ == join(parts@.map_values(|p: Vec<char>| p@), seq![sep]),
{
    let mut s: Vec<char> = Vec::new();
    s.push(sep);
    assert(s@ =~= seq![sep]);
    join_with(parts, &s)
}

/// Equality of two character vectors.
pub fn same_chars(a: &Vec<char>, b: &Vec<char>) -> (r: bool)
    ensures
        r == (a@ == b@),
{
    if a.len() != b.len() {
        return false;
    }
    let mut i: usize = 0;
    while i < a.len()
        invariant
            i <= a.len() == b.len(),
            forall|j: int| 0 <= j < i ==> a@[j] == b@[j],
        decreases a.len() - i,
    {
        if a[i] != b[i] {
            return false;
        }
        i += 1;
    }
    assert(a@ =~= b@);
    true
}

/// Character-wise equality of two strings.
pub fn same_text(a: &str, b: &str) -> (r: bool)
    ensures
        r == (a@ == b@),
{
    let av = chars_of(a);
    let bv = chars_of(b);
    if av.len() != bv.len() {
        return false;
    }
    let mut i: usize = 0;
    while i < av.len()
        invariant
            i <= av.len() == bv.len(),
            av@ == a@,
            bv@ == b@,
            forall|j: int| 0 <= j < i ==> av@[j] == bv@[j],
        decreases av.len() - i,
    {
        if av[i] != bv[i] {
            assert(av@[i as int] != bv@[i as int]);
            return false;
        }
        i += 1;
    }
    assert(av@ =~= bv@);
    true
}

// ----------------------------------------------------------------------------------------------
// Order
// ----------------------------------------------------------------------------------------------

/// `String`'s order: lexicographic by character (UTF-8 preserves the order of code points).
pub open spec fn text_lt(a: Seq<char>, b: Seq<char>) -> bool
    decreases a.len(),
{
    if a.len() == 0 {
        b.len() > 0
    } else if b.len() == 0 {
        false
    } else if a[0] != b[0] {
        a[0] < b[0]
    } else {
        text_lt(a.drop_first(), b.drop_first())
    }
}

pub proof fn lemma_text_lt_irreflexive(a: Seq<char>)
    ensures
        !text_lt(a, a),
    decreases a.len(),
{
    if a.len() > 0 {
        lemma_text_lt_irreflexive(a.drop_first());
    }
}

pub proof fn lemma_text_lt_transitive(a: Seq<char>, b: Seq<char>, c: Seq<char>)
    requires
        text_lt(a, b),
        text_lt(b, c),
    ensures
        text_lt(a, c),
    decreases a.len(),
{
    if a.len() > 0 && b.len() > 0 && c.len() > 0 && a[0] == b[0] && b[0] == c[0] {
        lemma_text_lt_transitive(a.drop_first(), b.drop_first(), c.drop_first());
    }
}

pub proof fn lemma_text_lt_total(a: Seq<char>, b: Seq<char>)
    ensures
        a == b || text_lt(a, b) || text_lt(b, a),
    decreases a.len(),
{
    if a.len() > 0 && b.len() > 0 && a[0] == b[0] {
        lemma_text_lt_total(a.drop_first(), b.drop_first());
        if a.drop_first() == b.drop_first() {
            assert(a =~= seq![a[0]] + a.drop_first());
            assert(b =~= seq![b[0]] + b.drop_first());
        }
    } else if a.len() == 0 && b.len() == 0 {
        assert(a =~= b);
    }
}

pub proof fn lemma_text_lt_asymmetric(a: Seq<char>, b: Seq<char>)
    requires
        text_lt(a, b),
    ensures
        !text_lt(b, a),
    decreases a.len(),
{
    if a.len() > 0 && b.len() > 0 && a[0] == b[0] {
        lemma_text_lt_asymmetric(a.drop_first(), b.drop_first());
    }
}

/// `-1`, `0` or `1` as `a` sorts before, equal to, or after `b`.
pub fn compare_text(a: &Vec<char>, b: &Vec<char>) -> (r: i8)
    ensures
        r == 0 <==> a@ == b@,
        r < 0 <==> text_lt(a@, b@),
        r > 0 <==> text_lt(b@, a@),
{
    let mut i: usize = 0;
    proof {
        assert(a@.skip(0) =~= a@);
        assert(b@.skip(0) =~= b@);
        assert(a@.take(0) =~= b@.take(0));
    }
    while i < a.len() && i < b.len() && a[i] == b[i]
        invariant
            i <= a.len(),
            i <= b.len(),
            a@.take(i as int) == b@.take(i as int),
            text_lt(a@, b@) == text_lt(a@.skip(i as int), b@.skip(i as int)),
            text_lt(b@, a@) == text_lt(b@.skip(i as int), a@.skip(i as int)),
        decreases a.len() - i,
    {
        proof {
            assert(a@.skip(i as int).drop_first() =~= a@.skip(i + 1));
            assert(b@.skip(i as int).drop_first() =~= b@.skip(i + 1));
            assert(a@.take(i + 1) =~= a@.take(i as int).push(a@[i as int]));
            assert(b@.take(i + 1) =~= b@.take(i as int).push(b@[i as int]));
        }
        i += 1;
    }
    proof {
        assert(a@.skip(0) =~= a@);
        assert(b@.skip(0) =~= b@);
    }
    if i == a.len() && i == b.len() {
        proof {
            assert(a@ =~= a@.take(i as int));
            assert(b@ =~= b@.take(i as int));
            lemma_text_lt_irreflexive(a@);
        }
        0
    } else if i == a.len() {
        proof {
            if a@ == b@ {
                assert(false);
            }
        }
        -1
    } else if i == b.len() {
        proof {
            if a@ == b@ {
                assert(false);
            }
        }
        1
    } else if a[i] < b[i] {
        proof {
            if a@ == b@ {
                assert(a@[i as int] == b@[i as int]);
            }
        }
        -1
    } else {
        proof {
            if a@ == b@ {
                assert(a@[i as int] == b@[i as int]);
            }
        }
        1
    }
}

// ----------------------------------------------------------------------------------------------
// Searching
// ----------------------------------------------------------------------------------------------

/// Whether `pat` occurs in `s` at `at`.
pub fn occurs_at(s: &Vec<char>, at: usize, pat: &Vec<char>) -> (r: bool)
    requires
        at <= s.len(),
    ensures
        r == (at + pat.len() <= s.len() && s@.subrange(at as int, at + pat.len()) == pat@),
{
    if pat.len() > s.len() - at {
        return false;
    }
    let mut k: usize = 0;
    while k < pat.len()
        invariant
            k <= pat.len(),
            at + pat.len() <= s.len(),
            forall|j: int| 0 <= j < k ==> s@[at + j] == pat@[j],
        decreases pat.len() - k,
    {
        if s[at + k] != pat[k] {
            proof {
                assert(s@.subrange(at as int, at + pat.len())[k as int] != pat@[k as int]);
            }
            return false;
        }
        k += 1;
    }
    assert(s@.subrange(at as int, at + pat.len()) =~= pat@);
    true
}

/// `needle` occurs somewhere in `hay` (`str::contains`).
pub open spec fn occurs_in(hay: Seq<char>, needle: Seq<char>) -> bool {
    exists|i: int|
        0 <= i && i + needle.len() <= hay.len() && #[trigger] hay.subrange(i, i + needle.len()) == needle
}

pub fn contains_chars(hay: &Vec<char>, needle: &Vec<char>) -> (r: bool)
    ensures
        r == occurs_in(hay@, needle@),
{
    if needle.len() > hay.len() {
        return false;
    }
    let last = hay.len() - needle.len();
    let mut i: usize = 0;
    loop
        invariant
            needle.len() <= hay.len(),
            last == hay.len() - needle.len(),
            i <= last,
            forall|j: int| 0 <= j < i ==> #[trigger] hay@.subrange(j, j + needle.len()) != needle@,
        decreases last - i,
    {
        if occurs_at(hay, i, needle) {
            return true;
        }
        if i == last {
            return false;
        }
        i += 1;
    }
}

} // verus!
