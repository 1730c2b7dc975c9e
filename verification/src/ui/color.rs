//! Host colors: `#rrggbb` text as stored in the metadata, read as three bytes.

use vstd::prelude::*;

use crate::text::chars_of;

verus! {

// ----------------------------------------------------------------------------------------------
// Reading `#rrggbb`
// ----------------------------------------------------------------------------------------------

/// Number of leading `#` characters.
pub open spec fn hash_prefix(s: Seq<char>) -> nat
    decreases s.len(),
{
    if s.len() > 0 && s[0] == '#' {
        1 + hash_prefix(s.drop_first())
    } else {
        0
    }
}

/// `str::trim_start_matches('#')`.
pub open spec fn strip_hashes(s: Seq<char>) -> Seq<char> {
    s.skip(hash_prefix(s) as int)
}

/// The value of a hexadecimal digit, either case.
pub open spec fn hex_digit(c: char) -> Option<u8> {
    if '0' <= c && c <= '9' {
        Some((c as int - 48) as u8)
    } else if 'a' <= c && c <= 'f' {
        Some((c as int - 87) as u8)
    } else if 'A' <= c && c <= 'F' {
        Some((c as int - 55) as u8)
    } else {
        None
    }
}

/// `u8::from_str_radix(w, 16).ok()` for a two-character text: two hex digits, or `+` and one.
pub open spec fn hex_pair(w: Seq<char>) -> Option<u8> {
    if w.len() != 2 {
        None
    } else if w[0] == '+' {
        hex_digit(w[1])
    } else {
        match (hex_digit(w[0]), hex_digit(w[1])) {
            (Some(a), Some(b)) => Some((16 * a + b) as u8),
            _ => None,
        }
    }
}

/// The color of `#rrggbb` text (any number of leading `#`): six characters read as three
/// hexadecimal bytes, or nothing.
pub open spec fn hex_rgb(color: Seq<char>) -> Option<(u8, u8, u8)> {
    let hex = strip_hashes(color);
    if hex.len() == 6 {
        match (hex_pair(hex.subrange(0, 2)), hex_pair(hex.subrange(2, 4)), hex_pair(hex.subrange(4, 6))) {
            (Some(r), Some(g), Some(b)) => Some((r, g, b)),
            _ => None,
        }
    } else {
        None
    }
}

// ----------------------------------------------------------------------------------------------
// Byte boundaries
// ----------------------------------------------------------------------------------------------

/// Bytes of `c` in UTF-8.
pub open spec fn utf8_width(c: char) -> nat {
    if c <= '\u{7f}' {
        1
    } else if c <= '\u{7ff}' {
        2
    } else if c <= '\u{ffff}' {
        3
    } else {
        4
    }
}

/// Bytes of `s` in UTF-8 (`str::len`).
pub open spec fn utf8_len(s: Seq<char>) -> nat
    decreases s.len(),
{
    if s.len() == 0 {
        0
    } else {
        utf8_len(s.drop_last()) + utf8_width(s.last())
    }
}

/// Byte offset `b` of `s` falls between two characters.
pub open spec fn char_boundary(s: Seq<char>, b: nat) -> bool {
    exists|k: int| 0 <= k <= s.len() && #[trigger] utf8_len(s.take(k)) == b
}

/// Reading the color slices the stripped text at bytes 2 and 4 once it is six bytes long;
/// `str` slicing panics when such an offset falls inside a character.
pub open spec fn splits_a_char(color: Seq<char>) -> bool {
    let hex = strip_hashes(color);
    utf8_len(hex) == 6 && !(char_boundary(hex, 2) && char_boundary(hex, 4))
}

pub proof fn lemma_hash_prefix_is(s: Seq<char>, n: int)
    requires
        0 <= n <= s.len(),
        forall|i: int| 0 <= i < n ==> #[trigger] s[i] == '#',
        n < s.len() ==> s[n] != '#',
    ensures
        hash_prefix(s) == n,
    decreases n,
{
    if n > 0 {
        assert forall|i: int| 0 <= i < n - 1 implies #[trigger] s.drop_first()[i] == '#' by {
            assert(s.drop_first()[i] == s[i + 1]);
        }
        if n < s.len() {
            assert(s.drop_first()[n - 1] == s[n]);
        }
        lemma_hash_prefix_is(s.drop_first(), n - 1);
    }
}

fn hash_count(v: &Vec<char>) -> (n: usize)
    ensures
        n == hash_prefix(v@),
        n <= v.len(),
{
    let mut i: usize = 0;
    while i < v.len() && v[i] == '#'
        invariant
            i <= v.len(),
            forall|j: int| 0 <= j < i ==> #[trigger] v@[j] == '#',
        decreases v.len() - i,
    {
        i += 1;
    }
    proof {
        lemma_hash_prefix_is(v@, i as int);
    }
    i
}

fn hex_digit_exec(c: char) -> (r: Option<u8>)
    ensures
        r == hex_digit(c),
{
    if '0' <= c && c <= '9' {
        Some(((c as u32) - 48) as u8)
    } else if 'a' <= c && c <= 'f' {
        Some(((c as u32) - 87) as u8)
    } else if 'A' <= c && c <= 'F' {
        Some(((c as u32) - 55) as u8)
    } else {
        None
    }
}

fn hex_pair_exec(v: &Vec<char>, at: usize) -> (r: Option<u8>)
    requires
        at + 2 <= v.len(),
    ensures
        r == hex_pair(v@.subrange(at as int, at + 2)),
{
    let ghost w = v@.subrange(at as int, at + 2);
    assert(w[0] == v@[at as int] && w[1] == v@[at + 1]);
    if v[at] == '+' {
        hex_digit_exec(v[at + 1])
    } else {
        match (hex_digit_exec(v[at]), hex_digit_exec(v[at + 1])) {
            (Some(a), Some(b)) => Some(16 * a + b),
            _ => None,
        }
    }
}

/// The three bytes of `#rrggbb` text, or `None`.
pub fn parse_hex_rgb(color: &str) -> (r: Option<(u8, u8, u8)>)
    requires
        !splits_a_char(color@),
    ensures
        r == hex_rgb(color@),
{
    let v = chars_of(color);
    let start = hash_count(&v);
    let ghost hex = strip_hashes(color@);
    if v.len() - start != 6 {
        return None;
    }
    proof {
        assert(hex.subrange(0, 2) =~= v@.subrange(start as int, start + 2));
        assert(hex.subrange(2, 4) =~= v@.subrange(start + 2, start + 4));
        assert(hex.subrange(4, 6) =~= v@.subrange(start + 4, start + 6));
    }
    let r = hex_pair_exec(&v, start);
    let g = hex_pair_exec(&v, start + 2);
    let b = hex_pair_exec(&v, start + 4);
    match (r, g, b) {
        (Some(r), Some(g), Some(b)) => Some((r, g, b)),
        _ => None,
    }
}

/// The color shown for a host: its `#rrggbb` color, or a neutral grey.
pub open spec fn color_bytes(color: Option<Seq<char>>) -> (u8, u8, u8) {
    match color {
        Some(c) => match hex_rgb(c) {
            Some(t) => t,
            None => (140, 140, 140),
        },
        None => (140, 140, 140),
    }
}

/// The color of a tab's dot: the host's `#rrggbb` color, or a neutral grey.
pub fn parse_hex_color_bytes(color: Option<&str>) -> (r: (u8, u8, u8))
    requires
        color matches Some(c) ==> !splits_a_char(c@),
    ensures
        r == color_bytes(
            match color {
                Some(c) => Some(c@),
                None => None,
            },
        ),
{
    match color {
        Some(c) => match parse_hex_rgb(c) {
            Some(t) => t,
            None => (140, 140, 140),
        },
        None => (140, 140, 140),
    }
}

fn utf8_width_exec(c: char) -> (w: u128)
    ensures
        w == utf8_width(c),
{
    if c <= '\u{7f}' {
        1
    } else if c <= '\u{7ff}' {
        2
    } else if c <= '\u{ffff}' {
        3
    } else {
        4
    }
}

/// Whether reading `color` would slice through a character (see [`splits_a_char`]); the
/// frontend tests this before asking for a color.
pub fn slicing_splits_a_char(color: &str) -> (r: bool)
    ensures
        r == splits_a_char(color@),
{
    let v = chars_of(color);
    let start = hash_count(&v);
    let ghost hex = strip_hashes(color@);
    let mut len: u128 = 0;
    let mut at2 = false;
    let mut at4 = false;
    let mut i: usize = start;
    proof {
        assert(hex.take(0) =~= Seq::<char>::empty());
        assert(utf8_len(hex.take(0)) == 0);
    }
    while i < v.len()
        invariant
            start <= i <= v.len(),
            hex == v@.skip(start as int),
            len == utf8_len(hex.take(i - start)),
            len <= 4 * (i - start),
            at2 == exists|k: int| 0 <= k <= i - start && #[trigger] utf8_len(hex.take(k)) == 2,
            at4 == exists|k: int| 0 <= k <= i - start && #[trigger] utf8_len(hex.take(k)) == 4,
        decreases v.len() - i,
    {
        let w = utf8_width_exec(v[i]);
        proof {
            let k = i - start;
            assert(hex.take(k + 1).drop_last() =~= hex.take(k));
            assert(hex.take(k + 1).last() == v@[i as int]);
        }
        len = len + w;
        i += 1;
        if len == 2 {
            at2 = true;
        }
        if len == 4 {
            at4 = true;
        }
        proof {
            let k = i - start;
            assert(len == utf8_len(hex.take(k)));
            if !at2 {
                assert forall|m: int| 0 <= m <= k implies #[trigger] utf8_len(hex.take(m)) != 2 by {
                    if m == k {
                    }
                }
            }
            if !at4 {
                assert forall|m: int| 0 <= m <= k implies #[trigger] utf8_len(hex.take(m)) != 4 by {
                    if m == k {
                    }
                }
            }
        }
    }
    proof {
        assert(hex.take(hex.len() as int) =~= hex);
        assert(hex.len() == v.len() - start);
    }
    len == 6 && !(at2 && at4)
}

} // verus!
