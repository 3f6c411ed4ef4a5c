//! Characters and strings: the small pieces of text handling the format
//! needs, stated over sequences of characters.

use vstd::prelude::*;

verus! {

/// Whether `v` is a Unicode scalar value, which is what a `char` holds.
pub open spec fn is_scalar(v: int) -> bool {
    0 <= v <= 0x10ffff && !(0xd800 <= v <= 0xdfff)
}

/// The replacement character, which stands for text that could not be decoded.
pub open spec fn replacement() -> char {
    '\u{fffd}'
}

/// std's `String::push`: appends one character.
#[verifier::external_body]
pub(crate) fn push_char(s: &mut String, c: char)
    ensures
        final(s)@ == old(s)@.push(c),
{
    s.push(c);
}

/// std's `char::from_u32`: the character with this code point, if it is one.
#[verifier::external_body]
pub(crate) fn char_from_u32(v: u32) -> (r: Option<char>)
    ensures
        r matches Some(c) ==> is_scalar(v as int) && c as u32 == v as int,
        r is None ==> !is_scalar(v as int),
{
    char::from_u32(v)
}

/// What std's `char::to_uppercase` yields for a character: its full Unicode
/// uppercase mapping, one to three characters.
pub uninterp spec fn char_uppercase(c: char) -> Seq<char>;

/// std's `char::to_uppercase`, collected.
#[verifier::external_body]
pub(crate) fn uppercase_of(c: char) -> (r: Vec<char>)
    ensures
        r@ == char_uppercase(c),
{
    c.to_uppercase().collect()
}

/// The characters of a string, in order.
pub fn chars_of(s: &str) -> (r: Vec<char>)
    ensures
        r@ == s@,
{
    let mut out: Vec<char> = Vec::new();
    for c in it: s.chars()
        invariant
            out@ == it.seq().take(it.index() as int),
    {
        out.push(c);
    }
    out
}

/// A string holding exactly these characters.
pub fn string_from(chars: &[char]) -> (r: String)
    ensures
        r@ == chars@,
{
    let mut out = String::new();
    let mut i: usize = 0;
    while i < chars.len()
        invariant
            i <= chars.len(),
            out@ == chars@.take(i as int),
        decreases chars.len() - i,
    {
        push_char(&mut out, chars[i]);
        i = i + 1;
        assert(out@ == chars@.take(i as int));
    }
    assert(chars@.take(chars.len() as int) == chars@);
    out
}


/// Whether a character is Unicode `White_Space`, which is what std's
/// `char::is_whitespace` and `str::trim` go by.
pub open spec fn is_ws(c: char) -> bool {
    let v = c as u32;
    (0x09 <= v <= 0x0d) || v == 0x20 || v == 0x85 || v == 0xa0 || v == 0x1680
        || (0x2000 <= v <= 0x200a) || v == 0x2028 || v == 0x2029 || v == 0x202f
        || v == 0x205f || v == 0x3000
}

/// Whether a character is Unicode `White_Space`.
pub fn is_whitespace(c: char) -> (r: bool)
    ensures
        r == is_ws(c),
{
    let v = c as u32;
    (0x09 <= v && v <= 0x0d) || v == 0x20 || v == 0x85 || v == 0xa0 || v == 0x1680
        || (0x2000 <= v && v <= 0x200a) || v == 0x2028 || v == 0x2029 || v == 0x202f
        || v == 0x205f || v == 0x3000
}

/// The value of a hexadecimal digit in either case, if it is one.
pub open spec fn hex_value(c: char) -> Option<int> {
    let v = c as u32;
    if 0x30 <= v <= 0x39 {
        Some(v - 0x30)
    } else if 0x61 <= v <= 0x66 {
        Some(v - 0x61 + 10)
    } else if 0x41 <= v <= 0x46 {
        Some(v - 0x41 + 10)
    } else {
        None
    }
}

/// std's `char::to_digit(16)`.
pub fn hex_digit_value(c: char) -> (r: Option<u8>)
    ensures
        r matches Some(d) ==> hex_value(c) == Some(d as int),
        r is None ==> hex_value(c) is None,
{
    let v = c as u32;
    if 0x30 <= v && v <= 0x39 {
        Some((v - 0x30) as u8)
    } else if 0x61 <= v && v <= 0x66 {
        Some((v - 0x61 + 10) as u8)
    } else if 0x41 <= v && v <= 0x46 {
        Some((v - 0x41 + 10) as u8)
    } else {
        None
    }
}

/// The lowercase hexadecimal digit for `n`, which is below 16.
pub open spec fn hex_char(n: int) -> char {
    if n < 10 {
        (0x30 + n) as char
    } else {
        (0x61 + n - 10) as char
    }
}

/// A byte as two lowercase hexadecimal digits.
pub open spec fn hex_byte(b: u8) -> Seq<char> {
    seq![hex_char(b as int / 16), hex_char(b as int % 16)]
}

/// Bytes as lowercase hexadecimal, two digits each, with no separator.
pub open spec fn hex_bytes(s: Seq<u8>) -> Seq<char>
    decreases s.len(),
{
    if s.len() == 0 {
        Seq::empty()
    } else {
        hex_bytes(s.drop_last()) + hex_byte(s.last())
    }
}

/// The lowercase hexadecimal digit for `n`.
pub fn hex_char_of(n: u8) -> (r: char)
    requires
        n < 16,
    ensures
        r == hex_char(n as int),
{
    if n < 10 {
        (0x30u8 + n) as char
    } else {
        (0x61u8 + n - 10) as char
    }
}

/// Appends `bytes[from..to]` to `out` as lowercase hexadecimal.
pub fn push_hex(out: &mut String, bytes: &[u8], from: usize, to: usize)
    requires
        from <= to <= bytes.len(),
    ensures
        final(out)@ == old(out)@ + hex_bytes(bytes@.subrange(from as int, to as int)),
{
    let mut i = from;
    while i < to
        invariant
            from <= i <= to <= bytes.len(),
            out@ == old(out)@ + hex_bytes(bytes@.subrange(from as int, i as int)),
        decreases to - i,
    {
        let b = bytes[i];
        push_char(out, hex_char_of(b / 16));
        push_char(out, hex_char_of(b % 16));
        proof {
            let next = bytes@.subrange(from as int, i + 1);
            assert(next.drop_last() == bytes@.subrange(from as int, i as int));
            assert(next.last() == b);
        }
        i = i + 1;
    }
}

/// Whether `p` occurs in `s` at position `at`.
pub open spec fn occurs_at(s: Seq<char>, at: int, p: Seq<char>) -> bool {
    0 <= at && at + p.len() <= s.len() && s.subrange(at, at + p.len()) == p
}

/// Whether `p` occurs in `s` at position `at`.
pub fn matches_at(s: &[char], at: usize, p: &[char]) -> (r: bool)
    requires
        at <= s.len(),
    ensures
        r == occurs_at(s@, at as int, p@),
{
    if p.len() > s.len() - at {
        return false;
    }
    let mut i: usize = 0;
    while i < p.len()
        invariant
            at + p.len() <= s.len(),
            i <= p.len(),
            forall|j: int| 0 <= j < i ==> s@[at + j] == p@[j],
        decreases p.len() - i,
    {
        if s[at + i] != p[i] {
            assert(s@.subrange(at as int, at + p.len())[i as int] != p@[i as int]);
            return false;
        }
        i = i + 1;
    }
    assert(s@.subrange(at as int, at + p.len()) =~= p@);
    true
}

/// std's `str::trim_start_matches` with a string pattern: `s` with every
/// leading repetition of `p` removed.
pub open spec fn strip_prefixes(s: Seq<char>, p: Seq<char>) -> Seq<char>
    decreases s.len(),
{
    if p.len() > 0 && occurs_at(s, 0, p) {
        strip_prefixes(s.skip(p.len() as int), p)
    } else {
        s
    }
}

/// std's `str::trim_end_matches` with a string pattern: `s` with every
/// trailing repetition of `p` removed.
pub open spec fn strip_suffixes(s: Seq<char>, p: Seq<char>) -> Seq<char>
    decreases s.len(),
{
    if p.len() > 0 && occurs_at(s, s.len() - p.len(), p) {
        strip_suffixes(s.take(s.len() - p.len()), p)
    } else {
        s
    }
}

/// `s` without its leading white space.
pub open spec fn trim_start_ws(s: Seq<char>) -> Seq<char>
    decreases s.len(),
{
    if s.len() > 0 && is_ws(s[0]) {
        trim_start_ws(s.drop_first())
    } else {
        s
    }
}

/// `s` without its trailing white space.
pub open spec fn trim_end_ws(s: Seq<char>) -> Seq<char>
    decreases s.len(),
{
    if s.len() > 0 && is_ws(s.last()) {
        trim_end_ws(s.drop_last())
    } else {
        s
    }
}

/// std's `str::trim`: `s` without white space at either end.
pub open spec fn trim_ws(s: Seq<char>) -> Seq<char> {
    trim_end_ws(trim_start_ws(s))
}

/// The characters of `s` that are not `c`, in order.
pub open spec fn without(s: Seq<char>, c: char) -> Seq<char>
    decreases s.len(),
{
    if s.len() == 0 {
        s
    } else if s.last() == c {
        without(s.drop_last(), c)
    } else {
        without(s.drop_last(), c).push(s.last())
    }
}

/// `s[from..]` with leading copies of `p` removed.
pub fn strip_prefixes_exec(s: &[char], from: usize, p: &[char]) -> (r: usize)
    requires
        from <= s.len(),
    ensures
        from <= r <= s.len(),
        s@.skip(r as int) == strip_prefixes(s@.skip(from as int), p@),
{
    let mut at = from;
    while p.len() > 0 && matches_at(s, at, p)
        invariant
            from <= at <= s.len(),
            strip_prefixes(s@.skip(at as int), p@) == strip_prefixes(s@.skip(from as int), p@),
        decreases s.len() - at,
    {
        proof {
            let rest = s@.skip(at as int);
            assert(rest.subrange(0, p@.len() as int) =~= s@.subrange(at as int, at + p@.len()));
            assert(rest.skip(p@.len() as int) =~= s@.skip(at + p@.len()));
        }
        at = at + p.len();
    }
    proof {
        let rest = s@.skip(at as int);
        if p@.len() > 0 && occurs_at(rest, 0, p@) {
            assert(rest.subrange(0, p@.len() as int) =~= s@.subrange(at as int, at + p@.len()));
        }
    }
    at
}

/// `s[from..to]` with trailing copies of `p` removed; the new end.
pub fn strip_suffixes_exec(s: &[char], from: usize, to: usize, p: &[char]) -> (r: usize)
    requires
        from <= to <= s.len(),
    ensures
        from <= r <= to,
        s@.subrange(from as int, r as int) == strip_suffixes(s@.subrange(from as int, to as int), p@),
{
    let mut end = to;
    while p.len() > 0 && p.len() <= end - from && matches_at(s, end - p.len(), p)
        invariant
            from <= end <= to <= s.len(),
            strip_suffixes(s@.subrange(from as int, end as int), p@)
                == strip_suffixes(s@.subrange(from as int, to as int), p@),
        decreases end,
    {
        proof {
            let part = s@.subrange(from as int, end as int);
            assert(part.subrange(part.len() - p@.len(), part.len() as int)
                =~= s@.subrange(end - p@.len(), end as int));
            assert(part.take(part.len() - p@.len()) =~= s@.subrange(from as int, end - p@.len()));
        }
        end = end - p.len();
    }
    proof {
        let part = s@.subrange(from as int, end as int);
        if p@.len() > 0 && occurs_at(part, part.len() - p@.len(), p@) {
            assert(part.subrange(part.len() - p@.len(), part.len() as int)
                =~= s@.subrange(end - p@.len(), end as int));
        }
    }
    end
}


/// The bounds of `s` once white space is trimmed from both ends.
pub fn trim_bounds(s: &[char]) -> (r: (usize, usize))
    ensures
        r.0 <= r.1 <= s.len(),
        s@.subrange(r.0 as int, r.1 as int) == trim_ws(s@),
{
    let mut start: usize = 0;
    assert(s@.skip(0) =~= s@);
    while start < s.len() && is_whitespace(s[start])
        invariant
            start <= s.len(),
            trim_start_ws(s@.skip(start as int)) == trim_start_ws(s@),
        decreases s.len() - start,
    {
        assert(s@.skip(start as int).drop_first() =~= s@.skip(start + 1));
        start = start + 1;
    }
    assert(trim_start_ws(s@.skip(start as int)) == s@.skip(start as int));
    let mut end: usize = s.len();
    while end > start && is_whitespace(s[end - 1])
        invariant
            start <= end <= s.len(),
            trim_end_ws(s@.subrange(start as int, end as int)) == trim_ws(s@),
        decreases end,
    {
        assert(s@.subrange(start as int, end as int).drop_last() =~= s@.subrange(start as int, end - 1));
        end = end - 1;
    }
    assert(s@.skip(start as int) =~= s@.subrange(start as int, s.len() as int));
    (start, end)
}

/// `s[from..to]` without any `c`, in order.
pub fn without_exec(s: &[char], from: usize, to: usize, c: char) -> (r: Vec<char>)
    requires
        from <= to <= s.len(),
    ensures
        r@ == without(s@.subrange(from as int, to as int), c),
{
    let mut out: Vec<char> = Vec::new();
    let mut i = from;
    while i < to
        invariant
            from <= i <= to <= s.len(),
            out@ == without(s@.subrange(from as int, i as int), c),
        decreases to - i,
    {
        let ghost before = s@.subrange(from as int, i as int);
        let ghost after = s@.subrange(from as int, i + 1);
        assert(after.drop_last() =~= before);
        if s[i] != c {
            out.push(s[i]);
        }
        i = i + 1;
    }
    out
}


/// A copy of `s[from..to]`.
pub fn copy_range<T: Copy>(s: &[T], from: usize, to: usize) -> (r: Vec<T>)
    requires
        from <= to <= s.len(),
    ensures
        r@ == s@.subrange(from as int, to as int),
{
    let mut out: Vec<T> = Vec::new();
    let mut i = from;
    while i < to
        invariant
            from <= i <= to <= s.len(),
            out@ == s@.subrange(from as int, i as int),
        decreases to - i,
    {
        out.push(s[i]);
        i = i + 1;
    }
    out
}

/// Decodes the first `n` bytes of a run of hexadecimal digit pairs, high
/// digit first, or `None` if one of those digits is not a digit.
pub open spec fn hex_pairs(d: Seq<char>, n: int) -> Option<Seq<u8>>
    decreases n,
{
    if n <= 0 {
        Some(Seq::empty())
    } else {
        match hex_pairs(d, n - 1) {
            Some(prev) => match (hex_value(d[2 * n - 2]), hex_value(d[2 * n - 1])) {
                (Some(h), Some(l)) => Some(prev.push((16 * h + l) as u8)),
                _ => None,
            },
            None => None,
        }
    }
}

/// Decodes `n` hexadecimal digit pairs from the start of `d`.
pub fn hex_pairs_exec(d: &[char], n: usize) -> (r: Option<Vec<u8>>)
    requires
        2 * n <= d.len(),
    ensures
        r matches Some(v) ==> hex_pairs(d@, n as int) == Some(v@),
        r is None ==> hex_pairs(d@, n as int) is None,
{
    let mut out: Vec<u8> = Vec::new();
    let mut i: usize = 0;
    while i < n
        invariant
            i <= n,
            2 * n <= d.len(),
            hex_pairs(d@, i as int) == Some(out@),
        decreases n - i,
    {
        let h = hex_digit_value(d[2 * i]);
        let l = hex_digit_value(d[2 * i + 1]);
        match (h, l) {
            (Some(h), Some(l)) => {
                out.push(16 * h + l);
            },
            _ => {
                assert(hex_pairs(d@, i + 1) is None);
                proof { lemma_hex_pairs_none_grows(d@, i + 1, n as int); }
                return None;
            },
        }
        i = i + 1;
    }
    Some(out)
}

/// Once a prefix fails to decode, every longer one does.
pub proof fn lemma_hex_pairs_none_grows(d: Seq<char>, i: int, n: int)
    requires
        0 <= i <= n,
        hex_pairs(d, i) is None,
    ensures
        hex_pairs(d, n) is None,
    decreases n - i,
{
    if i < n {
        lemma_hex_pairs_none_grows(d, i, n - 1);
    }
}


/// Appends the characters of `t` to `s`.
pub fn push_str(s: &mut String, t: &str)
    ensures
        final(s)@ == old(s)@ + t@,
{
    let cs = chars_of(t);
    let mut i: usize = 0;
    while i < cs.len()
        invariant
            i <= cs.len(),
            cs@ == t@,
            s@ == old(s)@ + cs@.take(i as int),
        decreases cs.len() - i,
    {
        push_char(s, cs[i]);
        assert(cs@.take(i + 1) =~= cs@.take(i as int).push(cs@[i as int]));
        i = i + 1;
    }
    assert(cs@.take(cs.len() as int) =~= cs@);
}


/// std's `str::replace` with a non-empty string pattern and an empty
/// replacement: every occurrence of `p`, scanning left to right without
/// overlap, removed.
pub open spec fn remove_all(s: Seq<char>, p: Seq<char>) -> Seq<char>
    decreases s.len(),
{
    if s.len() == 0 || p.len() == 0 {
        s
    } else if occurs_at(s, 0, p) {
        remove_all(s.skip(p.len() as int), p)
    } else {
        seq![s[0]] + remove_all(s.drop_first(), p)
    }
}

/// Removes every occurrence of `p` from `s`, left to right.
pub fn remove_all_exec(s: &[char], p: &[char]) -> (r: Vec<char>)
    requires
        p.len() > 0,
    ensures
        r@ == remove_all(s@, p@),
{
    let mut out: Vec<char> = Vec::new();
    let mut i: usize = 0;
    assert(s@.skip(0) =~= s@);
    while i < s.len()
        invariant
            i <= s.len(),
            p.len() > 0,
            out@ + remove_all(s@.skip(i as int), p@) == remove_all(s@, p@),
        decreases s.len() - i,
    {
        let rest = Ghost(s@.skip(i as int));
        if matches_at(s, i, p) {
            proof {
                assert(rest@.subrange(0, p@.len() as int) =~= s@.subrange(i as int, i + p@.len()));
                assert(rest@.skip(p@.len() as int) =~= s@.skip(i + p@.len()));
            }
            i = i + p.len();
        } else {
            proof {
                if occurs_at(rest@, 0, p@) {
                    assert(rest@.subrange(0, p@.len() as int) =~= s@.subrange(i as int, i + p@.len()));
                }
                assert(rest@.drop_first() =~= s@.skip(i + 1));
                assert(out@.push(s@[i as int]) + remove_all(s@.skip(i + 1), p@)
                    =~= out@ + (seq![rest@[0]] + remove_all(rest@.drop_first(), p@)));
            }
            out.push(s[i]);
            i = i + 1;
        }
    }
    proof {
        assert(s@.skip(i as int) =~= Seq::<char>::empty());
        assert(out@ + Seq::<char>::empty() =~= out@);
    }
    out
}

/// A character with ASCII `A` to `Z` taken to lowercase, as std's
/// `to_ascii_lowercase` does.
pub open spec fn ascii_lower(c: char) -> char {
    if 0x41 <= c as u32 <= 0x5a {
        ((c as u32) + 32) as char
    } else {
        c
    }
}

/// std's `str::to_ascii_lowercase`.
pub open spec fn ascii_lower_all(s: Seq<char>) -> Seq<char> {
    s.map_values(|c: char| ascii_lower(c))
}

/// std's `str::to_ascii_lowercase`, over `s[from..to]`.
pub fn ascii_lower_exec(s: &[char], from: usize, to: usize) -> (r: Vec<char>)
    requires
        from <= to <= s.len(),
    ensures
        r@ == ascii_lower_all(s@.subrange(from as int, to as int)),
{
    let mut out: Vec<char> = Vec::new();
    let mut i = from;
    while i < to
        invariant
            from <= i <= to <= s.len(),
            out@ == ascii_lower_all(s@.subrange(from as int, i as int)),
        decreases to - i,
    {
        let c = s[i];
        let v = c as u32;
        let l = if 0x41 <= v && v <= 0x5a { ((v + 32) as u8) as char } else { c };
        out.push(l);
        assert(ascii_lower_all(s@.subrange(from as int, i + 1)) =~= out@);
        i = i + 1;
    }
    out
}

/// How many bytes a character takes in UTF-8.
pub open spec fn utf8_width(c: char) -> int {
    if (c as u32) < 0x80 {
        1
    } else if (c as u32) < 0x800 {
        2
    } else if (c as u32) < 0x10000 {
        3
    } else {
        4
    }
}

/// How many bytes a string takes in UTF-8, which is what std's `str::len` counts.
pub open spec fn utf8_len(s: Seq<char>) -> int
    decreases s.len(),
{
    if s.len() == 0 {
        0
    } else {
        utf8_len(s.drop_last()) + utf8_width(s.last())
    }
}

/// Whether every character is ASCII.
pub open spec fn all_ascii(s: Seq<char>) -> bool {
    forall|i: int| 0 <= i < s.len() ==> (s[i] as u32) < 0x80
}

/// An ASCII string is as many bytes long in UTF-8 as it has characters.
pub proof fn lemma_ascii_utf8_len(s: Seq<char>)
    requires
        all_ascii(s),
    ensures
        utf8_len(s) == s.len(),
    decreases s.len(),
{
    if s.len() > 0 {
        assert(all_ascii(s.drop_last()));
        lemma_ascii_utf8_len(s.drop_last());
    }
}

/// A string is at least as many bytes long in UTF-8 as it has characters,
/// and longer if any character is not ASCII.
pub proof fn lemma_utf8_len_bounds(s: Seq<char>)
    ensures
        utf8_len(s) >= s.len(),
        !all_ascii(s) ==> utf8_len(s) > s.len(),
    decreases s.len(),
{
    if s.len() > 0 {
        lemma_utf8_len_bounds(s.drop_last());
        if !all_ascii(s) {
            if all_ascii(s.drop_last()) {
                assert(!((s.last() as u32) < 0x80)) by {
                    let i = choose|i: int| 0 <= i < s.len() && !((s[i] as u32) < 0x80);
                    if i < s.len() - 1 {
                        assert(s.drop_last()[i] == s[i]);
                    }
                }
            }
        }
    }
}

/// Whether every character of `s` is ASCII.
pub fn is_all_ascii(s: &[char]) -> (r: bool)
    ensures
        r == all_ascii(s@),
{
    let mut i: usize = 0;
    while i < s.len()
        invariant
            i <= s.len(),
            forall|j: int| 0 <= j < i ==> (s@[j] as u32) < 0x80,
        decreases s.len() - i,
    {
        let c = s[i];
        let v = c as u32;
        if v >= 0x80 {
            return false;
        }
        i = i + 1;
    }
    true
}


/// How many UTF-16 units a string takes, which is how the format measures
/// a directory entry's name.
pub open spec fn utf16_len(s: Seq<char>) -> int
    decreases s.len(),
{
    if s.len() == 0 {
        0
    } else {
        utf16_len(s.drop_last()) + if (s.last() as u32) < 0x10000 { 1int } else { 2int }
    }
}

/// The uppercase mapping of every character, one after another: std's
/// `str::to_uppercase`, and `chars().flat_map(char::to_uppercase)`.
pub open spec fn upper_all(s: Seq<char>) -> Seq<char>
    decreases s.len(),
{
    if s.len() == 0 {
        Seq::empty()
    } else {
        upper_all(s.drop_last()) + char_uppercase(s.last())
    }
}

/// Lexicographic order of two character sequences, by code point: negative,
/// zero or positive as `a` sorts before, with, or after `b`.
pub open spec fn lex_order(a: Seq<char>, b: Seq<char>) -> int
    decreases a.len(),
{
    if a.len() == 0 && b.len() == 0 {
        0
    } else if a.len() == 0 {
        -1
    } else if b.len() == 0 {
        1
    } else if (a[0] as u32) < (b[0] as u32) {
        -1
    } else if (a[0] as u32) > (b[0] as u32) {
        1
    } else {
        lex_order(a.drop_first(), b.drop_first())
    }
}

/// The number of UTF-16 units in a string.
pub fn utf16_units(s: &str) -> (r: u128)
    ensures
        r == utf16_len(s@),
{
    let cs = chars_of(s);
    let mut n: u128 = 0;
    let mut i: usize = 0;
    while i < cs.len()
        invariant
            i <= cs.len(),
            cs@ == s@,
            n == utf16_len(cs@.take(i as int)),
            n <= 2 * i,
        decreases cs.len() - i,
    {
        assert(cs@.take(i + 1).drop_last() =~= cs@.take(i as int));
        if (cs[i] as u32) < 0x10000 {
            n = n + 1;
        } else {
            n = n + 2;
        }
        i = i + 1;
    }
    assert(cs@.take(cs.len() as int) =~= cs@);
    n
}

/// The uppercase mapping of every character of `s`.
pub fn upper_chars(s: &str) -> (r: Vec<char>)
    ensures
        r@ == upper_all(s@),
{
    let cs = chars_of(s);
    let mut out: Vec<char> = Vec::new();
    let mut i: usize = 0;
    while i < cs.len()
        invariant
            i <= cs.len(),
            cs@ == s@,
            out@ == upper_all(cs@.take(i as int)),
        decreases cs.len() - i,
    {
        assert(cs@.take(i + 1).drop_last() =~= cs@.take(i as int));
        let mut up = uppercase_of(cs[i]);
        let ghost before = out@;
        out.append(&mut up);
        assert(out@ == before + char_uppercase(cs@[i as int]));
        i = i + 1;
    }
    assert(cs@.take(cs.len() as int) =~= cs@);
    out
}

/// Lexicographic comparison by code point: -1, 0 or 1.
pub fn lex_compare(a: &[char], b: &[char]) -> (r: i8)
    ensures
        r as int == lex_order(a@, b@),
{
    let mut i: usize = 0;
    assert(a@.skip(0) =~= a@);
    assert(b@.skip(0) =~= b@);
    while i < a.len() && i < b.len()
        invariant
            i <= a.len(),
            i <= b.len(),
            lex_order(a@.skip(i as int), b@.skip(i as int)) == lex_order(a@, b@),
        decreases a.len() - i,
    {
        let (x, y) = (a[i] as u32, b[i] as u32);
        assert(a@.skip(i as int)[0] == a@[i as int]);
        assert(b@.skip(i as int)[0] == b@[i as int]);
        if x < y {
            return -1;
        }
        if x > y {
            return 1;
        }
        assert(a@.skip(i as int).drop_first() =~= a@.skip(i + 1));
        assert(b@.skip(i as int).drop_first() =~= b@.skip(i + 1));
        i = i + 1;
    }
    if i < a.len() {
        1
    } else if i < b.len() {
        -1
    } else {
        0
    }
}


/// A number in decimal, with no leading zeros.
pub open spec fn decimal(n: nat) -> Seq<char>
    decreases n,
{
    if n < 10 {
        seq![(0x30 + n) as char]
    } else {
        decimal(n / 10) + seq![(0x30 + n % 10) as char]
    }
}

/// A number in decimal, with no leading zeros.
pub fn decimal_string(n: u64) -> (r: String)
    ensures
        r@ == decimal(n as nat),
{
    let mut digits: Vec<char> = Vec::new();
    let mut m = n;
    while m >= 10
        invariant
            decimal(n as nat) == decimal(m as nat) + digits@,
        decreases m,
    {
        let d = (m % 10) as u8;
        let ghost old_digits = digits@;
        digits.insert(0, ((0x30u8 + d) as char));
        assert(decimal(m as nat) == decimal((m / 10) as nat) + seq![(0x30 + m % 10) as char]);
        assert(digits@ =~= seq![(0x30 + m % 10) as char] + old_digits);
        m = m / 10;
    }
    let ghost rest = digits@;
    digits.insert(0, ((0x30u8 + m as u8) as char));
    assert(digits@ =~= decimal(m as nat) + rest);
    string_from(&digits)
}


/// A number in lowercase hexadecimal, with no leading zeros.
pub open spec fn hex_number(n: nat) -> Seq<char>
    decreases n,
{
    if n < 16 {
        seq![hex_char(n as int)]
    } else {
        hex_number(n / 16).push(hex_char((n % 16) as int))
    }
}

/// `h` padded on the left with zeros to at least `width` characters.
pub open spec fn zero_padded(h: Seq<char>, width: nat) -> Seq<char> {
    if h.len() < width {
        Seq::new((width - h.len()) as nat, |_i: int| '0') + h
    } else {
        h
    }
}

/// The digits of `n` in lowercase hexadecimal, most significant first.
fn hex_digits(n: u64) -> (r: Vec<char>)
    ensures
        r@ == hex_number(n as nat),
{
    let mut digits: Vec<char> = Vec::new();
    let mut m = n;
    while m >= 16
        invariant
            hex_number(n as nat) == hex_number(m as nat) + digits@,
        decreases m,
    {
        let d = (m % 16) as u8;
        let ghost old_digits = digits@;
        digits.insert(0, hex_char_of(d));
        assert(hex_number(m as nat) == hex_number((m / 16) as nat).push(hex_char((m % 16) as int)));
        assert(digits@ =~= seq![hex_char((m % 16) as int)] + old_digits);
        assert(hex_number((m / 16) as nat).push(hex_char((m % 16) as int)) + old_digits
            =~= hex_number((m / 16) as nat) + digits@);
        m = m / 16;
    }
    let ghost rest = digits@;
    digits.insert(0, hex_char_of(m as u8));
    assert(digits@ =~= hex_number(m as nat) + rest);
    digits
}

/// A number in lowercase hexadecimal, with no leading zeros.
pub fn hex_string(n: u64) -> (r: String)
    ensures
        r@ == hex_number(n as nat),
{
    let digits = hex_digits(n);
    string_from(&digits)
}

/// Appends `n` in lowercase hexadecimal, zero-padded to `width` digits.
pub fn push_hex_padded(out: &mut String, n: u64, width: usize)
    ensures
        final(out)@ == old(out)@ + zero_padded(hex_number(n as nat), width as nat),
{
    let digits = hex_digits(n);
    let mut k = digits.len();
    while k < width
        invariant
            digits@ == hex_number(n as nat),
            digits.len() <= k <= width || (k == digits.len() && k >= width),
            out@ == old(out)@ + Seq::new((k - digits.len()) as nat, |_i: int| '0'),
        decreases width - k,
    {
        let ghost before = out@;
        push_char(out, '0');
        assert(Seq::new((k + 1 - digits.len()) as nat, |_i: int| '0')
            =~= Seq::new((k - digits.len()) as nat, |_i: int| '0').push('0'));
        k = k + 1;
    }
    let mut i: usize = 0;
    let ghost pad = out@;
    while i < digits.len()
        invariant
            i <= digits.len(),
            out@ == pad + digits@.subrange(0, i as int),
        decreases digits.len() - i,
    {
        push_char(out, digits[i]);
        assert(digits@.subrange(0, i + 1) =~= digits@.subrange(0, i as int).push(digits@[i as int]));
        i = i + 1;
    }
    assert(digits@.subrange(0, digits.len() as int) =~= digits@);
    if digits.len() < width {
        assert(k == width);
    } else {
        assert(Seq::new((k - digits.len()) as nat, |_i: int| '0') =~= Seq::<char>::empty());
    }
}


/// `n` in the alternate hexadecimal form: `0x`, then at least `width`
/// digits.
pub open spec fn alt_hex(n: nat, width: nat) -> Seq<char> {
    "0x"@ + zero_padded(hex_number(n), width)
}

/// A hexadecimal digit in uppercase; any other character as it is.
pub open spec fn upper_hex_char(c: char) -> char {
    if 'a' <= c && c <= 'f' { ((c as u32) - 32) as char } else { c }
}

/// Hexadecimal digits in uppercase.
pub open spec fn upper_hex(s: Seq<char>) -> Seq<char> {
    s.map_values(|c: char| upper_hex_char(c))
}

/// Appends `n` in uppercase hexadecimal, zero-padded to `width` digits.
pub fn push_upper_hex_padded(out: &mut String, n: u64, width: usize)
    ensures
        final(out)@ == old(out)@ + upper_hex(zero_padded(hex_number(n as nat), width as nat)),
{
    let mut lower = String::new();
    push_hex_padded(&mut lower, n, width);
    let cs = chars_of(lower.as_str());
    let ghost want = upper_hex(cs@);
    let ghost before = out@;
    let mut i: usize = 0;
    while i < cs.len()
        invariant
            i <= cs@.len(),
            want == upper_hex(cs@),
            out@ == before + want.subrange(0, i as int),
        decreases cs@.len() - i,
    {
        let c = cs[i];
        let u = if 'a' <= c && c <= 'f' { ((c as u32 - 32) as u8) as char } else { c };
        assert(u == upper_hex_char(c));
        push_char(out, u);
        assert(want.subrange(0, i + 1) =~= want.subrange(0, i as int).push(want[i as int]));
        i = i + 1;
    }
    assert(want.subrange(0, cs@.len() as int) =~= want);
}

/// Appends `n` in decimal.
pub fn push_decimal(out: &mut String, n: u64)
    ensures
        final(out)@ == old(out)@ + decimal(n as nat),
{
    let d = decimal_string(n);
    push_str(out, d.as_str());
}

/// Appends `n` in the alternate hexadecimal form, `0x` and at least
/// `width` digits.
pub fn push_alt_hex(out: &mut String, n: u64, width: usize)
    ensures
        final(out)@ == old(out)@ + alt_hex(n as nat, width as nat),
{
    let ghost before = out@;
    push_str(out, "0x");
    push_hex_padded(out, n, width);
    assert(out@ =~= before + alt_hex(n as nat, width as nat));
}

/// Bytes as a bracketed, comma-separated list of two-digit hexadecimal
/// numbers.
pub open spec fn hex_list(s: Seq<u8>) -> Seq<char> {
    "["@ + hex_items(s) + "]"@
}

/// The items of [`hex_list`], without the brackets.
pub open spec fn hex_items(s: Seq<u8>) -> Seq<char>
    decreases s.len(),
{
    if s.len() == 0 {
        Seq::empty()
    } else if s.len() == 1 {
        hex_byte(s[0])
    } else {
        hex_items(s.drop_last()) + ", "@ + hex_byte(s.last())
    }
}

/// Appends bytes as a bracketed list of two-digit hexadecimal numbers.
pub fn push_hex_list(out: &mut String, bytes: &[u8])
    ensures
        final(out)@ == old(out)@ + hex_list(bytes@),
{
    let ghost before = out@;
    push_str(out, "[");
    let mut i: usize = 0;
    while i < bytes.len()
        invariant
            i <= bytes.len(),
            out@ == before + "["@ + hex_items(bytes@.subrange(0, i as int)),
        decreases bytes.len() - i,
    {
        let ghost mid = out@;
        if i > 0 {
            push_str(out, ", ");
        }
        push_hex(out, bytes, i, i + 1);
        proof {
            let t = bytes@.subrange(0, i + 1);
            assert(t.drop_last() =~= bytes@.subrange(0, i as int));
            assert(bytes@.subrange(i as int, i + 1) =~= seq![bytes@[i as int]]);
            assert(hex_bytes(seq![bytes@[i as int]]) =~= hex_byte(bytes@[i as int])) by {
                let one = seq![bytes@[i as int]];
                assert(one.drop_last() =~= Seq::<u8>::empty());
                assert(hex_bytes(one.drop_last()) =~= Seq::<char>::empty());
                assert(one.last() == bytes@[i as int]);
                assert(hex_bytes(one) == hex_bytes(one.drop_last()) + hex_byte(one.last()));
            }
            if i == 0 {
                assert(t =~= seq![bytes@[0]]);
            }
        }
        i = i + 1;
    }
    push_str(out, "]");
    assert(bytes@.subrange(0, bytes.len() as int) =~= bytes@);
}

/// Texts joined with `sep` between each two.
pub open spec fn joined(parts: Seq<Seq<char>>, sep: Seq<char>) -> Seq<char>
    decreases parts.len(),
{
    if parts.len() == 0 {
        Seq::empty()
    } else if parts.len() == 1 {
        parts[0]
    } else {
        joined(parts.drop_last(), sep) + sep + parts.last()
    }
}

/// Appends `parts` joined with `sep` between each two.
pub fn push_joined(out: &mut String, parts: &Vec<String>, sep: &str)
    ensures
        final(out)@ == old(out)@ + joined(parts@.map_values(|p: String| p@), sep@),
{
    let ghost before = out@;
    let ghost all = parts@.map_values(|p: String| p@);
    let mut i: usize = 0;
    while i < parts.len()
        invariant
            i <= parts.len(),
            all == parts@.map_values(|p: String| p@),
            out@ == before + joined(all.subrange(0, i as int), sep@),
        decreases parts.len() - i,
    {
        if i > 0 {
            push_str(out, sep);
        }
        push_str(out, parts[i].as_str());
        proof {
            let t = all.subrange(0, i + 1);
            assert(t.drop_last() =~= all.subrange(0, i as int));
            assert(t.last() == parts@[i as int]@);
            if i == 0 {
                assert(t.len() == 1);
            }
        }
        i = i + 1;
    }
    assert(all.subrange(0, parts.len() as int) =~= all);
}


/// Whether two texts hold the same characters.
pub fn same_text(a: &str, b: &str) -> (r: bool)
    ensures
        r == (a@ == b@),
{
    let x = chars_of(a);
    let y = chars_of(b);
    if x.len() != y.len() {
        return false;
    }
    let mut i: usize = 0;
    while i < x.len()
        invariant
            x@ == a@,
            y@ == b@,
            i <= x@.len() == y@.len(),
            forall|j: int| 0 <= j < i ==> x@[j] == y@[j],
        decreases x@.len() - i,
    {
        if x[i] != y[i] {
            return false;
        }
        i = i + 1;
    }
    assert(x@ =~= y@);
    true
}


/// How the format's red-black trees order two directory entry names:
/// negative, zero or positive as `a` sorts before, with, or after `b`.
/// Shorter names, in UTF-16 units, come first; names of the same length are
/// compared by their uppercase mappings, so case does not matter.
pub open spec fn name_order(a: Seq<char>, b: Seq<char>) -> int {
    if utf16_len(a) < utf16_len(b) {
        -1
    } else if utf16_len(a) > utf16_len(b) {
        1
    } else {
        lex_order(upper_all(a), upper_all(b))
    }
}


/// Comparing `a` with `b` is the reverse of comparing `b` with `a`.
pub proof fn lemma_lex_order_flip(a: Seq<char>, b: Seq<char>)
    ensures
        lex_order(a, b) == -lex_order(b, a),
    decreases a.len(),
{
    if a.len() > 0 && b.len() > 0 && (a[0] as u32) == (b[0] as u32) {
        lemma_lex_order_flip(a.drop_first(), b.drop_first());
    }
}

/// A text compares equal to itself.
pub proof fn lemma_lex_order_same(a: Seq<char>)
    ensures
        lex_order(a, a) == 0,
    decreases a.len(),
{
    if a.len() > 0 {
        lemma_lex_order_same(a.drop_first());
    }
}

/// Comparing names `a` with `b` is the reverse of comparing `b` with `a`.
pub proof fn lemma_name_order_flip(a: Seq<char>, b: Seq<char>)
    ensures
        name_order(a, b) == -name_order(b, a),
{
    lemma_lex_order_flip(upper_all(a), upper_all(b));
}


/// The pieces of `s` between slashes, empty ones included: what std's
/// `str::split('/')` yields.
pub open spec fn split_slash(s: Seq<char>) -> Seq<Seq<char>>
    decreases s.len(),
{
    if s.len() == 0 {
        seq![Seq::empty()]
    } else {
        let p = split_slash(s.drop_last());
        if s.last() == '/' {
            p.push(Seq::empty())
        } else {
            p.update(p.len() - 1, p.last().push(s.last()))
        }
    }
}

/// The non-empty pieces, in order.
pub open spec fn nonempty(parts: Seq<Seq<char>>) -> Seq<Seq<char>>
    decreases parts.len(),
{
    if parts.len() == 0 {
        parts
    } else if parts.last().len() == 0 {
        nonempty(parts.drop_last())
    } else {
        nonempty(parts.drop_last()).push(parts.last())
    }
}

/// The components of a `/`-separated path: the non-empty pieces between
/// slashes.
pub open spec fn path_parts(s: Seq<char>) -> Seq<Seq<char>> {
    nonempty(split_slash(s))
}

/// Splitting never yields nothing.
pub proof fn lemma_split_slash_len(s: Seq<char>)
    ensures
        split_slash(s).len() >= 1,
    decreases s.len(),
{
    if s.len() > 0 {
        lemma_split_slash_len(s.drop_last());
    }
}

/// The components of a `/`-separated path.
pub fn path_components(path: &str) -> (r: Vec<Vec<char>>)
    ensures
        r@.len() == path_parts(path@).len(),
        forall|i: int| 0 <= i < r@.len() ==> (#[trigger] r@[i])@ == path_parts(path@)[i],
{
    let cs = chars_of(path);
    let mut done: Vec<Vec<char>> = Vec::new();
    let mut cur: Vec<char> = Vec::new();
    let mut i: usize = 0;
    while i < cs.len()
        invariant
            i <= cs.len(),
            cs@ == path@,
            split_slash(cs@.take(i as int)).last() == cur@,
            nonempty(split_slash(cs@.take(i as int)).drop_last()).len() == done@.len(),
            forall|k: int| 0 <= k < done@.len() ==> (#[trigger] done@[k])@ == nonempty(split_slash(cs@.take(i as int)).drop_last())[k],
        decreases cs.len() - i,
    {
        let c = cs[i];
        let ghost before = split_slash(cs@.take(i as int));
        proof {
            lemma_split_slash_len(cs@.take(i as int));
            assert(cs@.take(i + 1).drop_last() =~= cs@.take(i as int));
        }
        if c == '/' {
            let ghost after = split_slash(cs@.take(i + 1));
            assert(after == before.push(Seq::empty()));
            assert(after.drop_last() =~= before);
            if cur.len() > 0 {
                assert(before.drop_last().push(before.last()) =~= before);
                done.push(cur);
            } else {
                assert(before.drop_last().push(before.last()) =~= before);
            }
            cur = Vec::new();
        } else {
            let ghost after = split_slash(cs@.take(i + 1));
            assert(after.drop_last() =~= before.drop_last());
            cur.push(c);
        }
        i = i + 1;
    }
    let ghost all = split_slash(cs@.take(i as int));
    proof {
        lemma_split_slash_len(cs@.take(i as int));
        assert(cs@.take(i as int) =~= cs@);
        assert(all.drop_last().push(all.last()) =~= all);
    }
    if cur.len() > 0 {
        done.push(cur);
    }
    done
}

} // verus!
