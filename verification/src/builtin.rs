//! Identifiers written in the source as text.

use vstd::prelude::*;

use crate::auid::{guid_swap, Auid};
use crate::text::{all_ascii, chars_of, hex_digit_value, hex_value};

verus! {

/// The bytes an AUID's text spells from character `at` on, byte `k` on:
/// each byte two hexadecimal digits, a hyphen before one skipped. `None`
/// where the text runs out or holds anything else.
pub open spec fn auid_walk(s: Seq<char>, at: int, k: int) -> Option<Seq<u8>>
    decreases 16 - k,
{
    if k >= 16 {
        Some(Seq::empty())
    } else if at < 0 || at >= s.len() {
        None
    } else {
        let a = if s[at] == '-' { at + 1 } else { at };
        if a + 1 < s.len() && hex_value(s[a]) is Some && hex_value(s[a + 1]) is Some {
            match auid_walk(s, a + 2, k + 1) {
                Some(rest) => Some(seq![(hex_value(s[a]).unwrap() * 16 + hex_value(s[a + 1]).unwrap()) as u8] + rest),
                None => None,
            }
        } else {
            None
        }
    }
}

/// An AUID from its 36-character text, as the format writes it:
/// `0d010101-0101-0100-060e-2b3402060101`.
pub fn auid(text: &str) -> (r: Auid)
    requires
        text@.len() == 36,
        all_ascii(text@),
        auid_walk(text@, 0, 0) is Some,
    ensures
        r@ == guid_swap(auid_walk(text@, 0, 0).unwrap()),
{
    let s = chars_of(text);
    let mut bytes = [0u8; 16];
    let mut at: usize = 0;
    let mut k: usize = 0;
    let ghost full = auid_walk(text@, 0, 0).unwrap();
    assert(full.len() == 16) by { lemma_walk_len(text@, 0, 0); }
    while k < 16
        invariant
            s@ == text@,
            k <= 16,
            at <= 36,
            text@.len() == 36,
            full.len() == 16,
            auid_walk(text@, at as int, k as int) is Some,
            full == bytes@.take(k as int) + auid_walk(text@, at as int, k as int).unwrap(),
            bytes@.len() == 16,
        decreases 16 - k,
    {
        if s[at] == '-' {
            at = at + 1;
        }
        let hi = hex_digit_value(s[at]).unwrap();
        let lo = hex_digit_value(s[at + 1]).unwrap();
        let ghost before = bytes@;
        let b: u8 = hi * 16 + lo;
        bytes[k] = b;
        proof {
            assert(bytes@.take(k + 1) =~= before.take(k as int).push(b));
        }
        at = at + 2;
        k = k + 1;
    }
    assert(bytes@.take(16) =~= bytes@);
    proof { lemma_walk_len(text@, at as int, 16); }
    Auid::from_bytes_be(bytes)
}

/// A walk from byte `k` spells `16 - k` bytes.
proof fn lemma_walk_len(s: Seq<char>, at: int, k: int)
    requires
        0 <= k <= 16,
    ensures
        auid_walk(s, at, k) matches Some(b) ==> b.len() == 16 - k,
    decreases 16 - k,
{
    if k < 16 && 0 <= at < s.len() {
        let a = if s[at] == '-' { at + 1 } else { at };
        lemma_walk_len(s, a + 2, k + 1);
    }
}

} // verus!
