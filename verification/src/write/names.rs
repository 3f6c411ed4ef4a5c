//! The names a property's storages and index streams are given.

use vstd::prelude::*;

use crate::text::{chars_of, hex_number, push_char, push_hex_padded, push_str, string_from, zero_padded};

verus! {

/// A name cut to `size` characters by keeping its two ends, with a hyphen
/// where the middle was; a name that fits is kept whole.
pub open spec fn squeezed(name: Seq<char>, size: nat) -> Seq<char> {
    if name.len() <= size {
        name
    } else {
        Seq::new(size, |i: int| if i < size / 2 { name[i] } else if i == size / 2 { '-' } else { name[name.len() - (size - i)] })
    }
}

/// A name cut to `size` characters by keeping its two ends and putting a
/// hyphen between them.
pub fn squeeze(name: &str, size: usize) -> (r: String)
    ensures
        r@ == squeezed(name@, size as nat),
        r@.len() <= size || r@ == name@,
{
    let chars = chars_of(name);
    let n = chars.len();
    if n <= size {
        let out = string_from(chars.as_slice());
        return out;
    }
    let half = size / 2;
    let mut out: Vec<char> = Vec::new();
    let mut i: usize = 0;
    while i < size
        invariant
            n == chars@.len(),
            chars@ == name@,
            size < n,
            half == size / 2,
            i <= size,
            out@ =~= squeezed(name@, size as nat).take(i as int),
        decreases size - i,
    {
        let c = if i < half { chars[i] } else if i == half { '-' } else { chars[n - (size - i)] };
        out.push(c);
        assert(out@ =~= squeezed(name@, size as nat).take(i + 1));
        i = i + 1;
    }
    assert(squeezed(name@, size as nat).take(size as int) =~= squeezed(name@, size as nat));
    string_from(out.as_slice())
}

/// The name a property's storage or index is given: `name-pid`, the pid in
/// lowercase hexadecimal, squeezed to at most `size` characters.
pub open spec fn mangled(name: Seq<char>, pid: u16, size: nat) -> Seq<char> {
    let hex = hex_number(pid as nat);
    squeezed(name, (size - hex.len() - 2) as nat) + "-"@ + hex
}

/// The name a property's storage or index is given: `name-pid` in at most
/// `size` characters.
pub fn mangle(name: &str, pid: u16, size: usize) -> (r: String)
    requires
        size >= hex_number(pid as nat).len() + 2,
    ensures
        r@ == mangled(name@, pid, size as nat),
{
    let mut hex = String::new();
    push_hex_padded(&mut hex, pid as u64, 0);
    assert(hex@ =~= hex_number(pid as nat));
    let max = size - hex.unicode_len() - 2;
    let mut out = squeeze(name, max);
    push_str(&mut out, "-");
    push_str(&mut out, hex.as_str());
    out
}

} // verus!
