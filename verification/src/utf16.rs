//! Decoding the UTF-16LE strings AAF and its container store.

use vstd::prelude::*;

use crate::bytes::{le16, read_u16};
use crate::text::{char_from_u32, replacement, string_from};

verus! {

/// The 16-bit units of `d`, two bytes each, little-endian; a trailing odd
/// byte is not a unit.
pub open spec fn le_units(d: Seq<u8>) -> Seq<u16> {
    Seq::new((d.len() / 2) as nat, |i: int| le16(d, 2 * i) as u16)
}

/// The units before the first NUL, or all of them if there is none.
pub open spec fn before_nul(u: Seq<u16>) -> Seq<u16>
    decreases u.len(),
{
    if u.len() == 0 {
        u
    } else if u[0] == 0 {
        Seq::empty()
    } else {
        seq![u[0]] + before_nul(u.drop_first())
    }
}

/// Whether a unit is a high (leading) surrogate.
pub open spec fn is_high(u: u16) -> bool {
    0xd800 <= u <= 0xdbff
}

/// Whether a unit is a low (trailing) surrogate.
pub open spec fn is_low(u: u16) -> bool {
    0xdc00 <= u <= 0xdfff
}

/// std's `char::decode_utf16`, with every unpaired surrogate replaced by the
/// replacement character: a high surrogate followed by a low one is one
/// character, any other surrogate is one replacement character, and every
/// other unit is the character with that code.
pub open spec fn decode_utf16(u: Seq<u16>) -> Seq<char>
    decreases u.len(),
{
    if u.len() == 0 {
        Seq::empty()
    } else if !(0xd800 <= u[0] <= 0xdfff) {
        seq![u[0] as char] + decode_utf16(u.drop_first())
    } else if is_high(u[0]) && u.len() >= 2 && is_low(u[1]) {
        seq![(0x10000 + (u[0] - 0xd800) * 0x400 + (u[1] - 0xdc00)) as char]
            + decode_utf16(u.skip(2))
    } else {
        seq![replacement()] + decode_utf16(u.drop_first())
    }
}

/// A NUL-terminated UTF-16LE string, as the format stores names.
pub open spec fn utf16_text(d: Seq<u8>) -> Seq<char> {
    decode_utf16(before_nul(le_units(d)))
}

/// The units of `d` before the first NUL.
fn units_before_nul(data: &[u8]) -> (r: Vec<u16>)
    ensures
        r@ == before_nul(le_units(data@)),
{
    let mut out: Vec<u16> = Vec::new();
    let mut i: usize = 0;
    let n = data.len() / 2;
    proof {
        assert(le_units(data@).skip(0) =~= le_units(data@));
    }
    while i < n
        invariant
            n == data.len() / 2,
            i <= n,
            out@ + before_nul(le_units(data@).skip(i as int)) == before_nul(le_units(data@)),
        decreases n - i,
    {
        let u = read_u16(data, 2 * i);
        let ghost rest = le_units(data@).skip(i as int);
        assert(rest[0] == u);
        if u == 0 {
            assert(out@ + Seq::<u16>::empty() =~= out@);
            return out;
        }
        assert(rest.drop_first() =~= le_units(data@).skip(i + 1));
        assert(out@.push(u) + before_nul(rest.drop_first()) =~= out@ + (seq![u] + before_nul(rest.drop_first())));
        out.push(u);
        i = i + 1;
    }
    assert(le_units(data@).skip(i as int) =~= Seq::<u16>::empty());
    assert(out@ + Seq::<u16>::empty() =~= out@);
    out
}

/// Decodes UTF-16 units, replacing unpaired surrogates.
pub fn decode_units(u: &[u16]) -> (r: Vec<char>)
    ensures
        r@ == decode_utf16(u@),
{
    let mut out: Vec<char> = Vec::new();
    let mut i: usize = 0;
    assert(u@.skip(0) =~= u@);
    while i < u.len()
        invariant
            i <= u.len(),
            out@ + decode_utf16(u@.skip(i as int)) == decode_utf16(u@),
        decreases u.len() - i,
    {
        let a = u[i];
        let ghost rest = u@.skip(i as int);
        assert(rest[0] == a);
        if a < 0xd800 || a > 0xdfff {
            let c = char_from_u32(a as u32);
            let c = match c {
                Some(c) => c,
                None => { return out; },
            };
            proof { vstd::utf8::char_u32_cast(c, a as u32); }
            assert(rest.drop_first() =~= u@.skip(i + 1));
            assert(out@.push(c) + decode_utf16(u@.skip(i + 1)) =~= out@ + (seq![c] + decode_utf16(rest.drop_first())));
            out.push(c);
            i = i + 1;
        } else if a <= 0xdbff && i + 1 < u.len() && 0xdc00 <= u[i + 1] && u[i + 1] <= 0xdfff {
            let b = u[i + 1];
            assert(rest[1] == b);
            let v: u32 = 0x10000 + (a as u32 - 0xd800) * 0x400 + (b as u32 - 0xdc00);
            let c = match char_from_u32(v) {
                Some(c) => c,
                None => { return out; },
            };
            proof { vstd::utf8::char_u32_cast(c, v); }
            assert(rest.skip(2) =~= u@.skip(i + 2));
            assert(out@.push(c) + decode_utf16(u@.skip(i + 2)) =~= out@ + (seq![c] + decode_utf16(rest.skip(2))));
            out.push(c);
            i = i + 2;
        } else {
            let c = '\u{fffd}';
            assert(rest.drop_first() =~= u@.skip(i + 1));
            assert(out@.push(c) + decode_utf16(u@.skip(i + 1)) =~= out@ + (seq![c] + decode_utf16(rest.drop_first())));
            out.push(c);
            i = i + 1;
        }
    }
    assert(u@.skip(i as int) =~= Seq::<u16>::empty());
    assert(out@ + Seq::<char>::empty() =~= out@);
    out
}

/// Decodes a NUL-terminated UTF-16LE string.
///
/// The string ends at the first NUL, so a buffer that includes the terminator
/// and one that does not decode the same. A trailing odd byte is ignored, and
/// unpaired surrogates become the replacement character rather than an
/// error: a name a Windows application wrote is worth reading even if it is
/// not valid Unicode.
pub fn decode_le(data: &[u8]) -> (r: String)
    ensures
        r@ == utf16_text(data@),
{
    let units = units_before_nul(data);
    let chars = decode_units(&units);
    string_from(&chars)
}

} // verus!
