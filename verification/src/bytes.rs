//! Little-endian integers in byte buffers.

use vstd::prelude::*;

verus! {

/// The value of the little-endian `u16` at `at` in `s`.
pub open spec fn le16(s: Seq<u8>, at: int) -> int {
    s[at] + 256 * s[at + 1]
}

/// The value of the little-endian `u32` at `at` in `s`.
pub open spec fn le32(s: Seq<u8>, at: int) -> int {
    le16(s, at) + 65536 * le16(s, at + 2)
}

/// The value of the little-endian `u64` at `at` in `s`.
pub open spec fn le64(s: Seq<u8>, at: int) -> int {
    le32(s, at) + 4294967296 * le32(s, at + 4)
}

/// Reads the little-endian `u16` at `at`.
pub fn read_u16(data: &[u8], at: usize) -> (r: u16)
    requires
        at + 2 <= data.len(),
    ensures
        r as int == le16(data@, at as int),
{
    data[at] as u16 + (data[at + 1] as u16) * 256
}

/// Reads the little-endian `u32` at `at`.
pub fn read_u32(data: &[u8], at: usize) -> (r: u32)
    requires
        at + 4 <= data.len(),
    ensures
        r as int == le32(data@, at as int),
{
    let lo = read_u16(data, at) as u32;
    let hi = read_u16(data, at + 2) as u32;
    lo + hi * 65536
}

/// Reads the little-endian `u64` at `at`.
pub fn read_u64(data: &[u8], at: usize) -> (r: u64)
    requires
        at + 8 <= data.len(),
    ensures
        r as int == le64(data@, at as int),
{
    let lo = read_u32(data, at) as u64;
    let hi = read_u32(data, at + 4) as u64;
    lo + hi * 4294967296
}


/// The 16 bytes at `at`, as an array.
pub fn array16(data: &[u8], at: usize) -> (r: [u8; 16])
    requires
        at + 16 <= data.len(),
    ensures
        r@ == data@.subrange(at as int, at + 16),
{
    let mut out = [0u8; 16];
    let mut i: usize = 0;
    while i < 16
        invariant
            i <= 16,
            at + 16 <= data.len(),
            forall|j: int| 0 <= j < i ==> out@[j] == data@[at + j],
        decreases 16 - i,
    {
        out[i] = data[at + i];
        i = i + 1;
    }
    assert(out@ =~= data@.subrange(at as int, at + 16));
    out
}

/// The 32 bytes at `at`, as an array.
pub fn array32(data: &[u8], at: usize) -> (r: [u8; 32])
    requires
        at + 32 <= data.len(),
    ensures
        r@ == data@.subrange(at as int, at + 32),
{
    let mut out = [0u8; 32];
    let mut i: usize = 0;
    while i < 32
        invariant
            i <= 32,
            at + 32 <= data.len(),
            forall|j: int| 0 <= j < i ==> out@[j] == data@[at + j],
        decreases 32 - i,
    {
        out[i] = data[at + i];
        i = i + 1;
    }
    assert(out@ =~= data@.subrange(at as int, at + 32));
    out
}

/// Two to the power `n`.
pub open spec fn pow2(n: nat) -> nat
    decreases n,
{
    if n == 0 {
        1
    } else {
        2 * pow2((n - 1) as nat)
    }
}

/// Powers of two below 32 fit in a `u32`.
pub proof fn lemma_pow2_bound(n: nat)
    requires
        n < 32,
    ensures
        1 <= pow2(n) <= 0x8000_0000,
{
    lemma_pow2_mono(n, 31);
    assert(pow2(31) == 0x8000_0000) by {
        reveal_with_fuel(pow2, 32);
    }
    lemma_pow2_mono(0, n);
}

/// Powers of two grow with the exponent.
pub proof fn lemma_pow2_mono(a: nat, b: nat)
    requires
        a <= b,
    ensures
        pow2(a) <= pow2(b),
    decreases b,
{
    if a < b {
        lemma_pow2_mono(a, (b - 1) as nat);
    }
}

/// std's `1u32.checked_shl(n)`: two to the power `n`, or none if `n` is 32
/// or more.
pub fn shl_one(n: u32) -> (r: Option<u32>)
    ensures
        r matches Some(v) ==> n < 32 && v == pow2(n as nat),
        r is None ==> n >= 32,
{
    if n >= 32 {
        return None;
    }
    let mut v: u32 = 1;
    let mut i: u32 = 0;
    while i < n
        invariant
            i <= n < 32,
            v == pow2(i as nat),
        decreases n - i,
    {
        proof { lemma_pow2_bound((i + 1) as nat); }
        v = v * 2;
        i = i + 1;
    }
    Some(v)
}

} // verus!
