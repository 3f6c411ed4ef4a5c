//! The 32-byte identifier AAF uses for mobs.

use vstd::prelude::*;

use crate::auid::{guid_swap, same_bytes, Auid};
use crate::text::{
    ascii_lower, hex_char, occurs_at, trim_end_ws, trim_start_ws,
    all_ascii, ascii_lower_all, ascii_lower_exec, chars_of, hex_bytes, hex_value,
    hex_digit_value, is_all_ascii, push_char, push_hex, push_str, remove_all, remove_all_exec,
    string_from, trim_bounds, trim_ws, without, without_exec,
};

verus! {

/// A MobID: the identifier that names a mob across files.
///
/// A SMPTE ST 330 basic UMID: a 12-byte universal label, a length byte, a
/// three-byte instance number, and a 16-byte material number that is itself
/// an AUID, stored in the AUID's on-disk order.
#[derive(Debug, Clone, Copy, Eq, PartialOrd, Ord, Hash)]
pub struct MobId {
    pub(crate) bytes: [u8; 32],
}

impl View for MobId {
    type V = Seq<u8>;

    /// The 32 bytes as they appear on disk.
    closed spec fn view(&self) -> Seq<u8> {
        self.bytes@
    }
}

impl PartialEq for MobId {
    fn eq(&self, other: &Self) -> (r: bool) {
        same_bytes(&self.bytes, &other.bytes)
    }
}

impl vstd::std_specs::cmp::PartialEqSpecImpl for MobId {
    open spec fn obeys_eq_spec() -> bool {
        true
    }

    open spec fn eq_spec(&self, other: &Self) -> bool {
        self@ == other@
    }
}

/// Whether the material number of the MobID with bytes `b` was written with
/// its two halves swapped, which some applications do: recognised by a zero
/// last label byte and a material number whose second half starts with the
/// SMPTE label prefix `06 0e 2b 34 7f 7f`.
pub open spec fn half_swapped(b: Seq<u8>) -> bool {
    b[11] == 0 && b.subrange(24, 30) == seq![0x06u8, 0x0e, 0x2b, 0x34, 0x7f, 0x7f]
}

/// The URN form of the MobID whose bytes are `b`: `urn:smpte:umid:`, the
/// first sixteen bytes as four dotted groups of four, then the material
/// number in text order as four more, its halves exchanged where the
/// MobID was written with them swapped.
pub open spec fn mob_id_text(b: Seq<u8>) -> Seq<char> {
    let m = guid_swap(b.subrange(16, 32));
    let front = hex_bytes(m.subrange(0, 4)) + seq!['.'] + hex_bytes(m.subrange(4, 8));
    let back = hex_bytes(m.subrange(8, 12)) + seq!['.'] + hex_bytes(m.subrange(12, 16));
    let (first, second) = if half_swapped(b) { (back, front) } else { (front, back) };
    seq!['u', 'r', 'n', ':', 's', 'm', 'p', 't', 'e', ':', 'u', 'm', 'i', 'd', ':']
        + hex_bytes(b.subrange(0, 4)) + seq!['.'] + hex_bytes(b.subrange(4, 8)) + seq!['.']
        + hex_bytes(b.subrange(8, 12)) + seq!['.'] + hex_bytes(b.subrange(12, 16)) + seq!['.']
        + first + seq!['.'] + second
}

/// The value of a pair of characters read as a base-16 `u8` the way std's
/// `u8::from_str_radix` reads it: two digits, or a `+` and one digit.
pub open spec fn radix_pair(c0: char, c1: char) -> Option<int> {
    if c0 == '+' {
        hex_value(c1)
    } else {
        match (hex_value(c0), hex_value(c1)) {
            (Some(h), Some(l)) => Some(16 * h + l),
            _ => None,
        }
    }
}

/// The first `n` bytes of `d` read a pair of characters at a time with
/// [`radix_pair`], or `None` if a pair does not read.
pub open spec fn radix_pairs(d: Seq<char>, n: int) -> Option<Seq<u8>>
    decreases n,
{
    if n <= 0 {
        Some(Seq::empty())
    } else {
        match radix_pairs(d, n - 1) {
            Some(prev) => match radix_pair(d[2 * n - 2], d[2 * n - 1]) {
                Some(v) => Some(prev.push(v as u8)),
                None => None,
            },
            None => None,
        }
    }
}

/// The digits a MobID's text holds once what may surround and separate
/// them is gone: trimmed, lowercased in ASCII, every `urn:smpte:umid:` and
/// then every `0x` removed, and the dots and hyphens dropped.
pub open spec fn mob_id_digits(s: Seq<char>) -> Seq<char> {
    let lowered = ascii_lower_all(trim_ws(s));
    let no_urn = remove_all(lowered, seq!['u', 'r', 'n', ':', 's', 'm', 'p', 't', 'e', ':', 'u', 'm', 'i', 'd', ':']);
    let no_prefix = remove_all(no_urn, seq!['0', 'x']);
    without(without(no_prefix, '.'), '-')
}

/// The bytes of the MobID that `s` spells, if it spells one: 64 ASCII
/// characters of digits, read as 32 bytes in pairs, the last sixteen of them
/// the material number in text order.
pub open spec fn parse_mob_id(s: Seq<char>) -> Option<Seq<u8>> {
    let d = mob_id_digits(s);
    if all_ascii(d) && d.len() == 64 {
        match radix_pairs(d, 32) {
            Some(b) => Some(b.subrange(0, 16) + guid_swap(b.subrange(16, 32))),
            None => None,
        }
    } else {
        None
    }
}

proof fn lemma_radix_pairs_len(d: Seq<char>, n: int)
    requires
        n >= 0,
        radix_pairs(d, n) is Some,
    ensures
        radix_pairs(d, n).unwrap().len() == n,
    decreases n,
{
    if n > 0 {
        lemma_radix_pairs_len(d, n - 1);
    }
}

proof fn lemma_radix_pairs_none_grows(d: Seq<char>, i: int, n: int)
    requires
        0 <= i <= n,
        radix_pairs(d, i) is None,
    ensures
        radix_pairs(d, n) is None,
    decreases n - i,
{
    if i < n {
        lemma_radix_pairs_none_grows(d, i, n - 1);
    }
}

fn radix_pair_exec(c0: char, c1: char) -> (r: Option<u8>)
    ensures
        r matches Some(v) ==> radix_pair(c0, c1) == Some(v as int),
        r is None ==> radix_pair(c0, c1) is None,
{
    if c0 == '+' {
        hex_digit_value(c1)
    } else {
        match (hex_digit_value(c0), hex_digit_value(c1)) {
            (Some(h), Some(l)) => Some(16 * h + l),
            _ => None,
        }
    }
}

/// Whether no character of `s` is one a MobID's text drops or changes
/// within its digits: no `u`, no `x`, and no ASCII capital.
pub open spec fn plain_text(s: Seq<char>) -> bool {
    forall|i: int| 0 <= i < s.len() ==> (#[trigger] s[i]) != 'u' && s[i] != 'x' && !(0x41 <= (s[i] as u32) <= 0x5a)
}

/// Bytes in hexadecimal are plain text.
proof fn lemma_hex_plain(g: Seq<u8>)
    ensures
        plain_text(hex_bytes(g)),
        all_ascii(hex_bytes(g)),
{
    crate::auid::lemma_hex_bytes(g);
    assert forall|j: int| 0 <= j < hex_bytes(g).len() implies (#[trigger] hex_bytes(g)[j]) != 'u'
        && hex_bytes(g)[j] != 'x' && !(0x41 <= (hex_bytes(g)[j] as u32) <= 0x5a) && (hex_bytes(g)[j] as u32) < 0x80 by {
        crate::auid::lemma_hex_char(g[j / 2] as int / 16);
        crate::auid::lemma_hex_char(g[j / 2] as int % 16);
    }
}

/// A text that does not hold a character of `p` holds no occurrence of `p`
/// to remove.
proof fn lemma_remove_absent(s: Seq<char>, p: Seq<char>, k: int)
    requires
        0 <= k < p.len(),
        forall|i: int| 0 <= i < s.len() ==> s[i] != p[k],
    ensures
        remove_all(s, p) == s,
    decreases s.len(),
{
    if s.len() > 0 {
        if occurs_at(s, 0, p) {
            assert(s.subrange(0, p.len() as int)[k] == s[k]);
        }
        lemma_remove_absent(s.drop_first(), p, k);
        assert(seq![s[0]] + s.drop_first() =~= s);
    }
}

/// Digit pairs written for bytes read back as those bytes.
proof fn lemma_radix_pairs_of(s: Seq<u8>, n: int)
    requires
        0 <= n <= s.len(),
    ensures
        radix_pairs(hex_bytes(s), n) == Some(s.take(n)),
    decreases n,
{
    crate::auid::lemma_hex_bytes(s);
    if n > 0 {
        lemma_radix_pairs_of(s, n - 1);
        let d = hex_bytes(s);
        assert(d[2 * n - 1] == hex_char(s[n - 1] as int % 16));
        assert(d[2 * n - 2] == hex_char(s[n - 1] as int / 16));
        crate::auid::lemma_hex_char(s[n - 1] as int / 16);
        crate::auid::lemma_hex_char(s[n - 1] as int % 16);
        assert(s.take(n) =~= s.take(n - 1).push((16 * (s[n - 1] as int / 16) + s[n - 1] as int % 16) as u8));
    }
}

/// The material number of the MobID with bytes `b`, in text order.
pub open spec fn material_text_order(b: Seq<u8>) -> Seq<u8> {
    guid_swap(b.subrange(16, 32))
}

/// The digits and dots a MobID's text holds after `urn:smpte:umid:`, where
/// its material number's halves are in order.
pub open spec fn mob_body(b: Seq<u8>) -> Seq<char> {
    let m = material_text_order(b);
    let dot = seq!['.'];
    hex_bytes(b.subrange(0, 4)) + dot + hex_bytes(b.subrange(4, 8)) + dot + hex_bytes(b.subrange(8, 12)) + dot
        + hex_bytes(b.subrange(12, 16)) + dot + hex_bytes(m.subrange(0, 4)) + dot + hex_bytes(m.subrange(4, 8)) + dot
        + hex_bytes(m.subrange(8, 12)) + dot + hex_bytes(m.subrange(12, 16))
}

/// A MobID's text is its prefix and its body of digits and dots.
#[verifier::spinoff_prover]
proof fn lemma_text_is_prefix_and_body(b: Seq<u8>)
    requires
        b.len() == 32,
        !half_swapped(b),
    ensures
        mob_id_text(b) == seq!['u', 'r', 'n', ':', 's', 'm', 'p', 't', 'e', ':', 'u', 'm', 'i', 'd', ':'] + mob_body(b),
        plain_text(mob_body(b)),
        mob_body(b).len() == 71,
        !crate::text::is_ws(mob_body(b).last()),
{
    let m = material_text_order(b);
    let dot = seq!['.'];
    lemma_hex_plain(b.subrange(0, 4)); lemma_hex_plain(b.subrange(4, 8));
    lemma_hex_plain(b.subrange(8, 12)); lemma_hex_plain(b.subrange(12, 16));
    lemma_hex_plain(m.subrange(0, 4)); lemma_hex_plain(m.subrange(4, 8));
    lemma_hex_plain(m.subrange(8, 12)); lemma_hex_plain(m.subrange(12, 16));
    crate::auid::lemma_hex_bytes(b.subrange(0, 4)); crate::auid::lemma_hex_bytes(b.subrange(4, 8));
    crate::auid::lemma_hex_bytes(b.subrange(8, 12)); crate::auid::lemma_hex_bytes(b.subrange(12, 16));
    crate::auid::lemma_hex_bytes(m.subrange(0, 4)); crate::auid::lemma_hex_bytes(m.subrange(4, 8));
    crate::auid::lemma_hex_bytes(m.subrange(8, 12)); crate::auid::lemma_hex_bytes(m.subrange(12, 16));
    assert(plain_text(dot));
    assert(mob_id_text(b) =~= seq!['u', 'r', 'n', ':', 's', 'm', 'p', 't', 'e', ':', 'u', 'm', 'i', 'd', ':'] + mob_body(b));
    let g7 = m.subrange(12, 16);
    crate::auid::lemma_hex_char(g7[3] as int % 16);
    assert(mob_body(b).last() == hex_bytes(g7)[7]);
}

/// Without its dots, a MobID's body is the digits of its bytes in text
/// order.
#[verifier::spinoff_prover]
#[verifier::rlimit(50)]
proof fn lemma_body_digits(b: Seq<u8>)
    requires
        b.len() == 32,
    ensures
        without(without(mob_body(b), '.'), '-') == hex_bytes(b.subrange(0, 16) + material_text_order(b)),
{
    let m = material_text_order(b);
    let g0 = b.subrange(0, 4);
    let g1 = b.subrange(4, 8);
    let g2 = b.subrange(8, 12);
    let g3 = b.subrange(12, 16);
    let g4 = m.subrange(0, 4);
    let g5 = m.subrange(4, 8);
    let g6 = m.subrange(8, 12);
    let g7 = m.subrange(12, 16);
    let dot = seq!['.'];
    assert(without(dot, '.') =~= Seq::<char>::empty()) by {
        assert(dot.drop_last() =~= Seq::<char>::empty());
        assert(without(Seq::<char>::empty(), '.') =~= Seq::<char>::empty());
    }
    crate::auid::lemma_without_hex_char(g0, '.'); crate::auid::lemma_without_hex_char(g1, '.');
    crate::auid::lemma_without_hex_char(g2, '.'); crate::auid::lemma_without_hex_char(g3, '.');
    crate::auid::lemma_without_hex_char(g4, '.'); crate::auid::lemma_without_hex_char(g5, '.');
    crate::auid::lemma_without_hex_char(g6, '.'); crate::auid::lemma_without_hex_char(g7, '.');
    let a1 = hex_bytes(g0) + dot;
    let a2 = a1 + hex_bytes(g1);
    let a3 = a2 + dot;
    let a4 = a3 + hex_bytes(g2);
    let a5 = a4 + dot;
    let a6 = a5 + hex_bytes(g3);
    let a7 = a6 + dot;
    let a8 = a7 + hex_bytes(g4);
    let a9 = a8 + dot;
    let a10 = a9 + hex_bytes(g5);
    let a11 = a10 + dot;
    let a12 = a11 + hex_bytes(g6);
    let a13 = a12 + dot;
    crate::auid::lemma_without_append(hex_bytes(g0), dot, '.');
    crate::auid::lemma_without_append(a1, hex_bytes(g1), '.');
    crate::auid::lemma_without_append(a2, dot, '.');
    crate::auid::lemma_without_append(a3, hex_bytes(g2), '.');
    crate::auid::lemma_without_append(a4, dot, '.');
    crate::auid::lemma_without_append(a5, hex_bytes(g3), '.');
    crate::auid::lemma_without_append(a6, dot, '.');
    crate::auid::lemma_without_append(a7, hex_bytes(g4), '.');
    crate::auid::lemma_without_append(a8, dot, '.');
    crate::auid::lemma_without_append(a9, hex_bytes(g5), '.');
    crate::auid::lemma_without_append(a10, dot, '.');
    crate::auid::lemma_without_append(a11, hex_bytes(g6), '.');
    crate::auid::lemma_without_append(a12, dot, '.');
    crate::auid::lemma_without_append(a13, hex_bytes(g7), '.');
    assert(mob_body(b) == a13 + hex_bytes(g7));
    let bt = b.subrange(0, 16) + m;
    crate::auid::lemma_hex_bytes_append(g0, g1);
    crate::auid::lemma_hex_bytes_append(g0 + g1, g2);
    crate::auid::lemma_hex_bytes_append(g0 + g1 + g2, g3);
    crate::auid::lemma_hex_bytes_append(g0 + g1 + g2 + g3, g4);
    crate::auid::lemma_hex_bytes_append(g0 + g1 + g2 + g3 + g4, g5);
    crate::auid::lemma_hex_bytes_append(g0 + g1 + g2 + g3 + g4 + g5, g6);
    crate::auid::lemma_hex_bytes_append(g0 + g1 + g2 + g3 + g4 + g5 + g6, g7);
    assert(g0 + g1 + g2 + g3 + g4 + g5 + g6 + g7 =~= bt);
    assert(without(mob_body(b), '.') =~= hex_bytes(g0) + hex_bytes(g1) + hex_bytes(g2) + hex_bytes(g3)
        + hex_bytes(g4) + hex_bytes(g5) + hex_bytes(g6) + hex_bytes(g7));
    crate::auid::lemma_without_hex_char(bt, '-');
}

/// The digits of a MobID's text are the digits of its body.
#[verifier::spinoff_prover]
proof fn lemma_text_digits(b: Seq<u8>)
    requires
        b.len() == 32,
        !half_swapped(b),
    ensures
        mob_id_digits(mob_id_text(b)) == without(without(mob_body(b), '.'), '-'),
{
    lemma_text_is_prefix_and_body(b);
    let pre = seq!['u', 'r', 'n', ':', 's', 'm', 'p', 't', 'e', ':', 'u', 'm', 'i', 'd', ':'];
    let body = mob_body(b);
    let t = mob_id_text(b);
    assert(t[0] == 'u');
    assert(t.last() == body.last());
    assert(trim_start_ws(t) == t);
    assert(trim_end_ws(t) == t);
    assert(trim_ws(t) == t);
    assert(ascii_lower_all(t) =~= t) by {
        assert forall|i: int| 0 <= i < t.len() implies #[trigger] ascii_lower(t[i]) == t[i] by {
            if i >= 15 { assert(t[i] == body[i - 15]); }
        }
    }
    assert(occurs_at(t, 0, pre)) by {
        assert(t.subrange(0, 15) =~= pre);
    }
    assert(t.skip(15) =~= body);
    lemma_remove_absent(body, pre, 0);
    assert(remove_all(t, pre) == body);
    lemma_remove_absent(body, seq!['0', 'x'], 1);
}

/// A MobID's text reads back as the MobID: `MobId::parse(&m.to_string())`
/// is `m`, where its material number was not written with its halves
/// swapped (those read back with the halves put right). In particular the
/// material number is printed as its AUID's text, big-endian.
pub proof fn lemma_mob_id_text_round_trip(b: Seq<u8>)
    requires
        b.len() == 32,
        !half_swapped(b),
    ensures
        parse_mob_id(mob_id_text(b)) == Some(b),
{
    let m = material_text_order(b);
    crate::auid::lemma_guid_swap_twice(b.subrange(16, 32));
    let bt = b.subrange(0, 16) + m;
    lemma_text_digits(b);
    lemma_body_digits(b);
    assert(mob_id_digits(mob_id_text(b)) == hex_bytes(bt));
    lemma_hex_plain(bt);
    crate::auid::lemma_hex_bytes(bt);
    lemma_radix_pairs_of(bt, 32);
    assert(bt.take(32) =~= bt);
    assert(bt.subrange(0, 16) =~= b.subrange(0, 16));
    assert(bt.subrange(16, 32) =~= m);
    assert(b.subrange(0, 16) + b.subrange(16, 32) =~= b);
}

impl MobId {
    /// The all-zero MobID, which AAF uses to mean "no mob".
    pub fn nil() -> (r: Self)
        ensures
            r@ == Seq::new(32, |_i: int| 0u8),
    {
        let r = Self { bytes: [0u8; 32] };
        assert(r@ =~= Seq::new(32, |_i: int| 0u8));
        r
    }

    /// Builds a MobID from its 32 bytes as they appear on disk.
    pub fn from_bytes(bytes: [u8; 32]) -> (r: Self)
        ensures
            r@ == bytes@,
    {
        Self { bytes }
    }

    /// The 32 bytes as they appear on disk.
    pub fn to_bytes(self) -> (r: [u8; 32])
        ensures
            r@ == self@,
    {
        self.bytes
    }

    /// Whether this is the all-zero MobID.
    pub fn is_nil(self) -> (r: bool)
        ensures
            r == (forall|i: int| 0 <= i < 32 ==> self@[i] == 0),
    {
        let mut i: usize = 0;
        while i < 32
            invariant
                i <= 32,
                forall|j: int| 0 <= j < i ==> self@[j] == 0,
            decreases 32 - i,
        {
            if self.bytes[i] != 0 {
                assert(self@[i as int] != 0);
                return false;
            }
            i = i + 1;
        }
        true
    }

    /// The 12-byte SMPTE universal label.
    pub fn smpte_label(self) -> (r: [u8; 12])
        ensures
            r@ == self@.subrange(0, 12),
    {
        let b = self.bytes;
        let r = [b[0], b[1], b[2], b[3], b[4], b[5], b[6], b[7], b[8], b[9], b[10], b[11]];
        assert(r@ =~= self@.subrange(0, 12));
        r
    }

    /// The length byte: `0x13` for a basic UMID.
    pub fn length(self) -> (r: u8)
        ensures
            r == self@[12],
    {
        self.bytes[12]
    }

    /// The three-byte instance number, most significant byte first.
    pub fn instance(self) -> (r: [u8; 3])
        ensures
            r@ == self@.subrange(13, 16),
    {
        let r = [self.bytes[13], self.bytes[14], self.bytes[15]];
        assert(r@ =~= self@.subrange(13, 16));
        r
    }

    /// The 16-byte material number, which is an AUID.
    pub fn material(self) -> (r: Auid)
        ensures
            r@ == self@.subrange(16, 32),
    {
        let b = self.bytes;
        let m = [
            b[16], b[17], b[18], b[19], b[20], b[21], b[22], b[23], b[24], b[25], b[26], b[27],
            b[28], b[29], b[30], b[31],
        ];
        assert(m@ =~= self@.subrange(16, 32));
        Auid::from_bytes_le(m)
    }

    /// The URN form, `urn:smpte:umid:` followed by eight dotted groups.
    ///
    /// A MobID whose material number was written with its halves swapped is
    /// rendered the way it was written, so it matches what the application
    /// that made it prints.
    pub fn to_string(&self) -> (r: String)
        ensures
            r@ == mob_id_text(self@),
    {
        let b = self.bytes;
        let m = self.material().to_bytes_be();
        let mut out = string_from(&['u', 'r', 'n', ':', 's', 'm', 'p', 't', 'e', ':', 'u', 'm', 'i', 'd', ':']);
        push_hex(&mut out, &b, 0, 4);
        push_char(&mut out, '.');
        push_hex(&mut out, &b, 4, 8);
        push_char(&mut out, '.');
        push_hex(&mut out, &b, 8, 12);
        push_char(&mut out, '.');
        push_hex(&mut out, &b, 12, 16);
        push_char(&mut out, '.');
        let swapped = b[11] == 0 && b[24] == 0x06 && b[25] == 0x0e && b[26] == 0x2b
            && b[27] == 0x34 && b[28] == 0x7f && b[29] == 0x7f;
        proof {
            let s = self@.subrange(24, 30);
            let label = seq![0x06u8, 0x0e, 0x2b, 0x34, 0x7f, 0x7f];
            if swapped {
                assert(s =~= label);
            } else if self@[11] == 0 {
                assert(s != label) by {
                    if s == label {
                        assert(s[0] == label[0] && s[1] == label[1] && s[2] == label[2]);
                        assert(s[3] == label[3] && s[4] == label[4] && s[5] == label[5]);
                    }
                }
            }
            assert(swapped == half_swapped(self@));
        }
        let (f1, f2, s1, s2) = if swapped { (8, 12, 0, 4) } else { (0, 4, 8, 12) };
        push_hex(&mut out, &m, f1, f2);
        push_char(&mut out, '.');
        push_hex(&mut out, &m, f2, f2 + 4);
        push_char(&mut out, '.');
        push_hex(&mut out, &m, s1, s2);
        push_char(&mut out, '.');
        push_hex(&mut out, &m, s2, s2 + 4);
        proof {
            assert(out@ =~= mob_id_text(self@));
        }
        out
    }

    /// Parses the URN form, with the `urn:smpte:umid:` prefix, `0x`
    /// prefixes, and the dots or hyphens between groups all optional.
    pub fn parse(s: &str) -> (r: Result<Self, ParseMobIdError>)
        ensures
            r matches Ok(m) ==> parse_mob_id(s@) == Some(m@),
            r matches Err(e) ==> parse_mob_id(s@) is None && e.input@ == s@,
    {
        let err = ParseMobIdError { input: s.to_owned() };
        let cs = chars_of(s);
        let (a, b) = trim_bounds(&cs);
        let lowered = ascii_lower_exec(&cs, a, b);
        let urn = ['u', 'r', 'n', ':', 's', 'm', 'p', 't', 'e', ':', 'u', 'm', 'i', 'd', ':'];
        let zero_x = ['0', 'x'];
        assert(urn@ =~= seq!['u', 'r', 'n', ':', 's', 'm', 'p', 't', 'e', ':', 'u', 'm', 'i', 'd', ':']);
        assert(zero_x@ =~= seq!['0', 'x']);
        let no_urn = remove_all_exec(&lowered, &urn);
        let no_prefix = remove_all_exec(&no_urn, &zero_x);
        let no_dots = without_exec(&no_prefix, 0, no_prefix.len(), '.');
        let d = without_exec(&no_dots, 0, no_dots.len(), '-');
        proof {
            assert(no_prefix@.subrange(0, no_prefix@.len() as int) =~= no_prefix@);
            assert(no_dots@.subrange(0, no_dots@.len() as int) =~= no_dots@);
            assert(d@ == mob_id_digits(s@));
        }
        if !is_all_ascii(&d) || d.len() != 64 {
            return Err(err);
        }
        let mut bytes: Vec<u8> = Vec::new();
        let mut i: usize = 0;
        while i < 32
            invariant
                i <= 32,
                d@.len() == 64,
                d@ == mob_id_digits(s@),
                all_ascii(d@),
                err.input@ == s@,
                radix_pairs(d@, i as int) == Some(bytes@),
            decreases 32 - i,
        {
            match radix_pair_exec(d[2 * i], d[2 * i + 1]) {
                Some(v) => bytes.push(v),
                None => {
                    assert(radix_pairs(d@, i + 1) is None);
                    proof { lemma_radix_pairs_none_grows(d@, i + 1, 32); }
                    return Err(err);
                },
            }
            i = i + 1;
        }
        proof { lemma_radix_pairs_len(d@, 32); }
        let material = Auid::from_bytes_be([
            bytes[16], bytes[17], bytes[18], bytes[19], bytes[20], bytes[21], bytes[22], bytes[23],
            bytes[24], bytes[25], bytes[26], bytes[27], bytes[28], bytes[29], bytes[30], bytes[31],
        ]).to_bytes_le();
        let arr = [
            bytes[0], bytes[1], bytes[2], bytes[3], bytes[4], bytes[5], bytes[6], bytes[7],
            bytes[8], bytes[9], bytes[10], bytes[11], bytes[12], bytes[13], bytes[14], bytes[15],
            material[0], material[1], material[2], material[3], material[4], material[5],
            material[6], material[7], material[8], material[9], material[10], material[11],
            material[12], material[13], material[14], material[15],
        ];
        proof {
            assert(bytes@.subrange(16, 32) =~= seq![
                bytes@[16], bytes@[17], bytes@[18], bytes@[19], bytes@[20], bytes@[21], bytes@[22], bytes@[23],
                bytes@[24], bytes@[25], bytes@[26], bytes@[27], bytes@[28], bytes@[29], bytes@[30], bytes@[31],
            ]);
            assert(arr@ =~= bytes@.subrange(0, 16) + guid_swap(bytes@.subrange(16, 32)));
        }
        Ok(Self { bytes: arr })
    }
}

/// The error returned when a string is not a well-formed MobID.
#[derive(Debug, Clone, PartialEq, Eq)]
pub struct ParseMobIdError {
    /// The rejected string.
    pub input: String,
}

impl ParseMobIdError {
    /// The message describing the error.
    pub fn to_string(&self) -> (r: String)
        ensures
            r@ == seq!['b', 'a', 'd', 'l', 'y', ' ', 'f', 'o', 'r', 'm', 'e', 'd', ' ', 'M', 'o', 'b',
                'I', 'D', ' ', 's', 't', 'r', 'i', 'n', 'g', ':', ' ', '\''] + self.input@ + seq!['\''],
    {
        let mut out = string_from(&['b', 'a', 'd', 'l', 'y', ' ', 'f', 'o', 'r', 'm', 'e', 'd', ' ',
            'M', 'o', 'b', 'I', 'D', ' ', 's', 't', 'r', 'i', 'n', 'g', ':', ' ', '\'']);
        push_str(&mut out, &self.input);
        push_char(&mut out, '\'');
        out
    }
}

impl std::str::FromStr for MobId {
    type Err = ParseMobIdError;

    /// Parses the URN form; see [`MobId::parse`].
    fn from_str(s: &str) -> (r: Result<Self, Self::Err>)
        ensures
            r matches Ok(m) ==> parse_mob_id(s@) == Some(m@),
            r matches Err(e) ==> parse_mob_id(s@) is None && e.input@ == s@,
    {
        Self::parse(s)
    }
}

} // verus!
