//! The 16-byte identifier AAF uses for classes, types, properties and objects.

use vstd::prelude::*;

use crate::bytes::{le16, le32, read_u16, read_u32};
use crate::text::{hex_byte, hex_char, hex_value, is_ws, occurs_at, trim_end_ws, trim_start_ws};
use crate::text::{
    chars_of, copy_range, hex_bytes, hex_pairs, hex_pairs_exec, push_char, push_hex, push_str,
    strip_prefixes, strip_prefixes_exec, strip_suffixes, strip_suffixes_exec, string_from, trim_bounds,
    trim_ws, without, without_exec,
};

verus! {

/// A 16-byte AAF identifier.
///
/// AAF calls these AUIDs. Their value is a UUID, but they are stored in the
/// little-endian "GUID" layout Microsoft's COM uses: `Data1` as a
/// little-endian `u32`, `Data2` and `Data3` as little-endian `u16`s, and
/// `Data4` as eight bytes in order. The text form is the usual big-endian
/// UUID rendering, so the bytes on disk are not in the order the text
/// suggests. This type holds the on-disk bytes and converts on the way in
/// and out.
///
/// SMPTE Universal Labels, 16 bytes with no swapping at all, are carried by
/// the same type; the caller decides which reading applies.
#[derive(Debug, Clone, Copy, Eq, PartialOrd, Ord, Hash, Default)]
pub struct Auid {
    /// The 16 bytes in AAF's on-disk little-endian order.
    pub(crate) bytes_le: [u8; 16],
}

impl View for Auid {
    type V = Seq<u8>;

    /// The 16 bytes as they appear on disk.
    closed spec fn view(&self) -> Seq<u8> {
        self.bytes_le@
    }
}

/// The AUID whose bytes on disk are `s`.
pub open spec fn auid_of(s: Seq<u8>) -> Auid {
    choose|a: Auid| a@ == s
}

/// An AUID is its bytes: two with the same bytes are the same.
pub proof fn lemma_auid_of(a: Auid)
    ensures
        auid_of(a@) == a,
{
    let b = auid_of(a@);
    assert(exists|x: Auid| x@ == a@);
    assert(b@ == a@);
    assert(b.bytes_le =~= a.bytes_le) by {
        assert(forall|i: int| 0 <= i < 16 ==> b.bytes_le@[i] == a.bytes_le@[i]);
    }
}

/// Whether two byte arrays hold the same bytes.
pub(crate) fn same_bytes(a: &[u8], b: &[u8]) -> (r: bool)
    ensures
        r == (a@ == b@),
{
    if a.len() != b.len() {
        return false;
    }
    let mut i: usize = 0;
    while i < a.len()
        invariant
            i <= a.len() == b.len(),
            forall|j: int| 0 <= j < i ==> a@[j] == b@[j],
        decreases a.len() - i,
    {
        if a[i] != b[i] {
            return false;
        }
        i = i + 1;
    }
    assert(a@ =~= b@);
    true
}

impl PartialEq for Auid {
    fn eq(&self, other: &Self) -> (r: bool) {
        same_bytes(&self.bytes_le, &other.bytes_le)
    }
}

impl vstd::std_specs::cmp::PartialEqSpecImpl for Auid {
    open spec fn obeys_eq_spec() -> bool {
        true
    }

    open spec fn eq_spec(&self, other: &Self) -> bool {
        self@ == other@
    }
}

/// Swaps between the on-disk order and the text order: the first group of
/// four bytes and the next two groups of two are reversed, the last eight
/// stay. The swap is its own inverse.
pub open spec fn guid_swap(b: Seq<u8>) -> Seq<u8> {
    seq![b[3], b[2], b[1], b[0], b[5], b[4], b[7], b[6]] + b.subrange(8, 16)
}

/// The text form of the AUID whose on-disk bytes are `le`: the big-endian
/// bytes in lowercase hexadecimal, grouped 4-2-2-2-6 by hyphens.
pub open spec fn auid_text(le: Seq<u8>) -> Seq<char> {
    let b = guid_swap(le);
    hex_bytes(b.subrange(0, 4)) + seq!['-'] + hex_bytes(b.subrange(4, 6)) + seq!['-']
        + hex_bytes(b.subrange(6, 8)) + seq!['-'] + hex_bytes(b.subrange(8, 10)) + seq!['-']
        + hex_bytes(b.subrange(10, 16))
}

/// The text `s` with what the AUID syntax lets surround the digits taken
/// off: white space, then any `urn:` and `uuid:` prefixes, then braces.
pub open spec fn auid_core(s: Seq<char>) -> Seq<char> {
    strip_suffixes(
        strip_prefixes(
            strip_prefixes(strip_prefixes(trim_ws(s), seq!['u', 'r', 'n', ':']), seq!['u', 'u', 'i', 'd', ':']),
            seq!['{'],
        ),
        seq!['}'],
    )
}

/// The on-disk bytes of the AUID that `s` spells, if it spells one: after the
/// surroundings and every hyphen are removed, exactly 32 hexadecimal digits
/// in either case, read as the big-endian bytes.
pub open spec fn parse_auid(s: Seq<char>) -> Option<Seq<u8>> {
    let d = without(auid_core(s), '-');
    if d.len() == 32 {
        match hex_pairs(d, 16) {
            Some(be) => Some(guid_swap(be)),
            None => None,
        }
    } else {
        None
    }
}

/// Swapping twice gives back what was swapped.
pub proof fn lemma_guid_swap_twice(b: Seq<u8>)
    requires
        b.len() == 16,
    ensures
        guid_swap(guid_swap(b)) == b,
        guid_swap(b).len() == 16,
{
    assert(guid_swap(guid_swap(b)) =~= b);
}

/// Hexadecimal digit pairs decode to as many bytes as were asked for.
pub proof fn lemma_hex_pairs_len(d: Seq<char>, n: int)
    requires
        n >= 0,
        hex_pairs(d, n) is Some,
    ensures
        hex_pairs(d, n).unwrap().len() == n,
    decreases n,
{
    if n > 0 {
        lemma_hex_pairs_len(d, n - 1);
    }
}

/// A hexadecimal digit reads back as the value it was written for, and is
/// none of the characters the AUID syntax strips or skips.
pub(crate) proof fn lemma_hex_char(x: int)
    requires
        0 <= x < 16,
    ensures
        hex_value(hex_char(x)) == Some(x),
        hex_char(x) != '.',
        hex_char(x) != 'x',
        hex_char(x) != '+',
        (hex_char(x) as u32) < 0x80,
        !(0x41 <= (hex_char(x) as u32) <= 0x5a),
        hex_char(x) != '-',
        hex_char(x) != 'u',
        hex_char(x) != '{',
        hex_char(x) != '}',
        !is_ws(hex_char(x)),
{
}

/// Bytes written in hexadecimal are two digits each, in order.
pub(crate) proof fn lemma_hex_bytes(s: Seq<u8>)
    ensures
        hex_bytes(s).len() == 2 * s.len(),
        forall|j: int| 0 <= j < 2 * s.len() ==> #[trigger] hex_bytes(s)[j]
            == if j % 2 == 0 { hex_char(s[j / 2] as int / 16) } else { hex_char(s[j / 2] as int % 16) },
    decreases s.len(),
{
    if s.len() > 0 {
        let init = s.drop_last();
        lemma_hex_bytes(init);
        let whole = hex_bytes(s);
        assert(whole == hex_bytes(init) + hex_byte(s.last()));
        assert forall|j: int| 0 <= j < 2 * s.len() implies #[trigger] whole[j]
            == if j % 2 == 0 { hex_char(s[j / 2] as int / 16) } else { hex_char(s[j / 2] as int % 16) } by {
            if j < 2 * s.len() - 2 {
                assert(init[j / 2] == s[j / 2]);
                assert(whole[j] == hex_bytes(init)[j]);
            } else {
                assert(j / 2 == s.len() - 1);
                assert(whole[j] == hex_byte(s.last())[j - (2 * s.len() - 2)]);
            }
        }
    }
}

/// Digit pairs written for bytes read back as those bytes.
proof fn lemma_hex_pairs_of(s: Seq<u8>, n: int)
    requires
        0 <= n <= s.len(),
    ensures
        hex_pairs(hex_bytes(s), n) == Some(s.take(n)),
    decreases n,
{
    lemma_hex_bytes(s);
    if n > 0 {
        lemma_hex_pairs_of(s, n - 1);
        let d = hex_bytes(s);
        assert(d[2 * n - 1] == hex_char(s[n - 1] as int % 16));
        assert(d[2 * n - 2] == hex_char(s[n - 1] as int / 16));
        lemma_hex_char(s[n - 1] as int / 16);
        lemma_hex_char(s[n - 1] as int % 16);
        assert(s.take(n) =~= s.take(n - 1).push((16 * (s[n - 1] as int / 16) + s[n - 1] as int % 16) as u8));
    }
}

/// Leaving a character out of two texts leaves it out of the two together.
pub(crate) proof fn lemma_without_append(a: Seq<char>, b: Seq<char>, c: char)
    ensures
        without(a + b, c) == without(a, c) + without(b, c),
    decreases b.len(),
{
    if b.len() == 0 {
        assert(a + b =~= a);
        assert(without(a, c) + without(b, c) =~= without(a, c));
    } else {
        assert((a + b).drop_last() =~= a + b.drop_last());
        lemma_without_append(a, b.drop_last(), c);
        if b.last() == c {
        } else {
            assert(without(a, c) + without(b.drop_last(), c).push(b.last())
                =~= (without(a, c) + without(b.drop_last(), c)).push(b.last()));
        }
    }
}

/// Hexadecimal digits hold no hyphen.
proof fn lemma_without_hex(s: Seq<u8>)
    ensures
        without(hex_bytes(s), '-') == hex_bytes(s),
{
    lemma_without_hex_char(s, '-');
}

/// Hexadecimal digits hold neither hyphen nor dot.
pub(crate) proof fn lemma_without_hex_char(s: Seq<u8>, c: char)
    requires
        c == '-' || c == '.',
    ensures
        without(hex_bytes(s), c) == hex_bytes(s),
    decreases s.len(),
{
    if s.len() > 0 {
        lemma_without_hex_char(s.drop_last(), c);
        let h = hex_byte(s.last());
        lemma_hex_char(s.last() as int / 16);
        lemma_hex_char(s.last() as int % 16);
        lemma_without_append(hex_bytes(s.drop_last()), h, c);
        assert(h.drop_last() =~= seq![h[0]]);
        assert(seq![h[0]].drop_last() =~= Seq::<char>::empty());
        assert(without(Seq::<char>::empty(), c) =~= Seq::<char>::empty());
        assert(without(seq![h[0]], c) =~= Seq::<char>::empty().push(h[0]));
        assert(without(h, c) =~= h);
    }
}

/// An AUID's text reads back as the AUID: `parse(a.to_string()) == a`.
pub proof fn lemma_text_round_trip(le: Seq<u8>)
    requires
        le.len() == 16,
    ensures
        parse_auid(auid_text(le)) == Some(le),
{
    let b = guid_swap(le);
    lemma_guid_swap_twice(le);
    let p0 = b.subrange(0, 4);
    let p1 = b.subrange(4, 6);
    let p2 = b.subrange(6, 8);
    let p3 = b.subrange(8, 10);
    let p4 = b.subrange(10, 16);
    let h = seq!['-'];
    let t = auid_text(le);
    lemma_hex_bytes(p0);
    lemma_hex_bytes(p4);
    lemma_hex_char(p0[0] as int / 16);
    lemma_hex_char(p4[5] as int % 16);
    assert(t[0] == hex_bytes(p0)[0]);
    assert(hex_bytes(p0)[0] == hex_char(p0[0] as int / 16));
    assert(t.last() == hex_bytes(p4)[11int]);
    assert(hex_bytes(p4)[11int] == hex_char(p4[5] as int % 16));
    // Nothing around the digits to strip.
    assert(trim_start_ws(t) == t);
    assert(trim_end_ws(t) == t);
    assert(!occurs_at(t, 0, seq!['u', 'r', 'n', ':'])) by {
        assert(t.subrange(0, 4)[0] == t[0]);
    }
    assert(!occurs_at(t, 0, seq!['u', 'u', 'i', 'd', ':'])) by {
        assert(t.subrange(0, 5)[0] == t[0]);
    }
    assert(!occurs_at(t, 0, seq!['{'])) by {
        assert(t.subrange(0, 1)[0] == t[0]);
    }
    assert(!occurs_at(t, t.len() - 1, seq!['}'])) by {
        assert(t.subrange(t.len() - 1, t.len() as int)[0] == t.last());
    }
    assert(auid_core(t) == t);
    // The hyphens go, the digits stay.
    lemma_without_hex(p0);
    lemma_without_hex(p1);
    lemma_without_hex(p2);
    lemma_without_hex(p3);
    lemma_without_hex(p4);
    assert(without(h, '-') =~= Seq::<char>::empty()) by {
        assert(h.drop_last() =~= Seq::<char>::empty());
        assert(without(Seq::<char>::empty(), '-') =~= Seq::<char>::empty());
    }
    lemma_without_append(hex_bytes(p0), h, '-');
    lemma_without_append(hex_bytes(p0) + h, hex_bytes(p1), '-');
    lemma_without_append(hex_bytes(p0) + h + hex_bytes(p1), h, '-');
    lemma_without_append(hex_bytes(p0) + h + hex_bytes(p1) + h, hex_bytes(p2), '-');
    lemma_without_append(hex_bytes(p0) + h + hex_bytes(p1) + h + hex_bytes(p2), h, '-');
    lemma_without_append(hex_bytes(p0) + h + hex_bytes(p1) + h + hex_bytes(p2) + h, hex_bytes(p3), '-');
    lemma_without_append(hex_bytes(p0) + h + hex_bytes(p1) + h + hex_bytes(p2) + h + hex_bytes(p3), h, '-');
    lemma_without_append(hex_bytes(p0) + h + hex_bytes(p1) + h + hex_bytes(p2) + h + hex_bytes(p3) + h, hex_bytes(p4), '-');
    let d = without(t, '-');
    assert(d =~= hex_bytes(p0) + hex_bytes(p1) + hex_bytes(p2) + hex_bytes(p3) + hex_bytes(p4));
    // Which are the digits of the big-endian bytes.
    lemma_hex_bytes_append(p0, p1);
    lemma_hex_bytes_append(p0 + p1, p2);
    lemma_hex_bytes_append(p0 + p1 + p2, p3);
    lemma_hex_bytes_append(p0 + p1 + p2 + p3, p4);
    assert(p0 + p1 + p2 + p3 + p4 =~= b);
    lemma_hex_bytes(b);
    lemma_hex_pairs_of(b, 16);
    assert(b.take(16) =~= b);
}

/// Two runs of bytes in hexadecimal are the first's digits then the
/// second's.
pub(crate) proof fn lemma_hex_bytes_append(a: Seq<u8>, b: Seq<u8>)
    ensures
        hex_bytes(a + b) == hex_bytes(a) + hex_bytes(b),
    decreases b.len(),
{
    if b.len() == 0 {
        assert(a + b =~= a);
        assert(hex_bytes(a) + hex_bytes(b) =~= hex_bytes(a));
    } else {
        assert((a + b).drop_last() =~= a + b.drop_last());
        assert((a + b).last() == b.last());
        lemma_hex_bytes_append(a, b.drop_last());
        assert(hex_bytes(a) + hex_bytes(b.drop_last()) + hex_byte(b.last())
            =~= hex_bytes(a) + (hex_bytes(b.drop_last()) + hex_byte(b.last())));
    }
}

fn guid_swap_array(b: [u8; 16]) -> (r: [u8; 16])
    ensures
        r@ == guid_swap(b@),
{
    let r = [
        b[3], b[2], b[1], b[0], b[5], b[4], b[7], b[6], b[8], b[9], b[10], b[11], b[12], b[13],
        b[14], b[15],
    ];
    assert(r@ =~= guid_swap(b@));
    r
}

impl Auid {
    /// The all-zero AUID, which AAF uses to mean "no identifier".
    pub fn nil() -> (r: Self)
        ensures
            r@ == Seq::new(16, |_i: int| 0u8),
    {
        let r = Self { bytes_le: [0u8; 16] };
        assert(r@ =~= Seq::new(16, |_i: int| 0u8));
        r
    }

    /// Builds an AUID from the 16 bytes as they appear on disk.
    pub fn from_bytes_le(bytes_le: [u8; 16]) -> (r: Self)
        ensures
            r@ == bytes_le@,
    {
        Self { bytes_le }
    }

    /// Builds an AUID from the 16 bytes in textual (big-endian) order.
    pub fn from_bytes_be(b: [u8; 16]) -> (r: Self)
        ensures
            r@ == guid_swap(b@),
    {
        Self { bytes_le: guid_swap_array(b) }
    }

    /// The 16 bytes as they appear on disk.
    pub fn to_bytes_le(self) -> (r: [u8; 16])
        ensures
            r@ == self@,
    {
        self.bytes_le
    }

    /// The 16 bytes in textual (big-endian) order.
    pub fn to_bytes_be(self) -> (r: [u8; 16])
        ensures
            r@ == guid_swap(self@),
    {
        guid_swap_array(self.bytes_le)
    }

    /// Whether this is the all-zero AUID.
    pub fn is_nil(self) -> (r: bool)
        ensures
            r == (forall|i: int| 0 <= i < 16 ==> self@[i] == 0),
    {
        let mut i: usize = 0;
        while i < 16
            invariant
                i <= 16,
                forall|j: int| 0 <= j < i ==> self@[j] == 0,
            decreases 16 - i,
        {
            if self.bytes_le[i] != 0 {
                assert(self@[i as int] != 0);
                return false;
            }
            i = i + 1;
        }
        true
    }

    /// The `Data1` field, the first and most significant group in the text form.
    pub fn data1(self) -> (r: u32)
        ensures
            r as int == le32(self@, 0),
    {
        read_u32(&self.bytes_le, 0)
    }

    /// The `Data2` field, the second group in the text form.
    pub fn data2(self) -> (r: u16)
        ensures
            r as int == le16(self@, 4),
    {
        read_u16(&self.bytes_le, 4)
    }

    /// The `Data3` field, the third group in the text form.
    pub fn data3(self) -> (r: u16)
        ensures
            r as int == le16(self@, 6),
    {
        read_u16(&self.bytes_le, 6)
    }

    /// The `Data4` field, the last eight bytes, stored in textual order.
    pub fn data4(self) -> (r: [u8; 8])
        ensures
            r@ == self@.subrange(8, 16),
    {
        let b = self.bytes_le;
        let r = [b[8], b[9], b[10], b[11], b[12], b[13], b[14], b[15]];
        assert(r@ =~= self@.subrange(8, 16));
        r
    }

    /// The usual text form: big-endian, lowercase, hyphenated.
    pub fn to_string(&self) -> (r: String)
        ensures
            r@ == auid_text(self@),
    {
        let b = guid_swap_array(self.bytes_le);
        let mut out = String::new();
        push_hex(&mut out, &b, 0, 4);
        push_char(&mut out, '-');
        push_hex(&mut out, &b, 4, 6);
        push_char(&mut out, '-');
        push_hex(&mut out, &b, 6, 8);
        push_char(&mut out, '-');
        push_hex(&mut out, &b, 8, 10);
        push_char(&mut out, '-');
        push_hex(&mut out, &b, 10, 16);
        proof {
            let pieces = auid_text(self@);
            assert(out@ =~= pieces);
        }
        out
    }

    /// Parses the usual big-endian UUID text form.
    ///
    /// Surrounding white space, a `urn:` or `uuid:` prefix, surrounding braces
    /// and the hyphens are all optional.
    pub fn parse(s: &str) -> (r: Result<Self, ParseAuidError>)
        ensures
            r matches Ok(a) ==> parse_auid(s@) == Some(a@),
            r matches Err(e) ==> parse_auid(s@) is None && e.input@ == s@,
    {
        let err = ParseAuidError { input: s.to_owned() };
        let cs = chars_of(s);
        let (a, b) = trim_bounds(&cs);
        let t = copy_range(&cs, a, b);
        let urn = ['u', 'r', 'n', ':'];
        let uuid = ['u', 'u', 'i', 'd', ':'];
        let open = ['{'];
        let close = ['}'];
        assert(urn@ =~= seq!['u', 'r', 'n', ':']);
        assert(uuid@ =~= seq!['u', 'u', 'i', 'd', ':']);
        assert(open@ =~= seq!['{']);
        assert(close@ =~= seq!['}']);
        assert(t@.skip(0) =~= t@);
        let p = strip_prefixes_exec(&t, 0, &urn);
        let p = strip_prefixes_exec(&t, p, &uuid);
        let p = strip_prefixes_exec(&t, p, &open);
        let e = strip_suffixes_exec(&t, p, t.len(), &close);
        proof {
            assert(t@.skip(p as int) =~= t@.subrange(p as int, t.len() as int));
        }
        let d = without_exec(&t, p, e, '-');
        assert(d@ == without(auid_core(s@), '-'));
        if d.len() != 32 {
            return Err(err);
        }
        match hex_pairs_exec(&d, 16) {
            Some(be) => {
                proof { lemma_hex_pairs_len(d@, 16); }
                let arr = [
                    be[0], be[1], be[2], be[3], be[4], be[5], be[6], be[7], be[8], be[9], be[10],
                    be[11], be[12], be[13], be[14], be[15],
                ];
                assert(arr@ =~= be@);
                Ok(Self::from_bytes_be(arr))
            },
            None => Err(err),
        }
    }
}

/// The error returned when a string is not a well-formed AUID.
#[derive(Debug, Clone, PartialEq, Eq)]
pub struct ParseAuidError {
    /// The rejected string.
    pub input: String,
}

impl ParseAuidError {
    /// The message describing the error.
    pub fn to_string(&self) -> (r: String)
        ensures
            r@ == seq!['b', 'a', 'd', 'l', 'y', ' ', 'f', 'o', 'r', 'm', 'e', 'd', ' ', 'A', 'U', 'I', 'D',
                ' ', 's', 't', 'r', 'i', 'n', 'g', ':', ' ', '\''] + self.input@ + seq!['\''],
    {
        let mut out = string_from(&['b', 'a', 'd', 'l', 'y', ' ', 'f', 'o', 'r', 'm', 'e', 'd', ' ',
            'A', 'U', 'I', 'D', ' ', 's', 't', 'r', 'i', 'n', 'g', ':', ' ', '\'']);
        push_str(&mut out, &self.input);
        push_char(&mut out, '\'');
        out
    }
}

impl std::str::FromStr for Auid {
    type Err = ParseAuidError;

    /// Parses the usual big-endian UUID text form; see [`Auid::parse`].
    fn from_str(s: &str) -> (r: Result<Self, Self::Err>)
        ensures
            r matches Ok(a) ==> parse_auid(s@) == Some(a@),
            r matches Err(e) ==> parse_auid(s@) is None && e.input@ == s@,
    {
        Self::parse(s)
    }
}

} // verus!
