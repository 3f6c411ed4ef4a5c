//! Where a new file's times and identifiers come from.
//!
//! A writer reads the clock and asks for a random UUID at a handful of
//! points while it builds a file: the time the file was made, a random
//! `GenerationAUID` for the file, and for every new mob a random `MobID` and
//! the time the mob was made. Everything else it writes follows from what it
//! was given, so a writer handed fixed sources writes the same bytes every
//! time. [`SteppingClock`] and [`SequentialIds`] hand out such a fixed
//! sequence; [`RandomIds`] makes version 4 UUIDs from a seed.

use vstd::prelude::*;

use crate::auid::{guid_swap, Auid};
use crate::write::value::{from_unix_spec, Timestamp};

verus! {

/// Tells a writer the time.
pub trait Clock {
    /// The time now.
    fn now(&mut self) -> Timestamp;
}

/// Hands a writer fresh identifiers.
pub trait IdSource {
    /// A new identifier, as random as the source can make it.
    fn uuid4(&mut self) -> Auid;
}

/// Where a stepping clock's next reading stands after one reading: a
/// second on, or where it is at the last second an `i64` holds.
pub open spec fn clock_step(next: i64) -> i64 {
    if next < i64::MAX { (next + 1) as i64 } else { next }
}

/// Where a stepping clock's next reading stands after `n` readings.
pub open spec fn clock_after(next: i64, n: nat) -> i64
    decreases n,
{
    if n == 0 { next } else { clock_step(clock_after(next, (n - 1) as nat)) }
}

/// A stepping clock's `n`th reading, counted from zero, is `n` seconds
/// after its first, as long as that stays within an `i64`.
pub proof fn lemma_nth_reading(next: i64, n: nat)
    requires
        next + n <= i64::MAX,
    ensures
        clock_after(next, n) == next + n,
        from_unix_spec(clock_after(next, n) as int) == from_unix_spec(next + n),
    decreases n,
{
    if n > 0 {
        lemma_nth_reading(next, (n - 1) as nat);
    }
}

/// A clock that starts at a fixed time and moves on one second each time it
/// is read.
#[derive(Debug, Clone)]
pub struct SteppingClock {
    next: i64,
}

impl SteppingClock {
    /// The seconds after the Unix epoch of the next reading.
    pub closed spec fn next_spec(&self) -> i64 {
        self.next
    }

    /// A clock whose first reading is `start`.
    pub fn new(start: Timestamp) -> (r: Self)
        ensures
            r.next_spec() as int == crate::write::value::to_unix_spec(start),
    {
        Self { next: start.to_unix() }
    }

    /// The time now: the next reading, after which the clock moves on a
    /// second (it stays put at the last second an `i64` holds).
    pub fn now(&mut self) -> (r: Timestamp)
        ensures
            r == from_unix_spec(old(self).next_spec() as int),
            final(self).next_spec() == clock_step(old(self).next_spec()),
    {
        let now = Timestamp::from_unix(self.next);
        if self.next < i64::MAX {
            self.next = self.next + 1;
        }
        now
    }
}

impl Clock for SteppingClock {
    fn now(&mut self) -> (r: Timestamp)
        ensures
            r == from_unix_spec(old(self).next_spec() as int),
            final(self).next_spec() == clock_step(old(self).next_spec()),
    {
        SteppingClock::now(self)
    }
}

/// Identifiers that count up from one, in a fixed pattern.
///
/// The `n`th identifier is `{prefix + n:08x}-0000-4000-8000-{n:012x}`: a
/// valid version 4 UUID in form, and plainly not a random one.
#[derive(Debug, Clone)]
pub struct SequentialIds {
    prefix: u32,
    count: u32,
}

/// The big-endian bytes of the `n`th identifier of a source with this
/// prefix.
pub open spec fn sequential_bytes(prefix: u32, n: u32) -> Seq<u8> {
    let p = ((prefix as int + n as int) % 0x1_0000_0000) as u32;
    seq![(p / 0x100_0000) as u8, ((p / 0x1_0000) % 256) as u8, ((p / 256) % 256) as u8, (p % 256) as u8,
        0, 0, 0x40, 0, 0x80, 0, 0, 0,
        (n / 0x100_0000) as u8, ((n / 0x1_0000) % 256) as u8, ((n / 256) % 256) as u8, (n % 256) as u8]
}

/// The big-endian bytes of a `u32`.
fn be_bytes(x: u32) -> (r: [u8; 4])
    ensures
        r@ == seq![(x / 0x100_0000) as u8, ((x / 0x1_0000) % 256) as u8, ((x / 256) % 256) as u8, (x % 256) as u8],
{
    let r = [(x / 0x100_0000) as u8, ((x / 0x1_0000) % 256) as u8, ((x / 256) % 256) as u8, (x % 256) as u8];
    assert(r@ =~= seq![(x / 0x100_0000) as u8, ((x / 0x1_0000) % 256) as u8, ((x / 256) % 256) as u8, (x % 256) as u8]);
    r
}

impl SequentialIds {
    /// What the identifiers start with, less their number.
    pub closed spec fn prefix_spec(&self) -> u32 {
        self.prefix
    }

    /// How many identifiers have been handed out.
    pub closed spec fn count_spec(&self) -> u32 {
        self.count
    }

    /// A source whose identifiers start with `prefix + n`.
    pub fn new(prefix: u32) -> (r: Self)
        ensures
            r.prefix_spec() == prefix,
            r.count_spec() == 0,
    {
        Self { prefix, count: 0 }
    }

    /// The next identifier.
    pub fn uuid4(&mut self) -> (r: Auid)
        ensures
            final(self).prefix_spec() == old(self).prefix_spec(),
            final(self).count_spec() == (old(self).count_spec() as int + 1) % 0x1_0000_0000,
            r@ == guid_swap(sequential_bytes(old(self).prefix_spec(), final(self).count_spec())),
    {
        self.count = self.count.wrapping_add(1);
        let n = self.count;
        let p = self.prefix.wrapping_add(n);
        let hi = be_bytes(p);
        let lo = be_bytes(n);
        let bytes = [hi[0], hi[1], hi[2], hi[3], 0, 0, 0x40, 0, 0x80, 0, 0, 0, lo[0], lo[1], lo[2], lo[3]];
        assert(bytes@ =~= sequential_bytes(self.prefix, n));
        Auid::from_bytes_be(bytes)
    }
}

/// splitmix64's output for a state it has just moved to.
pub open spec fn mix(state: u64) -> u64 {
    let z1 = ((state ^ (state >> 30u64)) as int * 0xbf58_476d_1ce4_e5b9int % 0x1_0000_0000_0000_0000) as u64;
    let z2 = ((z1 ^ (z1 >> 27u64)) as int * 0x94d0_49bb_1331_11ebint % 0x1_0000_0000_0000_0000) as u64;
    z2 ^ (z2 >> 31u64)
}

/// The state splitmix64 moves to from `state`.
pub open spec fn step(state: u64) -> u64 {
    ((state as int + 0x9e37_79b9_7f4a_7c15int) % 0x1_0000_0000_0000_0000) as u64
}

/// The big-endian bytes of a `u64`.
pub open spec fn be64(x: u64) -> Seq<u8> {
    Seq::new(8, |i: int| ((x as int / pow256(7 - i)) % 256) as u8)
}

/// 256 to the power `n`.
pub open spec fn pow256(n: int) -> int
    decreases n,
{
    if n <= 0 { 1 } else { 256 * pow256(n - 1) }
}

/// The big-endian bytes of the UUID made from two draws: their bytes, with
/// the version in byte 6 and the variant in byte 8.
pub open spec fn uuid_bytes(a: u64, b: u64) -> Seq<u8> {
    let raw = be64(a) + be64(b);
    raw.update(6, (raw[6] % 16 + 0x40) as u8).update(8, (raw[8] % 64 + 0x80) as u8)
}

/// Version 4 UUIDs made by splitmix64, a small generator with no bad seeds.
///
/// The values are unique rather than secret: nothing in AAF depends on them
/// being unpredictable.
#[derive(Debug, Clone)]
pub struct RandomIds {
    state: u64,
}

impl RandomIds {
    /// The generator's state.
    pub closed spec fn state_spec(&self) -> u64 {
        self.state
    }

    /// A source that starts from `seed`.
    pub fn from_seed(seed: u64) -> (r: Self)
        ensures
            r.state_spec() == seed,
    {
        Self { state: seed }
    }

    /// The next 64 random bits.
    fn next_u64(&mut self) -> (r: u64)
        ensures
            final(self).state_spec() == step(old(self).state_spec()),
            r == mix(final(self).state_spec()),
    {
        self.state = self.state.wrapping_add(0x9e37_79b9_7f4a_7c15);
        let mut z = self.state;
        z = (z ^ (z >> 30u64)).wrapping_mul(0xbf58_476d_1ce4_e5b9);
        z = (z ^ (z >> 27u64)).wrapping_mul(0x94d0_49bb_1331_11eb);
        z ^ (z >> 31u64)
    }

    /// A new version 4 UUID: 128 random bits with the version and the
    /// variant set.
    pub fn uuid4(&mut self) -> (r: Auid)
        ensures
            final(self).state_spec() == step(step(old(self).state_spec())),
            guid_swap(r@) == uuid_bytes(mix(step(old(self).state_spec())), mix(step(step(old(self).state_spec())))),
    {
        let a = self.next_u64();
        let b = self.next_u64();
        let hi = be_bytes64(a);
        let lo = be_bytes64(b);
        let mut bytes = [hi[0], hi[1], hi[2], hi[3], hi[4], hi[5], hi[6], hi[7], lo[0], lo[1], lo[2], lo[3], lo[4], lo[5],
            lo[6], lo[7]];
        assert(bytes@ =~= be64(a) + be64(b));
        let v = bytes[6];
        bytes.set(6, (v % 16) + 0x40);
        let w = bytes[8];
        bytes.set(8, (w % 64) + 0x80);
        assert(bytes@ =~= uuid_bytes(a, b));
        proof { crate::auid::lemma_guid_swap_twice(bytes@); }
        Auid::from_bytes_be(bytes)
    }
}

/// The big-endian bytes of a `u64`.
fn be_bytes64(v: u64) -> (r: [u8; 8])
    ensures
        r@ == be64(v),
{
    let mut bytes = [0u8; 8];
    let mut i: usize = 0;
    let mut x = v;
    while i < 8
        invariant
            i <= 8,
            x as int == v as int / pow256(i as int),
            bytes@.len() == 8,
            forall|j: int| #![trigger bytes@[j]] 8 - i <= j < 8 ==> bytes@[j] == be64(v)[j],
        decreases 8 - i,
    {
        proof {
            assert(pow256(i + 1) == 256 * pow256(i as int));
            lemma_pos256(i as int);
            vstd::arithmetic::div_mod::lemma_div_denominator(v as int, pow256(i as int), 256);
        }
        let ghost before = bytes@;
        bytes.set(7 - i, (x % 256) as u8);
        assert forall|j: int| #![trigger bytes@[j]] 8 - (i + 1) <= j < 8 implies bytes@[j] == be64(v)[j] by {
            if j != 7 - i { assert(bytes@[j] == before[j]); }
        }
        x = x / 256;
        i = i + 1;
    }
    assert(bytes@ =~= be64(v));
    bytes
}

/// Powers of 256 are positive.
proof fn lemma_pos256(n: int)
    ensures
        pow256(n) >= 1,
    decreases n,
{
    if n > 0 {
        lemma_pos256(n - 1);
    }
}

impl IdSource for SequentialIds {
    fn uuid4(&mut self) -> (r: Auid)
        ensures
            final(self).prefix_spec() == old(self).prefix_spec(),
            final(self).count_spec() == (old(self).count_spec() as int + 1) % 0x1_0000_0000,
            r@ == guid_swap(sequential_bytes(old(self).prefix_spec(), final(self).count_spec())),
    {
        SequentialIds::uuid4(self)
    }
}

impl IdSource for RandomIds {
    fn uuid4(&mut self) -> (r: Auid)
        ensures
            final(self).state_spec() == step(step(old(self).state_spec())),
            guid_swap(r@) == uuid_bytes(mix(step(old(self).state_spec())), mix(step(step(old(self).state_spec())))),
    {
        RandomIds::uuid4(self)
    }
}

} // verus!
