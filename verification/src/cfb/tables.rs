//! The allocation tables as the bytes of a file state them: which bytes a
//! sector holds, the sector numbers a run of bytes lists, and the chains
//! those numbers make.

use vstd::prelude::*;

use super::error::Error;
use super::sector::{regular, SectorId};
use crate::bytes::{le32, read_u32};

verus! {

/// The `size` bytes of sector `sid` in the file `data`: what lies at
/// `(sid + 1) * size`, with zeros for whatever lies past the end of the file.
pub open spec fn sector_bytes(data: Seq<u8>, sid: u32, size: u32) -> Seq<u8> {
    Seq::new(size as nat, |i: int| {
        let at = (sid + 1) * size + i;
        if at < data.len() { data[at] } else { 0u8 }
    })
}

/// The bytes of the sectors of `chain`, one after another.
pub open spec fn chain_bytes(data: Seq<u8>, size: u32, chain: Seq<u32>) -> Seq<u8>
    decreases chain.len(),
{
    if chain.len() == 0 {
        Seq::empty()
    } else {
        chain_bytes(data, size, chain.drop_last()) + sector_bytes(data, chain.last(), size)
    }
}

/// The little-endian sector numbers a run of bytes lists, four bytes each.
pub open spec fn sids_of(b: Seq<u8>) -> Seq<u32> {
    Seq::new((b.len() / 4) as nat, |i: int| le32(b, 4 * i) as u32)
}

/// The regular sector numbers of `s`, in order.
pub open spec fn regular_only(s: Seq<u32>) -> Seq<u32>
    decreases s.len(),
{
    if s.len() == 0 {
        s
    } else if regular(s.last()) {
        regular_only(s.drop_last()).push(s.last())
    } else {
        regular_only(s.drop_last())
    }
}

/// The chain that starts at `sid` in the allocation table `table`, after the
/// sectors already `taken`: each sector's entry names the next, until one
/// that is not a regular sector number. A chain longer than the table must
/// visit some sector twice, so it is refused as cyclic; a sector past the end
/// of the table is refused as out of range.
pub open spec fn walk_chain(table: Seq<u32>, sid: u32, taken: Seq<u32>, mini: bool, start: u32) -> Result<Seq<u32>, Error>
    decreases table.len() - taken.len(),
{
    if !regular(sid) {
        Ok(taken)
    } else if taken.len() >= table.len() {
        Err(Error::CyclicChain { mini, start })
    } else if sid >= table.len() {
        Err(Error::SectorOutOfRange { sector: sid, table_len: table.len() as u32 })
    } else {
        walk_chain(table, table[sid as int], taken.push(sid), mini, start)
    }
}

/// The chain that starts at `start` in `table`.
pub open spec fn chain_of(table: Seq<u32>, start: u32, mini: bool) -> Result<Seq<u32>, Error> {
    walk_chain(table, start, Seq::empty(), mini, start)
}

/// Every sector of a walked chain is a regular sector inside the table, and
/// the chain is no longer than the table.
pub open spec fn chain_in_table(table: Seq<u32>, chain: Seq<u32>) -> bool {
    &&& chain.len() <= table.len()
    &&& forall|i: int| 0 <= i < chain.len() ==> regular(chain[i]) && chain[i] < table.len()
}

/// A walked chain stays inside its table.
pub proof fn lemma_walk_in_table(table: Seq<u32>, sid: u32, taken: Seq<u32>, mini: bool, start: u32)
    requires
        chain_in_table(table, taken),
        walk_chain(table, sid, taken, mini, start) is Ok,
    ensures
        chain_in_table(table, walk_chain(table, sid, taken, mini, start)->Ok_0),
    decreases table.len() - taken.len(),
{
    if regular(sid) && taken.len() < table.len() && sid < table.len() {
        lemma_walk_in_table(table, table[sid as int], taken.push(sid), mini, start);
    }
}

/// Follows a chain from `start` to its end, in order.
///
/// A chain cannot be longer than the table that describes it without
/// visiting some sector twice, so the length bound is what stops a malformed
/// file from looping forever.
pub fn chain(table: &Vec<SectorId>, start: SectorId, mini: bool) -> (r: core::result::Result<Vec<SectorId>, Error>)
    ensures
        r matches Ok(c) ==> chain_of(table@, start, mini) == Ok::<Seq<u32>, Error>(c@)
            && chain_in_table(table@, c@),
        r matches Err(e) ==> chain_of(table@, start, mini) == Err::<Seq<u32>, Error>(e),
{
    let mut out: Vec<SectorId> = Vec::new();
    let mut sid = start;
    while sid <= super::sector::MAX_REGULAR
        invariant
            walk_chain(table@, sid, out@, mini, start) == chain_of(table@, start, mini),
            chain_in_table(table@, out@),
        decreases table@.len() - out@.len(),
    {
        if out.len() >= table.len() {
            return Err(Error::CyclicChain { mini, start });
        }
        if sid as usize >= table.len() {
            return Err(Error::SectorOutOfRange { sector: sid, table_len: table.len() as u32 });
        }
        let next = table[sid as usize];
        out.push(sid);
        sid = next;
    }
    Ok(out)
}

/// The `size` bytes of sector `sid` of `data`, zero-padded past its end.
pub fn read_sector(data: &Vec<u8>, sid: SectorId, size: u32) -> (r: Vec<u8>)
    ensures
        r@ == sector_bytes(data@, sid, size),
{
    let start = super::sector::offset(sid, size);
    let mut out: Vec<u8> = Vec::new();
    let mut i: u32 = 0;
    while i < size
        invariant
            i <= size,
            start == (sid + 1) * size,
            out@ == sector_bytes(data@, sid, size).take(i as int),
        decreases size - i,
    {
        let at = start as u128 + i as u128;
        let b = if at < data.len() as u128 { data[at as usize] } else { 0u8 };
        out.push(b);
        assert(out@ =~= sector_bytes(data@, sid, size).take(i + 1));
        i = i + 1;
    }
    assert(sector_bytes(data@, sid, size).take(size as int) =~= sector_bytes(data@, sid, size));
    out
}

/// The sector numbers a run of bytes lists.
pub fn read_sids(bytes: &Vec<u8>) -> (r: Vec<SectorId>)
    ensures
        r@ == sids_of(bytes@),
{
    let mut out: Vec<SectorId> = Vec::new();
    let n = bytes.len() / 4;
    let mut i: usize = 0;
    while i < n
        invariant
            n == bytes.len() / 4,
            i <= n,
            out@ == sids_of(bytes@).take(i as int),
        decreases n - i,
    {
        out.push(read_u32(bytes, 4 * i));
        assert(out@ =~= sids_of(bytes@).take(i + 1));
        i = i + 1;
    }
    assert(sids_of(bytes@).take(n as int) =~= sids_of(bytes@));
    out
}

/// Sector numbers listed by two runs of bytes are those of each in turn,
/// when the first is a whole number of entries.
pub proof fn lemma_sids_of_append(a: Seq<u8>, b: Seq<u8>)
    requires
        a.len() % 4 == 0,
    ensures
        sids_of(a + b) == sids_of(a) + sids_of(b),
{
    let ab = a + b;
    assert(ab.len() / 4 == a.len() / 4 + b.len() / 4);
    assert forall|i: int| 0 <= i < sids_of(ab).len() implies #[trigger] sids_of(ab)[i] == (sids_of(a) + sids_of(b))[i] by {
        if i < a.len() / 4 {
            assert(ab[4 * i] == a[4 * i] && ab[4 * i + 1] == a[4 * i + 1]);
            assert(ab[4 * i + 2] == a[4 * i + 2] && ab[4 * i + 3] == a[4 * i + 3]);
        } else {
            let j = i - a.len() / 4;
            assert(4 * i == a.len() + 4 * j);
            assert(ab[4 * i] == b[4 * j] && ab[4 * i + 1] == b[4 * j + 1]);
            assert(ab[4 * i + 2] == b[4 * j + 2] && ab[4 * i + 3] == b[4 * j + 3]);
        }
    }
    assert(sids_of(ab) =~= sids_of(a) + sids_of(b));
}

/// The sector numbers listed by the sectors of `chain`, one table after
/// another.
pub fn read_table(data: &Vec<u8>, size: u32, chain: &Vec<SectorId>) -> (r: Vec<SectorId>)
    requires
        size == 512 || size == 4096,
    ensures
        r@ == sids_of(chain_bytes(data@, size, chain@)),
{
    let mut out: Vec<SectorId> = Vec::new();
    let mut i: usize = 0;
    while i < chain.len()
        invariant
            size == 512 || size == 4096,
            i <= chain.len(),
            out@ == sids_of(chain_bytes(data@, size, chain@.take(i as int))),
            chain_bytes(data@, size, chain@.take(i as int)).len() == i * size,
        decreases chain.len() - i,
    {
        let sector = read_sector(data, chain[i], size);
        let mut sids = read_sids(&sector);
        proof {
            let prev = chain_bytes(data@, size, chain@.take(i as int));
            assert(chain@.take(i + 1).drop_last() =~= chain@.take(i as int));
            assert(chain_bytes(data@, size, chain@.take(i + 1)) == prev + sector@);
            assert(prev.len() % 4 == 0) by (nonlinear_arith)
                requires prev.len() == i * size, size == 512 || size == 4096;
            lemma_sids_of_append(prev, sector@);
            assert((i + 1) * size == i * size + size) by (nonlinear_arith);
        }
        out.append(&mut sids);
        i = i + 1;
    }
    assert(chain@.take(chain.len() as int) =~= chain@);
    out
}

/// The regular sector numbers of `s`, in order.
pub fn regular_sids(s: &Vec<SectorId>) -> (r: Vec<SectorId>)
    ensures
        r@ == regular_only(s@),
{
    let mut out: Vec<SectorId> = Vec::new();
    let mut i: usize = 0;
    while i < s.len()
        invariant
            i <= s.len(),
            out@ == regular_only(s@.take(i as int)),
        decreases s.len() - i,
    {
        assert(s@.take(i + 1).drop_last() =~= s@.take(i as int));
        if s[i] <= super::sector::MAX_REGULAR {
            out.push(s[i]);
        }
        i = i + 1;
    }
    assert(s@.take(s.len() as int) =~= s@);
    out
}

} // verus!
