//! A compound file opened for reading.

use vstd::prelude::*;

use super::dir_entry::{bad_entry_name, parsed_entry, DirEntry, DirId, DIR_ENTRY_LEN};
use super::error::{Error, Result};
use super::header::{header_fields, header_refused, header_wf, is_header_fault, Header, HEADER_LEN};
use super::sector::{regular, SectorId, END_OF_CHAIN, FREE, MAX_REGULAR};
use super::tables::{
    chain, chain_bytes, chain_in_table, chain_of, read_sector, read_sids, read_table, regular_only,
    regular_sids, sector_bytes, sids_of,
};
use super::tree::{count_true, in_tree, lemma_count_true_bound, lemma_count_true_set, lists_tree, sort_by_name, tree_fault, tree_members};
use super::names::{name_same, name_less};
use super::tree::reaches;
use crate::text::{copy_range, name_order, path_components, path_parts, push_char, push_str, string_from};

verus! {

/// Something the file got wrong that the reader worked around.
///
/// None of these stop a file being read. They are kept so a caller that cares
/// about strictness can see what was tolerated.
#[derive(Debug, Clone, PartialEq, Eq, Structural)]
pub enum Warning {
    /// The header's FAT sector count disagrees with the DIFAT.
    FatSectorCountMismatch {
        /// The count the header declares.
        declared: u32,
        /// The number of FAT sectors the DIFAT actually lists.
        found: u32,
    },

    /// The header's directory sector count disagrees with the chain.
    DirSectorCountMismatch {
        /// The count the header declares.
        declared: u32,
        /// The number of sectors the directory chain actually has.
        found: u32,
    },

    /// The root entry's stream length disagrees with the mini FAT.
    MiniStreamSizeMismatch {
        /// The length the root directory entry declares.
        declared: u64,
        /// The length implied by the last allocated mini sector.
        found: u64,
    },

    /// A sector reserved for a Windows byte-range lock holds data.
    RangeLockSectorInUse {
        /// The sector in question.
        sector: SectorId,
    },
}

/// The sector covering byte `0x7FFFFF00`, which a version 4 file must leave
/// unallocated for byte-range locking.
pub const RANGE_LOCK_SECTOR: u32 = 524286;

/// The DIFAT walk: from `sid`, with `left` DIFAT sectors still to read, each
/// sector's entries but the last added to `acc` when they are sector
/// numbers, and the last naming the next DIFAT sector. A sector met twice is
/// refused as a cycle.
pub open spec fn difat_walk(data: Seq<u8>, size: u32, sid: u32, left: nat, seen: Seq<u32>, acc: Seq<u32>, start: u32) -> core::result::Result<Seq<u32>, Error>
    decreases left,
{
    if left == 0 || !regular(sid) {
        Ok(acc)
    } else if seen.contains(sid) {
        Err(Error::CyclicChain { mini: false, start })
    } else {
        let s = sids_of(sector_bytes(data, sid, size));
        difat_walk(data, size, s.last(), (left - 1) as nat, seen.push(sid), acc + regular_only(s.drop_last()), start)
    }
}

/// The sectors holding the FAT: the header's own DIFAT entries that are
/// sector numbers, then those of the DIFAT sectors its chain lists.
pub open spec fn fat_sectors_of(data: Seq<u8>, h: Header) -> core::result::Result<Seq<u32>, Error> {
    difat_walk(data, h.sector_size, h.difat_sector_start, h.difat_sector_count as nat, Seq::empty(),
        regular_only(h.difat_head@), h.difat_sector_start)
}

/// The 128 bytes of directory entry `k` in the directory's bytes.
pub open spec fn entry_bytes(dir: Seq<u8>, k: int) -> Seq<u8> {
    dir.subrange(128 * k, 128 * k + 128)
}

/// Whether `entries` is what the directory bytes `dir` parse to: one entry
/// for each 128 bytes, numbered in order.
pub open spec fn parsed_directory(dir: Seq<u8>, entries: Seq<DirEntry>) -> bool {
    &&& entries.len() == dir.len() / 128
    &&& forall|k: int| 0 <= k < entries.len() ==> !bad_entry_name(entry_bytes(dir, k))
        && parsed_entry(DirId(k as u32), entry_bytes(dir, k), #[trigger] entries[k])
}

/// Whether `e` is the error the directory bytes `dir` are refused with: the
/// first entry whose name length is too long for an entry in use.
pub open spec fn directory_fault(dir: Seq<u8>, e: Error) -> bool {
    exists|k: int| 0 <= k < dir.len() / 128 && bad_entry_name(entry_bytes(dir, k))
        && (forall|j: int| 0 <= j < k ==> !bad_entry_name(#[trigger] entry_bytes(dir, j)))
        && e == Error::BadDirEntryName { id: k as u32, len: crate::bytes::le16(entry_bytes(dir, k), 64) as u16 }
}

/// The length of the mini stream the mini FAT implies: up to the last mini
/// sector that is not free.
pub open spec fn mini_allocated(mini_fat: Seq<u32>) -> int
    decreases mini_fat.len(),
{
    if mini_fat.len() == 0 {
        0
    } else if mini_fat.last() != FREE {
        (mini_fat.len() * 64) as int
    } else {
        mini_allocated(mini_fat.drop_last())
    }
}

/// A compound file, opened for reading.
///
/// Open one with [`CompoundFile::open`], find entries by path with
/// [`find`](Self::find) or by walking from the root with
/// [`children`](Self::children), and read bytes with
/// [`read_stream`](Self::read_stream).
pub struct CompoundFile {
    data: Vec<u8>,
    header: Header,
    fat: Vec<SectorId>,
    mini_fat: Vec<SectorId>,
    mini_stream_chain: Vec<SectorId>,
    entries: Vec<DirEntry>,
    /// The storage each entry sits in, by entry number. `None` for the root
    /// and for slots nothing points at.
    parents: Vec<Option<DirId>>,
    /// How many storages up each entry is from the root, which is what makes
    /// the walk up from an entry to the root end.
    depth: Ghost<Seq<nat>>,
    warnings: Vec<Warning>,
}

/// Whether `depth` ranks the parent links: an entry's parent is one step
/// nearer the root than the entry.
pub open spec fn ranked(parents: Seq<Option<DirId>>, depth: Seq<nat>) -> bool {
    &&& depth.len() == parents.len()
    &&& forall|x: int| 0 <= x < parents.len() ==> (#[trigger] parents[x] matches Some(p) ==>
        p.0 < parents.len() && depth[x] == depth[p.0 as int] + 1)
}

/// Whether the parents recorded for `entries` are true: an entry is
/// recorded as sitting in a storage only if it is in that storage's tree.
pub open spec fn parents_sound(entries: Seq<DirEntry>, parents: Seq<Option<DirId>>) -> bool {
    &&& parents.len() == entries.len()
    &&& parents.len() > 0 ==> parents[0] is None
    &&& forall|x: int| 0 <= x < parents.len() ==> (#[trigger] parents[x] matches Some(p) ==>
        p.0 < entries.len() && entries[p.0 as int].entry_type.storage()
        && super::tree::in_tree(entries, entries[p.0 as int].child, x as u32))
}

impl CompoundFile {
    /// The file's bytes.
    pub closed spec fn bytes(&self) -> Seq<u8> {
        self.data@
    }

    /// The file's header.
    pub closed spec fn header_view(&self) -> Header {
        self.header
    }

    /// The file allocation table.
    pub closed spec fn fat_view(&self) -> Seq<u32> {
        self.fat@
    }

    /// The mini allocation table.
    pub closed spec fn mini_fat_view(&self) -> Seq<u32> {
        self.mini_fat@
    }

    /// The chain of full sectors holding the mini stream.
    pub closed spec fn mini_chain_view(&self) -> Seq<u32> {
        self.mini_stream_chain@
    }

    /// The directory entries, by number.
    pub closed spec fn entries_view(&self) -> Seq<DirEntry> {
        self.entries@
    }

    /// The storage each entry sits in, by number.
    pub closed spec fn parents_view(&self) -> Seq<Option<DirId>> {
        self.parents@
    }

    /// What the reader worked around.
    pub closed spec fn warnings_view(&self) -> Seq<Warning> {
        self.warnings@
    }

    /// How many storages up each entry is from the root.
    pub closed spec fn depth_view(&self) -> Seq<nat> {
        self.depth@
    }

    /// What every opened file satisfies.
    pub closed spec fn wf(&self) -> bool {
        &&& ranked(self.parents@, self.depth@)
        &&& header_wf(self.header)
        &&& 0 < self.entries@.len() <= u32::MAX
        &&& self.entries@[0].entry_type is RootStorage
        &&& forall|k: int| 0 <= k < self.entries@.len() ==> (#[trigger] self.entries@[k]).id == DirId(k as u32)
        &&& parents_sound(self.entries@, self.parents@)
        &&& parents_complete(self.entries@, self.parents@)
        &&& forall|x: int| 0 <= x < self.entries@.len() ==> #[trigger] self.depth@[x] < self.entries@.len()
        &&& chain_in_table(self.fat@, self.mini_stream_chain@)
    }
}

/// A DIFAT walk fails only on a cycle.
pub proof fn lemma_difat_fault(data: Seq<u8>, size: u32, sid: u32, left: nat, seen: Seq<u32>, acc: Seq<u32>, start: u32)
    ensures
        difat_walk(data, size, sid, left, seen, acc, start) matches Err(e) ==> e matches Error::CyclicChain { .. },
    decreases left,
{
    if left > 0 && regular(sid) && !seen.contains(sid) {
        let s = sids_of(sector_bytes(data, sid, size));
        lemma_difat_fault(data, size, s.last(), (left - 1) as nat, seen.push(sid), acc + regular_only(s.drop_last()), start);
    }
}

/// A chain walk fails only on a cycle or a sector outside the table.
pub proof fn lemma_chain_fault(table: Seq<u32>, sid: u32, taken: Seq<u32>, mini: bool, start: u32)
    ensures
        super::tables::walk_chain(table, sid, taken, mini, start) matches Err(e) ==>
            (e matches Error::CyclicChain { .. }) || (e matches Error::SectorOutOfRange { .. }),
    decreases table.len() - taken.len(),
{
    if regular(sid) && taken.len() < table.len() && sid < table.len() {
        lemma_chain_fault(table, table[sid as int], taken.push(sid), mini, start);
    }
}

/// Collects the sectors holding the FAT, from the header and the DIFAT chain.
fn read_difat(data: &Vec<u8>, h: &Header) -> (r: Result<Vec<SectorId>>)
    requires
        header_wf(*h),
    ensures
        r matches Ok(v) ==> fat_sectors_of(data@, *h) == Ok::<Seq<u32>, Error>(v@),
        r matches Err(e) ==> fat_sectors_of(data@, *h) == Err::<Seq<u32>, Error>(e),
{
    let mut head: Vec<SectorId> = Vec::new();
    let mut i: usize = 0;
    while i < 109
        invariant
            i <= 109,
            head@ == h.difat_head@.take(i as int),
        decreases 109 - i,
    {
        head.push(h.difat_head[i]);
        assert(head@ =~= h.difat_head@.take(i + 1));
        i = i + 1;
    }
    assert(h.difat_head@.take(109) =~= h.difat_head@);
    let mut acc = regular_sids(&head);
    let mut seen: Vec<SectorId> = Vec::new();
    let mut sid = h.difat_sector_start;
    let mut left = h.difat_sector_count;
    let size = h.sector_size;
    while left > 0 && sid <= MAX_REGULAR
        invariant
            size == h.sector_size,
            size == 512 || size == 4096,
            difat_walk(data@, size, sid, left as nat, seen@, acc@, h.difat_sector_start) == fat_sectors_of(data@, *h),
        decreases left,
    {
        if contains_sid(&seen, sid) {
            return Err(Error::CyclicChain { mini: false, start: h.difat_sector_start });
        }
        seen.push(sid);
        let sector = read_sector(data, sid, size);
        let entries = read_sids(&sector);
        let body = copy_range(&entries, 0, entries.len() - 1);
        let mut more = regular_sids(&body);
        let next = entries[entries.len() - 1];
        proof {
            assert(body@ =~= entries@.drop_last());
        }
        acc.append(&mut more);
        sid = next;
        left = left - 1;
    }
    Ok(acc)
}

/// Whether `sid` is among `seen`.
fn contains_sid(seen: &Vec<SectorId>, sid: SectorId) -> (r: bool)
    ensures
        r == seen@.contains(sid),
{
    let mut i: usize = 0;
    while i < seen.len()
        invariant
            i <= seen.len(),
            forall|j: int| 0 <= j < i ==> seen@[j] != sid,
        decreases seen.len() - i,
    {
        if seen[i] == sid {
            return true;
        }
        i = i + 1;
    }
    false
}

/// The bytes of the sectors of `c`, one after another.
fn read_chain_bytes(data: &Vec<u8>, size: u32, c: &Vec<SectorId>) -> (r: Vec<u8>)
    ensures
        r@ == chain_bytes(data@, size, c@),
{
    let mut out: Vec<u8> = Vec::new();
    let mut i: usize = 0;
    while i < c.len()
        invariant
            i <= c.len(),
            out@ == chain_bytes(data@, size, c@.take(i as int)),
        decreases c.len() - i,
    {
        let mut sector = read_sector(data, c[i], size);
        assert(c@.take(i + 1).drop_last() =~= c@.take(i as int));
        out.append(&mut sector);
        i = i + 1;
    }
    assert(c@.take(c.len() as int) =~= c@);
    out
}

/// Parses every 128-byte directory entry in the directory's bytes.
fn parse_directory(dir: &Vec<u8>) -> (r: Result<Vec<DirEntry>>)
    ensures
        r matches Ok(v) ==> parsed_directory(dir@, v@),
        r matches Err(e) ==> directory_fault(dir@, e),
{
    let n = dir.len() / DIR_ENTRY_LEN;
    let mut out: Vec<DirEntry> = Vec::new();
    let mut k: usize = 0;
    while k < n
        invariant
            n == dir@.len() / 128,
            k <= n,
            out@.len() == k,
            forall|j: int| 0 <= j < k ==> !bad_entry_name(#[trigger] entry_bytes(dir@, j)),
            forall|j: int| 0 <= j < k ==> parsed_entry(DirId(j as u32), entry_bytes(dir@, j), #[trigger] out@[j]),
        decreases n - k,
    {
        assert(dir@.len() == dir.len());
        assert(128 * k + 128 <= dir@.len()) by (nonlinear_arith)
            requires k < n, n == dir@.len() / 128;
        let raw = copy_range(dir, 128 * k, 128 * k + 128);
        assert(raw@ == entry_bytes(dir@, k as int));
        match DirEntry::parse(DirId(k as u32), &raw) {
            Ok(e) => out.push(e),
            Err(e) => {
                assert(directory_fault(dir@, e)) by {
                    assert(bad_entry_name(entry_bytes(dir@, k as int)));
                }
                return Err(e);
            },
        }
        k = k + 1;
    }
    Ok(out)
}

/// The length the mini FAT implies for the mini stream.
fn mini_allocated_len(mini_fat: &Vec<SectorId>) -> (r: u64)
    ensures
        r == (if mini_allocated(mini_fat@) <= u64::MAX { mini_allocated(mini_fat@) } else { u64::MAX as int }),
{
    let mut i = mini_fat.len();
    assert(mini_fat@.take(i as int) =~= mini_fat@);
    while i > 0 && mini_fat[i - 1] == FREE
        invariant
            i <= mini_fat.len(),
            mini_allocated(mini_fat@.take(i as int)) == mini_allocated(mini_fat@),
        decreases i,
    {
        assert(mini_fat@.take(i as int).drop_last() =~= mini_fat@.take(i - 1));
        i = i - 1;
    }
    proof {
        if i > 0 {
            assert(mini_fat@.take(i as int).last() == mini_fat@[i - 1]);
        } else {
            assert(mini_fat@.take(0) =~= Seq::<u32>::empty());
        }
    }
    if i as u128 > (u64::MAX / 64) as u128 {
        u64::MAX
    } else {
        (i as u64) * 64
    }
}


/// The warning, if any, a FAT sector count disagreeing with the DIFAT gives.
pub open spec fn fat_count_warning(h: Header, found: int) -> Seq<Warning> {
    if found as u32 != h.fat_sector_count {
        seq![Warning::FatSectorCountMismatch { declared: h.fat_sector_count, found: found as u32 }]
    } else {
        Seq::empty()
    }
}

/// The warning, if any, an allocated range-lock sector gives.
pub open spec fn range_lock_warning(h: Header, fat: Seq<u32>) -> Seq<Warning> {
    if h.sector_size == 4096 && fat.len() > RANGE_LOCK_SECTOR
        && fat[RANGE_LOCK_SECTOR as int] != END_OF_CHAIN && fat[RANGE_LOCK_SECTOR as int] != FREE {
        seq![Warning::RangeLockSectorInUse { sector: RANGE_LOCK_SECTOR }]
    } else {
        Seq::empty()
    }
}

/// The warning, if any, a directory sector count disagreeing with the
/// directory chain gives. Version 3 files leave the count at zero.
pub open spec fn dir_count_warning(h: Header, found: int) -> Seq<Warning> {
    if found != 0 && h.dir_sector_count != 0 && found as u32 != h.dir_sector_count {
        seq![Warning::DirSectorCountMismatch { declared: h.dir_sector_count, found: found as u32 }]
    } else {
        Seq::empty()
    }
}

/// The warning, if any, a mini stream length disagreeing with the mini FAT
/// gives.
pub open spec fn mini_size_warning(declared: u64, mini_fat: Seq<u32>) -> Seq<Warning> {
    let found = if mini_allocated(mini_fat) <= u64::MAX { mini_allocated(mini_fat) } else { u64::MAX as int };
    if found != declared {
        seq![Warning::MiniStreamSizeMismatch { declared, found: found as u64 }]
    } else {
        Seq::empty()
    }
}


/// Whether every member of storage `s`'s tree is recorded as sitting in `s`.
pub open spec fn members_parented(es: Seq<DirEntry>, ps: Seq<Option<DirId>>, s: int) -> bool {
    forall|m: u32| in_tree(es, es[s].child, m) ==> m < ps.len() && ps[m as int] == Some(DirId(s as u32))
}

/// Whether the parents recorded are complete: the root, and every storage
/// that sits somewhere, have each of their members recorded as sitting in
/// them.
pub open spec fn parents_complete(es: Seq<DirEntry>, ps: Seq<Option<DirId>>) -> bool {
    forall|s: int| 0 <= s < ps.len() && (s == 0 || ps[s] is Some) && es[s].entry_type.storage()
        ==> #[trigger] members_parented(es, ps, s)
}

/// Why working out each entry's parent fails: a storage whose tree cannot
/// be listed, or an entry met in the trees of two storages.
pub open spec fn parents_fault(entries: Seq<DirEntry>, e: Error) -> bool {
    exists|s: int| 0 <= s < entries.len() && entries[s].entry_type.storage() && (
        tree_fault(entries, #[trigger] entries[s].child, e)
        || (e matches Error::CorruptDirectoryTree { id } && in_tree(entries, entries[s].child, id)))
}

/// Works out which storage each entry sits in, walking the storages from
/// the root, each storage's children in name order.
///
/// Every storage's children are checked here too, so a file with a corrupt
/// directory tree fails on open rather than on whichever listing happens to
/// touch it first.
fn read_parents(entries: &Vec<DirEntry>) -> (r: Result<(Vec<Option<DirId>>, Ghost<Seq<nat>>)>)
    requires
        0 < entries@.len() <= u32::MAX,
        entries@[0].entry_type.storage(),
    ensures
        r matches Ok(p) ==> parents_sound(entries@, p.0@) && ranked(p.0@, p.1@) && parents_complete(entries@, p.0@)
            && forall|x: int| 0 <= x < entries@.len() ==> #[trigger] p.1@[x] < entries@.len(),
        r matches Err(e) ==> parents_fault(entries@, e),
{
    let n = entries.len();
    let mut parents: Vec<Option<DirId>> = Vec::new();
    let mut seen: Vec<bool> = Vec::new();
    let mut k: usize = 0;
    while k < n
        invariant
            n == entries@.len(),
            k <= n,
            parents@.len() == k,
            seen@.len() == k,
            forall|j: int| 0 <= j < k ==> parents@[j] is None,
            forall|j: int| 0 <= j < k ==> !seen@[j],
            count_true(seen@) == 0,
        decreases n - k,
    {
        assert(seen@.push(false).drop_last() =~= seen@);
        parents.push(None);
        seen.push(false);
        k = k + 1;
    }
    proof { lemma_count_true_set(seen@, 0); }
    seen.set(0, true);

    let ghost mut depth: Seq<nat> = Seq::new(n as nat, |_i: int| 0nat);
    let mut stack: Vec<u32> = Vec::new();
    stack.push(0);
    assert(stack@[0] == 0);
    while stack.len() > 0
        invariant
            n == entries@.len(),
            n <= u32::MAX,
            parents@.len() == n,
            seen@.len() == n,
            seen@[0],
            parents@[0] is None,
            forall|x: int| 0 <= x < n ==> (#[trigger] parents@[x] matches Some(p) ==>
                p.0 < n && entries@[p.0 as int].entry_type.storage()
                && in_tree(entries@, entries@[p.0 as int].child, x as u32)),
            forall|i: int| 0 <= i < stack@.len() ==> stack@[i] < n && entries@[#[trigger] stack@[i] as int].entry_type.storage(),
            count_true(seen@) <= n,
            forall|x: int| 0 <= x < n ==> #[trigger] depth[x] < count_true(seen@),
            ranked(parents@, depth),
            forall|x: int| 0 <= x < n ==> (#[trigger] parents@[x] matches Some(p) ==> seen@[p.0 as int] && seen@[x]),
            forall|i: int| 0 <= i < stack@.len() ==> seen@[#[trigger] stack@[i] as int],
            forall|x: int| 0 <= x < n ==> (#[trigger] seen@[x] <==> (x == 0 || parents@[x] is Some)),
            forall|t: int| 0 <= t < n && (t == 0 || parents@[t] is Some) && entries@[t].entry_type.storage()
                ==> stack@.contains(t as u32) || #[trigger] members_parented(entries@, parents@, t),
        decreases n - count_true(seen@), stack@.len(),
    {
        let ghost stack_full = stack@;
        let id = stack.pop().unwrap();
        proof {
            assert forall|t: int| 0 <= t < n && (t == 0 || parents@[t] is Some) && entries@[t].entry_type.storage()
                && t != id as int implies stack@.contains(t as u32) || #[trigger] members_parented(entries@, parents@, t) by {
                if stack_full.contains(t as u32) && !members_parented(entries@, parents@, t) {
                    assert(stack_full.last() == id);
                    assert(stack@ =~= stack_full.drop_last());
                    let w = choose|w: int| 0 <= w < stack_full.len() && stack_full[w] == t as u32;
                    assert(w != stack_full.len() - 1);
                    assert(stack@[w] == t as u32);
                }
            }
        }
        let top = entries[id as usize].child;
        let members = match tree_members(entries, top) {
            Ok(m) => m,
            Err(e) => { return Err(e); },
        };
        let sorted = sort_by_name(entries, &members);
        let ghost count_before = count_true(seen@);
        let ghost stack_before = stack@.len();
        let mut i: usize = 0;
        while i < sorted.len()
            invariant
                n == entries@.len(),
                id < n,
                entries@[id as int].entry_type.storage(),
                top == entries@[id as int].child,
                lists_tree(entries@, top, members@),
                forall|x: u32| sorted@.contains(x) <==> members@.contains(x),
                forall|j: int| 0 <= j < sorted@.len() ==> sorted@[j] < n,
                i <= sorted@.len(),
                parents@.len() == n,
                seen@.len() == n,
                seen@[0],
                parents@[0] is None,
                count_true(seen@) >= count_before + i,
                count_true(seen@) <= n,
                forall|x: int| 0 <= x < n ==> #[trigger] depth[x] < count_true(seen@),
                stack@.len() <= stack_before + i,
                seen@[id as int],
                ranked(parents@, depth),
                forall|x: int| 0 <= x < n ==> (#[trigger] parents@[x] matches Some(p) ==> seen@[p.0 as int] && seen@[x]),
                forall|j: int| 0 <= j < stack@.len() ==> seen@[#[trigger] stack@[j] as int],
                forall|x: int| 0 <= x < n ==> (#[trigger] parents@[x] matches Some(p) ==>
                    p.0 < n && entries@[p.0 as int].entry_type.storage()
                    && in_tree(entries@, entries@[p.0 as int].child, x as u32)),
                forall|j: int| 0 <= j < stack@.len() ==> stack@[j] < n && entries@[#[trigger] stack@[j] as int].entry_type.storage(),
                forall|x: int| 0 <= x < n ==> (#[trigger] seen@[x] <==> (x == 0 || parents@[x] is Some)),
                forall|t: int| 0 <= t < n && (t == 0 || parents@[t] is Some) && entries@[t].entry_type.storage() && t != id as int
                    ==> stack@.contains(t as u32) || #[trigger] members_parented(entries@, parents@, t),
                forall|j: int| 0 <= j < i ==> parents@[#[trigger] sorted@[j] as int] == Some(DirId(id)),
                id == 0 || parents@[id as int] is Some,
            decreases sorted@.len() - i,
        {
            let child = sorted[i];
            assert(members@.contains(child)) by {
                assert(sorted@.contains(child) ==> members@.contains(child));
                assert(sorted@[i as int] == child);
            }
            assert(in_tree(entries@, top, child)) by {
                let w = choose|w: int| 0 <= w < members@.len() && members@[w] == child;
                assert(in_tree(entries@, top, members@[w]));
            }
            if seen[child as usize] {
                assert(parents_fault(entries@, Error::CorruptDirectoryTree { id: child })) by {
                    assert(entries@[id as int].child == top);
                }
                return Err(Error::CorruptDirectoryTree { id: child });
            }
            proof {
                lemma_count_true_set(seen@, child as int);
                lemma_count_true_bound(seen@.update(child as int, true));
            }
            let ghost parents_before = parents@;
            let ghost stack_before_push = stack@;
            seen.set(child as usize, true);
            parents.set(child as usize, Some(DirId(id)));
            proof {
                depth = depth.update(child as int, depth[id as int] + 1);
                assert forall|x: int| 0 <= x < parents@.len() implies (#[trigger] parents@[x] matches Some(p) ==>
                    p.0 < parents@.len() && depth[x] == depth[p.0 as int] + 1) by {
                    if x != child as int {
                        if let Some(p) = parents@[x] {
                            assert(p.0 != child);
                        }
                    }
                }
            }
            if entries[child as usize].entry_type.is_storage() {
                stack.push(child);
            }
            proof {
                assert(parents_before[child as int] is None);
                assert forall|t: int| 0 <= t < n && (t == 0 || parents@[t] is Some) && entries@[t].entry_type.storage() && t != id as int
                    implies stack@.contains(t as u32) || #[trigger] members_parented(entries@, parents@, t) by {
                    if t == child as int {
                        assert(stack@[stack@.len() - 1] == child);
                    } else {
                        assert(parents_before[t] == parents@[t]);
                        if stack_before_push.contains(t as u32) {
                            let w = choose|w: int| 0 <= w < stack_before_push.len() && stack_before_push[w] == t as u32;
                            assert(stack@[w] == t as u32);
                        } else {
                            assert(members_parented(entries@, parents_before, t));
                            assert forall|m: u32| in_tree(entries@, entries@[t].child, m) implies
                                m < parents@.len() && parents@[m as int] == Some(DirId(t as u32)) by {
                                assert(parents_before[m as int] == Some(DirId(t as u32)));
                            }
                        }
                    }
                }
                assert forall|j: int| 0 <= j < i + 1 implies parents@[#[trigger] sorted@[j] as int] == Some(DirId(id)) by {
                    if j < i {
                        assert(sorted@[j] != child) by {
                            assert(seen@[sorted@[j] as int]);
                        }
                    }
                }
            }
            i = i + 1;
        }
        proof {
            lemma_count_true_bound(seen@);
            assert(members_parented(entries@, parents@, id as int)) by {
                assert forall|m: u32| in_tree(entries@, top, m) implies m < parents@.len() && parents@[m as int] == Some(DirId(id)) by {
                    assert(members@.contains(m));
                    assert(sorted@.contains(m));
                    let w = choose|w: int| 0 <= w < sorted@.len() && sorted@[w] == m;
                    assert(parents@[sorted@[w] as int] == Some(DirId(id)));
                }
            }
        }
    }
    Ok((parents, Ghost(depth)))
}

impl CompoundFile {
    /// Opens a compound file from its bytes, reading its header, allocation
    /// tables and directory.
    ///
    /// Where a count in the header conflicts with what the sector chains
    /// hold, the chains are believed and the discrepancy recorded as a
    /// [`Warning`]. Anything that would make a read ambiguous or unbounded is
    /// an error.
    #[verifier::rlimit(60)]
    #[verifier::spinoff_prover]
    pub fn open(data: Vec<u8>) -> (r: Result<Self>)
        ensures
            r matches Ok(f) ==> f.wf() && f.bytes() == data@ && opened_from(data@, f),
            r matches Err(e) ==> open_fault(data@, e),
    {
        if data.len() < HEADER_LEN {
            return Err(Error::UnexpectedEof { len: data.len() as u64 });
        }
        let raw = copy_range(&data, 0, HEADER_LEN);
        let header = Header::parse(&raw)?;
        let size = header.sector_size;

        // The FAT, from the sectors the DIFAT lists.
        proof {
            lemma_difat_fault(data@, size, header.difat_sector_start, header.difat_sector_count as nat,
                Seq::empty(), regular_only(header.difat_head@), header.difat_sector_start);
        }
        let fat_sectors = read_difat(&data, &header)?;
        let mut warnings: Vec<Warning> = Vec::new();
        if fat_sectors.len() as u32 != header.fat_sector_count {
            warnings.push(Warning::FatSectorCountMismatch {
                declared: header.fat_sector_count,
                found: fat_sectors.len() as u32,
            });
        }
        let fat = read_table(&data, size, &fat_sectors);
        // Version 4 files must leave the range-lock sector free. Some writers
        // do not; nothing here depends on it, so just note it.
        if size == 4096 && fat.len() > RANGE_LOCK_SECTOR as usize {
            let v = fat[RANGE_LOCK_SECTOR as usize];
            if v != END_OF_CHAIN && v != FREE {
                warnings.push(Warning::RangeLockSectorInUse { sector: RANGE_LOCK_SECTOR });
            }
        }
        let ghost w1 = warnings@;
        assert(w1 =~= fat_count_warning(header, fat_sectors@.len() as int) + range_lock_warning(header, fat@));

        // The mini FAT.
        proof {
            lemma_chain_fault(fat@, header.mini_fat_sector_start, Seq::empty(), false, header.mini_fat_sector_start);
            lemma_chain_fault(fat@, header.dir_sector_start, Seq::empty(), false, header.dir_sector_start);
        }
        let mini_fat_chain = chain(&fat, header.mini_fat_sector_start, false)?;
        let mini_fat = read_table(&data, size, &mini_fat_chain);

        // The directory.
        let dir_chain = chain(&fat, header.dir_sector_start, false)?;
        if dir_chain.len() != 0 && header.dir_sector_count != 0
            && dir_chain.len() as u32 != header.dir_sector_count {
            warnings.push(Warning::DirSectorCountMismatch {
                declared: header.dir_sector_count,
                found: dir_chain.len() as u32,
            });
        }
        let ghost w2 = warnings@;
        assert(w2 =~= w1 + dir_count_warning(header, dir_chain@.len() as int));
        let dir = read_chain_bytes(&data, size, &dir_chain);
        let entries = parse_directory(&dir)?;
        if entries.len() == 0 || !matches!(entries[0].entry_type, super::dir_entry::EntryType::RootStorage) {
            return Err(Error::MissingRootEntry);
        }
        if entries.len() > 0xFFFF_FFFF {
            // Directory entry numbers are 32 bits wide.
            return Err(Error::Unrepresentable { what: "more directory entries than entry numbers" });
        }
        let (parents, depth) = read_parents(&entries)?;

        // The mini stream's own chain of full sectors.
        let mut mini_stream_chain: Vec<SectorId> = Vec::new();
        assert(chain_in_table(fat@, mini_stream_chain@));
        if let Some(start) = entries[0].start_sector {
            proof { lemma_chain_fault(fat@, start, Seq::empty(), false, start); }
            mini_stream_chain = chain(&fat, start, false)?;
            // The mini FAT says how many mini sectors are allocated, which
            // gives a second reading of the mini stream's length.
            let allocated = mini_allocated_len(&mini_fat);
            let declared = entries[0].stream_len;
            if allocated != declared {
                warnings.push(Warning::MiniStreamSizeMismatch { declared, found: allocated });
            }
            assert(warnings@ =~= w2 + mini_size_warning(declared, mini_fat@));
        } else {
            assert(warnings@ =~= w2);
        }
        proof {
            assert forall|k: int| 0 <= k < entries@.len() implies (#[trigger] entries@[k]).id == DirId(k as u32) by {
                assert(parsed_entry(DirId(k as u32), entry_bytes(dir@, k), entries@[k]));
            }
        }
        let f = Self { data, header, fat, mini_fat, mini_stream_chain, entries, parents, depth, warnings };
        assert(f.wf());
        assert(opened_from(f.data@, f));
        Ok(f)
    }
}

/// What opening the bytes `data` gives, stage by stage: the header parsed
/// from the first 512 bytes; the FAT from the sectors the DIFAT lists; the
/// mini FAT from its chain; the directory from its chain, its first entry
/// the root storage; each entry's parent; the mini stream's chain from the
/// root entry; and the warnings for each count the chains contradict.
pub open spec fn opened_from(data: Seq<u8>, f: CompoundFile) -> bool {
    let h = f.header_view();
    let size = h.sector_size;
    &&& data.len() >= 512
    &&& !header_refused(data.subrange(0, 512)) && header_fields(data.subrange(0, 512), h)
    &&& match fat_sectors_of(data, h) {
        Ok(fs) => match chain_of(f.fat_view(), h.mini_fat_sector_start, false) {
            Ok(mc) => match chain_of(f.fat_view(), h.dir_sector_start, false) {
                Ok(dc) => {
                    let base = fat_count_warning(h, fs.len() as int) + range_lock_warning(h, f.fat_view())
                        + dir_count_warning(h, dc.len() as int);
                    &&& f.fat_view() == sids_of(chain_bytes(data, size, fs))
                    &&& f.mini_fat_view() == sids_of(chain_bytes(data, size, mc))
                    &&& parsed_directory(chain_bytes(data, size, dc), f.entries_view())
                    &&& parents_sound(f.entries_view(), f.parents_view())
                    &&& match f.entries_view()[0].start_sector {
                        Some(start) => chain_of(f.fat_view(), start, false) == Ok::<Seq<u32>, Error>(f.mini_chain_view())
                            && f.warnings_view() == base + mini_size_warning(f.entries_view()[0].stream_len, f.mini_fat_view()),
                        None => f.mini_chain_view() == Seq::<u32>::empty() && f.warnings_view() == base,
                    }
                },
                Err(_) => false,
            },
            Err(_) => false,
        },
        Err(_) => false,
    }
}

/// Why opening the bytes `data` fails: too short for a header; a refused
/// header; a cyclic DIFAT; a FAT chain for the mini FAT or directory that is
/// cyclic or leaves the table; a directory entry refused; no root entry; a
/// directory tree that is not a tree; or a mini stream chain that is cyclic
/// or leaves the table.
pub open spec fn open_fault(data: Seq<u8>, e: Error) -> bool {
    ||| data.len() < 512 && e == Error::UnexpectedEof { len: data.len() as u64 }
    ||| data.len() >= 512 && is_header_fault(data.subrange(0, 512), e)
    ||| data.len() >= 512 && !header_refused(data.subrange(0, 512)) && exists|h: Header|
        #[trigger] header_fields(data.subrange(0, 512), h) && stage_fault(data, h, e)
}

/// Why opening fails after header `h` was read: the DIFAT, the mini FAT's
/// chain or the directory's chain fails; a directory entry is refused; the
/// directory has no root entry first, or more entries than entry numbers;
/// the directory trees cannot give each entry one parent; or the mini
/// stream's chain fails.
pub open spec fn stage_fault(data: Seq<u8>, h: Header, e: Error) -> bool {
    let size = h.sector_size;
    match fat_sectors_of(data, h) {
        Err(x) => e == x,
        Ok(fs) => {
            let fat = sids_of(chain_bytes(data, size, fs));
            match chain_of(fat, h.mini_fat_sector_start, false) {
                Err(x) => e == x,
                Ok(_) => match chain_of(fat, h.dir_sector_start, false) {
                    Err(x) => e == x,
                    Ok(dc) => {
                        let dir = chain_bytes(data, size, dc);
                        ||| directory_fault(dir, e)
                        ||| exists|es: Seq<DirEntry>| #[trigger] parsed_directory(dir, es) && entries_fault(fat, es, e)
                    },
                },
            }
        },
    }
}

/// Why a parsed directory `es` cannot be opened: no root entry first, more
/// entries than entry numbers, trees that cannot give each entry one parent,
/// or a mini stream chain that fails.
pub open spec fn entries_fault(fat: Seq<u32>, es: Seq<DirEntry>, e: Error) -> bool {
    if es.len() == 0 || !(es[0].entry_type is RootStorage) {
        e == Error::MissingRootEntry
    } else if es.len() > u32::MAX {
        e matches Error::Unrepresentable { .. }
    } else {
        ||| parents_fault(es, e)
        ||| (es[0].start_sector matches Some(st) && chain_of(fat, st, false) == Err::<Seq<u32>, Error>(e))
    }
}

/// The error naming a directory entry number that is not in `entries`.
pub open spec fn out_of_range(entries: Seq<DirEntry>, id: u32) -> Error {
    Error::DirEntryOutOfRange { id, count: entries.len() as u32 }
}

/// Whether `e` is why the members of storage `id` cannot be listed: it is
/// not an entry, it is not a storage, or its tree is corrupt.
pub open spec fn listing_fault(entries: Seq<DirEntry>, id: u32, e: Error) -> bool {
    if id >= entries.len() {
        e == out_of_range(entries, id)
    } else if !entries[id as int].entry_type.storage() {
        e == (Error::WrongEntryType { id, expected: "storage" })
    } else {
        tree_fault(entries, entries[id as int].child, e)
    }
}

impl CompoundFile {
    /// The file's header, as it was written.
    pub fn header(&self) -> (r: &Header)
        ensures
            *r == self.header_view(),
    {
        &self.header
    }

    /// The sector size this file uses, in bytes.
    pub fn sector_size(&self) -> (r: u32)
        ensures
            r == self.header_view().sector_size,
    {
        self.header.sector_size
    }

    /// The file allocation table: for each sector, the next one in its chain.
    pub fn fat(&self) -> (r: &[SectorId])
        ensures
            r@ == self.fat_view(),
    {
        self.fat.as_slice()
    }

    /// The mini allocation table, which chains the 64-byte mini sectors.
    pub fn mini_fat(&self) -> (r: &[SectorId])
        ensures
            r@ == self.mini_fat_view(),
    {
        self.mini_fat.as_slice()
    }

    /// Everything about the file the reader had to work around. Empty for a
    /// well-formed file.
    pub fn warnings(&self) -> (r: &[Warning])
        ensures
            r@ == self.warnings_view(),
    {
        self.warnings.as_slice()
    }

    /// Every directory entry in the file, including unused slots; the
    /// position in the slice is the entry's number.
    pub fn entries(&self) -> (r: &[DirEntry])
        ensures
            r@ == self.entries_view(),
    {
        self.entries.as_slice()
    }

    /// One directory entry, by number.
    pub fn entry(&self, id: DirId) -> (r: Result<&DirEntry>)
        ensures
            id.0 < self.entries_view().len() ==> r == Ok::<&DirEntry, Error>(&self.entries_view()[id.0 as int]),
            id.0 >= self.entries_view().len() ==> r == Err::<&DirEntry, Error>(out_of_range(self.entries_view(), id.0)),
    {
        if (id.0 as usize) < self.entries.len() {
            Ok(&self.entries[id.0 as usize])
        } else {
            Err(Error::DirEntryOutOfRange { id: id.0, count: self.entries.len() as u32 })
        }
    }

    /// The root storage. It cannot fail on an opened file.
    pub fn root(&self) -> (r: Result<&DirEntry>)
        requires
            self.wf(),
        ensures
            r == Ok::<&DirEntry, Error>(&self.entries_view()[0]),
            self.entries_view()[0].entry_type is RootStorage,
    {
        self.entry(DirId(0))
    }

    /// The numbers of the entries directly inside a storage, in name order.
    fn child_ids(&self, id: DirId) -> (r: Result<Vec<u32>>)
        ensures
            r matches Ok(ids) ==> id.0 < self.entries_view().len()
                && self.entries_view()[id.0 as int].entry_type.storage()
                && lists_tree(self.entries_view(), self.entries_view()[id.0 as int].child, ids@)
                && super::tree::in_name_order(self.entries_view(), ids@),
            r matches Err(e) ==> listing_fault(self.entries_view(), id.0, e),
    {
        let entry = self.entry(id)?;
        if !entry.entry_type.is_storage() {
            return Err(Error::WrongEntryType { id: id.0, expected: "storage" });
        }
        let members = tree_members(&self.entries, entry.child)?;
        let sorted = sort_by_name(&self.entries, &members);
        proof {
            let es = self.entries_view();
            let top = es[id.0 as int].child;
            assert forall|i: int| 0 <= i < sorted@.len() implies sorted@[i] < es.len() && super::tree::in_tree(es, top, #[trigger] sorted@[i]) by {
                assert(members@.contains(sorted@[i]));
                let w = choose|w: int| 0 <= w < members@.len() && members@[w] == sorted@[i];
                assert(super::tree::in_tree(es, top, members@[w]));
            }
        }
        Ok(sorted)
    }

    /// The entries directly inside a storage, ordered by name.
    ///
    /// The order is the format's own: shorter names first, then
    /// case-insensitively. See [`cmp_names`](super::cmp_names).
    pub fn children(&self, id: DirId) -> (r: Result<Vec<&DirEntry>>)
        ensures
            r matches Ok(v) ==> exists|ids: Seq<u32>| {
                &&& id.0 < self.entries_view().len()
                &&& self.entries_view()[id.0 as int].entry_type.storage()
                &&& lists_tree(self.entries_view(), self.entries_view()[id.0 as int].child, ids)
                &&& super::tree::in_name_order(self.entries_view(), ids)
                &&& v@.len() == ids.len()
                &&& forall|i: int| 0 <= i < ids.len() ==> *v@[i] == self.entries_view()[#[trigger] ids[i] as int]
            },
            r matches Err(e) ==> listing_fault(self.entries_view(), id.0, e),
    {
        let ids = self.child_ids(id)?;
        let mut out: Vec<&DirEntry> = Vec::new();
        let mut i: usize = 0;
        while i < ids.len()
            invariant
                i <= ids@.len(),
                forall|k: int| 0 <= k < ids@.len() ==> ids@[k] < self.entries_view().len(),
                out@.len() == i,
                forall|k: int| 0 <= k < i ==> *out@[k] == self.entries_view()[ids@[k] as int],
            decreases ids@.len() - i,
        {
            out.push(&self.entries[ids[i] as usize]);
            i = i + 1;
        }
        Ok(out)
    }

    /// The entry of this name directly inside a storage, if there is one.
    ///
    /// A storage's children are a search tree in name order, so this walks
    /// down the tree rather than listing every child. A writer that got the
    /// order wrong would hide a name from the walk, so a miss is checked
    /// against every child before it is believed.
    pub fn child(&self, parent: DirId, name: &str) -> (r: Result<Option<&DirEntry>>)
        ensures
            r matches Ok(Some(e)) ==> parent.0 < self.entries_view().len()
                && self.entries_view()[parent.0 as int].entry_type.storage()
                && exists|x: u32| x < self.entries_view().len()
                    && super::tree::in_tree(self.entries_view(), self.entries_view()[parent.0 as int].child, x)
                    && *e == self.entries_view()[x as int] && name_order(name@, e.name@) == 0,
            r matches Ok(None) ==> parent.0 < self.entries_view().len()
                && self.entries_view()[parent.0 as int].entry_type.storage()
                && forall|x: u32| super::tree::in_tree(self.entries_view(), self.entries_view()[parent.0 as int].child, x)
                    ==> x < self.entries_view().len() && name_order(self.entries_view()[x as int].name@, name@) != 0,
            r matches Err(e) ==> listing_fault(self.entries_view(), parent.0, e),
    {
        let storage = self.entry(parent)?;
        if !storage.entry_type.is_storage() {
            return Err(Error::WrongEntryType { id: parent.0, expected: "storage" });
        }
        let top = storage.child;
        let mut next = top;
        let mut steps: usize = 0;
        let ghost es = self.entries_view();
        proof {
            if let Some(t) = top {
                assert(reaches(es, t.0, t.0, 0));
            }
        }
        while steps < self.entries.len()
            invariant
                es == self.entries_view(),
                parent.0 < es.len(),
                es[parent.0 as int].entry_type.storage(),
                top == es[parent.0 as int].child,
                next matches Some(d) ==> super::tree::in_tree(es, top, d.0),
            decreases self.entries.len() - steps,
        {
            let id = match next {
                Some(id) => id,
                None => { break; },
            };
            if (id.0 as usize) >= self.entries.len() {
                return Err(Error::DirEntryOutOfRange { id: id.0, count: self.entries.len() as u32 });
            }
            let entry = &self.entries[id.0 as usize];
            if name_same(name, entry.name.as_str()) {
                return Ok(Some(entry));
            }
            proof {
                let t = top->0;
                let k = choose|k: nat| reaches(es, t.0, id.0, k);
                if let Some(l) = entry.left {
                    super::tree::lemma_reaches_extend(es, t.0, id.0, k, l.0);
                }
                if let Some(r) = entry.right {
                    super::tree::lemma_reaches_extend(es, t.0, id.0, k, r.0);
                }
            }
            next = if name_less(name, entry.name.as_str()) { entry.left } else { entry.right };
            steps = steps + 1;
        }
        let members = tree_members(&self.entries, top)?;
        let mut i: usize = 0;
        while i < members.len()
            invariant
                es == self.entries_view(),
                parent.0 < es.len(),
                es[parent.0 as int].entry_type.storage(),
                top == es[parent.0 as int].child,
                lists_tree(es, top, members@),
                i <= members@.len(),
                forall|k: int| 0 <= k < i ==> name_order(es[members@[k] as int].name@, name@) != 0,
            decreases members@.len() - i,
        {
            let entry = &self.entries[members[i] as usize];
            if name_same(entry.name.as_str(), name) {
                proof { crate::text::lemma_name_order_flip(entry.name@, name@); }
                return Ok(Some(entry));
            }
            i = i + 1;
        }
        proof {
            assert forall|x: u32| super::tree::in_tree(es, top, x) implies
                x < es.len() && name_order(es[x as int].name@, name@) != 0 by {
                assert(members@.contains(x));
                let w = choose|w: int| 0 <= w < members@.len() && members@[w] == x;
                assert(members@[w] < es.len());
            }
        }
        Ok(None)
    }

    /// The storage an entry sits in, or `None` for the root.
    pub fn parent(&self, id: DirId) -> (r: Result<Option<DirId>>)
        ensures
            id.0 < self.parents_view().len() ==> r == Ok::<Option<DirId>, Error>(self.parents_view()[id.0 as int]),
            id.0 >= self.parents_view().len() ==> r == Err::<Option<DirId>, Error>(out_of_range(self.entries_view(), id.0)),
    {
        if (id.0 as usize) < self.parents.len() {
            Ok(self.parents[id.0 as usize])
        } else {
            Err(Error::DirEntryOutOfRange { id: id.0, count: self.entries.len() as u32 })
        }
    }
}


/// The names from the top of an entry's line of parents down to the entry,
/// the top itself left out.
pub open spec fn ancestry(entries: Seq<DirEntry>, parents: Seq<Option<DirId>>, depth: Seq<nat>, x: int) -> Seq<Seq<char>>
    decreases depth[x],
{
    match up(parents, depth, x) {
        Some(p) => ancestry(entries, parents, depth, p).push(entries[x].name@),
        None => Seq::empty(),
    }
}

/// The parent of entry `x`, one rank nearer the root, if it has one.
pub open spec fn up(parents: Seq<Option<DirId>>, depth: Seq<nat>, x: int) -> Option<int> {
    if 0 <= x < parents.len() {
        match parents[x] {
            Some(p) => if p.0 < parents.len() && depth[x] == depth[p.0 as int] + 1 { Some(p.0 as int) } else { None },
            None => None,
        }
    } else {
        None
    }
}

/// The top of an entry's line of parents: the first with no parent.
pub open spec fn top_of(parents: Seq<Option<DirId>>, depth: Seq<nat>, x: int) -> int
    decreases depth[x],
{
    match up(parents, depth, x) {
        Some(p) => top_of(parents, depth, p),
        None => x,
    }
}

/// Names joined into a path: each one after a slash, or a lone slash for none.
pub open spec fn slashed(names: Seq<Seq<char>>) -> Seq<char>
    decreases names.len(),
{
    if names.len() == 0 {
        Seq::empty()
    } else {
        slashed(names.drop_last()) + seq!['/'] + names.last()
    }
}

/// The path of the entry whose names from the root down are `names`.
pub open spec fn path_text(names: Seq<Seq<char>>) -> Seq<char> {
    if names.len() == 0 { seq!['/'] } else { slashed(names) }
}

/// Whether entry `b` is a member of storage `a`'s tree named `part`.
pub open spec fn step(es: Seq<DirEntry>, a: u32, part: Seq<char>, b: u32) -> bool {
    &&& a < es.len()
    &&& es[a as int].entry_type.storage()
    &&& b < es.len()
    &&& in_tree(es, es[a as int].child, b)
    &&& name_order(part, es[b as int].name@) == 0
}

/// Whether `ids` are the entries met following `parts` from entry `start`:
/// each part names a member of the storage before it.
pub open spec fn resolves_via(es: Seq<DirEntry>, start: u32, parts: Seq<Seq<char>>, ids: Seq<u32>) -> bool {
    &&& ids.len() == parts.len()
    &&& forall|i: int| 0 <= i < ids.len() ==>
        step(es, if i == 0 { start } else { ids[i - 1] }, parts[i], #[trigger] ids[i])
}

/// Whether storage `cur` has no member whose name compares equal to `name`.
pub open spec fn no_member_named(es: Seq<DirEntry>, cur: u32, name: Seq<char>) -> bool {
    &&& cur < es.len()
    &&& es[cur as int].entry_type.storage()
    &&& forall|x: u32| in_tree(es, es[cur as int].child, x) ==> x < es.len() && name_order(es[x as int].name@, name) != 0
}

/// Whether following `parts` from the root stops at the storage met after
/// `ids`: it has no member named by the next part, or its members cannot be
/// listed.
pub open spec fn stops_at(es: Seq<DirEntry>, parts: Seq<Seq<char>>, ids: Seq<u32>) -> bool {
    &&& ids.len() < parts.len()
    &&& resolves_via(es, 0, parts.take(ids.len() as int), ids)
    &&& (no_member_named(es, last_met(ids), parts[ids.len() as int])
        || exists|e: Error| #[trigger] listing_fault(es, last_met(ids), e))
}

/// The entry a walk that met `ids` stands at: the root where it met none.
pub open spec fn last_met(ids: Seq<u32>) -> u32 {
    if ids.len() == 0 { 0 } else { ids.last() }
}

/// A walk that meets a storage with no member of the next part's name
/// stops there.
proof fn lemma_stop_missing(es: Seq<DirEntry>, parts: Seq<Seq<char>>, ids: Seq<u32>)
    requires
        ids.len() < parts.len(),
        resolves_via(es, 0, parts.take(ids.len() as int), ids),
        no_member_named(es, if ids.len() == 0 { 0 } else { ids.last() }, parts[ids.len() as int]),
    ensures
        stops_at(es, parts, ids),
{
}

/// A walk that meets a storage whose members cannot be listed stops there.
proof fn lemma_stop_fault(es: Seq<DirEntry>, parts: Seq<Seq<char>>, ids: Seq<u32>, e: Error)
    requires
        ids.len() < parts.len(),
        resolves_via(es, 0, parts.take(ids.len() as int), ids),
        listing_fault(es, if ids.len() == 0 { 0 } else { ids.last() }, e),
    ensures
        stops_at(es, parts, ids),
{
    assert(listing_fault(es, last_met(ids), e));
}

impl CompoundFile {
    /// Finds an entry by path, or `None` if there is nothing there.
    ///
    /// Paths are `/`-separated and may start with `/`; `/` alone is the root
    /// storage. Components are matched the way the format compares names,
    /// which is case-insensitively.
    pub fn find(&self, path: &str) -> (r: Option<DirId>)
        requires
            self.wf(),
        ensures
            r matches Some(id) ==> exists|ids: Seq<u32>| resolves_via(self.entries_view(), 0, path_parts(path@), ids)
                && id.0 == (if ids.len() == 0 { 0 } else { ids.last() }),
            r is None ==> exists|ids: Seq<u32>| #[trigger] stops_at(self.entries_view(), path_parts(path@), ids),
    {
        let parts = path_components(path);
        let mut current: u32 = 0;
        let mut i: usize = 0;
        let ghost ps = path_parts(path@);
        let ghost mut ids: Seq<u32> = Seq::empty();
        while i < parts.len()
            invariant
                self.wf(),
                parts@.len() == ps.len(),
                forall|k: int| 0 <= k < parts@.len() ==> (#[trigger] parts@[k])@ == ps[k],
                i <= parts@.len(),
                ids.len() == i,
                ps == path_parts(path@),
                resolves_via(self.entries_view(), 0, ps.take(i as int), ids),
                current == (if i == 0 { 0 } else { ids.last() }),
            decreases parts@.len() - i,
        {
            let name = string_from(parts[i].as_slice());
            match self.child(DirId(current), name.as_str()) {
                Ok(Some(e)) => {
                    let ghost old_current = current;
                    let next = e.id.0;
                    proof {
                        let es = self.entries_view();
                        let x = choose|x: u32| x < es.len() && in_tree(es, es[current as int].child, x)
                            && *e == es[x as int] && name_order(name@, e.name@) == 0;
                        assert(es[x as int].id == DirId(x));
                        assert(step(es, current, ps[i as int], x));
                        let new_ids = ids.push(x);
                        assert(ps.take(i + 1) =~= ps.take(i as int).push(ps[i as int]));
                        assert forall|k: int| 0 <= k < new_ids.len() implies
                            step(es, if k == 0 { 0 } else { new_ids[k - 1] }, ps.take(i + 1)[k], #[trigger] new_ids[k]) by {
                            if k < i {
                                assert(new_ids[k] == ids[k]);
                                if k > 0 { assert(new_ids[k - 1] == ids[k - 1]); }
                                assert(ps.take(i + 1)[k] == ps.take(i as int)[k]);
                            }
                        }
                        ids = new_ids;
                    }
                    current = next;
                },
                Ok(None) => {
                    proof {
                        assert(name@ == ps[i as int]);
                        assert(no_member_named(self.entries_view(), current, ps[i as int]));
                        lemma_stop_missing(self.entries_view(), ps, ids);
                    }
                    return None;
                },
                Err(e) => {
                    proof { lemma_stop_fault(self.entries_view(), ps, ids, e); }
                    return None;
                },
            }
            i = i + 1;
        }
        assert(ps.take(parts@.len() as int) =~= ps);
        Some(DirId(current))
    }

    /// The path of an entry, as [`find`](Self::find) would take it.
    ///
    /// Fails if `id` is not an entry of this file, or if it is a slot no
    /// storage points at, which has no path.
    pub fn path(&self, id: DirId) -> (r: Result<String>)
        requires
            self.wf(),
        ensures
            r matches Ok(p) ==> id.0 < self.entries_view().len()
                && top_of(self.parents_view(), self.depth_view(), id.0 as int) == 0
                && p@ == path_text(ancestry(self.entries_view(), self.parents_view(), self.depth_view(), id.0 as int)),
            r matches Err(e) ==> e == out_of_range(self.entries_view(), id.0)
                && (id.0 >= self.entries_view().len() || top_of(self.parents_view(), self.depth_view(), id.0 as int) != 0),
    {
        if (id.0 as usize) >= self.entries.len() {
            return Err(Error::DirEntryOutOfRange { id: id.0, count: self.entries.len() as u32 });
        }
        let ghost es = self.entries_view();
        let ghost ps = self.parents_view();
        let ghost d = self.depth_view();
        // The entries from `id` up, nearest first.
        let mut line: Vec<u32> = Vec::new();
        let mut current = id.0;
        while self.parents[current as usize].is_some()
            invariant
                self.wf(),
                es == self.entries_view(),
                ps == self.parents_view(),
                d == self.depth_view(),
                current < es.len(),
                top_of(ps, d, current as int) == top_of(ps, d, id.0 as int),
                ancestry(es, ps, d, id.0 as int) == ancestry(es, ps, d, current as int) + names_of(es, line@.reverse()),
                forall|k: int| 0 <= k < line@.len() ==> line@[k] < es.len(),
            decreases d[current as int],
        {
            let p = self.parents[current as usize].unwrap();
            proof {
                assert(ranked(ps, d));
                assert(ps[current as int] matches Some(q) && q.0 < ps.len() && d[current as int] == d[q.0 as int] + 1);
                let rest = line@.push(current).reverse();
                assert(rest =~= seq![current].add(line@.reverse()));
                assert(names_of(es, rest) =~= seq![es[current as int].name@] + names_of(es, line@.reverse())) by {
                    lemma_names_of_cons(es, current, line@.reverse());
                }
                assert(ancestry(es, ps, d, current as int) =~= ancestry(es, ps, d, p.0 as int).push(es[current as int].name@));
                assert(ancestry(es, ps, d, p.0 as int) + names_of(es, rest)
                    =~= ancestry(es, ps, d, p.0 as int).push(es[current as int].name@) + names_of(es, line@.reverse()));
            }
            line.push(current);
            current = p.0;
        }
        if current != 0 {
            return Err(Error::DirEntryOutOfRange { id: id.0, count: self.entries.len() as u32 });
        }
        let mut out = String::new();
        let mut k = line.len();
        proof {
            assert(ancestry(es, ps, d, 0) =~= Seq::<Seq<char>>::empty());
            assert(Seq::<Seq<char>>::empty() + names_of(es, line@.reverse()) =~= names_of(es, line@.reverse()));
        }
        if k == 0 {
            push_char(&mut out, '/');
            return Ok(out);
        }
        while k > 0
            invariant
                k <= line@.len(),
                forall|j: int| 0 <= j < line@.len() ==> line@[j] < es.len(),
                es == self.entries_view(),
                out@ == slashed(names_of(es, line@.reverse()).take((line@.len() - k) as int)),
            decreases k,
        {
            let x = line[k - 1];
            push_char(&mut out, '/');
            push_str(&mut out, self.entries[x as usize].name.as_str());
            proof {
                let all = names_of(es, line@.reverse());
                lemma_names_of_len(es, line@.reverse());
                let n = (line@.len() - k) as int;
                assert(line@.reverse()[n] == line@[k - 1]);
                lemma_names_of_index(es, line@.reverse(), n);
                assert(all.take(n + 1).drop_last() =~= all.take(n));
            }
            k = k - 1;
        }
        proof {
            lemma_names_of_len(es, line@.reverse());
            assert(names_of(es, line@.reverse()).take(line@.len() as int) =~= names_of(es, line@.reverse()));
        }
        Ok(out)
    }
}

/// Whether `x` sits below the root: its line of parents ends at the root.
pub open spec fn rooted(f: CompoundFile, x: int) -> bool {
    0 <= x < f.entries_view().len() && top_of(f.parents_view(), f.depth_view(), x) == 0
}

/// The path of a rooted entry.
pub open spec fn entry_path(f: CompoundFile, x: int) -> Seq<char> {
    path_text(ancestry(f.entries_view(), f.parents_view(), f.depth_view(), x))
}

/// Whether `out` is a walk of `f`: the root first, every entry below the
/// root exactly once with its path, and each entry after the storage it
/// sits in.
pub open spec fn is_walk(f: CompoundFile, out: Seq<(String, DirId)>) -> bool {
    &&& out.len() > 0
    &&& out[0].1 == DirId(0)
    &&& forall|j: int| 0 <= j < out.len() ==> rooted(f, (#[trigger] out[j]).1.0 as int)
        && out[j].0@ == entry_path(f, out[j].1.0 as int)
    &&& forall|i: int, j: int| 0 <= i < j < out.len() ==> (#[trigger] out[i]).1 != (#[trigger] out[j]).1
    &&& forall|x: int| rooted(f, x) ==> exists|j: int| 0 <= j < out.len() && (#[trigger] out[j]).1.0 == x
    &&& forall|j: int| 0 <= j < out.len() ==> (f.parents_view()[(#[trigger] out[j]).1.0 as int] matches Some(p) ==>
        exists|k: int| 0 <= k < j && out[k].1 == p)
}

/// Entries whose parent has been expanded are all pushed; so, once nothing
/// waits, every entry below the root has been expanded.
proof fn lemma_rooted_done(f: CompoundFile, done: Seq<bool>, x: int)
    requires
        f.wf(),
        done.len() == f.entries_view().len(),
        done[0],
        forall|m: int| 0 <= m < done.len() ==> (f.parents_view()[m] matches Some(p) && done[p.0 as int] ==> #[trigger] done[m]),
        rooted(f, x),
    ensures
        done[x],
    decreases f.depth_view()[x],
{
    let ps = f.parents_view();
    let d = f.depth_view();
    match up(ps, d, x) {
        Some(p) => {
            assert(top_of(ps, d, p) == 0);
            lemma_rooted_done(f, done, p);
            assert(ps[x] matches Some(q) && q.0 == p);
        },
        None => {},
    }
}

impl CompoundFile {
    /// Every entry below the root, depth first from the root, each with its
    /// path.
    ///
    /// Storages come before their contents, and siblings are in the order
    /// [`children`](Self::children) gives.
    #[verifier::rlimit(40)]
    pub fn walk(&self) -> (r: Result<Vec<(String, DirId)>>)
        requires
            self.wf(),
        ensures
            r matches Ok(out) ==> is_walk(*self, out@),
            r matches Err(e) ==> exists|s: u32| s < self.entries_view().len() && rooted(*self, s as int)
                && self.entries_view()[s as int].entry_type.storage() && listing_fault(self.entries_view(), s, e),
    {
        let ghost es = self.entries_view();
        let ghost ps = self.parents_view();
        let ghost d = self.depth_view();
        let n = self.entries.len();
        let mut out: Vec<(String, DirId)> = Vec::new();
        let mut stack: Vec<(String, u32)> = Vec::new();
        let ghost mut pushed: Seq<bool> = Seq::new(n as nat, |i: int| i == 0);
        let ghost mut done: Seq<bool> = Seq::new(n as nat, |_i: int| false);
        proof {
            assert(up(ps, d, 0) is None);
            assert(ancestry(es, ps, d, 0) =~= Seq::<Seq<char>>::empty());
            assert(count_true(pushed) == 1) by {
                let z = Seq::new(n as nat, |_i: int| false);
                lemma_count_none(z);
                assert(z.update(0, true) =~= pushed);
                lemma_count_true_set(z, 0);
            }
        }
        stack.push((String::new(), 0u32));
        proof {
            assert(stack@[0].1 == 0);
            assert forall|y: int| 0 <= y < n && pushed[y] && !done[y] implies exists|j: int| 0 <= j < stack@.len() && (#[trigger] stack@[j]).1 == y by {
                assert(y == 0);
                assert(stack@[0].1 == 0);
            }
            assert(rooted(*self, 0));
            assert(stack@[0].0@ == slashed(ancestry(es, ps, d, 0)));
        }
        while stack.len() > 0
            invariant
                self.wf(),
                es == self.entries_view(),
                ps == self.parents_view(),
                d == self.depth_view(),
                n == es.len(),
                walk_inv(*self, pushed, done, stack@, out@),
            decreases n - count_true(pushed), stack@.len(),
        {
            let ghost stack0 = stack@;
            let ghost pushed0 = pushed;
            let ghost done0 = done;
            let ghost out0 = out@;
            let (prefix, id) = stack.pop().unwrap();
            let ghost x = id as int;
            proof {
                assert(stack0.last() == (prefix, id));
                assert(stack@ =~= stack0.drop_last());
                assert(rooted(*self, x) && pushed0[x] && !done0[x]);
                done = done.update(x, true);
                if x != 0 {
                    assert(up(ps, d, x) is Some);
                }
            }
            let ghost stack1 = stack@;
            let ghost mut kids: Seq<u32> = Seq::empty();
            if self.entries[id as usize].entry_type.is_storage() {
                let ids = match self.child_ids(DirId(id)) {
                    Ok(v) => v,
                    Err(e) => { return Err(e); },
                };
                proof {
                    assert(members_parented(es, ps, x));
                }
                let mut i = ids.len();
                while i > 0
                    invariant
                        self.wf(),
                        es == self.entries_view(),
                        ps == self.parents_view(),
                        d == self.depth_view(),
                        n == es.len(),
                        x == id as int,
                        0 <= x < n,
                        rooted(*self, x),
                        prefix@ == slashed(ancestry(es, ps, d, x)),
                        i <= ids@.len(),
                        lists_tree(es, es[x].child, ids@),
                        members_parented(es, ps, x),
                        pushed.len() == n,
                        forall|y: int| 0 <= y < n ==> #[trigger] pushed[y] == (pushed0[y] || ids@.subrange(i as int, ids@.len() as int).contains(y as u32)),
                        forall|y: int| 0 < y < n ==> (#[trigger] pushed0[y] <==> (ps[y] matches Some(p) && done0[p.0 as int])),
                        !done0[x],
                        count_true(pushed) == count_true(pushed0) + (ids@.len() - i),
                        stack@.len() == stack1.len() + (ids@.len() - i),
                        forall|j: int| 0 <= j < stack1.len() ==> stack@[j] == stack1[j],
                        forall|k: int| i <= k < ids@.len() ==> {
                            let item = #[trigger] stack@[stack1.len() + (ids@.len() - 1 - k)];
                            &&& item.1 == ids@[k]
                            &&& item.0@ == slashed(ancestry(es, ps, d, ids@[k] as int))
                        },
                    decreases i,
                {
                    i = i - 1;
                    let m = ids[i];
                    let mut path = String::new();
                    push_str(&mut path, prefix.as_str());
                    push_char(&mut path, '/');
                    push_str(&mut path, self.entries[m as usize].name.as_str());
                    proof {
                        assert(in_tree(es, es[x].child, m));
                        assert(ps[m as int] == Some(DirId(id)));
                        assert(up(ps, d, m as int) == Some(x));
                        assert(ancestry(es, ps, d, m as int) == ancestry(es, ps, d, x).push(es[m as int].name@));
                        assert(ancestry(es, ps, d, x).push(es[m as int].name@).drop_last() =~= ancestry(es, ps, d, x));
                        assert(path@ == slashed(ancestry(es, ps, d, m as int)));
                        assert(m != 0);
                        assert(!pushed0[m as int]);
                        assert(!ids@.subrange(i + 1, ids@.len() as int).contains(m)) by {
                            if ids@.subrange(i + 1, ids@.len() as int).contains(m) {
                                let t0 = ids@.subrange(i + 1, ids@.len() as int);
                                let w = choose|w: int| 0 <= w < t0.len() && #[trigger] t0[w] == m;
                                assert(ids@[i + 1 + w] == ids@[i as int]);
                            }
                        }
                        assert(!pushed[m as int]);
                        lemma_count_true_set(pushed, m as int);
                        pushed = pushed.update(m as int, true);
                        assert forall|y: int| 0 <= y < n implies #[trigger] pushed[y] == (pushed0[y] || ids@.subrange(i as int, ids@.len() as int).contains(y as u32)) by {
                            let t0 = ids@.subrange(i + 1, ids@.len() as int);
                            let t1 = ids@.subrange(i as int, ids@.len() as int);
                            assert(t1 =~= seq![m] + t0);
                            if t0.contains(y as u32) {
                                let w = choose|w: int| 0 <= w < t0.len() && t0[w] == y as u32;
                                assert(t1[w + 1] == y as u32);
                            }
                            if t1.contains(y as u32) && y as u32 != m {
                                let w = choose|w: int| 0 <= w < t1.len() && t1[w] == y as u32;
                                assert(t0[w - 1] == y as u32);
                            }
                            if y != m as int {
                                assert(y as u32 != m);
                            } else {
                                assert(t1[0] == m);
                            }
                        }
                    }
                    stack.push((path, m));
                }
                proof {
                    let tail = ids@.subrange(0, ids@.len() as int);
                    assert(tail =~= ids@);
                    kids = ids@;
                    // Every entry recorded in this storage is a member.
                    assert forall|y: int| 0 <= y < n && (#[trigger] ps[y] matches Some(p) && p.0 == id) implies kids.contains(y as u32) by {
                        assert(in_tree(es, es[x].child, y as u32));
                    }
                    assert forall|k: int| 0 <= k < kids.len() implies (#[trigger] ps[kids[k] as int]) == Some(DirId(id)) by {
                        assert(in_tree(es, es[x].child, kids[k]));
                    }
                }
            } else {
                proof {
                    assert forall|y: int| 0 <= y < n && (#[trigger] ps[y] matches Some(p) && p.0 == id) implies kids.contains(y as u32) by {
                        if let Some(p) = ps[y] {
                            assert(es[p.0 as int].entry_type.storage());
                        }
                    }
                    assert(pushed =~= pushed0);
                }
            }
            let path = if id == 0 {
                let mut root = String::new();
                push_char(&mut root, '/');
                root
            } else {
                prefix
            };
            out.push((path, DirId(id)));
            proof {
                lemma_count_true_bound(pushed);
                lemma_walk_step(*self, x, kids, pushed0, pushed, done0, done, stack0, stack1, stack@, out0, out@);
            }
        }
        proof {
            assert forall|x: int| rooted(*self, x) implies exists|j: int| 0 <= j < out@.len() && (#[trigger] out@[j]).1.0 == x by {
                assert forall|m: int| 0 <= m < done.len() implies (ps[m] matches Some(p) && done[p.0 as int] ==> #[trigger] done[m]) by {
                    if ps[m] matches Some(p) && done[p.0 as int] {
                        if m != 0 {
                            assert(pushed[m]);
                            if !done[m] {
                                let j = choose|j: int| 0 <= j < stack@.len() && (#[trigger] stack@[j]).1 == m;
                            }
                        }
                    }
                }
                lemma_rooted_done(*self, done, x);
            }
        }
        Ok(out)
    }
}

/// One step of the walk keeps its invariants: entry `x` was taken off the
/// stack, its members `kids` pushed in reverse, and `x` written out.
#[verifier::rlimit(60)]
proof fn lemma_walk_step(
    f: CompoundFile,
    x: int,
    kids: Seq<u32>,
    pushed0: Seq<bool>,
    pushed: Seq<bool>,
    done0: Seq<bool>,
    done: Seq<bool>,
    stack0: Seq<(String, u32)>,
    stack1: Seq<(String, u32)>,
    stack: Seq<(String, u32)>,
    out0: Seq<(String, DirId)>,
    out: Seq<(String, DirId)>,
)
    requires
        f.wf(),
        0 <= x < f.entries_view().len(),
        pushed0.len() == f.entries_view().len(),
        done0.len() == f.entries_view().len(),
        stack0.len() > 0,
        stack0.last().1 == x,
        stack1 =~= stack0.drop_last(),
        done == done0.update(x, true),
        walk_inv(f, pushed0, done0, stack0, out0),
        pushed.len() == pushed0.len(),
        forall|y: int| 0 <= y < pushed.len() ==> #[trigger] pushed[y] == (pushed0[y] || kids.contains(y as u32)),
        forall|y: int| 0 <= y < pushed.len() && (#[trigger] f.parents_view()[y] matches Some(p) && p.0 == x) ==> kids.contains(y as u32),
        forall|k: int| 0 <= k < kids.len() ==> kids[k] < pushed.len() && (#[trigger] f.parents_view()[kids[k] as int]) == Some(DirId(x as u32)),
        forall|i: int, j: int| 0 <= i < j < kids.len() ==> kids[i] != kids[j],
        stack.len() == stack1.len() + kids.len(),
        forall|j: int| 0 <= j < stack1.len() ==> stack[j] == stack1[j],
        forall|k: int| 0 <= k < kids.len() ==> {
            let item = #[trigger] stack[stack1.len() + (kids.len() - 1 - k)];
            &&& item.1 == kids[k]
            &&& item.0@ == slashed(ancestry(f.entries_view(), f.parents_view(), f.depth_view(), kids[k] as int))
        },
        out.len() == out0.len() + 1,
        forall|j: int| 0 <= j < out0.len() ==> out[j] == out0[j],
        out[out0.len() as int].1 == DirId(x as u32),
        out[out0.len() as int].0@ == entry_path(f, x),
    ensures
        walk_inv(f, pushed, done, stack, out),
{
    let es = f.entries_view();
    let ps = f.parents_view();
    let d = f.depth_view();
    let n = es.len();
    assert(rooted(f, x) && pushed0[x] && !done0[x]) by {
        assert(stack0[stack0.len() - 1].1 == x);
    }
    assert forall|k: int| 0 <= k < kids.len() implies rooted(f, kids[k] as int) && !pushed0[kids[k] as int] && kids[k] as int != x by {
        let m = kids[k] as int;
        assert(ps[m] == Some(DirId(x as u32)));
        assert(up(ps, d, m) == Some(x));
        assert(m != 0);
    }
    // The old stack, the popped entry aside.
    assert forall|j: int| 0 <= j < stack1.len() implies (#[trigger] stack1[j]).1 as int != x && stack1[j] == stack0[j] by {
        assert(stack0[j] != stack0[stack0.len() - 1] || j == stack0.len() - 1);
    }
    assert forall|y: int| 0 < y < n implies (#[trigger] pushed[y] <==> (ps[y] matches Some(p) && done[p.0 as int])) by {
        if let Some(p) = ps[y] {
            if p.0 as int == x {
                assert(kids.contains(y as u32));
            } else {
                if kids.contains(y as u32) {
                    let k = choose|k: int| 0 <= k < kids.len() && kids[k] == y as u32;
                    assert(ps[kids[k] as int] == Some(DirId(x as u32)));
                }
            }
        } else {
            if kids.contains(y as u32) {
                let k = choose|k: int| 0 <= k < kids.len() && kids[k] == y as u32;
                assert(ps[kids[k] as int] == Some(DirId(x as u32)));
            }
        }
    }
    assert forall|y: int| 0 <= y < n && pushed[y] && !done[y] implies exists|j: int| 0 <= j < stack.len() && (#[trigger] stack[j]).1 == y by {
        if kids.contains(y as u32) {
            let k = choose|k: int| 0 <= k < kids.len() && kids[k] == y as u32;
            let j = stack1.len() + (kids.len() - 1 - k);
            assert(stack[j].1 == kids[k]);
        } else {
            assert(pushed0[y] && !done0[y]);
            let j = choose|j: int| 0 <= j < stack0.len() && (#[trigger] stack0[j]).1 == y;
            assert(j != stack0.len() - 1);
            assert(stack[j] == stack1[j]);
        }
    }
    assert forall|j: int| 0 <= j < stack.len() implies {
        let y = (#[trigger] stack[j]).1 as int;
        &&& rooted(f, y)
        &&& pushed[y] && !done[y]
        &&& stack[j].0@ == slashed(ancestry(es, ps, d, y))
    } by {
        if j < stack1.len() {
            assert(stack[j] == stack0[j]);
        } else {
            let k = kids.len() - 1 - (j - stack1.len());
            assert(stack[stack1.len() + (kids.len() - 1 - k)].1 == kids[k]);
            assert(kids.contains(kids[k]));
        }
    }
    assert forall|i: int, j: int| 0 <= i < j < stack.len() implies (#[trigger] stack[i]).1 != (#[trigger] stack[j]).1 by {
        if j < stack1.len() {
            assert(stack0[i] == stack[i] && stack0[j] == stack[j]);
        } else if i < stack1.len() {
            let kj = kids.len() - 1 - (j - stack1.len());
            assert(stack[stack1.len() + (kids.len() - 1 - kj)].1 == kids[kj]);
            assert(pushed0[stack0[i].1 as int]);
            assert(stack0[i] == stack[i]);
        } else {
            let ki = kids.len() - 1 - (i - stack1.len());
            let kj = kids.len() - 1 - (j - stack1.len());
            assert(stack[stack1.len() + (kids.len() - 1 - ki)].1 == kids[ki]);
            assert(stack[stack1.len() + (kids.len() - 1 - kj)].1 == kids[kj]);
        }
    }
    assert forall|j: int| 0 <= j < out.len() implies rooted(f, (#[trigger] out[j]).1.0 as int)
        && done[out[j].1.0 as int] && out[j].0@ == entry_path(f, out[j].1.0 as int) by {
        if j < out0.len() {
            assert(out[j] == out0[j]);
        }
    }
    assert forall|y: int| 0 <= y < n && #[trigger] done[y] implies exists|j: int| 0 <= j < out.len() && out[j].1.0 == y by {
        if y == x {
            assert(out[out0.len() as int].1.0 == y);
        } else {
            let j = choose|j: int| 0 <= j < out0.len() && out0[j].1.0 == y;
            assert(out[j] == out0[j]);
        }
    }
    assert forall|i: int, j: int| 0 <= i < j < out.len() implies (#[trigger] out[i]).1 != (#[trigger] out[j]).1 by {
        assert(out[i] == out0[i]);
        if j < out0.len() {
            assert(out[j] == out0[j]);
        } else {
            assert(done0[out0[i].1.0 as int]);
        }
    }
    assert forall|j: int| 0 <= j < out.len() implies (ps[(#[trigger] out[j]).1.0 as int] matches Some(p) ==>
        exists|k: int| 0 <= k < j && out[k].1 == p) by {
        if j < out0.len() {
            assert(out[j] == out0[j]);
            if let Some(p) = ps[out0[j].1.0 as int] {
                let k = choose|k: int| 0 <= k < j && out0[k].1 == p;
                assert(out[k] == out0[k]);
            }
        } else if let Some(p) = ps[x] {
            assert(x != 0);
            assert(done0[p.0 as int]);
            let k = choose|k: int| 0 <= k < out0.len() && out0[k].1.0 == p.0;
            assert(out[k] == out0[k]);
        }
    }
    if out0.len() == 0 {
        assert(stack0.len() == 1);
    } else {
        assert(out[0] == out0[0]);
    }
    lemma_count_true_bound(pushed);
}

/// What holds of the walk between steps.
pub open spec fn walk_inv(f: CompoundFile, pushed: Seq<bool>, done: Seq<bool>, stack: Seq<(String, u32)>, out: Seq<(String, DirId)>) -> bool {
    let es = f.entries_view();
    let ps = f.parents_view();
    let d = f.depth_view();
    let n = es.len();
    &&& pushed.len() == n
    &&& done.len() == n
    &&& pushed[0]
    &&& forall|x: int| 0 <= x < n ==> #[trigger] done[x] ==> pushed[x]
    &&& forall|x: int| 0 < x < n ==> (#[trigger] pushed[x] <==> (ps[x] matches Some(p) && done[p.0 as int]))
    &&& forall|x: int| 0 <= x < n && pushed[x] && !done[x] ==> exists|j: int| 0 <= j < stack.len() && (#[trigger] stack[j]).1 == x
    &&& forall|j: int| 0 <= j < stack.len() ==> {
        let x = (#[trigger] stack[j]).1 as int;
        &&& rooted(f, x)
        &&& pushed[x] && !done[x]
        &&& stack[j].0@ == slashed(ancestry(es, ps, d, x))
    }
    &&& forall|i: int, j: int| 0 <= i < j < stack.len() ==> (#[trigger] stack[i]).1 != (#[trigger] stack[j]).1
    &&& forall|j: int| 0 <= j < out.len() ==> rooted(f, (#[trigger] out[j]).1.0 as int)
        && done[out[j].1.0 as int]
        && out[j].0@ == entry_path(f, out[j].1.0 as int)
    &&& forall|x: int| 0 <= x < n && #[trigger] done[x] ==> exists|j: int| 0 <= j < out.len() && out[j].1.0 == x
    &&& forall|i: int, j: int| 0 <= i < j < out.len() ==> (#[trigger] out[i]).1 != (#[trigger] out[j]).1
    &&& forall|j: int| 0 <= j < out.len() ==> (ps[(#[trigger] out[j]).1.0 as int] matches Some(p) ==>
        exists|k: int| 0 <= k < j && out[k].1 == p)
    &&& out.len() > 0 ==> out[0].1 == DirId(0)
    &&& out.len() == 0 ==> stack.len() == 1 && stack[0].1 == 0
    &&& count_true(pushed) <= n
}

/// A sequence of falses counts none.
proof fn lemma_count_none(s: Seq<bool>)
    requires
        forall|i: int| 0 <= i < s.len() ==> !s[i],
    ensures
        count_true(s) == 0,
    decreases s.len(),
{
    if s.len() > 0 {
        lemma_count_none(s.drop_last());
    }
}

impl CompoundFile {
    /// Every entry is kept under its own number.
    pub proof fn lemma_entry_ids(&self)
        requires
            self.wf(),
        ensures
            forall|k: int| 0 <= k < self.entries_view().len() ==> (#[trigger] self.entries_view()[k]).id == DirId(k as u32),
            self.entries_view().len() <= u32::MAX,
            rooted(*self, 0),
            self.entries_view()[0].entry_type.storage(),
            forall|k: int| 0 <= k < self.entries_view().len() ==> #[trigger] self.depth_view()[k] < self.entries_view().len(),
    {
        assert(up(self.parents_view(), self.depth_view(), 0) is None);
    }

    /// A member of the tree of a storage below the root sits in that
    /// storage, one rank further down, and is below the root too.
    pub proof fn lemma_member_parent(&self, s: u32, c: u32)
        requires
            self.wf(),
            rooted(*self, s as int),
            self.entries_view()[s as int].entry_type.storage(),
            in_tree(self.entries_view(), self.entries_view()[s as int].child, c),
        ensures
            c < self.entries_view().len(),
            self.parents_view()[c as int] == Some(DirId(s)),
            rooted(*self, c as int),
            self.depth_view()[c as int] == self.depth_view()[s as int] + 1,
            self.depth_view()[c as int] < self.entries_view().len(),
    {
        let ps = self.parents_view();
        let d = self.depth_view();
        if s != 0 {
            assert(up(ps, d, s as int) is Some);
        }
        assert(members_parented(self.entries_view(), ps, s as int));
        assert(up(ps, d, c as int) == Some(s as int));
    }
}

/// The names of the entries `ids`, in order.
pub open spec fn names_of(es: Seq<DirEntry>, ids: Seq<u32>) -> Seq<Seq<char>> {
    Seq::new(ids.len(), |i: int| es[ids[i] as int].name@)
}

proof fn lemma_names_of_cons(es: Seq<DirEntry>, x: u32, ids: Seq<u32>)
    ensures
        names_of(es, seq![x].add(ids)) =~= seq![es[x as int].name@] + names_of(es, ids),
{
}

proof fn lemma_names_of_len(es: Seq<DirEntry>, ids: Seq<u32>)
    ensures
        names_of(es, ids).len() == ids.len(),
{
}

proof fn lemma_names_of_index(es: Seq<DirEntry>, ids: Seq<u32>, i: int)
    requires
        0 <= i < ids.len(),
    ensures
        names_of(es, ids)[i] == es[ids[i] as int].name@,
{
}


/// The bytes of the first `n` mini sectors of `chain`, read through the mini
/// stream, whose full sectors are `mini_chain`. A mini sector that lies past
/// the end of the mini stream is refused.
pub open spec fn mini_bytes(data: Seq<u8>, size: u32, mini_chain: Seq<u32>, chain: Seq<u32>, n: nat) -> core::result::Result<Seq<u8>, Error>
    decreases n,
{
    if n == 0 {
        Ok(Seq::empty())
    } else {
        match mini_bytes(data, size, mini_chain, chain, (n - 1) as nat) {
            Ok(prev) => {
                let at = chain[n - 1] * 64;
                let fi = at / (size as int);
                if fi >= mini_chain.len() {
                    Err(Error::SectorOutOfRange { sector: fi as u32, table_len: mini_chain.len() as u32 })
                } else {
                    let off = at % (size as int);
                    Ok(prev + sector_bytes(data, mini_chain[fi], size).subrange(off, off + 64))
                }
            },
            Err(e) => Err(e),
        }
    }
}

/// Whether entry `id`'s stream lives in the mini stream: shorter than the
/// cutoff, and not the root, whose own stream is the mini stream itself.
pub open spec fn stream_is_mini(f: CompoundFile, id: u32) -> bool {
    !(f.entries_view()[id as int].entry_type is RootStorage)
        && f.entries_view()[id as int].stream_len < f.header_view().mini_stream_cutoff
}

/// The chain of entry `id`'s stream, in the FAT or the mini FAT.
pub open spec fn stream_chain(f: CompoundFile, id: u32) -> core::result::Result<Seq<u32>, Error> {
    let mini = stream_is_mini(f, id);
    match f.entries_view()[id as int].start_sector {
        Some(start) => chain_of(if mini { f.mini_fat_view() } else { f.fat_view() }, start, mini),
        None => Ok(Seq::empty()),
    }
}

/// What reading entry `id`'s whole stream gives: its chain's bytes, cut to
/// its length. An entry that is not in the file, a chain that is cyclic or
/// leaves its table, a length longer than the chain holds, or a mini sector
/// past the mini stream, is refused.
pub open spec fn stream_content(f: CompoundFile, id: u32) -> core::result::Result<Seq<u8>, Error> {
    let es = f.entries_view();
    if id >= es.len() {
        Err(out_of_range(es, id))
    } else {
        let len = es[id as int].stream_len;
        let mini = stream_is_mini(f, id);
        let unit: int = if mini { 64 } else { f.header_view().sector_size as int };
        match stream_chain(f, id) {
            Ok(c) => {
                let allocated = c.len() * unit;
                if len > allocated {
                    Err(Error::StreamLongerThanChain {
                        id,
                        declared: len,
                        allocated: if allocated <= u64::MAX { allocated as u64 } else { u64::MAX },
                    })
                } else if mini {
                    match mini_bytes(f.bytes(), f.header_view().sector_size, f.mini_chain_view(), c, ((len + 63) / 64) as nat) {
                        Ok(b) => Ok(b.take(len as int)),
                        Err(e) => Err(e),
                    }
                } else {
                    Ok(chain_bytes(f.bytes(), f.header_view().sector_size, c).take(len as int))
                }
            },
            Err(e) => Err(e),
        }
    }
}

/// A reader over one stream inside a compound file.
///
/// Obtained from [`CompoundFile::open_stream`].
pub struct Stream<'a> {
    file: &'a CompoundFile,
    id: u32,
    /// The sectors of this stream, in order. Mini sectors when `is_mini`.
    chain: Vec<SectorId>,
    is_mini: bool,
    len: u64,
    pos: u64,
}

impl<'a> Stream<'a> {
    /// The file the stream is in.
    pub closed spec fn file_view(&self) -> CompoundFile {
        *self.file
    }

    /// The entry the stream is of.
    pub closed spec fn id_view(&self) -> u32 {
        self.id
    }

    /// How far the stream has been read.
    pub closed spec fn pos_view(&self) -> u64 {
        self.pos
    }

    /// What every opened stream satisfies: it is of an entry of its file,
    /// whose whole content reads, and it has been read not at all or to its
    /// end.
    pub closed spec fn wf(&self) -> bool {
        &&& self.file.wf()
        &&& self.id < self.file.entries@.len()
        &&& self.len == self.file.entries@[self.id as int].stream_len
        &&& self.is_mini == stream_is_mini(*self.file, self.id)
        &&& stream_chain(*self.file, self.id) == Ok::<Seq<u32>, Error>(self.chain@)
        &&& self.len <= self.chain@.len() * (if self.is_mini { 64 } else { self.file.header.sector_size as int })
        &&& (self.pos == 0 || self.pos == self.len)
        &&& chain_in_table(if self.is_mini { self.file.mini_fat@ } else { self.file.fat@ }, self.chain@)
    }

    /// The length of this stream, in bytes.
    pub fn len(&self) -> (r: u64)
        requires
            self.wf(),
        ensures
            r == self.file_view().entries_view()[self.id_view() as int].stream_len,
    {
        self.len
    }

    /// Whether this stream is empty.
    pub fn is_empty(&self) -> (r: bool)
        requires
            self.wf(),
        ensures
            r == (self.file_view().entries_view()[self.id_view() as int].stream_len == 0),
    {
        self.len == 0
    }

    /// Whether this stream lives in the mini stream rather than in full sectors.
    pub fn is_mini(&self) -> (r: bool)
        requires
            self.wf(),
        ensures
            r == stream_is_mini(self.file_view(), self.id_view()),
    {
        self.is_mini
    }

    /// Reads the whole stream from the current position: all of it the first
    /// time, nothing once it has been read.
    #[verifier::spinoff_prover]
    #[verifier::rlimit(40)]
    pub fn read_to_end_vec(&mut self) -> (r: Result<Vec<u8>>)
        requires
            old(self).wf(),
        ensures
            final(self).wf(),
            final(self).file_view() == old(self).file_view(),
            final(self).id_view() == old(self).id_view(),
            old(self).pos_view() == 0 ==> (match r {
                Ok(v) => stream_content(old(self).file_view(), old(self).id_view()) == Ok::<Seq<u8>, Error>(v@),
                Err(e) => stream_content(old(self).file_view(), old(self).id_view()) == Err::<Seq<u8>, Error>(e),
            }),
            old(self).pos_view() != 0 ==> (r matches Ok(v) && v@.len() == 0),
    {
        let f = self.file;
        let size = f.header.sector_size;
        if self.pos >= self.len {
            proof {
                if self.pos == 0 {
                    let c = self.chain@;
                    assert(mini_bytes(f.data@, size, f.mini_stream_chain@, c, 0) == Ok::<Seq<u8>, Error>(Seq::empty()));
                    assert(Seq::<u8>::empty().take(0) =~= Seq::<u8>::empty());
                    assert(chain_bytes(f.data@, size, c).take(0) =~= Seq::<u8>::empty());
                }
            }
            return Ok(Vec::new());
        }
        let bytes = if self.is_mini {
            let n = ((self.len + 63) / 64) as usize;
            proof {
                assert(n <= self.chain@.len()) by (nonlinear_arith)
                    requires n == (self.len + 63) / 64, self.len <= self.chain@.len() * 64;
            }
            let mut out: Vec<u8> = Vec::new();
            let mut j: usize = 0;
            while j < n
                invariant
                    j <= n <= self.chain@.len(),
                    self.wf(),
                    self.pos == 0,
                    self.is_mini,
                    n == (self.len + 63) / 64,
                    f == self.file,
                    size == f.header.sector_size,
                    size == 512 || size == 4096,
                    mini_bytes(f.data@, size, f.mini_stream_chain@, self.chain@, j as nat) == Ok::<Seq<u8>, Error>(out@),
                    out@.len() == j * 64,
                decreases n - j,
            {
                let m = self.chain[j];
                let at = m as u64 * 64;
                let fi = at / size as u64;
                if fi >= f.mini_stream_chain.len() as u64 {
                    proof { lemma_mini_bytes_err(f.data@, size, f.mini_stream_chain@, self.chain@, (j + 1) as nat, n as nat); }
                    return Err(Error::SectorOutOfRange { sector: fi as u32, table_len: f.mini_stream_chain.len() as u32 });
                }
                let sector = read_sector(&f.data, f.mini_stream_chain[fi as usize], size);
                let off = (at % size as u64) as usize;
                proof {
                    if size == 512 {
                        assert((at % 512) + 64 <= 512) by (bit_vector)
                            requires at == m as u64 * 64, m <= 0xffff_ffffu32;
                    } else {
                        assert((at % 4096) + 64 <= 4096) by (bit_vector)
                            requires at == m as u64 * 64, m <= 0xffff_ffffu32;
                    }
                }
                let mut piece = copy_range(&sector, off, off + 64);
                out.append(&mut piece);
                proof {
                    assert((j + 1) * 64 == j * 64 + 64) by (nonlinear_arith);
                }
                j = j + 1;
            }
            proof {
                assert(self.len <= n * 64) by (nonlinear_arith) requires n == (self.len + 63) / 64;
            }
            let r = copy_range(&out, 0, self.len as usize);
            assert(r@ == out@.take(self.len as int));
            r
        } else {
            let all = read_chain_bytes(&f.data, size, &self.chain);
            proof {
                lemma_chain_bytes_len(f.data@, size, self.chain@);
            }
            let r = copy_range(&all, 0, self.len as usize);
            assert(r@ == all@.take(self.len as int));
            r
        };
        self.pos = self.len;
        Ok(bytes)
    }
}

/// Once some mini sector is refused, reading more of them is refused too.
pub proof fn lemma_mini_bytes_err(data: Seq<u8>, size: u32, mini_chain: Seq<u32>, chain: Seq<u32>, i: nat, n: nat)
    requires
        i <= n,
        mini_bytes(data, size, mini_chain, chain, i) is Err,
    ensures
        mini_bytes(data, size, mini_chain, chain, n) == mini_bytes(data, size, mini_chain, chain, i),
    decreases n - i,
{
    if i < n {
        lemma_mini_bytes_err(data, size, mini_chain, chain, i, (n - 1) as nat);
    }
}

/// The bytes of a chain are a sector for each of its sectors.
pub proof fn lemma_chain_bytes_len(data: Seq<u8>, size: u32, c: Seq<u32>)
    ensures
        chain_bytes(data, size, c).len() == c.len() * size,
    decreases c.len(),
{
    if c.len() > 0 {
        lemma_chain_bytes_len(data, size, c.drop_last());
        assert(c.len() * size == (c.len() - 1) * size + size) by (nonlinear_arith);
    }
}

impl CompoundFile {
    /// Opens a stream for reading.
    pub fn open_stream(&self, id: DirId) -> (r: Result<Stream<'_>>)
        requires
            self.wf(),
        ensures
            r matches Ok(s) ==> s.wf() && s.file_view() == *self && s.id_view() == id.0 && s.pos_view() == 0,
            r matches Err(e) ==> stream_content(*self, id.0) == Err::<Seq<u8>, Error>(e),
    {
        let entry = self.entry(id)?;
        let len = entry.stream_len;
        // The root storage's own stream is the mini stream's container, which
        // is always made of full sectors however short it is.
        let is_mini = !entry.is_root() && len < self.header.mini_stream_cutoff as u64;
        let c = match entry.start_sector {
            Some(start) => {
                proof { lemma_walk_ok_in_table(if is_mini { self.mini_fat@ } else { self.fat@ }, start, is_mini); }
                if is_mini { chain(&self.mini_fat, start, true)? } else { chain(&self.fat, start, false)? }
            },
            None => Vec::new(),
        };
        // The length on the entry and the chain in the allocation table say
        // the same thing twice; if they disagree the entry is corrupt.
        let unit: u128 = if is_mini { 64 } else { self.header.sector_size as u128 };
        assert(c.len() as u128 * unit <= 0xffff_ffff_ffff_ffffu128 * 4096) by (nonlinear_arith)
            requires unit <= 4096;
        let allocated = c.len() as u128 * unit;
        if len as u128 > allocated {
            let reported = if allocated <= u64::MAX as u128 { allocated as u64 } else { u64::MAX };
            return Err(Error::StreamLongerThanChain { id: id.0, declared: len, allocated: reported });
        }
        Ok(Stream { file: self, id: id.0, chain: c, is_mini, len, pos: 0 })
    }

    /// Reads a whole stream into memory.
    pub fn read_stream(&self, id: DirId) -> (r: Result<Vec<u8>>)
        requires
            self.wf(),
        ensures
            match r {
                Ok(v) => stream_content(*self, id.0) == Ok::<Seq<u8>, Error>(v@),
                Err(e) => stream_content(*self, id.0) == Err::<Seq<u8>, Error>(e),
            },
    {
        let mut s = self.open_stream(id)?;
        s.read_to_end_vec()
    }
}

/// A chain that walks without fault stays inside its table.
pub proof fn lemma_walk_ok_in_table(table: Seq<u32>, start: u32, mini: bool)
    ensures
        chain_of(table, start, mini) is Ok ==> chain_in_table(table, chain_of(table, start, mini)->Ok_0),
{
    if chain_of(table, start, mini) is Ok {
        super::tables::lemma_walk_in_table(table, start, Seq::empty(), mini, start);
    }
}

} // verus!
