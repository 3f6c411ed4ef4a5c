//! The 512-byte header at the start of every compound file.

use vstd::prelude::*;

use super::error::{Error, Result};
use super::sector::{SectorId, FREE, MINI_SECTOR_SIZE};
use crate::auid::Auid;
use crate::bytes::{le16, le32, pow2, read_u16, read_u32, shl_one};

verus! {

/// The header is always 512 bytes, whatever the sector size is.
pub const HEADER_LEN: usize = 512;

/// The header holds the first 109 DIFAT entries inline.
pub const HEADER_DIFAT_LEN: usize = 109;

/// The eight bytes every compound file starts with.
pub open spec fn signature() -> Seq<u8> {
    seq![0xd0u8, 0xcf, 0x11, 0xe0, 0xa1, 0xb1, 0x1a, 0xe1]
}

/// The eight bytes every compound file starts with.
pub fn signature_bytes() -> (r: [u8; 8])
    ensures
        r@ == signature(),
{
    let r = [0xd0u8, 0xcf, 0x11, 0xe0, 0xa1, 0xb1, 0x1a, 0xe1];
    assert(r@ =~= signature());
    r
}

/// The parsed contents of a compound file header.
///
/// This is the on-disk header, not an interpretation of it: the sector counts
/// here are what the file claims, which is not always what it has.
#[derive(Debug, Clone)]
pub struct Header {
    /// The class of the whole file, which AAF uses to identify itself.
    pub class_id: Auid,
    /// The format minor version. AAF writes 0x3E.
    pub minor_version: u16,
    /// The format major version: 3 for 512-byte sectors, 4 for 4096.
    pub major_version: u16,
    /// The sector size, in bytes: 512 or 4096.
    pub sector_size: u32,
    /// The mini sector size, in bytes. Always 64.
    pub mini_sector_size: u32,
    /// The number of directory sectors the header claims. Zero in version 3.
    pub dir_sector_count: u32,
    /// The number of FAT sectors the header claims.
    pub fat_sector_count: u32,
    /// The first sector of the directory chain.
    pub dir_sector_start: SectorId,
    /// The transaction signature, which AAF leaves at zero.
    pub transaction_signature: u32,
    /// Streams shorter than this live in the mini stream. Always 4096.
    pub mini_stream_cutoff: u32,
    /// The first sector of the mini FAT chain.
    pub mini_fat_sector_start: SectorId,
    /// The number of mini FAT sectors the header claims.
    pub mini_fat_sector_count: u32,
    /// The first sector of the DIFAT chain.
    pub difat_sector_start: SectorId,
    /// The number of DIFAT sectors the header claims.
    pub difat_sector_count: u32,
    /// The first 109 DIFAT entries, which live in the header itself.
    pub difat_head: [SectorId; 109],
}

/// Why the 512 header bytes `d`, whose signature is right, are refused,
/// checked in this order: the byte order, the two size exponents, then the
/// sizes.
pub open spec fn header_fault(d: Seq<u8>) -> Option<Error> {
    let sector_exp = le16(d, 30);
    let mini_exp = le16(d, 32);
    if le16(d, 28) != 0xfffe {
        Some(Error::UnsupportedByteOrder { mark: le16(d, 28) as u16 })
    } else if sector_exp >= 32 {
        Some(Error::UnsupportedSectorSize { size: 0 })
    } else if mini_exp >= 32 {
        Some(Error::UnsupportedMiniSectorSize { size: 0 })
    } else if pow2(sector_exp as nat) != 512 && pow2(sector_exp as nat) != 4096 {
        Some(Error::UnsupportedSectorSize { size: pow2(sector_exp as nat) as u32 })
    } else if pow2(mini_exp as nat) != 64 {
        Some(Error::UnsupportedMiniSectorSize { size: pow2(mini_exp as nat) as u32 })
    } else {
        None
    }
}

/// Whether the header bytes `d` are refused.
pub open spec fn header_refused(d: Seq<u8>) -> bool {
    d.subrange(0, 8) != signature() || header_fault(d) is Some
}

/// Whether `e` is the error the header bytes `d` are refused with: a bad
/// signature, carrying the eight bytes found, or else [`header_fault`].
pub open spec fn is_header_fault(d: Seq<u8>, e: Error) -> bool {
    if d.subrange(0, 8) != signature() {
        e matches Error::BadSignature { found } && found@ == d.subrange(0, 8)
    } else {
        header_fault(d) == Some(e)
    }
}

/// Whether `h` holds what the header bytes `d` say, each field read from
/// its place.
pub open spec fn header_fields(d: Seq<u8>, h: Header) -> bool {
    &&& h.class_id@ == d.subrange(8, 24)
    &&& h.minor_version == le16(d, 24)
    &&& h.major_version == le16(d, 26)
    &&& h.sector_size == pow2(le16(d, 30) as nat)
    &&& h.mini_sector_size == pow2(le16(d, 32) as nat)
    &&& h.dir_sector_count == le32(d, 40)
    &&& h.fat_sector_count == le32(d, 44)
    &&& h.dir_sector_start == le32(d, 48)
    &&& h.transaction_signature == le32(d, 52)
    &&& h.mini_stream_cutoff == le32(d, 56)
    &&& h.mini_fat_sector_start == le32(d, 60)
    &&& h.mini_fat_sector_count == le32(d, 64)
    &&& h.difat_sector_start == le32(d, 68)
    &&& h.difat_sector_count == le32(d, 72)
    &&& forall|i: int| 0 <= i < 109 ==> h.difat_head@[i] == le32(d, 76 + 4 * i)
}

/// A parsed header's sector size is one the rest of the reader handles.
pub open spec fn header_wf(h: Header) -> bool {
    &&& (h.sector_size == 512 || h.sector_size == 4096)
    &&& h.mini_sector_size == 64
}

impl Header {
    /// Parses a header out of the first 512 bytes of a file.
    pub fn parse(data: &[u8]) -> (r: Result<Self>)
        requires
            data.len() == HEADER_LEN,
        ensures
            r matches Ok(h) ==> !header_refused(data@) && header_fields(data@, h) && header_wf(h),
            r matches Err(e) ==> is_header_fault(data@, e),
    {
        let sig = signature_bytes();
        let found = [data[0], data[1], data[2], data[3], data[4], data[5], data[6], data[7]];
        assert(found@ =~= data@.subrange(0, 8));
        if !crate::auid::same_bytes(&found, &sig) {
            return Err(Error::BadSignature { found });
        }

        let mut class_bytes = [0u8; 16];
        let mut i: usize = 0;
        while i < 16
            invariant
                i <= 16,
                data@.len() == 512,
                forall|j: int| 0 <= j < i ==> class_bytes@[j] == data@[8 + j],
            decreases 16 - i,
        {
            class_bytes[i] = data[8 + i];
            i = i + 1;
        }
        assert(class_bytes@ =~= data@.subrange(8, 24));
        let class_id = Auid::from_bytes_le(class_bytes);
        let minor_version = read_u16(data, 24);
        let major_version = read_u16(data, 26);

        let byte_order = read_u16(data, 28);
        if byte_order != 0xfffe {
            return Err(Error::UnsupportedByteOrder { mark: byte_order });
        }

        // Both sizes are stored as the base-2 logarithm of the size.
        let sector_size = match shl_one(read_u16(data, 30) as u32) {
            Some(s) => s,
            None => { return Err(Error::UnsupportedSectorSize { size: 0 }); },
        };
        let mini_sector_size = match shl_one(read_u16(data, 32) as u32) {
            Some(s) => s,
            None => { return Err(Error::UnsupportedMiniSectorSize { size: 0 }); },
        };
        if sector_size != 512 && sector_size != 4096 {
            return Err(Error::UnsupportedSectorSize { size: sector_size });
        }
        if mini_sector_size != MINI_SECTOR_SIZE {
            return Err(Error::UnsupportedMiniSectorSize { size: mini_sector_size });
        }

        // Bytes 34..40 are reserved and ignored.
        let mut difat_head = [FREE; 109];
        let mut k: usize = 0;
        while k < 109
            invariant
                k <= 109,
                data@.len() == 512,
                forall|j: int| 0 <= j < k ==> difat_head@[j] == le32(data@, 76 + 4 * j),
            decreases 109 - k,
        {
            difat_head[k] = read_u32(data, 76 + k * 4);
            k = k + 1;
        }

        Ok(Self {
            class_id,
            minor_version,
            major_version,
            sector_size,
            mini_sector_size,
            dir_sector_count: read_u32(data, 40),
            fat_sector_count: read_u32(data, 44),
            dir_sector_start: read_u32(data, 48),
            transaction_signature: read_u32(data, 52),
            mini_stream_cutoff: read_u32(data, 56),
            mini_fat_sector_start: read_u32(data, 60),
            mini_fat_sector_count: read_u32(data, 64),
            difat_sector_start: read_u32(data, 68),
            difat_sector_count: read_u32(data, 72),
            difat_head,
        })
    }
}

} // verus!
