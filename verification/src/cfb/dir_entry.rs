//! Directory entries: the named storages and streams inside a compound file.

use vstd::prelude::*;

use super::error::{Error, Result};
use super::sector::{regular, SectorId};
use crate::auid::Auid;
use crate::bytes::{le16, le32, le64, read_u16, read_u32, read_u64};
use crate::utf16::{decode_le, utf16_text};

verus! {

/// The size of a directory entry on disk, in bytes.
pub const DIR_ENTRY_LEN: usize = 128;

/// The largest value that is a directory entry number rather than a marker.
pub const MAX_REGULAR_ID: u32 = 0xffff_fffa;

/// A directory entry number.
///
/// Directory entries live in a flat array on disk and refer to each other by
/// index, so this is a typed index into that array rather than a pointer. It
/// is only meaningful against the file it came from.
#[derive(Debug, Clone, Copy, PartialEq, Eq, Structural, PartialOrd, Ord, Hash)]
pub struct DirId(pub u32);

/// The directory entry number of the root storage.
pub fn root_id() -> (r: DirId)
    ensures
        r == DirId(0),
{
    DirId(0)
}

impl DirId {
    /// The entry's number, as it appears on disk.
    pub fn get(self) -> (r: u32)
        ensures
            r == self.0,
    {
        self.0
    }

    /// The entry's number in decimal.
    pub fn to_string(self) -> (r: String)
        ensures
            r@ == crate::text::decimal(self.0 as nat),
    {
        crate::text::decimal_string(self.0 as u64)
    }
}

/// What a directory entry names.
#[derive(Debug, Clone, Copy, PartialEq, Eq, Structural, Hash)]
pub enum EntryType {
    /// An unused slot in the directory array.
    Empty,
    /// A storage: a directory, holding other entries.
    Storage,
    /// A stream: a file, holding bytes.
    Stream,
    /// A lock-bytes entry. Not used by AAF.
    LockBytes,
    /// A property entry. Not used by AAF.
    Property,
    /// The root storage, which also owns the mini stream.
    RootStorage,
    /// A type byte the format does not define.
    Unknown(u8),
}

/// The entry type a type byte stands for.
pub open spec fn entry_type_of(b: u8) -> EntryType {
    if b == 0 {
        EntryType::Empty
    } else if b == 1 {
        EntryType::Storage
    } else if b == 2 {
        EntryType::Stream
    } else if b == 3 {
        EntryType::LockBytes
    } else if b == 4 {
        EntryType::Property
    } else if b == 5 {
        EntryType::RootStorage
    } else {
        EntryType::Unknown(b)
    }
}

impl EntryType {
    /// The entry type a type byte stands for.
    pub fn from_byte(b: u8) -> (r: Self)
        ensures
            r == entry_type_of(b),
    {
        match b {
            0 => Self::Empty,
            1 => Self::Storage,
            2 => Self::Stream,
            3 => Self::LockBytes,
            4 => Self::Property,
            5 => Self::RootStorage,
            other => Self::Unknown(other),
        }
    }

    /// Whether entries can be nested inside this one.
    pub open spec fn storage(self) -> bool {
        self is Storage || self is RootStorage
    }

    /// Whether entries can be nested inside this one.
    pub fn is_storage(self) -> (r: bool)
        ensures
            r == self.storage(),
    {
        matches!(self, Self::Storage | Self::RootStorage)
    }

    /// Whether this entry holds stream bytes.
    pub fn is_stream(self) -> (r: bool)
        ensures
            r == (self is Stream),
    {
        matches!(self, Self::Stream)
    }
}

/// The colour of a directory entry in its parent's red-black tree.
#[derive(Debug, Clone, Copy, PartialEq, Eq, Structural, Hash)]
pub enum Color {
    /// A red node.
    Red,
    /// A black node.
    Black,
}

/// One entry in a compound file's directory.
///
/// Entries form a tree of storages and streams, but not by holding a list of
/// children: each storage points at the root of a red-black tree of its
/// children, and each child points at its own left and right siblings.
#[derive(Debug, Clone)]
pub struct DirEntry {
    /// This entry's number.
    pub id: DirId,
    /// This entry's name, without its parent's path.
    pub name: String,
    /// What this entry names.
    pub entry_type: EntryType,
    /// This entry's colour in its parent's red-black tree.
    pub color: Color,
    /// The sibling that sorts before this one, in the parent's tree.
    pub left: Option<DirId>,
    /// The sibling that sorts after this one, in the parent's tree.
    pub right: Option<DirId>,
    /// The root of this storage's tree of children.
    pub child: Option<DirId>,
    /// The class recorded on the entry, if it is not all zeros.
    pub class_id: Option<Auid>,
    /// The user flags.
    pub state_bits: u32,
    /// The creation time, as a Windows `FILETIME`.
    pub created: u64,
    /// The modification time, as a Windows `FILETIME`.
    pub modified: u64,
    /// The first sector of the entry's stream, if it has one.
    pub start_sector: Option<SectorId>,
    /// The length of the entry's stream, in bytes.
    pub stream_len: u64,
}

/// A link field: a directory entry number, or none for a marker.
pub open spec fn link_of(raw: int) -> Option<DirId> {
    if raw <= MAX_REGULAR_ID {
        Some(DirId(raw as u32))
    } else {
        None
    }
}

/// Whether the 16 bytes at 80 are all zero.
pub open spec fn zero_class(d: Seq<u8>) -> bool {
    forall|i: int| 80 <= i < 96 ==> d[i] == 0
}

/// What [`DirEntry::parse`] makes of the 128 bytes `d` of entry `id`: an
/// error exactly when the name length is over 64 on an entry in use, and
/// otherwise each field read from its place in the record.
pub open spec fn parsed_entry(id: DirId, d: Seq<u8>, e: DirEntry) -> bool {
    let name_len = le16(d, 64);
    &&& e.id == id
    &&& e.entry_type == entry_type_of(d[66])
    &&& e.name@ == (if name_len > 64 { Seq::empty() } else { utf16_text(d.subrange(0, name_len)) })
    &&& e.color == (if d[67] == 1 { Color::Black } else { Color::Red })
    &&& e.left == link_of(le32(d, 68))
    &&& e.right == link_of(le32(d, 72))
    &&& e.child == link_of(le32(d, 76))
    &&& (zero_class(d) ==> e.class_id is None)
    &&& (!zero_class(d) ==> (e.class_id matches Some(c) && c@ == d.subrange(80, 96)))
    &&& e.state_bits == le32(d, 96)
    &&& e.created == le64(d, 100)
    &&& e.modified == le64(d, 108)
    &&& e.start_sector == (if regular(le32(d, 116) as u32) { Some(le32(d, 116) as u32) } else { None::<u32> })
    &&& e.stream_len == le64(d, 120)
}

/// Whether the 128 bytes `d` are refused as a directory entry: the name
/// length is over 64 on an entry that is in use.
pub open spec fn bad_entry_name(d: Seq<u8>) -> bool {
    le16(d, 64) > 64 && d[66] != 0
}

impl DirEntry {
    /// This entry's number.
    pub fn id(&self) -> (r: DirId)
        ensures
            r == self.id,
    {
        self.id
    }

    /// This entry's name, without its parent's path.
    ///
    /// The root storage is conventionally named `Root Entry`.
    pub fn name(&self) -> (r: &str)
        ensures
            r@ == self.name@,
    {
        self.name.as_str()
    }

    /// What this entry names.
    pub fn entry_type(&self) -> (r: EntryType)
        ensures
            r == self.entry_type,
    {
        self.entry_type
    }

    /// Whether entries can be nested inside this one.
    pub fn is_storage(&self) -> (r: bool)
        ensures
            r == self.entry_type.storage(),
    {
        self.entry_type.is_storage()
    }

    /// Whether this entry holds stream bytes.
    pub fn is_stream(&self) -> (r: bool)
        ensures
            r == (self.entry_type is Stream),
    {
        self.entry_type.is_stream()
    }

    /// Whether this is the root storage.
    pub fn is_root(&self) -> (r: bool)
        ensures
            r == (self.entry_type is RootStorage),
    {
        matches!(self.entry_type, EntryType::RootStorage)
    }

    /// This entry's colour in its parent's red-black tree.
    pub fn color(&self) -> (r: Color)
        ensures
            r == self.color,
    {
        self.color
    }

    /// The class of the object stored here, if one is recorded.
    ///
    /// AAF puts the class AUID of every object on its storage entry, so this
    /// identifies an object's class without reading its properties.
    pub fn class_id(&self) -> (r: Option<Auid>)
        ensures
            r == self.class_id,
    {
        self.class_id
    }

    /// The user flags on this entry. AAF leaves these at zero.
    pub fn state_bits(&self) -> (r: u32)
        ensures
            r == self.state_bits,
    {
        self.state_bits
    }

    /// The creation time, as a Windows `FILETIME`: 100-nanosecond intervals
    /// since 1601-01-01 UTC.
    pub fn created(&self) -> (r: u64)
        ensures
            r == self.created,
    {
        self.created
    }

    /// The modification time, as a Windows `FILETIME`.
    pub fn modified(&self) -> (r: u64)
        ensures
            r == self.modified,
    {
        self.modified
    }

    /// The length of this entry's stream, in bytes.
    ///
    /// On the root storage this is the length of the mini stream, which is not
    /// a stream a caller can read.
    pub fn len(&self) -> (r: u64)
        ensures
            r == self.stream_len,
    {
        self.stream_len
    }

    /// Whether this entry's stream is empty.
    pub fn is_empty(&self) -> (r: bool)
        ensures
            r == (self.stream_len == 0),
    {
        self.stream_len == 0
    }

    /// The first sector of this entry's stream, if it has one.
    pub fn start_sector(&self) -> (r: Option<SectorId>)
        ensures
            r == self.start_sector,
    {
        self.start_sector
    }

    /// Parses one 128-byte directory entry.
    ///
    /// Unused slots are not always zeroed, so a nonsense name length in one
    /// is not a broken file; in a slot that is in use it is.
    pub fn parse(id: DirId, data: &[u8]) -> (r: Result<Self>)
        requires
            data.len() == DIR_ENTRY_LEN,
        ensures
            r matches Ok(e) ==> !bad_entry_name(data@) && parsed_entry(id, data@, e),
            r matches Err(e) ==> bad_entry_name(data@)
                && e == (Error::BadDirEntryName { id: id.0, len: le16(data@, 64) as u16 }),
    {
        let entry_type = EntryType::from_byte(data[66]);
        let name_len = read_u16(data, 64);
        let name = if name_len > 64 {
            if data[66] != 0 {
                return Err(Error::BadDirEntryName { id: id.0, len: name_len });
            }
            String::new()
        } else {
            let raw = crate::text::copy_range(data, 0, name_len as usize);
            decode_le(&raw)
        };

        let mut class_bytes = [0u8; 16];
        let mut zero = true;
        let mut i: usize = 0;
        while i < 16
            invariant
                i <= 16,
                data@.len() == 128,
                forall|j: int| 0 <= j < i ==> class_bytes@[j] == data@[80 + j],
                zero == (forall|j: int| 80 <= j < 80 + i ==> data@[j] == 0),
            decreases 16 - i,
        {
            class_bytes[i] = data[80 + i];
            if data[80 + i] != 0 {
                zero = false;
            }
            i = i + 1;
        }
        assert(class_bytes@ =~= data@.subrange(80, 96));
        let class_id = if zero { None } else { Some(Auid::from_bytes_le(class_bytes)) };
        let start = read_u32(data, 116);
        Ok(Self {
            id,
            name,
            entry_type,
            color: if data[67] == 1 { Color::Black } else { Color::Red },
            left: dir_id(read_u32(data, 68)),
            right: dir_id(read_u32(data, 72)),
            child: dir_id(read_u32(data, 76)),
            class_id,
            state_bits: read_u32(data, 96),
            created: read_u64(data, 100),
            modified: read_u64(data, 108),
            start_sector: if start <= super::sector::MAX_REGULAR { Some(start) } else { None },
            stream_len: read_u64(data, 120),
        })
    }
}

/// A link field as a directory entry number, or none for a marker.
pub fn dir_id(raw: u32) -> (r: Option<DirId>)
    ensures
        r == link_of(raw as int),
{
    if raw <= MAX_REGULAR_ID { Some(DirId(raw)) } else { None }
}

} // verus!
