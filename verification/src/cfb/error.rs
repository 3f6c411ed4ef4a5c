//! Errors produced while reading or writing a compound file.

use vstd::prelude::*;

use crate::text::{alt_hex, decimal, hex_list, push_alt_hex, push_decimal, push_hex_list, push_str};

verus! {

/// An error produced while reading or writing a compound file.
#[derive(Debug, Clone, PartialEq, Eq)]
pub enum Error {
    /// The file ends before the structure being read does: it is shorter
    /// than the 512-byte header.
    UnexpectedEof {
        /// How long the file is, in bytes.
        len: u64,
    },

    /// The file does not start with the compound file signature
    /// `D0 CF 11 E0 A1 B1 1A E1`.
    BadSignature {
        /// The first eight bytes of the file, as found.
        found: [u8; 8],
    },

    /// The header declares a sector size other than 512 or 4096.
    UnsupportedSectorSize {
        /// The declared sector size, in bytes.
        size: u32,
    },

    /// The header declares a mini sector size other than 64 bytes.
    UnsupportedMiniSectorSize {
        /// The declared mini sector size, in bytes.
        size: u32,
    },

    /// The header declares a byte order other than little-endian.
    UnsupportedByteOrder {
        /// The declared byte order mark; little-endian files carry `0xFFFE`.
        mark: u16,
    },

    /// A sector chain loops back on itself.
    CyclicChain {
        /// Whether the loop is in the mini FAT rather than the FAT.
        mini: bool,
        /// The sector the chain started at.
        start: u32,
    },

    /// A chain refers to a sector past the end of the allocation table.
    SectorOutOfRange {
        /// The out-of-range sector number.
        sector: u32,
        /// The number of entries the allocation table has.
        table_len: u32,
    },

    /// A directory entry refers to a directory entry that does not exist.
    DirEntryOutOfRange {
        /// The out-of-range directory entry number.
        id: u32,
        /// The number of directory entries the file has.
        count: u32,
    },

    /// The directory tree is not a tree: an entry is reachable twice.
    CorruptDirectoryTree {
        /// The directory entry reached more than once.
        id: u32,
    },

    /// The file has no root directory entry, or its first entry is not one.
    MissingRootEntry,

    /// A directory entry's name is longer than the 64-byte field allows.
    BadDirEntryName {
        /// The directory entry carrying the bad name.
        id: u32,
        /// The declared name length, in bytes.
        len: u16,
    },

    /// A directory entry claims more bytes than its sector chain holds.
    StreamLongerThanChain {
        /// The directory entry making the claim.
        id: u32,
        /// The length the entry declares, in bytes.
        declared: u64,
        /// The number of bytes the entry's sector chain actually holds.
        allocated: u64,
    },

    /// An operation that needs a storage was given a stream, or the reverse.
    WrongEntryType {
        /// The directory entry.
        id: u32,
        /// The kind of entry the operation needed.
        expected: &'static str,
    },

    /// A writer was asked to create an entry whose name is already taken.
    EntryExists {
        /// The path of the entry that already exists.
        path: String,
    },

    /// A writer was asked to create an entry with an unusable name: a
    /// directory entry holds at most 32 UTF-16 code units of name.
    BadName {
        /// The name, as given.
        name: String,
    },

    /// A writer reached a state the layout it reproduces cannot represent.
    Unrepresentable {
        /// What went wrong, in a few words.
        what: &'static str,
    },
}

/// What an error says, as text.
pub open spec fn error_message(e: Error) -> Seq<char> {
    match e {
        Error::UnexpectedEof { .. } => "io error: failed to fill whole buffer"@,
        Error::BadSignature { found } => "not a compound file: signature is "@ + hex_list(found@),
        Error::UnsupportedSectorSize { size } =>
            "unsupported sector size: "@ + decimal(size as nat) + ", expected 512 or 4096"@,
        Error::UnsupportedMiniSectorSize { size } =>
            "unsupported mini sector size: "@ + decimal(size as nat) + ", expected 64"@,
        Error::UnsupportedByteOrder { mark } =>
            "unsupported byte order mark: "@ + alt_hex(mark as nat, 4) + ", expected 0xfffe"@,
        Error::CyclicChain { mini, start } =>
            "cyclic "@ + (if mini { "mini FAT"@ } else { "FAT"@ }) + " chain starting at sector "@ + decimal(start as nat),
        Error::SectorOutOfRange { sector, table_len } =>
            "sector "@ + decimal(sector as nat) + " is past the end of the allocation table ("@
                + decimal(table_len as nat) + " entries)"@,
        Error::DirEntryOutOfRange { id, count } =>
            "directory entry "@ + decimal(id as nat) + " does not exist ("@ + decimal(count as nat)
                + " entries in the file)"@,
        Error::CorruptDirectoryTree { id } =>
            "corrupt directory tree: entry "@ + decimal(id as nat) + " is reachable twice"@,
        Error::MissingRootEntry => "the file has no root directory entry"@,
        Error::BadDirEntryName { id, len } =>
            "directory entry "@ + decimal(id as nat) + " declares a "@ + decimal(len as nat)
                + " byte name, the field holds at most 64"@,
        Error::StreamLongerThanChain { id, declared, allocated } =>
            "directory entry "@ + decimal(id as nat) + " claims "@ + decimal(declared as nat)
                + " bytes but its chain holds "@ + decimal(allocated as nat),
        Error::WrongEntryType { id, expected } =>
            "directory entry "@ + decimal(id as nat) + " is not a "@ + expected@,
        Error::EntryExists { path } => path@ + " already exists"@,
        Error::BadName { name } =>
            "'"@ + name@ + "' cannot name a directory entry: at most 32 UTF-16 code units fit"@,
        Error::Unrepresentable { what } => "the compound file cannot be laid out: "@ + what@,
    }
}

impl Error {
    /// What this error says, as text.
    pub fn to_string(&self) -> (r: String)
        ensures
            r@ == error_message(*self),
    {
        let mut out = String::new();
        match self {
            Error::UnexpectedEof { .. } => push_str(&mut out, "io error: failed to fill whole buffer"),
            Error::BadSignature { found } => {
                push_str(&mut out, "not a compound file: signature is ");
                push_hex_list(&mut out, found);
            },
            Error::UnsupportedSectorSize { size } => {
                push_str(&mut out, "unsupported sector size: ");
                push_decimal(&mut out, *size as u64);
                push_str(&mut out, ", expected 512 or 4096");
            },
            Error::UnsupportedMiniSectorSize { size } => {
                push_str(&mut out, "unsupported mini sector size: ");
                push_decimal(&mut out, *size as u64);
                push_str(&mut out, ", expected 64");
            },
            Error::UnsupportedByteOrder { mark } => {
                push_str(&mut out, "unsupported byte order mark: ");
                push_alt_hex(&mut out, *mark as u64, 4);
                push_str(&mut out, ", expected 0xfffe");
            },
            Error::CyclicChain { mini, start } => {
                push_str(&mut out, "cyclic ");
                push_str(&mut out, if *mini { "mini FAT" } else { "FAT" });
                push_str(&mut out, " chain starting at sector ");
                push_decimal(&mut out, *start as u64);
            },
            Error::SectorOutOfRange { sector, table_len } => {
                push_str(&mut out, "sector ");
                push_decimal(&mut out, *sector as u64);
                push_str(&mut out, " is past the end of the allocation table (");
                push_decimal(&mut out, *table_len as u64);
                push_str(&mut out, " entries)");
            },
            Error::DirEntryOutOfRange { id, count } => {
                push_str(&mut out, "directory entry ");
                push_decimal(&mut out, *id as u64);
                push_str(&mut out, " does not exist (");
                push_decimal(&mut out, *count as u64);
                push_str(&mut out, " entries in the file)");
            },
            Error::CorruptDirectoryTree { id } => {
                push_str(&mut out, "corrupt directory tree: entry ");
                push_decimal(&mut out, *id as u64);
                push_str(&mut out, " is reachable twice");
            },
            Error::MissingRootEntry => push_str(&mut out, "the file has no root directory entry"),
            Error::BadDirEntryName { id, len } => {
                push_str(&mut out, "directory entry ");
                push_decimal(&mut out, *id as u64);
                push_str(&mut out, " declares a ");
                push_decimal(&mut out, *len as u64);
                push_str(&mut out, " byte name, the field holds at most 64");
            },
            Error::StreamLongerThanChain { id, declared, allocated } => {
                push_str(&mut out, "directory entry ");
                push_decimal(&mut out, *id as u64);
                push_str(&mut out, " claims ");
                push_decimal(&mut out, *declared);
                push_str(&mut out, " bytes but its chain holds ");
                push_decimal(&mut out, *allocated);
            },
            Error::WrongEntryType { id, expected } => {
                push_str(&mut out, "directory entry ");
                push_decimal(&mut out, *id as u64);
                push_str(&mut out, " is not a ");
                push_str(&mut out, expected);
            },
            Error::EntryExists { path } => {
                push_str(&mut out, path.as_str());
                push_str(&mut out, " already exists");
            },
            Error::BadName { name } => {
                push_str(&mut out, "'");
                push_str(&mut out, name.as_str());
                push_str(&mut out, "' cannot name a directory entry: at most 32 UTF-16 code units fit");
            },
            Error::Unrepresentable { what } => {
                push_str(&mut out, "the compound file cannot be laid out: ");
                push_str(&mut out, what);
            },
        }
        assert(out@ =~= error_message(*self));
        out
    }
}

/// Shorthand for a result carrying an [`Error`].
pub type Result<T> = core::result::Result<T, Error>;

} // verus!
