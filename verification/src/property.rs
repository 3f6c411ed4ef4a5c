//! The `properties` stream: how an AAF object's property values are stored.
//!
//! Every AAF object is a storage in the compound file, and every one of them
//! holds a stream named `properties`. That stream is a short header, a table
//! of fixed-size entries, and then the values themselves back to back:
//!
//! ```text
//! byte order (1)  version (1)  entry count (2)
//! entry 0: pid (2)  format (2)  length (2)
//! entry 1: ...
//! value 0 bytes, value 1 bytes, ...
//! ```
//!
//! A value's meaning depends on its [`PropertyFormat`]. Plain data is stored
//! inline; a reference to another object is stored as the *name* of the
//! storage holding it. Collections keep their members in a sibling stream,
//! the index, named after the property.

use vstd::prelude::*;

use crate::auid::Auid;
use crate::bytes::{array16, array32, le16, le32, read_u16, read_u32};
use crate::error::{Error, Result};
use crate::mob_id::MobId;
use crate::text::{copy_range, hex_number, hex_string, push_char, push_str};
use crate::utf16::{decode_le, utf16_text};

verus! {

/// The property stream's own header, before the entry table.
const STREAM_HEADER_LEN: usize = 4;

/// Each entry in the table is a pid, a format and a length.
const ENTRY_LEN: usize = 6;

/// The byte order mark a little-endian property stream carries.
const LITTLE_ENDIAN: u8 = 0x4c;

/// The byte a stream property's name is prefixed with.
const STREAM_UNSPECIFIED_ENDIAN: u8 = 0x55;

/// How a property's value is stored.
///
/// The codes are the ones the format writes. Three of them — the two data
/// collections and the stored-object-id weak reference — are defined by the
/// specification but do not appear in files anyone writes; they are here so
/// an unexpected file is described rather than rejected.
#[derive(Debug, Clone, Copy, PartialEq, Eq, Structural, Hash)]
#[non_exhaustive]
pub enum PropertyFormat {
    /// A value stored inline, to be read with the property's type definition.
    Data,
    /// A stream, stored elsewhere in the compound file under a name.
    DataStream,
    /// A reference to an object this one owns.
    StrongRef,
    /// An ordered collection of owned objects.
    StrongRefVector,
    /// An unordered collection of owned objects, keyed by a unique property.
    StrongRefSet,
    /// A reference to an object owned by something else.
    WeakRef,
    /// An ordered collection of references to objects owned elsewhere.
    WeakRefVector,
    /// An unordered collection of references to objects owned elsewhere.
    WeakRefSet,
    /// A weak reference stored as an object id. Specified but unused.
    WeakRefStoredObjectId,
    /// A unique object id. Specified but unused.
    UniqueObjectId,
    /// An opaque stream. Specified but unused.
    OpaqueStream,
    /// An ordered collection of inline values. Specified but unused.
    DataVector,
    /// An unordered collection of inline values. Specified but unused.
    DataSet,
    /// A code the specification does not define.
    Unknown(u16),
}

/// The format a code on disk stands for.
pub open spec fn format_of(code: u16) -> PropertyFormat {
    if code == 0x82 {
        PropertyFormat::Data
    } else if code == 0x42 {
        PropertyFormat::DataStream
    } else if code == 0x22 {
        PropertyFormat::StrongRef
    } else if code == 0x32 {
        PropertyFormat::StrongRefVector
    } else if code == 0x3a {
        PropertyFormat::StrongRefSet
    } else if code == 0x02 {
        PropertyFormat::WeakRef
    } else if code == 0x12 {
        PropertyFormat::WeakRefVector
    } else if code == 0x1a {
        PropertyFormat::WeakRefSet
    } else if code == 0x03 {
        PropertyFormat::WeakRefStoredObjectId
    } else if code == 0x86 {
        PropertyFormat::UniqueObjectId
    } else if code == 0x40 {
        PropertyFormat::OpaqueStream
    } else if code == 0xd2 {
        PropertyFormat::DataVector
    } else if code == 0xda {
        PropertyFormat::DataSet
    } else {
        PropertyFormat::Unknown(code)
    }
}

/// The code a format is written as.
pub open spec fn code_of(f: PropertyFormat) -> u16 {
    match f {
        PropertyFormat::Data => 0x82,
        PropertyFormat::DataStream => 0x42,
        PropertyFormat::StrongRef => 0x22,
        PropertyFormat::StrongRefVector => 0x32,
        PropertyFormat::StrongRefSet => 0x3a,
        PropertyFormat::WeakRef => 0x02,
        PropertyFormat::WeakRefVector => 0x12,
        PropertyFormat::WeakRefSet => 0x1a,
        PropertyFormat::WeakRefStoredObjectId => 0x03,
        PropertyFormat::UniqueObjectId => 0x86,
        PropertyFormat::OpaqueStream => 0x40,
        PropertyFormat::DataVector => 0xd2,
        PropertyFormat::DataSet => 0xda,
        PropertyFormat::Unknown(code) => code,
    }
}

/// Reading a code and writing the format back gives the same code.
pub proof fn lemma_code_round_trip(code: u16)
    ensures
        code_of(format_of(code)) == code,
{
}

/// Writing a format and reading the code back gives the same format, for
/// every format but an `Unknown` holding a code the specification defines.
pub proof fn lemma_format_round_trip(f: PropertyFormat)
    requires
        f matches PropertyFormat::Unknown(c) ==> format_of(c) is Unknown,
    ensures
        format_of(code_of(f)) == f,
{
}

impl PropertyFormat {
    /// Reads a format code as it appears in a property stream.
    pub fn from_code(code: u16) -> (r: Self)
        ensures
            r == format_of(code),
    {
        match code {
            0x82 => Self::Data,
            0x42 => Self::DataStream,
            0x22 => Self::StrongRef,
            0x32 => Self::StrongRefVector,
            0x3a => Self::StrongRefSet,
            0x02 => Self::WeakRef,
            0x12 => Self::WeakRefVector,
            0x1a => Self::WeakRefSet,
            0x03 => Self::WeakRefStoredObjectId,
            0x86 => Self::UniqueObjectId,
            0x40 => Self::OpaqueStream,
            0xd2 => Self::DataVector,
            0xda => Self::DataSet,
            other => Self::Unknown(other),
        }
    }

    /// The format code as it appears on disk.
    pub fn to_code(self) -> (r: u16)
        ensures
            r == code_of(self),
    {
        match self {
            Self::Data => 0x82,
            Self::DataStream => 0x42,
            Self::StrongRef => 0x22,
            Self::StrongRefVector => 0x32,
            Self::StrongRefSet => 0x3a,
            Self::WeakRef => 0x02,
            Self::WeakRefVector => 0x12,
            Self::WeakRefSet => 0x1a,
            Self::WeakRefStoredObjectId => 0x03,
            Self::UniqueObjectId => 0x86,
            Self::OpaqueStream => 0x40,
            Self::DataVector => 0xd2,
            Self::DataSet => 0xda,
            Self::Unknown(code) => code,
        }
    }

    /// Whether this format names objects this one owns.
    pub open spec fn is_strong_spec(self) -> bool {
        self is StrongRef || self is StrongRefVector || self is StrongRefSet
    }

    /// Whether this format names objects this one owns.
    ///
    /// Owned objects live in storages nested inside this object's own, so
    /// these are the references that make the file a tree.
    pub fn is_strong(self) -> (r: bool)
        ensures
            r == (self is StrongRef || self is StrongRefVector || self is StrongRefSet),
    {
        matches!(self, Self::StrongRef | Self::StrongRefVector | Self::StrongRefSet)
    }
}

/// What a reference points at.
///
/// Collections are keyed by whichever property the target class declares
/// unique. That is an [`Auid`] for most classes and a [`MobId`] for mobs and
/// essence data, and the key's size on disk says which.
#[derive(Debug, Clone, Copy, PartialEq, Eq, Hash)]
pub enum RefKey {
    /// A 16-byte key.
    Auid(Auid),
    /// A 32-byte key.
    MobId(MobId),
}

/// A reference key as its bytes on disk, with its kind.
pub enum KeyView {
    /// A 16-byte key.
    Auid(Seq<u8>),
    /// A 32-byte key.
    MobId(Seq<u8>),
}

impl View for RefKey {
    type V = KeyView;

    open spec fn view(&self) -> KeyView {
        match self {
            RefKey::Auid(a) => KeyView::Auid(a@),
            RefKey::MobId(m) => KeyView::MobId(m@),
        }
    }
}

/// A key of `size` bytes read from the start of `d`: 16 bytes are an AUID,
/// 32 a mob id, and no other size is allowed.
pub open spec fn key_of(d: Seq<u8>, size: u8) -> core::result::Result<KeyView, Error> {
    if size == 16 {
        if d.len() >= 16 {
            Ok(KeyView::Auid(d.subrange(0, 16)))
        } else {
            Err(Error::TruncatedProperty { wanted: 16, found: d.len() as usize })
        }
    } else if size == 32 {
        if d.len() >= 32 {
            Ok(KeyView::MobId(d.subrange(0, 32)))
        } else {
            Err(Error::TruncatedProperty { wanted: 32, found: d.len() as usize })
        }
    } else {
        Err(Error::BadKeySize { size })
    }
}

impl RefKey {
    /// Reads a key of `size` bytes, which the format allows to be 16 or 32.
    fn parse(data: &[u8], size: u8) -> (r: Result<Self>)
        ensures
            r matches Ok(k) ==> key_of(data@, size) == Ok::<KeyView, Error>(k@),
            r matches Err(e) ==> key_of(data@, size) == Err::<KeyView, Error>(e),
    {
        if size == 16 {
            if data.len() >= 16 {
                Ok(Self::Auid(Auid::from_bytes_le(array16(data, 0))))
            } else {
                Err(Error::TruncatedProperty { wanted: 16, found: data.len() })
            }
        } else if size == 32 {
            if data.len() >= 32 {
                Ok(Self::MobId(MobId::from_bytes(array32(data, 0))))
            } else {
                Err(Error::TruncatedProperty { wanted: 32, found: data.len() })
            }
        } else {
            Err(Error::BadKeySize { size })
        }
    }

    /// The key's size on disk, in bytes.
    pub fn size(self) -> (r: u8)
        ensures
            r == (if self is Auid { 16u8 } else { 32u8 }),
    {
        match self {
            Self::Auid(_) => 16,
            Self::MobId(_) => 32,
        }
    }
}

/// One property of an object, as it was stored.
#[derive(Debug, Clone, PartialEq, Eq)]
pub struct Property {
    /// The property's identifier, unique within its class.
    pub pid: u16,
    /// How the value is stored.
    pub format: PropertyFormat,
    /// The value, decoded as far as the format alone allows.
    pub value: PropertyValue,
}

/// A property's value, decoded as far as the format alone allows.
///
/// A [`PropertyValue::Data`] is still raw bytes: turning it into a number, a
/// string or a rational needs the property's type definition.
#[derive(Debug, Clone, PartialEq, Eq)]
#[non_exhaustive]
pub enum PropertyValue {
    /// Bytes to be read with the property's type definition.
    Data(Vec<u8>),

    /// A stream stored under `name`, beside this object in the compound file.
    Stream {
        /// The stream's name.
        name: String,
    },

    /// One owned object, in the storage named `name` inside this one.
    StrongRef {
        /// The storage's name.
        name: String,
    },

    /// Owned objects in order, listed in the stream `<index_name> index`.
    StrongRefVector {
        /// The base name the index stream and the members are named after.
        index_name: String,
    },

    /// Owned objects by key, listed in the stream `<index_name> index`.
    StrongRefSet {
        /// The base name the index stream and the members are named after.
        index_name: String,
    },

    /// A reference to an object owned elsewhere in the file.
    WeakRef {
        /// Which of the file's reference targets to look the key up in.
        weakref_index: u16,
        /// The pid of the property holding the target's unique key.
        key_pid: u16,
        /// The target's unique key.
        key: RefKey,
    },

    /// References to objects owned elsewhere, in the stream `<index_name> index`.
    WeakRefArray {
        /// The base name the index stream is named after.
        index_name: String,
    },

    /// A value in a format the specification defines but nothing writes.
    Opaque(Vec<u8>),
}

/// A property value as plain data.
pub enum ValueView {
    /// Inline bytes.
    Data(Seq<u8>),
    /// A stream's name.
    Stream(Seq<char>),
    /// An owned object's storage name.
    StrongRef(Seq<char>),
    /// An ordered collection's base name.
    StrongRefVector(Seq<char>),
    /// A keyed collection's base name.
    StrongRefSet(Seq<char>),
    /// A weak reference: target table, key pid and key.
    WeakRef(u16, u16, KeyView),
    /// A weak reference collection's base name.
    WeakRefArray(Seq<char>),
    /// Bytes in a format nothing writes.
    Opaque(Seq<u8>),
}

impl View for PropertyValue {
    type V = ValueView;

    open spec fn view(&self) -> ValueView {
        match self {
            PropertyValue::Data(d) => ValueView::Data(d@),
            PropertyValue::Stream { name } => ValueView::Stream(name@),
            PropertyValue::StrongRef { name } => ValueView::StrongRef(name@),
            PropertyValue::StrongRefVector { index_name } => ValueView::StrongRefVector(index_name@),
            PropertyValue::StrongRefSet { index_name } => ValueView::StrongRefSet(index_name@),
            PropertyValue::WeakRef { weakref_index, key_pid, key } => ValueView::WeakRef(*weakref_index, *key_pid, key@),
            PropertyValue::WeakRefArray { index_name } => ValueView::WeakRefArray(index_name@),
            PropertyValue::Opaque(d) => ValueView::Opaque(d@),
        }
    }
}

impl View for Property {
    type V = (u16, PropertyFormat, ValueView);

    open spec fn view(&self) -> (u16, PropertyFormat, ValueView) {
        (self.pid, self.format, self.value@)
    }
}

/// A value of the given format stored as the bytes `d`.
pub open spec fn value_of(format: PropertyFormat, d: Seq<u8>) -> core::result::Result<ValueView, Error> {
    match format {
        PropertyFormat::Data => Ok(ValueView::Data(d)),
        PropertyFormat::DataStream => {
            // A stream's name is prefixed with the byte order of its own
            // contents, which is always "unspecified".
            if d.len() == 0 {
                Err(Error::TruncatedProperty { wanted: 1, found: 0 })
            } else if d[0] != 0x55 {
                Err(Error::UnsupportedByteOrder { mark: d[0] })
            } else {
                Ok(ValueView::Stream(utf16_text(d.drop_first())))
            }
        },
        PropertyFormat::StrongRef => Ok(ValueView::StrongRef(utf16_text(d))),
        PropertyFormat::StrongRefVector => Ok(ValueView::StrongRefVector(utf16_text(d))),
        PropertyFormat::StrongRefSet => Ok(ValueView::StrongRefSet(utf16_text(d))),
        PropertyFormat::WeakRefVector => Ok(ValueView::WeakRefArray(utf16_text(d))),
        PropertyFormat::WeakRefSet => Ok(ValueView::WeakRefArray(utf16_text(d))),
        PropertyFormat::WeakRef => {
            if d.len() < 5 {
                Err(Error::TruncatedProperty { wanted: 5, found: d.len() as usize })
            } else {
                match key_of(d.skip(5), d[4]) {
                    Ok(k) => Ok(ValueView::WeakRef(le16(d, 0) as u16, le16(d, 2) as u16, k)),
                    Err(e) => Err(e),
                }
            }
        },
        _ => Ok(ValueView::Opaque(d)),
    }
}

/// Whether a value is of the kind its format stores: inline data for data,
/// a stream's name for a data stream, each kind of strong or weak reference
/// for its format, and opaque bytes for the formats this reader keeps as
/// they are.
pub open spec fn agrees_with_format(f: PropertyFormat, v: ValueView) -> bool {
    match f {
        PropertyFormat::Data => v is Data,
        PropertyFormat::DataStream => v is Stream,
        PropertyFormat::StrongRef => v is StrongRef,
        PropertyFormat::StrongRefVector => v is StrongRefVector,
        PropertyFormat::StrongRefSet => v is StrongRefSet,
        PropertyFormat::WeakRef => v is WeakRef,
        PropertyFormat::WeakRefVector => v is WeakRefArray,
        PropertyFormat::WeakRefSet => v is WeakRefArray,
        _ => v is Opaque,
    }
}

/// A value read in a format is of the kind that format stores: a strong
/// reference vector (format 0x32) always reads as a vector, a set (0x3a) as a
/// set, and so on.
pub proof fn lemma_value_agrees_with_format(f: PropertyFormat, d: Seq<u8>)
    ensures
        value_of(f, d) matches Ok(v) ==> agrees_with_format(f, v),
{
}

/// Reading entries from the `k`th on keeps every entry's value of its
/// format's kind.
proof fn lemma_entries_agree(d: Seq<u8>, count: int, k: int, at: int, acc: Seq<(u16, PropertyFormat, ValueView)>)
    requires
        forall|i: int| 0 <= i < acc.len() ==> agrees_with_format((#[trigger] acc[i]).1, acc[i].2),
    ensures
        entries_from(d, count, k, at, acc) matches Ok(es)
            ==> forall|i: int| 0 <= i < es.len() ==> agrees_with_format((#[trigger] es[i]).1, es[i].2),
    decreases count - k,
{
    if k < count {
        let e = 4 + 6 * k;
        let pid = le16(d, e) as u16;
        let format = format_of(le16(d, e + 2) as u16);
        let end = at + le16(d, e + 4);
        if d.len() >= end {
            lemma_value_agrees_with_format(format, d.subrange(at, end));
            if let Ok(v) = value_of(format, d.subrange(at, end)) {
                let next = acc.push((pid, format, v));
                assert forall|i: int| 0 <= i < next.len() implies agrees_with_format((#[trigger] next[i]).1, next[i].2) by {
                    if i < acc.len() { assert(next[i] == acc[i]); }
                }
                lemma_entries_agree(d, count, k + 1, end, next);
            }
        }
    }
}

/// Every property a `properties` stream holds is of the kind its format
/// stores.
pub proof fn lemma_stream_values_agree(d: Seq<u8>)
    ensures
        stream_of(d) matches Ok(r) ==> forall|i: int| 0 <= i < r.1.len() ==> agrees_with_format((#[trigger] r.1[i]).1, r.1[i].2),
{
    if d.len() >= 4 && d[0] == 0x4c {
        let table_end = 4 + 6 * le16(d, 2);
        if d.len() >= table_end {
            lemma_entries_agree(d, le16(d, 2), 0, table_end, Seq::empty());
        }
    }
}

impl Property {
    /// The name of this property's index stream, if it has one.
    pub open spec fn index_spec(&self) -> Option<Seq<char>> {
        match self.value {
            PropertyValue::StrongRefVector { index_name } => Some(index_name@ + " index"@),
            PropertyValue::StrongRefSet { index_name } => Some(index_name@ + " index"@),
            PropertyValue::WeakRefArray { index_name } => Some(index_name@ + " index"@),
            _ => None,
        }
    }

    /// The name of this property's index stream, if it has one.
    ///
    /// Collections keep their members in a sibling stream named after the
    /// property, with `" index"` appended.
    pub fn index_stream_name(&self) -> (r: Option<String>)
        ensures
            match r { Some(s) => Some(s@), None => None::<Seq<char>> } == self.index_spec(),
            match self.value {
                PropertyValue::StrongRefVector { index_name } => r matches Some(s) && s@ == index_name@ + " index"@,
                PropertyValue::StrongRefSet { index_name } => r matches Some(s) && s@ == index_name@ + " index"@,
                PropertyValue::WeakRefArray { index_name } => r matches Some(s) && s@ == index_name@ + " index"@,
                _ => r is None,
            },
    {
        let base = match &self.value {
            PropertyValue::StrongRefVector { index_name } => index_name,
            PropertyValue::StrongRefSet { index_name } => index_name,
            PropertyValue::WeakRefArray { index_name } => index_name,
            _ => { return None; },
        };
        let mut out = String::new();
        push_str(&mut out, base.as_str());
        push_str(&mut out, " index");
        Some(out)
    }
}

/// The name of the storage holding one member of a collection.
///
/// Members are named after their property, with the member's own key in
/// braces: the third member of `Mobs-1901` is `Mobs-1901{2}`. The key is
/// written in lowercase hexadecimal with no padding.
pub fn member_storage_name(index_name: &str, local_key: u32) -> (r: String)
    ensures
        r@ == index_name@ + seq!['{'] + hex_number(local_key as nat) + seq!['}'],
{
    let mut out = String::new();
    push_str(&mut out, index_name);
    push_char(&mut out, '{');
    let key = hex_string(local_key as u64);
    push_str(&mut out, key.as_str());
    push_char(&mut out, '}');
    out
}

impl PropertyValue {
    /// Decodes a value stored in `format` as far as the format allows.
    fn parse(format: PropertyFormat, data: &[u8]) -> (r: Result<Self>)
        ensures
            r matches Ok(v) ==> value_of(format, data@) == Ok::<ValueView, Error>(v@),
            r matches Err(e) ==> value_of(format, data@) == Err::<ValueView, Error>(e),
    {
        match format {
            PropertyFormat::Data => {
                let v = copy_range(data, 0, data.len());
                assert(v@ =~= data@);
                Ok(Self::Data(v))
            },
            PropertyFormat::DataStream => {
                if data.len() == 0 {
                    return Err(Error::TruncatedProperty { wanted: 1, found: 0 });
                }
                let mark = data[0];
                if mark != STREAM_UNSPECIFIED_ENDIAN {
                    return Err(Error::UnsupportedByteOrder { mark });
                }
                let rest = copy_range(data, 1, data.len());
                assert(rest@ =~= data@.drop_first());
                Ok(Self::Stream { name: decode_le(&rest) })
            },
            PropertyFormat::StrongRef => Ok(Self::StrongRef { name: decode_le(data) }),
            PropertyFormat::StrongRefVector => Ok(Self::StrongRefVector { index_name: decode_le(data) }),
            PropertyFormat::StrongRefSet => Ok(Self::StrongRefSet { index_name: decode_le(data) }),
            PropertyFormat::WeakRefVector => Ok(Self::WeakRefArray { index_name: decode_le(data) }),
            PropertyFormat::WeakRefSet => Ok(Self::WeakRefArray { index_name: decode_le(data) }),
            PropertyFormat::WeakRef => {
                if data.len() < 5 {
                    return Err(Error::TruncatedProperty { wanted: 5, found: data.len() });
                }
                let rest = copy_range(data, 5, data.len());
                assert(rest@ =~= data@.skip(5));
                let key = match RefKey::parse(&rest, data[4]) {
                    Ok(k) => k,
                    Err(e) => { return Err(e); },
                };
                Ok(Self::WeakRef {
                    weakref_index: read_u16(data, 0),
                    key_pid: read_u16(data, 2),
                    key,
                })
            },
            _ => {
                let v = copy_range(data, 0, data.len());
                assert(v@ =~= data@);
                Ok(Self::Opaque(v))
            },
        }
    }
}

/// The properties of one object, as read from its `properties` stream.
#[derive(Debug, Clone, PartialEq, Eq)]
pub struct PropertyStream {
    /// The format version the object was written with. Current files write 32.
    pub version: u8,
    /// The properties, in the order the stream lists them.
    pub properties: Vec<Property>,
}

/// The properties the table entries from `k` on describe, appended to
/// `acc`; the value of entry `k` starts at `at`, and each value follows the
/// one before.
pub open spec fn entries_from(d: Seq<u8>, count: int, k: int, at: int, acc: Seq<(u16, PropertyFormat, ValueView)>)
    -> core::result::Result<Seq<(u16, PropertyFormat, ValueView)>, Error>
    decreases count - k,
{
    if k >= count {
        Ok(acc)
    } else {
        let e = 4 + 6 * k;
        let pid = le16(d, e) as u16;
        let format = format_of(le16(d, e + 2) as u16);
        let end = at + le16(d, e + 4);
        if d.len() < end {
            Err(Error::TruncatedProperty { wanted: if end <= usize::MAX { end as usize } else { usize::MAX }, found: d.len() as usize })
        } else {
            match value_of(format, d.subrange(at, end)) {
                Ok(v) => entries_from(d, count, k + 1, end, acc.push((pid, format, v))),
                Err(e) => Err(e),
            }
        }
    }
}

/// A `properties` stream read from `d`: its version, and each property's
/// pid, format and value in the order the table lists them.
pub open spec fn stream_of(d: Seq<u8>) -> core::result::Result<(u8, Seq<(u16, PropertyFormat, ValueView)>), Error> {
    if d.len() < 4 {
        Err(Error::TruncatedProperty { wanted: 4, found: d.len() as usize })
    } else if d[0] != 0x4c {
        Err(Error::UnsupportedByteOrder { mark: d[0] })
    } else {
        let table_end = 4 + 6 * le16(d, 2);
        if d.len() < table_end {
            Err(Error::TruncatedProperty { wanted: table_end as usize, found: d.len() as usize })
        } else {
            match entries_from(d, le16(d, 2), 0, table_end, Seq::empty()) {
                Ok(ps) => Ok((d[1], ps)),
                Err(e) => Err(e),
            }
        }
    }
}

impl PropertyStream {
    /// The properties as plain data.
    pub open spec fn entries_view(&self) -> Seq<(u16, PropertyFormat, ValueView)> {
        self.properties@.map_values(|p: Property| p@)
    }

    /// Parses a `properties` stream.
    ///
    /// Fails if the stream is truncated, declares a byte order other than
    /// little-endian, or holds a reference key of an unsupported size.
    pub fn parse(data: &[u8]) -> (r: Result<Self>)
        ensures
            r matches Ok(s) ==> stream_of(data@) == Ok::<(u8, Seq<(u16, PropertyFormat, ValueView)>), Error>(
                (s.version, s.entries_view())),
            r matches Err(e) ==> stream_of(data@) == Err::<(u8, Seq<(u16, PropertyFormat, ValueView)>), Error>(e),
    {
        if data.len() < STREAM_HEADER_LEN {
            return Err(Error::TruncatedProperty { wanted: STREAM_HEADER_LEN, found: data.len() });
        }
        let byte_order = data[0];
        if byte_order != LITTLE_ENDIAN {
            return Err(Error::UnsupportedByteOrder { mark: byte_order });
        }
        let version = data[1];
        let count = read_u16(data, 2) as usize;
        let table_end = STREAM_HEADER_LEN + count * ENTRY_LEN;
        if data.len() < table_end {
            return Err(Error::TruncatedProperty { wanted: table_end, found: data.len() });
        }
        // The table gives each value's length but not its position; the
        // values follow the table back to back, in the table's own order.
        let mut properties: Vec<Property> = Vec::new();
        let mut at = table_end;
        let mut k: usize = 0;
        let ghost d = data@;
        assert(properties@.map_values(|p: Property| p@) =~= Seq::<(u16, PropertyFormat, ValueView)>::empty());
        while k < count
            invariant
                d == data@,
                d.len() >= 4,
                d[0] == 0x4c,
                version == d[1],
                count == le16(d, 2),
                table_end == 4 + 6 * count,
                table_end <= d.len(),
                k <= count,
                table_end <= at <= d.len(),
                entries_from(d, count as int, 0, table_end as int, Seq::empty())
                    == entries_from(d, count as int, k as int, at as int, properties@.map_values(|p: Property| p@)),
            decreases count - k,
        {
            let e = STREAM_HEADER_LEN + k * ENTRY_LEN;
            let pid = read_u16(data, e);
            let format = PropertyFormat::from_code(read_u16(data, e + 2));
            let len = read_u16(data, e + 4) as usize;
            let ghost acc = properties@.map_values(|p: Property| p@);
            assert(entries_from(d, count as int, k as int, at as int, acc) == {
                let end = at + le16(d, e + 4);
                if d.len() < end {
                    Err(Error::TruncatedProperty { wanted: if end <= usize::MAX { end as usize } else { usize::MAX }, found: d.len() as usize })
                } else {
                    match value_of(format, d.subrange(at as int, end)) {
                        Ok(v) => entries_from(d, count as int, k + 1, end, acc.push((pid, format, v))),
                        Err(e) => Err(e),
                    }
                }
            });
            if data.len() - at < len {
                let wanted = match at.checked_add(len) {
                    Some(w) => w,
                    None => usize::MAX,
                };
                return Err(Error::TruncatedProperty { wanted, found: data.len() });
            }
            let end = at + len;
            let raw = copy_range(data, at, end);
            let value = match PropertyValue::parse(format, &raw) {
                Ok(v) => v,
                Err(x) => { return Err(x); },
            };
            let ghost before = properties@;
            properties.push(Property { pid, format, value });
            assert(properties@.map_values(|p: Property| p@)
                =~= before.map_values(|p: Property| p@).push((pid, format, value@)));
            at = end;
            k = k + 1;
        }
        Ok(Self { version, properties })
    }

    /// The property with this pid, if the object has one: the first the
    /// stream lists.
    pub fn get(&self, pid: u16) -> (r: Option<&Property>)
        ensures
            r matches Some(p) ==> exists|i: int| 0 <= i < self.properties@.len() && *p == self.properties@[i]
                && p.pid == pid && forall|j: int| 0 <= j < i ==> (#[trigger] self.properties@[j]).pid != pid,
            r is None ==> forall|j: int| 0 <= j < self.properties@.len() ==> (#[trigger] self.properties@[j]).pid != pid,
    {
        let mut i: usize = 0;
        while i < self.properties.len()
            invariant
                i <= self.properties@.len(),
                forall|j: int| 0 <= j < i ==> (#[trigger] self.properties@[j]).pid != pid,
            decreases self.properties@.len() - i,
        {
            if self.properties[i].pid == pid {
                return Some(&self.properties[i]);
            }
            i = i + 1;
        }
        None
    }
}

/// The index of a strong reference vector: its members, in order.
#[derive(Debug, Clone, PartialEq, Eq)]
pub struct VectorIndex {
    /// The next key the writer would hand out.
    pub next_free_key: u32,
    /// The last key the writer would hand out.
    pub last_free_key: u32,
    /// Each member's key, in order. See [`member_storage_name`].
    pub local_keys: Vec<u32>,
}

/// A strong reference vector's index read from `d`: the next and last free
/// keys, and each member's key in order.
pub open spec fn vector_index_of(d: Seq<u8>) -> core::result::Result<(u32, u32, Seq<u32>), Error> {
    if d.len() < 12 {
        Err(Error::TruncatedIndex { wanted: 12, found: d.len() as usize })
    } else {
        let count = le32(d, 0);
        let wanted = 12 + 4 * count;
        if d.len() < wanted {
            Err(Error::TruncatedIndex { wanted: wanted as usize, found: d.len() as usize })
        } else {
            Ok((le32(d, 4) as u32, le32(d, 8) as u32, Seq::new(count as nat, |i: int| le32(d, 12 + 4 * i) as u32)))
        }
    }
}

/// Reads an index stream's leading count and checks its fixed header fits.
fn split_count(data: &[u8], header_len: usize) -> (r: Result<u32>)
    requires
        header_len >= 4,
    ensures
        data@.len() < header_len ==> r == Err::<u32, Error>(Error::TruncatedIndex { wanted: header_len, found: data@.len() as usize }),
        data@.len() >= header_len ==> r == Ok::<u32, Error>(le32(data@, 0) as u32),
{
    if data.len() < header_len {
        return Err(Error::TruncatedIndex { wanted: header_len, found: data.len() });
    }
    Ok(u32_at(data, 0))
}

/// The little-endian `u32` at `at`.
fn u32_at(data: &[u8], at: usize) -> (r: u32)
    requires
        at + 4 <= data@.len(),
    ensures
        r as int == le32(data@, at as int),
{
    read_u32(data, at)
}

impl VectorIndex {
    /// The index as plain data.
    pub open spec fn view_parts(&self) -> (u32, u32, Seq<u32>) {
        (self.next_free_key, self.last_free_key, self.local_keys@)
    }

    /// Parses a strong reference vector's index stream.
    ///
    /// Fails if the stream is shorter than the count it declares.
    pub fn parse(data: &[u8]) -> (r: Result<Self>)
        ensures
            r matches Ok(v) ==> vector_index_of(data@) == Ok::<(u32, u32, Seq<u32>), Error>(v.view_parts()),
            r matches Err(e) ==> vector_index_of(data@) == Err::<(u32, u32, Seq<u32>), Error>(e),
    {
        let count = split_count(data, 12)?;
        let wanted = 12 + (count as u64) * 4;
        if (data.len() as u64) < wanted {
            return Err(Error::TruncatedIndex { wanted: wanted as usize, found: data.len() });
        }
        let mut local_keys: Vec<u32> = Vec::new();
        let mut i: usize = 0;
        let len = data.len();
        while i < count as usize
            invariant
                len == data@.len(),
                count == le32(data@, 0),
                12 + 4 * count <= data@.len(),
                i <= count,
                local_keys@.len() == i,
                forall|j: int| 0 <= j < i ==> local_keys@[j] == le32(data@, 12 + 4 * j) as u32,
            decreases count - i,
        {
            assert(12 + 4 * i + 4 <= data@.len());
            local_keys.push(u32_at(data, 12 + 4 * i));
            i = i + 1;
        }
        let v = Self { next_free_key: u32_at(data, 4), last_free_key: u32_at(data, 8), local_keys };
        assert(v.local_keys@ =~= Seq::new(count as nat, |j: int| le32(data@, 12 + 4 * j) as u32));
        Ok(v)
    }
}

/// One member of a strong reference set.
#[derive(Debug, Clone, Copy, PartialEq, Eq)]
pub struct SetEntry {
    /// The member's key. See [`member_storage_name`].
    pub local_key: u32,
    /// How many references the writer counted. Always 1 in practice.
    pub ref_count: u32,
    /// The member's unique key, which is what the set is keyed by.
    pub key: RefKey,
}

impl View for SetEntry {
    type V = (u32, u32, KeyView);

    open spec fn view(&self) -> (u32, u32, KeyView) {
        (self.local_key, self.ref_count, self.key@)
    }
}

/// The index of a strong reference set: its members, by key.
#[derive(Debug, Clone, PartialEq, Eq)]
pub struct SetIndex {
    /// The next key the writer would hand out.
    pub next_free_key: u32,
    /// The last key the writer would hand out.
    pub last_free_key: u32,
    /// The pid of the property that holds each member's unique key.
    pub key_pid: u16,
    /// The members.
    pub entries: Vec<SetEntry>,
}

/// The key of `size` bytes at `at` in `d`, which is 16 or 32.
pub open spec fn key_at(d: Seq<u8>, at: int, size: u8) -> KeyView {
    if size == 16 {
        KeyView::Auid(d.subrange(at, at + 16))
    } else {
        KeyView::MobId(d.subrange(at, at + 32))
    }
}

/// A strong reference set's index read from `d`: the next and last free
/// keys, the key pid, and each member's local key, reference count and key.
pub open spec fn set_index_of(d: Seq<u8>) -> core::result::Result<(u32, u32, u16, Seq<(u32, u32, KeyView)>), Error> {
    if d.len() < 15 {
        Err(Error::TruncatedIndex { wanted: 15, found: d.len() as usize })
    } else {
        let count = le32(d, 0);
        let size = d[14];
        let entry_len = 8 + size;
        let wanted = 15 + count * entry_len;
        if d.len() < wanted {
            Err(Error::TruncatedIndex { wanted: wanted as usize, found: d.len() as usize })
        } else if size != 16 && size != 32 {
            Err(Error::BadKeySize { size })
        } else {
            Ok((le32(d, 4) as u32, le32(d, 8) as u32, le16(d, 12) as u16, Seq::new(count as nat, |i: int| {
                let at = 15 + i * entry_len;
                (le32(d, at) as u32, le32(d, at + 4) as u32, key_at(d, at + 8, size))
            })))
        }
    }
}

impl SetIndex {
    /// The index as plain data.
    pub open spec fn view_parts(&self) -> (u32, u32, u16, Seq<(u32, u32, KeyView)>) {
        (self.next_free_key, self.last_free_key, self.key_pid, self.entries@.map_values(|e: SetEntry| e@))
    }

    /// Parses a strong reference set's index stream.
    ///
    /// Fails if the stream is shorter than the count it declares, or declares
    /// a key size other than 16 or 32.
    pub fn parse(data: &[u8]) -> (r: Result<Self>)
        ensures
            r matches Ok(v) ==> set_index_of(data@) == Ok::<(u32, u32, u16, Seq<(u32, u32, KeyView)>), Error>(v.view_parts()),
            r matches Err(e) ==> set_index_of(data@) == Err::<(u32, u32, u16, Seq<(u32, u32, KeyView)>), Error>(e),
    {
        let count = split_count(data, 15)?;
        let key_size = data[14];
        let entry_len = 8 + key_size as u64;
        assert((count as u64) * entry_len <= 0xFFFF_FFFFu64 * 263) by (nonlinear_arith)
            requires count <= 0xFFFF_FFFFu64, entry_len <= 263;
        let wanted = 15 + (count as u64) * entry_len;
        if (data.len() as u64) < wanted {
            return Err(Error::TruncatedIndex { wanted: wanted as usize, found: data.len() });
        }
        if key_size != 16 && key_size != 32 {
            return Err(Error::BadKeySize { size: key_size });
        }
        let ghost d = data@;
        let ghost el = entry_len as int;
        let mut entries: Vec<SetEntry> = Vec::new();
        let mut i: usize = 0;
        let mut at: usize = 15;
        let len = data.len();
        while i < count as usize
            invariant
                len == d.len(),
                key_size == 16 || key_size == 32,
                d == data@,
                count == le32(d, 0),
                key_size == d[14],
                el == 8 + key_size,
                entry_len == 8 + key_size,
                15 + count * el <= d.len(),
                i <= count,
                at == 15 + i * el,
                entries@.len() == i,
                forall|j: int| 0 <= j < i ==> (#[trigger] entries@[j])@ == {
                    let a = 15 + j * el;
                    (le32(d, a) as u32, le32(d, a + 4) as u32, key_at(d, a + 8, key_size))
                },
            decreases count - i,
        {
            assert(at + el <= 15 + count * el) by (nonlinear_arith)
                requires at == 15 + i * el, i < count, el >= 0;
            let chunk = copy_range(data, at + 8, at + entry_len as usize);
            let key = match RefKey::parse(&chunk, key_size) {
                Ok(k) => k,
                Err(e) => {
                    assert(i == 0 ==> at == 15);
                    return Err(e);
                },
            };
            proof {
                assert(chunk@.subrange(0, key_size as int) =~= d.subrange(at + 8, at + 8 + key_size));
            }
            entries.push(SetEntry { local_key: u32_at(data, at), ref_count: u32_at(data, at + 4), key });
            assert((i + 1) * el == i * el + el) by (nonlinear_arith);
            at = at + entry_len as usize;
            i = i + 1;
        }
        let v = Self {
            next_free_key: u32_at(data, 4),
            last_free_key: u32_at(data, 8),
            key_pid: read_u16(data, 12),
            entries,
        };
        assert(v.entries@.map_values(|e: SetEntry| e@) =~= Seq::new(count as nat, |j: int| {
            let a = 15 + j * el;
            (le32(d, a) as u32, le32(d, a + 4) as u32, key_at(d, a + 8, key_size))
        }));
        Ok(v)
    }
}

/// The index of a weak reference collection: the keys it points at.
#[derive(Debug, Clone, PartialEq, Eq)]
pub struct WeakRefArrayIndex {
    /// Which of the file's reference targets to look the keys up in.
    pub weakref_index: u16,
    /// The pid of the property that holds each target's unique key.
    pub key_pid: u16,
    /// The keys, in order.
    pub keys: Vec<RefKey>,
}

/// A weak reference collection's index read from `d`: the target table,
/// the key pid, and the keys in order.
pub open spec fn weak_index_of(d: Seq<u8>) -> core::result::Result<(u16, u16, Seq<KeyView>), Error> {
    if d.len() < 9 {
        Err(Error::TruncatedIndex { wanted: 9, found: d.len() as usize })
    } else {
        let count = le32(d, 0);
        let size = d[8];
        let wanted = 9 + count * size;
        if d.len() < wanted {
            Err(Error::TruncatedIndex { wanted: wanted as usize, found: d.len() as usize })
        } else if size != 16 && size != 32 {
            Err(Error::BadKeySize { size })
        } else {
            Ok((le16(d, 4) as u16, le16(d, 6) as u16, Seq::new(count as nat, |i: int| key_at(d, 9 + i * size, size))))
        }
    }
}

impl WeakRefArrayIndex {
    /// The index as plain data.
    pub open spec fn view_parts(&self) -> (u16, u16, Seq<KeyView>) {
        (self.weakref_index, self.key_pid, self.keys@.map_values(|k: RefKey| k@))
    }

    /// Parses a weak reference collection's index stream.
    ///
    /// Fails if the stream is shorter than the count it declares, or declares
    /// a key size other than 16 or 32.
    pub fn parse(data: &[u8]) -> (r: Result<Self>)
        ensures
            r matches Ok(v) ==> weak_index_of(data@) == Ok::<(u16, u16, Seq<KeyView>), Error>(v.view_parts()),
            r matches Err(e) ==> weak_index_of(data@) == Err::<(u16, u16, Seq<KeyView>), Error>(e),
    {
        let count = split_count(data, 9)?;
        let key_size = data[8];
        assert((count as u64) * (key_size as u64) <= 0xFFFF_FFFFu64 * 255) by (nonlinear_arith)
            requires count <= 0xFFFF_FFFFu64, key_size <= 255;
        let wanted = 9 + (count as u64) * (key_size as u64);
        if (data.len() as u64) < wanted {
            return Err(Error::TruncatedIndex { wanted: wanted as usize, found: data.len() });
        }
        if key_size != 16 && key_size != 32 {
            return Err(Error::BadKeySize { size: key_size });
        }
        let ghost d = data@;
        let ghost ks = key_size as int;
        let mut keys: Vec<RefKey> = Vec::new();
        let mut i: usize = 0;
        let mut at: usize = 9;
        let len = data.len();
        while i < count as usize
            invariant
                len == d.len(),
                key_size == 16 || key_size == 32,
                d == data@,
                count == le32(d, 0),
                key_size == d[8],
                ks == key_size,
                9 + count * ks <= d.len(),
                i <= count,
                at == 9 + i * ks,
                keys@.len() == i,
                forall|j: int| 0 <= j < i ==> (#[trigger] keys@[j])@ == key_at(d, 9 + j * ks, key_size),
            decreases count - i,
        {
            assert(at + ks <= 9 + count * ks) by (nonlinear_arith)
                requires at == 9 + i * ks, i < count, ks >= 0;
            let chunk = copy_range(data, at, at + key_size as usize);
            let key = match RefKey::parse(&chunk, key_size) {
                Ok(k) => k,
                Err(e) => { return Err(e); },
            };
            proof {
                assert(chunk@.subrange(0, ks) =~= d.subrange(at as int, at + ks));
            }
            keys.push(key);
            assert((i + 1) * ks == i * ks + ks) by (nonlinear_arith);
            at = at + key_size as usize;
            i = i + 1;
        }
        let v = Self { weakref_index: read_u16(data, 4), key_pid: read_u16(data, 6), keys };
        assert(v.keys@.map_values(|k: RefKey| k@) =~= Seq::new(count as nat, |j: int| key_at(d, 9 + j * ks, key_size)));
        Ok(v)
    }
}

} // verus!
