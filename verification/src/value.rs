//! Decoding property values against the type definitions a file carries.
//!
//! A property's bytes mean nothing on their own. The file's meta dictionary
//! says which type each property is, and this turns bytes plus a type into a
//! [`Value`]: an integer of the right width and signedness, a string, a
//! rational, a named enumeration element, an array of any of those.
//!
//! References are left as they were stored. A strong reference names a
//! storage and a weak reference carries a key; resolving either means reading
//! another object, which is not a pure decode of some bytes. Both come back
//! as [`Value::Reference`] carrying what the property held.

use vstd::prelude::*;

use crate::auid::{auid_of, auid_text, lemma_auid_of, Auid};
use crate::bytes::{array16, array32, le16, le64, read_u16, read_u64};
use crate::error::{Error, Result};
use crate::metadict::{MetaDictionary, TypeDef, TypeKind};
use crate::mob_id::{mob_id_text, MobId};
use crate::property::{Property, PropertyValue};
use crate::text::{copy_range, decimal, push_char, push_decimal, push_str, replacement, same_text, string_from};
use crate::utf16::{decode_le, decode_units, decode_utf16, le_units, utf16_text};

verus! {

/// How deep a type may nest before decoding gives up.
///
/// Types refer to each other by identifier, so nothing structurally stops a
/// record from containing itself. A file that does would otherwise recurse
/// without end.
pub const MAX_DEPTH: usize = 32;

/// The identifier of the AUID type, which is a record decoded whole.
pub open spec fn auid_type_id() -> Seq<u8> {
    seq![0x00u8, 0x01, 0x03, 0x01, 0x00, 0x00, 0x00, 0x00, 0x06, 0x0e, 0x2b, 0x34, 0x01, 0x04, 0x01, 0x01]
}

/// The identifier of the MobID type, which is a record decoded whole.
pub open spec fn mob_id_type_id() -> Seq<u8> {
    seq![0x00u8, 0x02, 0x03, 0x01, 0x00, 0x00, 0x00, 0x00, 0x06, 0x0e, 0x2b, 0x34, 0x01, 0x04, 0x01, 0x01]
}

/// The identifier of the character type, whose arrays are strings.
pub open spec fn character_type_id() -> Seq<u8> {
    seq![0x00u8, 0x01, 0x10, 0x01, 0x00, 0x00, 0x00, 0x00, 0x06, 0x0e, 0x2b, 0x34, 0x01, 0x04, 0x01, 0x01]
}

/// The AUID type.
pub fn auid_type() -> (r: Auid)
    ensures
        r@ == auid_type_id(),
        r == auid_of(auid_type_id()),
{
    let b = [0x00u8, 0x01, 0x03, 0x01, 0x00, 0x00, 0x00, 0x00, 0x06, 0x0e, 0x2b, 0x34, 0x01, 0x04, 0x01, 0x01];
    assert(b@ =~= auid_type_id());
    let r = Auid::from_bytes_le(b);
    proof { lemma_auid_of(r); }
    r
}

/// The MobID type.
pub fn mob_id_type() -> (r: Auid)
    ensures
        r@ == mob_id_type_id(),
{
    let b = [0x00u8, 0x02, 0x03, 0x01, 0x00, 0x00, 0x00, 0x00, 0x06, 0x0e, 0x2b, 0x34, 0x01, 0x04, 0x01, 0x01];
    assert(b@ =~= mob_id_type_id());
    Auid::from_bytes_le(b)
}

/// The character type.
pub fn character_type() -> (r: Auid)
    ensures
        r@ == character_type_id(),
{
    let b = [0x00u8, 0x01, 0x10, 0x01, 0x00, 0x00, 0x00, 0x00, 0x06, 0x0e, 0x2b, 0x34, 0x01, 0x04, 0x01, 0x01];
    assert(b@ =~= character_type_id());
    Auid::from_bytes_le(b)
}

/// A decoded property value.
#[derive(Debug, PartialEq)]
#[non_exhaustive]
pub enum Value {
    /// A signed integer.
    Int(i64),
    /// An unsigned integer.
    UInt(u64),
    /// A 16-byte identifier.
    Auid(Auid),
    /// A 32-byte mob identifier.
    MobId(MobId),
    /// A string.
    String(String),
    /// A single character.
    Char(char),

    /// An element of an enumeration, with its name if the file names it.
    Enum {
        /// The stored value.
        value: i64,
        /// The element's name, if the enumeration defines one for this value.
        name: Option<String>,
    },

    /// An element of an extendible enumeration, with its name if known.
    ExtEnum {
        /// The stored value.
        value: Auid,
        /// The element's name, if the enumeration defines one for this value.
        name: Option<String>,
    },

    /// Named members of their own types, in storage order.
    Record(Vec<(String, Value)>),

    /// Elements of one type, in order.
    Array(Vec<Value>),

    /// Elements of one type, unordered.
    ElementSet(Vec<Value>),

    /// A stream stored elsewhere in the file, named rather than read.
    Stream {
        /// The stream's name.
        name: String,
    },

    /// A reference to another object, left as it was stored.
    Reference(PropertyValue),

    /// A value whose type could not be resolved, left as bytes.
    ///
    /// Carries the type it claimed to be, so a caller can say what it was
    /// unable to read rather than only that it failed.
    Unresolved {
        /// The type the property declared.
        type_id: Auid,
        /// The bytes as stored.
        data: Vec<u8>,
    },
}

/// A value as an integer, if it is one: signed, an enumeration element, or
/// unsigned and small enough.
pub open spec fn int_of(v: Value) -> Option<i64> {
    match v {
        Value::Int(x) => Some(x),
        Value::Enum { value, .. } => Some(value),
        Value::UInt(x) => if x <= i64::MAX { Some(x as i64) } else { None },
        _ => None,
    }
}

/// An optional text as plain characters.
pub open spec fn opt_text(o: Option<String>) -> Option<Seq<char>> {
    match o {
        Some(s) => Some(s@),
        None => None,
    }
}

/// The first member of `ms` with this name.
pub open spec fn first_member(ms: Seq<(String, Value)>, name: Seq<char>) -> Option<Value>
    decreases ms.len(),
{
    if ms.len() == 0 {
        None
    } else if ms[0].0@ == name {
        Some(ms[0].1)
    } else {
        first_member(ms.drop_first(), name)
    }
}

/// A signed integer in decimal.
pub open spec fn int_text(x: i64) -> Seq<char> {
    if x < 0 {
        seq!['-'] + decimal((-(x as int)) as nat)
    } else {
        decimal(x as nat)
    }
}

/// A value rendered the way a person would want to read it.
pub open spec fn value_text(v: Value) -> Seq<char>
    decreases v,
{
    match v {
        Value::Int(x) => int_text(x),
        Value::UInt(x) => decimal(x as nat),
        Value::Auid(a) => auid_text(a@),
        Value::MobId(m) => mob_id_text(m@),
        Value::String(s) => s@,
        Value::Char(c) => seq![c],
        Value::Enum { value, name } => match name {
            Some(n) => n@,
            None => int_text(value),
        },
        Value::ExtEnum { value, name } => match name {
            Some(n) => n@,
            None => auid_text(value@),
        },
        Value::Record(ms) => "{"@ + members_text(ms@) + "}"@,
        Value::Array(items) => "["@ + items_text(items@) + "]"@,
        Value::ElementSet(items) => "["@ + items_text(items@) + "]"@,
        Value::Stream { name } => "<stream "@ + name@ + ">"@,
        Value::Reference(_) => "<reference>"@,
        Value::Unresolved { type_id, data } => "<"@ + decimal(data@.len()) + " bytes of "@ + auid_text(type_id@) + ">"@,
    }
}

/// Record members rendered as `name: value`, separated by commas.
pub open spec fn members_text(ms: Seq<(String, Value)>) -> Seq<char>
    decreases ms,
{
    if ms.len() == 0 {
        Seq::empty()
    } else {
        let last = ms.last();
        let one = last.0@ + ": "@ + value_text(last.1);
        if ms.len() == 1 {
            one
        } else {
            members_text(ms.drop_last()) + ", "@ + one
        }
    }
}

/// Values rendered one after another, separated by commas.
pub open spec fn items_text(items: Seq<Value>) -> Seq<char>
    decreases items,
{
    if items.len() == 0 {
        Seq::empty()
    } else if items.len() == 1 {
        value_text(items[0])
    } else {
        items_text(items.drop_last()) + ", "@ + value_text(items.last())
    }
}

/// Appends a signed integer in decimal.
fn push_int(out: &mut String, x: i64)
    ensures
        final(out)@ == old(out)@ + int_text(x),
{
    if x < 0 {
        let ghost before = out@;
        push_char(out, '-');
        let magnitude = (-(x as i128)) as u64;
        push_decimal(out, magnitude);
        assert(out@ =~= before + int_text(x));
    } else {
        push_decimal(out, x as u64);
    }
}

impl Value {
    /// The value as an integer, whether it was stored signed or unsigned.
    ///
    /// Enumeration elements count, since their stored value is an integer. An
    /// unsigned value too large for `i64` gives `None` rather than wrapping.
    pub fn as_i64(&self) -> (r: Option<i64>)
        ensures
            r == int_of(*self),
    {
        match self {
            Value::Int(v) => Some(*v),
            Value::Enum { value, .. } => Some(*value),
            Value::UInt(v) => if *v <= 0x7fff_ffff_ffff_ffff { Some(*v as i64) } else { None },
            _ => None,
        }
    }

    /// The value as a string, if it is one; an enumeration element gives its
    /// name, if it has one.
    pub fn as_str(&self) -> (r: Option<&str>)
        ensures
            match *self {
                Value::String(s) => r matches Some(t) && t@ == s@,
                Value::Enum { name, .. } => opt_text(name) == (match r { Some(t) => Some(t@), None => None::<Seq<char>> }),
                Value::ExtEnum { name, .. } => opt_text(name) == (match r { Some(t) => Some(t@), None => None::<Seq<char>> }),
                _ => r is None,
            },
    {
        match self {
            Value::String(v) => Some(v.as_str()),
            Value::Enum { name, .. } => match name {
                Some(n) => Some(n.as_str()),
                None => None,
            },
            Value::ExtEnum { name, .. } => match name {
                Some(n) => Some(n.as_str()),
                None => None,
            },
            _ => None,
        }
    }

    /// A record member by name: the first with that name.
    pub fn member(&self, name: &str) -> (r: Option<&Value>)
        ensures
            match *self {
                Value::Record(ms) => r == (match first_member(ms@, name@) { Some(v) => Some(&v), None => None::<&Value> }),
                _ => r is None,
            },
    {
        match self {
            Value::Record(members) => {
                let mut i: usize = 0;
                assert(members@.skip(0) =~= members@);
                while i < members.len()
                    invariant
                        i <= members@.len(),
                        *self == Value::Record(*members),
                        first_member(members@, name@) == first_member(members@.skip(i as int), name@),
                    decreases members@.len() - i,
                {
                    assert(members@.skip(i as int)[0] == members@[i as int]);
                    if same_text(members[i].0.as_str(), name) {
                        assert(first_member(members@.skip(i as int), name@) == Some(members@[i as int].1));
                        return Some(&members[i].1);
                    }
                    assert(members@.skip(i as int).drop_first() =~= members@.skip(i + 1));
                    i = i + 1;
                }
                None
            },
            _ => None,
        }
    }

    /// The value as a rational, if it is one.
    ///
    /// AAF stores rates and edit rates as a `Rational`, a record of a
    /// numerator and a denominator.
    pub fn as_rational(&self) -> (r: Option<(i64, i64)>)
        ensures
            r == (match *self {
                Value::Record(ms) => match (first_member(ms@, "Numerator"@), first_member(ms@, "Denominator"@)) {
                    (Some(n), Some(d)) => match (int_of(n), int_of(d)) {
                        (Some(a), Some(b)) => Some((a, b)),
                        _ => None,
                    },
                    _ => None,
                },
                _ => None::<(i64, i64)>,
            }),
    {
        let n = match self.member("Numerator") {
            Some(v) => v,
            None => { return None; },
        };
        let a = match n.as_i64() {
            Some(x) => x,
            None => { return None; },
        };
        let d = match self.member("Denominator") {
            Some(v) => v,
            None => { return None; },
        };
        let b = match d.as_i64() {
            Some(x) => x,
            None => { return None; },
        };
        Some((a, b))
    }

    /// Renders the value the way a person would want to read it.
    pub fn to_string(&self) -> (r: String)
        ensures
            r@ == value_text(*self),
        decreases self,
    {
        let mut out = String::new();
        match self {
            Value::Int(v) => push_int(&mut out, *v),
            Value::UInt(v) => push_decimal(&mut out, *v),
            Value::Auid(v) => { out = v.to_string(); },
            Value::MobId(v) => { out = v.to_string(); },
            Value::String(v) => push_str(&mut out, v.as_str()),
            Value::Char(v) => push_char(&mut out, *v),
            Value::Enum { value, name } => match name {
                Some(n) => push_str(&mut out, n.as_str()),
                None => push_int(&mut out, *value),
            },
            Value::ExtEnum { value, name } => match name {
                Some(n) => push_str(&mut out, n.as_str()),
                None => { out = value.to_string(); },
            },
            Value::Record(members) => {
                push_str(&mut out, "{");
                let mut i: usize = 0;
                while i < members.len()
                    invariant
                        i <= members@.len(),
                        *self == Value::Record(*members),
                        out@ == "{"@ + members_text(members@.subrange(0, i as int)),
                    decreases members@.len() - i,
                {
                    if i > 0 {
                        push_str(&mut out, ", ");
                    }
                    push_str(&mut out, members[i].0.as_str());
                    push_str(&mut out, ": ");
                    proof {
                        assert(decreases_to!(*self => self->Record_0));
                        assert(decreases_to!(self->Record_0 => members@));
                        assert(decreases_to!(members@ => members@[i as int]));
                        assert(decreases_to!(members@[i as int] => members@[i as int].1));
                    }
                    let inner = members[i].1.to_string();
                    push_str(&mut out, inner.as_str());
                    proof {
                        let t = members@.subrange(0, i + 1);
                        assert(t.drop_last() =~= members@.subrange(0, i as int));
                        assert(t.last() == members@[i as int]);
                    }
                    i = i + 1;
                }
                push_str(&mut out, "}");
                assert(members@.subrange(0, members@.len() as int) =~= members@);
            },
            Value::Array(items) => {
                push_str(&mut out, "[");
                let mut i: usize = 0;
                while i < items.len()
                    invariant
                        i <= items@.len(),
                        *self == Value::Array(*items),
                        out@ == "["@ + items_text(items@.subrange(0, i as int)),
                    decreases items@.len() - i,
                {
                    if i > 0 {
                        push_str(&mut out, ", ");
                    }
                    proof {
                        assert(decreases_to!(*self => self->Array_0));
                        assert(decreases_to!(self->Array_0 => items@));
                        assert(decreases_to!(items@ => items@[i as int]));
                    }
                    let inner = items[i].to_string();
                    push_str(&mut out, inner.as_str());
                    proof {
                        let t = items@.subrange(0, i + 1);
                        assert(t.drop_last() =~= items@.subrange(0, i as int));
                        assert(t.last() == items@[i as int]);
                    }
                    i = i + 1;
                }
                push_str(&mut out, "]");
                assert(items@.subrange(0, items@.len() as int) =~= items@);
            },
            Value::ElementSet(items) => {
                push_str(&mut out, "[");
                let mut i: usize = 0;
                while i < items.len()
                    invariant
                        i <= items@.len(),
                        *self == Value::ElementSet(*items),
                        out@ == "["@ + items_text(items@.subrange(0, i as int)),
                    decreases items@.len() - i,
                {
                    if i > 0 {
                        push_str(&mut out, ", ");
                    }
                    proof {
                        assert(decreases_to!(*self => self->ElementSet_0));
                        assert(decreases_to!(self->ElementSet_0 => items@));
                        assert(decreases_to!(items@ => items@[i as int]));
                    }
                    let inner = items[i].to_string();
                    push_str(&mut out, inner.as_str());
                    proof {
                        let t = items@.subrange(0, i + 1);
                        assert(t.drop_last() =~= items@.subrange(0, i as int));
                        assert(t.last() == items@[i as int]);
                    }
                    i = i + 1;
                }
                push_str(&mut out, "]");
                assert(items@.subrange(0, items@.len() as int) =~= items@);
            },
            Value::Stream { name } => {
                push_str(&mut out, "<stream ");
                push_str(&mut out, name.as_str());
                push_str(&mut out, ">");
            },
            Value::Reference(_) => push_str(&mut out, "<reference>"),
            Value::Unresolved { type_id, data } => {
                push_str(&mut out, "<");
                push_decimal(&mut out, data.len() as u64);
                push_str(&mut out, " bytes of ");
                push_str(&mut out, type_id.to_string().as_str());
                push_str(&mut out, ">");
            },
        }
        assert(out@ =~= value_text(*self));
        out
    }
}

/// `n` if a `usize` can hold it.
pub open spec fn fits(n: int) -> Option<nat> {
    if 0 <= n <= usize::MAX { Some(n as nat) } else { None }
}

/// `n`, or the largest `usize` where it is larger.
pub open spec fn sat(n: int) -> usize {
    if n <= usize::MAX { n as usize } else { usize::MAX }
}

/// The types of a record's members.
pub open spec fn member_types(ms: Seq<(String, Auid)>) -> Seq<Seq<u8>> {
    ms.map_values(|m: (String, Auid)| m.1@)
}

/// Every integer type is at most eight bytes wide.
pub open spec fn ints_fit(types: Map<Seq<u8>, TypeDef>) -> bool {
    forall|k: Seq<u8>| #[trigger] types.contains_key(k) ==> (types[k].kind matches TypeKind::Int { size, .. } ==> size <= 8)
}

/// How many bytes a value of type `t` occupies, if the type has a fixed
/// size that a `usize` can hold. Types nested deeper than the limit have none.
pub open spec fn size_of(types: Map<Seq<u8>, TypeDef>, t: Seq<u8>, depth: nat) -> Option<nat>
    decreases 34 - depth, 0int,
{
    if depth > 32 {
        None
    } else if t == auid_type_id() {
        Some(16)
    } else if t == mob_id_type_id() {
        Some(32)
    } else if !types.contains_key(t) {
        None
    } else {
        match types[t].kind {
            TypeKind::Int { size, .. } => Some(size as nat),
            TypeKind::Character => Some(2),
            TypeKind::ExtEnum { .. } => Some(16),
            TypeKind::Enum { element_type, .. } => size_of(types, element_type@, depth + 1),
            TypeKind::Rename { renamed } => size_of(types, renamed@, depth + 1),
            TypeKind::Record { members } => members_size(types, member_types(members@), depth),
            TypeKind::FixedArray { element_type, count } => match size_of(types, element_type@, depth + 1) {
                Some(sz) => fits(sz * count),
                None => None,
            },
            _ => None,
        }
    }
}

/// The total size of members of the types `ms`, each at the next depth.
pub open spec fn members_size(types: Map<Seq<u8>, TypeDef>, ms: Seq<Seq<u8>>, depth: nat) -> Option<nat>
    decreases 33 - depth, ms.len(),
{
    if depth > 32 {
        None
    } else if ms.len() == 0 {
        Some(0)
    } else {
        match (members_size(types, ms.drop_last(), depth), size_of(types, ms.last(), depth + 1)) {
            (Some(a), Some(b)) => fits((a + b) as int),
            _ => None,
        }
    }
}

/// A size known too late makes the whole total unknown.
proof fn lemma_members_none(types: Map<Seq<u8>, TypeDef>, ms: Seq<Seq<u8>>, depth: nat, k: int)
    requires
        0 <= k <= ms.len(),
        members_size(types, ms.take(k), depth) is None,
    ensures
        members_size(types, ms, depth) is None,
    decreases ms.len() - k,
{
    if k < ms.len() {
        assert(ms.take(k + 1).drop_last() =~= ms.take(k));
        lemma_members_none(types, ms, depth, k + 1);
    } else {
        assert(ms.take(k) =~= ms);
    }
}

/// The little-endian unsigned value of up to eight bytes.
pub open spec fn raw_of(d: Seq<u8>) -> int {
    le64(d + Seq::new((8 - d.len()) as nat, |_i: int| 0u8), 0)
}

/// The value of a sign bit for an integer `size` bytes wide.
pub open spec fn sign_bound(size: u8) -> int {
    if size == 1 {
        0x80
    } else if size == 2 {
        0x8000
    } else if size == 3 {
        0x80_0000
    } else if size == 4 {
        0x8000_0000
    } else if size == 5 {
        0x80_0000_0000
    } else if size == 6 {
        0x8000_0000_0000
    } else if size == 7 {
        0x80_0000_0000_0000
    } else {
        0x8000_0000_0000_0000
    }
}

/// The value of a `size`-byte two's complement integer whose bits are `raw`.
pub open spec fn sign_extended(raw: int, size: u8) -> i64 {
    if size == 0 {
        0
    } else if raw >= sign_bound(size) {
        (raw - 2 * sign_bound(size)) as i64
    } else {
        raw as i64
    }
}

/// A decoded value as plain data.
pub enum ValueModel {
    /// A signed integer.
    Int(i64),
    /// An unsigned integer.
    UInt(u64),
    /// The bytes of an AUID.
    Auid(Seq<u8>),
    /// The bytes of a mob id.
    MobId(Seq<u8>),
    /// A string.
    Text(Seq<char>),
    /// A character.
    Char(char),
    /// An enumeration element and its name.
    Enum(i64, Option<Seq<char>>),
    /// An extendible enumeration element and its name.
    ExtEnum(Seq<u8>, Option<Seq<char>>),
    /// Named members.
    Record(Seq<(Seq<char>, ValueModel)>),
    /// Ordered elements.
    Array(Seq<ValueModel>),
    /// Unordered elements.
    Unordered(Seq<ValueModel>),
    /// A stream's name.
    Stream(Seq<char>),
    /// A reference as stored.
    Reference(crate::property::ValueView),
    /// A type and the bytes left undecoded.
    Unresolved(Seq<u8>, Seq<u8>),
}

/// A value as plain data.
pub open spec fn value_model(v: Value) -> ValueModel
    decreases v,
{
    match v {
        Value::Int(x) => ValueModel::Int(x),
        Value::UInt(x) => ValueModel::UInt(x),
        Value::Auid(a) => ValueModel::Auid(a@),
        Value::MobId(m) => ValueModel::MobId(m@),
        Value::String(s) => ValueModel::Text(s@),
        Value::Char(c) => ValueModel::Char(c),
        Value::Enum { value, name } => ValueModel::Enum(value, opt_text(name)),
        Value::ExtEnum { value, name } => ValueModel::ExtEnum(value@, opt_text(name)),
        Value::Record(ms) => ValueModel::Record(members_model(ms@)),
        Value::Array(items) => ValueModel::Array(items_model(items@)),
        Value::ElementSet(items) => ValueModel::Unordered(items_model(items@)),
        Value::Stream { name } => ValueModel::Stream(name@),
        Value::Reference(p) => ValueModel::Reference(p@),
        Value::Unresolved { type_id, data } => ValueModel::Unresolved(type_id@, data@),
    }
}

/// Record members as plain data.
pub open spec fn members_model(ms: Seq<(String, Value)>) -> Seq<(Seq<char>, ValueModel)>
    decreases ms,
{
    if ms.len() == 0 {
        Seq::empty()
    } else {
        members_model(ms.drop_last()).push((ms.last().0@, value_model(ms.last().1)))
    }
}

/// Values as plain data.
pub open spec fn items_model(items: Seq<Value>) -> Seq<ValueModel>
    decreases items,
{
    if items.len() == 0 {
        Seq::empty()
    } else {
        items_model(items.drop_last()).push(value_model(items.last()))
    }
}

/// What a property decodes to with the type `type_id`: inline data is
/// decoded, a stream is named and a reference is left as it was stored.
pub open spec fn decode_model(types: Map<Seq<u8>, TypeDef>, type_id: Auid, property: Property) -> Result<ValueModel> {
    match property.value {
        PropertyValue::Data(d) => decode_spec(types, type_id, d@, 0),
        PropertyValue::Stream { name } => Ok(ValueModel::Stream(name@)),
        _ => Ok(ValueModel::Reference(property.value@)),
    }
}

/// A decode's outcome as plain data.
pub open spec fn result_model(r: Result<Value>) -> Result<ValueModel> {
    match r {
        Ok(v) => Ok(value_model(v)),
        Err(e) => Err(e),
    }
}

/// Decoded elements as plain data.
pub open spec fn items_result(r: Result<Vec<Value>>) -> Result<Seq<ValueModel>> {
    match r {
        Ok(v) => Ok(items_model(v@)),
        Err(e) => Err(e),
    }
}

/// `p` in front of what `r` holds, or `r`'s error.
pub open spec fn prepend<T>(p: Seq<T>, r: Result<Seq<T>>) -> Result<Seq<T>> {
    match r {
        Ok(rest) => Ok(p + rest),
        Err(e) => Err(e),
    }
}

/// Putting two pieces in front is putting them in front together.
proof fn lemma_prepend_twice<T>(p: Seq<T>, x: T, r: Result<Seq<T>>)
    ensures
        prepend(p, prepend(seq![x], r)) == prepend(p.push(x), r),
{
    if let Ok(rest) = r {
        assert(p + (seq![x] + rest) =~= p.push(x) + rest);
    }
}

/// A decoded value as an integer, if it is one.
pub open spec fn model_int(v: ValueModel) -> Option<i64> {
    match v {
        ValueModel::Int(x) => Some(x),
        ValueModel::Enum(x, _) => Some(x),
        ValueModel::UInt(x) => if x <= i64::MAX { Some(x as i64) } else { None },
        _ => None,
    }
}

/// An integer of type `t`, `size` bytes wide, read from `d`.
pub open spec fn int_spec(t: Auid, d: Seq<u8>, size: u8, signed: bool) -> Result<ValueModel> {
    if d.len() != size {
        Err(Error::WrongValueSize { type_id: t, wanted: size as usize, found: d.len() as usize })
    } else if signed {
        Ok(ValueModel::Int(sign_extended(raw_of(d), size)))
    } else {
        Ok(ValueModel::UInt(raw_of(d) as u64))
    }
}

/// The error for bytes that are not an AUID's sixteen.
pub open spec fn auid_size_error(d: Seq<u8>) -> Error {
    Error::WrongValueSize { type_id: auid_of(auid_type_id()), wanted: 16, found: d.len() as usize }
}

/// The name of the first element with this value.
pub open spec fn first_enum_name(elements: Seq<(i64, String)>, x: i64) -> Option<Seq<char>>
    decreases elements.len(),
{
    if elements.len() == 0 {
        None
    } else if elements[0].0 == x {
        Some(elements[0].1@)
    } else {
        first_enum_name(elements.drop_first(), x)
    }
}

/// The name of the first element with this AUID.
pub open spec fn first_ext_name(elements: Seq<(Auid, String)>, key: Seq<u8>) -> Option<Seq<char>>
    decreases elements.len(),
{
    if elements.len() == 0 {
        None
    } else if elements[0].0@ == key {
        Some(elements[0].1@)
    } else {
        first_ext_name(elements.drop_first(), key)
    }
}

/// The name an extendible enumeration gives a value is that of its first
/// element with that AUID, and there is none only where no element has it.
proof fn lemma_first_ext_name(els: Seq<(Auid, String)>, key: Seq<u8>)
    ensures
        first_ext_name(els, key) is None <==> forall|i: int| 0 <= i < els.len() ==> (#[trigger] els[i]).0@ != key,
        first_ext_name(els, key) matches Some(x) ==> exists|i: int| 0 <= i < els.len() && (#[trigger] els[i]).0@ == key
            && els[i].1@ == x && forall|j: int| 0 <= j < i ==> (#[trigger] els[j]).0@ != key,
    decreases els.len(),
{
    if els.len() > 0 {
        let rest = els.drop_first();
        lemma_first_ext_name(rest, key);
        assert forall|i: int| 0 <= i < rest.len() implies #[trigger] rest[i] == els[i + 1] by {}
        if els[0].0@ == key {
            assert(els[0].0@ == key && els[0].1@ == first_ext_name(els, key)->Some_0);
        } else if let Some(x) = first_ext_name(rest, key) {
            let i = choose|i: int| 0 <= i < rest.len() && (#[trigger] rest[i]).0@ == key
                && rest[i].1@ == x && forall|j: int| 0 <= j < i ==> (#[trigger] rest[j]).0@ != key;
            assert(els[i + 1].0@ == key);
            assert forall|j: int| 0 <= j < i + 1 implies (#[trigger] els[j]).0@ != key by {
                if j > 0 { assert(els[j] == rest[j - 1]); }
            }
        } else {
            assert forall|i: int| 0 <= i < els.len() implies (#[trigger] els[i]).0@ != key by {
                if i > 0 { assert(els[i] == rest[i - 1]); }
            }
        }
    }
}

/// The name an enumeration gives a value is that of its first element with
/// that value, and there is none only where no element has it.
proof fn lemma_first_enum_name(els: Seq<(i64, String)>, x: i64)
    ensures
        first_enum_name(els, x) is None <==> forall|i: int| 0 <= i < els.len() ==> (#[trigger] els[i]).0 != x,
        first_enum_name(els, x) matches Some(n) ==> exists|i: int| 0 <= i < els.len() && (#[trigger] els[i]).0 == x
            && els[i].1@ == n && forall|j: int| 0 <= j < i ==> (#[trigger] els[j]).0 != x,
    decreases els.len(),
{
    if els.len() > 0 {
        let rest = els.drop_first();
        lemma_first_enum_name(rest, x);
        assert forall|i: int| 0 <= i < rest.len() implies #[trigger] rest[i] == els[i + 1] by {}
        if els[0].0 == x {
            assert(els[0].0 == x && els[0].1@ == first_enum_name(els, x)->Some_0);
        } else if let Some(n) = first_enum_name(rest, x) {
            let i = choose|i: int| 0 <= i < rest.len() && (#[trigger] rest[i]).0 == x
                && rest[i].1@ == n && forall|j: int| 0 <= j < i ==> (#[trigger] rest[j]).0 != x;
            assert(els[i + 1].0 == x);
            assert forall|j: int| 0 <= j < i + 1 implies (#[trigger] els[j]).0 != x by {
                if j > 0 { assert(els[j] == rest[j - 1]); }
            }
        } else {
            assert forall|i: int| 0 <= i < els.len() implies (#[trigger] els[i]).0 != x by {
                if i > 0 { assert(els[i] == rest[i - 1]); }
            }
        }
    }
}

/// Sixteen bytes of an extendible enumeration decode as that AUID, named by
/// the first element with that AUID, and unnamed only where no element has
/// it.
pub proof fn lemma_ext_enum_decoding(types: Map<Seq<u8>, TypeDef>, t: Auid, d: Seq<u8>, depth: nat)
    requires
        depth <= 32,
        t@ != auid_type_id(),
        t@ != mob_id_type_id(),
        types.contains_key(t@),
        types[t@].kind is ExtEnum,
        d.len() == 16,
    ensures
        decode_spec(types, t, d, depth) matches Ok(ValueModel::ExtEnum(v, n)) && v == d && {
            let els = types[t@].kind->ExtEnum_elements@;
            &&& (n is None <==> forall|i: int| 0 <= i < els.len() ==> (#[trigger] els[i]).0@ != d)
            &&& (n matches Some(x) ==> exists|i: int| 0 <= i < els.len() && (#[trigger] els[i]).0@ == d
                && els[i].1@ == x && forall|j: int| 0 <= j < i ==> (#[trigger] els[j]).0@ != d)
        },
{
    lemma_first_ext_name(types[t@].kind->ExtEnum_elements@, d);
}

/// An enumeration's value is named by its first element with that value,
/// and unnamed only where no element has it.
pub proof fn lemma_enum_decoding(types: Map<Seq<u8>, TypeDef>, t: Auid, d: Seq<u8>, depth: nat)
    requires
        depth <= 32,
        t@ != auid_type_id(),
        t@ != mob_id_type_id(),
        types.contains_key(t@),
        types[t@].kind is Enum,
    ensures
        decode_spec(types, t, d, depth) matches Ok(ValueModel::Enum(x, n)) ==> {
            let els = types[t@].kind->Enum_elements@;
            &&& (n is None <==> forall|i: int| 0 <= i < els.len() ==> (#[trigger] els[i]).0 != x)
            &&& (n matches Some(m) ==> exists|i: int| 0 <= i < els.len() && (#[trigger] els[i]).0 == x
                && els[i].1@ == m && forall|j: int| 0 <= j < i ==> (#[trigger] els[j]).0 != x)
        },
{
    if let Ok(ValueModel::Enum(x, n)) = decode_spec(types, t, d, depth) {
        lemma_first_enum_name(types[t@].kind->Enum_elements@, x);
    }
}

/// The texts of a list of strings.
pub open spec fn texts(s: Seq<String>) -> Seq<Seq<char>> {
    s.map_values(|x: String| x@)
}

/// The NUL-terminated runs of `u` from position `i`, after the run `cur`
/// begun so far and the runs `acc` already ended. A run the units end in
/// without a NUL is not a string.
pub open spec fn split_runs(u: Seq<u16>, i: int, cur: Seq<u16>, acc: Seq<Seq<char>>) -> Seq<Seq<char>>
    decreases u.len() - i,
{
    if i >= u.len() {
        acc
    } else if u[i] == 0 {
        split_runs(u, i + 1, Seq::empty(), acc.push(decode_utf16(cur)))
    } else {
        split_runs(u, i + 1, cur.push(u[i]), acc)
    }
}

/// A run of NUL-terminated UTF-16LE strings stored one after another.
pub open spec fn utf16_strings_of(d: Seq<u8>) -> Seq<Seq<char>> {
    split_runs(le_units(d), 0, Seq::empty(), Seq::empty())
}

/// Strings as decoded values.
pub open spec fn strings_model(ss: Seq<Seq<char>>) -> Seq<ValueModel> {
    Seq::new(ss.len(), |i: int| ValueModel::Text(ss[i]))
}

/// The bytes of an element `size` bytes wide at position `i` of `d`.
pub open spec fn element_bytes(d: Seq<u8>, i: int, size: nat) -> Seq<u8> {
    d.subrange(i * size, i * size + size)
}

/// The size of each element of type `et` and how many there are in `d`:
/// `count` of them, or as many as the bytes hold.
pub open spec fn elements_params(types: Map<Seq<u8>, TypeDef>, et: Auid, d: Seq<u8>, count: Option<nat>, depth: nat) -> Result<(nat, nat)> {
    match size_of(types, et@, depth + 1) {
        None => Err(Error::UnsizedType { type_id: et }),
        Some(sz) => if sz == 0 {
            Err(Error::UnsizedType { type_id: et })
        } else {
            let avail = d.len() / sz;
            let n: nat = match count { Some(c) => c, None => avail };
            if n > avail {
                Err(Error::WrongValueSize { type_id: et, wanted: sat((n * sz) as int), found: d.len() as usize })
            } else {
                Ok((sz, n))
            }
        },
    }
}

/// What decoding `d` as type `t` gives, `depth` types down from the
/// property that holds it.
pub open spec fn decode_spec(types: Map<Seq<u8>, TypeDef>, t: Auid, d: Seq<u8>, depth: nat) -> Result<ValueModel>
    decreases 33 - depth, 1int, 0int,
{
    if depth > 32 {
        Err(Error::TypeTooDeep { type_id: t })
    } else if t@ == auid_type_id() {
        if d.len() == 16 { Ok(ValueModel::Auid(d)) } else { Err(auid_size_error(d)) }
    } else if t@ == mob_id_type_id() {
        if d.len() == 32 {
            Ok(ValueModel::MobId(d))
        } else {
            Err(Error::WrongValueSize { type_id: t, wanted: 32, found: d.len() as usize })
        }
    } else if !types.contains_key(t@) {
        Err(Error::UndefinedType { type_id: t })
    } else {
        match types[t@].kind {
            TypeKind::Int { size, signed } => int_spec(t, d, size, signed),
            TypeKind::Character => if d.len() < 2 {
                Err(Error::WrongValueSize { type_id: t, wanted: 2, found: d.len() as usize })
            } else {
                Ok(ValueModel::Char(decode_utf16(seq![le16(d, 0) as u16])[0]))
            },
            TypeKind::String { .. } => Ok(ValueModel::Text(utf16_text(d))),
            TypeKind::Enum { element_type, elements } => match decode_spec(types, element_type, d, depth + 1) {
                Err(e) => Err(e),
                Ok(v) => match model_int(v) {
                    None => Err(Error::UndefinedType { type_id: element_type }),
                    Some(x) => Ok(ValueModel::Enum(x, first_enum_name(elements@, x))),
                },
            },
            TypeKind::ExtEnum { elements } => if d.len() != 16 {
                Err(auid_size_error(d))
            } else {
                Ok(ValueModel::ExtEnum(d, first_ext_name(elements@, d)))
            },
            TypeKind::Rename { renamed } => decode_spec(types, renamed, d, depth + 1),
            TypeKind::Record { members } => match record_spec(types, t, members@, d, depth, 0, 0) {
                Ok(ms) => Ok(ValueModel::Record(ms)),
                Err(e) => Err(e),
            },
            TypeKind::FixedArray { element_type, count } => match elements_params(types, element_type, d, Some(count as nat), depth) {
                Err(e) => Err(e),
                Ok((sz, n)) => match items_spec(types, element_type, d, sz, depth, 0, n) {
                    Ok(items) => Ok(ValueModel::Array(items)),
                    Err(e) => Err(e),
                },
            },
            TypeKind::VarArray { element_type } => if element_type@ == character_type_id() {
                Ok(ValueModel::Array(strings_model(utf16_strings_of(d))))
            } else {
                match elements_params(types, element_type, d, None, depth) {
                    Err(e) => Err(e),
                    Ok((sz, n)) => match items_spec(types, element_type, d, sz, depth, 0, n) {
                        Ok(items) => Ok(ValueModel::Array(items)),
                        Err(e) => Err(e),
                    },
                }
            },
            TypeKind::ElementSet { element_type } => match elements_params(types, element_type, d, None, depth) {
                Err(e) => Err(e),
                Ok((sz, n)) => match items_spec(types, element_type, d, sz, depth, 0, n) {
                    Ok(items) => Ok(ValueModel::Unordered(items)),
                    Err(e) => Err(e),
                },
            },
            TypeKind::Indirect => indirect_spec(types, t, d, depth),
            TypeKind::Opaque => indirect_spec(types, t, d, depth),
            _ => Ok(ValueModel::Unresolved(t@, d)),
        }
    }
}

/// A value that carries the identity of its own type: a byte order mark,
/// the type's AUID, then the value.
pub open spec fn indirect_spec(types: Map<Seq<u8>, TypeDef>, t: Auid, d: Seq<u8>, depth: nat) -> Result<ValueModel>
    decreases 33 - depth, 0int, 0int,
{
    if depth > 32 {
        Err(Error::TypeTooDeep { type_id: t })
    } else if d.len() == 0 {
        Err(Error::WrongValueSize { type_id: t, wanted: 17, found: 0 })
    } else if d[0] != 0x4c {
        Err(Error::UnsupportedByteOrder { mark: d[0] })
    } else if d.len() < 17 {
        Err(Error::WrongValueSize { type_id: t, wanted: 17, found: d.len() as usize })
    } else {
        decode_spec(types, auid_of(d.subrange(1, 17)), d.skip(17), depth + 1)
    }
}

/// The members of record type `t` from member `k` on, member `k` starting
/// at `at`: each read at the size its type has, one after another.
pub open spec fn record_spec(types: Map<Seq<u8>, TypeDef>, t: Auid, ms: Seq<(String, Auid)>, d: Seq<u8>, depth: nat, k: int, at: int)
    -> Result<Seq<(Seq<char>, ValueModel)>>
    decreases 33 - depth, 0int, ms.len() - k,
{
    if depth > 32 || k < 0 || k >= ms.len() {
        Ok(Seq::empty())
    } else {
        match size_of(types, ms[k].1@, depth + 1) {
            None => Err(Error::UnsizedType { type_id: ms[k].1 }),
            Some(sz) => if at + sz > d.len() {
                Err(Error::WrongValueSize { type_id: t, wanted: sat(at + sz), found: d.len() as usize })
            } else {
                match decode_spec(types, ms[k].1, d.subrange(at, at + sz), depth + 1) {
                    Err(e) => Err(e),
                    Ok(v) => prepend(seq![(ms[k].0@, v)], record_spec(types, t, ms, d, depth, k + 1, at + sz)),
                }
            },
        }
    }
}

/// Elements `i` to `n` of type `et`, `sz` bytes each, laid out back to back.
pub open spec fn items_spec(types: Map<Seq<u8>, TypeDef>, et: Auid, d: Seq<u8>, sz: nat, depth: nat, i: int, n: nat)
    -> Result<Seq<ValueModel>>
    decreases 33 - depth, 0int, n - i,
{
    if depth > 32 || i < 0 || i >= n {
        Ok(Seq::empty())
    } else {
        match decode_spec(types, et, element_bytes(d, i, sz), depth + 1) {
            Err(e) => Err(e),
            Ok(v) => prepend(seq![v], items_spec(types, et, d, sz, depth, i + 1, n)),
        }
    }
}

/// An AUID read whole from its 16 bytes.
fn auid_from(data: &[u8]) -> (r: Result<Auid>)
    ensures
        data@.len() == 16 ==> (r matches Ok(a) && a@ == data@),
        data@.len() != 16 ==> r == Err::<Auid, Error>(auid_size_error(data@)),
{
    if data.len() != 16 {
        return Err(Error::WrongValueSize { type_id: auid_type(), wanted: 16, found: data.len() });
    }
    let a = Auid::from_bytes_le(array16(data, 0));
    assert(data@.subrange(0, 16) =~= data@);
    Ok(a)
}

/// An integer of type `type_id`, `size` bytes wide, sign-extended from its
/// stored width where it is signed, so a negative `int16` stays negative
/// once widened to 64 bits.
fn decode_int(type_id: Auid, data: &[u8], size: u8, signed: bool) -> (r: Result<Value>)
    requires
        size <= 8,
    ensures
        result_model(r) == int_spec(type_id, data@, size, signed),
{
    if data.len() != size as usize {
        return Err(Error::WrongValueSize { type_id, wanted: size as usize, found: data.len() });
    }
    let mut buffer = [0u8; 8];
    let mut i: usize = 0;
    while i < data.len()
        invariant
            i <= data@.len() == size <= 8,
            forall|j: int| 0 <= j < i ==> buffer@[j] == data@[j],
            forall|j: int| i <= j < 8 ==> buffer@[j] == 0,
            buffer@.len() == 8,
        decreases data@.len() - i,
    {
        buffer[i] = data[i];
        i = i + 1;
    }
    let ghost padded = data@ + Seq::new((8 - data@.len()) as nat, |_i: int| 0u8);
    assert(buffer@ =~= padded);
    let raw = read_u64(buffer.as_slice(), 0);
    assert(raw == raw_of(data@));
    if !signed {
        return Ok(Value::UInt(raw));
    }
    if size == 0 {
        return Ok(Value::Int(0));
    }
    let bound: u64 = if size == 1 {
        0x80
    } else if size == 2 {
        0x8000
    } else if size == 3 {
        0x80_0000
    } else if size == 4 {
        0x8000_0000
    } else if size == 5 {
        0x80_0000_0000
    } else if size == 6 {
        0x8000_0000_0000
    } else if size == 7 {
        0x80_0000_0000_0000
    } else {
        0x8000_0000_0000_0000
    };
    assert(bound == sign_bound(size));
    assert(raw < 2 * (bound as int)) by {
        assert(forall|j: int| size <= j < 8 ==> buffer@[j] == 0);
    }
    let value: i64 = if raw >= bound {
        (raw as i128 - 2 * (bound as i128)) as i64
    } else {
        raw as i64
    };
    Ok(Value::Int(value))
}

/// Splits a run of NUL-terminated UTF-16LE strings. A run after the last
/// NUL is not a string and is left out.
pub fn utf16_strings(data: &[u8]) -> (r: Vec<String>)
    ensures
        texts(r@) == utf16_strings_of(data@),
{
    let len = data.len();
    let n = len / 2;
    let ghost u = le_units(data@);
    let mut out: Vec<String> = Vec::new();
    let mut cur: Vec<u16> = Vec::new();
    let mut i: usize = 0;
    assert(texts(out@) =~= Seq::<Seq<char>>::empty());
    while i < n
        invariant
            len == data@.len(),
            n == len / 2,
            u == le_units(data@),
            u.len() == n,
            i <= n,
            split_runs(u, 0, Seq::empty(), Seq::empty()) == split_runs(u, i as int, cur@, texts(out@)),
        decreases n - i,
    {
        let unit = read_u16(data, 2 * i);
        assert(u[i as int] == unit);
        if unit == 0 {
            let chars = decode_units(cur.as_slice());
            let text = string_from(chars.as_slice());
            let ghost before = texts(out@);
            out.push(text);
            assert(texts(out@) =~= before.push(decode_utf16(cur@)));
            cur = Vec::new();
            assert(cur@ =~= Seq::<u16>::empty());
        } else {
            cur.push(unit);
        }
        i = i + 1;
    }
    out
}

/// The name of the first element with this value.
fn enum_name(elements: &Vec<(i64, String)>, x: i64) -> (r: Option<String>)
    ensures
        opt_text(r) == first_enum_name(elements@, x),
{
    let mut i: usize = 0;
    assert(elements@.skip(0) =~= elements@);
    while i < elements.len()
        invariant
            i <= elements@.len(),
            first_enum_name(elements@, x) == first_enum_name(elements@.skip(i as int), x),
        decreases elements@.len() - i,
    {
        assert(elements@.skip(i as int)[0] == elements@[i as int]);
        if elements[i].0 == x {
            return Some(elements[i].1.clone());
        }
        assert(elements@.skip(i as int).drop_first() =~= elements@.skip(i + 1));
        i = i + 1;
    }
    None
}

/// The name of the first element with this AUID.
fn ext_name(elements: &Vec<(Auid, String)>, key: &Auid) -> (r: Option<String>)
    ensures
        opt_text(r) == first_ext_name(elements@, key@),
{
    let mut i: usize = 0;
    assert(elements@.skip(0) =~= elements@);
    while i < elements.len()
        invariant
            i <= elements@.len(),
            first_ext_name(elements@, key@) == first_ext_name(elements@.skip(i as int), key@),
        decreases elements@.len() - i,
    {
        assert(elements@.skip(i as int)[0] == elements@[i as int]);
        if elements[i].0 == *key {
            return Some(elements[i].1.clone());
        }
        assert(elements@.skip(i as int).drop_first() =~= elements@.skip(i + 1));
        i = i + 1;
    }
    None
}

/// An optional size as a plain number.
pub open spec fn opt_nat(o: Option<usize>) -> Option<nat> {
    match o {
        Some(x) => Some(x as nat),
        None => None,
    }
}

impl MetaDictionary {
    /// How many bytes a value of this type occupies, if the type has a fixed
    /// size.
    ///
    /// Strings, variable arrays, sets and streams have no fixed size, so they
    /// cannot be members of a record or elements of an array, and this gives
    /// `None` for them. So does a size too large for a `usize`.
    pub fn byte_size(&self, type_id: Auid, depth: usize) -> (r: Option<usize>)
        requires
            self.wf(),
        ensures
            opt_nat(r) == size_of(self.type_map(), type_id@, depth as nat),
        decreases 34 - depth,
    {
        if depth > MAX_DEPTH {
            return None;
        }
        if type_id == auid_type() {
            return Some(16);
        }
        if type_id == mob_id_type() {
            return Some(32);
        }
        let type_def = match self.type_def(type_id) {
            Some(t) => t,
            None => { return None; },
        };
        let ghost types = self.type_map();
        match &type_def.kind {
            TypeKind::Int { size, .. } => Some(*size as usize),
            TypeKind::Character => Some(2),
            TypeKind::ExtEnum { .. } => Some(16),
            TypeKind::Enum { element_type, .. } => self.byte_size(*element_type, depth + 1),
            TypeKind::Rename { renamed } => self.byte_size(*renamed, depth + 1),
            TypeKind::Record { members } => {
                let ghost ms = member_types(members@);
                let mut total: usize = 0;
                let mut k: usize = 0;
                assert(ms.take(0) =~= Seq::<Seq<u8>>::empty());
                while k < members.len()
                    invariant
                        self.wf(),
                        types == self.type_map(),
                        depth <= 32,
                        type_id@ != auid_type_id(),
                        type_id@ != mob_id_type_id(),
                        types.contains_key(type_id@),
                        types[type_id@].kind == (TypeKind::Record { members: *members }),
                        ms == member_types(members@),
                        k <= members@.len(),
                        members_size(types, ms.take(k as int), depth as nat) == Some(total as nat),
                    decreases members@.len() - k,
                {
                    assert(ms.take(k + 1).drop_last() =~= ms.take(k as int));
                    assert(ms.take(k + 1).last() == members@[k as int].1@);
                    let b = match self.byte_size(members[k].1, depth + 1) {
                        Some(b) => b,
                        None => {
                            proof { lemma_members_none(types, ms, depth as nat, k + 1); }
                            return None;
                        },
                    };
                    total = match total.checked_add(b) {
                        Some(x) => x,
                        None => {
                            proof { lemma_members_none(types, ms, depth as nat, k + 1); }
                            return None;
                        },
                    };
                    k = k + 1;
                }
                assert(ms.take(members@.len() as int) =~= ms);
                Some(total)
            },
            TypeKind::FixedArray { element_type, count } => match self.byte_size(*element_type, depth + 1) {
                Some(sz) => sz.checked_mul(*count as usize),
                None => None,
            },
            _ => None,
        }
    }
}

/// A copy of a property value.
fn copy_value(v: &PropertyValue) -> (r: PropertyValue)
    ensures
        r@ == v@,
{
    match v {
        PropertyValue::Data(d) => {
            let c = copy_range(d.as_slice(), 0, d.len());
            assert(c@ =~= d@);
            PropertyValue::Data(c)
        },
        PropertyValue::Stream { name } => PropertyValue::Stream { name: name.clone() },
        PropertyValue::StrongRef { name } => PropertyValue::StrongRef { name: name.clone() },
        PropertyValue::StrongRefVector { index_name } => PropertyValue::StrongRefVector { index_name: index_name.clone() },
        PropertyValue::StrongRefSet { index_name } => PropertyValue::StrongRefSet { index_name: index_name.clone() },
        PropertyValue::WeakRef { weakref_index, key_pid, key } => PropertyValue::WeakRef {
            weakref_index: *weakref_index,
            key_pid: *key_pid,
            key: *key,
        },
        PropertyValue::WeakRefArray { index_name } => PropertyValue::WeakRefArray { index_name: index_name.clone() },
        PropertyValue::Opaque(d) => {
            let c = copy_range(d.as_slice(), 0, d.len());
            assert(c@ =~= d@);
            PropertyValue::Opaque(c)
        },
    }
}

impl MetaDictionary {
    /// Decodes a property's value using the type it declares.
    ///
    /// Inline data is decoded; a stream is named rather than read; a
    /// reference is left as it was stored.
    pub fn decode(&self, type_id: Auid, property: &Property) -> (r: Result<Value>)
        requires
            self.wf(),
            ints_fit(self.type_map()),
        ensures
            result_model(r) == decode_model(self.type_map(), type_id, *property),
    {
        match &property.value {
            PropertyValue::Data(data) => self.decode_bytes(type_id, data.as_slice(), 0),
            PropertyValue::Stream { name } => Ok(Value::Stream { name: name.clone() }),
            other => Ok(Value::Reference(copy_value(other))),
        }
    }

    /// Decodes bytes known to be of a given type, `depth` types down from
    /// the property that holds them.
    ///
    /// Fails if the type is not one the dictionary defines, if the bytes are
    /// the wrong length for it, or if it nests deeper than [`MAX_DEPTH`].
    pub fn decode_bytes(&self, type_id: Auid, data: &[u8], depth: usize) -> (r: Result<Value>)
        requires
            self.wf(),
            depth <= 32 ==> ints_fit(self.type_map()),
        ensures
            result_model(r) == decode_spec(self.type_map(), type_id, data@, depth as nat),
        decreases 33 - depth, 2int, 0int,
    {
        let ghost d = data@;
        if depth > MAX_DEPTH {
            return Err(Error::TypeTooDeep { type_id });
        }
        // Two records are really single values and are decoded whole rather
        // than member by member.
        if type_id == auid_type() {
            return match auid_from(data) {
                Ok(a) => Ok(Value::Auid(a)),
                Err(e) => Err(e),
            };
        }
        if type_id == mob_id_type() {
            if data.len() != 32 {
                return Err(Error::WrongValueSize { type_id, wanted: 32, found: data.len() });
            }
            let m = MobId::from_bytes(array32(data, 0));
            assert(d.subrange(0, 32) =~= d);
            return Ok(Value::MobId(m));
        }
        let type_def = match self.type_def(type_id) {
            Some(t) => t,
            None => { return Err(Error::UndefinedType { type_id }); },
        };
        self.decode_defined(type_id, type_def, data, depth)
    }

    /// Decodes bytes of a type the dictionary defines, by its category.
    #[verifier::rlimit(60)]
    fn decode_defined(&self, type_id: Auid, type_def: &TypeDef, data: &[u8], depth: usize) -> (r: Result<Value>)
        requires
            self.wf(),
            ints_fit(self.type_map()),
            depth <= 32,
            type_id@ != auid_type_id(),
            type_id@ != mob_id_type_id(),
            self.type_map().contains_key(type_id@),
            *type_def == self.type_map()[type_id@],
        ensures
            result_model(r) == decode_spec(self.type_map(), type_id, data@, depth as nat),
        decreases 33 - depth, 1int, 0int,
    {
        let ghost types = self.type_map();
        let ghost d = data@;
        match &type_def.kind {
            TypeKind::Int { size, signed } => {
                assert(types.contains_key(type_id@));
                decode_int(type_id, data, *size, *signed)
            },
            TypeKind::Character => {
                if data.len() < 2 {
                    return Err(Error::WrongValueSize { type_id, wanted: 2, found: data.len() });
                }
                let unit = read_u16(data, 0);
                let units = [unit];
                let chars = decode_units(units.as_slice());
                assert(units@ =~= seq![le16(d, 0) as u16]);
                proof {
                    reveal_with_fuel(decode_utf16, 2);
                    assert(decode_utf16(seq![unit]).len() == 1);
                }
                Ok(Value::Char(chars[0]))
            },
            TypeKind::String { .. } => Ok(Value::String(decode_le(data))),
            TypeKind::Enum { element_type, elements } => {
                let inner = match self.decode_bytes(*element_type, data, depth + 1) {
                    Ok(v) => v,
                    Err(e) => { return Err(e); },
                };
                match inner.as_i64() {
                    None => {
                        assert(model_int(value_model(inner)) == int_of(inner));
                        Err(Error::UndefinedType { type_id: *element_type })
                    },
                    Some(x) => {
                        assert(model_int(value_model(inner)) == int_of(inner));
                        Ok(Value::Enum { value: x, name: enum_name(elements, x) })
                    },
                }
            },
            TypeKind::ExtEnum { elements } => {
                let value = match auid_from(data) {
                    Ok(a) => a,
                    Err(e) => { return Err(e); },
                };
                Ok(Value::ExtEnum { value, name: ext_name(elements, &value) })
            },
            TypeKind::Rename { renamed } => self.decode_bytes(*renamed, data, depth + 1),
            TypeKind::Record { members } => self.decode_record(type_id, members, data, depth),
            TypeKind::FixedArray { element_type, count } => {
                match self.decode_elements(*element_type, data, Some(*count as usize), depth) {
                    Ok(items) => Ok(Value::Array(items)),
                    Err(e) => Err(e),
                }
            },
            TypeKind::VarArray { element_type } => {
                // An array of characters is a run of strings, not of numbers.
                if *element_type == character_type() {
                    let strings = utf16_strings(data);
                    let mut items: Vec<Value> = Vec::new();
                    let mut i: usize = 0;
                    while i < strings.len()
                        invariant
                            i <= strings@.len(),
                            texts(strings@) == utf16_strings_of(d),
                            items_model(items@) == strings_model(utf16_strings_of(d)).take(i as int),
                        decreases strings@.len() - i,
                    {
                        assert(texts(strings@)[i as int] == strings@[i as int]@);
                        let ghost before = items@;
                        let text = strings[i].clone();
                        items.push(Value::String(text));
                        assert(items@.drop_last() =~= before);
                        assert(items@.last() == Value::String(text));
                        assert(value_model(Value::String(text)) == ValueModel::Text(strings@[i as int]@));
                        assert(items_model(items@) == items_model(before).push(ValueModel::Text(strings@[i as int]@)));
                        assert(strings_model(utf16_strings_of(d))[i as int] == ValueModel::Text(strings@[i as int]@));
                        assert(strings_model(utf16_strings_of(d)).take(i + 1)
                            =~= strings_model(utf16_strings_of(d)).take(i as int).push(ValueModel::Text(strings@[i as int]@)));
                        i = i + 1;
                    }
                    assert(strings_model(utf16_strings_of(d)).take(strings@.len() as int) =~= strings_model(utf16_strings_of(d)));
                    return Ok(Value::Array(items));
                }
                match self.decode_elements(*element_type, data, None, depth) {
                    Ok(items) => Ok(Value::Array(items)),
                    Err(e) => Err(e),
                }
            },
            TypeKind::ElementSet { element_type } => {
                match self.decode_elements(*element_type, data, None, depth) {
                    Ok(items) => Ok(Value::ElementSet(items)),
                    Err(e) => Err(e),
                }
            },
            TypeKind::Indirect => self.decode_indirect(type_id, data, depth),
            TypeKind::Opaque => self.decode_indirect(type_id, data, depth),
            TypeKind::Stream => {
                let copy = copy_range(data, 0, data.len());
                assert(copy@ =~= d);
                Ok(Value::Unresolved { type_id, data: copy })
            },
            // A reference stored as data rather than as a reference property.
            _ => {
                let copy = copy_range(data, 0, data.len());
                assert(copy@ =~= d);
                Ok(Value::Unresolved { type_id, data: copy })
            },
        }
    }

    /// Decodes a value that carries the identity of its own type.
    fn decode_indirect(&self, type_id: Auid, data: &[u8], depth: usize) -> (r: Result<Value>)
        requires
            self.wf(),
            ints_fit(self.type_map()),
            depth <= 32,
        ensures
            result_model(r) == indirect_spec(self.type_map(), type_id, data@, depth as nat),
        decreases 33 - depth, 0int, 0int,
    {
        let ghost d = data@;
        if data.len() == 0 {
            return Err(Error::WrongValueSize { type_id, wanted: 17, found: 0 });
        }
        let mark = data[0];
        if mark != 0x4c {
            return Err(Error::UnsupportedByteOrder { mark });
        }
        if data.len() < 17 {
            return Err(Error::WrongValueSize { type_id, wanted: 17, found: data.len() });
        }
        let inner = Auid::from_bytes_le(array16(data, 1));
        proof { lemma_auid_of(inner); }
        let rest = copy_range(data, 17, data.len());
        assert(rest@ =~= d.skip(17));
        self.decode_bytes(inner, rest.as_slice(), depth + 1)
    }

    /// Decodes a record's members in turn, each at the offset the sizes of
    /// the members before it add up to.
    #[verifier::rlimit(40)]
    fn decode_record(&self, type_id: Auid, members: &Vec<(String, Auid)>, data: &[u8], depth: usize) -> (r: Result<Value>)
        requires
            self.wf(),
            ints_fit(self.type_map()),
            depth <= 32,
        ensures
            result_model(r) == (match record_spec(self.type_map(), type_id, members@, data@, depth as nat, 0, 0) {
                Ok(ms) => Ok(ValueModel::Record(ms)),
                Err(e) => Err(e),
            }),
        decreases 33 - depth, 0int, 0int,
    {
        let ghost types = self.type_map();
        let ghost ms = members@;
        let ghost d = data@;
        let ghost whole = record_spec(types, type_id, ms, d, depth as nat, 0, 0);
        let mut out: Vec<(String, Value)> = Vec::new();
        let mut at: usize = 0;
        let mut k: usize = 0;
        assert(prepend(members_model(out@), whole) == whole) by {
            if let Ok(x) = whole {
                assert(members_model(out@) + x =~= x);
            }
        }
        while k < members.len()
            invariant
                self.wf(),
                ints_fit(self.type_map()),
                types == self.type_map(),
                ms == members@,
                d == data@,
                depth <= 32,
                k <= ms.len(),
                at <= d.len(),
                whole == record_spec(types, type_id, ms, d, depth as nat, 0, 0),
                whole == prepend(members_model(out@), record_spec(types, type_id, ms, d, depth as nat, k as int, at as int)),
            decreases ms.len() - k,
        {
            let member_type = members[k].1;
            let size = match self.byte_size(member_type, depth + 1) {
                Some(s) => s,
                None => { return Err(Error::UnsizedType { type_id: member_type }); },
            };
            if size > data.len() - at {
                let wanted = match at.checked_add(size) {
                    Some(w) => w,
                    None => usize::MAX,
                };
                return Err(Error::WrongValueSize { type_id, wanted, found: data.len() });
            }
            let end = at + size;
            let bytes = copy_range(data, at, end);
            let v = match self.decode_bytes(member_type, bytes.as_slice(), depth + 1) {
                Ok(v) => v,
                Err(e) => { return Err(e); },
            };
            let ghost before = out@;
            let name = members[k].0.clone();
            out.push((name, v));
            proof {
                assert(out@.drop_last() =~= before);
                lemma_prepend_twice(members_model(before), (ms[k as int].0@, value_model(v)),
                    record_spec(types, type_id, ms, d, depth as nat, k + 1, end as int));
            }
            at = end;
            k = k + 1;
        }
        proof {
            if let Ok(x) = record_spec(types, type_id, ms, d, depth as nat, k as int, at as int) {
                assert(members_model(out@) + x =~= members_model(out@));
            }
        }
        Ok(Value::Record(out))
    }

    /// Decodes a run of same-typed elements laid out back to back: `count`
    /// of them, or as many as the bytes hold.
    #[verifier::rlimit(40)]
    fn decode_elements(&self, element_type: Auid, data: &[u8], count_param: Option<usize>, depth: usize) -> (r: Result<Vec<Value>>)
        requires
            self.wf(),
            ints_fit(self.type_map()),
            depth <= 32,
        ensures
            items_result(r) == (match elements_params(self.type_map(), element_type, data@, opt_nat(count_param), depth as nat) {
                Err(e) => Err(e),
                Ok((sz, n)) => items_spec(self.type_map(), element_type, data@, sz, depth as nat, 0, n),
            }),
        decreases 33 - depth, 0int, 0int,
    {
        let ghost types = self.type_map();
        let ghost d = data@;
        let size = match self.byte_size(element_type, depth + 1) {
            Some(s) => s,
            None => { return Err(Error::UnsizedType { type_id: element_type }); },
        };
        if size == 0 {
            return Err(Error::UnsizedType { type_id: element_type });
        }
        let len = data.len();
        let available = data.len() / size;
        let count = match count_param {
            Some(c) => c,
            None => available,
        };
        if count > available {
            let wanted = match count.checked_mul(size) {
                Some(w) => w,
                None => usize::MAX,
            };
            return Err(Error::WrongValueSize { type_id: element_type, wanted, found: data.len() });
        }
        let ghost whole = items_spec(types, element_type, d, size as nat, depth as nat, 0, count as nat);
        assert(elements_params(types, element_type, d, opt_nat(count_param), depth as nat) == Ok::<(nat, nat), Error>((size as nat, count as nat)));
        let mut items: Vec<Value> = Vec::new();
        let mut i: usize = 0;
        assert(prepend(items_model(items@), whole) == whole) by {
            if let Ok(x) = whole {
                assert(items_model(items@) + x =~= x);
            }
        }
        while i < count
            invariant
                self.wf(),
                ints_fit(self.type_map()),
                types == self.type_map(),
                d == data@,
                len == d.len(),
                depth <= 32,
                size > 0,
                count <= available,
                available == d.len() / (size as nat),
                i <= count,
                elements_params(types, element_type, d, opt_nat(count_param), depth as nat) == Ok::<(nat, nat), Error>((size as nat, count as nat)),
                whole == items_spec(types, element_type, d, size as nat, depth as nat, 0, count as nat),
                whole == prepend(items_model(items@), items_spec(types, element_type, d, size as nat, depth as nat, i as int, count as nat)),
            decreases count - i,
        {
            assert(i * size + size <= d.len()) by (nonlinear_arith)
                requires i < count, count <= available, available == d.len() / (size as nat), size > 0;
            let start = i * size;
            let bytes = copy_range(data, start, start + size);
            assert(bytes@ == element_bytes(d, i as int, size as nat));
            let v = match self.decode_bytes(element_type, bytes.as_slice(), depth + 1) {
                Ok(v) => v,
                Err(e) => { return Err(e); },
            };
            let ghost before = items@;
            items.push(v);
            proof {
                assert(items@.drop_last() =~= before);
                lemma_prepend_twice(items_model(before), value_model(v),
                    items_spec(types, element_type, d, size as nat, depth as nat, i + 1, count as nat));
            }
            i = i + 1;
        }
        proof {
            if let Ok(x) = items_spec(types, element_type, d, size as nat, depth as nat, i as int, count as nat) {
                assert(items_model(items@) + x =~= items_model(items@));
            }
        }
        Ok(items)
    }
}

} // verus!
