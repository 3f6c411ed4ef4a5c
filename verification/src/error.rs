//! Errors produced while reading or writing an AAF file's objects.

use vstd::prelude::*;

use crate::auid::{auid_text, Auid};
use crate::cfb;
use crate::text::{alt_hex, decimal, joined, push_alt_hex, push_decimal, push_joined, push_str};

verus! {

/// An error produced while reading or writing an AAF file's objects.
///
/// Problems with the container itself arrive as [`Error::Cfb`]; everything
/// else here is a file whose container is sound but whose AAF content is not.
#[derive(Debug, Clone)]
pub enum Error {
    /// The compound file underneath could not be read.
    Cfb(cfb::Error),

    /// A property stream ended before the value it promised.
    TruncatedProperty {
        /// How many bytes the stream said it had.
        wanted: usize,
        /// How many it had.
        found: usize,
    },

    /// An index stream ended before the entries it promised.
    TruncatedIndex {
        /// How many bytes the stream said it had.
        wanted: usize,
        /// How many it had.
        found: usize,
    },

    /// A stream declares a byte order this reader does not support.
    ///
    /// Property streams are written little-endian (`0x4C`) and the format
    /// allows big-endian (`0x42`), which nothing writes. A data stream's own
    /// contents are marked unspecified (`0x55`).
    UnsupportedByteOrder {
        /// The declared byte order mark.
        mark: u8,
    },

    /// A reference key is neither 16 nor 32 bytes.
    BadKeySize {
        /// The declared key size, in bytes.
        size: u8,
    },

    /// A reference names something that is not in the file.
    MissingEntry {
        /// The name that was looked up.
        name: String,
        /// The storage it was looked up in.
        parent: String,
    },

    /// A collection's index stream is missing.
    ///
    /// A collection property names its members only in its index, so without
    /// it there is no way to find them.
    MissingIndex {
        /// The index stream's name.
        name: String,
        /// The object whose property it belongs to.
        parent: String,
    },

    /// A definition in the meta dictionary is missing a property it needs.
    MissingDefinitionProperty {
        /// The definition, named as far as it could be read.
        definition: String,
        /// The identifier of the property that is not there.
        pid: u16,
    },

    /// A property declares a type the meta dictionary does not define.
    UndefinedType {
        /// The type that is not defined.
        type_id: Auid,
    },

    /// A type has no fixed size, so it cannot be a record member or an
    /// array element.
    UnsizedType {
        /// The type in question.
        type_id: Auid,
    },

    /// A value's bytes are the wrong length for the type it declares.
    WrongValueSize {
        /// The type the value declares.
        type_id: Auid,
        /// How many bytes that type needs.
        wanted: usize,
        /// How many the value has.
        found: usize,
    },

    /// A type nests deeper than this reader will follow.
    ///
    /// Types refer to each other by identifier, so a file can describe a
    /// record that contains itself. Nothing in the format forbids it and
    /// nothing sensible can be read from it.
    TypeTooDeep {
        /// The type the walk gave up on.
        type_id: Auid,
    },

    /// An object does not carry a property that reading it needs.
    MissingProperty {
        /// The class of the object that is missing it.
        class: String,
        /// The property it does not carry.
        property: String,
    },

    /// A class does not define a property of that name.
    UndefinedProperty {
        /// The class that was asked.
        class: String,
        /// The property name it does not define.
        property: String,
    },

    /// A property was asked to resolve a reference it does not hold.
    NotAReference {
        /// The property's identifier.
        pid: u16,
        /// The kind of reference the caller wanted.
        expected: &'static str,
    },

    /// A writer was asked for a class the dictionary does not define.
    UndefinedClass {
        /// The class name or identifier that was asked for.
        name: String,
    },

    /// A writer was asked to create an object of an abstract class.
    AbstractClass {
        /// The class.
        name: String,
    },

    /// A writer was asked for a type the dictionary does not define.
    UndefinedTypeName {
        /// The type name or identifier that was asked for.
        name: String,
    },

    /// A definition lookup in the file's dictionary found nothing.
    NoSuchDefinition {
        /// The kind of definition: `DataDefinitions`, `OperationDefinitions`
        /// and so on.
        kind: &'static str,
        /// The name or identifier that was looked up.
        name: String,
    },

    /// An object was given to a property that holds a different class.
    WrongClass {
        /// The class the property holds.
        expected: String,
        /// The class of the object it was given.
        found: String,
    },

    /// A value cannot be stored as the type its property declares.
    InvalidValue {
        /// The type the value was to be stored as.
        value_type: String,
        /// Why it cannot be, in a few words.
        reason: String,
    },

    /// A record was given without one of its members.
    MissingMember {
        /// The record type.
        value_type: String,
        /// The member the value does not have.
        member: String,
    },

    /// An object was put in a second place in the file.
    ///
    /// An object is owned by exactly one strong reference.
    AlreadyAttached {
        /// The class of the object.
        class: String,
    },

    /// An object is missing properties its class requires, so it cannot be
    /// saved.
    MissingRequired {
        /// The class of the object.
        class: String,
        /// The path of the object's storage in the file.
        path: String,
        /// The required properties it does not have.
        properties: Vec<String>,
    },

    /// An object needs a unique key to go in a set or be referred to weakly,
    /// and has none.
    NoUniqueKey {
        /// The class of the object.
        class: String,
    },

    /// A property operation was asked of a property that does not support
    /// it: appending to a single reference, say.
    WrongPropertyKind {
        /// The property.
        property: String,
        /// The kind of property the operation needs.
        expected: &'static str,
    },

    /// Media handed to the writer could not be read: a WAV file or a raw
    /// DNx stream that is not what it should be.
    InvalidMedia {
        /// Why, in the words of the reader that refused it.
        reason: String,
    },

    /// The write path does not support this operation.
    Unsupported {
        /// What was asked for.
        what: &'static str,
    },
}

/// Shorthand for a result carrying an [`Error`].
pub type Result<T> = core::result::Result<T, Error>;

/// What an error says, as text.
pub open spec fn error_message(e: Error) -> Seq<char> {
    match e {
        Error::Cfb(c) => cfb::error::error_message(c),
        Error::TruncatedProperty { wanted, found } =>
            "property stream is "@ + decimal(found as nat) + " bytes but its entries need "@ + decimal(wanted as nat),
        Error::TruncatedIndex { wanted, found } =>
            "index stream is "@ + decimal(found as nat) + " bytes but its entries need "@ + decimal(wanted as nat),
        Error::UnsupportedByteOrder { mark } => "unsupported byte order mark: "@ + alt_hex(mark as nat, 2),
        Error::BadKeySize { size } =>
            "unsupported reference key size: "@ + decimal(size as nat) + ", expected 16 or 32"@,
        Error::MissingEntry { name, parent } => "'"@ + parent@ + "' has nothing named '"@ + name@ + "'"@,
        Error::MissingIndex { name, parent } => "'"@ + parent@ + "' has no index stream '"@ + name@ + "'"@,
        Error::MissingDefinitionProperty { definition, pid } =>
            definition@ + " is missing the property "@ + alt_hex(pid as nat, 4) + " it needs to be read"@,
        Error::UndefinedType { type_id } => "the meta dictionary does not define the type "@ + auid_text(type_id@),
        Error::UnsizedType { type_id } =>
            "the type "@ + auid_text(type_id@) + " has no fixed size, so it cannot be stored inline"@,
        Error::WrongValueSize { type_id, wanted, found } =>
            "a value of type "@ + auid_text(type_id@) + " needs "@ + decimal(wanted as nat) + " bytes but has "@
                + decimal(found as nat),
        Error::TypeTooDeep { type_id } => "the type "@ + auid_text(type_id@) + " nests too deeply to read"@,
        Error::MissingProperty { class, property } => "this "@ + class@ + " has no '"@ + property@ + "'"@,
        Error::UndefinedProperty { class, property } => class@ + " has no property named '"@ + property@ + "'"@,
        Error::NotAReference { pid, expected } => "property "@ + alt_hex(pid as nat, 4) + " is not "@ + expected@,
        Error::UndefinedClass { name } => "the dictionary does not define a class '"@ + name@ + "'"@,
        Error::AbstractClass { name } => name@ + " is abstract, so no object can be of that class"@,
        Error::UndefinedTypeName { name } => "the dictionary does not define a type '"@ + name@ + "'"@,
        Error::NoSuchDefinition { kind, name } =>
            "the dictionary's "@ + kind@ + " have nothing named '"@ + name@ + "'"@,
        Error::WrongClass { expected, found } => "expected an instance of "@ + expected@ + ", got a "@ + found@,
        Error::MissingMember { value_type, member } => "a "@ + value_type@ + " needs a value for '"@ + member@ + "'"@,
        Error::InvalidValue { value_type, reason } => "cannot store the value as "@ + value_type@ + ": "@ + reason@,
        Error::AlreadyAttached { class } => "this "@ + class@ + " is already in the file"@,
        Error::MissingRequired { class, path, properties } =>
            "the "@ + class@ + " at "@ + path@ + " is missing required properties: "@
                + joined(properties@.map_values(|p: String| p@), ", "@),
        Error::NoUniqueKey { class } => "this "@ + class@ + " has no unique key"@,
        Error::WrongPropertyKind { property, expected } => "'"@ + property@ + "' is not "@ + expected@,
        Error::InvalidMedia { reason } => reason@,
        Error::Unsupported { what } => "not supported: "@ + what@,
    }
}

impl Error {
    /// What this error says, as text.
    #[verifier::rlimit(30)]
    pub fn to_string(&self) -> (r: String)
        ensures
            r@ == error_message(*self),
    {
        let mut out = String::new();
        match self {
            Error::Cfb(c) => { out = c.to_string(); },
            Error::TruncatedProperty { wanted, found } => {
                push_str(&mut out, "property stream is ");
                push_decimal(&mut out, *found as u64);
                push_str(&mut out, " bytes but its entries need ");
                push_decimal(&mut out, *wanted as u64);
            },
            Error::TruncatedIndex { wanted, found } => {
                push_str(&mut out, "index stream is ");
                push_decimal(&mut out, *found as u64);
                push_str(&mut out, " bytes but its entries need ");
                push_decimal(&mut out, *wanted as u64);
            },
            Error::UnsupportedByteOrder { mark } => {
                push_str(&mut out, "unsupported byte order mark: ");
                push_alt_hex(&mut out, *mark as u64, 2);
            },
            Error::BadKeySize { size } => {
                push_str(&mut out, "unsupported reference key size: ");
                push_decimal(&mut out, *size as u64);
                push_str(&mut out, ", expected 16 or 32");
            },
            Error::MissingEntry { name, parent } => {
                push_str(&mut out, "'");
                push_str(&mut out, parent.as_str());
                push_str(&mut out, "' has nothing named '");
                push_str(&mut out, name.as_str());
                push_str(&mut out, "'");
            },
            Error::MissingIndex { name, parent } => {
                push_str(&mut out, "'");
                push_str(&mut out, parent.as_str());
                push_str(&mut out, "' has no index stream '");
                push_str(&mut out, name.as_str());
                push_str(&mut out, "'");
            },
            Error::MissingDefinitionProperty { definition, pid } => {
                push_str(&mut out, definition.as_str());
                push_str(&mut out, " is missing the property ");
                push_alt_hex(&mut out, *pid as u64, 4);
                push_str(&mut out, " it needs to be read");
            },
            Error::UndefinedType { type_id } => {
                push_str(&mut out, "the meta dictionary does not define the type ");
                push_str(&mut out, type_id.to_string().as_str());
            },
            Error::UnsizedType { type_id } => {
                push_str(&mut out, "the type ");
                push_str(&mut out, type_id.to_string().as_str());
                push_str(&mut out, " has no fixed size, so it cannot be stored inline");
            },
            Error::WrongValueSize { type_id, wanted, found } => {
                push_str(&mut out, "a value of type ");
                push_str(&mut out, type_id.to_string().as_str());
                push_str(&mut out, " needs ");
                push_decimal(&mut out, *wanted as u64);
                push_str(&mut out, " bytes but has ");
                push_decimal(&mut out, *found as u64);
            },
            Error::TypeTooDeep { type_id } => {
                push_str(&mut out, "the type ");
                push_str(&mut out, type_id.to_string().as_str());
                push_str(&mut out, " nests too deeply to read");
            },
            Error::MissingProperty { class, property } => {
                push_str(&mut out, "this ");
                push_str(&mut out, class.as_str());
                push_str(&mut out, " has no '");
                push_str(&mut out, property.as_str());
                push_str(&mut out, "'");
            },
            Error::UndefinedProperty { class, property } => {
                push_str(&mut out, class.as_str());
                push_str(&mut out, " has no property named '");
                push_str(&mut out, property.as_str());
                push_str(&mut out, "'");
            },
            Error::NotAReference { pid, expected } => {
                push_str(&mut out, "property ");
                push_alt_hex(&mut out, *pid as u64, 4);
                push_str(&mut out, " is not ");
                push_str(&mut out, expected);
            },
            Error::UndefinedClass { name } => {
                push_str(&mut out, "the dictionary does not define a class '");
                push_str(&mut out, name.as_str());
                push_str(&mut out, "'");
            },
            Error::AbstractClass { name } => {
                push_str(&mut out, name.as_str());
                push_str(&mut out, " is abstract, so no object can be of that class");
            },
            Error::UndefinedTypeName { name } => {
                push_str(&mut out, "the dictionary does not define a type '");
                push_str(&mut out, name.as_str());
                push_str(&mut out, "'");
            },
            Error::NoSuchDefinition { kind, name } => {
                push_str(&mut out, "the dictionary's ");
                push_str(&mut out, kind);
                push_str(&mut out, " have nothing named '");
                push_str(&mut out, name.as_str());
                push_str(&mut out, "'");
            },
            Error::WrongClass { expected, found } => {
                push_str(&mut out, "expected an instance of ");
                push_str(&mut out, expected.as_str());
                push_str(&mut out, ", got a ");
                push_str(&mut out, found.as_str());
            },
            Error::MissingMember { value_type, member } => {
                push_str(&mut out, "a ");
                push_str(&mut out, value_type.as_str());
                push_str(&mut out, " needs a value for '");
                push_str(&mut out, member.as_str());
                push_str(&mut out, "'");
            },
            Error::InvalidValue { value_type, reason } => {
                push_str(&mut out, "cannot store the value as ");
                push_str(&mut out, value_type.as_str());
                push_str(&mut out, ": ");
                push_str(&mut out, reason.as_str());
            },
            Error::AlreadyAttached { class } => {
                push_str(&mut out, "this ");
                push_str(&mut out, class.as_str());
                push_str(&mut out, " is already in the file");
            },
            Error::MissingRequired { class, path, properties } => {
                push_str(&mut out, "the ");
                push_str(&mut out, class.as_str());
                push_str(&mut out, " at ");
                push_str(&mut out, path.as_str());
                push_str(&mut out, " is missing required properties: ");
                push_joined(&mut out, properties, ", ");
            },
            Error::NoUniqueKey { class } => {
                push_str(&mut out, "this ");
                push_str(&mut out, class.as_str());
                push_str(&mut out, " has no unique key");
            },
            Error::WrongPropertyKind { property, expected } => {
                push_str(&mut out, "'");
                push_str(&mut out, property.as_str());
                push_str(&mut out, "' is not ");
                push_str(&mut out, expected);
            },
            Error::InvalidMedia { reason } => {
                push_str(&mut out, reason.as_str());
            },
            Error::Unsupported { what } => {
                push_str(&mut out, "not supported: ");
                push_str(&mut out, what);
            },
        }
        assert(out@ =~= error_message(*self));
        out
    }

    /// Wraps an error of the compound file underneath.
    pub fn from_cfb(e: cfb::Error) -> (r: Self)
        ensures
            r == Error::Cfb(e),
    {
        Error::Cfb(e)
    }
}

} // verus!
