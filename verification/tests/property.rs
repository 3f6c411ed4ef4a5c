use aaf::property::{
    member_storage_name, PropertyFormat, PropertyStream, PropertyValue, RefKey, SetIndex, VectorIndex,
    WeakRefArrayIndex,
};
use aaf::{Auid, Error, MobId};

const LITTLE_ENDIAN: u8 = 0x4c;
const STREAM_UNSPECIFIED_ENDIAN: u8 = 0x55;

/// Builds a property stream from `(pid, format code, value bytes)` triples.
fn stream(version: u8, entries: &[(u16, u16, &[u8])]) -> Vec<u8> {
    let mut out = vec![LITTLE_ENDIAN, version];
    out.extend((entries.len() as u16).to_le_bytes());
    for (pid, format, value) in entries {
        out.extend(pid.to_le_bytes());
        out.extend(format.to_le_bytes());
        out.extend((value.len() as u16).to_le_bytes());
    }
    for (_, _, value) in entries {
        out.extend_from_slice(value);
    }
    out
}

/// Encodes a string the way the format stores names: UTF-16LE plus a NUL.
fn name(text: &str) -> Vec<u8> {
    let mut out: Vec<u8> = text.encode_utf16().flat_map(u16::to_le_bytes).collect();
    out.extend([0, 0]);
    out
}

#[test]
fn parses_the_formats_the_fixtures_do_not_exercise() {
    let mut stream_value = vec![STREAM_UNSPECIFIED_ENDIAN];
    stream_value.extend(name("EssenceData-2c02"));

    let parsed = PropertyStream::parse(&stream(
        32,
        &[(0x2c02, 0x42, &stream_value), (0x0003, 0x1a, &name("Descriptors-2603"))],
    ))
    .expect("parses");

    assert_eq!(parsed.version, 32);
    assert_eq!(
        parsed.get(0x2c02).map(|p| &p.value),
        Some(&PropertyValue::Stream { name: "EssenceData-2c02".to_owned() })
    );
    assert_eq!(parsed.properties[1].format, PropertyFormat::WeakRefSet);
    assert_eq!(
        parsed.get(0x0003).map(|p| &p.value),
        Some(&PropertyValue::WeakRefArray { index_name: "Descriptors-2603".to_owned() })
    );
}

#[test]
fn a_weak_reference_carries_its_targets_key() {
    let key = Auid::from_bytes_be([
        0x0d, 0x01, 0x01, 0x01, 0x01, 0x01, 0x2f, 0x00, 0x06, 0x0e, 0x2b, 0x34, 0x02, 0x06, 0x01, 0x01,
    ]);

    let mut value = vec![];
    value.extend(7u16.to_le_bytes());
    value.extend(0x0006u16.to_le_bytes());
    value.push(16);
    value.extend(key.to_bytes_le());

    let parsed = PropertyStream::parse(&stream(32, &[(0x0001, 0x02, &value)])).expect("parses");
    assert_eq!(
        parsed.get(0x0001).map(|p| &p.value),
        Some(&PropertyValue::WeakRef { weakref_index: 7, key_pid: 0x0006, key: RefKey::Auid(key) })
    );
}

#[test]
fn a_thirty_two_byte_key_reads_as_a_mob_id() {
    let mob = MobId::from_bytes([0xab; 32]);
    let mut value = vec![];
    value.extend(0u16.to_le_bytes());
    value.extend(0u16.to_le_bytes());
    value.push(32);
    value.extend(mob.to_bytes());

    let parsed = PropertyStream::parse(&stream(32, &[(0x0001, 0x02, &value)])).expect("parses");
    let Some(PropertyValue::WeakRef { key, .. }) = parsed.get(0x0001).map(|p| &p.value) else {
        panic!("expected a weak reference");
    };
    assert_eq!(*key, RefKey::MobId(mob));
    assert_eq!(key.size(), 32);
}

#[test]
fn rejects_a_stream_that_promises_more_than_it_holds() {
    let mut data = stream(32, &[(1, 0x82, &[1, 2, 3, 4])]);
    data.truncate(data.len() - 2);
    assert!(matches!(
        PropertyStream::parse(&data),
        Err(Error::TruncatedProperty { wanted: 14, found: 12 })
    ));

    assert!(matches!(
        PropertyStream::parse(&[LITTLE_ENDIAN, 32]),
        Err(Error::TruncatedProperty { wanted: 4, found: 2 })
    ));
}

#[test]
fn rejects_a_big_endian_stream() {
    let mut data = stream(32, &[]);
    data[0] = 0x42;
    assert!(matches!(PropertyStream::parse(&data), Err(Error::UnsupportedByteOrder { mark: 0x42 })));
}

#[test]
fn rejects_a_reference_key_that_is_neither_size() {
    let value = [0, 0, 0, 0, 24, 0, 0, 0];
    assert!(matches!(
        PropertyStream::parse(&stream(32, &[(1, 0x02, &value)])),
        Err(Error::BadKeySize { size: 24 })
    ));
}

#[test]
fn parses_a_vector_index() {
    let mut data = vec![];
    data.extend(3u32.to_le_bytes());
    data.extend(3u32.to_le_bytes());
    data.extend(u32::MAX.to_le_bytes());
    for key in [0u32, 1, 2] {
        data.extend(key.to_le_bytes());
    }

    let index = VectorIndex::parse(&data).expect("parses");
    assert_eq!(index.local_keys, vec![0, 1, 2]);
    assert_eq!(index.next_free_key, 3);
    assert_eq!(index.last_free_key, u32::MAX);

    data.truncate(data.len() - 1);
    assert!(matches!(VectorIndex::parse(&data), Err(Error::TruncatedIndex { .. })));
}

#[test]
fn parses_a_set_index() {
    let key = Auid::from_bytes_le([0x11; 16]);
    let mut data = vec![];
    data.extend(1u32.to_le_bytes());
    data.extend(5u32.to_le_bytes());
    data.extend(u32::MAX.to_le_bytes());
    data.extend(0x0006u16.to_le_bytes());
    data.push(16);
    data.extend(4u32.to_le_bytes());
    data.extend(1u32.to_le_bytes());
    data.extend(key.to_bytes_le());

    let index = SetIndex::parse(&data).expect("parses");
    assert_eq!(index.key_pid, 0x0006);
    assert_eq!(index.entries.len(), 1);
    assert_eq!(index.entries[0].local_key, 4);
    assert_eq!(index.entries[0].ref_count, 1);
    assert_eq!(index.entries[0].key, RefKey::Auid(key));
}

#[test]
fn parses_a_weak_reference_index() {
    let key = Auid::from_bytes_le([0x22; 16]);
    let mut data = vec![];
    data.extend(2u32.to_le_bytes());
    data.extend(9u16.to_le_bytes());
    data.extend(0x0006u16.to_le_bytes());
    data.push(16);
    data.extend(key.to_bytes_le());
    data.extend(key.to_bytes_le());

    let index = WeakRefArrayIndex::parse(&data).expect("parses");
    assert_eq!(index.weakref_index, 9);
    assert_eq!(index.key_pid, 0x0006);
    assert_eq!(index.keys, vec![RefKey::Auid(key); 2]);
}

#[test]
fn member_names_match_the_format() {
    assert_eq!(member_storage_name("Mobs-1901", 0), "Mobs-1901{0}");
    assert_eq!(member_storage_name("Mobs-1901", 255), "Mobs-1901{ff}");
}

#[test]
fn format_codes_read_back_as_written() {
    for code in 0u16..=0xff {
        assert_eq!(PropertyFormat::from_code(code).to_code(), code);
    }
    assert_eq!(PropertyFormat::from_code(0x3a), PropertyFormat::StrongRefSet);
    assert!(PropertyFormat::StrongRefVector.is_strong());
    assert!(!PropertyFormat::WeakRef.is_strong());
}

#[test]
fn member_names_are_unpadded_hex() {
    assert_eq!(member_storage_name("Slots-4403", 0), "Slots-4403{0}");
    assert_eq!(member_storage_name("Mobs-1901", 0x8b), "Mobs-1901{8b}");
    assert_eq!(member_storage_name("X", u32::MAX), "X{ffffffff}");
}

#[test]
fn error_messages_read_as_written() {
    let e = Error::TruncatedProperty { wanted: 14, found: 12 };
    assert_eq!(e.to_string(), "property stream is 12 bytes but its entries need 14");
    let e = Error::UnsupportedByteOrder { mark: 0x42 };
    assert_eq!(e.to_string(), "unsupported byte order mark: 0x42");
    let e = Error::NotAReference { pid: 0x1a, expected: "a strong reference" };
    assert_eq!(e.to_string(), "property 0x001a is not a strong reference");
    let e = Error::MissingRequired {
        class: "Sequence".to_owned(),
        path: "/a".to_owned(),
        properties: vec!["Length".to_owned(), "Components".to_owned()],
    };
    assert_eq!(e.to_string(), "the Sequence at /a is missing required properties: Length, Components");
    let e = Error::Cfb(aaf::cfb::Error::BadSignature { found: [0xd0, 0xcf, 0x11, 0xe0, 0, 0, 0, 1] });
    assert_eq!(e.to_string(), "not a compound file: signature is [d0, cf, 11, e0, 00, 00, 00, 01]");
}

#[test]
fn an_empty_index_with_an_odd_key_size_is_refused() {
    let mut set = vec![0u8; 15];
    set[14] = 24;
    assert!(matches!(SetIndex::parse(&set), Err(Error::BadKeySize { size: 24 })));
    let weak = vec![0u8; 9];
    assert!(matches!(WeakRefArrayIndex::parse(&weak), Err(Error::BadKeySize { size: 0 })));
}
