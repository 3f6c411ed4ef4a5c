use aaf::property::{Property, PropertyFormat, PropertyValue};
use aaf::value::utf16_strings;
use aaf::{Auid, Error, MetaDictionary, Result, TypeDef, TypeKind, Value};

/// A distinct identifier per test type, so the tests read as names.
fn id(n: u8) -> Auid {
    let mut bytes = [0u8; 16];
    bytes[0] = n;
    Auid::from_bytes_be(bytes)
}

const INT32: u8 = 1;
const INT16: u8 = 2;
const UINT8: u8 = 3;
const CHAR: u8 = 4;
const ARRAY: u8 = 5;
const SET: u8 = 6;
const STREAM: u8 = 7;
const OPAQUE: u8 = 8;
const RECORD: u8 = 9;

fn define(dict: &mut MetaDictionary, n: u8, name: &str, kind: TypeKind) {
    dict.define_type(TypeDef { auid: id(n), name: name.to_owned(), kind });
}

/// A dictionary holding the types these tests need.
fn dictionary() -> MetaDictionary {
    let mut dict = MetaDictionary::default();
    define(&mut dict, INT32, "Int32", TypeKind::Int { size: 4, signed: true });
    define(&mut dict, INT16, "Int16", TypeKind::Int { size: 2, signed: true });
    define(&mut dict, UINT8, "UInt8", TypeKind::Int { size: 1, signed: false });
    define(&mut dict, CHAR, "Character", TypeKind::Character);
    define(&mut dict, ARRAY, "Int16Array4", TypeKind::FixedArray { element_type: id(INT16), count: 4 });
    define(&mut dict, SET, "UInt8Set", TypeKind::ElementSet { element_type: id(UINT8) });
    define(&mut dict, STREAM, "Stream", TypeKind::Stream);
    define(&mut dict, OPAQUE, "Opaque", TypeKind::Opaque);
    define(
        &mut dict,
        RECORD,
        "Pair",
        TypeKind::Record { members: vec![("first".to_owned(), id(INT16)), ("second".to_owned(), id(UINT8))] },
    );
    dict
}

fn decode(type_id: u8, data: &[u8]) -> Result<Value> {
    dictionary().decode_bytes(id(type_id), data, 0)
}

#[test]
fn signed_integers_keep_their_sign_when_widened() {
    assert_eq!(decode(INT16, &[0xff, 0xff]).unwrap(), Value::Int(-1));
    assert_eq!(decode(INT16, &[0x00, 0x80]).unwrap(), Value::Int(-32768));
    assert_eq!(decode(INT32, &[0xfe, 0xff, 0xff, 0xff]).unwrap(), Value::Int(-2));
    assert_eq!(decode(UINT8, &[0xff]).unwrap(), Value::UInt(255));
}

#[test]
fn an_integer_of_the_wrong_width_is_an_error() {
    assert!(matches!(decode(INT32, &[0x01, 0x02]), Err(Error::WrongValueSize { wanted: 4, found: 2, .. })));
}

#[test]
fn a_fixed_array_decodes_exactly_its_count() {
    let data = [0x01, 0x00, 0xff, 0xff, 0x02, 0x00, 0x03, 0x00];
    assert_eq!(
        decode(ARRAY, &data).unwrap(),
        Value::Array(vec![Value::Int(1), Value::Int(-1), Value::Int(2), Value::Int(3)])
    );
}

#[test]
fn a_fixed_array_missing_elements_is_an_error() {
    assert!(matches!(decode(ARRAY, &[0x01, 0x00, 0x02, 0x00]), Err(Error::WrongValueSize { wanted: 8, .. })));
}

#[test]
fn a_set_takes_as_many_elements_as_the_bytes_hold() {
    assert_eq!(
        decode(SET, &[0x07, 0x09, 0x0b]).unwrap(),
        Value::ElementSet(vec![Value::UInt(7), Value::UInt(9), Value::UInt(11)])
    );
}

#[test]
fn a_character_is_one_utf16_unit() {
    assert_eq!(decode(CHAR, &[0x41, 0x00]).unwrap(), Value::Char('A'));
    assert_eq!(decode(CHAR, &[0xe9, 0x00]).unwrap(), Value::Char('é'));
}

#[test]
fn a_record_reads_its_members_in_order() {
    assert_eq!(
        decode(RECORD, &[0xff, 0xff, 0x2a]).unwrap(),
        Value::Record(vec![("first".to_owned(), Value::Int(-1)), ("second".to_owned(), Value::UInt(42))])
    );
}

#[test]
fn a_stream_typed_value_is_left_as_stored() {
    assert_eq!(
        decode(STREAM, &[0x01, 0x02]).unwrap(),
        Value::Unresolved { type_id: id(STREAM), data: vec![0x01, 0x02] }
    );
}

#[test]
fn an_opaque_value_carries_the_type_of_what_is_inside_it() {
    let mut data = vec![0x4c];
    data.extend_from_slice(&id(INT16).to_bytes_le());
    data.extend_from_slice(&[0xff, 0xff]);
    assert_eq!(decode(OPAQUE, &data).unwrap(), Value::Int(-1));
}

#[test]
fn an_opaque_value_in_an_order_we_cannot_read_is_an_error() {
    let mut data = vec![0x42];
    data.extend_from_slice(&id(INT16).to_bytes_le());
    data.extend_from_slice(&[0x00, 0x01]);
    assert!(matches!(
        dictionary().decode_bytes(id(OPAQUE), &data, 0),
        Err(Error::UnsupportedByteOrder { mark: 0x42 })
    ));
}

#[test]
fn a_type_the_dictionary_does_not_define_is_an_error() {
    assert!(matches!(decode(200, &[0x00]), Err(Error::UndefinedType { .. })));
}

#[test]
fn a_record_of_an_unsized_member_is_an_error() {
    let mut dict = dictionary();
    dict.define_type(TypeDef {
        auid: id(100),
        name: "Bad".to_owned(),
        kind: TypeKind::Record { members: vec![("only".to_owned(), id(STREAM))] },
    });
    assert!(matches!(dict.decode_bytes(id(100), &[0x00], 0), Err(Error::UnsizedType { .. })));
}

#[test]
fn a_self_referential_record_gives_up_rather_than_recursing() {
    let mut dict = MetaDictionary::default();
    dict.define_type(TypeDef {
        auid: id(100),
        name: "Loop".to_owned(),
        kind: TypeKind::Record { members: vec![("self".to_owned(), id(100))] },
    });
    assert_eq!(dict.byte_size(id(100), 0), None);
    assert!(dict.decode_bytes(id(100), &[0x00; 8], 0).is_err());
}

#[test]
fn a_stream_property_is_named_rather_than_read() {
    let property = Property {
        pid: 1,
        format: PropertyFormat::DataStream,
        value: PropertyValue::Stream { name: "audio".to_owned() },
    };
    assert_eq!(
        dictionary().decode(id(STREAM), &property).unwrap(),
        Value::Stream { name: "audio".to_owned() }
    );
}

#[test]
fn a_rational_reads_back_as_a_pair() {
    let value = Value::Record(vec![
        ("Numerator".to_owned(), Value::Int(30000)),
        ("Denominator".to_owned(), Value::Int(1001)),
    ]);
    assert_eq!(value.as_rational(), Some((30000, 1001)));
    assert_eq!(value.member("Numerator").and_then(Value::as_i64), Some(30000));
    assert_eq!(value.to_string(), "{Numerator: 30000, Denominator: 1001}");
}

#[test]
fn a_run_of_strings_splits_on_its_terminators() {
    let data = [0x61, 0x00, 0x62, 0x00, 0x00, 0x00, 0x63, 0x00, 0x00, 0x00, 0x64, 0x00];
    assert_eq!(utf16_strings(&data), vec!["ab".to_owned(), "c".to_owned()]);
}

#[test]
fn values_render_for_people() {
    assert_eq!(Value::Int(-42).to_string(), "-42");
    assert_eq!(Value::Int(i64::MIN).to_string(), "-9223372036854775808");
    assert_eq!(Value::UInt(7).to_string(), "7");
    assert_eq!(Value::Array(vec![Value::Int(1), Value::Char('x')]).to_string(), "[1, x]");
    assert_eq!(Value::Enum { value: 3, name: None }.to_string(), "3");
    assert_eq!(Value::Enum { value: 3, name: Some("Three".to_owned()) }.to_string(), "Three");
    assert_eq!(Value::Stream { name: "s".to_owned() }.to_string(), "<stream s>");
}

#[test]
fn a_big_unsigned_value_is_not_an_i64() {
    assert_eq!(Value::UInt(u64::MAX).as_i64(), None);
    assert_eq!(Value::UInt(5).as_i64(), Some(5));
    assert_eq!(Value::String("x".to_owned()).as_i64(), None);
}

#[test]
fn record_sizes_add_up() {
    let dict = dictionary();
    assert_eq!(dict.byte_size(id(RECORD), 0), Some(3));
    assert_eq!(dict.byte_size(id(ARRAY), 0), Some(8));
    assert_eq!(dict.byte_size(id(SET), 0), None);
}

#[test]
fn an_enumeration_names_its_value() {
    let mut dict = dictionary();
    dict.define_type(TypeDef {
        auid: id(50),
        name: "Colour".to_owned(),
        kind: TypeKind::Enum { element_type: id(UINT8), elements: vec![(1, "Red".to_owned()), (2, "Green".to_owned())] },
    });
    assert_eq!(dict.decode_bytes(id(50), &[2], 0).unwrap(), Value::Enum { value: 2, name: Some("Green".to_owned()) });
    assert_eq!(dict.decode_bytes(id(50), &[9], 0).unwrap(), Value::Enum { value: 9, name: None });
}

#[test]
fn types_are_found_by_name_and_replaced_by_identifier() {
    let mut dict = dictionary();
    assert_eq!(dict.type_count(), 9);
    assert_eq!(dict.type_named("Int16").map(|t| t.auid), Some(id(INT16)));
    define(&mut dict, INT16, "Int16", TypeKind::Int { size: 2, signed: false });
    assert_eq!(dict.type_count(), 9);
    assert_eq!(decode_with(&dict, INT16, &[0xff, 0xff]), Value::UInt(0xffff));
}

fn decode_with(dict: &MetaDictionary, n: u8, data: &[u8]) -> Value {
    dict.decode_bytes(id(n), data, 0).unwrap()
}

#[test]
fn past_the_depth_limit_any_dictionary_gives_up() {
    let mut dict = MetaDictionary::default();
    define(&mut dict, 50, "Int128", TypeKind::Int { size: 16, signed: false });
    assert!(!dict.integers_fit());
    assert!(matches!(
        dict.decode_bytes(id(50), &[0u8; 16], 33),
        Err(Error::TypeTooDeep { .. })
    ));
}
