//! The attribute codec: exact encodings, round trips, and the
//! complaints malformed payloads raise.

use hyperdex::client_types::HyperValue;
use hyperdex::codec::{
    decode_attributes, decode_value, encode_map_attributes, encode_object, encode_predicates,
    encode_value, RawAttribute, HYPERDATATYPE_DOCUMENT, HYPERDATATYPE_INT64,
    HYPERDATATYPE_LIST_INT64, HYPERDATATYPE_LIST_STRING, HYPERDATATYPE_MAP_INT64_INT64,
    HYPERDATATYPE_MAP_INT64_STRING, HYPERDATATYPE_MAP_STRING_INT64,
    HYPERDATATYPE_MAP_STRING_STRING, HYPERDATATYPE_SET_INT64, HYPERDATATYPE_SET_STRING,
    HYPERDATATYPE_STRING,
};
use hyperdex::client_types::{HyperMapAttribute, HyperObject, HyperPredicate, HyperPredicateType};

#[test]
fn int_encodes_little_endian() {
    let (bytes, datatype) = encode_value(&HyperValue::HyperInt(1));
    assert_eq!(datatype, HYPERDATATYPE_INT64);
    assert_eq!(bytes, vec![1, 0, 0, 0, 0, 0, 0, 0]);
    let (bytes, _) = encode_value(&HyperValue::HyperInt(-2));
    assert_eq!(bytes, vec![0xfe, 0xff, 0xff, 0xff, 0xff, 0xff, 0xff, 0xff]);
}

#[test]
fn string_encodes_as_raw_bytes() {
    let (bytes, datatype) = encode_value(&HyperValue::HyperString(b"Derek".to_vec()));
    assert_eq!(datatype, HYPERDATATYPE_STRING);
    assert_eq!(bytes, b"Derek".to_vec());
}

#[test]
fn list_string_encodes_length_prefixed() {
    let value = HyperValue::HyperListString(vec![b"ab".to_vec(), Vec::new(), b"c".to_vec()]);
    let (bytes, datatype) = encode_value(&value);
    assert_eq!(datatype, HYPERDATATYPE_LIST_STRING);
    assert_eq!(
        bytes,
        vec![2, 0, 0, 0, b'a', b'b', 0, 0, 0, 0, 1, 0, 0, 0, b'c'],
    );
}

fn round_trip(value: HyperValue) {
    let (bytes, datatype) = encode_value(&value);
    let back = decode_value(datatype, &bytes).expect("an encoded value decodes");
    assert_eq!(back, value);
}

#[test]
fn every_shape_round_trips() {
    round_trip(HyperValue::HyperString(b"hello".to_vec()));
    round_trip(HyperValue::HyperString(Vec::new()));
    round_trip(HyperValue::HyperInt(0));
    round_trip(HyperValue::HyperInt(i64::MIN));
    round_trip(HyperValue::HyperInt(i64::MAX));
    round_trip(HyperValue::HyperListString(vec![b"a".to_vec(), b"a".to_vec(), Vec::new()]));
    round_trip(HyperValue::HyperListString(Vec::new()));
    round_trip(HyperValue::HyperListInt(vec![3, -1, 3]));
    round_trip(HyperValue::HyperSetString(vec![b"a".to_vec(), b"ab".to_vec(), b"b".to_vec()]));
    round_trip(HyperValue::HyperSetInt(vec![-5, 0, 19]));
    round_trip(HyperValue::HyperMapStringString(vec![
        (b"first".to_vec(), b"Derek".to_vec()),
        (b"last".to_vec(), b"Chiang".to_vec()),
    ]));
    round_trip(HyperValue::HyperMapStringInt(vec![
        (Vec::new(), -1),
        (b"age".to_vec(), 20),
    ]));
    round_trip(HyperValue::HyperMapIntString(vec![(3, b"three".to_vec()), (7, Vec::new())]));
    round_trip(HyperValue::HyperMapIntInt(vec![(-2, 4), (5, -25)]));
    round_trip(HyperValue::HyperMapIntInt(Vec::new()));
    round_trip(HyperValue::HyperDocument(b"{\"age\": 25}".to_vec()));
}

#[test]
fn map_entries_encode_field_by_field() {
    let value = HyperValue::HyperMapStringInt(vec![(b"ab".to_vec(), 1)]);
    let (bytes, datatype) = encode_value(&value);
    assert_eq!(datatype, HYPERDATATYPE_MAP_STRING_INT64);
    assert_eq!(bytes, vec![2, 0, 0, 0, b'a', b'b', 1, 0, 0, 0, 0, 0, 0, 0]);
    let value = HyperValue::HyperMapIntString(vec![(1, b"x".to_vec())]);
    let (bytes, datatype) = encode_value(&value);
    assert_eq!(datatype, HYPERDATATYPE_MAP_INT64_STRING);
    assert_eq!(bytes, vec![1, 0, 0, 0, 0, 0, 0, 0, 1, 0, 0, 0, b'x']);
}

#[test]
fn maps_with_unsorted_keys_are_refused() {
    let (bytes, _) = encode_value(&HyperValue::HyperMapStringString(vec![
        (b"b".to_vec(), Vec::new()),
        (b"a".to_vec(), Vec::new()),
    ]));
    let err = decode_value(HYPERDATATYPE_MAP_STRING_STRING, &bytes).unwrap_err();
    assert_eq!(err, "Server sent a corrupted map of strings to strings");
    let (bytes, _) = encode_value(&HyperValue::HyperMapIntInt(vec![(2, 0), (2, 1)]));
    let err = decode_value(HYPERDATATYPE_MAP_INT64_INT64, &bytes).unwrap_err();
    assert_eq!(err, "Server sent a corrupted map of integers to integers");
}

#[test]
fn truncated_maps_are_refused() {
    // a key length prefix promising more bytes than follow
    let err = decode_value(HYPERDATATYPE_MAP_STRING_INT64, &vec![9, 0, 0, 0, b'a']).unwrap_err();
    assert_eq!(err, "Server sent a corrupted map of strings to integers");
    // an entry missing its value word
    let err = decode_value(HYPERDATATYPE_MAP_INT64_STRING, &vec![0; 11]).unwrap_err();
    assert_eq!(err, "Server sent a corrupted map of integers to strings");
    // a ragged run of fixed-width entries
    let err = decode_value(HYPERDATATYPE_MAP_INT64_INT64, &vec![0; 24]).unwrap_err();
    assert_eq!(err, "Server sent a corrupted map of integers to integers");
}

#[test]
fn malformed_int_is_refused() {
    let err = decode_value(HYPERDATATYPE_INT64, &vec![1, 2, 3]).unwrap_err();
    assert_eq!(err, "Server sent a malformed int");
}

#[test]
fn truncated_string_list_is_refused() {
    // length prefix says five bytes, only two follow
    let err = decode_value(HYPERDATATYPE_LIST_STRING, &vec![5, 0, 0, 0, b'a', b'b']).unwrap_err();
    assert_eq!(err, "Server sent a corrupted list of strings");
}

#[test]
fn ragged_int_list_is_refused() {
    let err = decode_value(HYPERDATATYPE_LIST_INT64, &vec![0; 12]).unwrap_err();
    assert_eq!(err, "Server sent a corrupted list of integers");
}

#[test]
fn unsorted_sets_are_refused() {
    let (bytes, _) = encode_value(&HyperValue::HyperListInt(vec![2, 1]));
    let err = decode_value(HYPERDATATYPE_SET_INT64, &bytes).unwrap_err();
    assert_eq!(err, "Server sent a corrupted set of integers");
    let (bytes, _) = encode_value(&HyperValue::HyperListString(vec![b"b".to_vec(), b"a".to_vec()]));
    let err = decode_value(HYPERDATATYPE_SET_STRING, &bytes).unwrap_err();
    assert_eq!(err, "Server sent a corrupted set of strings");
    // a duplicate is not strictly increasing either
    let (bytes, _) = encode_value(&HyperValue::HyperListInt(vec![1, 1]));
    let err = decode_value(HYPERDATATYPE_SET_INT64, &bytes).unwrap_err();
    assert_eq!(err, "Server sent a corrupted set of integers");
}

#[test]
fn unknown_datatype_is_refused() {
    // 9219 is the engine's floating-point code, one of the shapes this
    // core does not carry
    let err = decode_value(9219, &Vec::new()).unwrap_err();
    assert_eq!(err, "Unrecognized datatype");
}

#[test]
fn attributes_decode_into_an_object() {
    let (first, dt_first) = encode_value(&HyperValue::HyperString(b"Derek".to_vec()));
    let (age, dt_age) = encode_value(&HyperValue::HyperInt(20));
    let attrs = vec![
        RawAttribute { name: "first".to_string(), datatype: dt_first, value: first },
        RawAttribute { name: "age".to_string(), datatype: dt_age, value: age },
    ];
    let obj = decode_attributes(&attrs).expect("well-formed attributes decode");
    let first: Vec<u8> = obj.get("first").unwrap();
    assert_eq!(first, b"Derek".to_vec());
    let age: i64 = obj.get("age").unwrap();
    assert_eq!(age, 20);
}

#[test]
fn one_bad_attribute_fails_the_whole_object() {
    let attrs = vec![
        RawAttribute { name: "age".to_string(), datatype: HYPERDATATYPE_INT64, value: vec![9] },
    ];
    let err = decode_attributes(&attrs).unwrap_err();
    assert_eq!(err, "Server sent a malformed int");
}

#[test]
fn objects_encode_attribute_by_attribute() {
    let mut obj = HyperObject::new();
    obj.insert("first", "Derek");
    obj.insert("age", 20i64);
    let raw = encode_object(&obj);
    assert_eq!(raw.len(), 2);
    assert_eq!(raw[0].name, "first");
    assert_eq!(raw[0].datatype, HYPERDATATYPE_STRING);
    assert_eq!(raw[0].value, b"Derek".to_vec());
    assert_eq!(raw[1].name, "age");
    assert_eq!(raw[1].datatype, HYPERDATATYPE_INT64);
    assert_eq!(raw[1].value, vec![20, 0, 0, 0, 0, 0, 0, 0]);
}

#[test]
fn predicates_encode_with_their_codes() {
    let checks = vec![HyperPredicate::new("age", HyperPredicateType::LESS_EQUAL, 25i64)];
    let raw = encode_predicates(&checks);
    assert_eq!(raw.len(), 1);
    assert_eq!(raw[0].attr, "age");
    assert_eq!(raw[0].datatype, HYPERDATATYPE_INT64);
    assert_eq!(raw[0].value, vec![25, 0, 0, 0, 0, 0, 0, 0]);
    assert_eq!(raw[0].predicate, 9730);
}

#[test]
fn map_attributes_encode_key_and_value() {
    let updates = vec![HyperMapAttribute {
        attr: "scores".to_string(),
        key: HyperValue::HyperString(b"math".to_vec()),
        value: HyperValue::HyperInt(90),
    }];
    let raw = encode_map_attributes(&updates);
    assert_eq!(raw.len(), 1);
    assert_eq!(raw[0].attr, "scores");
    assert_eq!(raw[0].key, b"math".to_vec());
    assert_eq!(raw[0].key_datatype, HYPERDATATYPE_STRING);
    assert_eq!(raw[0].value, vec![90, 0, 0, 0, 0, 0, 0, 0]);
    assert_eq!(raw[0].value_datatype, HYPERDATATYPE_INT64);
}

#[test]
fn documents_travel_as_their_text() {
    let (bytes, datatype) = encode_value(&HyperValue::HyperDocument(b"{}".to_vec()));
    assert_eq!(datatype, HYPERDATATYPE_DOCUMENT);
    assert_eq!(bytes, b"{}".to_vec());
    let back = decode_value(HYPERDATATYPE_DOCUMENT, &bytes).unwrap();
    assert_eq!(back, HyperValue::HyperDocument(b"{}".to_vec()));
}
