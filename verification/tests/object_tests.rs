//! Objects, values, conversions and errors.

use hyperdex::client_types::{
    FromHyperValue, HyperObject, HyperObjectKeyError, HyperPredicate, HyperPredicateType,
    HyperValue, ToByteVec, ToHyperValue,
};
use hyperdex::common::HYPERDEX_CLIENT_INTERRUPTED;
use hyperdex::HyperError;

#[test]
fn insert_and_get_attributes() {
    let mut obj = HyperObject::new();
    obj.insert("first", "Derek");
    obj.insert("last", "Chiang");
    obj.insert("age", 20i64);
    assert_eq!(obj.len(), 3);
    let first: Vec<u8> = obj.get("first").unwrap();
    let last: Vec<u8> = obj.get("last").unwrap();
    let age: i64 = obj.get("age").unwrap();
    assert_eq!(first, "Derek".as_bytes());
    assert_eq!(last, "Chiang".as_bytes());
    assert_eq!(age, 20);
}

#[test]
fn get_missing_key_reports_it() {
    let obj = HyperObject::new();
    let r: Result<Vec<u8>, HyperObjectKeyError> = obj.get("lol");
    assert_eq!(r, Err(HyperObjectKeyError::KeyDoesNotExist));
}

#[test]
fn get_with_wrong_shape_reports_it() {
    let mut obj = HyperObject::new();
    obj.insert("age", 30i64);
    let r: Result<Vec<u8>, HyperObjectKeyError> = obj.get("age");
    assert_eq!(r, Err(HyperObjectKeyError::ObjectIsAnotherType));
}

#[test]
fn insert_replaces_under_the_same_name() {
    let mut obj = HyperObject::new();
    obj.insert("age", 20i64);
    obj.insert("age", 25i64);
    assert_eq!(obj.len(), 1);
    let age: i64 = obj.get("age").unwrap();
    assert_eq!(age, 25);
}

#[test]
fn byte_conversions_agree() {
    assert_eq!("ab".to_bytes(), vec![b'a', b'b']);
    assert_eq!("ab".to_string().to_bytes(), vec![b'a', b'b']);
    assert_eq!(vec![1u8, 2u8].to_bytes(), vec![1u8, 2u8]);
}

#[test]
fn value_conversions_pick_the_right_shape() {
    assert_eq!("x".to_hyper(), HyperValue::HyperString(vec![b'x']));
    assert_eq!("x".to_string().to_hyper(), HyperValue::HyperString(vec![b'x']));
    assert_eq!(vec![9u8].to_hyper(), HyperValue::HyperString(vec![9u8]));
    assert_eq!(7i64.to_hyper(), HyperValue::HyperInt(7));
    assert_eq!(vec![1i64, 2i64].to_hyper(), HyperValue::HyperListInt(vec![1, 2]));
    assert_eq!(
        vec![vec![1u8], vec![2u8]].to_hyper(),
        HyperValue::HyperListString(vec![vec![1], vec![2]]),
    );
}

#[test]
fn typed_extraction_agrees_with_shapes() {
    assert_eq!(Vec::<u8>::from_hyper(HyperValue::HyperString(vec![3])), Ok(vec![3u8]));
    assert_eq!(i64::from_hyper(HyperValue::HyperInt(-4)), Ok(-4i64));
    assert_eq!(
        Vec::<i64>::from_hyper(HyperValue::HyperListInt(vec![8])),
        Ok(vec![8i64]),
    );
    assert_eq!(
        i64::from_hyper(HyperValue::HyperString(Vec::new())),
        Err(HyperObjectKeyError::ObjectIsAnotherType),
    );
}

#[test]
fn predicates_carry_their_pieces() {
    let p = HyperPredicate::new("age", HyperPredicateType::LESS_EQUAL, 25i64);
    assert_eq!(p.attr, "age");
    assert_eq!(p.value, HyperValue::HyperInt(25));
    assert_eq!(p.predicate, HyperPredicateType::LESS_EQUAL);
}

#[test]
fn predicate_codes_match_the_engine() {
    assert_eq!(HyperPredicateType::FAIL.code(), 9728);
    assert_eq!(HyperPredicateType::EQUALS.code(), 9729);
    assert_eq!(HyperPredicateType::LESS_EQUAL.code(), 9730);
    assert_eq!(HyperPredicateType::GREATER_EQUAL.code(), 9731);
    assert_eq!(HyperPredicateType::REGEX.code(), 9733);
    assert_eq!(HyperPredicateType::LENGTH_EQUALS.code(), 9734);
    assert_eq!(HyperPredicateType::LENGTH_LESS_EQUAL.code(), 9735);
    assert_eq!(HyperPredicateType::LENGTH_GREATER_EQUAL.code(), 9736);
    assert_eq!(HyperPredicateType::CONTAINS.code(), 9737);
    assert_eq!(HyperPredicateType::LESS_THAN.code(), 9738);
    assert_eq!(HyperPredicateType::GREATER_THAN.code(), 9739);
}

#[test]
fn documents_are_checked_json() {
    let ok = HyperValue::document(b"{\"name\": 123, \"age\": 456}".to_vec());
    assert_eq!(ok, Some(HyperValue::HyperDocument(b"{\"name\": 123, \"age\": 456}".to_vec())));
    assert_eq!(HyperValue::document(b"{\"name\": ".to_vec()), None);
    assert_eq!(HyperValue::document(vec![0xff, 0xfe]), None);
}

#[test]
fn deeply_nested_documents_are_refused_before_parsing() {
    // the parser recurses per nesting level; text this deep is refused
    // without ever reaching it
    let mut text = vec![b'['; 100_000];
    text.extend(vec![b']'; 100_000]);
    assert_eq!(HyperValue::document(text), None);
    // the bound counts opening brackets, so a wide document past it is
    // refused too, even though it is valid JSON
    let mut wide = Vec::new();
    wide.push(b'[');
    for k in 0..1200 {
        if k > 0 {
            wide.push(b',');
        }
        wide.extend(b"{}".to_vec());
    }
    wide.push(b']');
    assert_eq!(HyperValue::document(wide), None);
    // moderate nesting is fine
    let nested = b"[[[[[[[[[[1]]]]]]]]]]".to_vec();
    assert_eq!(
        HyperValue::document(nested.clone()),
        Some(HyperValue::HyperDocument(nested)),
    );
}

#[test]
fn parser_hazard_texts_are_refused_before_parsing() {
    // two object keys totalling seventy kilobytes: the parser tracks
    // key offsets in sixteen-bit words, so text this long is refused
    let mut text = b"{\"".to_vec();
    text.extend(vec![b'K'; 40_000]);
    text.extend(b"\":{\"".to_vec());
    text.extend(vec![b'L'; 30_000]);
    text.extend(b"\":1}}".to_vec());
    assert_eq!(HyperValue::document(text), None);
    // a nineteen-digit exponent would overflow the parser's accumulator
    assert_eq!(HyperValue::document(b"1e1234567890123456789".to_vec()), None);
    assert_eq!(HyperValue::document(b"1e+1234567890123456789".to_vec()), None);
    // the scan is over raw bytes, so a long digit run after an "e"
    // inside a string is refused too
    assert_eq!(
        HyperValue::document(b"{\"note\": \"e1234567890123456789\"}".to_vec()),
        None,
    );
    // bounded exponents pass
    let small = b"[1e18, 2E-10]".to_vec();
    assert_eq!(HyperValue::document(small.clone()), Some(HyperValue::HyperDocument(small)));
}

#[test]
fn key_errors_describe_themselves() {
    assert_eq!(HyperObjectKeyError::KeyDoesNotExist.message(), "the key does not exist");
    assert_eq!(
        HyperObjectKeyError::ObjectIsAnotherType.message(),
        "the object is of another type",
    );
}

#[test]
fn cancellation_error_is_recognizable() {
    let e = HyperError::cancelled();
    assert_eq!(e.status, HYPERDEX_CLIENT_INTERRUPTED);
    assert_eq!(e.message, "operation cancelled at shutdown");
    assert_eq!(e.location, "");
}
