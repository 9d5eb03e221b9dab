//! End-to-end checks of the RLP codec against known byte vectors: canonical
//! encodings, round trips, and the rejection of every class of malformed or
//! non-canonical input.

use rlp_codec::decode;
use rlp_codec::decode_item;
use rlp_codec::encode;
use rlp_codec::Value;

fn bytes(v: &[u8]) -> Value {
    Value::Bytes(v.to_vec())
}

fn list(vs: Vec<Value>) -> Value {
    Value::List(vs)
}

#[test]
fn empty_bytes_encodes_to_0x80() {
    assert_eq!(encode(&bytes(&[])), vec![0x80]);
    assert_eq!(decode(&[0x80]).unwrap(), bytes(&[]));
}

#[test]
fn empty_list_encodes_to_0xc0() {
    assert_eq!(encode(&list(vec![])), vec![0xc0]);
    assert_eq!(decode(&[0xc0]).unwrap(), list(vec![]));
}

#[test]
fn single_low_byte_is_unprefixed() {
    assert_eq!(encode(&bytes(&[0x00])), vec![0x00]);
    assert_eq!(encode(&bytes(&[0x7f])), vec![0x7f]);
    assert_eq!(decode(&[0x00]).unwrap(), bytes(&[0x00]));
    assert_eq!(decode(&[0x7f]).unwrap(), bytes(&[0x7f]));
}

#[test]
fn single_high_byte_is_prefixed() {
    assert_eq!(encode(&bytes(&[0x80])), vec![0x81, 0x80]);
    assert_eq!(encode(&bytes(&[0xff])), vec![0x81, 0xff]);
    assert_eq!(decode(&[0x81, 0x80]).unwrap(), bytes(&[0x80]));
}

#[test]
fn short_string_dog() {
    let v = bytes(b"dog");
    let wire = vec![0x83, b'd', b'o', b'g'];
    assert_eq!(encode(&v), wire);
    assert_eq!(decode(&wire).unwrap(), v);
}

#[test]
fn two_byte_integer_payload() {
    // 1024 as a minimal big-endian byte string
    let v = bytes(&[0x04, 0x00]);
    let wire = vec![0x82, 0x04, 0x00];
    assert_eq!(encode(&v), wire);
    assert_eq!(decode(&wire).unwrap(), v);
}

#[test]
fn list_cat_dog() {
    let v = list(vec![bytes(b"cat"), bytes(b"dog")]);
    let wire = vec![0xc8, 0x83, b'c', b'a', b't', 0x83, b'd', b'o', b'g'];
    assert_eq!(encode(&v), wire);
    assert_eq!(decode(&wire).unwrap(), v);
}

#[test]
fn nested_set_representation() {
    // [ [], [[]], [ [], [[]] ] ]
    let v = list(vec![
        list(vec![]),
        list(vec![list(vec![])]),
        list(vec![list(vec![]), list(vec![list(vec![])])]),
    ]);
    let wire = vec![0xc7, 0xc0, 0xc1, 0xc0, 0xc3, 0xc0, 0xc1, 0xc0];
    assert_eq!(encode(&v), wire);
    assert_eq!(decode(&wire).unwrap(), v);
}

#[test]
fn bytes_at_short_long_threshold() {
    // 55 bytes of 0xAA: short form, prefix 0xb7
    let content55 = vec![0xaa; 55];
    let v55 = bytes(&content55);
    let mut wire55 = vec![0xb7];
    wire55.extend_from_slice(&content55);
    assert_eq!(encode(&v55), wire55);
    assert_eq!(decode(&wire55).unwrap(), v55);

    // 56 bytes of 0xAA: long form, prefix 0xb8 0x38
    let content56 = vec![0xaa; 56];
    let v56 = bytes(&content56);
    let mut wire56 = vec![0xb8, 0x38];
    wire56.extend_from_slice(&content56);
    assert_eq!(encode(&v56), wire56);
    assert_eq!(decode(&wire56).unwrap(), v56);
}

#[test]
fn list_at_short_long_threshold() {
    // 55 single-byte items: payload 55, short form 0xf7
    let v55 = list((0..55).map(|_| bytes(&[0x01])).collect());
    let mut wire55 = vec![0xf7];
    wire55.extend_from_slice(&[0x01; 55]);
    assert_eq!(encode(&v55), wire55);
    assert_eq!(decode(&wire55).unwrap(), v55);

    // 56 single-byte items: payload 56, long form 0xf8 0x38
    let v56 = list((0..56).map(|_| bytes(&[0x01])).collect());
    let mut wire56 = vec![0xf8, 0x38];
    wire56.extend_from_slice(&[0x01; 56]);
    assert_eq!(encode(&v56), wire56);
    assert_eq!(decode(&wire56).unwrap(), v56);
}

#[test]
fn long_string_of_1024_bytes() {
    let content = vec![0x61; 1024];
    let v = bytes(&content);
    let mut wire = vec![0xb9, 0x04, 0x00];
    wire.extend_from_slice(&content);
    assert_eq!(encode(&v), wire);
    assert_eq!(decode(&wire).unwrap(), v);
}

#[test]
fn round_trip_nested_tree() {
    let v = list(vec![
        bytes(&[]),
        bytes(&[0x00]),
        bytes(b"hello world, this is a byte string longer than fifty-five bytes!"),
        list(vec![bytes(&[0x80]), list(vec![]), bytes(b"x")]),
    ]);
    let wire = encode(&v);
    assert_eq!(decode(&wire).unwrap(), v);
}

#[test]
fn encoding_is_deterministic() {
    let v = list(vec![bytes(b"abc"), list(vec![bytes(&[0xff])])]);
    assert_eq!(encode(&v), encode(&v));
    let w = decode(&encode(&v)).unwrap();
    assert_eq!(encode(&w), encode(&v));
}

#[test]
fn rejects_prefixed_single_low_byte() {
    // 0x00 must stand bare; [0x81, 0x00] is the non-canonical long spelling
    assert!(decode(&[0x81, 0x00]).is_err());
    assert!(decode(&[0x81, 0x7f]).is_err());
}

#[test]
fn rejects_truncated_short_string() {
    // declares 3 content bytes, provides 1
    assert!(decode(&[0x83, 0x61]).is_err());
    assert!(decode(&[0x81]).is_err());
}

#[test]
fn rejects_truncated_long_string() {
    // declares 56 content bytes, provides none
    assert!(decode(&[0xb8, 0x38]).is_err());
    // declares a one-byte length field, provides none
    assert!(decode(&[0xb8]).is_err());
}

#[test]
fn rejects_truncated_list() {
    assert!(decode(&[0xc3, 0x61]).is_err());
    assert!(decode(&[0xf8, 0x38]).is_err());
}

#[test]
fn rejects_trailing_byte() {
    // a valid single item followed by one extra byte
    assert!(decode(&[0x80, 0x00]).is_err());
    assert!(decode(&[0xc0, 0x00]).is_err());
    assert!(decode(&[0x83, b'd', b'o', b'g', 0x00]).is_err());
}

#[test]
fn rejects_empty_input() {
    assert!(decode(&[]).is_err());
}

#[test]
fn rejects_long_form_for_short_length() {
    // length 3 spelled through the long form
    let mut wire = vec![0xb8, 0x03];
    wire.extend_from_slice(b"dog");
    assert!(decode(&wire).is_err());
    let wire2 = vec![0xf8, 0x01, 0x61];
    assert!(decode(&wire2).is_err());
}

#[test]
fn rejects_length_field_with_leading_zero() {
    let content = vec![0x61; 56];
    let mut wire = vec![0xb9, 0x00, 0x38];
    wire.extend_from_slice(&content);
    assert!(decode(&wire).is_err());
}

#[test]
fn rejects_list_payload_with_partial_item() {
    // list payload of 2 bytes holding a header that declares 2 content bytes
    assert!(decode(&[0xc2, 0x82, 0x61]).is_err());
}

#[test]
fn rejects_non_canonical_item_inside_list() {
    // a list whose only child is the non-canonical [0x81, 0x30]
    assert!(decode(&[0xc2, 0x81, 0x30]).is_err());
    // the canonical spelling of the same list is accepted
    assert_eq!(
        decode(&[0xc1, 0x30]).unwrap(),
        list(vec![bytes(&[0x30])])
    );
}

#[test]
fn rejects_long_form_declaring_exactly_55() {
    // 55 must use the short form even when the content is all present
    let mut wire = vec![0xb8, 0x37];
    wire.extend_from_slice(&[0xaa; 55]);
    assert!(decode(&wire).is_err());
}

#[test]
fn cursor_decoding_reports_consumed_bytes() {
    // two items back to back: the cursor API decodes the first and says
    // where it stopped
    let wire = vec![0x83, b'c', b'a', b't', 0x83, b'd', b'o', b'g'];
    let (first, end) = decode_item(&wire, 0, wire.len()).unwrap();
    assert_eq!(first, bytes(b"cat"));
    assert_eq!(end, 4);
    let (second, end2) = decode_item(&wire, end, wire.len()).unwrap();
    assert_eq!(second, bytes(b"dog"));
    assert_eq!(end2, 8);
    // but the whole-input decode rejects the pair
    assert!(decode(&wire).is_err());
}

#[test]
fn output_length_supports_charging() {
    // the host charges by bytes produced and consumed: both are the
    // encoding's length
    let v = list(vec![bytes(b"cat"), bytes(b"dog")]);
    let wire = encode(&v);
    assert_eq!(wire.len(), 9);
    let (_, consumed) = decode_item(&wire, 0, wire.len()).unwrap();
    assert_eq!(consumed, wire.len());
}
