use sszt::binary_to_ssz;
use sszt::de::MalformedValue;
use sszt::doc::DocNode;
use sszt::document_to_ssz;
use sszt::ser::{is_fixed_length, serialize};
use sszt::value::{SsztNumber, SsztValue};

fn text(s: &str) -> DocNode {
    DocNode::Text(s.to_string())
}

fn tagged_seq(tag: &str, items: Vec<DocNode>) -> DocNode {
    let mut v = vec![text(tag)];
    v.extend(items);
    DocNode::Sequence(v)
}

fn mapping(entries: Vec<(&str, DocNode)>) -> DocNode {
    DocNode::Mapping(entries.into_iter().map(|(k, v)| (k.to_string(), v)).collect())
}

fn bytes_of(n: &DocNode) -> Vec<u8> {
    document_to_ssz(n).unwrap()
}

fn err_of(n: &DocNode) -> MalformedValue {
    document_to_ssz(n).unwrap_err()
}

#[test]
fn determinism_same_document_same_bytes() {
    let doc = mapping(vec![
        ("fixed", tagged_seq("vector", vec![text("0:u8"), text("1:u8")])),
        ("rest", tagged_seq("list", vec![text("300:u16")])),
    ]);
    assert_eq!(bytes_of(&doc), bytes_of(&doc));
}

#[test]
fn numeric_width_u8() {
    assert_eq!(bytes_of(&text("0:u8")), [0]);
    assert_eq!(bytes_of(&text("255:u8")), [255]);
}

#[test]
fn numeric_width_u16() {
    assert_eq!(bytes_of(&text("300:u16")), [44, 1]);
    assert_eq!(bytes_of(&text("65535:u16")), [255, 255]);
}

#[test]
fn numeric_width_u32() {
    assert_eq!(bytes_of(&text("70000:u32")), [112, 17, 1, 0]);
    assert_eq!(bytes_of(&text("4294967295:u32")), [255, 255, 255, 255]);
}

#[test]
fn numeric_width_u64() {
    assert_eq!(bytes_of(&text("1:u64")), [1, 0, 0, 0, 0, 0, 0, 0]);
    assert_eq!(bytes_of(&text("18446744073709551615:u64")), [255u8; 8]);
}

#[test]
fn numeric_width_u128() {
    assert_eq!(
        bytes_of(&text("340282366920938463463374607431768211455:u128")),
        [255u8; 16]
    );
    let mut one = vec![1u8];
    one.extend([0u8; 15]);
    assert_eq!(bytes_of(&text("1:u128")), one);
}

#[test]
fn numeric_width_u256() {
    let mut expected = vec![5u8];
    expected.extend([0u8; 31]);
    assert_eq!(bytes_of(&text("5:u256")), expected);

    // 256 = 0x100: the second little-endian byte carries the 1
    let mut expected = vec![0u8, 1u8];
    expected.extend([0u8; 30]);
    assert_eq!(bytes_of(&text("256:u256")), expected);

    let max = "115792089237316195423570985008687907853269984665640564039457584007913129639935";
    assert_eq!(bytes_of(&text(&format!("{}:u256", max))), [255u8; 32]);
}

#[test]
fn list_prefix_counts_bytes_not_elements() {
    // two elements, six payload bytes: the prefix must say 6
    let doc = tagged_seq("list", vec![text("16:u16"), text("32:u32")]);
    assert_eq!(bytes_of(&doc), [6, 0, 0, 0, 16, 0, 32, 0, 0, 0]);
}

#[test]
fn fixed_vector_concatenates_without_prefix() {
    let doc = tagged_seq("vector", vec![text("1:u16"), text("2:u16"), text("3:u16")]);
    let encoded = bytes_of(&doc);
    assert_eq!(encoded, [1, 0, 2, 0, 3, 0]);
    assert_eq!(encoded.len(), 3 * 2);
}

#[test]
fn container_field_order_matters() {
    let ab = mapping(vec![("a", text("1:u16")), ("b", text("2:u32"))]);
    let ba = mapping(vec![("b", text("2:u32")), ("a", text("1:u16"))]);
    assert_eq!(bytes_of(&ab), [1, 0, 2, 0, 0, 0]);
    assert_eq!(bytes_of(&ba), [2, 0, 0, 0, 1, 0]);
    assert_ne!(bytes_of(&ab), bytes_of(&ba));
}

#[test]
fn empty_list_serializes_to_zero_prefix() {
    assert_eq!(bytes_of(&tagged_seq("list", vec![])), [0, 0, 0, 0]);
}

#[test]
fn unsupported_width_is_malformed() {
    assert!(matches!(
        err_of(&text("abc:u7")),
        MalformedValue::UnknownIntegerType(_)
    ));
    assert!(matches!(
        err_of(&text("1:u512")),
        MalformedValue::UnknownIntegerType(_)
    ));
}

#[test]
fn out_of_range_literals_are_malformed() {
    assert!(matches!(err_of(&text("256:u8")), MalformedValue::BadIntegerLiteral(_)));
    assert!(matches!(err_of(&text("65536:u16")), MalformedValue::BadIntegerLiteral(_)));
    assert!(matches!(err_of(&text("4294967296:u32")), MalformedValue::BadIntegerLiteral(_)));
    assert!(matches!(
        err_of(&text("18446744073709551616:u64")),
        MalformedValue::BadIntegerLiteral(_)
    ));
    assert!(matches!(
        err_of(&text("340282366920938463463374607431768211456:u128")),
        MalformedValue::BadIntegerLiteral(_)
    ));
    let too_big = "115792089237316195423570985008687907853269984665640564039457584007913129639936";
    assert!(matches!(
        err_of(&text(&format!("{}:u256", too_big))),
        MalformedValue::BadIntegerLiteral(_)
    ));
}

#[test]
fn non_numeric_literals_are_malformed() {
    assert!(matches!(err_of(&text("x:u8")), MalformedValue::BadIntegerLiteral(_)));
    assert!(matches!(err_of(&text("1.5:u64")), MalformedValue::BadIntegerLiteral(_)));
    assert!(matches!(err_of(&text("-1:u32")), MalformedValue::BadIntegerLiteral(_)));
}

#[test]
fn sequence_errors() {
    assert!(matches!(
        err_of(&DocNode::Sequence(vec![])),
        MalformedValue::EmptySequence
    ));
    assert!(matches!(
        err_of(&DocNode::Sequence(vec![DocNode::Bool(true)])),
        MalformedValue::UntaggedSequence
    ));
    assert!(matches!(
        err_of(&tagged_seq("array", vec![text("0:u8")])),
        MalformedValue::UnknownSequenceTag(_)
    ));
}

#[test]
fn errors_surface_from_nested_nodes() {
    let doc = mapping(vec![(
        "outer",
        tagged_seq("list", vec![text("0:u8"), text("abc:u7")]),
    )]);
    assert!(matches!(err_of(&doc), MalformedValue::UnknownIntegerType(_)));
}

#[test]
fn plain_strings_are_length_prefixed_utf8() {
    assert_eq!(bytes_of(&text("hello")), [5, 0, 0, 0, 104, 101, 108, 108, 111]);
    // a two-byte character counts by its bytes, not its characters
    assert_eq!(
        bytes_of(&text("h\u{e9}llo")),
        [6, 0, 0, 0, 104, 195, 169, 108, 108, 111]
    );
}

#[test]
fn untagged_shapes_stay_strings() {
    // no colon, two colons, or an empty part: not the tagged shape
    assert_eq!(bytes_of(&text("a:b:c")), [5, 0, 0, 0, 97, 58, 98, 58, 99]);
    assert_eq!(bytes_of(&text(":u8")), [3, 0, 0, 0, 58, 117, 56]);
    assert_eq!(bytes_of(&text("u8:")), [3, 0, 0, 0, 117, 56, 58]);
}

#[test]
fn null_and_bool_scalars() {
    assert_eq!(bytes_of(&DocNode::Null), [0u8; 0]);
    assert_eq!(bytes_of(&DocNode::Bool(true)), [1]);
    assert_eq!(bytes_of(&DocNode::Bool(false)), [0]);
}

#[test]
fn empty_container_is_fixed_and_empty() {
    assert_eq!(bytes_of(&mapping(vec![])), [0u8; 0]);
}

#[test]
fn container_with_a_fixed_field_stays_unprefixed() {
    // one fixed field is enough to classify the whole container fixed,
    // even beside a variable field
    let doc = mapping(vec![("a", text("1:u8")), ("b", tagged_seq("list", vec![]))]);
    assert_eq!(bytes_of(&doc), [1, 0, 0, 0, 0]);
}

#[test]
fn container_with_only_variable_fields_takes_a_prefix() {
    let doc = mapping(vec![
        ("a", tagged_seq("list", vec![])),
        ("b", tagged_seq("list", vec![])),
    ]);
    assert_eq!(bytes_of(&doc), [8, 0, 0, 0, 0, 0, 0, 0, 0, 0, 0, 0]);
}

#[test]
fn repeated_field_keeps_position_takes_last_value() {
    let doc = DocNode::Mapping(vec![
        ("a".to_string(), text("1:u8")),
        ("b".to_string(), text("3:u8")),
        ("a".to_string(), text("2:u8")),
    ]);
    assert_eq!(bytes_of(&doc), [2, 3]);
}

#[test]
fn classifier_on_direct_values() {
    assert!(is_fixed_length(&SsztValue::Null));
    assert!(is_fixed_length(&SsztValue::Bool(false)));
    assert!(is_fixed_length(&SsztValue::Number(SsztNumber::U8(1))));
    assert!(is_fixed_length(&SsztValue::String("x".to_string())));
    assert!(is_fixed_length(&SsztValue::Vector(vec![])));
    assert!(!is_fixed_length(&SsztValue::List(vec![])));
    assert!(is_fixed_length(&SsztValue::Container(vec![])));
    assert!(!is_fixed_length(&SsztValue::Container(vec![(
        "a".to_string(),
        SsztValue::List(vec![]),
    )])));
    // one fixed field beside a variable one already counts as fixed
    assert!(is_fixed_length(&SsztValue::Container(vec![
        ("a".to_string(), SsztValue::List(vec![])),
        ("b".to_string(), SsztValue::Number(SsztNumber::U8(1))),
    ])));
}

#[test]
fn vector_of_variable_elements_concatenates_unprefixed() {
    // the classifier calls vectors fixed; serializing one with a variable
    // element still emits the plain concatenation, by design
    let v = SsztValue::Vector(vec![
        SsztValue::Number(SsztNumber::U8(1)),
        SsztValue::List(vec![]),
    ]);
    assert_eq!(serialize(&v), [1, 0, 0, 0, 0]);
}

#[test]
fn binary_to_ssz_frames_bytes() {
    assert_eq!(binary_to_ssz(vec![0, 1, 2, 3]), [4, 0, 0, 0, 0, 1, 2, 3]);
    assert_eq!(binary_to_ssz(vec![]), [0, 0, 0, 0]);
}
