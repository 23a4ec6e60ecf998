use record_cache::keys::{get_primary_key, get_schema_key, get_schema_name_key, u64_to_be_bytes};
use record_cache::order::{key_cmp, KeyOrdering};
use record_cache::types::FieldValue;
use record_cache::SchemaIdentifier;

#[test]
fn u64_big_endian_bytes_exact() {
    assert_eq!(u64_to_be_bytes(0x0102030405060708), vec![1, 2, 3, 4, 5, 6, 7, 8]);
    assert_eq!(u64_to_be_bytes(0), vec![0; 8]);
}

#[test]
fn schema_key_layout_exact() {
    let key = get_schema_key(&SchemaIdentifier { id: 1, version: 2 });
    let mut expected = vec![b's', b'c', b'#'];
    expected.extend_from_slice(&[0, 0, 0, 0, 0, 0, 0, 1]);
    expected.push(b'#');
    expected.extend_from_slice(&[0, 0, 0, 0, 0, 0, 0, 2]);
    assert_eq!(key, expected);
}

#[test]
fn schema_name_key_is_in_a_disjoint_namespace() {
    let name_key = get_schema_name_key(&b"customers".to_vec());
    let mut expected = vec![b's', b'n', b'#'];
    expected.extend_from_slice(b"customers");
    assert_eq!(name_key, expected);
    let schema_key = get_schema_key(&SchemaIdentifier { id: 1, version: 1 });
    assert_ne!(name_key[1], schema_key[1]);
}

#[test]
fn primary_key_encoding_exact() {
    let key = get_primary_key(&vec![0], &vec![FieldValue::Int(5)]);
    let mut expected = vec![0u8];
    expected.extend_from_slice(&[0, 0, 0, 0, 0, 0, 0, 5]);
    assert_eq!(key, expected);

    let key = get_primary_key(&vec![0], &vec![FieldValue::Text(b"ab".to_vec())]);
    let mut expected = vec![1u8];
    expected.extend_from_slice(&[0, 0, 0, 0, 0, 0, 0, 2]);
    expected.extend_from_slice(b"ab");
    assert_eq!(key, expected);
}

#[test]
fn comparator_orders_like_decoded_field_values() {
    let a = vec![FieldValue::Int(1), FieldValue::Int(9)];
    let b = vec![FieldValue::Int(2), FieldValue::Int(0)];
    assert_eq!(key_cmp(&a, &b), KeyOrdering::Less);
    assert_eq!(key_cmp(&b, &a), KeyOrdering::Greater);
    assert_eq!(key_cmp(&a, &a.clone()), KeyOrdering::Equal);
    // negative integers precede positive ones under the installed ordering
    let neg = vec![FieldValue::Int(-3)];
    let pos = vec![FieldValue::Int(3)];
    assert_eq!(key_cmp(&neg, &pos), KeyOrdering::Less);
    // every integer precedes every text value
    let int_key = vec![FieldValue::Int(i64::MAX)];
    let text_key = vec![FieldValue::Text(b"".to_vec())];
    assert_eq!(key_cmp(&int_key, &text_key), KeyOrdering::Less);
    // text compares bytewise, shorter prefixes first
    let ab = vec![FieldValue::Text(b"ab".to_vec())];
    let abc = vec![FieldValue::Text(b"abc".to_vec())];
    assert_eq!(key_cmp(&ab, &abc), KeyOrdering::Less);
}
