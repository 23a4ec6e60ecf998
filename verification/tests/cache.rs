use record_cache::engine::{CacheOptions, StorageEngine};
use record_cache::errors::CacheError;
use record_cache::keys::get_primary_key;
use record_cache::query::{Clause, Op, QueryExpression};
use record_cache::types::{FieldDefinition, FieldType, FieldValue, IndexDefinition, Record, Schema, SchemaIdentifier};

fn engine_with_chunk(chunk: usize) -> StorageEngine {
    StorageEngine::new(CacheOptions { intersection_chunk_size: chunk })
}

fn customer_schema(version: u32) -> Schema {
    Schema {
        identifier: Some(SchemaIdentifier { id: 1, version }),
        fields: vec![
            FieldDefinition { name: b"id".to_vec(), typ: FieldType::Int },
            FieldDefinition { name: b"name".to_vec(), typ: FieldType::Text },
        ],
        primary_index: vec![0],
    }
}

fn customer_record(id: i64, name: &str) -> Record {
    Record {
        schema_id: Some(SchemaIdentifier { id: 1, version: 1 }),
        values: vec![FieldValue::Int(id), FieldValue::Text(name.as_bytes().to_vec())],
    }
}

fn registered_engine(chunk: usize) -> StorageEngine {
    let mut e = engine_with_chunk(chunk);
    let schema = customer_schema(1);
    let indexes = vec![IndexDefinition::SortedInverted(vec![0])];
    e.insert_schema(&b"customers".to_vec(), &schema, &indexes).unwrap();
    e
}

fn key_of(record: &Record) -> Vec<u8> {
    get_primary_key(&vec![0], &record.values)
}

fn range_query(field: usize, lo: i64, hi: i64) -> QueryExpression {
    QueryExpression {
        clauses: vec![Clause { field, op: Op::Range(FieldValue::Int(lo), FieldValue::Int(hi)) }],
    }
}

#[test]
fn insert_then_get_round_trip() {
    let mut e = registered_engine(16);
    let r = customer_record(7, "alice");
    e.insert(&r).unwrap();
    let got = e.get(&key_of(&r)).unwrap();
    assert_eq!(got, r);
}

#[test]
fn get_missing_key_is_key_not_found() {
    let e = registered_engine(16);
    assert_eq!(e.get(&b"no such key".to_vec()), Err(CacheError::KeyNotFound));
}

#[test]
fn insert_without_schema_identifier_is_rejected() {
    let mut e = registered_engine(16);
    let r = Record { schema_id: None, values: vec![FieldValue::Int(1)] };
    assert_eq!(e.insert(&r), Err(CacheError::SchemaNotFound));
}

#[test]
fn insert_under_unregistered_schema_is_rejected() {
    let mut e = engine_with_chunk(16);
    let r = customer_record(1, "a");
    assert_eq!(e.insert(&r), Err(CacheError::SchemaNotFound));
}

#[test]
fn insert_with_wrong_field_count_is_rejected() {
    let mut e = registered_engine(16);
    let r = Record {
        schema_id: Some(SchemaIdentifier { id: 1, version: 1 }),
        values: vec![FieldValue::Int(1)],
    };
    assert_eq!(e.insert(&r), Err(CacheError::SerializationError));
}

#[test]
fn concrete_scenario_range_query_and_delete() {
    let mut e = registered_engine(16);
    let r3 = customer_record(3, "carol");
    let r1 = customer_record(1, "alice");
    let r2 = customer_record(2, "bob");
    e.insert(&r3).unwrap();
    e.insert(&r1).unwrap();
    e.insert(&r2).unwrap();

    let got = e.query(&b"customers".to_vec(), &range_query(0, 1, 2)).unwrap();
    assert_eq!(got.len(), 2);
    assert_eq!(got[0], r1);
    assert_eq!(got[1], r2);

    e.delete(&key_of(&r3)).unwrap();
    assert_eq!(e.get(&key_of(&r3)), Err(CacheError::KeyNotFound));
    assert_eq!(e.get(&key_of(&r1)).unwrap(), r1);
}

#[test]
fn index_scan_orders_arbitrary_insertions() {
    let mut e = registered_engine(16);
    for id in [5i64, 2, 9, 1, 7, 3] {
        e.insert(&customer_record(id, "x")).unwrap();
    }
    let got = e.query(&b"customers".to_vec(), &range_query(0, i64::MIN, i64::MAX)).unwrap();
    let ids: Vec<i64> = got
        .iter()
        .map(|r| match r.values[0] {
            FieldValue::Int(v) => v,
            _ => panic!("unexpected field kind"),
        })
        .collect();
    assert_eq!(ids, vec![1, 2, 3, 5, 7, 9]);
}

#[test]
fn update_repoints_and_removes_old_index_entries() {
    let mut e = registered_engine(16);
    let old = customer_record(10, "before");
    e.insert(&old).unwrap();
    let new = customer_record(20, "after");
    e.update(&key_of(&old), &new).unwrap();

    // no index entry derived from the old record's values remains
    let by_old = e.query(&b"customers".to_vec(), &range_query(0, 10, 10)).unwrap();
    assert!(by_old.is_empty());
    // entries derived from the new record's values are present
    let by_new = e.query(&b"customers".to_vec(), &range_query(0, 20, 20)).unwrap();
    assert_eq!(by_new, vec![new.clone()]);
    // the old key is gone, the new key resolves
    assert_eq!(e.get(&key_of(&old)), Err(CacheError::KeyNotFound));
    assert_eq!(e.get(&key_of(&new)).unwrap(), new);
}

#[test]
fn update_of_missing_key_is_key_not_found() {
    let mut e = registered_engine(16);
    let r = customer_record(1, "a");
    assert_eq!(e.update(&b"missing".to_vec(), &r), Err(CacheError::KeyNotFound));
}

#[test]
fn schema_versions_stay_independently_retrievable() {
    let mut e = engine_with_chunk(16);
    let name = b"customers".to_vec();
    let v1 = customer_schema(1);
    let v2 = customer_schema(2);
    let indexes = vec![IndexDefinition::SortedInverted(vec![0])];
    e.insert_schema(&name, &v1, &indexes).unwrap();
    e.insert_schema(&name, &v2, &indexes).unwrap();

    let got1 = e.get_schema(&SchemaIdentifier { id: 1, version: 1 }).unwrap();
    assert_eq!(got1.identifier, Some(SchemaIdentifier { id: 1, version: 1 }));
    let got2 = e.get_schema(&SchemaIdentifier { id: 1, version: 2 }).unwrap();
    assert_eq!(got2.identifier, Some(SchemaIdentifier { id: 1, version: 2 }));

    // name-based lookup resolves to the most recently registered version
    let (by_name, defs) = e.get_schema_and_indexes_by_name(&name).unwrap();
    assert_eq!(by_name.identifier, Some(SchemaIdentifier { id: 1, version: 2 }));
    assert_eq!(defs.len(), 1);
}

#[test]
fn schema_registration_rejects_malformed_input() {
    let mut e = engine_with_chunk(16);
    let indexes = vec![IndexDefinition::SortedInverted(vec![0])];

    let mut nameless = customer_schema(1);
    nameless.identifier = None;
    assert_eq!(
        e.insert_schema(&b"x".to_vec(), &nameless, &indexes),
        Err(CacheError::SchemaNotFound)
    );

    let schema = customer_schema(1);
    let out_of_range = vec![IndexDefinition::SortedInverted(vec![9])];
    assert_eq!(
        e.insert_schema(&b"x".to_vec(), &schema, &out_of_range),
        Err(CacheError::SerializationError)
    );
    let empty_index = vec![IndexDefinition::SortedInverted(vec![])];
    assert_eq!(
        e.insert_schema(&b"x".to_vec(), &schema, &empty_index),
        Err(CacheError::SerializationError)
    );
}

#[test]
fn query_of_unknown_name_is_schema_not_found() {
    let e = registered_engine(16);
    assert_eq!(
        e.query(&b"nobody".to_vec(), &range_query(0, 0, 0)),
        Err(CacheError::SchemaNotFound)
    );
}

#[test]
fn query_without_indexable_clause_is_reported() {
    let mut e = registered_engine(16);
    e.insert(&customer_record(1, "a")).unwrap();
    // no clause at all
    let empty = QueryExpression { clauses: vec![] };
    assert_eq!(
        e.query(&b"customers".to_vec(), &empty),
        Err(CacheError::IndexLookupInvariantViolation)
    );
    // a clause over a field no index covers
    assert_eq!(
        e.query(&b"customers".to_vec(), &range_query(1, 0, 0)),
        Err(CacheError::IndexLookupInvariantViolation)
    );
}

fn two_index_engine(chunk: usize) -> StorageEngine {
    let mut e = engine_with_chunk(chunk);
    let schema = Schema {
        identifier: Some(SchemaIdentifier { id: 1, version: 1 }),
        fields: vec![
            FieldDefinition { name: b"id".to_vec(), typ: FieldType::Int },
            FieldDefinition { name: b"group".to_vec(), typ: FieldType::Int },
        ],
        primary_index: vec![0],
    };
    let indexes = vec![
        IndexDefinition::SortedInverted(vec![0]),
        IndexDefinition::SortedInverted(vec![1]),
    ];
    e.insert_schema(&b"items".to_vec(), &schema, &indexes).unwrap();
    e
}

fn item(id: i64, group: i64) -> Record {
    Record {
        schema_id: Some(SchemaIdentifier { id: 1, version: 1 }),
        values: vec![FieldValue::Int(id), FieldValue::Int(group)],
    }
}

fn intersection_result(chunk: usize) -> Vec<Record> {
    let mut e = two_index_engine(chunk);
    for (id, group) in [(1, 1), (2, 2), (3, 1), (4, 2), (5, 1), (6, 1)] {
        e.insert(&item(id, group)).unwrap();
    }
    let q = QueryExpression {
        clauses: vec![
            Clause { field: 0, op: Op::Range(FieldValue::Int(2), FieldValue::Int(5)) },
            Clause { field: 1, op: Op::Eq(FieldValue::Int(1)) },
        ],
    };
    e.query(&b"items".to_vec(), &q).unwrap()
}

#[test]
fn intersection_matches_both_clauses_for_every_chunk_size() {
    let expected = vec![item(3, 1), item(5, 1)];
    for chunk in [0, 1, 2, 3, 100] {
        assert_eq!(intersection_result(chunk), expected, "chunk size {}", chunk);
    }
}

#[test]
fn snapshot_taken_before_a_write_is_isolated() {
    let mut e = registered_engine(16);
    let r1 = customer_record(1, "a");
    e.insert(&r1).unwrap();

    let snapshot = e.clone();
    let r2 = customer_record(2, "b");
    e.insert(&r2).unwrap();
    e.delete(&key_of(&r1)).unwrap();

    // the reader's view is the complete pre-write state across all sub-stores
    assert_eq!(snapshot.get(&key_of(&r1)).unwrap(), r1);
    assert_eq!(snapshot.get(&key_of(&r2)), Err(CacheError::KeyNotFound));
    let seen = snapshot.query(&b"customers".to_vec(), &range_query(0, i64::MIN, i64::MAX)).unwrap();
    assert_eq!(seen, vec![r1.clone()]);
    // and the writer's view is the complete post-write state
    let now = e.query(&b"customers".to_vec(), &range_query(0, i64::MIN, i64::MAX)).unwrap();
    assert_eq!(now, vec![r2.clone()]);
}

#[test]
fn composite_index_orders_by_both_fields() {
    let mut e = engine_with_chunk(4);
    let schema = Schema {
        identifier: Some(SchemaIdentifier { id: 1, version: 1 }),
        fields: vec![
            FieldDefinition { name: b"a".to_vec(), typ: FieldType::Int },
            FieldDefinition { name: b"b".to_vec(), typ: FieldType::Int },
            FieldDefinition { name: b"pk".to_vec(), typ: FieldType::Int },
        ],
        primary_index: vec![2],
    };
    let indexes = vec![IndexDefinition::SortedInverted(vec![0, 1])];
    e.insert_schema(&b"pairs".to_vec(), &schema, &indexes).unwrap();
    let mk = |a: i64, b: i64, pk: i64| Record {
        schema_id: Some(SchemaIdentifier { id: 1, version: 1 }),
        values: vec![FieldValue::Int(a), FieldValue::Int(b), FieldValue::Int(pk)],
    };
    e.insert(&mk(2, 1, 1)).unwrap();
    e.insert(&mk(1, 2, 2)).unwrap();
    e.insert(&mk(1, 1, 3)).unwrap();
    e.insert(&mk(2, 0, 4)).unwrap();
    let got = e.query(&b"pairs".to_vec(), &range_query(0, i64::MIN, i64::MAX)).unwrap();
    let pairs: Vec<(i64, i64)> = got
        .iter()
        .map(|r| match (&r.values[0], &r.values[1]) {
            (FieldValue::Int(a), FieldValue::Int(b)) => (*a, *b),
            _ => panic!("unexpected field kind"),
        })
        .collect();
    assert_eq!(pairs, vec![(1, 1), (1, 2), (2, 0), (2, 1)]);
}
