use kvstore::codec::{compress, decompress};
use kvstore::database::{Database, StorageKind};
use kvstore::error::DatabaseError;
use kvstore::index::Index;
use kvstore::query::{Query, QueryCondition};
use kvstore::storage::Storage;
use kvstore::btree::BTreeStorage;
use kvstore::hashmap::HashMapStorage;
use kvstore::types::{current_time_millis, Value, ValueWithTTL};

fn wrapped_eq(a: &ValueWithTTL, b: &ValueWithTTL) -> bool {
    a.value == b.value && a.expires_at == b.expires_at
}

fn round_trips(w: ValueWithTTL) {
    let packed = compress(&w);
    let back = decompress(packed.as_slice()).expect("a compressed value must decompress");
    assert!(wrapped_eq(&w, &back));
}

#[test]
fn codec_round_trip_all_variants() {
    round_trips(ValueWithTTL { value: Value::Null, expires_at: None });
    round_trips(ValueWithTTL { value: Value::Bool(true), expires_at: Some(12345) });
    round_trips(ValueWithTTL { value: Value::Bool(false), expires_at: None });
    round_trips(ValueWithTTL { value: Value::Int(-42), expires_at: Some(u64::MAX) });
    round_trips(ValueWithTTL { value: Value::Int(i64::MIN), expires_at: None });
    round_trips(ValueWithTTL { value: Value::Int(i64::MAX), expires_at: Some(0) });
    round_trips(ValueWithTTL { value: Value::Float((-0.5f64).to_bits()), expires_at: None });
    round_trips(ValueWithTTL { value: Value::Float(f64::NAN.to_bits()), expires_at: None });
    round_trips(ValueWithTTL { value: Value::String(String::new()), expires_at: None });
    round_trips(ValueWithTTL {
        value: Value::String("héllo, wörld — ☃".to_string()),
        expires_at: Some(777),
    });
}

#[test]
fn codec_actually_compresses() {
    let long = "a".repeat(10_000);
    let w = ValueWithTTL { value: Value::String(long), expires_at: None };
    let packed = compress(&w);
    // the canonical layout alone takes four bytes per character; a real
    // compressor must beat that on repetitive input
    assert!(packed.len() < 10_000);
    round_trips(w);
}

#[test]
fn codec_rejects_garbage() {
    let r = decompress(&[0u8, 1, 2, 3, 4, 5, 6, 7, 8, 9]);
    assert!(matches!(r, Err(DatabaseError::StorageError(_))));
}

#[test]
fn value_ordering_within_variants() {
    assert!(Value::Int(3) < Value::Int(5));
    assert!(Value::Bool(false) < Value::Bool(true));
    assert!(Value::String("abc".to_string()) < Value::String("abd".to_string()));
    assert!(Value::String("ab".to_string()) < Value::String("abc".to_string()));
    assert!(Value::Float(1.5f64.to_bits()) < Value::Float(2.5f64.to_bits()));
    assert!(Value::Float((-2.5f64).to_bits()) < Value::Float((-1.5f64).to_bits()));
    assert!(Value::Float((-1.0f64).to_bits()) < Value::Float(1.0f64.to_bits()));
    // negative zero equals positive zero under the IEEE order
    assert_eq!(
        Value::Float((-0.0f64).to_bits()).partial_cmp(&Value::Float(0.0f64.to_bits())),
        Some(std::cmp::Ordering::Equal)
    );
}

#[test]
fn value_ordering_across_variants_is_absent() {
    assert_eq!(Value::Int(1).partial_cmp(&Value::Bool(true)), None);
    assert_eq!(Value::Null.partial_cmp(&Value::String("x".to_string())), None);
    let nan = Value::Float(f64::NAN.to_bits());
    assert_eq!(nan.partial_cmp(&Value::Float(1.0f64.to_bits())), None);
}

#[test]
fn index_insert_lookup_remove() {
    let mut idx = Index::new();
    idx.insert("k1", &Value::Int(7));
    idx.insert("k2", &Value::Int(7));
    let keys = idx.get(&Value::Int(7)).expect("bucket must exist");
    assert_eq!(keys, vec!["k1".to_string(), "k2".to_string()]);
    idx.remove("k1", &Value::Int(7));
    let keys = idx.get(&Value::Int(7)).expect("bucket must survive");
    assert_eq!(keys, vec!["k2".to_string()]);
    idx.remove("k2", &Value::Int(7));
    // no empty bucket persists
    assert!(idx.get(&Value::Int(7)).is_none());
}

#[test]
fn btree_storage_iterates_in_key_order() {
    let mut s = BTreeStorage::new();
    s.insert("pear", ValueWithTTL { value: Value::Int(3), expires_at: None });
    s.insert("apple", ValueWithTTL { value: Value::Int(1), expires_at: None });
    s.insert("orange", ValueWithTTL { value: Value::Int(2), expires_at: None });
    let keys: Vec<String> = s.iter().into_iter().map(|p| p.0).collect();
    assert_eq!(keys, vec!["apple".to_string(), "orange".to_string(), "pear".to_string()]);
}

#[test]
fn hashmap_storage_basic_operations() {
    let mut s = HashMapStorage::new();
    s.insert("a", ValueWithTTL { value: Value::Int(1), expires_at: None });
    s.insert("a", ValueWithTTL { value: Value::Int(2), expires_at: None });
    assert_eq!(s.iter().len(), 1);
    let got = s.get("a").expect("present");
    assert!(got.value == Value::Int(2));
    let removed = s.remove("a").expect("present");
    assert!(removed.value == Value::Int(2));
    assert!(s.get("a").is_none());
    assert!(s.remove("a").is_none());
}

#[test]
fn storage_sweep_removes_only_expired() {
    let mut s = BTreeStorage::new();
    s.insert("dies", ValueWithTTL { value: Value::Int(1), expires_at: Some(1000) });
    s.insert("lives", ValueWithTTL { value: Value::Int(2), expires_at: None });
    s.insert("later", ValueWithTTL { value: Value::Int(3), expires_at: Some(5000) });
    s.remove_expired(2000);
    assert!(s.get("dies").is_none());
    assert!(s.get("lives").is_some());
    assert!(s.get("later").is_some());
    // an instant exactly at the expiry is not yet past it
    s.remove_expired(5000);
    assert!(s.get("later").is_some());
    s.remove_expired(5001);
    assert!(s.get("later").is_none());
}

#[test]
fn database_insert_get_remove() {
    let mut db = Database::new(StorageKind::BTree);
    db.insert("k", Value::Int(9), None);
    let got = db.get("k").expect("present");
    assert!(got == Value::Int(9));
    db.remove("k");
    assert!(db.get("k").is_none());
}

#[test]
fn database_new_fixes_the_chosen_backend() {
    let mut ordered = Database::new(StorageKind::BTree);
    ordered.insert("b", Value::Int(2), None);
    ordered.insert("a", Value::Int(1), None);
    let (entries, _) = ordered.export_state();
    let keys: Vec<&str> = entries.iter().map(|p| p.0.as_str()).collect();
    assert_eq!(keys, vec!["a", "b"]);
    let mut unordered = Database::new(StorageKind::HashMap);
    unordered.insert("b", Value::Int(2), None);
    unordered.insert("a", Value::Int(1), None);
    let (entries, _) = unordered.export_state();
    let keys: Vec<&str> = entries.iter().map(|p| p.0.as_str()).collect();
    assert_eq!(keys, vec!["b", "a"]);
}

#[test]
fn remove_of_absent_key_changes_nothing() {
    let mut db = Database::new(StorageKind::BTree);
    db.insert("a", Value::Int(1), None);
    db.insert("b", Value::Int(1), None);
    let (e1, b1) = db.export_state();
    db.remove("missing");
    let (e2, b2) = db.export_state();
    assert_eq!(e1.len(), e2.len());
    for (p, q) in e1.iter().zip(e2.iter()) {
        assert_eq!(p.0, q.0);
        assert!(wrapped_eq(&p.1, &q.1));
    }
    assert_eq!(b1.len(), b2.len());
    for (p, q) in b1.iter().zip(b2.iter()) {
        assert!(p.0 == q.0);
        assert_eq!(p.1, q.1);
    }
}

#[test]
fn database_overwrite_keeps_index_exact() {
    let mut db = Database::new(StorageKind::HashMap);
    db.insert("k", Value::Int(1), None);
    db.insert("k", Value::Int(2), None);
    // the old value's bucket no longer lists the key
    assert!(db.index.get(&Value::Int(1)).is_none());
    let keys = db.index.get(&Value::Int(2)).expect("bucket must exist");
    assert_eq!(keys, vec!["k".to_string()]);
}

#[test]
fn database_index_stays_consistent() {
    let mut db = Database::new(StorageKind::BTree);
    db.insert("a", Value::Int(1), None);
    db.insert("b", Value::Int(1), None);
    db.insert("c", Value::Int(2), None);
    db.remove("a");
    let ones = db.index.get(&Value::Int(1)).expect("bucket must exist");
    assert_eq!(ones, vec!["b".to_string()]);
    let twos = db.index.get(&Value::Int(2)).expect("bucket must exist");
    assert_eq!(twos, vec!["c".to_string()]);
    db.remove("b");
    assert!(db.index.get(&Value::Int(1)).is_none());
}

#[test]
fn ttl_sweep_on_database() {
    let mut db = Database::new(StorageKind::BTree);
    db.insert_at("short", Value::Int(1), Some(1), 1000);
    db.insert_at("forever", Value::Int(2), None, 1000);
    // two milliseconds later the short entry is past its expiry
    db.remove_expired_at(1003);
    assert!(db.get("short").is_none());
    assert!(db.get("forever").is_some());
    // an entry without expiry survives any amount of elapsed time
    db.remove_expired_at(u64::MAX);
    assert!(db.get("forever").is_some());
    // the swept key leaves the index too
    assert!(db.index.get(&Value::Int(1)).is_none());
}

#[test]
fn expired_value_still_readable_before_sweep() {
    let mut db = Database::new(StorageKind::HashMap);
    db.insert_at("k", Value::Int(1), Some(1), 1000);
    // reads never filter by expiry; sweeping is explicit
    assert!(db.get("k").is_some());
    db.remove_expired_at(1003);
    assert!(db.get("k").is_none());
}

#[test]
fn query_single_condition() {
    let mut db = Database::new(StorageKind::BTree);
    db.insert("a", Value::Int(5), None);
    db.insert("b", Value::Int(10), None);
    let mut q = Query::new();
    q.add_condition(QueryCondition::GreaterThan("a".to_string(), Value::Int(3)));
    let results = db.execute(&q);
    assert_eq!(results.len(), 1);
    assert!(results[0] == Value::Int(5));
    let mut q2 = Query::new();
    q2.add_condition(QueryCondition::GreaterThan("a".to_string(), Value::Int(10)));
    assert_eq!(db.execute(&q2).len(), 0);
}

#[test]
fn query_conjunction_with_distinct_keys_is_empty() {
    let mut db = Database::new(StorageKind::BTree);
    db.insert("k1", Value::Int(1), None);
    db.insert("k2", Value::Int(2), None);
    let mut q = Query::new();
    q.add_condition(QueryCondition::Equals("k1".to_string(), Value::Int(1)));
    q.add_condition(QueryCondition::Equals("k2".to_string(), Value::Int(2)));
    assert_eq!(db.execute(&q).len(), 0);
}

#[test]
fn query_operators() {
    let mut db = Database::new(StorageKind::BTree);
    db.insert("a", Value::Int(5), None);
    let hit = |c: QueryCondition| {
        let mut q = Query::new();
        q.add_condition(c);
        db.execute(&q).len() == 1
    };
    assert!(hit(QueryCondition::Equals("a".to_string(), Value::Int(5))));
    assert!(hit(QueryCondition::NotEquals("a".to_string(), Value::Int(6))));
    assert!(hit(QueryCondition::GreaterThanOrEqual("a".to_string(), Value::Int(5))));
    assert!(hit(QueryCondition::LessThan("a".to_string(), Value::Int(6))));
    assert!(hit(QueryCondition::LessThanOrEqual("a".to_string(), Value::Int(5))));
    assert!(!hit(QueryCondition::LessThan("a".to_string(), Value::Int(5))));
    // incomparable means the condition fails, never an error
    assert!(!hit(QueryCondition::GreaterThan("a".to_string(), Value::Bool(true))));
}

#[test]
fn snapshot_round_trip() {
    let mut db = Database::new(StorageKind::BTree);
    db.insert("x", Value::Int(1), None);
    db.insert("y", Value::String("two".to_string()), None);
    db.insert_at("z", Value::Bool(true), Some(1000), 5000);
    let (entries, buckets) = db.export_state();
    let restored = Database::import_state(StorageKind::BTree, entries, buckets)
        .expect("an exported state must import");
    assert!(restored.get("x").expect("present") == Value::Int(1));
    assert!(restored.get("y").expect("present") == Value::String("two".to_string()));
    assert!(restored.get("z").expect("present") == Value::Bool(true));
    let (e1, b1) = db.export_state();
    let (e2, b2) = restored.export_state();
    assert_eq!(e1.len(), e2.len());
    assert_eq!(b1.len(), b2.len());
    for (p, q) in e1.iter().zip(e2.iter()) {
        assert_eq!(p.0, q.0);
        assert!(wrapped_eq(&p.1, &q.1));
    }
    for (p, q) in b1.iter().zip(b2.iter()) {
        assert!(p.0 == q.0);
        assert_eq!(p.1, q.1);
    }
}

#[test]
fn snapshot_preserves_bucket_order() {
    let mut db = Database::new(StorageKind::HashMap);
    db.insert("a", Value::Int(2), None);
    db.insert("b", Value::Int(1), None);
    db.insert("a", Value::Int(1), None);
    // the bucket records insertion history: b entered it before a did
    assert_eq!(
        db.index.get(&Value::Int(1)).expect("bucket must exist"),
        vec!["b".to_string(), "a".to_string()]
    );
    let (entries, buckets) = db.export_state();
    let restored = Database::import_state(StorageKind::HashMap, entries, buckets)
        .expect("an exported state must import");
    // a load restores the index verbatim, not rebuilt in storage order
    assert_eq!(
        restored.index.get(&Value::Int(1)).expect("bucket must exist"),
        vec!["b".to_string(), "a".to_string()]
    );
}

#[test]
fn snapshot_import_rejects_inconsistent_state() {
    let mut db = Database::new(StorageKind::BTree);
    db.insert("x", Value::Int(1), None);
    let (entries, _buckets) = db.export_state();
    // an index claiming a key the storage does not hold must be refused
    let bad_buckets = vec![(Value::Int(1), vec!["ghost".to_string()])];
    let r = Database::import_state(StorageKind::BTree, entries, bad_buckets);
    assert!(matches!(r, Err(DatabaseError::SerializationError(_))));
}

#[test]
fn snapshot_import_rejects_unsorted_ordered_backend() {
    let entries = vec![
        ("b".to_string(), ValueWithTTL { value: Value::Int(1), expires_at: None }),
        ("a".to_string(), ValueWithTTL { value: Value::Int(2), expires_at: None }),
    ];
    let r = Database::import_state(StorageKind::BTree, entries, vec![]);
    assert!(matches!(r, Err(DatabaseError::SerializationError(_))));
}

#[test]
fn transaction_rolls_back_exactly_without_commit() {
    let mut db = Database::new(StorageKind::BTree);
    db.insert("seed", Value::Int(0), None);
    let mut tx = db.begin_transaction();
    tx.insert("k", Value::Int(1), None);
    // scope ends without a commit: the automatic rollback runs, once
    let (db, rolled_back) = tx.close();
    assert!(rolled_back);
    // rollback is a documented no-op hook: the write itself stays
    assert!(db.get("k").is_some());
}

#[test]
fn transaction_commit_suppresses_rollback() {
    let db = Database::new(StorageKind::BTree);
    let mut tx = db.begin_transaction();
    tx.insert("k", Value::Int(1), None);
    assert!(tx.commit().is_ok());
    let (db, rolled_back) = tx.close();
    assert!(!rolled_back);
    assert!(db.get("k").is_some());
}

#[test]
fn explicit_rollback_hands_the_database_back() {
    let db = Database::new(StorageKind::HashMap);
    let mut tx = db.begin_transaction();
    tx.insert("k", Value::Int(1), None);
    let (db, result) = tx.rollback();
    assert!(result.is_ok());
    assert!(db.get("k").is_some());
}

#[test]
fn error_messages_carry_their_category() {
    let e = DatabaseError::StorageError("boom".to_string());
    assert_eq!(e.message(), "storage error: boom");
    let e = DatabaseError::QueryError("q".to_string());
    assert_eq!(e.message(), "query error: q");
    let e = DatabaseError::SerializationError("s".to_string());
    assert_eq!(e.message(), "serialization error: s");
    let e = DatabaseError::IOError("io".to_string());
    assert_eq!(e.message(), "io error: io");
}

#[test]
fn wall_clock_wrappers() {
    let now = current_time_millis();
    // well after the epoch, on any machine this runs on
    assert!(now > 1_600_000_000_000);
    let w = ValueWithTTL::new(Value::Int(1), None);
    assert!(!w.is_expired());
    let w = ValueWithTTL::new_at(Value::Int(1), Some(10), 1000);
    assert_eq!(w.expires_at, Some(1010));
    assert!(!w.is_expired_at(1010));
    assert!(w.is_expired_at(1011));
}
