use isar_core::collection::IsarCollection;
use isar_core::dump::DumpSet;
use isar_core::error::IsarError;
use isar_core::instance::IsarInstance;
use isar_core::object::data_type::DataType;
use isar_core::schema::collection_schema::{CollectionSchema, IndexPropertySchema, IndexSchema};
use isar_core::schema::index_schema::IndexType;
use isar_core::schema::property_schema::PropertySchema;
use isar_core::txn::IsarTxn;

fn int_collection(name: &str, field: &str, indexed: bool) -> CollectionSchema {
    let indexes = if indexed {
        vec![IndexSchema::new(
            field,
            vec![IndexPropertySchema::new(field, IndexType::Value, true)],
            false,
        )]
    } else {
        vec![]
    };
    CollectionSchema::new(
        name,
        vec![PropertySchema::new(field, DataType::Int)],
        indexes,
        vec![],
    )
}

fn int_object(col: &IsarCollection, value: i32) -> Vec<u8> {
    let mut builder = col.get_object_builder().unwrap();
    builder.write_int(value);
    builder.finish().as_bytes().to_vec()
}

fn id_bytes(col: &IsarCollection, id: i64) -> Vec<u8> {
    col.get_object_id(id).as_bytes()
}

fn data_set(pairs: Vec<(Vec<u8>, Vec<u8>)>) -> DumpSet {
    let set = DumpSet::from_pairs(pairs.clone());
    let mut same = DumpSet::new();
    for (key, val) in pairs {
        assert!(set.contains(key.clone(), val.clone()));
        same.insert(key, val);
    }
    assert_eq!(set, same);
    set
}

fn index_dump(col: &IsarCollection, txn: &IsarTxn, index: usize) -> DumpSet {
    col.debug_get_index(index)
        .debug_dump(col.debug_get_index_db(txn, index).unwrap())
}

#[test]
fn test_put_new() {
    let isar = IsarInstance::open(&vec![int_collection("col", "field1", false)]).unwrap();
    let col = isar.get_collection(0).unwrap();
    let mut txn = isar.begin_txn(true);

    let object1 = int_object(col, 1111111);
    let oid1 = col.put(&mut txn, None, &object1, false).unwrap();

    let object2 = int_object(col, 123123123);
    let oid2 = col.put(&mut txn, None, &object2, false).unwrap();

    let object3 = int_object(col, 123123123);
    let oid3 = col.put(&mut txn, None, &object3, false).unwrap();

    assert_eq!(
        col.debug_dump(&txn).unwrap(),
        data_set(vec![
            (id_bytes(col, oid1), object1.clone()),
            (id_bytes(col, oid2), object2.clone()),
            (id_bytes(col, oid3), object3.clone()),
        ])
    );
    assert_eq!((oid1, oid2, oid3), (1, 2, 3));
}

#[test]
fn test_put_existing() {
    let isar = IsarInstance::open(&vec![int_collection("col", "field1", false)]).unwrap();
    let col = isar.get_collection(0).unwrap();
    let mut txn = isar.begin_txn(true);

    let object1 = int_object(col, 1111111);
    let oid1 = col.put(&mut txn, None, &object1, false).unwrap();

    let object2 = int_object(col, 123123123);
    let oid2 = col.put(&mut txn, Some(oid1), &object2, false).unwrap();
    assert_eq!(oid1, oid2);

    let new_oid = oid1 + 1;
    let object3 = int_object(col, 55555555);
    let oid3 = col.put(&mut txn, Some(new_oid), &object3, false).unwrap();
    assert_eq!(new_oid, oid3);

    assert_eq!(
        col.debug_dump(&txn).unwrap(),
        data_set(vec![
            (id_bytes(col, oid1), object2.clone()),
            (id_bytes(col, new_oid), object3.clone()),
        ])
    );
}

#[test]
fn test_put_creates_index() {
    let isar = IsarInstance::open(&vec![int_collection("col", "field1", true)]).unwrap();
    let col = isar.get_collection(0).unwrap();
    let mut txn = isar.begin_txn(true);

    let object = int_object(col, 1234);
    let oid = col.put(&mut txn, None, &object, false).unwrap();

    let index = col.debug_get_index(0);
    assert_eq!(
        index_dump(col, &txn, 0),
        data_set(vec![(index.debug_create_key(&object), id_bytes(col, oid))])
    );
}

#[test]
fn test_put_clears_old_index() {
    let isar = IsarInstance::open(&vec![int_collection("col", "field1", true)]).unwrap();
    let col = isar.get_collection(0).unwrap();
    let mut txn = isar.begin_txn(true);

    let object = int_object(col, 1234);
    let oid = col.put(&mut txn, None, &object, false).unwrap();

    let object2 = int_object(col, 5678);
    col.put(&mut txn, Some(oid), &object2, false).unwrap();

    let index = col.debug_get_index(0);
    assert_eq!(
        index_dump(col, &txn, 0),
        data_set(vec![(index.debug_create_key(&object2), id_bytes(col, oid))])
    );
}

#[test]
fn test_delete() {
    let isar = IsarInstance::open(&vec![int_collection("col", "field1", true)]).unwrap();
    let col = isar.get_collection(0).unwrap();
    let mut txn = isar.begin_txn(true);

    let object = int_object(col, 12345);
    let oid = col.put(&mut txn, None, &object, false).unwrap();

    let object2 = int_object(col, 54321);
    let oid2 = col.put(&mut txn, None, &object2, false).unwrap();

    col.delete(&mut txn, oid).unwrap();

    assert_eq!(
        col.debug_dump(&txn).unwrap(),
        data_set(vec![(id_bytes(col, oid2), object2.clone())]),
    );

    let index = col.debug_get_index(0);
    assert_eq!(
        index_dump(col, &txn, 0),
        data_set(vec![(index.debug_create_key(&object2), id_bytes(col, oid2))]),
    );
}

#[test]
fn test_clear() {
    let isar = IsarInstance::open(&vec![
        int_collection("col1", "f1", true),
        int_collection("col2", "f2", true),
    ])
    .unwrap();
    let col1 = isar.get_collection(0).unwrap();
    let col2 = isar.get_collection(1).unwrap();
    let mut txn = isar.begin_txn(true);

    let object1 = int_object(col1, 12345);
    let object2 = int_object(col1, 54321);

    col1.put(&mut txn, None, &object1, false).unwrap();
    col1.put(&mut txn, None, &object2, false).unwrap();
    let oid1 = col2.put(&mut txn, None, &object1, false).unwrap();
    let oid2 = col2.put(&mut txn, None, &object2, false).unwrap();

    col1.clear(&mut txn).unwrap();

    assert!(col1.debug_dump(&txn).unwrap().is_empty());
    assert!(index_dump(col1, &txn, 0).is_empty());

    assert_eq!(
        col2.debug_dump(&txn).unwrap(),
        data_set(vec![
            (id_bytes(col2, oid1), object1.clone()),
            (id_bytes(col2, oid2), object2.clone()),
        ]),
    );

    let index2 = col2.debug_get_index(0);
    assert_eq!(
        index_dump(col2, &txn, 0),
        data_set(vec![
            (index2.debug_create_key(&object1), id_bytes(col2, oid1)),
            (index2.debug_create_key(&object2), id_bytes(col2, oid2)),
        ])
    );
}

#[test]
fn test_delete_twice_is_idempotent() {
    let isar = IsarInstance::open(&vec![int_collection("col", "field1", true)]).unwrap();
    let col = isar.get_collection(0).unwrap();
    let mut txn = isar.begin_txn(true);
    let a = col.put(&mut txn, None, &int_object(col, 1), false).unwrap();
    let b = col.put(&mut txn, None, &int_object(col, 2), false).unwrap();

    assert_eq!(col.delete(&mut txn, a).ok(), Some(true));
    let data_after_one = col.debug_dump(&txn).unwrap();
    let index_after_one = index_dump(col, &txn, 0);
    assert_eq!(col.delete(&mut txn, a).ok(), Some(false));
    assert_eq!(col.debug_dump(&txn).unwrap(), data_after_one);
    assert_eq!(index_dump(col, &txn, 0), index_after_one);
    assert_eq!(col.get(&txn, b).unwrap().map(|o| o.to_vec()), Some(int_object(col, 2)));
    assert_eq!(col.get(&txn, a).unwrap(), None);
}

#[test]
fn test_put_rejects_malformed_object() {
    let isar = IsarInstance::open(&vec![int_collection("col", "field1", false)]).unwrap();
    let col = isar.get_collection(0).unwrap();
    let mut txn = isar.begin_txn(true);
    let r = col.put(&mut txn, None, &[1, 2], false);
    assert!(matches!(r, Err(IsarError::IllegalArgument { .. })));
    // the failure poisons the transaction
    let again = col.put(&mut txn, None, &int_object(col, 1), false);
    assert!(matches!(again, Err(IsarError::TransactionPoisoned)));
    assert!(matches!(isar.get_collection(0).unwrap().get(&txn, 1), Err(IsarError::TransactionPoisoned)));
}

#[test]
fn test_read_txn_refuses_writes() {
    let isar = IsarInstance::open(&vec![int_collection("col", "field1", false)]).unwrap();
    let col = isar.get_collection(0).unwrap();
    let mut txn = isar.begin_txn(false);
    let r = col.put(&mut txn, None, &int_object(col, 1), false);
    assert!(matches!(r, Err(IsarError::IllegalArgument { .. })));
    assert!(matches!(col.delete(&mut txn, 1), Err(IsarError::IllegalArgument { .. })));
    assert!(matches!(col.clear(&mut txn), Err(IsarError::IllegalArgument { .. })));
    assert_eq!(col.get(&txn, 1).unwrap(), None);
}

#[test]
fn test_commit_and_snapshot() {
    let mut isar = IsarInstance::open(&vec![int_collection("col", "field1", false)]).unwrap();
    let object = int_object(isar.get_collection(0).unwrap(), 7);
    let reader = isar.begin_txn(false);
    let mut writer = isar.begin_txn(true);
    let id = isar
        .get_collection(0)
        .unwrap()
        .put(&mut writer, None, &object, false)
        .unwrap();
    // within the write transaction the object is visible at once
    assert_eq!(
        isar.get_collection(0).unwrap().get(&writer, id).unwrap().map(|o| o.to_vec()),
        Some(object.clone())
    );
    // the reader keeps the state of its start
    assert_eq!(isar.get_collection(0).unwrap().get(&reader, id).unwrap(), None);
    isar.commit(writer).unwrap();
    let later = isar.begin_txn(false);
    assert_eq!(
        isar.get_collection(0).unwrap().get(&later, id).unwrap().map(|o| o.to_vec()),
        Some(object)
    );
    // an aborted transaction leaves nothing behind
    let mut dropped = isar.begin_txn(true);
    isar.get_collection(0).unwrap().delete(&mut dropped, id).unwrap();
    dropped.abort();
    let last = isar.begin_txn(false);
    assert!(isar.get_collection(0).unwrap().get(&last, id).unwrap().is_some());
}

#[test]
fn test_generated_ids_follow_largest_id() {
    let isar = IsarInstance::open(&vec![int_collection("col", "field1", false)]).unwrap();
    let col = isar.get_collection(0).unwrap();
    let mut txn = isar.begin_txn(true);
    assert_eq!(col.put(&mut txn, Some(40), &int_object(col, 1), false).unwrap(), 40);
    assert_eq!(col.put(&mut txn, None, &int_object(col, 2), false).unwrap(), 41);
    assert_eq!(col.put(&mut txn, Some(-5), &int_object(col, 3), false).unwrap(), -5);
    assert_eq!(col.put(&mut txn, Some(i64::MIN), &int_object(col, 4), false).unwrap(), 42);
    assert!(col.verify_object_id(col.get_object_id(1)).is_ok());
    assert!(col
        .verify_object_id(isar_core::key::IntKey::new(9, 1))
        .is_err());
}
