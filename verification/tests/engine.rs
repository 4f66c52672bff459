use isar_core::error::{illegal_arg, IsarError};
use isar_core::instance::{check_version, IsarInstance};
use isar_core::key::IntKey;
use isar_core::link::Link;
use isar_core::lmdb::error::{lmdb_result, LmdbError};
use isar_core::object::data_type::DataType;
use isar_core::object::float::{is_nan32, le32, lt32, lt64};
use isar_core::query::filter::{
    ByteListContainsCond, Condition, DoubleBetweenCond, Filter, FloatBetweenCond,
    IntListContainsCond, LongBetweenCond, LongListContainsCond, StringEndsWithCond,
};
use isar_core::query::query::{AggregateOp, AggregateResult};
use isar_core::query::result_ids::ResultIds;
use isar_core::raw_object_set::{RawObject, RawObjectSet};
use isar_core::schema::collection_schema::{CollectionSchema, IndexPropertySchema, IndexSchema};
use isar_core::schema::index_schema::IndexType;
use isar_core::schema::property_schema::PropertySchema;
use isar_core::store::Db;
use isar_core::txn::{IsarTxn, TxnData};

fn pairs(db: &Db) -> Vec<(Vec<u8>, Vec<u8>)> {
    (0..db.len())
        .map(|i| (db.key_at(i).to_vec(), db.val_at(i).to_vec()))
        .collect()
}

#[test]
fn store_keeps_pairs_in_order() {
    let mut db = Db::new(true);
    db.put(b"b", b"2");
    db.put(b"a", b"9");
    db.put(b"b", b"1");
    db.put(b"ab", b"5");
    db.put(b"b", b"1");
    assert_eq!(
        pairs(&db),
        vec![
            (b"a".to_vec(), b"9".to_vec()),
            (b"ab".to_vec(), b"5".to_vec()),
            (b"b".to_vec(), b"1".to_vec()),
            (b"b".to_vec(), b"2".to_vec()),
        ]
    );
    assert_eq!(db.get(b"b"), Some(&b"1"[..]));
    assert_eq!(db.get(b"c"), None);
    assert_eq!(db.find(b"b", b"2"), Some(3));
    assert_eq!(db.find(b"b", b"3"), None);
    assert_eq!(db.lower_bound(b"ab"), 1);
    assert_eq!(db.upper_bound(b"ab"), 2);
    assert_eq!(db.range(b"ab", b"b"), (1, 4));
    assert_eq!(db.range(b"c", b"a"), (4, 4));

    let keys = |entries: Vec<isar_core::store::Entry>| -> Vec<(Vec<u8>, Vec<u8>)> {
        entries.into_iter().map(|e| (e.key, e.val)).collect()
    };
    assert_eq!(
        keys(db.scan(b"ab", b"b", false, false)),
        vec![
            (b"b".to_vec(), b"2".to_vec()),
            (b"b".to_vec(), b"1".to_vec()),
            (b"ab".to_vec(), b"5".to_vec()),
        ]
    );
    assert_eq!(
        keys(db.scan(b"a", b"z", true, true)),
        vec![
            (b"a".to_vec(), b"9".to_vec()),
            (b"ab".to_vec(), b"5".to_vec()),
            (b"b".to_vec(), b"1".to_vec()),
        ]
    );
    assert_eq!(
        keys(db.scan(b"b", b"b", true, false)),
        vec![(b"b".to_vec(), b"2".to_vec())]
    );

    assert!(db.delete_pair(b"b", b"1"));
    assert!(!db.delete_pair(b"b", b"1"));
    db.delete_key_prefix(b"a");
    assert_eq!(pairs(&db), vec![(b"b".to_vec(), b"2".to_vec())]);
    assert!(db.delete_key(b"b"));
    assert!(!db.delete_key(b"b"));
    assert_eq!(db.len(), 0);

    // one value per key where duplicates are not allowed
    let mut single = Db::new(false);
    single.put(b"k", b"1");
    single.put(b"k", b"2");
    single.put(b"a", b"3");
    assert_eq!(
        pairs(&single),
        vec![(b"a".to_vec(), b"3".to_vec()), (b"k".to_vec(), b"2".to_vec())]
    );
    let copy = single.copy();
    single.clear();
    assert_eq!(single.len(), 0);
    assert_eq!(copy.len(), 2);
    assert!(!copy.is_dup());
    assert!(copy.dump(Some(b"k")).contains(b"k".to_vec(), b"2".to_vec()));
    assert!(!copy.dump(Some(b"k")).contains(b"a".to_vec(), b"3".to_vec()));
}

#[test]
fn id_keys_sort_by_prefix_then_id() {
    assert_eq!(IntKey::new(1, 0).as_bytes(), vec![0, 1, 0x80, 0, 0, 0, 0, 0, 0, 0]);
    assert_eq!(IntKey::new(0x0102, i64::MIN).as_bytes(), vec![1, 2, 0, 0, 0, 0, 0, 0, 0, 0]);
    assert_eq!(IntKey::new(0, -1).as_bytes(), vec![0, 0, 0x7f, 255, 255, 255, 255, 255, 255, 255]);
    let keys = [
        IntKey::new(0, i64::MIN),
        IntKey::new(0, -5),
        IntKey::new(0, 0),
        IntKey::new(0, 5),
        IntKey::new(0, i64::MAX),
        IntKey::new(1, i64::MIN),
        IntKey::new(256, 3),
    ];
    for (i, a) in keys.iter().enumerate() {
        assert_eq!(IntKey::from_bytes(&a.as_bytes()), Some(*a));
        assert_eq!((a.get_prefix(), a.get_id()), (a.prefix, a.id));
        for (j, b) in keys.iter().enumerate() {
            assert_eq!(i.cmp(&j), a.as_bytes().cmp(&b.as_bytes()));
        }
    }
    assert_eq!(IntKey::from_bytes(&[0; 9]), None);
    assert_eq!(IntKey::from_bytes(&[0; 11]), None);
}

#[test]
fn links_are_stored_both_ways() {
    let link = Link::new(10, 11, 0, 1);
    assert_eq!(link.get_target_col_id(), 1);
    let back = link.to_backlink();
    assert_eq!((back.id, back.backlink_id, back.col_id, back.target_col_id), (11, 10, 1, 0));
    let mut sources = Db::new(false);
    let mut targets = Db::new(false);
    sources.put(&IntKey::new(0, 1).as_bytes(), b"s1");
    targets.put(&IntKey::new(1, 7).as_bytes(), b"t7");
    targets.put(&IntKey::new(1, 8).as_bytes(), b"t8");
    let mut links = Db::new(true);
    assert_eq!(link.create(&sources, &targets, &mut links, 1, 7).ok(), Some(true));
    assert_eq!(link.create(&sources, &targets, &mut links, 1, 8).ok(), Some(true));
    assert_eq!(link.create(&sources, &targets, &mut links, 2, 8).ok(), Some(false));
    assert_eq!(link.create(&sources, &targets, &mut links, 1, 9).ok(), Some(false));
    assert_eq!(links.len(), 4);
    assert_eq!(
        link.iter_ids(&links, 1).unwrap(),
        vec![IntKey::new(1, 7), IntKey::new(1, 8)]
    );
    assert_eq!(back.iter_ids(&links, 8).unwrap(), vec![IntKey::new(0, 1)]);
    let found = link.iter(&targets, &links, 1).unwrap();
    assert_eq!(found[1], (IntKey::new(1, 8), b"t8".to_vec()));

    assert_eq!(link.delete(&mut links, 1, 7).ok(), Some(true));
    assert_eq!(link.delete(&mut links, 1, 7).ok(), Some(false));
    assert_eq!(links.len(), 2);

    // a forward entry without its inverse is a corruption
    let mut broken = links.copy();
    assert!(broken.delete_pair(&IntKey::new(11, 8).as_bytes(), &IntKey::new(0, 1).as_bytes()));
    assert!(matches!(
        link.delete(&mut broken.copy(), 1, 8),
        Err(IsarError::DbCorrupted { .. })
    ));
    assert!(matches!(
        link.delete_all_for_object(&mut broken, 1),
        Err(IsarError::DbCorrupted { .. })
    ));
    assert_eq!(broken.len(), 1);
    // a target that is gone is a corruption when the edge is walked
    let mut gone = targets.copy();
    gone.delete_key(&IntKey::new(1, 8).as_bytes());
    assert!(matches!(
        link.iter(&gone, &links, 1),
        Err(IsarError::DbCorrupted { .. })
    ));

    assert!(link.create(&sources, &targets, &mut links, 1, 7).unwrap());
    link.delete_all_for_object(&mut links, 1).unwrap();
    assert_eq!(links.len(), 0);
    assert!(link.create(&sources, &targets, &mut links, 1, 7).unwrap());
    let other = Link::new(20, 21, 0, 1);
    assert!(other.create(&sources, &targets, &mut links, 1, 7).unwrap());
    link.clear(&mut links);
    assert_eq!(links.len(), 2);
    assert_eq!(other.iter_ids(&links, 1).unwrap(), vec![IntKey::new(1, 7)]);
}

#[test]
fn lmdb_codes_map_to_errors() {
    assert!(matches!(LmdbError::from_err_code(-30799), LmdbError::KeyExist {}));
    assert!(matches!(LmdbError::from_err_code(-30798), LmdbError::NotFound {}));
    assert!(matches!(LmdbError::from_err_code(-30792), LmdbError::MapFull {}));
    assert!(matches!(LmdbError::from_err_code(5), LmdbError::Other { code: 5 }));
    for code in [-30799, -30798, -30792, 0, 13, -1] {
        assert_eq!(LmdbError::from_err_code(code).to_err_code(), code);
    }
    assert!(lmdb_result(0).is_ok());
    assert!(matches!(lmdb_result(-30798), Err(LmdbError::NotFound {})));
    assert!(matches!(LmdbError::MapFull {}.into_isar_error(), IsarError::DbFull));
    assert!(matches!(
        LmdbError::NotFound {}.into_isar_error(),
        IsarError::DbError { code: -30798, .. }
    ));
    assert!(matches!(
        LmdbError::Other { code: 22 }.into_isar_error(),
        IsarError::DbError { code: 22, .. }
    ));
}

#[test]
fn errors_have_kinds() {
    let e: Result<(), IsarError> = illegal_arg("bad");
    match e {
        Err(IsarError::IllegalArgument { message }) => assert_eq!(message, "bad"),
        _ => panic!("no error"),
    }
    assert_eq!(IsarError::DbFull.kind(), 3);
    assert_eq!(IsarError::TransactionPoisoned.kind(), 5);
    assert_eq!(IsarError::VersionError.kind(), 6);
    assert_eq!(IsarError::UniqueViolation { index: "i".to_string() }.kind(), 2);
    assert!(check_version(1).is_ok());
    assert!(matches!(check_version(2), Err(IsarError::VersionError)));
}

#[test]
fn result_ids_accept_each_id_once() {
    let mut ids = ResultIds::new(true);
    assert!(ids.accept(5));
    assert!(ids.accept(-5));
    assert!(!ids.accept(5));
    assert!(ids.accept(i64::MIN));
    assert!(!ids.accept(i64::MIN));
    assert!(!ids.accept(-5));
    let mut free = ResultIds::new(false);
    assert!(free.accept(5));
    assert!(free.accept(5));
}

#[test]
fn raw_objects_hold_copies() {
    let mut object = RawObject::new(7, &[1, 2, 3]);
    assert_eq!(object.get_id(), 7);
    assert_eq!(object.get_object_id(), Some(7));
    assert_eq!(object.object_as_slice(), &[1, 2, 3]);
    assert_eq!(object.get_length(), 3);
    object.set_object(Some(&[4]));
    assert_eq!(object.object_as_slice(), &[4]);
    object.set_object(None);
    assert_eq!(object.get_length(), 0);
    object.set_object_id(9);
    assert_eq!(object.get_id(), 9);
    object.set_id(10);
    assert_eq!(object.get_object_id(), Some(10));
    object.clear();
    assert_eq!(object.get_object_id(), None);
    assert_eq!(object.get_id(), i64::MIN);
    assert_eq!(object.object_as_slice(), &[] as &[u8]);

    let mut set = RawObjectSet::new();
    assert_eq!(set.length(), 0);
    set.fill_from_vec(vec![RawObject::new(1, &[1]), RawObject::new(2, &[2, 2])]);
    assert_eq!(set.length(), 2);
    assert_eq!(set.get_length(), 2);
    assert_eq!(set.get_object(1).unwrap().get_length(), 2);
    assert!(set.get_object(2).is_none());
    assert!(set.set_object(0, RawObject::new(5, &[])));
    assert!(!set.set_object(2, RawObject::new(5, &[])));
    assert_eq!(set.get_object(0).unwrap().get_id(), 5);
    set.clear();
    assert_eq!(set.length(), 0);
}

fn numbers_schema() -> CollectionSchema {
    CollectionSchema::new(
        "Numbers",
        vec![
            PropertySchema::new("value", DataType::Long),
            PropertySchema::new("ratio", DataType::Float),
            PropertySchema::new("bytes", DataType::ByteList),
            PropertySchema::new("ints", DataType::IntList),
            PropertySchema::new("longs", DataType::LongList),
            PropertySchema::new("name", DataType::String),
            PropertySchema::new("exact", DataType::Double),
        ],
        vec![IndexSchema::new(
            "value",
            vec![IndexPropertySchema::new("value", IndexType::Value, true)],
            false,
        )],
        vec![],
    )
}

fn put_number(
    isar: &IsarInstance,
    txn: &mut IsarTxn,
    value: i64,
    ratio: f32,
    name: Option<&str>,
) -> i64 {
    let col = isar.get_collection(0).unwrap();
    let mut b = col.get_object_builder().unwrap();
    b.write_long(value);
    b.write_float_bits(ratio.to_bits());
    b.write_byte_list(Some(&[value as u8])).unwrap();
    let ints = [value as i32, 0];
    b.write_int_list(if value < 0 { None } else { Some(&ints) })
        .unwrap();
    b.write_long_list(Some(&[value])).unwrap();
    b.write_string(name).unwrap();
    b.write_double_bits((ratio as f64).to_bits());
    let object = b.finish().as_bytes().to_vec();
    col.put(txn, None, &object, false).unwrap()
}

fn run(isar: &IsarInstance, txn: &IsarTxn, filter: Filter) -> Vec<i64> {
    let col = isar.get_collection(0).unwrap();
    let mut builder = col.new_query_builder();
    builder.set_filter(filter);
    builder
        .build()
        .find_all(txn)
        .unwrap()
        .into_iter()
        .map(|(id, _)| id)
        .collect()
}

#[test]
fn filters_and_aggregates() {
    let isar = IsarInstance::open(&vec![numbers_schema()]).unwrap();
    let col = isar.get_collection(0).unwrap();
    let mut txn = isar.begin_txn(true);
    put_number(&isar, &mut txn, 10, 1.5, Some("alpha"));
    put_number(&isar, &mut txn, -3, f32::NAN, Some("Beta"));
    put_number(&isar, &mut txn, i64::MIN, -0.0, None);
    put_number(&isar, &mut txn, 7, 0.0, Some("gamma"));
    let value = col.get_property_by_index(0).unwrap();
    let ratio = col.get_property_by_index(1).unwrap();
    let bytes = col.get_property_by_index(2).unwrap();
    let ints = col.get_property_by_index(3).unwrap();
    let longs = col.get_property_by_index(4).unwrap();
    let name = col.get_property_by_index(5).unwrap();
    let exact = col.get_property_by_index(6).unwrap();

    assert_eq!(run(&isar, &txn, LongBetweenCond::filter(value, -3, 7).unwrap()), vec![2, 4]);
    assert_eq!(run(&isar, &txn, Filter::long(value, 8, i64::MAX).unwrap()), vec![1]);
    assert_eq!(run(&isar, &txn, Filter::null(value, false).unwrap()), vec![3]);
    assert_eq!(run(&isar, &txn, Filter::null(value, true).unwrap()), vec![1, 2, 3, 4]);
    assert_eq!(run(&isar, &txn, Filter::null(name, false).unwrap()), vec![3]);
    assert!(Filter::null(ints, false).is_err());
    assert!(Filter::long(name, 0, 1).is_err());

    // floats: a NaN upper bound admits only NaN, a NaN lower bound admits
    // NaN and the numbers up to the upper bound
    let f = |lower: f32, upper: f32| {
        FloatBetweenCond::filter(ratio, lower.to_bits(), upper.to_bits()).unwrap()
    };
    assert_eq!(run(&isar, &txn, f(0.0, 2.0)), vec![1, 3, 4]);
    assert_eq!(run(&isar, &txn, f(-0.0, 0.0)), vec![3, 4]);
    assert_eq!(run(&isar, &txn, f(f32::NAN, f32::NAN)), vec![2]);
    assert_eq!(run(&isar, &txn, f(f32::NAN, 1.0)), vec![2, 3, 4]);
    assert_eq!(run(&isar, &txn, f(1.0, f32::NAN)), Vec::<i64>::new());
    assert_eq!(run(&isar, &txn, f(1.0, f32::INFINITY)), vec![1]);
    assert_eq!(run(&isar, &txn, Filter::null(ratio, false).unwrap()), vec![2]);
    assert_eq!(run(&isar, &txn, Filter::null(ratio, true).unwrap()), vec![1, 2, 3, 4]);
    let d = |lower: f64, upper: f64| {
        DoubleBetweenCond::filter(exact, lower.to_bits(), upper.to_bits()).unwrap()
    };
    assert_eq!(run(&isar, &txn, d(1.0, 2.0)), vec![1]);
    assert_eq!(run(&isar, &txn, d(f64::NAN, -1.0)), vec![2]);
    assert_eq!(
        run(
            &isar,
            &txn,
            Filter::double(ratio, 0, 0, 1.0f32.to_bits(), 2.0f32.to_bits()).unwrap()
        ),
        vec![1]
    );
    assert_eq!(
        run(
            &isar,
            &txn,
            Filter::double(exact, 1.0f64.to_bits(), 2.0f64.to_bits(), 0, 0).unwrap()
        ),
        vec![1]
    );
    assert!(Filter::double(value, 0, 0, 0, 0).is_err());

    // lists
    assert_eq!(run(&isar, &txn, ByteListContainsCond::filter(bytes, 7).unwrap()), vec![4]);
    assert_eq!(run(&isar, &txn, IntListContainsCond::filter(ints, 0).unwrap()), vec![1, 4]);
    assert_eq!(run(&isar, &txn, LongListContainsCond::filter(longs, -3).unwrap()), vec![2]);
    assert!(ByteListContainsCond::filter(ints, 1).is_err());
    assert!(IntListContainsCond::filter(bytes, 1).is_err());
    assert!(LongListContainsCond::filter(bytes, 1).is_err());

    assert_eq!(
        run(&isar, &txn, StringEndsWithCond::filter(name, Some("A"), false).unwrap()),
        vec![1, 2, 4]
    );
    assert_eq!(
        run(&isar, &txn, StringEndsWithCond::filter(name, Some("A"), true).unwrap()),
        Vec::<i64>::new()
    );
    assert_eq!(
        run(&isar, &txn, Filter::and_or(false, vec![
            Filter::long(value, 10, 10).unwrap(),
            Filter::long(value, 7, 7).unwrap(),
        ])),
        vec![1, 4]
    );
    assert_eq!(
        run(&isar, &txn, Filter::and_or(true, vec![
            Filter::long(value, 10, 10).unwrap(),
            Filter::long(value, 7, 7).unwrap(),
        ])),
        Vec::<i64>::new()
    );
    // a filter can be evaluated by itself
    let data = isar.begin_txn(false).commit().unwrap();
    let object = col.get(&txn, 1).unwrap().unwrap();
    assert!(Filter::long(value, 10, 10).unwrap().evaluate(&data, 1, object));

    // aggregates over the values that are not null
    let query = col.new_query_builder().build();
    let agg = |op| query.aggregate(&txn, op, value).unwrap();
    assert_eq!(agg(AggregateOp::Min), AggregateResult::Value(Some(-3)));
    assert_eq!(agg(AggregateOp::Max), AggregateResult::Value(Some(10)));
    assert_eq!(agg(AggregateOp::Sum), AggregateResult::Sum(14));
    assert_eq!(agg(AggregateOp::Average), AggregateResult::Average { sum: 14, count: 3 });
    assert_eq!(agg(AggregateOp::Count), AggregateResult::Count(3));
    assert!(matches!(
        query.aggregate(&txn, AggregateOp::Sum, ratio),
        Err(IsarError::IllegalArgument { .. })
    ));
    let mut none = col.new_query_builder();
    none.set_filter(Filter::long(value, 100, 200).unwrap());
    assert_eq!(
        none.build().aggregate(&txn, AggregateOp::Min, value).unwrap(),
        AggregateResult::Value(None)
    );

    // deleting through a query
    let mut some = col.new_query_builder();
    some.set_filter(Filter::long(value, 0, 100).unwrap());
    assert_eq!(some.build().delete_all(col, &mut txn).unwrap(), 2);
    assert_eq!(run(&isar, &txn, Filter::and_or(true, vec![])), vec![2, 3]);
    let mut set = RawObjectSet::new();
    set.fill_from_query(&col.new_query_builder().build(), &txn).unwrap();
    assert_eq!(set.length(), 2);
    assert_eq!(set.get_object(0).unwrap().get_id(), 2);
    assert_eq!(
        set.get_object(1).unwrap().object_as_slice(),
        col.get(&txn, 3).unwrap().unwrap()
    );
    // the index has followed
    let db = col.debug_get_index_db(&txn, 0).unwrap();
    assert_eq!(db.len(), 2);
    assert_eq!(
        col.debug_get_index(0)
            .iter_between(
                db,
                &isar_core::index::index_key::IndexKey::new(),
                &isar_core::index::index_key::IndexKey::from_bytes(vec![0xff; 9]),
                false,
                false
            )
            .unwrap(),
        vec![col.get_object_id(2), col.get_object_id(3)]
    );
    assert_eq!(
        col.debug_get_index(0)
            .get_id(db, &isar_core::index::index_key::IndexKey::from_bytes(vec![0; 8]))
            .unwrap(),
        Some(col.get_object_id(3))
    );
}

#[test]
fn put_in_two_steps() {
    let isar = IsarInstance::open(&vec![numbers_schema()]).unwrap();
    let col = isar.get_collection(0).unwrap();
    let mut txn = isar.begin_txn(true);
    let first = put_number(&isar, &mut txn, 1, 1.0, None);
    let object = col.get(&txn, first).unwrap().unwrap().to_vec();

    let mut pending = col.prepare_put(&mut txn, None, object.len()).unwrap();
    assert_eq!(pending.get_oid(), first + 1);
    assert!(txn.poisoned());
    pending.get_writable_space().copy_from_slice(&object);
    col.finish_put(&mut txn, pending).unwrap();
    assert!(!txn.poisoned());
    assert_eq!(col.get(&txn, first + 1).unwrap(), Some(&object[..]));

    // bytes that are no object are refused, and the transaction stays poisoned
    let pending = col.prepare_put(&mut txn, Some(50), 3).unwrap();
    assert!(matches!(
        col.finish_put(&mut txn, pending),
        Err(IsarError::IllegalArgument { .. })
    ));
    assert!(txn.poisoned());
    assert!(matches!(
        col.prepare_put(&mut txn, None, 1),
        Err(IsarError::TransactionPoisoned)
    ));
}

#[test]
fn schemas_are_checked() {
    let unknown_property = CollectionSchema::new(
        "A",
        vec![PropertySchema::new("x", DataType::Int)],
        vec![IndexSchema::new(
            "i",
            vec![IndexPropertySchema::new("y", IndexType::Value, true)],
            false,
        )],
        vec![],
    );
    assert!(matches!(
        IsarInstance::open(&vec![unknown_property]),
        Err(IsarError::IllegalArgument { .. })
    ));
    let empty_index = CollectionSchema::new(
        "A",
        vec![PropertySchema::new("x", DataType::Int)],
        vec![IndexSchema::new("i", vec![], false)],
        vec![],
    );
    assert!(IsarInstance::open(&vec![empty_index]).is_err());
    let unknown_target = CollectionSchema::new(
        "A",
        vec![],
        vec![],
        vec![isar_core::schema::collection_schema::LinkSchema::new("l", "B")],
    );
    assert!(IsarInstance::open(&vec![unknown_target]).is_err());

    let a = CollectionSchema::new(
        "A",
        vec![PropertySchema::new("x", DataType::Int)],
        vec![],
        vec![isar_core::schema::collection_schema::LinkSchema::new("l", "B")],
    );
    let b = CollectionSchema::new("B", vec![], vec![], vec![]);
    let isar = IsarInstance::open(&vec![a, b]).unwrap();
    assert_eq!(isar.collection("B").unwrap().debug_get_id(), 1);
    assert!(isar.collection("C").is_none());
    assert!(isar.get_collection(2).is_none());
    assert_eq!(isar.collection("A").unwrap().links.len(), 1);
    assert_eq!(isar.collection("B").unwrap().backlinks.len(), 1);
    assert!(isar.collection("A").unwrap().check());
    let empty: TxnData = isar.begin_txn(false).commit().unwrap();
    assert_eq!(empty.cols.len(), 2);
    assert_eq!(isar.collection("A").unwrap().debug_get_object_info().get_static_size(), 8);
}

#[test]
fn float_order_on_bit_patterns() {
    let samples = [f32::NEG_INFINITY, -2.0, -0.0, 0.0, 1.0e-42, 3.0, f32::INFINITY];
    for a in samples {
        for b in samples {
            assert_eq!(lt32(a.to_bits(), b.to_bits()), a < b, "{} {}", a, b);
            assert_eq!(le32(a.to_bits(), b.to_bits()), a <= b, "{} {}", a, b);
            assert_eq!(
                lt64((a as f64).to_bits(), (b as f64).to_bits()),
                (a as f64) < (b as f64)
            );
        }
        assert!(!is_nan32(a.to_bits()));
    }
    assert!(is_nan32(f32::NAN.to_bits()));
    assert!(is_nan32((-f32::NAN).to_bits()));
    assert!(is_nan32(0x7f80_0001));
}

#[test]
fn queries_sort_and_tell_apart() {
    let isar = IsarInstance::open(&vec![numbers_schema()]).unwrap();
    let col = isar.get_collection(0).unwrap();
    let mut txn = isar.begin_txn(true);
    put_number(&isar, &mut txn, 5, 2.0, Some("b"));
    put_number(&isar, &mut txn, 3, f32::NAN, Some("a"));
    put_number(&isar, &mut txn, 5, -1.0, None);
    put_number(&isar, &mut txn, 1, 2.0, Some("b"));
    put_number(&isar, &mut txn, 3, 0.5, Some("c"));
    let value = col.get_property_by_index(0).unwrap();
    let ratio = col.get_property_by_index(1).unwrap();
    let ints = col.get_property_by_index(3).unwrap();
    let name = col.get_property_by_index(5).unwrap();
    let found = |query: isar_core::query::query::Query| -> Vec<i64> {
        query.find_all(&txn).unwrap().into_iter().map(|(id, _)| id).collect()
    };

    let mut b = col.new_query_builder();
    b.add_sort(value, true).unwrap();
    // objects with the same value keep the order of their ids
    assert_eq!(found(b.build()), vec![4, 2, 5, 1, 3]);
    let mut b = col.new_query_builder();
    b.add_sort(value, false).unwrap();
    assert_eq!(found(b.build()), vec![1, 3, 2, 5, 4]);
    let mut b = col.new_query_builder();
    b.add_sort(value, false).unwrap();
    b.add_sort(name, true).unwrap();
    // the null string sorts first
    assert_eq!(found(b.build()), vec![3, 1, 2, 5, 4]);
    let mut b = col.new_query_builder();
    b.add_sort(ratio, true).unwrap();
    // the NaN sorts first
    assert_eq!(found(b.build()), vec![2, 3, 5, 1, 4]);
    let mut b = col.new_query_builder();
    b.add_sort(name, false).unwrap();
    b.set_offset_limit(1, 2);
    assert_eq!(found(b.build()), vec![1, 4]);
    let mut b = col.new_query_builder();
    assert!(matches!(b.add_sort(ints, true), Err(IsarError::IllegalArgument { .. })));

    let mut b = col.new_query_builder();
    b.add_distinct(value);
    assert_eq!(found(b.build()), vec![1, 2, 4]);
    let mut b = col.new_query_builder();
    b.add_distinct(name);
    assert_eq!(found(b.build()), vec![1, 2, 3, 5]);
    let mut b = col.new_query_builder();
    b.add_distinct(value);
    b.add_distinct(name);
    assert_eq!(found(b.build()), vec![1, 2, 3, 4, 5]);
    let mut b = col.new_query_builder();
    b.add_sort(value, true).unwrap();
    b.add_distinct(name);
    assert_eq!(found(b.build()), vec![4, 2, 5, 3]);
    let mut b = col.new_query_builder();
    b.add_distinct(ints);
    assert_eq!(found(b.build()), vec![1, 2, 4]);
}
