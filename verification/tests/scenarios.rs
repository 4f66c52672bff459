use isar_core::collection::IsarCollection;
use isar_core::error::IsarError;
use isar_core::hash::hash_bytes;
use isar_core::index::index_key::IndexKey;
use isar_core::instance::IsarInstance;
use isar_core::object::data_type::DataType;
use isar_core::query::filter::{
    AndCond, ByteBetweenCond, DoubleBetweenCond, FloatBetweenCond, IntBetweenCond,
    IsNullCond, LinkCond, NotCond, OrCond, StaticCond, StringEqualCond, StringLikeCond,
    StringListContainsCond, StringStartsWithCond,
};
use isar_core::query::query::Query;
use isar_core::schema::collection_schema::{
    CollectionSchema, IndexPropertySchema, IndexSchema, LinkSchema,
};
use isar_core::schema::index_schema::IndexType;
use isar_core::schema::property_schema::PropertySchema;
use isar_core::txn::IsarTxn;

fn person_schema(unique_name: bool) -> CollectionSchema {
    let index = if unique_name {
        IndexSchema::new(
            "name",
            vec![IndexPropertySchema::new("name", IndexType::Value, true)],
            true,
        )
    } else {
        IndexSchema::new(
            "age",
            vec![IndexPropertySchema::new("age", IndexType::Value, true)],
            false,
        )
    };
    CollectionSchema::new(
        "Person",
        vec![
            PropertySchema::new("name", DataType::String),
            PropertySchema::new("age", DataType::Int),
        ],
        vec![index],
        vec![],
    )
}

fn person(col: &IsarCollection, name: Option<&str>, age: i32) -> Vec<u8> {
    let mut builder = col.get_object_builder().unwrap();
    builder.write_string(name).unwrap();
    builder.write_int(age);
    builder.finish().as_bytes().to_vec()
}

fn ids(query: &Query, txn: &IsarTxn) -> Vec<i64> {
    query
        .find_all(txn)
        .unwrap()
        .into_iter()
        .map(|(id, _)| id)
        .collect()
}

fn int_key(value: i32) -> IndexKey {
    let mut key = IndexKey::new();
    key.add_int(value);
    key
}

fn string_key(value: &str) -> IndexKey {
    let mut key = IndexKey::new();
    key.add_string(Some(value.as_bytes()));
    key
}

fn hash_key(value: &str) -> IndexKey {
    let mut key = IndexKey::new();
    key.add_hash(hash_bytes(value.as_bytes()));
    key
}

fn index_query(col: &IsarCollection, lower: &IndexKey, upper: &IndexKey, skip: bool) -> Query {
    let mut builder = col.new_query_builder();
    let wc = col
        .create_secondary_where_clause(0, lower, upper, skip)
        .unwrap();
    builder.add_where_clause(wc, true, true).unwrap();
    builder.build()
}

#[test]
fn scenario_index_range_on_age() {
    let isar = IsarInstance::open(&vec![person_schema(false)]).unwrap();
    let col = isar.get_collection(0).unwrap();
    let mut txn = isar.begin_txn(true);
    assert_eq!(col.put(&mut txn, None, &person(col, Some("a"), 30), false).unwrap(), 1);
    assert_eq!(col.put(&mut txn, None, &person(col, Some("b"), 30), false).unwrap(), 2);
    assert_eq!(col.put(&mut txn, None, &person(col, Some("c"), 40), false).unwrap(), 3);

    let query = index_query(col, &int_key(30), &int_key(30), false);
    assert_eq!(ids(&query, &txn), vec![1, 2]);
    assert_eq!(query.count(&txn).unwrap(), 2);

    let wide = index_query(col, &int_key(i32::MIN), &int_key(i32::MAX), false);
    assert_eq!(ids(&wide, &txn), vec![1, 2, 3]);
    let none = index_query(col, &int_key(31), &int_key(39), false);
    assert_eq!(ids(&none, &txn), Vec::<i64>::new());
}

#[test]
fn scenario_unique_name() {
    let isar = IsarInstance::open(&vec![person_schema(true)]).unwrap();
    let col = isar.get_collection(0).unwrap();
    let mut txn = isar.begin_txn(true);
    let first = col.put(&mut txn, None, &person(col, Some("x"), 1), false).unwrap();

    // without replacement the second "x" is a violation
    let mut failing = isar.begin_txn(true);
    col.put(&mut failing, None, &person(col, Some("x"), 1), false).unwrap();
    let r = col.put(&mut failing, None, &person(col, Some("x"), 2), false);
    assert!(matches!(r, Err(IsarError::UniqueViolation { .. })));
    assert!(failing.poisoned());

    // with replacement the earlier row goes and a new id is assigned
    let newer = person(col, Some("x"), 2);
    let second = col.put(&mut txn, None, &newer, true).unwrap();
    assert_ne!(first, second);
    assert_eq!(col.get(&txn, first).unwrap(), None);
    let hit = col.get_by_index(&txn, 0, &string_key("x")).unwrap().unwrap();
    assert_eq!(hit.0, second);
    assert_eq!(hit.1, &newer[..]);
    let age = col.get_property_by_index(1).unwrap();
    assert_eq!(age.get_int(hit.1), 2);

    // putting the same object under its own id again is no conflict
    assert_eq!(col.put(&mut txn, Some(second), &newer, false).unwrap(), second);
    assert_eq!(col.delete_by_index(&mut txn, 0, &string_key("x")).unwrap(), true);
    assert_eq!(col.delete_by_index(&mut txn, 0, &string_key("x")).unwrap(), false);
    assert!(matches!(
        col.get_by_index(&txn, 7, &string_key("x")),
        Err(IsarError::IllegalArgument { .. })
    ));
}

fn tags_schema() -> CollectionSchema {
    CollectionSchema::new(
        "Tagged",
        vec![PropertySchema::new("tags", DataType::StringList)],
        vec![IndexSchema::new(
            "tags",
            vec![IndexPropertySchema::new("tags", IndexType::HashElements, true)],
            false,
        )],
        vec![],
    )
}

fn tagged(col: &IsarCollection, tags: &[&str]) -> Vec<u8> {
    let list: Vec<Option<&str>> = tags.iter().map(|t| Some(*t)).collect();
    let mut builder = col.get_object_builder().unwrap();
    builder.write_string_list(Some(&list)).unwrap();
    builder.finish().as_bytes().to_vec()
}

#[test]
fn scenario_tags_contains() {
    let isar = IsarInstance::open(&vec![tags_schema()]).unwrap();
    let col = isar.get_collection(0).unwrap();
    let mut txn = isar.begin_txn(true);
    assert_eq!(col.put(&mut txn, None, &tagged(col, &["red", "green"]), false).unwrap(), 1);
    assert_eq!(col.put(&mut txn, None, &tagged(col, &["green", "blue"]), false).unwrap(), 2);

    let green = index_query(col, &hash_key("green"), &hash_key("green"), false);
    assert_eq!(ids(&green, &txn), vec![1, 2]);
    let red = index_query(col, &hash_key("red"), &hash_key("red"), false);
    assert_eq!(ids(&red, &txn), vec![1]);

    // the same through the filter
    let tags = col.get_property_by_index(0).unwrap();
    let mut builder = col.new_query_builder();
    builder.set_filter(StringListContainsCond::filter(tags, Some("green"), true).unwrap());
    assert_eq!(ids(&builder.build(), &txn), vec![1, 2]);
    let mut builder = col.new_query_builder();
    builder.set_filter(StringListContainsCond::filter(tags, Some("RED"), false).unwrap());
    assert_eq!(ids(&builder.build(), &txn), vec![1]);
}

#[test]
fn query_over_multi_entry_index_yields_each_id_once() {
    let isar = IsarInstance::open(&vec![tags_schema()]).unwrap();
    let col = isar.get_collection(0).unwrap();
    let mut txn = isar.begin_txn(true);
    col.put(&mut txn, None, &tagged(col, &["red", "green"]), false).unwrap();
    col.put(&mut txn, None, &tagged(col, &["green", "blue"]), false).unwrap();

    // the whole index: object 1 and 2 are filed twice each
    let low = IndexKey::new();
    let mut high = IndexKey::new();
    high.add_hash(u64::MAX);
    let all = index_query(col, &low, &high, false);
    assert!(all.uses_result_ids());
    let mut found = ids(&all, &txn);
    found.sort();
    assert_eq!(found, vec![1, 2]);

    // two overlapping scans of the ids
    let mut builder = col.new_query_builder();
    builder
        .add_where_clause(col.create_primary_where_clause(), true, true)
        .unwrap();
    builder
        .add_where_clause(col.create_primary_where_clause(), true, true)
        .unwrap();
    let twice = builder.build();
    assert!(twice.uses_result_ids());
    assert_eq!(ids(&twice, &txn), vec![1, 2]);

    // bounds that are left out make the id range smaller
    let mut builder = col.new_query_builder();
    let wc = isar_core::query::where_clause::WhereClause::Id(
        isar_core::query::id_where_clause::IdWhereClause::new(0, 1, true, 2, true, true),
    );
    builder.add_where_clause(wc, false, true).unwrap();
    let upper_only = builder.build();
    assert!(!upper_only.uses_result_ids());
    assert_eq!(ids(&upper_only, &txn), vec![2]);
}

fn user_schema() -> CollectionSchema {
    CollectionSchema::new(
        "User",
        vec![PropertySchema::new("age", DataType::Int)],
        vec![],
        vec![LinkSchema::new("friends", "User")],
    )
}

fn user(col: &IsarCollection, age: i32) -> Vec<u8> {
    let mut builder = col.get_object_builder().unwrap();
    builder.write_int(age);
    builder.finish().as_bytes().to_vec()
}

fn linked_ids(col: &IsarCollection, txn: &IsarTxn, backlink: bool, id: i64) -> Vec<i64> {
    col.get_linked(txn, 0, backlink, id)
        .unwrap()
        .into_iter()
        .map(|(id, _)| id)
        .collect()
}

#[test]
fn scenario_friends() {
    let isar = IsarInstance::open(&vec![user_schema()]).unwrap();
    let col = isar.get_collection(0).unwrap();
    let mut txn = isar.begin_txn(true);
    for age in [10, 20, 30] {
        col.put(&mut txn, None, &user(col, age), false).unwrap();
    }
    assert_eq!(col.link(&mut txn, 0, 1, 2).unwrap(), true);
    assert_eq!(col.link(&mut txn, 0, 1, 3).unwrap(), true);
    // an edge to an object that is not there is not stored
    assert_eq!(col.link(&mut txn, 0, 1, 9).unwrap(), false);
    // storing an edge again changes nothing
    assert_eq!(col.link(&mut txn, 0, 1, 3).unwrap(), true);
    assert_eq!(linked_ids(col, &txn, false, 1), vec![2, 3]);
    assert_eq!(linked_ids(col, &txn, true, 2), vec![1]);

    assert_eq!(col.delete(&mut txn, 2).unwrap(), true);

    assert_eq!(linked_ids(col, &txn, false, 1), vec![3]);
    assert_eq!(linked_ids(col, &txn, true, 3), vec![1]);
    assert_eq!(linked_ids(col, &txn, true, 2), Vec::<i64>::new());

    // a filter over the link: users with a friend of age 30
    let age = col.get_property_by_index(0).unwrap();
    let link = col.get_link(0, false).unwrap();
    let mut builder = col.new_query_builder();
    builder.set_filter(LinkCond::filter(
        link,
        false,
        IntBetweenCond::filter(age, 30, 30).unwrap(),
    ));
    assert_eq!(ids(&builder.build(), &txn), vec![1]);
    // and over the backlink: users that a user of age 10 calls a friend
    let mut builder = col.new_query_builder();
    builder.set_filter(LinkCond::filter(
        link,
        true,
        IntBetweenCond::filter(age, 10, 10).unwrap(),
    ));
    assert_eq!(ids(&builder.build(), &txn), vec![3]);

    assert_eq!(col.unlink(&mut txn, 0, 1, 3).unwrap(), true);
    assert_eq!(col.unlink(&mut txn, 0, 1, 3).unwrap(), false);
    assert_eq!(linked_ids(col, &txn, false, 1), Vec::<i64>::new());
    assert!(matches!(
        col.link(&mut txn, 5, 1, 3),
        Err(IsarError::IllegalArgument { .. })
    ));
}

#[test]
fn clear_removes_links_of_the_collection() {
    let isar = IsarInstance::open(&vec![user_schema()]).unwrap();
    let col = isar.get_collection(0).unwrap();
    let mut txn = isar.begin_txn(true);
    for age in [10, 20] {
        col.put(&mut txn, None, &user(col, age), false).unwrap();
    }
    col.link(&mut txn, 0, 1, 2).unwrap();
    col.clear(&mut txn).unwrap();
    col.put(&mut txn, Some(1), &user(col, 10), false).unwrap();
    assert_eq!(linked_ids(col, &txn, false, 1), Vec::<i64>::new());
}

fn product_schema() -> CollectionSchema {
    CollectionSchema::new(
        "Product",
        vec![
            PropertySchema::new("price", DataType::Int),
            PropertySchema::new("name", DataType::String),
        ],
        vec![],
        vec![],
    )
}

fn product(col: &IsarCollection, price: i32, name: Option<&str>) -> Vec<u8> {
    let mut builder = col.get_object_builder().unwrap();
    builder.write_int(price);
    builder.write_string(name).unwrap();
    builder.finish().as_bytes().to_vec()
}

#[test]
fn scenario_filter_between_and_not_null() {
    let isar = IsarInstance::open(&vec![product_schema()]).unwrap();
    let col = isar.get_collection(0).unwrap();
    let mut txn = isar.begin_txn(true);
    let rows: [(i32, Option<&str>); 5] =
        [(5, None), (10, Some("a")), (15, None), (20, Some("b")), (25, Some("c"))];
    for (price, name) in rows {
        col.put(&mut txn, None, &product(col, price, name), false).unwrap();
    }
    let price = col.get_property_by_index(0).unwrap();
    let name = col.get_property_by_index(1).unwrap();

    let filter = AndCond::filter(vec![
        IntBetweenCond::filter(price, 10, 20).unwrap(),
        NotCond::filter(IsNullCond::filter(name)),
    ]);
    let mut builder = col.new_query_builder();
    builder.set_filter(filter);
    let query = builder.build();
    assert_eq!(ids(&query, &txn), vec![2, 4]);

    let either = OrCond::filter(vec![
        IntBetweenCond::filter(price, 25, 100).unwrap(),
        IsNullCond::filter(name),
    ]);
    let mut builder = col.new_query_builder();
    builder.set_filter(either);
    assert_eq!(ids(&builder.build(), &txn), vec![1, 3, 5]);

    let mut builder = col.new_query_builder();
    builder.set_filter(StaticCond::filter(true));
    builder.set_offset_limit(1, 2);
    assert_eq!(ids(&builder.build(), &txn), vec![2, 3]);
    let mut builder = col.new_query_builder();
    builder.set_filter(StaticCond::filter(false));
    assert_eq!(ids(&builder.build(), &txn), Vec::<i64>::new());

    // strings
    let mut builder = col.new_query_builder();
    builder.set_filter(StringEqualCond::filter(name, Some("B"), false).unwrap());
    assert_eq!(ids(&builder.build(), &txn), vec![4]);
    let mut builder = col.new_query_builder();
    builder.set_filter(StringEqualCond::filter(name, Some("B"), true).unwrap());
    assert_eq!(ids(&builder.build(), &txn), Vec::<i64>::new());
    let mut builder = col.new_query_builder();
    builder.set_filter(StringEqualCond::filter(name, None, true).unwrap());
    assert_eq!(ids(&builder.build(), &txn), vec![1, 3]);
    let mut builder = col.new_query_builder();
    builder.set_filter(StringStartsWithCond::filter(name, Some(""), true).unwrap());
    assert_eq!(ids(&builder.build(), &txn), vec![2, 4, 5]);
    let mut builder = col.new_query_builder();
    builder.set_filter(StringLikeCond::filter(name, Some("?"), true).unwrap());
    assert_eq!(ids(&builder.build(), &txn), vec![2, 4, 5]);

    // a filter of the wrong type is refused
    assert!(matches!(
        IntBetweenCond::filter(name, 1, 2),
        Err(IsarError::IllegalArgument { .. })
    ));
    assert!(matches!(
        ByteBetweenCond::filter(price, 1, 2),
        Err(IsarError::IllegalArgument { .. })
    ));
    assert!(matches!(
        StringEqualCond::filter(price, None, true),
        Err(IsarError::IllegalArgument { .. })
    ));
    assert!(matches!(
        FloatBetweenCond::filter(price, 0, 0),
        Err(IsarError::IllegalArgument { .. })
    ));
    assert!(matches!(
        DoubleBetweenCond::filter(price, 0, 0),
        Err(IsarError::IllegalArgument { .. })
    ));
}

#[test]
fn scenario_float_key_order() {
    fn key(value: f32) -> Vec<u8> {
        let mut key = IndexKey::new();
        key.add_float_bits(value.to_bits());
        key.as_bytes().to_vec()
    }
    fn dkey(value: f64) -> Vec<u8> {
        let mut key = IndexKey::new();
        key.add_double_bits(value.to_bits());
        key.as_bytes().to_vec()
    }
    assert!(key(-1.0) < key(-0.0));
    assert!(key(-0.0) < key(0.0));
    assert!(key(0.0) < key(1.0));
    assert!(key(f32::NAN) < key(-1.0));
    assert!(key(f32::NAN) < key(f32::NEG_INFINITY));
    assert!(key(1.0) < key(f32::INFINITY));
    assert_eq!(key(f32::NAN), vec![0, 0, 0, 0]);
    assert_eq!(key(-f32::NAN), vec![0, 0, 0, 0]);
    assert_eq!(key(0.0), vec![0x80, 0, 0, 0]);
    assert_eq!(key(1.0), vec![0xbf, 0x80, 0, 0]);
    assert_eq!(key(-1.0), vec![0x40, 0x7f, 0xff, 0xff]);

    assert!(dkey(-1.0) < dkey(-0.0));
    assert!(dkey(-0.0) < dkey(0.0));
    assert!(dkey(0.0) < dkey(1.0));
    assert!(dkey(f64::NAN) < dkey(-1.0));
    assert_eq!(dkey(f64::NAN), vec![0; 8]);

    let samples = [
        f32::NEG_INFINITY,
        -3.5e10,
        -1.0,
        -1.0e-40,
        -0.0,
        0.0,
        1.0e-40,
        0.5,
        1.0,
        7.25e20,
        f32::INFINITY,
    ];
    for a in samples {
        for b in samples {
            if a < b {
                assert!(key(a) < key(b), "{} {}", a, b);
                assert!(dkey(a as f64) < dkey(b as f64), "{} {}", a, b);
            }
        }
    }
}
