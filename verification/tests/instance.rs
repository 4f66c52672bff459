use isar_core::collection::IsarCollection;
use isar_core::error::IsarError;
use isar_core::index::index_key::IndexKey;
use isar_core::index::{IndexProperty, IsarIndex};
use isar_core::instance::{schema_error, IsarInstance};
use isar_core::key::IntKey;
use isar_core::link::Link;
use isar_core::object::data_type::DataType;
use isar_core::object::object_builder::too_large;
use isar_core::object::property::Property;
use isar_core::query::filter::{
    wrong_type, AndCond, IntBetweenCond, IsNullCond, LinkCond, NotCond, StringEqualCond,
};
use isar_core::query::sort::SortKey;
use isar_core::schema::collection_schema::{
    CollectionSchema, IndexPropertySchema, IndexSchema, LinkSchema,
};
use isar_core::schema::index_schema::IndexType;
use isar_core::schema::property_schema::PropertySchema;
use isar_core::store::Db;
use isar_core::txn::IsarTxn;

fn author_schema() -> CollectionSchema {
    CollectionSchema::new(
        "Author",
        vec![
            PropertySchema::new("name", DataType::String),
            PropertySchema::new("age", DataType::Int),
            PropertySchema::new("initial", DataType::Byte),
        ],
        vec![
            IndexSchema::new(
                "name",
                vec![IndexPropertySchema::new("name", IndexType::Value, true)],
                true,
            ),
            IndexSchema::new(
                "age_name",
                vec![
                    IndexPropertySchema::new("age", IndexType::Value, true),
                    IndexPropertySchema::new("name", IndexType::Hash, false),
                ],
                false,
            ),
        ],
        vec![
            LinkSchema::new("books", "Book"),
            LinkSchema::new("friends", "Author"),
        ],
    )
}

fn book_schema() -> CollectionSchema {
    CollectionSchema::new(
        "Book",
        vec![PropertySchema::new("pages", DataType::Long)],
        vec![],
        vec![LinkSchema::new("writer", "Author")],
    )
}

fn author(col: &IsarCollection, name: &str, age: i32) -> Vec<u8> {
    let mut builder = col.get_object_builder().unwrap();
    builder.write_string(Some(name)).unwrap();
    builder.write_int(age);
    builder.write_byte(name.as_bytes()[0]);
    builder.finish().as_bytes().to_vec()
}

fn book(col: &IsarCollection, pages: i64) -> Vec<u8> {
    let mut builder = col.get_object_builder().unwrap();
    builder.write_long(pages);
    builder.finish().as_bytes().to_vec()
}

fn name_key(value: &str) -> IndexKey {
    let mut key = IndexKey::new();
    key.add_string(Some(value.as_bytes()));
    key
}

fn targets(col: &IsarCollection, txn: &IsarTxn, link: usize, backlink: bool, id: i64) -> Vec<i64> {
    col.get_linked(txn, link, backlink, id)
        .unwrap()
        .into_iter()
        .map(|(id, _)| id)
        .collect()
}

#[test]
fn open_builds_what_the_schemas_declare() {
    let isar = IsarInstance::open(&vec![author_schema(), book_schema()]).unwrap();
    let authors = isar.get_collection(0).unwrap();
    let books = isar.get_collection(1).unwrap();
    assert_eq!((authors.id, books.id), (0, 1));
    assert_eq!((authors.name.as_str(), books.name.as_str()), ("Author", "Book"));

    // the layout: the byte first, then the int, then the string's descriptor
    let slots = &authors.object_info.properties;
    assert_eq!(slots.len(), 3);
    assert_eq!(slots[0], Property::new(DataType::String, 8));
    assert_eq!(slots[1], Property::new(DataType::Int, 4));
    assert_eq!(slots[2], Property::new(DataType::Byte, 0));
    assert_eq!(authors.object_info.static_size, 16);
    assert_eq!(books.object_info.properties[0], Property::new(DataType::Long, 0));
    assert_eq!(books.object_info.static_size, 8);

    // the indexes, with their properties in the declared order
    assert_eq!(authors.indexes.len(), 2);
    assert_eq!(books.indexes.len(), 0);
    let by_name = &authors.indexes[0];
    assert_eq!(by_name.name.as_str(), "name");
    assert!(by_name.unique);
    assert_eq!(
        by_name.properties,
        vec![IndexProperty::new(slots[0], IndexType::Value, true)]
    );
    let by_age = &authors.indexes[1];
    assert_eq!(by_age.name.as_str(), "age_name");
    assert!(!by_age.unique);
    assert_eq!(
        by_age.properties,
        vec![
            IndexProperty::new(slots[1], IndexType::Value, true),
            IndexProperty::new(slots[0], IndexType::Hash, false),
        ]
    );

    // the links, numbered over all collections
    let to_books = Link::new(0, 1, 0, 1);
    let friends = Link::new(2, 3, 0, 0);
    let writer = Link::new(4, 5, 1, 0);
    assert_eq!(authors.links, vec![to_books, friends]);
    assert_eq!(authors.backlinks, vec![friends, writer]);
    assert_eq!(books.links, vec![writer]);
    assert_eq!(books.backlinks, vec![to_books]);

    // nothing is stored, and the first id handed out is 1
    for cd in isar.data.cols.iter() {
        assert_eq!(cd.last_id, 0);
        assert_eq!(cd.data.len(), 0);
        assert!(cd.indexes.iter().all(|db| db.len() == 0));
    }
    assert_eq!(isar.data.links.len(), 0);
    let mut txn = isar.begin_txn(true);
    assert_eq!(authors.put(&mut txn, None, &author(authors, "ann", 30), false).unwrap(), 1);
    assert_eq!(books.put(&mut txn, None, &book(books, 100), false).unwrap(), 1);
}

#[test]
fn open_takes_the_first_collection_of_a_name() {
    let twice = vec![
        CollectionSchema::new("A", vec![], vec![], vec![LinkSchema::new("next", "B")]),
        CollectionSchema::new("B", vec![], vec![], vec![]),
        CollectionSchema::new("B", vec![], vec![], vec![]),
    ];
    let isar = IsarInstance::open(&twice).unwrap();
    assert_eq!(isar.get_collection(0).unwrap().links, vec![Link::new(0, 1, 0, 1)]);
    assert_eq!(isar.get_collection(1).unwrap().backlinks, vec![Link::new(0, 1, 0, 1)]);
    assert_eq!(isar.get_collection(2).unwrap().backlinks, Vec::<Link>::new());
}

#[test]
fn index_lookup_follows_a_replacing_put() {
    let isar = IsarInstance::open(&vec![author_schema(), book_schema()]).unwrap();
    let col = isar.get_collection(0).unwrap();
    let mut txn = isar.begin_txn(true);
    let first = col.put(&mut txn, None, &author(col, "x", 1), false).unwrap();
    let second = col.put(&mut txn, None, &author(col, "x", 2), true).unwrap();
    assert_ne!(first, second);

    let index = col.debug_get_index(0);
    let db = col.debug_get_index_db(&txn, 0).unwrap();
    assert_eq!(db.len(), 1);
    let found = index.get_id(db, &name_key("x")).unwrap().unwrap();
    assert_eq!((found.get_prefix(), found.get_id()), (col.id, second));
    assert!(index.get_id(db, &name_key("y")).unwrap().is_none());
    let age = col.get_property_by_index(1).unwrap();
    assert_eq!(age.get_int(col.get(&txn, found.get_id()).unwrap().unwrap()), 2);
}

#[test]
fn index_lookup_yields_the_first_id() {
    let slot = Property::new(DataType::Int, 0);
    let index = IsarIndex::new(
        "age",
        vec![IndexProperty::new(slot, IndexType::Value, true)],
        false,
    );
    let mut key = IndexKey::new();
    key.add_int(7);
    let mut other = IndexKey::new();
    other.add_int(8);
    let mut db = Db::new(true);
    db.put(key.as_bytes(), &IntKey::new(0, 9).as_bytes());
    db.put(key.as_bytes(), &IntKey::new(0, 4).as_bytes());
    db.put(other.as_bytes(), &IntKey::new(0, 1).as_bytes());
    let found = index.get_id(&db, &key).unwrap().unwrap();
    assert_eq!((found.get_prefix(), found.get_id()), (0, 4));

    // a first value that spells no id key is a corruption, whatever follows it
    db.put(other.as_bytes(), &[0, 0, 0]);
    assert!(matches!(
        index.get_id(&db, &other),
        Err(IsarError::DbCorrupted { .. })
    ));
    let mut missing = IndexKey::new();
    missing.add_int(9);
    assert!(index.get_id(&db, &missing).unwrap().is_none());
}

#[test]
fn delete_spares_the_other_edges() {
    let isar = IsarInstance::open(&vec![author_schema(), book_schema()]).unwrap();
    let authors = isar.get_collection(0).unwrap();
    let books = isar.get_collection(1).unwrap();
    let mut txn = isar.begin_txn(true);
    for (name, age) in [("a", 1), ("b", 2), ("c", 3)] {
        authors.put(&mut txn, None, &author(authors, name, age), false).unwrap();
    }
    for pages in [10, 20] {
        books.put(&mut txn, None, &book(books, pages), false).unwrap();
    }
    // friends: 1 -> 2, 1 -> 3, 3 -> 2; books: 1 -> 2, 2 -> 2; writer: 2 -> 1
    assert!(authors.link(&mut txn, 1, 1, 2).unwrap());
    assert!(authors.link(&mut txn, 1, 1, 3).unwrap());
    assert!(authors.link(&mut txn, 1, 3, 2).unwrap());
    assert!(authors.link(&mut txn, 0, 1, 2).unwrap());
    assert!(authors.link(&mut txn, 0, 2, 2).unwrap());
    assert!(books.link(&mut txn, 0, 2, 1).unwrap());
    let stored = txn.get_read_txn().unwrap().links.len();
    assert_eq!(stored, 12);

    // author 2 goes, with the three edges at it, both ways
    assert!(authors.delete(&mut txn, 2).unwrap());
    assert_eq!(txn.get_read_txn().unwrap().links.len(), 6);
    assert_eq!(targets(authors, &txn, 1, false, 1), vec![3]);
    assert_eq!(targets(authors, &txn, 0, true, 3), vec![1]);
    assert_eq!(targets(authors, &txn, 1, false, 3), Vec::<i64>::new());
    assert_eq!(targets(authors, &txn, 0, true, 2), Vec::<i64>::new());
    assert_eq!(targets(authors, &txn, 0, false, 1), vec![2]);
    assert_eq!(targets(books, &txn, 0, true, 2), vec![1]);
    assert_eq!(targets(books, &txn, 0, false, 2), vec![1]);
    assert_eq!(targets(authors, &txn, 1, true, 1), vec![2]);

    // a replacing put severs the edges of the object that it pushes out, and no others
    let pushed = authors.put(&mut txn, None, &author(authors, "c", 9), true).unwrap();
    assert_eq!(pushed, 4);
    assert_eq!(authors.get(&txn, 3).unwrap(), None);
    assert_eq!(targets(authors, &txn, 1, false, 1), Vec::<i64>::new());
    assert_eq!(targets(authors, &txn, 0, false, 1), vec![2]);
    assert_eq!(targets(books, &txn, 0, false, 2), vec![1]);
    assert_eq!(txn.get_read_txn().unwrap().links.len(), 4);
}

#[test]
fn queries_are_fitted_to_the_collections() {
    let isar = IsarInstance::open(&vec![author_schema(), book_schema()]).unwrap();
    let authors = isar.get_collection(0).unwrap();
    let books = isar.get_collection(1).unwrap();
    let name = authors.get_property_by_index(0).unwrap();
    let age = authors.get_property_by_index(1).unwrap();
    let pages = books.get_property_by_index(0).unwrap();
    let to_books = authors.get_link(0, false).unwrap();
    let elsewhere = Property::new(DataType::Int, 12);

    assert!(authors.new_query_builder().build().fits(&isar));

    let mut b = authors.new_query_builder();
    b.set_filter(AndCond::filter(vec![
        IntBetweenCond::filter(age, 1, 5).unwrap(),
        NotCond::filter(StringEqualCond::filter(name, Some("x"), true).unwrap()),
        LinkCond::filter(to_books, false, IsNullCond::filter(pages)),
    ]));
    b.add_sort(name, true).unwrap();
    b.add_distinct(age);
    assert!(b.build().fits(&isar));

    // a filter on a slot that the layout does not have
    let mut b = authors.new_query_builder();
    b.set_filter(IntBetweenCond::filter(elsewhere, 1, 5).unwrap());
    assert!(!b.build().fits(&isar));
    // the inner filter of a link filter goes by the target's layout
    let mut b = authors.new_query_builder();
    b.set_filter(LinkCond::filter(to_books, false, IsNullCond::filter(age)));
    assert!(!b.build().fits(&isar));
    let mut b = books.new_query_builder();
    b.set_filter(LinkCond::filter(to_books, true, IsNullCond::filter(age)));
    assert!(b.build().fits(&isar));
    // a filter that was put together for another type
    let mut query = authors.new_query_builder().build();
    query.filter = Some(isar_core::query::filter::Filter::IntBetween(IntBetweenCond {
        upper: 1,
        lower: 0,
        property: name,
    }));
    assert!(!query.fits(&isar));

    // sorting and telling apart
    let mut query = authors.new_query_builder().build();
    query.sort = vec![SortKey { property: elsewhere, ascending: true }];
    assert!(!query.fits(&isar));
    let mut b = authors.new_query_builder();
    b.add_distinct(pages);
    assert!(!b.build().fits(&isar));

    // scans
    let lower = IndexKey::new();
    let upper = IndexKey::new();
    let mut b = authors.new_query_builder();
    let scan = authors.create_secondary_where_clause(1, &lower, &upper, false).unwrap();
    b.add_where_clause(scan, true, true).unwrap();
    let query = b.build();
    assert!(query.fits(&isar));
    let narrow = IsarInstance::open(&vec![book_schema(), author_schema()]).unwrap();
    assert!(!query.fits(&narrow));
    let mut query = authors.new_query_builder().build();
    query.col_id = 2;
    assert!(!query.fits(&isar));
}

#[test]
fn errors_say_what_went_wrong() {
    let said = |e: IsarError| match e {
        IsarError::IllegalArgument { message } => message,
        _ => String::new(),
    };
    assert_eq!(said(schema_error("Too many links.")), "Too many links.");
    assert_eq!(said(schema_error("")), "");
    assert_eq!(said(too_large()), "The object is too large.");
    assert_eq!(said(wrong_type()), "Property does not support this filter.");
}
