use isar_core::hash::{hash_bytes, Hasher64};
use isar_core::index::index_key::IndexKey;
use isar_core::index::index_key_builder::IndexKeyBuilder;
use isar_core::index::IndexProperty;
use isar_core::object::data_type::DataType;
use isar_core::object::object_builder::ObjectBuilder;
use isar_core::object::object_info::ObjectInfo;
use isar_core::object::property::{DynamicPosition, Property};
use isar_core::query::fast_wild_compare::fast_wild_compare_portable;
use isar_core::schema::index_schema::IndexType;
use isar_core::schema::layout::compute_layout;
use std::cmp::Ordering;

fn all_types() -> Vec<DataType> {
    vec![
        DataType::String,
        DataType::Byte,
        DataType::Long,
        DataType::Int,
        DataType::Double,
        DataType::Float,
        DataType::ByteList,
        DataType::IntList,
        DataType::Byte,
        DataType::FloatList,
        DataType::LongList,
        DataType::DoubleList,
        DataType::StringList,
    ]
}

#[test]
fn layout_follows_the_format() {
    let info = compute_layout(&all_types()).unwrap();
    let offsets: Vec<usize> = info.properties.iter().map(|p| p.offset).collect();
    // bytes at 0 and 1, four-byte numbers from 4, eight-byte numbers
    // from 16, descriptors from 32
    assert_eq!(offsets, vec![32, 0, 16, 4, 24, 8, 40, 48, 1, 56, 64, 72, 80]);
    assert_eq!(info.get_static_size(), 88);
    let empty = compute_layout(&vec![]).unwrap();
    assert_eq!(empty.get_static_size(), 0);
    let one = compute_layout(&vec![DataType::Byte, DataType::Long]).unwrap();
    assert_eq!(one.properties[1].offset, 8);
    assert_eq!(one.get_static_size(), 16);
}

fn build_everything(info: &ObjectInfo) -> Vec<u8> {
    let mut b = ObjectBuilder::new(info).unwrap();
    b.write_string(Some("héllo")).unwrap();
    b.write_byte(7);
    b.write_long(-5_000_000_000);
    b.write_int(-42);
    b.write_double_bits(2.5f64.to_bits());
    b.write_float_bits((-0.75f32).to_bits());
    b.write_byte_list(Some(&[1, 2, 3])).unwrap();
    b.write_int_list(Some(&[i32::MIN, -1, 0, i32::MAX])).unwrap();
    b.write_byte(255);
    b.write_float_list_bits(Some(&vec![1.5f32.to_bits(), f32::NAN.to_bits()])).unwrap();
    b.write_long_list(Some(&[i64::MIN, 9, i64::MAX])).unwrap();
    b.write_double_list_bits(Some(&vec![])).unwrap();
    b.write_string_list(Some(&vec![Some("ab"), None, Some(""), Some("xyz")])).unwrap();
    b.finish().as_bytes().to_vec()
}

#[test]
fn builder_round_trip() {
    let info = compute_layout(&all_types()).unwrap();
    let object = build_everything(&info);
    assert!(info.verify_object(&object));
    let p = &info.properties;
    assert_eq!(p[0].get_string(&object), Some("héllo"));
    assert_eq!(p[1].get_byte(&object), 7);
    assert_eq!(p[2].get_long(&object), -5_000_000_000);
    assert_eq!(p[3].get_int(&object), -42);
    assert_eq!(f64::from_bits(p[4].get_double_bits(&object)), 2.5);
    assert_eq!(f32::from_bits(p[5].get_float_bits(&object)), -0.75);
    assert_eq!(p[6].get_byte_list(&object), Some(&[1u8, 2, 3][..]));
    assert_eq!(p[7].get_int_list(&object), Some(vec![i32::MIN, -1, 0, i32::MAX]));
    assert_eq!(p[8].get_byte(&object), 255);
    let floats = p[9].get_float_list_bits(&object).unwrap();
    assert_eq!(f32::from_bits(floats[0]), 1.5);
    assert!(f32::from_bits(floats[1]).is_nan());
    assert_eq!(p[10].get_long_list(&object), Some(vec![i64::MIN, 9, i64::MAX]));
    assert_eq!(p[11].get_double_list_bits(&object), Some(vec![]));
    assert_eq!(
        p[12].get_string_list(&object),
        Some(vec![Some("ab"), None, Some(""), Some("xyz")])
    );
    assert_eq!(p[7].get_length(&object), Some(4));
    assert_eq!(
        p[12].get_dynamic_positions(&object).map(|l| l.len()),
        Some(4)
    );
    for q in p.iter() {
        assert!(!q.is_null(&object) || q.data_type == DataType::Byte && q.get_byte(&object) == 0);
    }
    // lists lie on the boundary of their elements
    assert_eq!(p[7].get_dynamic_position(&object).unwrap().offset % 4, 0);
    assert_eq!(p[10].get_dynamic_position(&object).unwrap().offset % 8, 0);
}

#[test]
fn builder_writes_nulls() {
    let info = compute_layout(&all_types()).unwrap();
    let mut b = ObjectBuilder::new(&info).unwrap();
    b.write_string(None).unwrap();
    b.write_byte(Property::NULL_BYTE);
    b.write_long(Property::NULL_LONG);
    b.write_int(Property::NULL_INT);
    b.write_double_bits(Property::NULL_DOUBLE_BITS);
    b.write_float_bits(Property::NULL_FLOAT_BITS);
    b.write_byte_list(None).unwrap();
    b.write_int_list(None).unwrap();
    b.write_byte(0);
    b.write_float_list_bits(None).unwrap();
    b.write_long_list(None).unwrap();
    b.write_null();
    b.write_string_list(None).unwrap();
    let object = b.finish().as_bytes().to_vec();
    assert_eq!(object.len(), info.get_static_size());
    assert!(info.verify_object(&object));
    for q in info.properties.iter() {
        assert!(q.is_null(&object), "{:?}", q);
    }
    assert_eq!(info.properties[12].get_string_list(&object), None);
    assert_eq!(info.properties[11].get_double_list_bits(&object), None);
}

#[test]
fn verify_object_rejects_malformed_objects() {
    let info = compute_layout(&vec![DataType::Int, DataType::String, DataType::IntList]).unwrap();
    assert_eq!(info.get_static_size(), 24);
    let mut b = ObjectBuilder::new(&info).unwrap();
    b.write_int(1);
    b.write_string(Some("ab")).unwrap();
    b.write_int_list(Some(&[5])).unwrap();
    let good = b.finish().as_bytes().to_vec();
    assert!(info.verify_object(&good));

    // too short for the header
    assert!(!info.verify_object(&good[..20]));
    // the string's payload reaches past the end
    let mut long = good.clone();
    long[12] = 200;
    assert!(!info.verify_object(&long));
    // the string's payload lies in the header
    let mut inside = good.clone();
    inside[8] = 4;
    assert!(!info.verify_object(&inside));
    // the string is not UTF-8
    let mut broken = good.clone();
    broken[24] = 0xff;
    assert!(!info.verify_object(&broken));
    // the list is not aligned to its elements
    let mut odd = good.clone();
    odd.push(0);
    odd[16] = 29;
    assert!(!info.verify_object(&odd));
    // two payloads share bytes
    let mut shared = good.clone();
    shared[16] = 24;
    assert!(!info.verify_object(&shared));
    // slots outside the header are refused when the layout is made
    assert!(ObjectInfo::new(vec![Property::new(DataType::Long, 4)], 8).is_none());
    assert!(ObjectInfo::new(vec![Property::new(DataType::Long, 0)], 8).is_some());
}

#[test]
fn compare_orders_values() {
    let int = Property::new(DataType::Int, 0);
    assert_eq!(int.compare(&5i32.to_le_bytes(), &7i32.to_le_bytes()), Ordering::Less);
    assert_eq!(int.compare(&7i32.to_le_bytes(), &7i32.to_le_bytes()), Ordering::Equal);
    assert_eq!(int.compare(&7i32.to_le_bytes(), &(-7i32).to_le_bytes()), Ordering::Greater);
    let byte = Property::new(DataType::Byte, 0);
    assert_eq!(byte.compare(&[1], &[200]), Ordering::Less);
    let long = Property::new(DataType::Long, 0);
    assert_eq!(
        long.compare(&i64::MIN.to_le_bytes(), &0i64.to_le_bytes()),
        Ordering::Less
    );

    // floats: the second operand counts, and a NaN sorts first
    let float = Property::new(DataType::Float, 0);
    let f = |v: f32| v.to_le_bytes();
    assert_eq!(float.compare(&f(1.0), &f(2.0)), Ordering::Less);
    assert_eq!(float.compare(&f(2.0), &f(1.0)), Ordering::Greater);
    assert_eq!(float.compare(&f(2.0), &f(2.0)), Ordering::Equal);
    assert_eq!(float.compare(&f(-0.0), &f(0.0)), Ordering::Equal);
    assert_eq!(float.compare(&f(f32::NAN), &f(-1.0e30)), Ordering::Less);
    assert_eq!(float.compare(&f(0.0), &f(f32::NAN)), Ordering::Greater);
    assert_eq!(float.compare(&f(f32::NAN), &f(f32::NAN)), Ordering::Equal);
    let double = Property::new(DataType::Double, 0);
    let d = |v: f64| v.to_le_bytes();
    assert_eq!(double.compare(&d(-3.0), &d(-2.0)), Ordering::Less);
    assert_eq!(double.compare(&d(f64::NAN), &d(f64::NEG_INFINITY)), Ordering::Less);
    assert_eq!(double.compare_values(&d(5.0), &d(-5.0)), 1);

    let string = Property::new(DataType::String, 0);
    let s = |v: Option<&str>| {
        let info = compute_layout(&vec![DataType::String]).unwrap();
        let mut b = ObjectBuilder::new(&info).unwrap();
        b.write_string(v).unwrap();
        b.finish().as_bytes().to_vec()
    };
    assert_eq!(string.compare(&s(None), &s(Some(""))), Ordering::Less);
    assert_eq!(string.compare(&s(Some("a")), &s(None)), Ordering::Greater);
    assert_eq!(string.compare(&s(None), &s(None)), Ordering::Equal);
    assert_eq!(string.compare(&s(Some("ab")), &s(Some("b"))), Ordering::Less);
    assert_eq!(string.compare(&s(Some("ab")), &s(Some("a"))), Ordering::Greater);
    assert_eq!(string.compare(&s(Some("ab")), &s(Some("ab"))), Ordering::Equal);
}

#[test]
fn hashing_is_stable() {
    // 64-bit FNV-1a
    assert_eq!(hash_bytes(b""), 0xcbf29ce484222325);
    assert_eq!(hash_bytes(b"a"), 0xaf63dc4c8601ec8c);
    assert_eq!(hash_bytes(b"foobar"), 0x85944171f73967e8);
    let mut hasher = Hasher64::new();
    hasher.write(b"foo");
    hasher.write(b"bar");
    assert_eq!(hasher.finish(), hash_bytes(b"foobar"));
    let mut hasher = Hasher64::new();
    hasher.write_u32(0x0403_0201);
    assert_eq!(hasher.finish(), hash_bytes(&[1, 2, 3, 4]));

    // a value feeds its length marker and its bytes
    let info = compute_layout(&vec![DataType::ByteList, DataType::Int, DataType::Byte]).unwrap();
    let mut b = ObjectBuilder::new(&info).unwrap();
    b.write_byte_list(Some(&[9, 8])).unwrap();
    b.write_int(0x0102_0304);
    b.write_byte(5);
    let object = b.finish().as_bytes().to_vec();
    let mut hasher = Hasher64::new();
    info.properties[0].hash_value(&object, &mut hasher);
    assert_eq!(hasher.finish(), hash_bytes(&[3, 0, 0, 0, 9, 8]));
    let mut hasher = Hasher64::new();
    info.properties[1].hash_value(&object, &mut hasher);
    assert_eq!(hasher.finish(), hash_bytes(&[4, 3, 2, 1]));
    let mut hasher = Hasher64::new();
    info.properties[2].hash_value(&object, &mut hasher);
    assert_eq!(hasher.finish(), hash_bytes(&[5]));
    assert_eq!(info.properties[0].get_raw(&object), &[9, 8]);
    assert_eq!(info.properties[1].get_raw(&object), &[4, 3, 2, 1]);

    // a null list differs from an empty one
    let mut b = ObjectBuilder::new(&info).unwrap();
    b.write_byte_list(None).unwrap();
    b.write_int(0);
    b.write_byte(0);
    let null = b.finish().as_bytes().to_vec();
    let mut b = ObjectBuilder::new(&info).unwrap();
    b.write_byte_list(Some(&[])).unwrap();
    b.write_int(0);
    b.write_byte(0);
    let empty = b.finish().as_bytes().to_vec();
    let hash_of = |o: &[u8]| {
        let mut hasher = Hasher64::new();
        info.properties[0].hash_value(o, &mut hasher);
        hasher.finish()
    };
    assert_eq!(hash_of(&null), hash_bytes(&[0, 0, 0, 0]));
    assert_eq!(hash_of(&empty), hash_bytes(&[1, 0, 0, 0]));

    // a string list feeds every element
    let info = compute_layout(&vec![DataType::StringList]).unwrap();
    let mut b = ObjectBuilder::new(&info).unwrap();
    b.write_string_list(Some(&vec![Some("a"), None])).unwrap();
    let object = b.finish().as_bytes().to_vec();
    let mut hasher = Hasher64::new();
    info.properties[0].hash_value(&object, &mut hasher);
    assert_eq!(
        hasher.finish(),
        hash_bytes(&[3, 0, 0, 0, 2, 0, 0, 0, b'a', 0, 0, 0, 0])
    );
}

fn key_of(f: impl Fn(&mut IndexKey)) -> Vec<u8> {
    let mut key = IndexKey::new();
    f(&mut key);
    key.as_bytes().to_vec()
}

#[test]
fn index_keys_keep_the_order_of_values() {
    assert_eq!(key_of(|k| k.add_byte(0x7f)), vec![0x7f]);
    assert_eq!(key_of(|k| k.add_int(i32::MIN)), vec![0, 0, 0, 0]);
    assert_eq!(key_of(|k| k.add_int(i32::MAX)), vec![0xff; 4]);
    assert_eq!(key_of(|k| k.add_int(0)), vec![0x80, 0, 0, 0]);
    assert_eq!(key_of(|k| k.add_int(-1)), vec![0x7f, 0xff, 0xff, 0xff]);
    assert_eq!(key_of(|k| k.add_long(i64::MIN)), vec![0; 8]);
    assert_eq!(key_of(|k| k.add_long(i64::MAX)), vec![0xff; 8]);
    assert_eq!(key_of(|k| k.add_long(1)), vec![0x80, 0, 0, 0, 0, 0, 0, 1]);
    assert_eq!(key_of(|k| k.add_hash(0x0102_0304_0506_0708)), vec![1, 2, 3, 4, 5, 6, 7, 8]);
    assert_eq!(key_of(|k| k.add_string(None)), Vec::<u8>::new());
    assert_eq!(key_of(|k| k.add_string(Some(b""))), vec![0]);
    assert_eq!(key_of(|k| k.add_string(Some(b"ab"))), vec![b'a', b'b', 0]);
    let long = vec![b'x'; 2000];
    let truncated = key_of(|k| k.add_string(Some(&long)));
    assert_eq!(truncated.len(), 1025);
    assert_eq!(truncated[1023], b'x');
    assert_eq!(truncated[1024], 0);
    // components follow each other
    assert_eq!(
        key_of(|k| {
            k.add_byte(1);
            k.add_int(0);
            k.add_string(Some(b"z"));
        }),
        vec![1, 0x80, 0, 0, 0, b'z', 0]
    );

    let ints = [i32::MIN, -70000, -1, 0, 1, 255, 256, 70000, i32::MAX];
    for a in ints {
        for b in ints {
            assert_eq!(a.cmp(&b), key_of(|k| k.add_int(a)).cmp(&key_of(|k| k.add_int(b))));
            let (x, y) = (a as i64 * 5_000_000_000, b as i64 * 5_000_000_000);
            assert_eq!(x.cmp(&y), key_of(|k| k.add_long(x)).cmp(&key_of(|k| k.add_long(y))));
        }
    }
    let strings = ["", "a", "a\0", "aa", "ab", "b", "z", "é"];
    for a in strings {
        for b in strings {
            assert_eq!(
                a.as_bytes().cmp(b.as_bytes()),
                key_of(|k| k.add_string(Some(a.as_bytes())))
                    .cmp(&key_of(|k| k.add_string(Some(b.as_bytes())))),
                "{:?} {:?}",
                a,
                b
            );
        }
        assert!(key_of(|k| k.add_string(None)) < key_of(|k| k.add_string(Some(a.as_bytes()))));
    }
}

#[test]
fn key_builder_makes_one_key_per_element() {
    let info = compute_layout(&vec![DataType::IntList, DataType::String, DataType::Byte]).unwrap();
    let list = info.properties[0];
    let name = info.properties[1];
    let flag = info.properties[2];
    let object = |l: Option<&[i32]>, s: Option<&str>, f: u8| {
        let mut b = ObjectBuilder::new(&info).unwrap();
        b.write_int_list(l).unwrap();
        b.write_string(s).unwrap();
        b.write_byte(f);
        b.finish().as_bytes().to_vec()
    };
    let keys = |props: Vec<IndexProperty>, o: &[u8]| -> Vec<Vec<u8>> {
        IndexKeyBuilder::new(&props)
            .create_keys(o)
            .iter()
            .map(|k| k.as_bytes().to_vec())
            .collect()
    };
    let multi = vec![
        IndexProperty::new(list, IndexType::Value, true),
        IndexProperty::new(flag, IndexType::Value, true),
    ];
    let o = object(Some(&[3, -3]), Some("Ab"), 9);
    assert_eq!(
        keys(multi.clone(), &o),
        vec![vec![0x80, 0, 0, 3, 9], vec![0x7f, 0xff, 0xff, 0xfd, 9]]
    );
    // the null list and the empty list each have one key of their own
    assert_eq!(keys(multi.clone(), &object(None, None, 9)), vec![vec![9]]);
    assert_eq!(keys(multi.clone(), &object(Some(&[]), None, 9)), vec![vec![0, 9]]);
    assert!(IndexProperty::new(list, IndexType::Value, true).is_multi_entry());
    assert!(!IndexProperty::new(list, IndexType::Hash, true).is_multi_entry());
    assert!(!IndexProperty::new(name, IndexType::Value, true).is_multi_entry());

    // a hashed list is one component
    let hashed = vec![IndexProperty::new(list, IndexType::Hash, true)];
    let mut expected = IndexKey::new();
    expected.add_hash(isar_core::hash::hash_bytes(&[
        3, 0, 0, 0, 3, 0, 0, 0, 0xfd, 0xff, 0xff, 0xff,
    ]));
    assert_eq!(keys(hashed, &o), vec![expected.as_bytes().to_vec()]);

    // strings: by value with and without case, and by hash
    let by_value = |cs: bool| vec![IndexProperty::new(name, IndexType::Value, cs)];
    assert_eq!(keys(by_value(true), &o), vec![vec![b'A', b'b', 0]]);
    assert_eq!(keys(by_value(false), &o), vec![vec![b'a', b'b', 0]]);
    assert_eq!(keys(by_value(false), &object(None, None, 0)), vec![Vec::<u8>::new()]);
    let by_hash = vec![IndexProperty::new(name, IndexType::Hash, false)];
    let mut expected = IndexKey::new();
    expected.add_hash(isar_core::hash::hash_bytes(b"ab"));
    assert_eq!(keys(by_hash.clone(), &o), vec![expected.as_bytes().to_vec()]);
    assert_eq!(keys(by_hash, &object(None, None, 0)), vec![vec![0; 8]]);
    assert_eq!(
        IndexProperty::new(name, IndexType::Value, false).get_string_with_case(&o),
        Some("ab".to_string())
    );
    assert_eq!(
        IndexProperty::new(name, IndexType::Value, true).get_string_with_case(&o),
        Some("Ab".to_string())
    );
    assert_eq!(
        IndexProperty::new(name, IndexType::Value, true).get_string_with_case(&object(None, None, 0)),
        None
    );
}

#[test]
fn wildcards_match() {
    let cases = [
        ("", "", true),
        ("", "*", true),
        ("", "?", false),
        ("a", "", false),
        ("abc", "abc", true),
        ("abc", "a?c", true),
        ("abc", "a*", true),
        ("abc", "*c", true),
        ("abc", "*b*", true),
        ("abc", "a*d", false),
        ("abc", "????", false),
        ("abc", "???", true),
        ("abc", "*?*?*?*", true),
        ("aXbXc", "a*X*c", true),
        ("mississippi", "m*iss*pi", true),
        ("mississippi", "m*iss*pix", false),
        ("héllo", "h?llo", true),
        ("héllo", "h??llo", false),
        ("a*b", "a*b", true),
    ];
    for (text, pattern, expected) in cases {
        assert_eq!(
            fast_wild_compare_portable(text, pattern),
            expected,
            "{:?} {:?}",
            text,
            pattern
        );
    }
}

#[test]
fn dynamic_position_null() {
    assert!(DynamicPosition { offset: 0, length: 5 }.is_null());
    assert!(!DynamicPosition { offset: 8, length: 0 }.is_null());
    assert!(DataType::Int.is_static());
    assert!(DataType::StringList.is_dynamic());
    assert_eq!(DataType::IntList.get_element_type(), Some(DataType::Int));
    assert_eq!(DataType::String.get_element_type(), None);
    assert_eq!(DataType::LongList.get_element_size(), 8);
    assert_eq!(DataType::Float.get_static_size(), 4);
}

#[test]
fn layouts_are_checked() {
    let info = compute_layout(&all_types()).unwrap();
    assert!(info.check_layout());
    let overlapping = ObjectInfo {
        properties: vec![Property::new(DataType::Int, 0), Property::new(DataType::Long, 2)],
        static_size: 16,
    };
    assert!(!overlapping.check_layout());
    let outside = ObjectInfo {
        properties: vec![Property::new(DataType::Int, 14)],
        static_size: 16,
    };
    assert!(!outside.check_layout());
    let apart = ObjectInfo {
        properties: vec![Property::new(DataType::Int, 8), Property::new(DataType::Long, 0)],
        static_size: 16,
    };
    assert!(apart.check_layout());
}
