use isar_core::object::data_type::DataType;
use isar_core::object::property::Property;

fn align(bytes: &[u8]) -> Vec<u8> {
    bytes.to_vec()
}

#[test]
fn test_get_byte() {
    let property = Property::new(DataType::Byte, 0);

    let bytes = [Property::NULL_BYTE];
    assert_eq!(property.get_byte(&bytes), Property::NULL_BYTE);

    let bytes = [123];
    assert_eq!(property.get_byte(&bytes), 123);

    let null_bytes = [255];
    assert_eq!(property.get_byte(&null_bytes), 255);
}

#[test]
fn test_byte_is_null() {
    let property = Property::new(DataType::Byte, 0);

    let null_bytes = [0];
    assert!(property.is_null(&null_bytes));

    let bytes = [123];
    assert!(!property.is_null(&bytes));

    let bytes = [1];
    assert!(!property.is_null(&bytes));
}

#[test]
fn test_int_is_null() {
    let property = Property::new(DataType::Int, 0);

    let null_bytes = i32::to_le_bytes(Property::NULL_INT);
    assert!(property.is_null(&null_bytes));

    let bytes = i32::to_le_bytes(0);
    assert!(!property.is_null(&bytes));
}

#[test]
fn test_get_int() {
    let property = Property::new(DataType::Int, 0);

    let bytes = i32::to_le_bytes(123);
    assert_eq!(property.get_int(&bytes), 123);

    let null_bytes = i32::to_le_bytes(Property::NULL_INT);
    assert_eq!(property.get_int(&null_bytes), Property::NULL_INT);
}

#[test]
fn test_get_float() {
    let property = Property::new(DataType::Float, 0);

    let bytes = f32::to_le_bytes(123.123);
    let value = f32::from_bits(property.get_float_bits(&bytes));
    assert!((value - 123.123).abs() < std::f32::consts::TAU);
    assert_eq!(value, 123.123f32);

    let null_bytes = f32::to_le_bytes(f32::from_bits(Property::NULL_FLOAT_BITS));
    assert!(f32::from_bits(property.get_float_bits(&null_bytes)).is_nan());
}

#[test]
fn test_float_is_null() {
    let property = Property::new(DataType::Float, 0);

    let null_bytes = f32::to_le_bytes(f32::NAN);
    assert!(property.is_null(&null_bytes));

    let bytes = i32::to_le_bytes(0);
    assert!(!property.is_null(&bytes));
}

#[test]
fn test_get_long() {
    let property = Property::new(DataType::Long, 0);

    let bytes = i64::to_le_bytes(123123123123123123);
    assert_eq!(property.get_long(&bytes), 123123123123123123);

    let null_bytes = i64::to_le_bytes(Property::NULL_LONG);
    assert_eq!(property.get_long(&null_bytes), Property::NULL_LONG);
}

#[test]
fn test_long_is_null() {
    let property = Property::new(DataType::Long, 0);

    let null_bytes = i64::to_le_bytes(Property::NULL_LONG);
    assert!(property.is_null(&null_bytes));

    let bytes = i64::to_le_bytes(0);
    assert!(!property.is_null(&bytes));
}

#[test]
fn test_get_double() {
    let property = Property::new(DataType::Double, 0);

    let bytes = f64::to_le_bytes(123123.123123123);
    let value = f64::from_bits(property.get_double_bits(&bytes));
    assert!((value - 123123.123123123).abs() < std::f64::consts::TAU);
    assert_eq!(value, 123123.123123123f64);

    let null_bytes = f64::to_le_bytes(f64::from_bits(Property::NULL_DOUBLE_BITS));
    assert!(f64::from_bits(property.get_double_bits(&null_bytes)).is_nan());
}

#[test]
fn test_double_is_null() {
    let property = Property::new(DataType::Double, 0);

    let null_bytes = f64::to_le_bytes(f64::NAN);
    assert!(property.is_null(&null_bytes));

    let bytes = f64::to_le_bytes(0.0);
    assert!(!property.is_null(&bytes));
}

#[test]
fn test_get_string() {
    let property = Property::new(DataType::String, 0);

    let mut bytes = vec![8, 0, 0, 0, 5, 0, 0, 0];
    bytes.extend_from_slice(b"hello");
    assert_eq!(property.get_string(&bytes), Some("hello"));

    let bytes = [8, 0, 0, 0, 0, 0, 0, 0];
    assert_eq!(property.get_string(&bytes), Some(""));

    let bytes = [0, 0, 0, 0, 0, 0, 0, 0];
    assert_eq!(property.get_string(&bytes), None);
}

#[test]
fn test_string_is_null() {
    let property = Property::new(DataType::String, 0);

    let mut bytes = vec![8, 0, 0, 0, 5, 0, 0, 0];
    bytes.extend_from_slice(b"hello");
    assert_eq!(property.is_null(&bytes), false);

    let bytes = [8, 0, 0, 0, 0, 0, 0, 0];
    assert_eq!(property.is_null(&bytes), false);

    let bytes = [0, 0, 0, 0, 0, 0, 0, 0];
    assert_eq!(property.is_null(&bytes), true);
}

#[test]
fn test_get_length() {
    let property = Property::new(DataType::ByteList, 0);

    let bytes = align(&[8, 0, 0, 0, 1, 0, 0, 0]);
    assert_eq!(property.get_length(&bytes), Some(1));

    let bytes = align(&[0, 0, 0, 0, 1, 0, 0, 0]);
    assert_eq!(property.get_length(&bytes), None);
}

#[test]
fn test_list_is_null() {
    let property = Property::new(DataType::ByteList, 0);

    let null_bytes = align(&[0, 0, 0, 0, 0, 0, 0, 0]);
    assert!(property.is_null(&null_bytes));

    let bytes = align(&[8, 0, 0, 0, 1, 0, 0, 0, 1]);
    assert!(!property.is_null(&bytes));

    let bytes = align(&[8, 0, 0, 0, 0, 0, 0, 0]);
    assert!(!property.is_null(&bytes));
}

#[test]
fn test_get_byte_list() {
    let property = Property::new(DataType::ByteList, 0);

    let bytes = align(&[8, 0, 0, 0, 5, 0, 0, 0, 1, 0, 2, 1, 5]);
    assert_eq!(property.get_byte_list(&bytes), Some(&[1, 0, 2, 1, 5][..]));

    let bytes = [8, 0, 0, 0, 0, 0, 0, 0];
    assert_eq!(property.get_byte_list(&bytes), Some(&[][..]));

    let bytes = align(&[0, 0, 0, 0, 0, 0, 0, 0]);
    assert_eq!(property.get_byte_list(&bytes), None);
}

#[test]
fn test_get_int_list() {
    let property = Property::new(DataType::IntList, 0);

    let bytes = align(&[8, 0, 0, 0, 2, 0, 0, 0, 5, 0, 0, 0, 6, 0, 0, 0]);
    assert_eq!(property.get_int_list(&bytes).as_deref(), Some(&[5i32, 6][..]));

    let bytes = [8, 0, 0, 0, 0, 0, 0, 0];
    assert_eq!(property.get_int_list(&bytes).as_deref(), Some(&[][..]));

    let bytes = align(&[0, 0, 0, 0, 0, 0, 0, 0]);
    assert_eq!(property.get_int_list(&bytes).as_deref(), None);
}

#[test]
fn test_get_long_list() {
    let property = Property::new(DataType::LongList, 0);

    let bytes = align(&[
        8, 0, 0, 0, 2, 0, 0, 0, 5, 0, 0, 0, 0, 0, 0, 0, 6, 0, 0, 0, 0, 0, 0, 0,
    ]);
    assert_eq!(property.get_long_list(&bytes).as_deref(), Some(&[5i64, 6][..]));

    let bytes = [8, 0, 0, 0, 0, 0, 0, 0];
    assert_eq!(property.get_long_list(&bytes).as_deref(), Some(&[][..]));

    let bytes = align(&[0, 0, 0, 0, 0, 0, 0, 0]);
    assert_eq!(property.get_long_list(&bytes).as_deref(), None);
}

#[test]
fn test_get_float_list() {
    let property = Property::new(DataType::FloatList, 0);

    let mut bytes = vec![8, 0, 0, 0, 2, 0, 0, 0];
    bytes.extend_from_slice(&10.5f32.to_le_bytes());
    bytes.extend_from_slice(&20.6f32.to_le_bytes());
    let bytes = align(&bytes);
    let list: Option<Vec<f32>> = property
        .get_float_list_bits(&bytes)
        .map(|l| l.into_iter().map(f32::from_bits).collect());
    assert_eq!(list.as_deref(), Some(&[10.5f32, 20.6][..]));

    let bytes = [8, 0, 0, 0, 0, 0, 0, 0];
    assert_eq!(property.get_float_list_bits(&bytes).as_deref(), Some(&[][..]));

    let bytes = align(&[0, 0, 0, 0, 0, 0, 0, 0]);
    assert_eq!(property.get_float_list_bits(&bytes), None);
}

#[test]
fn test_get_double_list() {
    let property = Property::new(DataType::DoubleList, 0);

    let mut bytes = vec![8, 0, 0, 0, 2, 0, 0, 0];
    bytes.extend_from_slice(&10.5f64.to_le_bytes());
    bytes.extend_from_slice(&20.6f64.to_le_bytes());
    let bytes = align(&bytes);
    let list: Option<Vec<f64>> = property
        .get_double_list_bits(&bytes)
        .map(|l| l.into_iter().map(f64::from_bits).collect());
    assert_eq!(list.as_deref(), Some(&[10.5f64, 20.6][..]));

    let bytes = [8, 0, 0, 0, 0, 0, 0, 0];
    assert_eq!(property.get_double_list_bits(&bytes).as_deref(), Some(&[][..]));

    let bytes = align(&[0, 0, 0, 0, 0, 0, 0, 0]);
    assert_eq!(property.get_double_list_bits(&bytes), None);
}

#[test]
fn test_get_string_list() {
    let property = Property::new(DataType::StringList, 0);

    let mut bytes = vec![
        8, 0, 0, 0, 3, 0, 0, 0, 32, 0, 0, 0, 5, 0, 0, 0, 37, 0, 0, 0, 0, 0, 0, 0, 0, 0, 0, 0,
        0, 0, 0, 0,
    ];
    bytes.extend_from_slice(b"hello");
    assert_eq!(
        property.get_string_list(&bytes),
        Some(vec![Some("hello"), Some(""), None])
    );

    let bytes = [8, 0, 0, 0, 0, 0, 0, 0];
    assert_eq!(property.get_string_list(&bytes), Some(vec![]));

    let bytes = [0, 0, 0, 0, 0, 0, 0, 0];
    assert_eq!(property.get_string_list(&bytes), None);
}
