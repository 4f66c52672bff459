use crate::object::bytes::{spec_u32_le, spec_u64_le};
use crate::object::data_type::DataType;
use crate::object::object_info::{elements_behind, property_valid, spec_alignment};
use crate::object::property::{
    element_bytes, element_readable, payload_bytes, payload_dwords, payload_fits, payload_ints,
    payload_longs, payload_positions, payload_words, spec_descriptor, DynamicPosition, Property,
};
use vstd::prelude::*;

verus! {

/// The value of a property as plain data. Floating-point numbers stand
/// as their IEEE 754 bit patterns, strings as their UTF-8 bytes.
pub ghost enum Value {
    Byte(u8),
    Int(i32),
    Long(i64),
    Float(u32),
    Double(u64),
    Bytes(Option<Seq<u8>>),
    Ints(Option<Seq<i32>>),
    Longs(Option<Seq<i64>>),
    Floats(Option<Seq<u32>>),
    Doubles(Option<Seq<u64>>),
    Strings(Option<Seq<Option<Seq<u8>>>>),
}

/// The value that the accessors of the property's type read from the object.
pub open spec fn value_of(p: Property, object: Seq<u8>) -> Value {
    match p.data_type {
        DataType::Byte => Value::Byte(p.spec_byte(object)),
        DataType::Int => Value::Int(p.spec_int(object)),
        DataType::Long => Value::Long(p.spec_long(object)),
        DataType::Float => Value::Float(p.spec_float_bits(object)),
        DataType::Double => Value::Double(p.spec_double_bits(object)),
        DataType::String | DataType::ByteList => Value::Bytes(p.spec_bytes(object)),
        DataType::IntList => Value::Ints(p.spec_int_list(object)),
        DataType::LongList => Value::Longs(p.spec_long_list(object)),
        DataType::FloatList => Value::Floats(p.spec_float_list_bits(object)),
        DataType::DoubleList => Value::Doubles(p.spec_double_list_bits(object)),
        DataType::StringList => Value::Strings(p.spec_string_list(object)),
    }
}

/// Whether `b` holds the bytes of `a` from `from` up to `to`.
pub open spec fn same_bytes(a: Seq<u8>, b: Seq<u8>, from: int, to: int) -> bool {
    forall|k: int| from <= k < to ==> a[k] == #[trigger] b[k]
}

pub proof fn lemma_same_u32(a: Seq<u8>, b: Seq<u8>, at: int)
    requires
        0 <= at,
        at + 4 <= a.len(),
        at + 4 <= b.len(),
        same_bytes(a, b, at, at + 4),
    ensures
        spec_u32_le(a, at) == spec_u32_le(b, at),
{
    assert(a[at] == b[at]);
    assert(a[at + 1] == b[at + 1]);
    assert(a[at + 2] == b[at + 2]);
    assert(a[at + 3] == b[at + 3]);
}

pub proof fn lemma_same_u64(a: Seq<u8>, b: Seq<u8>, at: int)
    requires
        0 <= at,
        at + 8 <= a.len(),
        at + 8 <= b.len(),
        same_bytes(a, b, at, at + 8),
    ensures
        spec_u64_le(a, at) == spec_u64_le(b, at),
{
    assert(same_bytes(a, b, at, at + 4));
    assert(same_bytes(a, b, at + 4, at + 8));
    lemma_same_u32(a, b, at);
    lemma_same_u32(a, b, at + 4);
}

/// An object that keeps the header slot of a property and everything
/// behind the header keeps the property's value, and keeps it well-formed.
pub proof fn lemma_value_frame(p: Property, a: Seq<u8>, b: Seq<u8>, header: int)
    requires
        p.offset + p.data_type.spec_static_size() <= header,
        header <= a.len() <= b.len(),
        property_valid(p, a, header),
        same_bytes(a, b, p.offset as int, p.offset + p.data_type.spec_static_size()),
        same_bytes(a, b, header, a.len() as int),
    ensures
        value_of(p, b) == value_of(p, a),
        property_valid(p, b, header),
        !p.data_type.spec_is_static() ==> p.spec_position(b) == p.spec_position(a),
{
    let at = p.offset as int;
    match p.data_type {
        DataType::Byte => {
            assert(a[at] == b[at]);
        },
        DataType::Int | DataType::Float => {
            lemma_same_u32(a, b, at);
        },
        DataType::Long | DataType::Double => {
            lemma_same_u64(a, b, at);
        },
        _ => {
            assert(same_bytes(a, b, at, at + 4));
            assert(same_bytes(a, b, at + 4, at + 8));
            lemma_same_u32(a, b, at);
            lemma_same_u32(a, b, at + 4);
            assert(spec_descriptor(a, at) == spec_descriptor(b, at));
            assert(p.spec_position(a) == p.spec_position(b));
            match p.spec_position(a) {
                None => {},
                Some(pos) => {
                    assert(p.strings_readable(a));
                    if p.data_type == DataType::StringList {
                        assert forall|i: int| 0 <= i < pos.length implies element_readable(
                            a,
                            #[trigger] payload_positions(a, pos)[i],
                        ) by {}
                    }
                    lemma_payload_frame(p.data_type, pos, a, b, header);
                    if p.data_type == DataType::StringList {
                        assert(p.spec_string_list(b)->Some_0 =~= p.spec_string_list(a)->Some_0);
                    }
                },
            }
        },
    }
}

/// The payload of a dynamic value reads the same from an object that
/// keeps everything behind the header.
pub proof fn lemma_payload_frame(
    data_type: DataType,
    pos: DynamicPosition,
    a: Seq<u8>,
    b: Seq<u8>,
    header: int,
)
    requires
        !data_type.spec_is_static(),
        0 <= header <= a.len() <= b.len(),
        pos.offset >= header,
        payload_fits(a, pos, data_type.spec_element_size()),
        same_bytes(a, b, header, a.len() as int),
        data_type == DataType::String ==> vstd::utf8::valid_utf8(payload_bytes(a, pos)),
        data_type == DataType::StringList ==> elements_behind(a, pos, header) && forall|i: int|
            0 <= i < pos.length ==> element_readable(a, #[trigger] payload_positions(a, pos)[i]),
    ensures
        payload_fits(b, pos, data_type.spec_element_size()),
        data_type == DataType::String || data_type == DataType::ByteList ==> payload_bytes(b, pos)
            == payload_bytes(a, pos),
        data_type == DataType::IntList ==> payload_ints(b, pos) == payload_ints(a, pos),
        data_type == DataType::FloatList ==> payload_words(b, pos) == payload_words(a, pos),
        data_type == DataType::LongList ==> payload_longs(b, pos) == payload_longs(a, pos),
        data_type == DataType::DoubleList ==> payload_dwords(b, pos) == payload_dwords(a, pos),
        data_type == DataType::StringList ==> payload_positions(b, pos) == payload_positions(a, pos)
            && elements_behind(b, pos, header) && (forall|i: int|
            0 <= i < pos.length ==> element_readable(b, #[trigger] payload_positions(b, pos)[i])
                && element_bytes(b, payload_positions(b, pos)[i]) == element_bytes(
                a,
                payload_positions(a, pos)[i],
            )),
{
    let off = pos.offset as int;
    match data_type {
        DataType::String | DataType::ByteList => {
            assert(payload_bytes(b, pos) =~= payload_bytes(a, pos)) by {
                assert forall|k: int| 0 <= k < pos.length implies payload_bytes(b, pos)[k]
                    == payload_bytes(a, pos)[k] by {
                    assert(a[off + k] == b[off + k]);
                }
            }
        },
        DataType::IntList | DataType::FloatList => {
            assert forall|i: int| 0 <= i < pos.length implies #[trigger] payload_ints(b, pos)[i]
                == payload_ints(a, pos)[i] && payload_words(b, pos)[i] == payload_words(a, pos)[i] by {
                assert(same_bytes(a, b, off + 4 * i, off + 4 * i + 4));
                lemma_same_u32(a, b, off + 4 * i);
            }
            assert(payload_ints(b, pos) =~= payload_ints(a, pos));
            assert(payload_words(b, pos) =~= payload_words(a, pos));
        },
        DataType::LongList | DataType::DoubleList => {
            assert forall|i: int| 0 <= i < pos.length implies #[trigger] payload_longs(b, pos)[i]
                == payload_longs(a, pos)[i] && payload_dwords(b, pos)[i] == payload_dwords(
                a,
                pos,
            )[i] by {
                assert(same_bytes(a, b, off + 8 * i, off + 8 * i + 8));
                lemma_same_u64(a, b, off + 8 * i);
            }
            assert(payload_longs(b, pos) =~= payload_longs(a, pos));
            assert(payload_dwords(b, pos) =~= payload_dwords(a, pos));
        },
        _ => {
            assert forall|i: int| 0 <= i < pos.length implies #[trigger] payload_positions(
                b,
                pos,
            )[i] == payload_positions(a, pos)[i] by {
                assert(same_bytes(a, b, off + 8 * i, off + 8 * i + 4));
                assert(same_bytes(a, b, off + 8 * i + 4, off + 8 * i + 8));
                lemma_same_u32(a, b, off + 8 * i);
                lemma_same_u32(a, b, off + 8 * i + 4);
            }
            assert(payload_positions(b, pos) =~= payload_positions(a, pos));
            assert forall|i: int| 0 <= i < pos.length implies element_readable(
                b,
                #[trigger] payload_positions(b, pos)[i],
            ) && element_bytes(b, payload_positions(b, pos)[i]) == element_bytes(
                a,
                payload_positions(a, pos)[i],
            ) by {
                let el = payload_positions(a, pos)[i];
                assert(element_readable(a, el));
                if el.offset != 0 {
                    assert(el.offset >= header);
                    assert(payload_bytes(b, el) =~= payload_bytes(a, el)) by {
                        assert forall|k: int| 0 <= k < el.length implies payload_bytes(b, el)[k]
                            == payload_bytes(a, el)[k] by {
                            assert(a[el.offset + k] == b[el.offset + k]);
                        }
                    }
                }
            }
            assert(elements_behind(b, pos, header)) by {
                assert forall|i: int| 0 <= i < pos.length implies {
                    let el = #[trigger] payload_positions(b, pos)[i];
                    el.offset != 0 ==> el.offset >= header
                } by {
                    let el = payload_positions(a, pos)[i];
                }
            }
        },
    }
}

} // verus!
