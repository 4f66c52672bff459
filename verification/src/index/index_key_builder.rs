use crate::hash::{hash_bytes, hash_from, spec_hash, Hasher64, HASH_BASIS};
use crate::index::index_key::{
    key_byte, key_double, key_float, key_hash, key_int, key_long, key_string, IndexKey,
};
use crate::index::IndexProperty;
use crate::object::data_type::DataType;
use crate::object::property::{
    element_bytes, payload_bytes, payload_dwords, payload_ints, payload_longs, payload_positions,
    payload_words, DynamicPosition,
};
use crate::schema::index_schema::IndexType;
use crate::text::{string_with_case, with_case};
use vstd::prelude::*;
use vstd::string::StringSliceAdditionalSpecFns;
use vstd::utf8::{decode_utf8, encode_utf8, encode_utf8_decode_utf8};

verus! {

/// The bytes of a string as it is indexed: unchanged where case matters,
/// those of its lowercase equivalent where it does not.
pub open spec fn normalized(bytes: Seq<u8>, case_sensitive: bool) -> Seq<u8> {
    encode_utf8(with_case(decode_utf8(bytes), case_sensitive))
}

/// The hash that stands for a string in a key: 0 for the null string.
pub open spec fn string_hash(value: Option<Seq<u8>>, case_sensitive: bool) -> u64 {
    match value {
        Some(b) => spec_hash(normalized(b, case_sensitive)),
        None => 0,
    }
}

/// The encoding of a string: by value, or by hash.
pub open spec fn string_key(
    value: Option<Seq<u8>>,
    index_type: IndexType,
    case_sensitive: bool,
) -> Seq<u8> {
    match index_type {
        IndexType::Value => key_string(
            match value {
                Some(b) => Some(normalized(b, case_sensitive)),
                None => None,
            },
        ),
        _ => key_hash(string_hash(value, case_sensitive)),
    }
}

/// The encoding of the property's value as one component of a key. A list
/// enters as the hash of the whole list.
pub open spec fn spec_component(ip: IndexProperty, object: Seq<u8>) -> Seq<u8> {
    let p = ip.property;
    match p.data_type {
        DataType::Byte => key_byte(p.spec_byte(object)),
        DataType::Int => key_int(p.spec_int(object)),
        DataType::Long => key_long(p.spec_long(object)),
        DataType::Float => key_float(p.spec_float_bits(object)),
        DataType::Double => key_double(p.spec_double_bits(object)),
        DataType::String => string_key(p.spec_bytes(object), ip.index_type, ip.case_sensitive),
        _ => key_hash(hash_from(HASH_BASIS, p.spec_hash_input(object))),
    }
}

/// The encoding of element `i` of the list at `pos`.
pub open spec fn spec_element_key(
    ip: IndexProperty,
    object: Seq<u8>,
    pos: DynamicPosition,
    i: int,
) -> Seq<u8> {
    match ip.property.data_type {
        DataType::ByteList => key_byte(payload_bytes(object, pos)[i]),
        DataType::IntList => key_int(payload_ints(object, pos)[i]),
        DataType::LongList => key_long(payload_longs(object, pos)[i]),
        DataType::FloatList => key_float(payload_words(object, pos)[i]),
        DataType::DoubleList => key_double(payload_dwords(object, pos)[i]),
        _ => string_key(
            element_bytes(object, payload_positions(object, pos)[i]),
            ip.index_type,
            ip.case_sensitive,
        ),
    }
}

/// The first components of the keys of a multi-entry index: one per list
/// element; the empty component for a null list; the single byte 0 for an
/// empty list.
pub open spec fn spec_element_keys(ip: IndexProperty, object: Seq<u8>) -> Seq<Seq<u8>> {
    match ip.property.spec_position(object) {
        None => seq![Seq::<u8>::empty()],
        Some(pos) => if pos.length == 0 {
            seq![seq![0u8]]
        } else {
            Seq::new(pos.length as nat, |i: int| spec_element_key(ip, object, pos, i))
        },
    }
}

/// The components of the properties `1..n`, one after the other.
pub open spec fn spec_tail(props: Seq<IndexProperty>, object: Seq<u8>, n: int) -> Seq<u8>
    decreases n,
{
    if n <= 1 {
        Seq::empty()
    } else {
        spec_tail(props, object, n - 1) + spec_component(props[n - 1], object)
    }
}

/// The keys under which an index with these properties files the object:
/// one key, or one per list element where the first property is
/// multi-entry. Each is the first component followed by the others.
pub open spec fn spec_index_keys(props: Seq<IndexProperty>, object: Seq<u8>) -> Seq<Seq<u8>> {
    let tail = spec_tail(props, object, props.len() as int);
    if props[0].spec_multi_entry() {
        let firsts = spec_element_keys(props[0], object);
        Seq::new(firsts.len(), |i: int| firsts[i] + tail)
    } else {
        seq![spec_component(props[0], object) + tail]
    }
}

/// Whether every indexed property can be read from the object.
pub open spec fn properties_readable(props: Seq<IndexProperty>, object: Seq<u8>) -> bool {
    forall|i: int| 0 <= i < props.len() ==> (#[trigger] props[i]).property.readable(object)
}

/// Appends the encoding of a string to `key`.
pub fn push_string_key(
    key: &mut IndexKey,
    value: Option<&str>,
    index_type: IndexType,
    case_sensitive: bool,
)
    ensures
        final(key)@ == old(key)@ + string_key(
            match value {
                Some(s) => Some(s.spec_bytes()),
                None => None,
            },
            index_type,
            case_sensitive,
        ),
{
    match value {
        None => {
            match index_type {
                IndexType::Value => key.add_string(None),
                _ => key.add_hash(0),
            }
        },
        Some(s) => {
            let folded = string_with_case(s, case_sensitive);
            let bytes = folded.as_str().as_bytes();
            proof {
                encode_utf8_decode_utf8(s@);
                assert(bytes@ == normalized(s.spec_bytes(), case_sensitive));
            }
            match index_type {
                IndexType::Value => key.add_string(Some(bytes)),
                _ => key.add_hash(hash_bytes(bytes)),
            }
        },
    }
}

/// Appends the component of one property to `key`.
pub fn push_component(key: &mut IndexKey, ip: &IndexProperty, object: &[u8])
    requires
        ip.property.readable(object@),
    ensures
        final(key)@ == old(key)@ + spec_component(*ip, object@),
{
    let p = ip.property;
    match p.data_type {
        DataType::Byte => key.add_byte(p.get_byte(object)),
        DataType::Int => key.add_int(p.get_int(object)),
        DataType::Long => key.add_long(p.get_long(object)),
        DataType::Float => key.add_float_bits(p.get_float_bits(object)),
        DataType::Double => key.add_double_bits(p.get_double_bits(object)),
        DataType::String => push_string_key(
            key,
            p.get_string(object),
            ip.index_type,
            ip.case_sensitive,
        ),
        _ => {
            let mut hasher = Hasher64::new();
            p.hash_value(object, &mut hasher);
            key.add_hash(hasher.finish());
        },
    }
}

/// Builds the keys of an index from objects.
pub struct IndexKeyBuilder<'a> {
    properties: &'a Vec<IndexProperty>,
}

impl<'a> IndexKeyBuilder<'a> {
    pub closed spec fn properties(&self) -> Seq<IndexProperty> {
        self.properties@
    }

    pub fn new(properties: &'a Vec<IndexProperty>) -> (b: IndexKeyBuilder<'a>)
        ensures
            b.properties() == properties@,
    {
        IndexKeyBuilder { properties }
    }

    /// The first components of a multi-entry index.
    fn create_element_keys(ip: &IndexProperty, object: &[u8]) -> (keys: Vec<IndexKey>)
        requires
            ip.spec_multi_entry(),
            ip.property.readable(object@),
        ensures
            keys.len() == spec_element_keys(*ip, object@).len(),
            forall|i: int|
                0 <= i < keys.len() ==> (#[trigger] keys[i])@ == spec_element_keys(*ip, object@)[i],
    {
        let p = ip.property;
        let mut keys: Vec<IndexKey> = Vec::new();
        let pos = match p.get_dynamic_position(object) {
            None => {
                keys.push(IndexKey::new());
                return keys;
            },
            Some(pos) => pos,
        };
        if pos.length == 0 {
            let mut key = IndexKey::new();
            key.add_byte(0);
            assert(key@ =~= seq![0u8]);
            keys.push(key);
            return keys;
        }
        let ghost model = spec_element_keys(*ip, object@);
        match p.data_type {
            DataType::ByteList => {
                let list = p.get_byte_list(object).unwrap();
                let mut i: usize = 0;
                while i < list.len()
                    invariant
                        i <= list@.len(),
                        list@ == payload_bytes(object@, pos),
                        list@.len() == pos.length,
                        p.data_type == DataType::ByteList,
                        p == ip.property,
                        keys.len() == i,
                        forall|k: int|
                            0 <= k < i ==> (#[trigger] keys[k])@ == spec_element_key(
                                *ip,
                                object@,
                                pos,
                                k,
                            ),
                    decreases list@.len() - i,
                {
                    let mut key = IndexKey::new();
                    key.add_byte(list[i]);
                    assert(key@ =~= key_byte(list@[i as int]));
                    keys.push(key);
                    i += 1;
                }
            },
            DataType::IntList => {
                let list = p.get_int_list(object).unwrap();
                let mut i: usize = 0;
                while i < list.len()
                    invariant
                        i <= list@.len(),
                        list@ == payload_ints(object@, pos),
                        list@.len() == pos.length,
                        p.data_type == DataType::IntList,
                        p == ip.property,
                        keys.len() == i,
                        forall|k: int|
                            0 <= k < i ==> (#[trigger] keys[k])@ == spec_element_key(
                                *ip,
                                object@,
                                pos,
                                k,
                            ),
                    decreases list@.len() - i,
                {
                    let mut key = IndexKey::new();
                    key.add_int(list[i]);
                    assert(key@ =~= key_int(list@[i as int]));
                    keys.push(key);
                    i += 1;
                }
            },
            DataType::LongList => {
                let list = p.get_long_list(object).unwrap();
                let mut i: usize = 0;
                while i < list.len()
                    invariant
                        i <= list@.len(),
                        list@ == payload_longs(object@, pos),
                        list@.len() == pos.length,
                        p.data_type == DataType::LongList,
                        p == ip.property,
                        keys.len() == i,
                        forall|k: int|
                            0 <= k < i ==> (#[trigger] keys[k])@ == spec_element_key(
                                *ip,
                                object@,
                                pos,
                                k,
                            ),
                    decreases list@.len() - i,
                {
                    let mut key = IndexKey::new();
                    key.add_long(list[i]);
                    assert(key@ =~= key_long(list@[i as int]));
                    keys.push(key);
                    i += 1;
                }
            },
            DataType::FloatList => {
                let list = p.get_float_list_bits(object).unwrap();
                let mut i: usize = 0;
                while i < list.len()
                    invariant
                        i <= list@.len(),
                        list@ == payload_words(object@, pos),
                        list@.len() == pos.length,
                        p.data_type == DataType::FloatList,
                        p == ip.property,
                        keys.len() == i,
                        forall|k: int|
                            0 <= k < i ==> (#[trigger] keys[k])@ == spec_element_key(
                                *ip,
                                object@,
                                pos,
                                k,
                            ),
                    decreases list@.len() - i,
                {
                    let mut key = IndexKey::new();
                    key.add_float_bits(list[i]);
                    assert(key@ =~= key_float(list@[i as int]));
                    keys.push(key);
                    i += 1;
                }
            },
            DataType::DoubleList => {
                let list = p.get_double_list_bits(object).unwrap();
                let mut i: usize = 0;
                while i < list.len()
                    invariant
                        i <= list@.len(),
                        list@ == payload_dwords(object@, pos),
                        list@.len() == pos.length,
                        p.data_type == DataType::DoubleList,
                        p == ip.property,
                        keys.len() == i,
                        forall|k: int|
                            0 <= k < i ==> (#[trigger] keys[k])@ == spec_element_key(
                                *ip,
                                object@,
                                pos,
                                k,
                            ),
                    decreases list@.len() - i,
                {
                    let mut key = IndexKey::new();
                    key.add_double_bits(list[i]);
                    assert(key@ =~= key_double(list@[i as int]));
                    keys.push(key);
                    i += 1;
                }
            },
            _ => {
                let list = p.get_string_list(object).unwrap();
                let ghost elements = p.spec_string_list(object@)->Some_0;
                let mut i: usize = 0;
                while i < list.len()
                    invariant
                        i <= list@.len(),
                        list@.len() == pos.length,
                        elements.len() == pos.length,
                        forall|k: int|
                            0 <= k < list@.len() ==> (#[trigger] list@[k] is Some) == (
                            elements[k] is Some),
                        forall|k: int|
                            0 <= k < list@.len() && list@[k] is Some ==> (
                            #[trigger] list@[k])->Some_0.spec_bytes() == elements[k]->Some_0,
                        forall|k: int|
                            0 <= k < pos.length ==> #[trigger] elements[k] == element_bytes(
                                object@,
                                payload_positions(object@, pos)[k],
                            ),
                        p.data_type == DataType::StringList,
                        p == ip.property,
                        keys.len() == i,
                        forall|k: int|
                            0 <= k < i ==> (#[trigger] keys[k])@ == spec_element_key(
                                *ip,
                                object@,
                                pos,
                                k,
                            ),
                    decreases list@.len() - i,
                {
                    let mut key = IndexKey::new();
                    let element: Option<&str> = list[i];
                    assert(element is Some == elements[i as int] is Some);
                    push_string_key(&mut key, element, ip.index_type, ip.case_sensitive);
                    assert(key@ =~= spec_element_key(*ip, object@, pos, i as int));
                    keys.push(key);
                    i += 1;
                }
            },
        }
        keys
    }

    /// The keys under which the index files `object`.
    pub fn create_keys(&self, object: &[u8]) -> (keys: Vec<IndexKey>)
        requires
            self.properties().len() > 0,
            properties_readable(self.properties(), object@),
        ensures
            keys.len() == spec_index_keys(self.properties(), object@).len(),
            forall|i: int|
                0 <= i < keys.len() ==> (#[trigger] keys[i])@ == spec_index_keys(
                    self.properties(),
                    object@,
                )[i],
    {
        let props = self.properties;
        let mut tail = IndexKey::new();
        let mut n: usize = 1;
        while n < props.len()
            invariant
                1 <= n <= props.len(),
                props@ == self.properties(),
                properties_readable(props@, object@),
                tail@ == spec_tail(props@, object@, n as int),
            decreases props.len() - n,
        {
            push_component(&mut tail, &props[n], object);
            n += 1;
        }
        let first = &props[0];
        let mut keys: Vec<IndexKey> = Vec::new();
        if first.is_multi_entry() {
            let firsts = Self::create_element_keys(first, object);
            let mut i: usize = 0;
            while i < firsts.len()
                invariant
                    i <= firsts.len(),
                    keys.len() == i,
                    forall|k: int| 0 <= k < i ==> (#[trigger] keys[k])@ == firsts[k]@ + tail@,
                decreases firsts.len() - i,
            {
                let mut key = firsts[i].copy();
                key.add_raw(tail.as_bytes());
                keys.push(key);
                i += 1;
            }
        } else {
            let mut key = IndexKey::new();
            push_component(&mut key, first, object);
            key.add_raw(tail.as_bytes());
            assert(key@ =~= spec_component(*first, object@) + tail@);
            keys.push(key);
        }
        keys
    }
}

} // verus!
