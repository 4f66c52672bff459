use crate::object::bytes::{
    as_signed32, as_signed64, read_i32_le, read_i64_le, read_u32_le, read_u64_le, spec_u32_le,
    spec_u64_le,
};
use crate::hash::{hash_from, lemma_hash_concat, Hasher64};
use crate::object::bytes::spec_u32_to_le;
use crate::object::data_type::DataType;
use crate::object::float::{
    is_nan32, is_nan64, lt32, lt64, spec_is_nan32, spec_is_nan64, spec_lt32, spec_lt64,
};
use crate::order::{compare_bytes, spec_compare_bytes};
use crate::text::str_from_utf8;
use vstd::prelude::*;
use vstd::slice::slice_subrange;
use vstd::string::StringSliceAdditionalSpecFns;
use vstd::utf8::valid_utf8;

verus! {

// Binary layout of an object; all numbers are little-endian.
//
//   header:   every Byte property, one byte each
//             padding to a multiple of 4
//             every Int and Float property, four bytes each
//             padding to a multiple of 8
//             every Long and Double property, eight bytes each
//             one (offset: u32, length: u32) descriptor per dynamic property;
//             offset 0 marks a null value
//   payload:  the bytes, numbers or element descriptors that the header's
//             descriptors point to, by absolute offset
/// Where the payload of a dynamic value lies inside its object.
#[derive(Clone, Copy, Debug, PartialEq, Eq, Structural)]
pub struct DynamicPosition {
    pub offset: u32,
    pub length: u32,
}

impl DynamicPosition {
    pub fn is_null(&self) -> (r: bool)
        ensures
            r == (self.offset == 0),
    {
        self.offset == 0
    }
}

/// The descriptor stored at `at`: its offset word, then its length word.
pub open spec fn spec_descriptor(object: Seq<u8>, at: int) -> DynamicPosition {
    DynamicPosition {
        offset: spec_u32_le(object, at) as u32,
        length: spec_u32_le(object, at + 4) as u32,
    }
}

/// Whether `count` elements of `size` bytes at the position lie inside the object.
pub open spec fn payload_fits(object: Seq<u8>, pos: DynamicPosition, size: int) -> bool {
    pos.offset + pos.length * size <= object.len()
}

/// The payload of a byte list or string.
pub open spec fn payload_bytes(object: Seq<u8>, pos: DynamicPosition) -> Seq<u8> {
    object.subrange(pos.offset as int, pos.offset + pos.length)
}

/// The payload read as unsigned 32-bit words.
pub open spec fn payload_words(object: Seq<u8>, pos: DynamicPosition) -> Seq<u32> {
    Seq::new(pos.length as nat, |i: int| spec_u32_le(object, pos.offset + 4 * i) as u32)
}

/// The payload read as unsigned 64-bit words.
pub open spec fn payload_dwords(object: Seq<u8>, pos: DynamicPosition) -> Seq<u64> {
    Seq::new(pos.length as nat, |i: int| spec_u64_le(object, pos.offset + 8 * i) as u64)
}

/// The payload read as signed 32-bit numbers.
pub open spec fn payload_ints(object: Seq<u8>, pos: DynamicPosition) -> Seq<i32> {
    Seq::new(
        pos.length as nat,
        |i: int| as_signed32(spec_u32_le(object, pos.offset + 4 * i)) as i32,
    )
}

/// The payload read as signed 64-bit numbers.
pub open spec fn payload_longs(object: Seq<u8>, pos: DynamicPosition) -> Seq<i64> {
    Seq::new(
        pos.length as nat,
        |i: int| as_signed64(spec_u64_le(object, pos.offset + 8 * i)) as i64,
    )
}

/// The payload read as element descriptors.
pub open spec fn payload_positions(object: Seq<u8>, pos: DynamicPosition) -> Seq<DynamicPosition> {
    Seq::new(pos.length as nat, |i: int| spec_descriptor(object, pos.offset + 8 * i))
}

/// One element of a string list: absent when its descriptor's offset is 0.
pub open spec fn element_bytes(object: Seq<u8>, pos: DynamicPosition) -> Option<Seq<u8>> {
    if pos.offset == 0 {
        None
    } else {
        Some(payload_bytes(object, pos))
    }
}

/// Whether one element of a string list can be read as a string.
pub open spec fn element_readable(object: Seq<u8>, pos: DynamicPosition) -> bool {
    pos.offset != 0 ==> payload_fits(object, pos, 1) && valid_utf8(payload_bytes(object, pos))
}

/// A typed slot of an object: the value's type and where its header bytes start.
#[derive(Clone, Copy, Debug, PartialEq, Eq, Structural)]
pub struct Property {
    pub data_type: DataType,
    pub offset: usize,
}

impl Property {
    pub const NULL_BYTE: u8 = 0;

    pub const NULL_INT: i32 = i32::MIN;

    pub const NULL_LONG: i64 = i64::MIN;

    /// Bit pattern of the single-precision null value, a quiet NaN.
    pub const NULL_FLOAT_BITS: u32 = 0x7fc0_0000;

    /// Bit pattern of the double-precision null value, a quiet NaN.
    pub const NULL_DOUBLE_BITS: u64 = 0x7ff8_0000_0000_0000;

    pub fn new(data_type: DataType, offset: usize) -> (p: Property)
        ensures
            p.data_type == data_type,
            p.offset == offset,
    {
        Property { data_type, offset }
    }

    /// Whether the header bytes of this property lie inside the object.
    pub open spec fn fits(self, object: Seq<u8>) -> bool {
        self.offset + self.data_type.spec_static_size() <= object.len()
    }

    pub open spec fn spec_byte(self, object: Seq<u8>) -> u8 {
        object[self.offset as int]
    }

    pub open spec fn spec_int(self, object: Seq<u8>) -> i32 {
        as_signed32(spec_u32_le(object, self.offset as int)) as i32
    }

    pub open spec fn spec_long(self, object: Seq<u8>) -> i64 {
        as_signed64(spec_u64_le(object, self.offset as int)) as i64
    }

    pub open spec fn spec_float_bits(self, object: Seq<u8>) -> u32 {
        spec_u32_le(object, self.offset as int) as u32
    }

    pub open spec fn spec_double_bits(self, object: Seq<u8>) -> u64 {
        spec_u64_le(object, self.offset as int) as u64
    }

    /// The descriptor of a dynamic value; `None` for a null value.
    pub open spec fn spec_position(self, object: Seq<u8>) -> Option<DynamicPosition> {
        let d = spec_descriptor(object, self.offset as int);
        if d.offset == 0 {
            None
        } else {
            Some(d)
        }
    }

    /// Whether the payload of a dynamic value lies inside the object.
    pub open spec fn payload_in_bounds(self, object: Seq<u8>) -> bool {
        self.spec_position(object) matches Some(pos) ==> payload_fits(
            object,
            pos,
            self.data_type.spec_element_size(),
        )
    }

    /// Whether the value is the null value of its type.
    pub open spec fn spec_is_null(self, object: Seq<u8>) -> bool {
        match self.data_type {
            DataType::Byte => self.spec_byte(object) == 0,
            DataType::Int => self.spec_int(object) == i32::MIN,
            DataType::Long => self.spec_long(object) == i64::MIN,
            DataType::Float => spec_is_nan32(self.spec_float_bits(object)),
            DataType::Double => spec_is_nan64(self.spec_double_bits(object)),
            _ => self.spec_position(object) is None,
        }
    }

    /// Element count of a list, byte count of a string; `None` for null.
    pub open spec fn spec_length(self, object: Seq<u8>) -> Option<usize> {
        match self.spec_position(object) {
            Some(pos) => Some(pos.length as usize),
            None => None,
        }
    }

    /// The bytes of a byte list or of a string.
    pub open spec fn spec_bytes(self, object: Seq<u8>) -> Option<Seq<u8>> {
        match self.spec_position(object) {
            Some(pos) => Some(payload_bytes(object, pos)),
            None => None,
        }
    }

    pub open spec fn spec_int_list(self, object: Seq<u8>) -> Option<Seq<i32>> {
        match self.spec_position(object) {
            Some(pos) => Some(payload_ints(object, pos)),
            None => None,
        }
    }

    pub open spec fn spec_long_list(self, object: Seq<u8>) -> Option<Seq<i64>> {
        match self.spec_position(object) {
            Some(pos) => Some(payload_longs(object, pos)),
            None => None,
        }
    }

    pub open spec fn spec_float_list_bits(self, object: Seq<u8>) -> Option<Seq<u32>> {
        match self.spec_position(object) {
            Some(pos) => Some(payload_words(object, pos)),
            None => None,
        }
    }

    pub open spec fn spec_double_list_bits(self, object: Seq<u8>) -> Option<Seq<u64>> {
        match self.spec_position(object) {
            Some(pos) => Some(payload_dwords(object, pos)),
            None => None,
        }
    }

    /// The element descriptors of a string list.
    pub open spec fn spec_positions(self, object: Seq<u8>) -> Option<Seq<DynamicPosition>> {
        match self.spec_position(object) {
            Some(pos) => Some(payload_positions(object, pos)),
            None => None,
        }
    }

    /// The elements of a string list, each as its UTF-8 bytes or absent.
    pub open spec fn spec_string_list(self, object: Seq<u8>) -> Option<Seq<Option<Seq<u8>>>> {
        match self.spec_position(object) {
            Some(pos) => Some(
                Seq::new(
                    pos.length as nat,
                    |i: int| element_bytes(object, payload_positions(object, pos)[i]),
                ),
            ),
            None => None,
        }
    }

    /// Whether every string that the value holds can be read as a string.
    pub open spec fn strings_readable(self, object: Seq<u8>) -> bool {
        match self.data_type {
            DataType::String => self.spec_position(object) matches Some(pos) ==> valid_utf8(
                payload_bytes(object, pos),
            ),
            DataType::StringList => self.spec_position(object) matches Some(pos) ==> forall|
                i: int,
            |
                0 <= i < pos.length ==> element_readable(
                    object,
                    #[trigger] payload_positions(object, pos)[i],
                ),
            _ => true,
        }
    }

    /// Whether the typed accessor of this property can read its value from
    /// the object: header and payload in bounds, strings well-formed.
    pub open spec fn readable(self, object: Seq<u8>) -> bool {
        &&& self.fits(object)
        &&& !self.data_type.spec_is_static() ==> self.payload_in_bounds(object)
        &&& self.strings_readable(object)
    }

    /// The bytes that stand for the value when it is hashed: the header
    /// bytes of a static value, the payload of a list or string, nothing for
    /// a null value or a string list.
    pub open spec fn spec_raw(self, object: Seq<u8>) -> Seq<u8> {
        match self.data_type {
            DataType::Byte => object.subrange(self.offset as int, self.offset + 1),
            DataType::Int | DataType::Float => object.subrange(self.offset as int, self.offset + 4),
            DataType::Long | DataType::Double => object.subrange(
                self.offset as int,
                self.offset + 8,
            ),
            DataType::StringList => Seq::empty(),
            _ => match self.spec_position(object) {
                Some(pos) => object.subrange(
                    pos.offset as int,
                    pos.offset + pos.length * self.data_type.spec_element_size(),
                ),
                None => Seq::empty(),
            },
        }
    }

    /// What a hasher is fed for the value: for a dynamic value a length
    /// marker (and, for a string list, every element), then the raw bytes.
    pub open spec fn spec_hash_input(self, object: Seq<u8>) -> Seq<u8> {
        if self.data_type.spec_is_static() {
            self.spec_raw(object)
        } else {
            match self.spec_position(object) {
                None => spec_u32_to_le(0),
                Some(pos) => {
                    let head = spec_u32_to_le(length_marker(pos.length) as int);
                    if self.data_type == DataType::StringList {
                        head + elements_hash_input(object, payload_positions(object, pos))
                    } else {
                        head + self.spec_raw(object)
                    }
                },
            }
        }
    }

    /// -1, 0 or 1 as the value in `object1` sorts before, with or after the
    /// value in `object2`. A null value sorts first; strings sort by bytes.
    pub open spec fn spec_compare(self, object1: Seq<u8>, object2: Seq<u8>) -> int {
        match self.data_type {
            DataType::Byte => sign_of(self.spec_byte(object1) - self.spec_byte(object2)),
            DataType::Int => sign_of(self.spec_int(object1) - self.spec_int(object2)),
            DataType::Long => sign_of(self.spec_long(object1) - self.spec_long(object2)),
            DataType::Float => spec_compare_float(
                self.spec_float_bits(object1),
                self.spec_float_bits(object2),
            ),
            DataType::Double => spec_compare_double(
                self.spec_double_bits(object1),
                self.spec_double_bits(object2),
            ),
            _ => spec_compare_optional_bytes(self.spec_bytes(object1), self.spec_bytes(object2)),
        }
    }

    #[inline]
    pub fn is_null(&self, object: &[u8]) -> (r: bool)
        requires
            self.fits(object@),
        ensures
            r == self.spec_is_null(object@),
    {
        match self.data_type {
            DataType::Byte => self.get_byte(object) == Self::NULL_BYTE,
            DataType::Int => self.get_int(object) == Self::NULL_INT,
            DataType::Long => self.get_long(object) == Self::NULL_LONG,
            DataType::Float => is_nan32(self.get_float_bits(object)),
            DataType::Double => is_nan64(self.get_double_bits(object)),
            _ => self.get_dynamic_position(object).is_none(),
        }
    }

    #[inline]
    pub fn get_byte(&self, object: &[u8]) -> (r: u8)
        requires
            self.data_type == DataType::Byte,
            self.fits(object@),
        ensures
            r == self.spec_byte(object@),
    {
        object[self.offset]
    }

    #[inline]
    pub fn get_int(&self, object: &[u8]) -> (r: i32)
        requires
            self.data_type == DataType::Int,
            self.fits(object@),
        ensures
            r == self.spec_int(object@),
    {
        read_i32_le(object, self.offset)
    }

    #[inline]
    pub fn get_long(&self, object: &[u8]) -> (r: i64)
        requires
            self.data_type == DataType::Long,
            self.fits(object@),
        ensures
            r == self.spec_long(object@),
    {
        read_i64_le(object, self.offset)
    }

    /// The IEEE 754 bit pattern of a `Float` value.
    #[inline]
    pub fn get_float_bits(&self, object: &[u8]) -> (r: u32)
        requires
            self.data_type == DataType::Float,
            self.fits(object@),
        ensures
            r == self.spec_float_bits(object@),
    {
        read_u32_le(object, self.offset)
    }

    /// The IEEE 754 bit pattern of a `Double` value.
    #[inline]
    pub fn get_double_bits(&self, object: &[u8]) -> (r: u64)
        requires
            self.data_type == DataType::Double,
            self.fits(object@),
        ensures
            r == self.spec_double_bits(object@),
    {
        read_u64_le(object, self.offset)
    }

    pub fn get_dynamic_position(&self, object: &[u8]) -> (r: Option<DynamicPosition>)
        requires
            self.offset + 8 <= object@.len(),
        ensures
            r == self.spec_position(object@),
    {
        let total: usize = object.len();
        let list_offset = read_u32_le(object, self.offset);
        if list_offset == 0 {
            return None;
        }
        let list_length = read_u32_le(object, self.offset + 4);
        Some(DynamicPosition { offset: list_offset, length: list_length })
    }

    pub fn get_dynamic_positions(&self, object: &[u8]) -> (r: Option<Vec<DynamicPosition>>)
        requires
            self.data_type == DataType::StringList,
            self.fits(object@),
            self.payload_in_bounds(object@),
        ensures
            r is Some == self.spec_positions(object@) is Some,
            r is Some ==> r->Some_0@ == self.spec_positions(object@)->Some_0,
    {
        match self.get_dynamic_position(object) {
            Some(position) => Some(get_position_list(object, position)),
            None => None,
        }
    }

    #[inline]
    pub fn get_length(&self, object: &[u8]) -> (r: Option<usize>)
        requires
            !self.data_type.spec_is_static(),
            self.fits(object@),
        ensures
            r == self.spec_length(object@),
    {
        match self.get_dynamic_position(object) {
            Some(pos) => Some(pos.length as usize),
            None => None,
        }
    }

    #[inline]
    pub fn get_string<'a>(&self, object: &'a [u8]) -> (r: Option<&'a str>)
        requires
            self.data_type == DataType::String,
            self.readable(object@),
        ensures
            r is Some == self.spec_bytes(object@) is Some,
            r is Some ==> r->Some_0.spec_bytes() == self.spec_bytes(object@)->Some_0,
    {
        match self.get_dynamic_position(object) {
            Some(position) => str_from_utf8(get_byte_range(object, position)),
            None => None,
        }
    }

    #[inline]
    pub fn get_byte_list<'a>(&self, object: &'a [u8]) -> (r: Option<&'a [u8]>)
        requires
            self.data_type == DataType::ByteList,
            self.fits(object@),
            self.payload_in_bounds(object@),
        ensures
            r is Some == self.spec_bytes(object@) is Some,
            r is Some ==> r->Some_0@ == self.spec_bytes(object@)->Some_0,
    {
        match self.get_dynamic_position(object) {
            Some(position) => Some(get_byte_range(object, position)),
            None => None,
        }
    }

    pub fn get_int_list(&self, object: &[u8]) -> (r: Option<Vec<i32>>)
        requires
            self.data_type == DataType::IntList,
            self.fits(object@),
            self.payload_in_bounds(object@),
        ensures
            r is Some == self.spec_int_list(object@) is Some,
            r is Some ==> r->Some_0@ == self.spec_int_list(object@)->Some_0,
    {
        match self.get_dynamic_position(object) {
            Some(position) => Some(get_int_range(object, position)),
            None => None,
        }
    }

    pub fn get_long_list(&self, object: &[u8]) -> (r: Option<Vec<i64>>)
        requires
            self.data_type == DataType::LongList,
            self.fits(object@),
            self.payload_in_bounds(object@),
        ensures
            r is Some == self.spec_long_list(object@) is Some,
            r is Some ==> r->Some_0@ == self.spec_long_list(object@)->Some_0,
    {
        match self.get_dynamic_position(object) {
            Some(position) => Some(get_long_range(object, position)),
            None => None,
        }
    }

    /// The IEEE 754 bit patterns of a `FloatList` value.
    pub fn get_float_list_bits(&self, object: &[u8]) -> (r: Option<Vec<u32>>)
        requires
            self.data_type == DataType::FloatList,
            self.fits(object@),
            self.payload_in_bounds(object@),
        ensures
            r is Some == self.spec_float_list_bits(object@) is Some,
            r is Some ==> r->Some_0@ == self.spec_float_list_bits(object@)->Some_0,
    {
        match self.get_dynamic_position(object) {
            Some(position) => Some(get_word_range(object, position)),
            None => None,
        }
    }

    /// The IEEE 754 bit patterns of a `DoubleList` value.
    pub fn get_double_list_bits(&self, object: &[u8]) -> (r: Option<Vec<u64>>)
        requires
            self.data_type == DataType::DoubleList,
            self.fits(object@),
            self.payload_in_bounds(object@),
        ensures
            r is Some == self.spec_double_list_bits(object@) is Some,
            r is Some ==> r->Some_0@ == self.spec_double_list_bits(object@)->Some_0,
    {
        match self.get_dynamic_position(object) {
            Some(position) => Some(get_dword_range(object, position)),
            None => None,
        }
    }

    pub fn get_string_list<'a>(&self, object: &'a [u8]) -> (r: Option<Vec<Option<&'a str>>>)
        requires
            self.data_type == DataType::StringList,
            self.readable(object@),
        ensures
            r is Some == self.spec_string_list(object@) is Some,
            r is Some ==> {
                let list = r->Some_0@;
                let model = self.spec_string_list(object@)->Some_0;
                &&& list.len() == model.len()
                &&& forall|i: int|
                    0 <= i < list.len() ==> (#[trigger] list[i] is Some) == (model[i] is Some)
                &&& forall|i: int|
                    0 <= i < list.len() && list[i] is Some ==> (#[trigger] list[i])->Some_0.spec_bytes()
                        == model[i]->Some_0
            },
    {
        let position = match self.get_dynamic_position(object) {
            Some(position) => position,
            None => { return None; },
        };
        let positions = get_position_list(object, position);
        assert forall|k: int| 0 <= k < positions.len() implies element_readable(
            object@,
            #[trigger] positions[k],
        ) by {
            assert(positions[k] == payload_positions(object@, position)[k]);
        }
        let mut list: Vec<Option<&'a str>> = Vec::new();
        let mut i: usize = 0;
        while i < positions.len()
            invariant
                i <= positions.len(),
                positions@ == payload_positions(object@, position),
                forall|k: int|
                    0 <= k < positions.len() ==> element_readable(object@, #[trigger] positions[k]),
                list.len() == i,
                forall|k: int|
                    0 <= k < i ==> (#[trigger] list[k] is Some) == (element_bytes(
                        object@,
                        positions[k],
                    ) is Some),
                forall|k: int|
                    0 <= k < i && list[k] is Some ==> (#[trigger] list[k])->Some_0.spec_bytes()
                        == element_bytes(object@, positions[k])->Some_0,
            decreases positions.len() - i,
        {
            let pos = positions[i];
            if pos.is_null() {
                list.push(None);
            } else {
                let s = str_from_utf8(get_byte_range(object, pos));
                list.push(s);
            }
            i += 1;
        }
        Some(list)
    }

    /// The bytes that stand for the value when it is hashed.
    pub fn get_raw<'a>(&self, object: &'a [u8]) -> (r: &'a [u8])
        requires
            self.fits(object@),
            !self.data_type.spec_is_static() ==> self.payload_in_bounds(object@),
        ensures
            r@ == self.spec_raw(object@),
    {
        let total: usize = object.len();
        match self.data_type {
            DataType::Byte => slice_subrange(object, self.offset, self.offset + 1),
            DataType::Int | DataType::Float => slice_subrange(object, self.offset, self.offset + 4),
            DataType::Long | DataType::Double => slice_subrange(
                object,
                self.offset,
                self.offset + 8,
            ),
            DataType::StringList => slice_subrange(object, 0, 0),
            DataType::String | DataType::ByteList => match self.get_dynamic_position(object) {
                Some(pos) => {
                    let start = pos.offset as usize;
                    slice_subrange(object, start, start + pos.length as usize)
                },
                None => slice_subrange(object, 0, 0),
            },
            DataType::IntList | DataType::FloatList => match self.get_dynamic_position(object) {
                Some(pos) => {
                    let start = pos.offset as usize;
                    slice_subrange(object, start, start + pos.length as usize * 4)
                },
                None => slice_subrange(object, 0, 0),
            },
            DataType::LongList | DataType::DoubleList => match self.get_dynamic_position(object) {
                Some(pos) => {
                    let start = pos.offset as usize;
                    slice_subrange(object, start, start + pos.length as usize * 8)
                },
                None => slice_subrange(object, 0, 0),
            },
        }
    }

    /// Feeds the value to `hasher`.
    pub fn hash_value(&self, object: &[u8], hasher: &mut Hasher64)
        requires
            self.readable(object@),
        ensures
            final(hasher).value() == hash_from(
                old(hasher).value(),
                self.spec_hash_input(object@),
            ),
    {
        if self.data_type.is_dynamic() {
            let position = self.get_dynamic_position(object);
            match position {
                None => {
                    hasher.write_u32(0);
                },
                Some(pos) => {
                    let marker = marker_of(pos.length);
                    hasher.write_u32(marker);
                    let ghost head = spec_u32_to_le(marker as int);
                    if self.data_type == DataType::StringList {
                        let positions = get_position_list(object, pos);
                        assert forall|k: int| 0 <= k < positions.len() implies element_readable(
                            object@,
                            #[trigger] positions[k],
                        ) by {
                            assert(positions[k] == payload_positions(object@, pos)[k]);
                        }
                        let ghost start = hasher.value();
                        let mut i: usize = 0;
                        while i < positions.len()
                            invariant
                                i <= positions.len(),
                                forall|k: int|
                                    0 <= k < positions.len() ==> element_readable(
                                        object@,
                                        #[trigger] positions[k],
                                    ),
                                hasher.value() == hash_from(
                                    start,
                                    elements_hash_input(object@, positions@.subrange(0, i as int)),
                                ),
                            decreases positions.len() - i,
                        {
                            let element = positions[i];
                            let ghost before = hasher.value();
                            let ghost done = elements_hash_input(
                                object@,
                                positions@.subrange(0, i as int),
                            );
                            if element.is_null() {
                                hasher.write_u32(0);
                            } else {
                                hasher.write_u32(marker_of(element.length));
                                let ghost mid = hasher.value();
                                hasher.write(get_byte_range(object, element));
                                proof {
                                    lemma_hash_concat(
                                        before,
                                        spec_u32_to_le(length_marker(element.length) as int),
                                        payload_bytes(object@, element),
                                    );
                                }
                            }
                            proof {
                                assert(positions@.subrange(0, i + 1).drop_last() =~= positions@.subrange(
                                    0,
                                    i as int,
                                ));
                                lemma_hash_concat(start, done, element_hash_input(object@, element));
                            }
                            i += 1;
                        }
                        proof {
                            assert(positions@.subrange(0, i as int) =~= positions@);
                            lemma_hash_concat(
                                old(hasher).value(),
                                head,
                                elements_hash_input(object@, positions@),
                            );
                        }
                    } else {
                        hasher.write(self.get_raw(object));
                        proof {
                            lemma_hash_concat(old(hasher).value(), head, self.spec_raw(object@));
                        }
                    }
                },
            }
        } else {
            hasher.write(self.get_raw(object));
        }
    }

    /// -1, 0 or 1 as the value in `object1` sorts before, with or after the
    /// value in `object2`.
    pub fn compare_values(&self, object1: &[u8], object2: &[u8]) -> (r: i8)
        requires
            self.data_type.spec_is_static() || self.data_type == DataType::String,
            self.fits(object1@),
            self.fits(object2@),
            self.data_type == DataType::String ==> self.payload_in_bounds(object1@)
                && self.payload_in_bounds(object2@),
        ensures
            r == self.spec_compare(object1@, object2@),
    {
        match self.data_type {
            DataType::Byte => {
                let a = self.get_byte(object1);
                let b = self.get_byte(object2);
                if a < b {
                    -1
                } else if a == b {
                    0
                } else {
                    1
                }
            },
            DataType::Int => {
                let a = self.get_int(object1);
                let b = self.get_int(object2);
                if a < b {
                    -1
                } else if a == b {
                    0
                } else {
                    1
                }
            },
            DataType::Long => {
                let a = self.get_long(object1);
                let b = self.get_long(object2);
                if a < b {
                    -1
                } else if a == b {
                    0
                } else {
                    1
                }
            },
            DataType::Float => compare_float(
                self.get_float_bits(object1),
                self.get_float_bits(object2),
            ),
            DataType::Double => compare_double(
                self.get_double_bits(object1),
                self.get_double_bits(object2),
            ),
            _ => {
                let s1 = self.get_dynamic_position(object1);
                let s2 = self.get_dynamic_position(object2);
                match (s1, s2) {
                    (Some(p1), Some(p2)) => compare_bytes(
                        get_byte_range(object1, p1),
                        get_byte_range(object2, p2),
                    ),
                    (Some(_), None) => 1,
                    (None, Some(_)) => -1,
                    (None, None) => 0,
                }
            },
        }
    }
}

/// The sign of a difference.
pub open spec fn sign_of(d: int) -> int {
    if d < 0 {
        -1
    } else if d == 0 {
        0
    } else {
        1
    }
}

/// Order of two single-precision bit patterns; a NaN sorts before every number.
pub open spec fn spec_compare_float(a: u32, b: u32) -> int {
    if spec_is_nan32(a) {
        if spec_is_nan32(b) {
            0
        } else {
            -1
        }
    } else if spec_is_nan32(b) {
        1
    } else if spec_lt32(a, b) {
        -1
    } else if spec_lt32(b, a) {
        1
    } else {
        0
    }
}

/// Order of two double-precision bit patterns; a NaN sorts before every number.
pub open spec fn spec_compare_double(a: u64, b: u64) -> int {
    if spec_is_nan64(a) {
        if spec_is_nan64(b) {
            0
        } else {
            -1
        }
    } else if spec_is_nan64(b) {
        1
    } else if spec_lt64(a, b) {
        -1
    } else if spec_lt64(b, a) {
        1
    } else {
        0
    }
}

/// Order of two optional byte strings; the absent one sorts first.
pub open spec fn spec_compare_optional_bytes(a: Option<Seq<u8>>, b: Option<Seq<u8>>) -> int {
    match (a, b) {
        (Some(x), Some(y)) => spec_compare_bytes(x, y),
        (Some(_), None) => 1,
        (None, Some(_)) => -1,
        (None, None) => 0,
    }
}

/// The number that is hashed for a length: one more than the length, so
/// that an empty value differs from a null one, wrapping at 32 bits.
pub open spec fn length_marker(length: u32) -> u32 {
    if length == u32::MAX {
        0
    } else {
        (length + 1) as u32
    }
}

/// What a hasher is fed for one element of a string list.
pub open spec fn element_hash_input(object: Seq<u8>, pos: DynamicPosition) -> Seq<u8> {
    if pos.offset == 0 {
        spec_u32_to_le(0)
    } else {
        spec_u32_to_le(length_marker(pos.length) as int) + payload_bytes(object, pos)
    }
}

/// What a hasher is fed for the elements of a string list, first to last.
pub open spec fn elements_hash_input(object: Seq<u8>, positions: Seq<DynamicPosition>) -> Seq<u8>
    decreases positions.len(),
{
    if positions.len() == 0 {
        Seq::empty()
    } else {
        elements_hash_input(object, positions.drop_last()) + element_hash_input(
            object,
            positions.last(),
        )
    }
}

pub fn marker_of(length: u32) -> (r: u32)
    ensures
        r == length_marker(length),
{
    if length == u32::MAX {
        0
    } else {
        length + 1
    }
}

pub fn compare_float(a: u32, b: u32) -> (r: i8)
    ensures
        r == spec_compare_float(a, b),
{
    if is_nan32(a) {
        if is_nan32(b) {
            0
        } else {
            -1
        }
    } else if is_nan32(b) {
        1
    } else if lt32(a, b) {
        -1
    } else if lt32(b, a) {
        1
    } else {
        0
    }
}

pub fn compare_double(a: u64, b: u64) -> (r: i8)
    ensures
        r == spec_compare_double(a, b),
{
    if is_nan64(a) {
        if is_nan64(b) {
            0
        } else {
            -1
        }
    } else if is_nan64(b) {
        1
    } else if lt64(a, b) {
        -1
    } else if lt64(b, a) {
        1
    } else {
        0
    }
}

/// The bytes that a position covers.
pub fn get_byte_range<'a>(object: &'a [u8], position: DynamicPosition) -> (r: &'a [u8])
    requires
        payload_fits(object@, position, 1),
    ensures
        r@ == payload_bytes(object@, position),
{
    let total: usize = object.len();
    let start = position.offset as usize;
    let end = start + position.length as usize;
    slice_subrange(object, start, end)
}

/// The unsigned 32-bit words that a position covers.
pub fn get_word_range(object: &[u8], position: DynamicPosition) -> (r: Vec<u32>)
    requires
        payload_fits(object@, position, 4),
    ensures
        r@ == payload_words(object@, position),
{
    let total: usize = object.len();
    let start = position.offset as usize;
    let count = position.length as usize;
    let mut list: Vec<u32> = Vec::new();
    let mut i: usize = 0;
    while i < count
        invariant
            i <= count,
            start == position.offset,
            count == position.length,
            start + count * 4 <= total,
            total == object@.len(),
            list.len() == i,
            forall|k: int| 0 <= k < i ==> list[k] == spec_u32_le(object@, start + 4 * k) as u32,
        decreases count - i,
    {
        list.push(read_u32_le(object, start + 4 * i));
        i += 1;
    }
    assert(list@ =~= payload_words(object@, position));
    list
}

/// The unsigned 64-bit words that a position covers.
pub fn get_dword_range(object: &[u8], position: DynamicPosition) -> (r: Vec<u64>)
    requires
        payload_fits(object@, position, 8),
    ensures
        r@ == payload_dwords(object@, position),
{
    let total: usize = object.len();
    let start = position.offset as usize;
    let count = position.length as usize;
    let mut list: Vec<u64> = Vec::new();
    let mut i: usize = 0;
    while i < count
        invariant
            i <= count,
            start == position.offset,
            count == position.length,
            start + count * 8 <= total,
            total == object@.len(),
            list.len() == i,
            forall|k: int| 0 <= k < i ==> list[k] == spec_u64_le(object@, start + 8 * k) as u64,
        decreases count - i,
    {
        list.push(read_u64_le(object, start + 8 * i));
        i += 1;
    }
    assert(list@ =~= payload_dwords(object@, position));
    list
}

/// The signed 32-bit numbers that a position covers.
pub fn get_int_range(object: &[u8], position: DynamicPosition) -> (r: Vec<i32>)
    requires
        payload_fits(object@, position, 4),
    ensures
        r@ == payload_ints(object@, position),
{
    let total: usize = object.len();
    let start = position.offset as usize;
    let count = position.length as usize;
    let mut list: Vec<i32> = Vec::new();
    let mut i: usize = 0;
    while i < count
        invariant
            i <= count,
            start == position.offset,
            count == position.length,
            start + count * 4 <= total,
            total == object@.len(),
            list.len() == i,
            forall|k: int|
                0 <= k < i ==> list[k] == as_signed32(spec_u32_le(object@, start + 4 * k)) as i32,
        decreases count - i,
    {
        list.push(read_i32_le(object, start + 4 * i));
        i += 1;
    }
    assert(list@ =~= payload_ints(object@, position));
    list
}

/// The signed 64-bit numbers that a position covers.
pub fn get_long_range(object: &[u8], position: DynamicPosition) -> (r: Vec<i64>)
    requires
        payload_fits(object@, position, 8),
    ensures
        r@ == payload_longs(object@, position),
{
    let total: usize = object.len();
    let start = position.offset as usize;
    let count = position.length as usize;
    let mut list: Vec<i64> = Vec::new();
    let mut i: usize = 0;
    while i < count
        invariant
            i <= count,
            start == position.offset,
            count == position.length,
            start + count * 8 <= total,
            total == object@.len(),
            list.len() == i,
            forall|k: int|
                0 <= k < i ==> list[k] == as_signed64(spec_u64_le(object@, start + 8 * k)) as i64,
        decreases count - i,
    {
        list.push(read_i64_le(object, start + 8 * i));
        i += 1;
    }
    assert(list@ =~= payload_longs(object@, position));
    list
}

/// The element descriptors that a position covers.
pub fn get_position_list(object: &[u8], position: DynamicPosition) -> (r: Vec<DynamicPosition>)
    requires
        payload_fits(object@, position, 8),
    ensures
        r@ == payload_positions(object@, position),
{
    let total: usize = object.len();
    let start = position.offset as usize;
    let count = position.length as usize;
    let mut list: Vec<DynamicPosition> = Vec::new();
    let mut i: usize = 0;
    while i < count
        invariant
            i <= count,
            start == position.offset,
            count == position.length,
            start + count * 8 <= total,
            total == object@.len(),
            list.len() == i,
            forall|k: int| 0 <= k < i ==> list[k] == spec_descriptor(object@, start + 8 * k),
        decreases count - i,
    {
        let at = start + 8 * i;
        let offset = read_u32_le(object, at);
        let length = read_u32_le(object, at + 4);
        list.push(DynamicPosition { offset, length });
        i += 1;
    }
    assert(list@ =~= payload_positions(object@, position));
    list
}

} // verus!
