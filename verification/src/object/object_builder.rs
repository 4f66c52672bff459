use crate::object::bytes::{
    as_signed32, as_signed64, as_unsigned32, as_unsigned64, lemma_u32_le_round_trip,
    lemma_u64_le_round_trip, spec_u32_le, spec_u32_to_le, spec_u64_le, spec_u64_to_le,
    to_unsigned32, to_unsigned64, write_u32_le, write_u64_le,
};
use crate::object::data_type::DataType;
use crate::object::object_info::{payload_span, payloads_overlap, property_valid, ObjectInfo};
use crate::object::property::{
    element_bytes, element_readable, payload_positions, payload_bytes, payload_dwords, payload_fits, payload_ints, payload_longs, payload_words,
    spec_descriptor, DynamicPosition, Property,
};
use crate::error::IsarError;
use crate::object::object_info::spec_alignment;
use crate::object::value::{lemma_value_frame, same_bytes, value_of, Value};
use vstd::prelude::*;
use vstd::string::StringSliceAdditionalSpecFns;

verus! {

/// The bytes of a finished object.
pub struct ObjectBuilderResult {
    bytes: Vec<u8>,
}

impl View for ObjectBuilderResult {
    type V = Seq<u8>;

    closed spec fn view(&self) -> Seq<u8> {
        self.bytes@
    }
}

impl ObjectBuilderResult {
    pub fn as_bytes(&self) -> (b: &[u8])
        ensures
            b@ == self@,
    {
        self.bytes.as_slice()
    }
}

/// `old` with `bytes` in place of what it holds from `at` on.
pub open spec fn overwritten(old: Seq<u8>, at: int, bytes: Seq<u8>) -> Seq<u8> {
    old.subrange(0, at) + bytes + old.subrange(at + bytes.len(), old.len() as int)
}

/// The eight bytes of a descriptor.
pub open spec fn descriptor_bytes(offset: u32, length: u32) -> Seq<u8> {
    spec_u32_to_le(offset as int) + spec_u32_to_le(length as int)
}

/// Reading a descriptor back gives what was written.
pub proof fn lemma_descriptor_round_trip(s: Seq<u8>, at: int, offset: u32, length: u32)
    requires
        0 <= at,
        at + 8 <= s.len(),
        s.subrange(at, at + 8) == descriptor_bytes(offset, length),
    ensures
        spec_descriptor(s, at) == (DynamicPosition { offset, length }),
{
    let d = descriptor_bytes(offset, length);
    assert(s.subrange(at, at + 4) =~= spec_u32_to_le(offset as int)) by {
        assert forall|i: int| 0 <= i < 4 implies s.subrange(at, at + 4)[i] == spec_u32_to_le(
            offset as int,
        )[i] by {
            assert(s.subrange(at, at + 8)[i] == d[i]);
        }
    }
    assert(s.subrange(at + 4, at + 8) =~= spec_u32_to_le(length as int)) by {
        assert forall|i: int| 0 <= i < 4 implies s.subrange(at + 4, at + 8)[i] == spec_u32_to_le(
            length as int,
        )[i] by {
            assert(s.subrange(at, at + 8)[i + 4] == d[i + 4]);
        }
    }
    lemma_u32_le_round_trip(s, at, offset as int);
    lemma_u32_le_round_trip(s, at + 4, length as int);
}

/// Assembles an object of a layout, one property after the other in the
/// order of the layout.
pub struct ObjectBuilder<'a> {
    info: &'a ObjectInfo,
    buffer: Vec<u8>,
    index: usize,
    values: Ghost<Seq<Value>>,
}

impl<'a> ObjectBuilder<'a> {
    pub closed spec fn info(&self) -> &ObjectInfo {
        self.info
    }

    /// The bytes assembled so far.
    pub closed spec fn bytes(&self) -> Seq<u8> {
        self.buffer@
    }

    /// How many properties have been written.
    pub closed spec fn position(&self) -> int {
        self.index as int
    }

    /// The values written so far.
    pub closed spec fn written(&self) -> Seq<Value> {
        self.values@
    }

    /// The property that the next write fills.
    pub open spec fn next(&self) -> Property {
        self.info().properties@[self.position()]
    }

    /// The invariant of a builder: what it has assembled is a well-formed
    /// object that reads back as the values written, and every property
    /// still to be written is unset.
    pub open spec fn wf(&self) -> bool {
        let info = self.info();
        let header = info.static_size as int;
        &&& info.wf()
        &&& info.slots_disjoint()
        &&& 0 <= self.position() <= info.properties@.len()
        &&& self.written().len() == self.position()
        &&& header <= self.bytes().len() <= u32::MAX
        &&& forall|j: int|
            0 <= j < info.properties@.len() ==> property_valid(
                #[trigger] info.properties@[j],
                self.bytes(),
                header,
            )
        &&& forall|j: int|
            0 <= j < self.position() ==> value_of(#[trigger] info.properties@[j], self.bytes())
                == self.written()[j]
        &&& forall|j: int|
            self.position() <= j < info.properties@.len() && !(
            #[trigger] info.properties@[j]).data_type.spec_is_static()
                ==> info.properties@[j].spec_position(self.bytes()) is None
        &&& forall|i: int, j: int|
            0 <= i < j < info.properties@.len() ==> !payloads_overlap(
                #[trigger] info.properties@[i],
                #[trigger] info.properties@[j],
                self.bytes(),
            )
    }

    /// A builder for objects of the layout; `None` where the header alone
    /// is longer than an object may be.
    pub fn new(info: &'a ObjectInfo) -> (r: Option<ObjectBuilder<'a>>)
        requires
            info.wf(),
            info.slots_disjoint(),
        ensures
            r is Some <==> info.static_size <= u32::MAX,
            r matches Some(b) ==> b.wf() && b.info() == info && b.position() == 0 && b.bytes()
                == Seq::new(info.static_size as nat, |i: int| 0u8),
    {
        if info.static_size > 0xffff_ffff {
            return None;
        }
        let mut buffer: Vec<u8> = Vec::new();
        let mut i: usize = 0;
        while i < info.static_size
            invariant
                i <= info.static_size,
                buffer@ == Seq::new(i as nat, |k: int| 0u8),
            decreases info.static_size - i,
        {
            buffer.push(0);
            assert(buffer@ =~= Seq::new((i + 1) as nat, |k: int| 0u8));
            i += 1;
        }
        let b = ObjectBuilder { info, buffer, index: 0, values: Ghost(Seq::empty()) };
        proof {
            let header = info.static_size as int;
            assert forall|j: int| 0 <= j < info.properties@.len() implies property_valid(
                #[trigger] info.properties@[j],
                b.bytes(),
                header,
            ) && (!info.properties@[j].data_type.spec_is_static()
                ==> info.properties@[j].spec_position(b.bytes()) is None) by {
                let p = info.properties@[j];
                if !p.data_type.spec_is_static() {
                    assert(spec_u32_le(b.bytes(), p.offset as int) == 0);
                }
            }
        }
        Some(b)
    }

    /// Writes `encoded` into the slot of the next property and moves on.
    fn write_slot(&mut self, encoded: &Vec<u8>, Ghost(v): Ghost<Value>)
        requires
            old(self).wf(),
            old(self).position() < old(self).info().properties@.len(),
            encoded@.len() == old(self).next().data_type.spec_static_size(),
            ({
                let p = old(self).next();
                let after = overwritten(old(self).bytes(), p.offset as int, encoded@);
                &&& value_of(p, after) == v
                &&& !p.data_type.spec_is_static() ==> p.spec_position(after) is None
            }),
        ensures
            final(self).wf(),
            final(self).info() == old(self).info(),
            final(self).position() == old(self).position() + 1,
            final(self).written() == old(self).written().push(v),
            final(self).bytes() == overwritten(
                old(self).bytes(),
                old(self).next().offset as int,
                encoded@,
            ),
    {
        let p = self.info.properties[self.index];
        let ghost before = self.buffer@;
        let ghost target = overwritten(before, p.offset as int, encoded@);
        let at = p.offset;
        let total: usize = self.buffer.len();
        let count: usize = self.info.properties.len();
        assert(property_valid(self.info.properties@[self.index as int], before, self.info.static_size as int));
        let mut k: usize = 0;
        while k < encoded.len()
            invariant
                k <= encoded.len(),
                at + encoded@.len() <= before.len(),
                total == before.len(),
                self.buffer@.len() == before.len(),
                self.info == old(self).info,
                self.index == old(self).index,
                self.values == old(self).values,
                forall|x: int| 0 <= x < before.len() && !(at <= x < at + k) ==> self.buffer@[x] == before[x],
                forall|x: int| 0 <= x < k ==> #[trigger] self.buffer@[at + x] == encoded@[x],
            decreases encoded.len() - k,
        {
            self.buffer.set(at + k, encoded[k]);
            k += 1;
        }
        assert(self.buffer@ =~= target) by {
            assert forall|y: int| 0 <= y < before.len() implies self.buffer@[y] == target[y] by {
                if at <= y < at + encoded@.len() {
                    let x = y - at;
                    assert(self.buffer@[at + x] == encoded@[x]);
                }
            }
        }
        self.index += 1;
        self.values = Ghost(self.values@.push(v));
        proof {
            self.lemma_after_slot(old(self), p, encoded@, v);
        }
    }

    /// The invariant holds after a slot has been overwritten.
    proof fn lemma_after_slot(&self, before: &Self, p: Property, encoded: Seq<u8>, v: Value)
        requires
            before.wf(),
            before.position() < before.info().properties@.len(),
            p == before.next(),
            encoded.len() == p.data_type.spec_static_size(),
            value_of(p, self.bytes()) == v,
            !p.data_type.spec_is_static() ==> p.spec_position(self.bytes()) is None,
            self.info() == before.info(),
            self.position() == before.position() + 1,
            self.written() == before.written().push(v),
            self.bytes() == overwritten(before.bytes(), p.offset as int, encoded),
        ensures
            self.wf(),
    {
        let info = self.info();
        let header = info.static_size as int;
        let a = before.bytes();
        let b = self.bytes();
        let at = before.position();
        assert(property_valid(info.properties@[at], a, header));
        assert(a.len() == b.len());
        assert forall|x: int| 0 <= x < a.len() && !(p.offset <= x < p.offset + encoded.len()) implies a[x]
            == b[x] by {}
        assert forall|j: int| 0 <= j < info.properties@.len() && j != at implies property_valid(
            #[trigger] info.properties@[j],
            b,
            header,
        ) && value_of(info.properties@[j], b) == value_of(info.properties@[j], a) && (
        !info.properties@[j].data_type.spec_is_static() ==> info.properties@[j].spec_position(b)
            == info.properties@[j].spec_position(a)) by {
            let q = info.properties@[j];
            assert(property_valid(q, a, header));
            if j < at {
                assert(q.offset + q.data_type.spec_static_size() <= p.offset || p.offset
                    + p.data_type.spec_static_size() <= q.offset);
            } else {
                assert(q.offset + q.data_type.spec_static_size() <= p.offset || p.offset
                    + p.data_type.spec_static_size() <= q.offset);
            }
            lemma_value_frame(q, a, b, header);
        }
        assert(property_valid(p, b, header)) by {
            assert(p.fits(b));
        }
        assert forall|j: int| 0 <= j < info.properties@.len() implies property_valid(
            #[trigger] info.properties@[j],
            b,
            header,
        ) by {}
        assert forall|i: int, j: int| 0 <= i < j < info.properties@.len() implies !payloads_overlap(
            #[trigger] info.properties@[i],
            #[trigger] info.properties@[j],
            b,
        ) by {
            assert(!payloads_overlap(info.properties@[i], info.properties@[j], a));
        }
    }

    pub fn write_byte(&mut self, value: u8)
        requires
            old(self).wf(),
            old(self).position() < old(self).info().properties@.len(),
            old(self).next().data_type == DataType::Byte,
        ensures
            final(self).wf(),
            final(self).info() == old(self).info(),
            final(self).position() == old(self).position() + 1,
            final(self).written() == old(self).written().push(Value::Byte(value)),
    {
        let mut encoded: Vec<u8> = Vec::new();
        encoded.push(value);
        proof {
            let p = self.next();
            let after = overwritten(self.bytes(), p.offset as int, encoded@);
            assert(property_valid(self.info().properties@[self.position()], self.bytes(), self.info().static_size as int));
            assert(after[p.offset as int] == value);
        }
        self.write_slot(&encoded, Ghost(Value::Byte(value)));
    }

    pub fn write_int(&mut self, value: i32)
        requires
            old(self).wf(),
            old(self).position() < old(self).info().properties@.len(),
            old(self).next().data_type == DataType::Int,
        ensures
            final(self).wf(),
            final(self).info() == old(self).info(),
            final(self).position() == old(self).position() + 1,
            final(self).written() == old(self).written().push(Value::Int(value)),
    {
        let mut encoded: Vec<u8> = Vec::new();
        write_u32_le(&mut encoded, to_unsigned32(value));
        proof {
            let p = self.next();
            let after = overwritten(self.bytes(), p.offset as int, encoded@);
            assert(property_valid(self.info().properties@[self.position()], self.bytes(), self.info().static_size as int));
            assert(after.subrange(p.offset as int, p.offset + 4) =~= encoded@);
            lemma_u32_le_round_trip(after, p.offset as int, as_unsigned32(value as int));
        }
        self.write_slot(&encoded, Ghost(Value::Int(value)));
    }

    /// Writes a `Float`, given by its IEEE 754 bit pattern.
    pub fn write_float_bits(&mut self, bits: u32)
        requires
            old(self).wf(),
            old(self).position() < old(self).info().properties@.len(),
            old(self).next().data_type == DataType::Float,
        ensures
            final(self).wf(),
            final(self).info() == old(self).info(),
            final(self).position() == old(self).position() + 1,
            final(self).written() == old(self).written().push(Value::Float(bits)),
    {
        let mut encoded: Vec<u8> = Vec::new();
        write_u32_le(&mut encoded, bits);
        proof {
            let p = self.next();
            let after = overwritten(self.bytes(), p.offset as int, encoded@);
            assert(property_valid(self.info().properties@[self.position()], self.bytes(), self.info().static_size as int));
            assert(after.subrange(p.offset as int, p.offset + 4) =~= encoded@);
            lemma_u32_le_round_trip(after, p.offset as int, bits as int);
        }
        self.write_slot(&encoded, Ghost(Value::Float(bits)));
    }

    pub fn write_long(&mut self, value: i64)
        requires
            old(self).wf(),
            old(self).position() < old(self).info().properties@.len(),
            old(self).next().data_type == DataType::Long,
        ensures
            final(self).wf(),
            final(self).info() == old(self).info(),
            final(self).position() == old(self).position() + 1,
            final(self).written() == old(self).written().push(Value::Long(value)),
    {
        let mut encoded: Vec<u8> = Vec::new();
        write_u64_le(&mut encoded, to_unsigned64(value));
        proof {
            let p = self.next();
            let after = overwritten(self.bytes(), p.offset as int, encoded@);
            assert(property_valid(self.info().properties@[self.position()], self.bytes(), self.info().static_size as int));
            assert(after.subrange(p.offset as int, p.offset + 8) =~= encoded@);
            lemma_u64_le_round_trip(after, p.offset as int, as_unsigned64(value as int));
        }
        self.write_slot(&encoded, Ghost(Value::Long(value)));
    }

    /// Writes a `Double`, given by its IEEE 754 bit pattern.
    pub fn write_double_bits(&mut self, bits: u64)
        requires
            old(self).wf(),
            old(self).position() < old(self).info().properties@.len(),
            old(self).next().data_type == DataType::Double,
        ensures
            final(self).wf(),
            final(self).info() == old(self).info(),
            final(self).position() == old(self).position() + 1,
            final(self).written() == old(self).written().push(Value::Double(bits)),
    {
        let mut encoded: Vec<u8> = Vec::new();
        write_u64_le(&mut encoded, bits);
        proof {
            let p = self.next();
            let after = overwritten(self.bytes(), p.offset as int, encoded@);
            assert(property_valid(self.info().properties@[self.position()], self.bytes(), self.info().static_size as int));
            assert(after.subrange(p.offset as int, p.offset + 8) =~= encoded@);
            lemma_u64_le_round_trip(after, p.offset as int, bits as int);
        }
        self.write_slot(&encoded, Ghost(Value::Double(bits)));
    }

    /// The null value of a dynamic type, as the value model has it.
    pub open spec fn null_value(data_type: DataType) -> Value {
        match data_type {
            DataType::IntList => Value::Ints(None),
            DataType::LongList => Value::Longs(None),
            DataType::FloatList => Value::Floats(None),
            DataType::DoubleList => Value::Doubles(None),
            DataType::StringList => Value::Strings(None),
            _ => Value::Bytes(None),
        }
    }

    /// Writes the null value of a string or list type.
    pub fn write_null(&mut self)
        requires
            old(self).wf(),
            old(self).position() < old(self).info().properties@.len(),
            !old(self).next().data_type.spec_is_static(),
        ensures
            final(self).wf(),
            final(self).info() == old(self).info(),
            final(self).position() == old(self).position() + 1,
            final(self).written() == old(self).written().push(
                Self::null_value(old(self).next().data_type),
            ),
    {
        let mut encoded: Vec<u8> = Vec::new();
        write_u32_le(&mut encoded, 0);
        write_u32_le(&mut encoded, 0);
        proof {
            let p = self.next();
            let after = overwritten(self.bytes(), p.offset as int, encoded@);
            assert(property_valid(self.info().properties@[self.position()], self.bytes(), self.info().static_size as int));
            assert(after.subrange(p.offset as int, p.offset + 8) =~= descriptor_bytes(0, 0));
            lemma_descriptor_round_trip(after, p.offset as int, 0, 0);
        }
        self.write_slot(&encoded, Ghost(Self::null_value(self.next().data_type)));
    }

    /// The first multiple of `align` that is not below `n`.
    pub open spec fn spec_padded(n: int, align: int) -> int {
        if align == 4 {
            if n % 4 == 0 {
                n
            } else {
                n + 4 - n % 4
            }
        } else if align == 8 {
            if n % 8 == 0 {
                n
            } else {
                n + 8 - n % 8
            }
        } else {
            n
        }
    }

    /// Whether a payload of `size` bytes, aligned to `align`, still fits
    /// an object behind what has been assembled.
    pub open spec fn has_room(&self, size: int, align: int) -> bool {
        Self::spec_padded(self.bytes().len() as int, align) + size <= u32::MAX
    }

    /// Appends zero bytes up to the next multiple of `align`.
    fn pad_to(&mut self, align: usize)
        requires
            old(self).wf(),
            align == 1 || align == 4 || align == 8,
            Self::spec_padded(old(self).bytes().len() as int, align as int) <= u32::MAX,
        ensures
            final(self).wf(),
            final(self).info() == old(self).info(),
            final(self).position() == old(self).position(),
            final(self).written() == old(self).written(),
            final(self).bytes().len() == Self::spec_padded(
                old(self).bytes().len() as int,
                align as int,
            ),
    {
        let ghost start = self.buffer@;
        let ghost goal = Self::spec_padded(start.len() as int, align as int);
        proof {
            let n = start.len() as int;
            if align == 4 {
                assert(Self::spec_padded(n, 4) % 4 == 0);
                assert(Self::spec_padded(n, 4) - n < 4);
            } else if align == 8 {
                assert(Self::spec_padded(n, 8) % 8 == 0);
                assert(Self::spec_padded(n, 8) - n < 8);
            } else {
                assert(Self::spec_padded(n, 1) == n);
            }
        }
        while self.buffer.len() % align != 0
            invariant
                self.wf(),
                align == 1 || align == 4 || align == 8,
                self.info == old(self).info,
                self.index == old(self).index,
                self.values == old(self).values,
                start.len() <= self.buffer@.len() <= goal,
                goal <= u32::MAX,
                goal == Self::spec_padded(start.len() as int, align as int),
                goal % (align as int) == 0,
                goal - start.len() < align,
            decreases goal - self.buffer@.len(),
        {
            let ghost before = *self;
            self.buffer.push(0);
            proof {
                assert(self.buffer@.subrange(0, before.buffer@.len() as int) =~= before.buffer@);
                if align == 4 {
                    assert(before.buffer@.len() % 4 != 0);
                } else if align == 8 {
                    assert(before.buffer@.len() % 8 != 0);
                }
                self.lemma_after_append(&before);
            }
        }
    }

    /// The invariant holds after bytes have been appended.
    proof fn lemma_after_append(&self, before: &Self)
        requires
            before.wf(),
            self.info() == before.info(),
            self.position() == before.position(),
            self.written() == before.written(),
            before.bytes().len() <= self.bytes().len() <= u32::MAX,
            self.bytes().subrange(0, before.bytes().len() as int) == before.bytes(),
        ensures
            self.wf(),
    {
        let info = self.info();
        let header = info.static_size as int;
        let a = before.bytes();
        let b = self.bytes();
        assert forall|x: int| 0 <= x < a.len() implies a[x] == #[trigger] b[x] by {
            assert(b.subrange(0, a.len() as int)[x] == b[x]);
        }
        assert forall|j: int| 0 <= j < info.properties@.len() implies property_valid(
            #[trigger] info.properties@[j],
            b,
            header,
        ) && value_of(info.properties@[j], b) == value_of(info.properties@[j], a) && (
        !info.properties@[j].data_type.spec_is_static() ==> info.properties@[j].spec_position(b)
            == info.properties@[j].spec_position(a)) by {
            let q = info.properties@[j];
            assert(property_valid(q, a, header));
            lemma_value_frame(q, a, b, header);
        }
        assert forall|i: int, j: int| 0 <= i < j < info.properties@.len() implies !payloads_overlap(
            #[trigger] info.properties@[i],
            #[trigger] info.properties@[j],
            b,
        ) by {
            assert(!payloads_overlap(info.properties@[i], info.properties@[j], a));
        }
    }

    /// Appends `payload` and points the descriptor of the next property at
    /// it, then moves on.
    fn attach(&mut self, payload: &Vec<u8>, count: u32, Ghost(v): Ghost<Value>)
        requires
            old(self).wf(),
            old(self).position() < old(self).info().properties@.len(),
            !old(self).next().data_type.spec_is_static(),
            old(self).bytes().len() + payload@.len() <= u32::MAX,
            ({
                let p = old(self).next();
                let offset = old(self).bytes().len() as u32;
                let after = overwritten(
                    old(self).bytes(),
                    p.offset as int,
                    descriptor_bytes(offset, count),
                ) + payload@;
                &&& value_of(p, after) == v
                &&& property_valid(p, after, old(self).info().static_size as int)
                &&& count * p.data_type.spec_element_size() <= payload@.len()
            }),
        ensures
            final(self).wf(),
            final(self).info() == old(self).info(),
            final(self).position() == old(self).position() + 1,
            final(self).written() == old(self).written().push(v),
    {
        let p = self.info.properties[self.index];
        let ghost before = *self;
        let ghost a = self.buffer@;
        let count_all: usize = self.info.properties.len();
        assert(property_valid(self.info.properties@[self.index as int], a, self.info.static_size as int));
        let offset: u32 = self.buffer.len() as u32;
        let mut descriptor: Vec<u8> = Vec::new();
        write_u32_le(&mut descriptor, offset);
        write_u32_le(&mut descriptor, count);
        let at = p.offset;
        let total: usize = self.buffer.len();
        let mut k: usize = 0;
        while k < 8
            invariant
                k <= 8,
                descriptor@.len() == 8,
                at + 8 <= a.len(),
                total == a.len(),
                self.buffer@.len() == a.len(),
                self.info == old(self).info,
                self.index == old(self).index,
                self.values == old(self).values,
                forall|x: int| 0 <= x < a.len() && !(at <= x < at + k) ==> self.buffer@[x] == a[x],
                forall|x: int| 0 <= x < k ==> #[trigger] self.buffer@[at + x] == descriptor@[x],
            decreases 8 - k,
        {
            self.buffer.set(at + k, descriptor[k]);
            k += 1;
        }
        let ghost mid = self.buffer@;
        assert(mid =~= overwritten(a, at as int, descriptor@)) by {
            assert forall|y: int| 0 <= y < a.len() implies mid[y] == overwritten(
                a,
                at as int,
                descriptor@,
            )[y] by {
                if at <= y < at + 8 {
                    let x = y - at;
                    assert(self.buffer@[at + x] == descriptor@[x]);
                }
            }
        }
        let mut i: usize = 0;
        while i < payload.len()
            invariant
                i <= payload.len(),
                a.len() + payload@.len() <= u32::MAX,
                mid.len() == a.len(),
                self.buffer@ == mid + payload@.subrange(0, i as int),
                self.info == old(self).info,
                self.index == old(self).index,
                self.values == old(self).values,
            decreases payload.len() - i,
        {
            self.buffer.push(payload[i]);
            assert(self.buffer@ =~= mid + payload@.subrange(0, i + 1));
            i += 1;
        }
        assert(payload@.subrange(0, i as int) =~= payload@);
        self.index += 1;
        self.values = Ghost(self.values@.push(v));
        proof {
            let info = self.info();
            let header = info.static_size as int;
            let b = self.bytes();
            let pos = (DynamicPosition { offset, length: count });
            assert(b.subrange(at as int, at + 8) =~= descriptor_bytes(offset, count));
            lemma_descriptor_round_trip(b, at as int, offset, count);
            assert forall|x: int| 0 <= x < a.len() && !(at <= x < at + 8) implies a[x] == #[trigger] b[x] by {}
            let me = before.position();
            assert forall|j: int| 0 <= j < info.properties@.len() && j != me implies property_valid(
                #[trigger] info.properties@[j],
                b,
                header,
            ) && value_of(info.properties@[j], b) == value_of(info.properties@[j], a) && (
            !info.properties@[j].data_type.spec_is_static()
                ==> info.properties@[j].spec_position(b) == info.properties@[j].spec_position(a)) by {
                let q = info.properties@[j];
                assert(property_valid(q, a, header));
                if j < me {
                    assert(q.offset + q.data_type.spec_static_size() <= p.offset || p.offset
                        + p.data_type.spec_static_size() <= q.offset);
                } else {
                    assert(q.offset + q.data_type.spec_static_size() <= p.offset || p.offset
                        + p.data_type.spec_static_size() <= q.offset);
                }
                lemma_value_frame(q, a, b, header);
            }
            assert forall|j: int| 0 <= j < info.properties@.len() implies property_valid(
                #[trigger] info.properties@[j],
                b,
                header,
            ) by {}
            assert(offset != 0) by {
                assert(at + 8 <= header);
            }
            assert(p.spec_position(b) == Some(pos));
            assert forall|i: int, j: int|
                0 <= i < j < info.properties@.len() implies !payloads_overlap(
                #[trigger] info.properties@[i],
                #[trigger] info.properties@[j],
                b,
            ) by {
                let x = info.properties@[i];
                let y = info.properties@[j];
                assert(!payloads_overlap(x, y, a));
                assert(property_valid(x, a, header));
                assert(property_valid(y, a, header));
                if i == me || j == me {
                    let other = if i == me {
                        y
                    } else {
                        x
                    };
                    if !other.data_type.spec_is_static() {
                        match other.spec_position(a) {
                            Some(op) => {
                                assert(op.offset + op.length * other.data_type.spec_element_size()
                                    <= a.len());
                            },
                            None => {},
                        }
                    }
                }
            }
        }
    }

    /// Writes a byte list.
    pub fn write_byte_list(&mut self, value: Option<&[u8]>) -> (r: Result<(), IsarError>)
        requires
            old(self).wf(),
            old(self).position() < old(self).info().properties@.len(),
            old(self).next().data_type == DataType::ByteList,
        ensures
            final(self).wf(),
            final(self).info() == old(self).info(),
            r is Ok <==> (value matches Some(list) ==> old(self).has_room(list@.len() as int, 1)),
            r matches Err(e) ==> e is IllegalArgument && *final(self) == *old(self),
            r is Ok ==> final(self).position() == old(self).position() + 1 && final(self).written()
                == old(self).written().push(
                Value::Bytes(
                    match value {
                        Some(list) => Some(list@),
                        None => None,
                    },
                ),
            ),
    {
        match value {
            None => {
                self.write_null();
                Ok(())
            },
            Some(list) => self.write_bytes(list),
        }
    }

    /// Writes a string.
    pub fn write_string(&mut self, value: Option<&str>) -> (r: Result<(), IsarError>)
        requires
            old(self).wf(),
            old(self).position() < old(self).info().properties@.len(),
            old(self).next().data_type == DataType::String,
        ensures
            final(self).wf(),
            final(self).info() == old(self).info(),
            r is Ok <==> (value matches Some(s) ==> old(self).has_room(
                s.spec_bytes().len() as int,
                1,
            )),
            r matches Err(e) ==> e is IllegalArgument && *final(self) == *old(self),
            r is Ok ==> final(self).position() == old(self).position() + 1 && final(self).written()
                == old(self).written().push(
                Value::Bytes(
                    match value {
                        Some(s) => Some(s.spec_bytes()),
                        None => None,
                    },
                ),
            ),
    {
        match value {
            None => {
                self.write_null();
                Ok(())
            },
            Some(s) => {
                proof {
                    vstd::utf8::encode_utf8_valid_utf8(s@);
                }
                self.write_bytes(s.as_bytes())
            },
        }
    }

    /// Writes the bytes of a string or of a byte list.
    fn write_bytes(&mut self, list: &[u8]) -> (r: Result<(), IsarError>)
        requires
            old(self).wf(),
            old(self).position() < old(self).info().properties@.len(),
            old(self).next().data_type == DataType::ByteList || (old(self).next().data_type
                == DataType::String && vstd::utf8::valid_utf8(list@)),
        ensures
            final(self).wf(),
            final(self).info() == old(self).info(),
            r is Ok <==> old(self).has_room(list@.len() as int, 1),
            r matches Err(e) ==> e is IllegalArgument && *final(self) == *old(self),
            r is Ok ==> final(self).position() == old(self).position() + 1 && final(self).written()
                == old(self).written().push(Value::Bytes(Some(list@))),
    {
        let total: usize = self.buffer.len();
        if list.len() > 0xffff_ffff - total {
            return Err(too_large());
        }
        let payload = crate::order::copy_bytes(list);
        let count: u32 = list.len() as u32;
        proof {
            let p = self.next();
            let header = self.info().static_size as int;
            let offset = self.bytes().len() as u32;
            let pos = (DynamicPosition { offset, length: count });
            let after = overwritten(self.bytes(), p.offset as int, descriptor_bytes(offset, count))
                + payload@;
            assert(property_valid(self.info().properties@[self.position()], self.bytes(), header));
            assert(after.subrange(p.offset as int, p.offset + 8) =~= descriptor_bytes(offset, count));
            lemma_descriptor_round_trip(after, p.offset as int, offset, count);
            assert(p.spec_position(after) == Some(pos));
            assert(payload_bytes(after, pos) =~= list@);
        }
        self.attach(&payload, count, Ghost(Value::Bytes(Some(list@))));
        Ok(())
    }

    /// The value that a list of 32-bit words stands for in a property of
    /// the type: the numbers with those bits, or the bit patterns themselves.
    pub open spec fn words_value(data_type: DataType, words: Seq<u32>) -> Value {
        if data_type == DataType::IntList {
            Value::Ints(Some(Seq::new(words.len(), |i: int| as_signed32(words[i] as int) as i32)))
        } else {
            Value::Floats(Some(words))
        }
    }

    /// The value that a list of 64-bit words stands for in a property of
    /// the type.
    pub open spec fn dwords_value(data_type: DataType, words: Seq<u64>) -> Value {
        if data_type == DataType::LongList {
            Value::Longs(Some(Seq::new(words.len(), |i: int| as_signed64(words[i] as int) as i64)))
        } else {
            Value::Doubles(Some(words))
        }
    }

    /// Whether `size` more bytes, aligned to `align`, fit; tells so
    /// without changing anything.
    fn check_room(&self, size: u64, align: usize) -> (r: bool)
        requires
            self.wf(),
            align == 1 || align == 4 || align == 8,
            size <= 0x8_0000_0000,
        ensures
            r == self.has_room(size as int, align as int),
    {
        let total: u64 = self.buffer.len() as u64;
        let step: u64 = align as u64;
        let rest: u64 = total % step;
        let padded: u64 = if align == 1 || rest == 0 {
            total
        } else {
            total + step - rest
        };
        padded + size <= 0xffff_ffff
    }

    /// Writes a list of 32-bit words.
    #[verifier::rlimit(40)]
    fn write_words(&mut self, words: &Vec<u32>) -> (r: Result<(), IsarError>)
        requires
            old(self).wf(),
            old(self).position() < old(self).info().properties@.len(),
            old(self).next().data_type == DataType::IntList || old(self).next().data_type
                == DataType::FloatList,
        ensures
            final(self).wf(),
            final(self).info() == old(self).info(),
            r is Ok <==> old(self).has_room(words@.len() as int * 4, 4),
            r matches Err(e) ==> e is IllegalArgument && *final(self) == *old(self),
            r is Ok ==> final(self).position() == old(self).position() + 1 && final(self).written()
                == old(self).written().push(
                Self::words_value(old(self).next().data_type, words@),
            ),
    {
        if words.len() > 0x4000_0000 || !self.check_room(words.len() as u64 * 4, 4) {
            return Err(too_large());
        }
        self.pad_to(4);
        let mut payload: Vec<u8> = Vec::new();
        let mut i: usize = 0;
        while i < words.len()
            invariant
                i <= words.len(),
                words.len() <= 0x4000_0000,
                payload@.len() == 4 * i,
                forall|k: int|
                    0 <= k < i ==> #[trigger] payload@.subrange(4 * k, 4 * k + 4) == spec_u32_to_le(
                        words@[k] as int,
                    ),
            decreases words.len() - i,
        {
            let ghost before = payload@;
            write_u32_le(&mut payload, words[i]);
            proof {
                assert forall|k: int| 0 <= k < i + 1 implies #[trigger] payload@.subrange(
                    4 * k,
                    4 * k + 4,
                ) == spec_u32_to_le(words@[k] as int) by {
                    if k < i {
                        assert(payload@.subrange(4 * k, 4 * k + 4) =~= before.subrange(
                            4 * k,
                            4 * k + 4,
                        ));
                    } else {
                        assert(payload@.subrange(4 * k, 4 * k + 4) =~= spec_u32_to_le(
                            words@[k] as int,
                        ));
                    }
                }
            }
            i += 1;
        }
        let count: u32 = words.len() as u32;
        proof {
            let p = self.next();
            let header = self.info().static_size as int;
            let offset = self.bytes().len() as u32;
            let pos = (DynamicPosition { offset, length: count });
            let after = overwritten(self.bytes(), p.offset as int, descriptor_bytes(offset, count))
                + payload@;
            assert(property_valid(self.info().properties@[self.position()], self.bytes(), header));
            assert(after.subrange(p.offset as int, p.offset + 8) =~= descriptor_bytes(offset, count));
            lemma_descriptor_round_trip(after, p.offset as int, offset, count);
            assert(p.spec_position(after) == Some(pos));
            assert forall|k: int| 0 <= k < count implies spec_u32_le(after, offset + 4 * k)
                == #[trigger] words@[k] by {
                assert(after.subrange(offset + 4 * k, offset + 4 * k + 4) =~= payload@.subrange(
                    4 * k,
                    4 * k + 4,
                ));
                lemma_u32_le_round_trip(after, offset + 4 * k, words@[k] as int);
            }
            assert(payload_words(after, pos) =~= words@);
            assert(payload_ints(after, pos) =~= Seq::new(
                words@.len(),
                |i: int| as_signed32(words@[i] as int) as i32,
            ));
        }
        self.attach(&payload, count, Ghost(Self::words_value(self.next().data_type, words@)));
        Ok(())
    }

    /// Writes a list of 64-bit words.
    #[verifier::rlimit(40)]
    fn write_dwords(&mut self, words: &Vec<u64>) -> (r: Result<(), IsarError>)
        requires
            old(self).wf(),
            old(self).position() < old(self).info().properties@.len(),
            old(self).next().data_type == DataType::LongList || old(self).next().data_type
                == DataType::DoubleList,
        ensures
            final(self).wf(),
            final(self).info() == old(self).info(),
            r is Ok <==> old(self).has_room(words@.len() as int * 8, 8),
            r matches Err(e) ==> e is IllegalArgument && *final(self) == *old(self),
            r is Ok ==> final(self).position() == old(self).position() + 1 && final(self).written()
                == old(self).written().push(
                Self::dwords_value(old(self).next().data_type, words@),
            ),
    {
        if words.len() > 0x2000_0000 || !self.check_room(words.len() as u64 * 8, 8) {
            return Err(too_large());
        }
        self.pad_to(8);
        let mut payload: Vec<u8> = Vec::new();
        let mut i: usize = 0;
        while i < words.len()
            invariant
                i <= words.len(),
                words.len() <= 0x2000_0000,
                payload@.len() == 8 * i,
                forall|k: int|
                    0 <= k < i ==> #[trigger] payload@.subrange(8 * k, 8 * k + 8) == spec_u64_to_le(
                        words@[k] as int,
                    ),
            decreases words.len() - i,
        {
            let ghost before = payload@;
            write_u64_le(&mut payload, words[i]);
            proof {
                assert forall|k: int| 0 <= k < i + 1 implies #[trigger] payload@.subrange(
                    8 * k,
                    8 * k + 8,
                ) == spec_u64_to_le(words@[k] as int) by {
                    if k < i {
                        assert(payload@.subrange(8 * k, 8 * k + 8) =~= before.subrange(
                            8 * k,
                            8 * k + 8,
                        ));
                    } else {
                        assert(payload@.subrange(8 * k, 8 * k + 8) =~= spec_u64_to_le(
                            words@[k] as int,
                        ));
                    }
                }
            }
            i += 1;
        }
        let count: u32 = words.len() as u32;
        proof {
            let p = self.next();
            let header = self.info().static_size as int;
            let offset = self.bytes().len() as u32;
            let pos = (DynamicPosition { offset, length: count });
            let after = overwritten(self.bytes(), p.offset as int, descriptor_bytes(offset, count))
                + payload@;
            assert(property_valid(self.info().properties@[self.position()], self.bytes(), header));
            assert(after.subrange(p.offset as int, p.offset + 8) =~= descriptor_bytes(offset, count));
            lemma_descriptor_round_trip(after, p.offset as int, offset, count);
            assert(p.spec_position(after) == Some(pos));
            assert forall|k: int| 0 <= k < count implies spec_u64_le(after, offset + 8 * k)
                == #[trigger] words@[k] by {
                assert(after.subrange(offset + 8 * k, offset + 8 * k + 8) =~= payload@.subrange(
                    8 * k,
                    8 * k + 8,
                ));
                lemma_u64_le_round_trip(after, offset + 8 * k, words@[k] as int);
            }
            assert(payload_dwords(after, pos) =~= words@);
            assert(payload_longs(after, pos) =~= Seq::new(
                words@.len(),
                |i: int| as_signed64(words@[i] as int) as i64,
            ));
        }
        self.attach(&payload, count, Ghost(Self::dwords_value(self.next().data_type, words@)));
        Ok(())
    }

    /// Writes an int list.
    pub fn write_int_list(&mut self, value: Option<&[i32]>) -> (r: Result<(), IsarError>)
        requires
            old(self).wf(),
            old(self).position() < old(self).info().properties@.len(),
            old(self).next().data_type == DataType::IntList,
        ensures
            final(self).wf(),
            final(self).info() == old(self).info(),
            r is Ok <==> (value matches Some(list) ==> old(self).has_room(list@.len() as int * 4, 4)),
            r matches Err(e) ==> e is IllegalArgument && *final(self) == *old(self),
            r is Ok ==> final(self).position() == old(self).position() + 1 && final(self).written()
                == old(self).written().push(
                Value::Ints(
                    match value {
                        Some(list) => Some(list@),
                        None => None,
                    },
                ),
            ),
    {
        match value {
            None => {
                self.write_null();
                Ok(())
            },
            Some(list) => {
                let mut words: Vec<u32> = Vec::new();
                let mut i: usize = 0;
                while i < list.len()
                    invariant
                        i <= list@.len(),
                        words.len() == i,
                        forall|k: int|
                            0 <= k < i ==> #[trigger] words@[k] == as_unsigned32(list@[k] as int),
                    decreases list@.len() - i,
                {
                    words.push(to_unsigned32(list[i]));
                    i += 1;
                }
                proof {
                    assert(Seq::new(words@.len(), |i: int| as_signed32(words@[i] as int) as i32)
                        =~= list@);
                }
                self.write_words(&words)
            },
        }
    }

    /// Writes a float list, given by the IEEE 754 bit patterns.
    pub fn write_float_list_bits(&mut self, value: Option<&Vec<u32>>) -> (r: Result<(), IsarError>)
        requires
            old(self).wf(),
            old(self).position() < old(self).info().properties@.len(),
            old(self).next().data_type == DataType::FloatList,
        ensures
            final(self).wf(),
            final(self).info() == old(self).info(),
            r is Ok <==> (value matches Some(list) ==> old(self).has_room(list@.len() as int * 4, 4)),
            r matches Err(e) ==> e is IllegalArgument && *final(self) == *old(self),
            r is Ok ==> final(self).position() == old(self).position() + 1 && final(self).written()
                == old(self).written().push(
                Value::Floats(
                    match value {
                        Some(list) => Some(list@),
                        None => None,
                    },
                ),
            ),
    {
        match value {
            None => {
                self.write_null();
                Ok(())
            },
            Some(list) => self.write_words(list),
        }
    }

    /// Writes a long list.
    pub fn write_long_list(&mut self, value: Option<&[i64]>) -> (r: Result<(), IsarError>)
        requires
            old(self).wf(),
            old(self).position() < old(self).info().properties@.len(),
            old(self).next().data_type == DataType::LongList,
        ensures
            final(self).wf(),
            final(self).info() == old(self).info(),
            r is Ok <==> (value matches Some(list) ==> old(self).has_room(list@.len() as int * 8, 8)),
            r matches Err(e) ==> e is IllegalArgument && *final(self) == *old(self),
            r is Ok ==> final(self).position() == old(self).position() + 1 && final(self).written()
                == old(self).written().push(
                Value::Longs(
                    match value {
                        Some(list) => Some(list@),
                        None => None,
                    },
                ),
            ),
    {
        match value {
            None => {
                self.write_null();
                Ok(())
            },
            Some(list) => {
                let mut words: Vec<u64> = Vec::new();
                let mut i: usize = 0;
                while i < list.len()
                    invariant
                        i <= list@.len(),
                        words.len() == i,
                        forall|k: int|
                            0 <= k < i ==> #[trigger] words@[k] == as_unsigned64(list@[k] as int),
                    decreases list@.len() - i,
                {
                    words.push(to_unsigned64(list[i]));
                    i += 1;
                }
                proof {
                    assert(Seq::new(words@.len(), |i: int| as_signed64(words@[i] as int) as i64)
                        =~= list@);
                }
                self.write_dwords(&words)
            },
        }
    }

    /// Writes a double list, given by the IEEE 754 bit patterns.
    pub fn write_double_list_bits(&mut self, value: Option<&Vec<u64>>) -> (r: Result<
        (),
        IsarError,
    >)
        requires
            old(self).wf(),
            old(self).position() < old(self).info().properties@.len(),
            old(self).next().data_type == DataType::DoubleList,
        ensures
            final(self).wf(),
            final(self).info() == old(self).info(),
            r is Ok <==> (value matches Some(list) ==> old(self).has_room(list@.len() as int * 8, 8)),
            r matches Err(e) ==> e is IllegalArgument && *final(self) == *old(self),
            r is Ok ==> final(self).position() == old(self).position() + 1 && final(self).written()
                == old(self).written().push(
                Value::Doubles(
                    match value {
                        Some(list) => Some(list@),
                        None => None,
                    },
                ),
            ),
    {
        match value {
            None => {
                self.write_null();
                Ok(())
            },
            Some(list) => self.write_dwords(list),
        }
    }

    /// Writes a string list.
    pub fn write_string_list(&mut self, value: Option<&Vec<Option<&str>>>) -> (r: Result<
        (),
        IsarError,
    >)
        requires
            old(self).wf(),
            old(self).position() < old(self).info().properties@.len(),
            old(self).next().data_type == DataType::StringList,
        ensures
            final(self).wf(),
            final(self).info() == old(self).info(),
            r is Ok <==> (value matches Some(list) ==> old(self).has_room(
                8 * list@.len() + strings_size(strings_model(list@)),
                4,
            )),
            r matches Err(e) ==> e is IllegalArgument && *final(self) == *old(self),
            r is Ok ==> final(self).position() == old(self).position() + 1 && final(self).written()
                == old(self).written().push(
                Value::Strings(
                    match value {
                        Some(list) => Some(strings_model(list@)),
                        None => None,
                    },
                ),
            ),
    {
        let list = match value {
            None => {
                self.write_null();
                return Ok(());
            },
            Some(list) => list,
        };
        let ghost model = strings_model(list@);
        let n: usize = list.len();
        let sum = match strings_total(list) {
            Some(sum) => sum,
            None => {
                return Err(too_large());
            },
        };
        if n > 0x2000_0000 || !self.check_room(8 * (n as u64) + sum, 4) {
            return Err(too_large());
        }
        self.pad_to(4);
        let offset: u32 = self.buffer.len() as u32;
        let base: u32 = offset + 8 * (n as u32);
        let built = build_strings(list, base);
        let table = built.0;
        let ghost descs = built.1@;
        let count: u32 = n as u32;
        proof {
            let p = self.next();
            let header = self.info().static_size as int;
            assert(property_valid(self.info().properties@[self.position()], self.bytes(), header));
            lemma_strings_land(
                p,
                self.bytes(),
                header,
                offset,
                count,
                table@,
                descs,
                model,
            );
        }
        self.attach(&table, count, Ghost(Value::Strings(Some(model))));
        Ok(())
    }

    /// The finished object.
    pub fn finish(self) -> (r: ObjectBuilderResult)
        requires
            self.wf(),
        ensures
            r@ == self.bytes(),
            self.info().spec_valid(r@),
            forall|j: int|
                0 <= j < self.position() ==> value_of(#[trigger] self.info().properties@[j], r@)
                    == self.written()[j],
    {
        ObjectBuilderResult { bytes: self.buffer }
    }
}

/// The error of a value that does not fit into an object.
pub fn too_large() -> (e: IsarError)
    ensures
        e is IllegalArgument,
        e->IllegalArgument_message@ == too_large_text(),
{
    IsarError::IllegalArgument { message: "The object is too large.".to_string() }
}

/// What the error of a value that does not fit says.
pub open spec fn too_large_text() -> Seq<char> {
    "The object is too large."@
}

/// The strings of a list as plain values: the UTF-8 bytes of each, or
/// nothing for a null element.
pub open spec fn strings_model(list: Seq<Option<&str>>) -> Seq<Option<Seq<u8>>> {
    Seq::new(
        list.len(),
        |i: int|
            match list[i] {
                Some(s) => Some(s.spec_bytes()),
                None => None,
            },
    )
}

/// How many bytes the strings of a list take, one after the other.
pub open spec fn strings_size(list: Seq<Option<Seq<u8>>>) -> int
    decreases list.len(),
{
    if list.len() == 0 {
        0
    } else {
        strings_size(list.drop_last()) + match list.last() {
            Some(b) => b.len() as int,
            None => 0,
        }
    }
}

/// The first strings of a list take no more bytes than all of them.
pub proof fn lemma_strings_size_grows(list: Seq<Option<Seq<u8>>>, n: int)
    requires
        0 <= n <= list.len(),
    ensures
        0 <= strings_size(list.take(n)) <= strings_size(list),
    decreases list.len() - n,
{
    if n == list.len() {
        assert(list.take(n) =~= list);
        lemma_strings_size_nonnegative(list);
    } else {
        lemma_strings_size_grows(list, n + 1);
        assert(list.take(n + 1).drop_last() =~= list.take(n));
        lemma_strings_size_nonnegative(list.take(n));
    }
}

pub proof fn lemma_strings_size_nonnegative(list: Seq<Option<Seq<u8>>>)
    ensures
        0 <= strings_size(list),
    decreases list.len(),
{
    if list.len() > 0 {
        lemma_strings_size_nonnegative(list.drop_last());
    }
}

/// How many bytes the strings of the list take, if that is no more than
/// an object can hold.
pub fn strings_total(list: &Vec<Option<&str>>) -> (r: Option<u64>)
    ensures
        r is Some <==> strings_size(strings_model(list@)) <= u32::MAX,
        r matches Some(sum) ==> sum == strings_size(strings_model(list@)),
{
    let ghost model = strings_model(list@);
    let n: usize = list.len();
    let mut sum: u64 = 0;
    let mut i: usize = 0;
    while i < n
        invariant
            i <= n,
            n == list@.len(),
            model == strings_model(list@),
            sum == strings_size(model.take(i as int)),
            sum <= 0xffff_ffff,
        decreases n - i,
    {
        proof {
            assert(model.take(i + 1).drop_last() =~= model.take(i as int));
            assert(model.take(i + 1).last() == model[i as int]);
            lemma_strings_size_grows(model, i + 1);
        }
        match list[i] {
            Some(s) => {
                let len: usize = s.as_bytes().len();
                if len as u64 > 0xffff_ffff - sum {
                    return None;
                }
                sum += len as u64;
            },
            None => {},
        }
        i += 1;
    }
    assert(model.take(n as int) =~= model);
    Some(sum)
}

/// Whether `descs` describe where the strings of `model` lie in `data`,
/// which starts at `base` in the object: a null string has offset 0, any
/// other string lies at its offset with its length.
pub open spec fn strings_placed(
    descs: Seq<DynamicPosition>,
    model: Seq<Option<Seq<u8>>>,
    data: Seq<u8>,
    base: int,
    n: int,
) -> bool {
    forall|x: int|
        0 <= x < n ==> match model[x] {
            Some(b) => (#[trigger] descs[x]).offset >= base && descs[x].length == b.len()
                && descs[x].offset - base + b.len() <= data.len() && data.subrange(
                descs[x].offset - base,
                descs[x].offset - base + b.len(),
            ) == b && vstd::utf8::valid_utf8(b),
            None => (#[trigger] descs[x]).offset == 0,
        }
}

/// Whether `table` holds the descriptors `descs`, one after the other.
pub open spec fn table_holds(table: Seq<u8>, descs: Seq<DynamicPosition>, n: int) -> bool {
    forall|x: int|
        0 <= x < n ==> #[trigger] table.subrange(8 * x, 8 * x + 8) == descriptor_bytes(
            descs[x].offset,
            descs[x].length,
        )
}

/// The payload of a string list whose strings begin at `base`: the
/// element descriptors, then the bytes of the strings.
pub fn build_strings(list: &Vec<Option<&str>>, base: u32) -> (r: (
    Vec<u8>,
    Ghost<Seq<DynamicPosition>>,
))
    requires
        list@.len() <= 0x2000_0000,
        base > 0,
        base + strings_size(strings_model(list@)) <= u32::MAX,
    ensures
        r.1@.len() == list@.len(),
        r.0@.len() == 8 * list@.len() + strings_size(strings_model(list@)),
        table_holds(r.0@, r.1@, list@.len() as int),
        strings_placed(
            r.1@,
            strings_model(list@),
            r.0@.subrange(8 * list@.len() as int, r.0@.len() as int),
            base as int,
            list@.len() as int,
        ),
{
    let ghost model = strings_model(list@);
    let n: usize = list.len();
    let mut table: Vec<u8> = Vec::new();
    let mut data: Vec<u8> = Vec::new();
    let ghost mut descs: Seq<DynamicPosition> = Seq::empty();
    let mut k: usize = 0;
    proof {
        assert(model.take(0) =~= Seq::<Option<Seq<u8>>>::empty());
    }
    while k < n
        invariant
            k <= n,
            n == list@.len(),
            n <= 0x2000_0000,
            model == strings_model(list@),
            base > 0,
            base + strings_size(model) <= u32::MAX,
            table@.len() == 8 * k,
            descs.len() == k,
            data@.len() == strings_size(model.take(k as int)),
            table_holds(table@, descs, k as int),
            strings_placed(descs, model, data@, base as int, k as int),
        decreases n - k,
    {
        let ghost table0 = table@;
        let ghost data0 = data@;
        let ghost descs0 = descs;
        proof {
            assert(model.take(k + 1).drop_last() =~= model.take(k as int));
            assert(model.take(k + 1).last() == model[k as int]);
            lemma_strings_size_grows(model, k + 1);
        }
        let ghost d: DynamicPosition;
        match list[k] {
            Some(s) => {
                let bytes = s.as_bytes();
                let at: u32 = base + data.len() as u32;
                let len: u32 = bytes.len() as u32;
                write_u32_le(&mut table, at);
                write_u32_le(&mut table, len);
                let mut y: usize = 0;
                while y < bytes.len()
                    invariant
                        y <= bytes@.len(),
                        data@ == data0 + bytes@.subrange(0, y as int),
                    decreases bytes@.len() - y,
                {
                    data.push(bytes[y]);
                    assert(data@ =~= data0 + bytes@.subrange(0, y + 1));
                    y += 1;
                }
                proof {
                    assert(bytes@.subrange(0, y as int) =~= bytes@);
                    d = DynamicPosition { offset: at, length: len };
                    vstd::utf8::encode_utf8_valid_utf8(s@);
                    assert(data@.subrange(at - base, at - base + bytes@.len()) =~= bytes@);
                }
            },
            None => {
                write_u32_le(&mut table, 0);
                write_u32_le(&mut table, 0);
                proof {
                    d = DynamicPosition { offset: 0, length: 0 };
                }
            },
        }
        proof {
            descs = descs.push(d);
            assert(table@.subrange(8 * k, 8 * k + 8) =~= descriptor_bytes(d.offset, d.length));
            assert forall|x: int| 0 <= x < k + 1 implies #[trigger] table@.subrange(8 * x, 8 * x + 8)
                == descriptor_bytes(descs[x].offset, descs[x].length) by {
                if x < k {
                    assert(table@.subrange(8 * x, 8 * x + 8) =~= table0.subrange(8 * x, 8 * x + 8));
                    assert(descs[x] == descs0[x]);
                }
            }
            assert forall|x: int| 0 <= x < k + 1 implies match model[x] {
                Some(b) => (#[trigger] descs[x]).offset >= base && descs[x].length == b.len()
                    && descs[x].offset - base + b.len() <= data@.len() && data@.subrange(
                    descs[x].offset - base,
                    descs[x].offset - base + b.len(),
                ) == b && vstd::utf8::valid_utf8(b),
                None => (#[trigger] descs[x]).offset == 0,
            } by {
                if x < k {
                    assert(descs[x] == descs0[x]);
                    match model[x] {
                        Some(b) => {
                            assert(data@.subrange(
                                descs[x].offset - base,
                                descs[x].offset - base + b.len(),
                            ) =~= data0.subrange(
                                descs[x].offset - base,
                                descs[x].offset - base + b.len(),
                            ));
                        },
                        None => {},
                    }
                }
            }
        }
        k += 1;
    }
    assert(model.take(n as int) =~= model);
    let ghost table_all = table@;
    let mut y: usize = 0;
    while y < data.len()
        invariant
            y <= data@.len(),
            table@ == table_all + data@.subrange(0, y as int),
        decreases data@.len() - y,
    {
        table.push(data[y]);
        assert(table@ =~= table_all + data@.subrange(0, y + 1));
        y += 1;
    }
    proof {
        assert(data@.subrange(0, y as int) =~= data@);
        assert(table@.subrange(8 * n, table@.len() as int) =~= data@);
        assert forall|x: int| 0 <= x < n implies #[trigger] table@.subrange(8 * x, 8 * x + 8)
            == descriptor_bytes(descs[x].offset, descs[x].length) by {
            assert(table@.subrange(8 * x, 8 * x + 8) =~= table_all.subrange(8 * x, 8 * x + 8));
        }
    }
    (table, Ghost(descs))
}

/// A string list whose payload has been built by `build_strings` reads
/// back as the strings, and is well-formed where it lands.
pub proof fn lemma_strings_land(
    p: Property,
    old_bytes: Seq<u8>,
    header: int,
    offset: u32,
    count: u32,
    payload: Seq<u8>,
    descs: Seq<DynamicPosition>,
    model: Seq<Option<Seq<u8>>>,
)
    requires
        p.data_type == DataType::StringList,
        p.offset + 8 <= header <= old_bytes.len(),
        offset == old_bytes.len(),
        offset % 4 == 0,
        descs.len() == count,
        model.len() == count,
        payload.len() == 8 * count + strings_size(model),
        offset + payload.len() <= u32::MAX,
        table_holds(payload, descs, count as int),
        strings_placed(
            descs,
            model,
            payload.subrange(8 * count, payload.len() as int),
            offset + 8 * count,
            count as int,
        ),
    ensures
        ({
            let after = overwritten(old_bytes, p.offset as int, descriptor_bytes(offset, count))
                + payload;
            &&& value_of(p, after) == Value::Strings(Some(model))
            &&& property_valid(p, after, header)
            &&& count * p.data_type.spec_element_size() <= payload.len()
        }),
{
    let after = overwritten(old_bytes, p.offset as int, descriptor_bytes(offset, count)) + payload;
    let pos = (DynamicPosition { offset, length: count });
    let base = offset + 8 * count;
    let data = payload.subrange(8 * count, payload.len() as int);
    lemma_strings_size_nonnegative(model);
    assert(after.subrange(p.offset as int, p.offset + 8) =~= descriptor_bytes(offset, count));
    lemma_descriptor_round_trip(after, p.offset as int, offset, count);
    assert(p.spec_position(after) == Some(pos));
    assert forall|x: int| 0 <= x < count implies #[trigger] payload_positions(after, pos)[x]
        == descs[x] by {
        assert(after.subrange(offset + 8 * x, offset + 8 * x + 8) =~= payload.subrange(
            8 * x,
            8 * x + 8,
        ));
        lemma_descriptor_round_trip(after, offset + 8 * x, descs[x].offset, descs[x].length);
    }
    assert forall|x: int| 0 <= x < count implies element_readable(
        after,
        #[trigger] payload_positions(after, pos)[x],
    ) && element_bytes(after, payload_positions(after, pos)[x]) == model[x] && (
    payload_positions(after, pos)[x].offset != 0 ==> payload_positions(after, pos)[x].offset
        >= header) by {
        let el = descs[x];
        assert(payload_positions(after, pos)[x] == el);
        match model[x] {
            Some(b) => {
                assert(payload_bytes(after, el) =~= data.subrange(
                    el.offset - base,
                    el.offset - base + b.len(),
                ));
            },
            None => {},
        }
    }
    assert(p.spec_string_list(after)->Some_0 =~= model);
}

} // verus!
