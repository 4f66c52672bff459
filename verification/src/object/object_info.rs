use crate::object::data_type::DataType;
use crate::object::property::{
    element_readable, get_byte_range, get_position_list, payload_fits, payload_positions,
    DynamicPosition, Property,
};
use crate::text::str_from_utf8;
use vstd::prelude::*;

verus! {

/// The boundary to which the payload of a value of this type is aligned:
/// the size of its elements, and four bytes for the element descriptors of
/// a string list.
pub open spec fn spec_alignment(data_type: DataType) -> int {
    match data_type {
        DataType::IntList | DataType::FloatList | DataType::StringList => 4,
        DataType::LongList | DataType::DoubleList => 8,
        _ => 1,
    }
}

/// The bytes `start..end` that the payload of a dynamic value takes, if
/// the value is not null.
pub open spec fn payload_span(p: Property, object: Seq<u8>) -> Option<(int, int)> {
    match p.spec_position(object) {
        Some(pos) => Some(
            (pos.offset as int, pos.offset + pos.length * p.data_type.spec_element_size()),
        ),
        None => None,
    }
}

/// Whether the payloads of two properties share a byte.
pub open spec fn payloads_overlap(p: Property, q: Property, object: Seq<u8>) -> bool {
    &&& !p.data_type.spec_is_static()
    &&& !q.data_type.spec_is_static()
    &&& payload_span(p, object) matches Some(a)
    &&& payload_span(q, object) matches Some(b)
    &&& a.0 < b.1
    &&& b.0 < a.1
}

/// Whether the elements of a string list all lie behind the header.
pub open spec fn elements_behind(object: Seq<u8>, pos: DynamicPosition, header: int) -> bool {
    forall|i: int|
        0 <= i < pos.length ==> {
            let el = #[trigger] payload_positions(object, pos)[i];
            el.offset != 0 ==> el.offset >= header
        }
}

/// Whether the value of one property is well-formed inside the object:
/// readable, and for a dynamic value that is not null, placed behind the
/// header and aligned to its elements.
pub open spec fn property_valid(p: Property, object: Seq<u8>, header: int) -> bool {
    &&& p.readable(object)
    &&& !p.data_type.spec_is_static() ==> (p.spec_position(object) matches Some(pos) ==> {
        &&& pos.offset >= header
        &&& pos.offset as int % spec_alignment(p.data_type) == 0
        &&& p.data_type == DataType::StringList ==> elements_behind(object, pos, header)
    })
}

/// Where the payload at `pos` ends, for elements of `size` bytes.
pub fn span_end(pos: DynamicPosition, size: usize) -> (end: u64)
    requires
        size <= 8,
    ensures
        end == pos.offset + pos.length * size,
{
    let length: u64 = pos.length as u64;
    let width: u64 = size as u64;
    assert(length * width <= 0xffff_ffff * 8) by (nonlinear_arith)
        requires
            length <= 0xffff_ffff,
            width <= 8,
    ;
    pos.offset as u64 + length * width
}

/// The layout of the objects of one collection: the typed slots of the
/// header and the header's size.
#[derive(Debug)]
pub struct ObjectInfo {
    pub properties: Vec<Property>,
    pub static_size: usize,
}

impl ObjectInfo {
    /// Every slot lies inside the header.
    pub open spec fn wf(&self) -> bool {
        forall|i: int|
            0 <= i < self.properties@.len() ==> (#[trigger] self.properties@[i]).offset
                + self.properties@[i].data_type.spec_static_size() <= self.static_size
    }

    /// No two slots share a byte of the header.
    pub open spec fn slots_disjoint(&self) -> bool {
        forall|i: int, j: int|
            0 <= i < j < self.properties@.len() ==> {
                let p = #[trigger] self.properties@[i];
                let q = #[trigger] self.properties@[j];
                p.offset + p.data_type.spec_static_size() <= q.offset || q.offset
                    + q.data_type.spec_static_size() <= p.offset
            }
    }

    /// Whether `object` is a well-formed object of this layout: it holds
    /// the whole header, every value is well-formed, and no two payloads
    /// share a byte.
    pub open spec fn spec_valid(&self, object: Seq<u8>) -> bool {
        &&& object.len() >= self.static_size
        &&& forall|i: int|
            0 <= i < self.properties@.len() ==> property_valid(
                #[trigger] self.properties@[i],
                object,
                self.static_size as int,
            )
        &&& forall|i: int, j: int|
            0 <= i < j < self.properties@.len() ==> !payloads_overlap(
                #[trigger] self.properties@[i],
                #[trigger] self.properties@[j],
                object,
            )
    }

    /// The layout with these slots, if they all lie inside a header of
    /// `static_size` bytes.
    pub fn new(properties: Vec<Property>, static_size: usize) -> (r: Option<ObjectInfo>)
        ensures
            r is Some <==> (forall|i: int|
                0 <= i < properties@.len() ==> (#[trigger] properties@[i]).offset
                    + properties@[i].data_type.spec_static_size() <= static_size),
            r matches Some(info) ==> info.wf() && info.properties@ == properties@
                && info.static_size == static_size,
    {
        let mut i: usize = 0;
        while i < properties.len()
            invariant
                i <= properties.len(),
                forall|k: int|
                    0 <= k < i ==> (#[trigger] properties@[k]).offset
                        + properties@[k].data_type.spec_static_size() <= static_size,
            decreases properties.len() - i,
        {
            let p = properties[i];
            let size = p.data_type.get_static_size();
            if p.offset > static_size || static_size - p.offset < size {
                return None;
            }
            i += 1;
        }
        Some(ObjectInfo { properties, static_size })
    }

    /// Whether `p` is one of the slots.
    pub fn has_property(&self, p: Property) -> (r: bool)
        ensures
            r == self.properties@.contains(p),
    {
        let mut i: usize = 0;
        while i < self.properties.len()
            invariant
                i <= self.properties.len(),
                forall|k: int| 0 <= k < i ==> self.properties@[k] != p,
            decreases self.properties.len() - i,
        {
            if self.properties[i] == p {
                return true;
            }
            i += 1;
        }
        false
    }

    /// A well-formed object lets every slot of the layout be read.
    pub proof fn lemma_slot_readable(&self, object: Seq<u8>, p: Property)
        requires
            self.spec_valid(object),
            self.properties@.contains(p),
        ensures
            p.readable(object),
    {
        let k = choose|k: int| 0 <= k < self.properties@.len() && self.properties@[k] == p;
        assert(property_valid(self.properties@[k], object, self.static_size as int));
    }

    /// Whether every slot lies inside the header and no two slots share
    /// a byte.
    pub fn check_layout(&self) -> (r: bool)
        ensures
            r == (self.wf() && self.slots_disjoint()),
    {
        let n: usize = self.properties.len();
        let mut i: usize = 0;
        while i < n
            invariant
                i <= n,
                n == self.properties@.len(),
                forall|k: int|
                    0 <= k < i ==> (#[trigger] self.properties@[k]).offset
                        + self.properties@[k].data_type.spec_static_size() <= self.static_size,
            decreases n - i,
        {
            let p = self.properties[i];
            let size = p.data_type.get_static_size();
            if p.offset > self.static_size || self.static_size - p.offset < size {
                return false;
            }
            i += 1;
        }
        let mut a: usize = 0;
        while a < n
            invariant
                a <= n,
                n == self.properties@.len(),
                self.wf(),
                forall|x: int, y: int|
                    0 <= x < a && x < y < n ==> {
                        let p = #[trigger] self.properties@[x];
                        let q = #[trigger] self.properties@[y];
                        p.offset + p.data_type.spec_static_size() <= q.offset || q.offset
                            + q.data_type.spec_static_size() <= p.offset
                    },
            decreases n - a,
        {
            let p = self.properties[a];
            let mut b: usize = a + 1;
            while b < n
                invariant
                    a < b <= n,
                    n == self.properties@.len(),
                    self.wf(),
                    p == self.properties@[a as int],
                    forall|y: int|
                        a < y < b ==> {
                            let q = #[trigger] self.properties@[y];
                            p.offset + p.data_type.spec_static_size() <= q.offset || q.offset
                                + q.data_type.spec_static_size() <= p.offset
                        },
                decreases n - b,
            {
                let q = self.properties[b];
                assert(self.properties@[a as int].offset
                    + self.properties@[a as int].data_type.spec_static_size() <= self.static_size);
                assert(self.properties@[b as int].offset
                    + self.properties@[b as int].data_type.spec_static_size() <= self.static_size);
                if !(p.offset + p.data_type.get_static_size() <= q.offset || q.offset
                    + q.data_type.get_static_size() <= p.offset) {
                    return false;
                }
                b += 1;
            }
            a += 1;
        }
        true
    }

    pub fn get_static_size(&self) -> (r: usize)
        ensures
            r == self.static_size,
    {
        self.static_size
    }

    /// Whether one property's value is well-formed inside the object.
    pub fn verify_property(p: &Property, object: &[u8], header: usize) -> (r: bool)
        requires
            p.offset + p.data_type.spec_static_size() <= header,
            header <= object@.len(),
        ensures
            r == property_valid(*p, object@, header as int),
    {
        let total: usize = object.len();
        if p.data_type.is_static() {
            return true;
        }
        let pos = match p.get_dynamic_position(object) {
            Some(pos) => pos,
            None => {
                return true;
            },
        };
        let end: u64 = span_end(pos, p.data_type.get_element_size());
        if end > total as u64 {
            return false;
        }
        if (pos.offset as usize) < header {
            return false;
        }
        let aligned = match p.data_type {
            DataType::IntList | DataType::FloatList | DataType::StringList => pos.offset % 4 == 0,
            DataType::LongList | DataType::DoubleList => pos.offset % 8 == 0,
            _ => true,
        };
        if !aligned {
            return false;
        }
        match p.data_type {
            DataType::String => str_from_utf8(get_byte_range(object, pos)).is_some(),
            DataType::StringList => {
                let positions = get_position_list(object, pos);
                let mut i: usize = 0;
                while i < positions.len()
                    invariant
                        i <= positions.len(),
                        total == object@.len(),
                        positions@ == payload_positions(object@, pos),
                        p.spec_position(object@) == Some(pos),
                        p.data_type == DataType::StringList,
                        forall|k: int|
                            0 <= k < i ==> element_readable(object@, #[trigger] positions@[k]) && (
                            positions@[k].offset != 0 ==> positions@[k].offset >= header),
                    decreases positions.len() - i,
                {
                    let el = positions[i];
                    if !el.is_null() {
                        let el_end: u64 = el.offset as u64 + el.length as u64;
                        if el_end > total as u64 || (el.offset as usize) < header {
                            assert(!(element_readable(object@, positions@[i as int]) && (
                            positions@[i as int].offset != 0 ==> positions@[i as int].offset
                                >= header)));
                            assert(payload_positions(object@, pos)[i as int] == el);
                            return false;
                        }
                        if str_from_utf8(get_byte_range(object, el)).is_none() {
                            assert(!element_readable(object@, positions@[i as int]));
                            assert(payload_positions(object@, pos)[i as int] == el);
                            return false;
                        }
                    }
                    i += 1;
                }
                proof {
                    assert forall|k: int| 0 <= k < pos.length implies element_readable(
                        object@,
                        #[trigger] payload_positions(object@, pos)[k],
                    ) by {
                        assert(element_readable(object@, positions@[k]));
                    }
                    assert(elements_behind(object@, pos, header as int)) by {
                        assert forall|k: int| 0 <= k < pos.length implies {
                            let el = #[trigger] payload_positions(object@, pos)[k];
                            el.offset != 0 ==> el.offset >= header
                        } by {
                            assert(element_readable(object@, positions@[k]));
                        }
                    }
                }
                true
            },
            _ => true,
        }
    }

    /// Whether the payloads of two properties share a byte.
    pub fn overlapping(p: &Property, q: &Property, object: &[u8]) -> (r: bool)
        requires
            p.readable(object@),
            q.readable(object@),
        ensures
            r == payloads_overlap(*p, *q, object@),
    {
        if p.data_type.is_static() || q.data_type.is_static() {
            return false;
        }
        let a = match p.get_dynamic_position(object) {
            Some(pos) => pos,
            None => {
                return false;
            },
        };
        let b = match q.get_dynamic_position(object) {
            Some(pos) => pos,
            None => {
                return false;
            },
        };
        let a_end: u64 = span_end(a, p.data_type.get_element_size());
        let b_end: u64 = span_end(b, q.data_type.get_element_size());
        (a.offset as u64) < b_end && (b.offset as u64) < a_end
    }

    /// Whether `object` is a well-formed object of this layout.
    pub fn verify_object(&self, object: &[u8]) -> (r: bool)
        requires
            self.wf(),
        ensures
            r == self.spec_valid(object@),
    {
        if object.len() < self.static_size {
            return false;
        }
        let n: usize = self.properties.len();
        let mut i: usize = 0;
        while i < n
            invariant
                i <= n,
                n == self.properties@.len(),
                self.wf(),
                object@.len() >= self.static_size,
                forall|k: int|
                    0 <= k < i ==> property_valid(
                        #[trigger] self.properties@[k],
                        object@,
                        self.static_size as int,
                    ),
            decreases n - i,
        {
            if !Self::verify_property(&self.properties[i], object, self.static_size) {
                return false;
            }
            i += 1;
        }
        let mut a: usize = 0;
        while a < n
            invariant
                a <= n,
                n == self.properties@.len(),
                object@.len() >= self.static_size,
                forall|k: int|
                    0 <= k < n ==> property_valid(
                        #[trigger] self.properties@[k],
                        object@,
                        self.static_size as int,
                    ),
                forall|x: int, y: int|
                    0 <= x < a && x < y < n ==> !payloads_overlap(
                        #[trigger] self.properties@[x],
                        #[trigger] self.properties@[y],
                        object@,
                    ),
            decreases n - a,
        {
            let mut b: usize = a + 1;
            while b < n
                invariant
                    a < b <= n,
                    n == self.properties@.len(),
                    forall|k: int|
                        0 <= k < n ==> property_valid(
                            #[trigger] self.properties@[k],
                            object@,
                            self.static_size as int,
                        ),
                    forall|x: int, y: int|
                        0 <= x < a && x < y < n ==> !payloads_overlap(
                            #[trigger] self.properties@[x],
                            #[trigger] self.properties@[y],
                            object@,
                        ),
                    forall|y: int|
                        a < y < b ==> !payloads_overlap(
                            self.properties@[a as int],
                            #[trigger] self.properties@[y],
                            object@,
                        ),
                decreases n - b,
            {
                assert(property_valid(self.properties@[a as int], object@, self.static_size as int));
                assert(property_valid(self.properties@[b as int], object@, self.static_size as int));
                if Self::overlapping(&self.properties[a], &self.properties[b], object) {
                    return false;
                }
                b += 1;
            }
            a += 1;
        }
        true
    }
}

} // verus!
