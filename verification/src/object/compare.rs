use crate::object::data_type::DataType;
use crate::object::property::Property;
use std::cmp::Ordering;
use vstd::prelude::*;

verus! {

/// -1, 0 or 1 for `Less`, `Equal` or `Greater`.
pub open spec fn ordering_number(o: Ordering) -> int {
    match o {
        Ordering::Less => -1,
        Ordering::Equal => 0,
        Ordering::Greater => 1,
    }
}

impl Property {
    /// How the value in `object1` sorts against the value in `object2`: a
    /// null value first, numbers by value, strings by their bytes.
    pub fn compare(&self, object1: &[u8], object2: &[u8]) -> (r: Ordering)
        requires
            self.data_type.spec_is_static() || self.data_type == DataType::String,
            self.fits(object1@),
            self.fits(object2@),
            self.data_type == DataType::String ==> self.payload_in_bounds(object1@)
                && self.payload_in_bounds(object2@),
        ensures
            ordering_number(r) == self.spec_compare(object1@, object2@),
    {
        let n = self.compare_values(object1, object2);
        if n < 0 {
            Ordering::Less
        } else if n == 0 {
            Ordering::Equal
        } else {
            Ordering::Greater
        }
    }
}

} // verus!
