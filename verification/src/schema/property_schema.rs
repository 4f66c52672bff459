use crate::object::data_type::DataType;
use vstd::prelude::*;

verus! {

/// A property as a schema declares it: its name and the type of its value.
#[derive(Debug)]
pub struct PropertySchema {
    pub name: String,
    pub data_type: DataType,
}

impl PropertySchema {
    pub fn new(name: &str, data_type: DataType) -> (p: PropertySchema)
        ensures
            p.name@ == name@,
            p.data_type == data_type,
    {
        PropertySchema { name: name.to_owned(), data_type }
    }
}

} // verus!
