use vstd::prelude::*;

verus! {

/// The type of a property's value.
#[derive(Clone, Copy, Debug, PartialEq, Eq, Structural)]
pub enum DataType {
    Byte,
    Int,
    Float,
    Long,
    Double,
    String,
    ByteList,
    IntList,
    FloatList,
    LongList,
    DoubleList,
    StringList,
}

impl DataType {
    /// Whether values of this type live in the fixed header of an object.
    pub open spec fn spec_is_static(self) -> bool {
        self == DataType::Byte || self == DataType::Int || self == DataType::Float
            || self == DataType::Long || self == DataType::Double
    }

    /// Bytes that one value occupies in the header: the value itself for a
    /// static type, an `(offset, length)` descriptor for a dynamic one.
    pub open spec fn spec_static_size(self) -> int {
        match self {
            DataType::Byte => 1,
            DataType::Int | DataType::Float => 4,
            _ => 8,
        }
    }

    /// Bytes of one element in the payload of a dynamic value. A string list
    /// stores one `(offset, length)` descriptor per element.
    pub open spec fn spec_element_size(self) -> int {
        match self {
            DataType::String | DataType::ByteList => 1,
            DataType::IntList | DataType::FloatList => 4,
            DataType::LongList | DataType::DoubleList | DataType::StringList => 8,
            _ => 0,
        }
    }

    /// The type of the elements of a list type.
    pub open spec fn spec_element_type(self) -> Option<DataType> {
        match self {
            DataType::ByteList => Some(DataType::Byte),
            DataType::IntList => Some(DataType::Int),
            DataType::FloatList => Some(DataType::Float),
            DataType::LongList => Some(DataType::Long),
            DataType::DoubleList => Some(DataType::Double),
            DataType::StringList => Some(DataType::String),
            _ => None,
        }
    }

    pub fn is_static(&self) -> (r: bool)
        ensures
            r == self.spec_is_static(),
    {
        match self {
            DataType::Byte | DataType::Int | DataType::Float | DataType::Long | DataType::Double => true,
            _ => false,
        }
    }

    pub fn is_dynamic(&self) -> (r: bool)
        ensures
            r == !self.spec_is_static(),
    {
        !self.is_static()
    }

    pub fn get_static_size(&self) -> (r: usize)
        ensures
            r == self.spec_static_size(),
    {
        match self {
            DataType::Byte => 1,
            DataType::Int | DataType::Float => 4,
            _ => 8,
        }
    }

    pub fn get_element_size(&self) -> (r: usize)
        ensures
            r == self.spec_element_size(),
    {
        match self {
            DataType::String | DataType::ByteList => 1,
            DataType::IntList | DataType::FloatList => 4,
            DataType::LongList | DataType::DoubleList | DataType::StringList => 8,
            _ => 0,
        }
    }

    pub fn get_element_type(&self) -> (r: Option<DataType>)
        ensures
            r == self.spec_element_type(),
    {
        match self {
            DataType::ByteList => Some(DataType::Byte),
            DataType::IntList => Some(DataType::Int),
            DataType::FloatList => Some(DataType::Float),
            DataType::LongList => Some(DataType::Long),
            DataType::DoubleList => Some(DataType::Double),
            DataType::StringList => Some(DataType::String),
            _ => None,
        }
    }
}

} // verus!
