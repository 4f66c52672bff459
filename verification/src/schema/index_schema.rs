use vstd::prelude::*;

verus! {

/// How a property enters an index key.
#[derive(Clone, Copy, Debug, PartialEq, Eq, Structural)]
pub enum IndexType {
    /// The value itself.
    Value,
    /// A 64-bit hash of the value or of the whole list.
    Hash,
    /// One key per list element, each the hash of the element.
    HashElements,
}

} // verus!
