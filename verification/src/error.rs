use vstd::prelude::*;

verus! {

/// Everything that can go wrong inside the store.
#[derive(Debug)]
pub enum IsarError {
    /// Schema mismatch, malformed object bytes, unknown index or link.
    IllegalArgument { message: String },
    /// A unique index already holds the key for another object.
    UniqueViolation { index: String },
    /// The underlying map is exhausted.
    DbFull,
    /// An invariant of the stored data does not hold.
    DbCorrupted { message: String },
    /// An earlier failure left the write transaction indeterminate.
    TransactionPoisoned,
    /// The stored schema version does not match.
    VersionError,
    /// A failure of the key/value layer that has no variant of its own.
    DbError { code: i32, message: String },
}

impl IsarError {
    /// The numeric tag of the variant, for callers that cannot match on it.
    pub fn kind(&self) -> (k: u8)
        ensures
            k == self.spec_kind(),
    {
        match self {
            IsarError::IllegalArgument { .. } => 1,
            IsarError::UniqueViolation { .. } => 2,
            IsarError::DbFull => 3,
            IsarError::DbCorrupted { .. } => 4,
            IsarError::TransactionPoisoned => 5,
            IsarError::VersionError => 6,
            IsarError::DbError { .. } => 7,
        }
    }

    pub open spec fn spec_kind(&self) -> u8 {
        match self {
            IsarError::IllegalArgument { .. } => 1,
            IsarError::UniqueViolation { .. } => 2,
            IsarError::DbFull => 3,
            IsarError::DbCorrupted { .. } => 4,
            IsarError::TransactionPoisoned => 5,
            IsarError::VersionError => 6,
            IsarError::DbError { .. } => 7,
        }
    }
}

/// Builds the `IllegalArgument` error that carries `msg`.
pub fn illegal_arg<T>(msg: &str) -> (r: Result<T, IsarError>)
    ensures
        r is Err,
        r->Err_0 == (IsarError::IllegalArgument { message: r->Err_0->IllegalArgument_message }),
        r->Err_0->IllegalArgument_message@ == msg@,
{
    Err(IsarError::IllegalArgument { message: msg.to_string() })
}

} // verus!
