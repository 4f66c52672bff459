use crate::error::IsarError;
use vstd::prelude::*;

verus! {

/// `lmdb_sys::MDB_SUCCESS`: the code of a call that succeeded, 0.
#[verifier::external_body]
fn code_success() -> (c: i32)
    ensures
        c == 0,
{
    lmdb_sys::MDB_SUCCESS
}

/// `lmdb_sys::MDB_KEYEXIST`: the code for a key that exists already, -30799.
#[verifier::external_body]
fn code_key_exist() -> (c: i32)
    ensures
        c == -30799,
{
    lmdb_sys::MDB_KEYEXIST
}

/// `lmdb_sys::MDB_NOTFOUND`: the code for a key that is not there, -30798.
#[verifier::external_body]
fn code_not_found() -> (c: i32)
    ensures
        c == -30798,
{
    lmdb_sys::MDB_NOTFOUND
}

/// `lmdb_sys::MDB_MAP_FULL`: the code for a map that is full, -30792.
#[verifier::external_body]
fn code_map_full() -> (c: i32)
    ensures
        c == -30792,
{
    lmdb_sys::MDB_MAP_FULL
}

/// A failure of the key/value layer.
#[derive(Debug)]
pub enum LmdbError {
    KeyExist {  },
    NotFound {  },
    MapFull {  },
    Other { code: i32 },
}

impl LmdbError {
    /// The code that stands for the error.
    pub open spec fn spec_code(&self) -> i32 {
        match self {
            LmdbError::KeyExist {  } => -30799i32,
            LmdbError::NotFound {  } => -30798i32,
            LmdbError::MapFull {  } => -30792i32,
            LmdbError::Other { code } => *code,
        }
    }

    /// The error that a code stands for.
    pub fn from_err_code(err_code: i32) -> (e: LmdbError)
        ensures
            e.spec_code() == err_code,
            e is Other <==> err_code != -30799 && err_code != -30798 && err_code != -30792,
    {
        if err_code == code_key_exist() {
            LmdbError::KeyExist {  }
        } else if err_code == code_not_found() {
            LmdbError::NotFound {  }
        } else if err_code == code_map_full() {
            LmdbError::MapFull {  }
        } else {
            LmdbError::Other { code: err_code }
        }
    }

    pub fn to_err_code(&self) -> (c: i32)
        ensures
            c == self.spec_code(),
    {
        match self {
            LmdbError::KeyExist {  } => code_key_exist(),
            LmdbError::NotFound {  } => code_not_found(),
            LmdbError::MapFull {  } => code_map_full(),
            LmdbError::Other { code: other } => *other,
        }
    }

    /// The error as the store reports it: a full map as `DbFull`, anything
    /// else with its code.
    pub fn into_isar_error(self) -> (e: IsarError)
        ensures
            self is MapFull ==> e is DbFull,
            !(self is MapFull) ==> (e matches IsarError::DbError { code, .. } && code
                == self.spec_code()),
    {
        match self {
            LmdbError::MapFull {  } => IsarError::DbFull,
            other => IsarError::DbError {
                code: other.to_err_code(),
                message: "The key/value store failed.".to_string(),
            },
        }
    }
}

/// The outcome that a code stands for: success for 0, the error otherwise.
#[inline]
pub fn lmdb_result(err_code: i32) -> (r: Result<(), LmdbError>)
    ensures
        r is Ok <==> err_code == 0,
        r matches Err(e) ==> e.spec_code() == err_code,
{
    if err_code == code_success() {
        Ok(())
    } else {
        Err(LmdbError::from_err_code(err_code))
    }
}

} // verus!
