//! Error codes of the database.
use vstd::prelude::*;

verus! {

/// Result type used throughout the crate.
pub type Result<T> = core::result::Result<T, FdbError>;

/// Error codes returned by database operations.
#[derive(Debug, Clone, Copy, PartialEq, Eq, Structural, Hash)]
pub enum FdbError {
    /// Erase operation failed.
    EraseErr,
    /// Read operation failed.
    ReadErr,
    /// Write operation failed.
    WriteErr,
    /// The requested partition / storage was not found.
    PartNotFound,
    /// The KV name is invalid (e.g. too long) or the KV was not found.
    KvNameErr,
    /// A KV with this name already exists.
    KvNameExist,
    /// The database is full and the value could not be saved.
    SavedFull,
    /// Database initialization failed.
    InitFailed,
}

/// The numeric code of each error.
pub open spec fn error_code(e: FdbError) -> int {
    match e {
        FdbError::EraseErr => 1,
        FdbError::ReadErr => 2,
        FdbError::WriteErr => 3,
        FdbError::PartNotFound => 4,
        FdbError::KvNameErr => 5,
        FdbError::KvNameExist => 6,
        FdbError::SavedFull => 7,
        FdbError::InitFailed => 8,
    }
}

/// The message of each error.
pub open spec fn error_message(e: FdbError) -> Seq<char> {
    match e {
        FdbError::EraseErr => "flash erase error"@,
        FdbError::ReadErr => "flash read error"@,
        FdbError::WriteErr => "flash write error"@,
        FdbError::PartNotFound => "partition not found"@,
        FdbError::KvNameErr => "KV name error or not found"@,
        FdbError::KvNameExist => "KV name already exists"@,
        FdbError::SavedFull => "database is full"@,
        FdbError::InitFailed => "database initialization failed"@,
    }
}

impl FdbError {
    /// The numeric code of this error.
    pub fn code(self) -> (r: u8)
        ensures
            r == error_code(self),
    {
        match self {
            FdbError::EraseErr => 1,
            FdbError::ReadErr => 2,
            FdbError::WriteErr => 3,
            FdbError::PartNotFound => 4,
            FdbError::KvNameErr => 5,
            FdbError::KvNameExist => 6,
            FdbError::SavedFull => 7,
            FdbError::InitFailed => 8,
        }
    }

    /// A short description of this error.
    pub fn message(self) -> (r: &'static str)
        ensures
            r@ == error_message(self),
    {
        match self {
            FdbError::EraseErr => "flash erase error",
            FdbError::ReadErr => "flash read error",
            FdbError::WriteErr => "flash write error",
            FdbError::PartNotFound => "partition not found",
            FdbError::KvNameErr => "KV name error or not found",
            FdbError::KvNameExist => "KV name already exists",
            FdbError::SavedFull => "database is full",
            FdbError::InitFailed => "database initialization failed",
        }
    }
}

/// No two errors share a numeric code.
pub proof fn error_codes_distinct(a: FdbError, b: FdbError)
    ensures
        error_code(a) == error_code(b) ==> a == b,
{
}

} // verus!
