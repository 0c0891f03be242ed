//! Error kinds reported by the engine, and the mapping from the numeric
//! status codes used at the procedural boundary.

use vstd::prelude::*;

verus! {

/// Every fallible engine operation reports one of these kinds.
#[derive(Debug, Clone, PartialEq, Eq)]
pub enum Error {
    /// Memory allocation failure.
    Memory,
    /// Invalid arguments.
    InvalidArgs,
    /// Key or column family not found.
    NotFound,
    /// I/O failure.
    Io,
    /// Data corruption detected (checksum or format violation).
    Corruption,
    /// Resource already exists.
    Exists,
    /// Isolation-level conflict detected at commit.
    Conflict,
    /// Value too large.
    TooLarge,
    /// Memory limit exceeded.
    MemoryLimit,
    /// Invalid database handle.
    InvalidDb,
    /// Unrecognized status code.
    Unknown(i32),
}

impl Error {
    /// Maps a numeric status code from the procedural boundary to an error
    /// kind. Code 0 means success and is never an error.
    pub fn from_code(code: i32) -> (r: Error)
        requires
            code != 0,
        ensures
            r == Error::spec_from_code(code),
    {
        match code {
            -1 => Error::Memory,
            -2 => Error::InvalidArgs,
            -3 => Error::NotFound,
            -4 => Error::Io,
            -5 => Error::Corruption,
            -6 => Error::Exists,
            -7 => Error::Conflict,
            -8 => Error::TooLarge,
            -9 => Error::MemoryLimit,
            -10 => Error::InvalidDb,
            _ => Error::Unknown(code),
        }
    }

    /// The status-code mapping: each code in -1..=-10 names one kind, all
    /// others are unknown.
    pub open spec fn spec_from_code(code: i32) -> Error {
        if code == -1 {
            Error::Memory
        } else if code == -2 {
            Error::InvalidArgs
        } else if code == -3 {
            Error::NotFound
        } else if code == -4 {
            Error::Io
        } else if code == -5 {
            Error::Corruption
        } else if code == -6 {
            Error::Exists
        } else if code == -7 {
            Error::Conflict
        } else if code == -8 {
            Error::TooLarge
        } else if code == -9 {
            Error::MemoryLimit
        } else if code == -10 {
            Error::InvalidDb
        } else {
            Error::Unknown(code)
        }
    }
}

} // verus!
