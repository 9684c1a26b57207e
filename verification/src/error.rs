//! The error type shared by every module.
use vstd::prelude::*;

verus! {

/// Why a storage request was refused.
#[derive(Clone, Copy, Debug)]
pub enum StorageError {
    /// The caller passed something that no state would accept.
    InvalidArgument { message: &'static str },
    /// The named object does not exist; `id` is its raw number.
    NotFound { kind: &'static str, id: u128 },
    /// The request lost against the current state.
    Conflict { message: &'static str },
    /// Stored state or a peer's answer contradicts itself.
    Corrupt { message: &'static str },
    /// The request can be tried again later.
    Unavailable { message: &'static str },
    /// The store holds something this version cannot serve.
    Unsupported { message: &'static str },
}

impl StorageError {
    pub fn invalid_argument(message: &'static str) -> (error: StorageError)
        ensures
            error == (StorageError::InvalidArgument { message }),
    {
        StorageError::InvalidArgument { message }
    }

    pub fn not_found(kind: &'static str, id: u128) -> (error: StorageError)
        ensures
            error == (StorageError::NotFound { kind, id }),
    {
        StorageError::NotFound { kind, id }
    }

    pub fn conflict(message: &'static str) -> (error: StorageError)
        ensures
            error == (StorageError::Conflict { message }),
    {
        StorageError::Conflict { message }
    }

    pub fn corrupt(message: &'static str) -> (error: StorageError)
        ensures
            error == (StorageError::Corrupt { message }),
    {
        StorageError::Corrupt { message }
    }

    pub fn unavailable(message: &'static str) -> (error: StorageError)
        ensures
            error == (StorageError::Unavailable { message }),
    {
        StorageError::Unavailable { message }
    }

    pub fn unsupported(message: &'static str) -> (error: StorageError)
        ensures
            error == (StorageError::Unsupported { message }),
    {
        StorageError::Unsupported { message }
    }
}

} // verus!
