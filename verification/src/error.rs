//! The errors that host operations report.

use vstd::prelude::*;

verus! {

/// Why a host operation was refused. Every refusal leaves the state as the
/// operation's contract says; none of them aborts.
#[derive(Clone, Copy, Debug, PartialEq, Eq, Structural)]
pub enum HostError {
    /// Neither the path nor any path below it holds a value.
    PathNotFound,
    /// The path holds no value of its own, whatever lies below it.
    NotAValue,
    /// The write would make a value longer than the store admits.
    ValueTooLarge,
    /// No page is registered under the hash.
    HashNotFound,
    /// The pages nest deeper than a reveal follows.
    RevealDepthExceeded,
    /// The hashes listed by an index page do not fill whole hashes.
    InvalidHashLength,
    /// An inbox or outbox payload is over its size limit.
    MessageTooLarge,
    /// The bytes do not spell a path.
    InvalidPath,
    /// A revealed page is empty or carries an unknown tag.
    InvalidPage,
}

/// Code of a path that is over the size limit of the store.
pub const STORE_KEY_TOO_LARGE: i32 = -1;

/// Code of bytes that spell no path.
pub const STORE_INVALID_KEY: i32 = -2;

/// Code of a path that holds no value of its own.
pub const STORE_NOT_A_VALUE: i32 = -3;

/// Code of an access past the bounds of a value.
pub const STORE_INVALID_ACCESS: i32 = -4;

/// Code of a write that would make a value too long.
pub const STORE_VALUE_SIZE_EXCEEDED: i32 = -5;

/// Code of an address outside of the memory.
pub const MEMORY_INVALID_ACCESS: i32 = -6;

/// Code of an input or output over its size limit.
pub const INPUT_OUTPUT_TOO_LARGE: i32 = -7;

/// Code of an error that has no code of its own.
pub const GENERIC_INVALID_ACCESS: i32 = -8;

/// Code of a write to a value that is read-only.
pub const STORE_READONLY_VALUE: i32 = -9;

/// Code of a path at and below which there is nothing.
pub const STORE_NOT_A_NODE: i32 = -10;

/// Code of an outbox that takes no more.
pub const FULL_OUTBOX: i32 = -11;

impl HostError {
    /// The code under which the error crosses the host boundary, where
    /// every result is a number and every negative number an error.
    pub open spec fn spec_code(self) -> i32 {
        match self {
            HostError::PathNotFound => STORE_NOT_A_NODE,
            HostError::NotAValue => STORE_NOT_A_VALUE,
            HostError::ValueTooLarge => STORE_VALUE_SIZE_EXCEEDED,
            HostError::MessageTooLarge => INPUT_OUTPUT_TOO_LARGE,
            HostError::InvalidPath => STORE_INVALID_KEY,
            HostError::HashNotFound => GENERIC_INVALID_ACCESS,
            HostError::RevealDepthExceeded => GENERIC_INVALID_ACCESS,
            HostError::InvalidHashLength => GENERIC_INVALID_ACCESS,
            HostError::InvalidPage => GENERIC_INVALID_ACCESS,
        }
    }

    /// The code of the error.
    #[verifier::when_used_as_spec(spec_code)]
    pub fn code(self) -> (r: i32)
        ensures
            r == self.spec_code(),
            r < 0,
    {
        match self {
            HostError::PathNotFound => STORE_NOT_A_NODE,
            HostError::NotAValue => STORE_NOT_A_VALUE,
            HostError::ValueTooLarge => STORE_VALUE_SIZE_EXCEEDED,
            HostError::MessageTooLarge => INPUT_OUTPUT_TOO_LARGE,
            HostError::InvalidPath => STORE_INVALID_KEY,
            HostError::HashNotFound => GENERIC_INVALID_ACCESS,
            HostError::RevealDepthExceeded => GENERIC_INVALID_ACCESS,
            HostError::InvalidHashLength => GENERIC_INVALID_ACCESS,
            HostError::InvalidPage => GENERIC_INVALID_ACCESS,
        }
    }
}

} // verus!
