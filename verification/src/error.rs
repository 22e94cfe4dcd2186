//! The error kinds that the engine reports.

use vstd::prelude::*;

verus! {

/// Why an operation of the engine failed.
#[derive(Debug, PartialEq, Eq)]
pub enum Error {
    /// The underlying store failed.
    Io(String),
    /// Stored JSON or binary data is malformed.
    Serialization(String),
    /// Sealing or opening a message failed.
    Encryption(String),
    RepositoryNotFound { path: String },
    RepositoryExists { path: String },
    InvalidFormatVersion { version: u32 },
    CorruptedPack { id: String },
    SnapshotNotFound { id: String },
    InvalidPassword,
    /// An opaque message from the blob store.
    Backend(String),
    ChunkNotFound { id: String },
    LockConflict(String),
    Other(String),
}

impl Clone for Error {
    fn clone(&self) -> (r: Self)
        ensures
            r == *self,
    {
        match self {
            Error::Io(m) => Error::Io(m.clone()),
            Error::Serialization(m) => Error::Serialization(m.clone()),
            Error::Encryption(m) => Error::Encryption(m.clone()),
            Error::RepositoryNotFound { path } => Error::RepositoryNotFound { path: path.clone() },
            Error::RepositoryExists { path } => Error::RepositoryExists { path: path.clone() },
            Error::InvalidFormatVersion { version } => Error::InvalidFormatVersion {
                version: *version,
            },
            Error::CorruptedPack { id } => Error::CorruptedPack { id: id.clone() },
            Error::SnapshotNotFound { id } => Error::SnapshotNotFound { id: id.clone() },
            Error::InvalidPassword => Error::InvalidPassword,
            Error::Backend(m) => Error::Backend(m.clone()),
            Error::ChunkNotFound { id } => Error::ChunkNotFound { id: id.clone() },
            Error::LockConflict(m) => Error::LockConflict(m.clone()),
            Error::Other(m) => Error::Other(m.clone()),
        }
    }
}

/// Why a string is not the hexadecimal form of a chunk identifier.
#[derive(Debug, Clone, Copy, PartialEq, Eq)]
pub enum HexError {
    /// The byte at `index` is no hexadecimal digit; `c` is that byte as a
    /// character.
    InvalidHexCharacter { c: char, index: usize },
    /// The number of digits is odd.
    OddLength,
    /// The digits do not make up the expected number of bytes.
    InvalidStringLength,
}

pub type Result<T> = core::result::Result<T, Error>;

} // verus!
