//! The error type shared by every layer.

use crate::text;
use vstd::prelude::*;

verus! {

/// Errors returned by the file system and its simulator.
#[derive(Clone, PartialEq, Eq, Debug)]
pub enum Error {
    /// A path was requested that does not exist.
    NotFound(String),
    /// A path already exists where a new entry was requested.
    AlreadyExists(String),
    /// A path component that was expected to be a directory is not one.
    NotADirectory(String),
    /// A file operation was attempted on a directory path.
    IsADirectory(String),
    /// A directory delete was attempted while the directory still has children.
    DirectoryNotEmpty(String),
    /// A path was malformed (empty, relative, or containing bad components).
    InvalidPath(String),
    /// A write could not gather enough replica acknowledgements.
    WriteQuorumFailed {
        /// Replicas that were required.
        needed: usize,
        /// Replicas that acknowledged in time.
        got: usize,
    },
    /// A chunk could not be read from any live replica.
    ChunkUnavailable(String),
    /// The metadata service could not commit or answer within the deadline.
    MetadataUnavailable,
    /// Reassembled bytes did not match the recorded content hash.
    IntegrityError,
    /// A message could not be decoded off the wire.
    Decode(String),
}

/// The mathematical value of an [`Error`].
pub enum ErrorV {
    /// See [`Error::NotFound`].
    NotFound(Seq<char>),
    /// See [`Error::AlreadyExists`].
    AlreadyExists(Seq<char>),
    /// See [`Error::NotADirectory`].
    NotADirectory(Seq<char>),
    /// See [`Error::IsADirectory`].
    IsADirectory(Seq<char>),
    /// See [`Error::DirectoryNotEmpty`].
    DirectoryNotEmpty(Seq<char>),
    /// See [`Error::InvalidPath`].
    InvalidPath(Seq<char>),
    /// See [`Error::WriteQuorumFailed`].
    WriteQuorumFailed {
        /// Replicas that were required.
        needed: nat,
        /// Replicas that acknowledged in time.
        got: nat,
    },
    /// See [`Error::ChunkUnavailable`].
    ChunkUnavailable(Seq<char>),
    /// See [`Error::MetadataUnavailable`].
    MetadataUnavailable,
    /// See [`Error::IntegrityError`].
    IntegrityError,
    /// See [`Error::Decode`].
    Decode(Seq<char>),
}

impl View for Error {
    type V = ErrorV;

    open spec fn view(&self) -> ErrorV {
        match *self {
            Error::NotFound(p) => ErrorV::NotFound(p@),
            Error::AlreadyExists(p) => ErrorV::AlreadyExists(p@),
            Error::NotADirectory(p) => ErrorV::NotADirectory(p@),
            Error::IsADirectory(p) => ErrorV::IsADirectory(p@),
            Error::DirectoryNotEmpty(p) => ErrorV::DirectoryNotEmpty(p@),
            Error::InvalidPath(p) => ErrorV::InvalidPath(p@),
            Error::WriteQuorumFailed { needed, got } => ErrorV::WriteQuorumFailed {
                needed: needed as nat,
                got: got as nat,
            },
            Error::ChunkUnavailable(p) => ErrorV::ChunkUnavailable(p@),
            Error::MetadataUnavailable => ErrorV::MetadataUnavailable,
            Error::IntegrityError => ErrorV::IntegrityError,
            Error::Decode(m) => ErrorV::Decode(m@),
        }
    }
}

impl ErrorV {
    /// The text shown for an error.
    pub open spec fn text(self) -> Seq<char> {
        match self {
            ErrorV::NotFound(p) => "not found: "@ + p,
            ErrorV::AlreadyExists(p) => "already exists: "@ + p,
            ErrorV::NotADirectory(p) => "not a directory: "@ + p,
            ErrorV::IsADirectory(p) => "is a directory: "@ + p,
            ErrorV::DirectoryNotEmpty(p) => "directory not empty: "@ + p,
            ErrorV::InvalidPath(p) => "invalid path: "@ + p,
            ErrorV::WriteQuorumFailed { needed, got } => "write quorum failed: needed "@
                + text::decimal(needed) + ", got "@ + text::decimal(got),
            ErrorV::ChunkUnavailable(p) => "chunk unavailable: "@ + p,
            ErrorV::MetadataUnavailable => "metadata service unavailable"@,
            ErrorV::IntegrityError => "integrity error: content hash mismatch"@,
            ErrorV::Decode(m) => "decode error: "@ + m,
        }
    }
}

/// The outcome of a fallible operation, by value.
pub open spec fn outcome<T>(r: Result<T, Error>) -> Result<T, ErrorV> {
    match r {
        Ok(t) => Ok(t),
        Err(e) => Err(e@),
    }
}

/// The error for bytes that do not decode.
pub fn malformed(why: &str) -> (r: Error)
    ensures
        r@ == ErrorV::Decode(why@),
{
    Error::Decode(why.to_owned())
}

fn prefixed(prefix: &str, rest: &str) -> (r: String)
    ensures
        r@ == prefix@ + rest@,
{
    let mut s = prefix.to_owned();
    s.append(rest);
    s
}

impl Error {
    /// The text shown for this error.
    pub fn message(&self) -> (r: String)
        ensures
            r@ == self@.text(),
    {
        match self {
            Error::NotFound(p) => prefixed("not found: ", p.as_str()),
            Error::AlreadyExists(p) => prefixed("already exists: ", p.as_str()),
            Error::NotADirectory(p) => prefixed("not a directory: ", p.as_str()),
            Error::IsADirectory(p) => prefixed("is a directory: ", p.as_str()),
            Error::DirectoryNotEmpty(p) => prefixed("directory not empty: ", p.as_str()),
            Error::InvalidPath(p) => prefixed("invalid path: ", p.as_str()),
            Error::WriteQuorumFailed { needed, got } => {
                let mut s = "write quorum failed: needed ".to_owned();
                text::append_decimal(&mut s, *needed as u64);
                s.append(", got ");
                text::append_decimal(&mut s, *got as u64);
                s
            },
            Error::ChunkUnavailable(p) => prefixed("chunk unavailable: ", p.as_str()),
            Error::MetadataUnavailable => "metadata service unavailable".to_owned(),
            Error::IntegrityError => "integrity error: content hash mismatch".to_owned(),
            Error::Decode(m) => prefixed("decode error: ", m.as_str()),
        }
    }
}

} // verus!
