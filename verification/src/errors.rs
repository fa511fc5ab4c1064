//! The error taxonomy of the library.
//!
//! Format errors are fatal to the current operation; lookup errors report a
//! property of the input (absence or ambiguity of a digest prefix).

use vstd::prelude::*;

verus! {

/// Everything that can go wrong while decoding objects, resolving digests,
/// or reading the staging area.
#[derive(Clone, Copy, Debug, PartialEq, Eq, Structural)]
pub enum GitError {
    /// No stored object's name starts with the given prefix.
    NotFound,
    /// More than one stored object's name starts with the given prefix.
    AmbiguousPrefix,
    /// An object's framing header is malformed, or its declared length does
    /// not match the payload that follows it.
    CorruptHeader,
    /// An object's framing header names a kind other than blob, tree or commit.
    UnknownKind,
    /// An object decoded to a kind other than the one the caller needed.
    WrongKind,
    /// A stored object's bytes could not be decompressed.
    BadCompression,
    /// The staging-area file does not begin with the expected signature.
    BadSignature,
    /// A record ended before all of its expected bytes were present.
    Truncated,
    /// An author or committer line did not split into exactly six tokens.
    MalformedIdentity,
    /// Tree nesting exceeded the store's object count, which only a
    /// self-referencing tree can cause.
    DepthExceeded,
}

impl GitError {
    /// A short human-readable description, for callers that report errors.
    pub fn describe(&self) -> &'static str {
        match self {
            GitError::NotFound => "no object matches the given prefix",
            GitError::AmbiguousPrefix => "more than one object matches the given prefix",
            GitError::CorruptHeader => "corrupt object header",
            GitError::UnknownKind => "unknown object kind",
            GitError::WrongKind => "object has the wrong kind",
            GitError::BadCompression => "object bytes could not be decompressed",
            GitError::BadSignature => "bad index signature",
            GitError::Truncated => "truncated record",
            GitError::MalformedIdentity => "malformed identity line",
            GitError::DepthExceeded => "tree nesting exceeds the store's object count",
        }
    }
}

} // verus!
