//! A content-addressable note store.
//!
//! A note ("scribble") is an arbitrary byte sequence. Storing one gives it a
//! stable identifier derived from its content alone: the lowercase hex
//! encoding of its SHA-256 digest. On top of that the store offers prefix
//! resolution (expanding a short user-typed prefix to the unique full
//! identifier), a tag index (human-readable labels attached to identifiers),
//! recency-ordered listing, and a bounded, safely-escaped textual preview of
//! arbitrary (possibly non-UTF-8) content.

use vstd::prelude::*;

pub mod digest;
pub mod laws;
pub mod preview;
pub mod store;
pub mod text;

verus! {

/// The ways an operation on the store can fail.
///
/// `IoError` is never produced by the in-memory core itself; it is part of
/// the taxonomy so that persistence layers wrapping the store can report a
/// storage-medium failure through the same type.
#[derive(Debug)]
pub enum Error {
    /// No stored object (or tag entry) matches.
    NotFound,
    /// A prefix matched two or more stored identifiers; the conflicting
    /// candidates are listed so the caller can ask for a longer prefix.
    Ambiguous(Vec<String>),
    /// The underlying storage medium failed.
    IoError,
    /// A tag name unsuitable as a path component.
    InvalidTagName,
}

} // verus!
