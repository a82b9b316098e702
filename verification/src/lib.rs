//! Builds an inverted full-text index over a corpus of documents, using an
//! external multi-way merge strategy, and persists the result in a binary
//! file format that supports both random decoded access and cheap sequential
//! streaming.
//!
//! The pieces, leaves first:
//!
//! * `index` — the tokenizer and the in-memory index builder.
//! * `write` — serializing an in-memory index into the binary file format.
//! * `read` — the two decoders for that format: a full-materialize decoder
//!   and a streaming read-ahead cursor used while merging.
//! * `merge` — the k-way merge engine that consolidates many sorted index
//!   byte images into one.
//! * `tmp` — the collision-free name allocator for intermediate outputs.
//!
//! All functions here work on in-memory byte images of index files; the thin
//! layer that reads and writes actual files lives outside this library.

use vstd::prelude::*;

pub mod index;
pub mod merge;
pub mod model;
pub mod read;
pub mod tmp;
pub mod write;

verus! {

/// Failures that the codec and the merge engine can report.
///
/// Input/output failures of the surrounding file layer are not represented
/// here: this library only sees complete byte images.
#[derive(Clone, Copy, PartialEq, Eq, Debug)]
pub enum IndexError {
    /// A table-of-contents record was cut short: the byte image ended in the
    /// middle of a record (an end exactly at a record boundary is the normal
    /// end of the table).
    UnexpectedEof,
    /// A table-of-contents record holds term bytes that are not valid UTF-8.
    InvalidUtf8,
    /// An entry's data range cannot be represented by the platform's
    /// addressable size.
    EntryTooLarge,
    /// A term's encoded form does not fit the fixed-width fields of the file
    /// format (more than `u32::MAX` term bytes or documents).
    TermTooLarge,
}

impl IndexError {
    /// A short description, for the surrounding layer to display.
    pub fn message(&self) -> (r: &'static str)
        ensures
            r@ == match self {
                IndexError::UnexpectedEof => "unexpected end of index data"@,
                IndexError::InvalidUtf8 => "index term bytes are not valid UTF-8"@,
                IndexError::EntryTooLarge => "index entry too large for this platform"@,
                IndexError::TermTooLarge => "term does not fit the index file format"@,
            },
    {
        match self {
            IndexError::UnexpectedEof => "unexpected end of index data",
            IndexError::InvalidUtf8 => "index term bytes are not valid UTF-8",
            IndexError::EntryTooLarge => "index entry too large for this platform",
            IndexError::TermTooLarge => "term does not fit the index file format",
        }
    }
}

} // verus!
