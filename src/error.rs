//! Errors of the storage layer.
use vstd::prelude::*;

verus! {

/// What can go wrong when reading, writing or decoding stored data.
#[derive(Debug, Clone, Copy, PartialEq, Eq, Structural)]
pub enum StorageError {
    /// A load found nothing at the address.
    NotFound,
    /// A fixed-width segment had the wrong number of bytes.
    SegmentLengthMismatch { expected: usize, actual: usize },
    /// A text segment was not valid UTF-8.
    InvalidUtf8,
    /// Stored or framed bytes could not be read back.
    Decode,
    /// The store cannot hold an empty value.
    EmptyValue,
    /// A sequence already holds as many entries as its index space allows.
    Full,
}

} // verus!
