//! Error values reported by the writer, the reader and the backing storage.

use vstd::prelude::*;

verus! {

/// Why a backing resource refused a write or could not be sealed.
#[derive(Clone, Copy, Debug, PartialEq, Eq, Structural)]
pub enum IoError {
    /// The resource has no room left for the bytes.
    StorageFull,
    /// The resource was interrupted before it took all the bytes.
    Interrupted,
    /// Any other failure, with the code the platform gave for it.
    Other(i32),
}

/// A failure of the write path.
#[derive(Debug, PartialEq, Eq)]
pub enum ResourceStorageError {
    /// A backing resource failed; the string is the resource's name.
    Io(IoError, String),
    /// The named resource would grow past the largest offset that its index can hold.
    TooBig(String),
    /// The tag is not one of the variant set.
    UnknownTag(u8),
    /// The payload handed in for the tag does not have the variant's encoded size.
    WrongSize(u8),
}

/// A violation of the stored format, met while reading.
#[derive(Clone, Copy, Debug, PartialEq, Eq, Structural)]
pub enum FormatError {
    /// A record starts with a byte that is no tag of the variant set.
    UnknownTag(u8),
    /// A record with this tag would reach past the end of its bucket.
    TruncatedRecord(u8),
    /// The bucket's two offsets do not delimit a range of the data.
    BadOffsets,
    /// The offset index holds no entry, not even the sentinel.
    MissingSentinel,
}

impl ResourceStorageError {
    /// Annotates a failure of a backing resource with the resource's name.
    pub fn from_io_error(error: IoError, resource_name: String) -> (e: Self)
        ensures
            e == ResourceStorageError::Io(error, resource_name),
    {
        ResourceStorageError::Io(error, resource_name)
    }
}

} // verus!
