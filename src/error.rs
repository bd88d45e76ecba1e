use vstd::prelude::*;

verus! {

/// Failures while writing an archive.
#[derive(Debug, Clone, Copy, PartialEq, Eq, Structural)]
pub enum SerializeError {
    /// The archive buffer refused an operation (a bad alignment).
    SerializerError,
    /// The scratch arena was used out of order or beyond its bounds.
    ScratchSpaceError,
    /// The shared-value table was asked about a value that does not exist.
    SharedError,
}

/// Failures while reading an archive.
#[derive(Debug, Clone, Copy, PartialEq, Eq, Structural)]
pub enum DeserializeError {
    /// The bytes are not a well-formed archive of the expected shape.
    CheckBytesError,
    /// One archive offset was registered twice as a shared value.
    DuplicateSharedPointer,
    /// A polymorphic payload names a tag that no type registered.
    UnsupportedType,
}

} // verus!
