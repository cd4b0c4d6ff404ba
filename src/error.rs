use vstd::prelude::*;

verus! {

/// Every way an object-store operation can fail.
#[derive(Debug, Clone, Copy, PartialEq, Eq, Structural)]
pub enum ObjError {
    /// No marker directory was found up to the filesystem root.
    NotARepository,
    /// The filesystem refused an operation.
    IoError,
    /// The directory that should hold a file does not exist.
    ParentDirectoryMissing,
    /// A lookup key shorter than a directory selector.
    PrefixTooShort,
    /// No stored object matches the lookup key.
    ObjectNotFound,
    /// More than one stored object matches the lookup key.
    AmbiguousPrefix,
    /// The kind tag of an object is not one of the four known kinds.
    InvalidObjectKind,
    /// A stored record could not be decompressed or its header is malformed.
    CorruptObject,
}

/// The error type of std's I/O operations, carried through opaquely.
#[verifier::external_type_specification]
#[verifier::external_body]
pub struct ExIoError(std::io::Error);

} // verus!
