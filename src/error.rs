use vstd::prelude::*;

verus! {

/// The errors that the object store reports to its callers.
#[derive(Debug, Clone, Copy, PartialEq, Eq, Structural)]
pub enum ObjectError {
    /// No object is stored under the requested id.
    NotFound,
    /// The header is malformed, the kind is unknown, or decompression failed.
    CorruptObject,
    /// The declared size and the number of body bytes disagree.
    SizeMismatch,
    /// The underlying byte sink or file system failed.
    Io,
    /// The operation does not apply to an object of this kind.
    UnsupportedKind,
}

} // verus!
