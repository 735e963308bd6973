use vstd::prelude::*;

verus! {

/// The failure kinds of the object store and digest utilities.
///
/// Every fallible operation of this library returns one of these values;
/// none of the verified functions panic.
#[derive(Clone, Copy, Debug, PartialEq, Eq, Structural)]
pub enum GitError {
    /// A storage or compression stream failed while writing or reading.
    IoFailure,
    /// No object is stored under the requested digest.
    ObjectNotFound,
    /// Stored bytes failed to decompress.
    CorruptObject,
    /// A caller-supplied digest text is not 40 hex characters.
    MalformedDigest,
}

} // verus!
