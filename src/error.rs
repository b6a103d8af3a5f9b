//! Why a listing, a read or a write did not succeed.

use vstd::prelude::*;

verus! {

/// std's classification of a failed input/output operation. It is carried
/// through unchanged, never inspected.
#[verifier::external_type_specification]
#[verifier::external_body]
pub struct ExErrorKind(std::io::ErrorKind);

/// Why a path pattern could not be resolved.
#[derive(Debug, Clone, Copy, PartialEq, Eq)]
pub enum PathError {
    /// A path or an entry name is not valid text.
    NonUtf8,
    /// A wildcard stands in a component other than the last.
    WildcardInParent,
    /// The directory that should hold the matches does not exist.
    NonexistentParent,
    /// Enumerating the directory failed.
    IoError(std::io::ErrorKind),
}

/// Why a text could not be read or written.
#[derive(Debug, Clone, Copy, PartialEq, Eq)]
pub enum TextError {
    /// Nothing is stored under the name.
    NotFound,
    /// The underlying operation failed.
    Io(std::io::ErrorKind),
}

} // verus!
