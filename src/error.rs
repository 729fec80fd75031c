//! The failures that the entry model and the merge engine report.
use vstd::prelude::*;

verus! {

/// A field that an entry cannot do without.
#[derive(Clone, Copy, Debug, PartialEq, Eq, Structural)]
pub enum RequiredField {
    Author,
    Title,
    Issue,
}

/// The distinct, inspectable failures of this library.
#[derive(Clone, Copy, Debug, PartialEq, Eq, Structural)]
pub enum ChangelogError {
    /// A required entry field is absent or empty at build time.
    MissingField(RequiredField),
    /// An entry file with the same name is already pending.
    AlreadyExists,
    /// An entry file is not a valid entry document.
    ParseError,
    /// An entry could not be encoded.
    SerializationError,
    /// A filesystem operation failed.
    IoError,
}

} // verus!
