//! The errors that the store and the link graph report.

use vstd::prelude::*;

verus! {

/// Why an operation did not succeed.
#[derive(Clone, Copy, Debug, PartialEq, Eq, Structural, Hash)]
pub enum Error {
    /// No document has the given identifier.
    NotFound,
    /// A link would lead from a document to itself.
    SelfLink,
    /// No stored document shares a whole chunk with the fragment.
    NoMatch,
    /// Two or more documents match the fragment about equally well.
    AmbiguousMatch,
    /// Some stripe of the document has fewer pieces available than the
    /// code needs.
    InsufficientRedundancy,
    /// An edit reached its origin but not every mirrored target.
    PartialPropagation,
    /// The document is held by another writer.
    LockTimeout,
}

} // verus!
