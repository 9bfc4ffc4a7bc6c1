use vstd::prelude::*;

verus! {

/// The ways in which an operation of this library can fail.
#[derive(Debug, Clone, Copy, PartialEq, Eq, Structural)]
pub enum ShareError {
    /// The requested content or path is absent.
    NotFound,
    /// A path segment is unsafe or not portable.
    InvalidPathComponent,
    /// A ticket could not be decoded.
    MalformedTicket,
    /// Fetched bytes do not hash to the requested identifier.
    IntegrityMismatch,
    /// No connection could be made within the retry budget.
    PeerUnreachable,
    /// The export target already exists and may not be replaced.
    DestinationConflict,
    /// The filesystem failed underneath an operation.
    IoError,
}

} // verus!
