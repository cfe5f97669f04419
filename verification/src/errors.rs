//! Errors raised by the store and its transactions.

use vstd::prelude::*;

verus! {

/// Why an operation failed.
///
/// A missing key is not an error: reads return `None` for it.  The in-memory
/// backend cannot fail on I/O, so every failure is one of these.
#[derive(Debug)]
pub enum Error {
    /// Commit-time validation failed: a key this transaction wrote was
    /// committed by someone else after this transaction observed it.
    /// Recoverable by retrying from a fresh transaction.
    Conflict,
    /// An operation on a terminal transaction, a released snapshot, or a
    /// reserved name: a programming error, not retried.
    InvalidState,
    /// A column family name that the store does not know.
    UnknownColumnFamily(String),
}

impl Error {
    /// True of commit-time validation failures.
    pub fn is_conflict(&self) -> (r: bool)
        ensures
            r == (self is Conflict),
    {
        matches!(self, Error::Conflict)
    }
}

} // verus!
