//! Errors the store reports to its callers.
use vstd::prelude::*;

verus! {

/// Why an operation on the store failed.
#[derive(Clone, Copy, Debug, PartialEq, Eq, Structural)]
pub enum StoreError {
    /// The origin could not be reached or answered a length probe unexpectedly.
    RemoteUnavailable,
    /// The origin could not be reached or answered a range fetch unexpectedly.
    FetchFailed,
    /// A write, delete or listing against a path other than the reserved one.
    UnsupportedOperation,
}

} // verus!
