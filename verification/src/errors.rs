//! Error types of the library.

use vstd::prelude::*;

verus! {

/// Errors of the in-memory filter structure.
#[derive(Clone, Copy, Debug, PartialEq, Eq, Structural)]
pub enum FilterError {
    /// A partition's membership filter cannot take more items.
    CapacityExceeded,
    /// A membership filter could not be constructed.
    Construction,
    /// The expiry date matched no partition and the overflow window does not
    /// cover it; the key was not recorded anywhere.
    NoMatchingPartition,
}

/// Errors of the snapshot decoding path; encoding a snapshot cannot fail.
#[derive(Clone, Copy, Debug, PartialEq, Eq, Structural)]
pub enum SnapshotError {
    /// The payload is not a structurally valid snapshot envelope.
    Malformed,
    /// A filter blob inside an otherwise well-formed envelope could not be
    /// decoded back into a membership filter.
    FilterDecode,
}

impl FilterError {
    /// A short diagnostic label for the error.
    pub fn describe(&self) -> (r: &'static str)
        ensures
            *self is CapacityExceeded ==> r@ == "filter capacity exceeded"@,
            *self is Construction ==> r@ == "filter construction failed"@,
            *self is NoMatchingPartition ==> r@ == "no partition covers the expiry date"@,
    {
        match self {
            FilterError::CapacityExceeded => "filter capacity exceeded",
            FilterError::Construction => "filter construction failed",
            FilterError::NoMatchingPartition => "no partition covers the expiry date",
        }
    }
}

impl SnapshotError {
    /// A short diagnostic label for the error.
    pub fn describe(&self) -> (r: &'static str)
        ensures
            *self is Malformed ==> r@ == "malformed snapshot payload"@,
            *self is FilterDecode ==> r@ == "filter blob decoding failed"@,
    {
        match self {
            SnapshotError::Malformed => "malformed snapshot payload",
            SnapshotError::FilterDecode => "filter blob decoding failed",
        }
    }
}

} // verus!
