//! The errors that the library reports.

use vstd::prelude::*;

verus! {

/// What went wrong.
#[derive(Debug, PartialEq, Eq)]
pub enum ModError {
    /// The named registry entry or package is absent.
    NotFound(String),
    /// A reference counter would pass the largest value it can hold.
    CounterOverflow(String),
    /// The effective user or group is not the superuser.
    PermissionDenied,
}

} // verus!
