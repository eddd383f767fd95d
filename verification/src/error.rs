//! The ways in which a roster request fails.

use vstd::prelude::*;

verus! {

/// The storage failed to answer a query.
#[derive(Clone, Copy, Debug, PartialEq, Eq)]
pub struct StorageError;

/// Why a request ends without a roster.
#[derive(Clone, Copy, Debug, PartialEq, Eq)]
pub enum RosterError {
    /// There is no such group, as far as this caller may know.
    NotFound,
    /// The storage behind the request failed.
    Storage,
    /// The users that came back are not the users whom the members name, so
    /// that members and users cannot be paired.
    AlignmentViolation,
}

} // verus!
