//! Lookup failures surfaced to callers of the query operations.

use vstd::prelude::*;

verus! {

/// A name that a query could not resolve. Validation violations are not
/// errors of this kind: they are collected and reported together by the
/// validator.
#[derive(Clone, Copy, Debug, PartialEq, Eq, Structural)]
pub enum LookupError {
    UnknownTeam,
    UnknownList,
    UnknownPermission,
}

impl LookupError {
    /// A short description for display.
    pub fn describe(&self) -> (r: String)
        ensures
            *self == LookupError::UnknownTeam ==> r@ == "unknown team"@,
            *self == LookupError::UnknownList ==> r@ == "unknown list"@,
            *self == LookupError::UnknownPermission ==> r@ == "unknown permission"@,
    {
        match self {
            LookupError::UnknownTeam => String::from_str("unknown team"),
            LookupError::UnknownList => String::from_str("unknown list"),
            LookupError::UnknownPermission => String::from_str("unknown permission"),
        }
    }
}

} // verus!
