//! The one way in which a search can fail.

use vstd::prelude::*;

verus! {

/// The rules gathered so far do not yield a specification for the requested
/// class. Recoverable: more rules may be added and the query repeated.
#[derive(Debug, Clone, Copy, PartialEq, Eq, Structural)]
pub struct SpecificationNotFoundError {}

impl SpecificationNotFoundError {
    /// The message shown for this error.
    pub fn message(&self) -> (s: String)
        ensures
            s@ == "specification not found"@,
    {
        String::from_str("specification not found")
    }
}

} // verus!
