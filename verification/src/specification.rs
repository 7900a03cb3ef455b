//! What a search gives when it succeeds.

use crate::pack::{Rule, Strategy};
use vstd::prelude::*;

verus! {

/// The rules found for a class, and the class they describe.
pub struct CombinatorialSpecification<S: Strategy> {
    pub rules: Vec<Rule<S>>,
    pub root: S::ClassType,
}

} // verus!
