//! What a combinatorial class has to offer to be searched for.

use vstd::prelude::*;
use vstd::std_specs::cmp::PartialEqSpec;

verus! {

/// A combinatorial class, as far as the search engine is concerned: a value
/// that can be compared and copied. The engine never looks inside it.
pub trait CombinatorialClass: Clone + PartialEq + Sized {

}

/// What the engine needs of the classes of a type: their equality is an
/// equivalence relation, and a clone is equal to its source.
pub open spec fn lawful<C: CombinatorialClass>() -> bool {
    &&& C::obeys_eq_spec()
    &&& forall|x: C| #[trigger] x.eq_spec(&x)
    &&& forall|x: C, y: C| #[trigger] x.eq_spec(&y) ==> y.eq_spec(&x)
    &&& forall|x: C, y: C, z: C|
        #[trigger] x.eq_spec(&y) && #[trigger] y.eq_spec(&z) ==> x.eq_spec(&z)
    &&& forall|x: C, y: C| #[trigger] cloned(x, y) ==> x.eq_spec(&y)
}

} // verus!
