//! Finds combinatorial specifications: sets of rules that describe a
//! combinatorial class by way of other classes, down to classes that need no
//! further description.

pub mod combinatorial_class;
pub mod errors;
pub mod pack;
pub mod searcher;
pub mod specification;
pub mod word;

pub use searcher::CombinatorialSpecificationSearcher;
pub use specification::CombinatorialSpecification;
