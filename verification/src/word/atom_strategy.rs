//! A word alone is an atom.

use crate::pack::Rule;
use crate::word::{one_rule_if, AvoidingWithPrefix, WordStrategy};
use vstd::prelude::*;

verus! {

/// A class that is just its prefix is an atom.
pub fn apply(comb_class: &AvoidingWithPrefix) -> (res: Vec<Rule<WordStrategy>>)
    ensures
        one_rule_if(comb_class@.just_prefix, WordStrategy::Atom, *comb_class, res@),
{
    let mut res: Vec<Rule<WordStrategy>> = Vec::new();
    if comb_class.is_just_prefix() {
        let strategy = WordStrategy::Atom;
        res.push(Rule::new(comb_class.clone(), strategy));
    }
    res
}

/// An atom has no children.
pub fn decompose(word: &AvoidingWithPrefix) -> (children: Vec<AvoidingWithPrefix>)
    ensures
        children@.len() == 0,
{
    Vec::new()
}

} // verus!
