//! An example of classes and strategies: words over an alphabet that avoid
//! some patterns as factors, told apart by the prefix they begin with.

use crate::combinatorial_class::{lawful, CombinatorialClass};
use crate::pack::{Rule, Strategy, StrategyFactory};
use vstd::prelude::*;
use vstd::std_specs::cmp::PartialEqSpecImpl;

pub mod atom_strategy;
pub mod expansion_strategy;
pub mod remove_front_of_prefix_strategy;

verus! {

/// What a class of words is: words over an alphabet that begin with a
/// prefix and avoid some patterns, or the prefix alone.
pub struct WordView {
    pub prefix: Seq<char>,
    pub patterns: Seq<Seq<char>>,
    pub alphabet: Seq<char>,
    pub just_prefix: bool,
}

/// The texts of `strings`.
pub open spec fn texts(strings: Seq<String>) -> Seq<Seq<char>> {
    Seq::new(strings.len(), |i: int| strings[i]@)
}

/// The words over an alphabet that begin with a prefix and avoid some
/// patterns; or, if `just_prefix`, the one word that is the prefix.
#[derive(Debug)]
pub struct AvoidingWithPrefix {
    prefix: String,
    patterns: Vec<String>,
    alphabet: Vec<char>,
    just_prefix: bool,
}

impl View for AvoidingWithPrefix {
    type V = WordView;

    closed spec fn view(&self) -> WordView {
        WordView {
            prefix: self.prefix@,
            patterns: texts(self.patterns@),
            alphabet: self.alphabet@,
            just_prefix: self.just_prefix,
        }
    }
}

/// A copy of `strings`.
pub fn clone_strings(strings: &Vec<String>) -> (copy: Vec<String>)
    ensures
        texts(copy@) == texts(strings@),
{
    let mut copy: Vec<String> = Vec::new();
    let mut i: usize = 0;
    while i < strings.len()
        invariant
            i <= strings.len(),
            copy@.len() == i,
            forall|j: int| 0 <= j < i ==> #[trigger] copy@[j]@ == strings@[j]@,
        decreases strings.len() - i,
    {
        copy.push(strings[i].clone());
        i += 1;
    }
    assert(texts(copy@) =~= texts(strings@));
    copy
}

/// A copy of `letters`.
pub fn clone_letters(letters: &Vec<char>) -> (copy: Vec<char>)
    ensures
        copy@ == letters@,
{
    let mut copy: Vec<char> = Vec::new();
    let mut i: usize = 0;
    while i < letters.len()
        invariant
            i <= letters.len(),
            copy@.len() == i,
            forall|j: int| 0 <= j < i ==> #[trigger] copy@[j] == letters@[j],
        decreases letters.len() - i,
    {
        copy.push(letters[i]);
        i += 1;
    }
    assert(copy@ =~= letters@);
    copy
}

impl Clone for AvoidingWithPrefix {
    fn clone(&self) -> (copy: Self)
        ensures
            copy@ == self@,
    {
        AvoidingWithPrefix {
            prefix: self.prefix.clone(),
            patterns: clone_strings(&self.patterns),
            alphabet: clone_letters(&self.alphabet),
            just_prefix: self.just_prefix,
        }
    }
}

impl PartialEq for AvoidingWithPrefix {
    fn eq(&self, other: &Self) -> (r: bool) {
        if self.just_prefix != other.just_prefix || self.prefix != other.prefix
            || self.alphabet.len() != other.alphabet.len() || self.patterns.len()
            != other.patterns.len() {
            proof {
                if self.patterns.len() != other.patterns.len() {
                    assert(texts(self.patterns@).len() != texts(other.patterns@).len());
                }
            }
            return false;
        }
        let mut i: usize = 0;
        while i < self.alphabet.len()
            invariant
                i <= self.alphabet.len(),
                self.alphabet.len() == other.alphabet.len(),
                forall|j: int| 0 <= j < i ==> self.alphabet@[j] == other.alphabet@[j],
            decreases self.alphabet.len() - i,
        {
            if self.alphabet[i] != other.alphabet[i] {
                return false;
            }
            i += 1;
        }
        assert(self.alphabet@ =~= other.alphabet@);
        let mut i: usize = 0;
        while i < self.patterns.len()
            invariant
                i <= self.patterns.len(),
                self.patterns.len() == other.patterns.len(),
                self.alphabet@ == other.alphabet@,
                self.prefix@ == other.prefix@,
                self.just_prefix == other.just_prefix,
                forall|j: int| 0 <= j < i ==> self.patterns@[j]@ == other.patterns@[j]@,
            decreases self.patterns.len() - i,
        {
            if self.patterns[i] != other.patterns[i] {
                proof {
                    assert(texts(self.patterns@)[i as int] != texts(other.patterns@)[i as int]);
                }
                return false;
            }
            i += 1;
        }
        assert(texts(self.patterns@) =~= texts(other.patterns@));
        true
    }
}

impl PartialEqSpecImpl for AvoidingWithPrefix {
    open spec fn obeys_eq_spec() -> bool {
        true
    }

    open spec fn eq_spec(&self, other: &Self) -> bool {
        self@ == other@
    }
}

impl CombinatorialClass for AvoidingWithPrefix {

}

/// Classes of words are compared by what they hold, and cloned with it.
pub proof fn lemma_words_are_lawful()
    ensures
        lawful::<AvoidingWithPrefix>(),
{
}

impl AvoidingWithPrefix {
    /// The words over `alphabet` that begin with `prefix` and avoid `patterns`.
    pub fn new(prefix: String, patterns: Vec<String>, alphabet: Vec<char>) -> (class: Self)
        ensures
            class@ == (WordView {
                prefix: prefix@,
                patterns: texts(patterns@),
                alphabet: alphabet@,
                just_prefix: false,
            }),
    {
        Self { prefix, patterns, alphabet, just_prefix: false }
    }

    /// The word `prefix` alone.
    pub fn new_just_prefix(prefix: String, patterns: Vec<String>, alphabet: Vec<char>) -> (class:
        Self)
        ensures
            class@ == (WordView {
                prefix: prefix@,
                patterns: texts(patterns@),
                alphabet: alphabet@,
                just_prefix: true,
            }),
    {
        Self { prefix, patterns, alphabet, just_prefix: true }
    }

    /// Whether the class is its prefix alone.
    pub fn is_just_prefix(&self) -> (b: bool)
        ensures
            b == self@.just_prefix,
    {
        self.just_prefix
    }

    /// The prefix.
    pub fn get_prefix(&self) -> (prefix: &String)
        ensures
            prefix@ == self@.prefix,
    {
        &self.prefix
    }

    /// The patterns to avoid.
    pub fn get_patterns(&self) -> (patterns: &Vec<String>)
        ensures
            texts(patterns@) == self@.patterns,
    {
        &self.patterns
    }

    /// The alphabet.
    pub fn get_alphabet(&self) -> (alphabet: &Vec<char>)
        ensures
            alphabet@ == self@.alphabet,
    {
        &self.alphabet
    }
}

/// The strategies for classes of words, each also the factory of its rules.
#[derive(Debug, Clone, Copy, PartialEq, Eq, Structural)]
pub enum WordStrategy {
    Atom,
    RemoveFrontOfPrefix,
    Expansion,
}

/// Whether `rules` is what a strategy gives for `class`: one rule, of `class`
/// itself with that strategy, where the strategy applies, and none where it
/// does not.
pub open spec fn one_rule_if(
    applies: bool,
    strategy: WordStrategy,
    class: AvoidingWithPrefix,
    rules: Seq<Rule<WordStrategy>>,
) -> bool {
    if applies {
        &&& rules.len() == 1
        &&& rules[0].parent()@ == class@
        &&& rules[0].strategy() == strategy
        &&& strategy.decomposes_to(&rules[0].parent(), rules[0].children())
    } else {
        rules.len() == 0
    }
}

impl StrategyFactory for WordStrategy {
    type ClassType = AvoidingWithPrefix;

    type StrategyType = WordStrategy;

    open spec fn yields(&self, class: &AvoidingWithPrefix, rules: Seq<Rule<WordStrategy>>) -> bool {
        match self {
            WordStrategy::Atom => one_rule_if(class@.just_prefix, *self, *class, rules),
            WordStrategy::RemoveFrontOfPrefix => one_rule_if(
                !class@.just_prefix && remove_front_of_prefix_strategy::removable(
                    class@.prefix,
                    class@.patterns,
                ) > 0,
                *self,
                *class,
                rules,
            ),
            WordStrategy::Expansion => one_rule_if(!class@.just_prefix, *self, *class, rules),
        }
    }

    fn apply(&self, comb_class: &AvoidingWithPrefix) -> (rules: Vec<Rule<WordStrategy>>) {
        match self {
            WordStrategy::Atom => atom_strategy::apply(comb_class),
            WordStrategy::RemoveFrontOfPrefix => remove_front_of_prefix_strategy::apply(comb_class),
            WordStrategy::Expansion => expansion_strategy::apply(comb_class),
        }
    }
}

impl Strategy for WordStrategy {
    type ClassType = AvoidingWithPrefix;

    open spec fn decomposes_to(
        &self,
        comb_class: &AvoidingWithPrefix,
        children: Seq<AvoidingWithPrefix>,
    ) -> bool {
        match self {
            WordStrategy::Atom => children.len() == 0,
            WordStrategy::RemoveFrontOfPrefix => remove_front_of_prefix_strategy::splits(
                comb_class@,
                children,
            ),
            WordStrategy::Expansion => expansion_strategy::expands(comb_class@, children),
        }
    }

    open spec fn is_equivalence_spec(&self) -> bool {
        *self == WordStrategy::Expansion
    }

    fn decompose(&self, comb_class: &AvoidingWithPrefix) -> (children: Vec<AvoidingWithPrefix>) {
        match self {
            WordStrategy::Atom => atom_strategy::decompose(comb_class),
            WordStrategy::RemoveFrontOfPrefix => {
                remove_front_of_prefix_strategy::decompose(comb_class)
            },
            WordStrategy::Expansion => expansion_strategy::decompose(comb_class),
        }
    }

    fn is_equivalence(&self) -> (b: bool) {
        match self {
            WordStrategy::Atom => false,
            WordStrategy::RemoveFrontOfPrefix => false,
            WordStrategy::Expansion => true,
        }
    }
}

} // verus!
