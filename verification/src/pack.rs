//! Rules, the strategies they come from, the factories that propose them,
//! and the pack that groups the factories of a search into tiers.

use crate::combinatorial_class::CombinatorialClass;
use vstd::prelude::*;

verus! {

/// One way of decomposing a class into an ordered list of child classes.
pub trait Strategy: Clone + Sized {
    type ClassType: CombinatorialClass;

    /// What `decompose` may return for a class.
    open spec fn decomposes_to(
        &self,
        comb_class: &Self::ClassType,
        children: Seq<Self::ClassType>,
    ) -> bool {
        true
    }

    /// Whether this strategy is a bijection between a class and its only child.
    open spec fn is_equivalence_spec(&self) -> bool {
        arbitrary()
    }

    fn decompose(&self, comb_class: &Self::ClassType) -> (children: Vec<Self::ClassType>)
        ensures
            self.decomposes_to(comb_class, children@),
    ;

    fn is_equivalence(&self) -> (b: bool)
        ensures
            b == self.is_equivalence_spec(),
    ;
}

/// A strategy applied to a class, with the children it gave.
pub struct Rule<S: Strategy> {
    parent: S::ClassType,
    strategy: S,
    children: Vec<S::ClassType>,
}

impl<S: Strategy> Rule<S> {
    pub closed spec fn parent(&self) -> S::ClassType {
        self.parent
    }

    pub closed spec fn strategy(&self) -> S {
        self.strategy
    }

    pub closed spec fn children(&self) -> Seq<S::ClassType> {
        self.children@
    }

    /// The rule that `strategy` gives for `parent`.
    pub fn new(parent: S::ClassType, strategy: S) -> (rule: Rule<S>)
        ensures
            rule.parent() == parent,
            rule.strategy() == strategy,
            strategy.decomposes_to(&parent, rule.children()),
    {
        let children = strategy.decompose(&parent);
        Rule { parent, strategy, children }
    }

    /// The strategy, the rule given up for it.
    pub fn get_strategy(self) -> (s: S)
        ensures
            s == self.strategy(),
    {
        self.strategy
    }

    /// Whether the strategy of the rule is an equivalence.
    pub fn is_equivalence(&self) -> (b: bool)
        ensures
            b == self.strategy().is_equivalence_spec(),
    {
        self.strategy.is_equivalence()
    }

    /// The class that the rule describes.
    pub fn get_parent(&self) -> (p: &S::ClassType)
        ensures
            *p == self.parent(),
    {
        &self.parent
    }

    /// The classes that the rule describes it by.
    pub fn get_children(&self) -> (c: &Vec<S::ClassType>)
        ensures
            c@ == self.children(),
    {
        &self.children
    }
}

/// Proposes rules for a class.
pub trait StrategyFactory: Sized {
    type ClassType: CombinatorialClass;

    type StrategyType: Strategy<ClassType = Self::ClassType>;

    /// What `apply` may return for a class.
    open spec fn yields(
        &self,
        class: &Self::ClassType,
        rules: Seq<Rule<Self::StrategyType>>,
    ) -> bool {
        true
    }

    fn apply(&self, class: &Self::ClassType) -> (rules: Vec<Rule<Self::StrategyType>>)
        ensures
            self.yields(class, rules@),
    ;
}

/// The factories of a search, grouped by tier.
pub struct StrategyPack<F: StrategyFactory> {
    pub initials: Vec<F>,
    pub inferrals: Vec<F>,
    pub expansions: Vec<F>,
    pub verifications: Vec<F>,
}

impl<F: StrategyFactory> StrategyPack<F> {
    /// The factories in scheduling order: verifications, inferrals, initials,
    /// expansions. A factory's index in the pack is its position here.
    pub open spec fn factories(&self) -> Seq<F> {
        self.verifications@ + self.inferrals@ + self.initials@ + self.expansions@
    }

    /// Index of the first inferral factory.
    pub open spec fn inferral_start(&self) -> int {
        self.verifications@.len() as int
    }

    /// Index of the first initial factory.
    pub open spec fn initial_start(&self) -> int {
        self.inferral_start() + self.inferrals@.len()
    }

    /// Index of the first expansion factory.
    pub open spec fn expansion_start(&self) -> int {
        self.initial_start() + self.initials@.len()
    }

    /// The number of factories.
    pub fn len(&self) -> (n: usize)
        requires
            self.factories().len() <= usize::MAX,
        ensures
            n == self.factories().len(),
    {
        self.initials.len() + self.inferrals.len() + self.expansions.len()
            + self.verifications.len()
    }

    /// The factory with the index `index`.
    pub fn get_strategy_factory(&self, index: usize) -> (factory: &F)
        requires
            index < self.factories().len(),
        ensures
            *factory == self.factories()[index as int],
    {
        let mut index = index;
        if index < self.verifications.len() {
            return &self.verifications[index];
        } else {
            index -= self.verifications.len();
        }
        if index < self.inferrals.len() {
            return &self.inferrals[index];
        } else {
            index -= self.inferrals.len();
        }
        if index < self.initials.len() {
            return &self.initials[index];
        } else {
            index -= self.initials.len();
        }
        &self.expansions[index]
    }

    /// Whether the factory at `index` is a verification.
    pub fn is_verification(&self, index: usize) -> (b: bool)
        ensures
            b == (index < self.inferral_start()),
    {
        index < self.verifications.len()
    }

    /// Whether the factory at `index` is an inferral.
    pub fn is_inferral(&self, index: usize) -> (b: bool)
        ensures
            b == (self.inferral_start() <= index < self.initial_start()),
    {
        index >= self.verifications.len() && index - self.verifications.len()
            < self.inferrals.len()
    }
}

} // verus!
