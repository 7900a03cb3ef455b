//! Rules over labels, and what a store of rules has to offer.

use crate::errors::SpecificationNotFoundError;
use crate::pack::{Rule, Strategy};
use crate::searcher::classdb::ClassDB;
use crate::specification::CombinatorialSpecification;
use vstd::prelude::*;
use vstd::std_specs::cmp::PartialEqSpecImpl;

pub mod forest;
pub mod simple;

verus! {

/// A store of rules that can be asked for a specification of a class.
pub trait RuleDB<S: Strategy>: Sized {
    /// What the store needs to hold of itself between calls.
    open spec fn wf(&self) -> bool {
        true
    }

    /// Whether the store can give `spec` as a specification of the class
    /// with the label `root`, the classes being `classes`.
    open spec fn specifies(
        &self,
        root: usize,
        classes: Seq<S::ClassType>,
        spec: CombinatorialSpecification<S>,
    ) -> bool {
        true
    }

    /// What holds of a store that is asked for a specification of the class
    /// with the label `root` and gives none.
    open spec fn gives_up(&self, root: usize, classes: Seq<S::ClassType>) -> bool {
        true
    }

    /// Whether `self` is the store `before` after it was asked for a
    /// specification.
    open spec fn holds_after_asking(&self, before: Self) -> bool {
        true
    }

    fn get_specification(&mut self, root: usize, classdb: &ClassDB<S::ClassType>) -> (found: Result<
        CombinatorialSpecification<S>,
        SpecificationNotFoundError,
    >)
        requires
            old(self).wf(),
            classdb.wf(),
        ensures
            final(self).wf(),
            final(self).holds_after_asking(*old(self)),
            found matches Ok(spec) ==> old(self).specifies(root, classdb@, spec),
            found matches Ok(spec) ==> final(self).specifies(root, classdb@, spec),
            found.is_err() ==> old(self).gives_up(root, classdb@),
    ;

    /// Whether `self` is `before` with `rule` added, the parent of the rule
    /// having the label `start` and its children the labels `ends`.
    open spec fn holds_after_add(
        &self,
        before: Self,
        start: usize,
        ends: Seq<usize>,
        rule: Rule<S>,
    ) -> bool {
        true
    }

    fn add(&mut self, start: usize, ends: Vec<usize>, rule: Rule<S>)
        requires
            old(self).wf(),
        ensures
            final(self).wf(),
            final(self).holds_after_add(*old(self), start, ends@, rule),
    ;
}

/// Ascending order on labels.
pub open spec fn label_leq() -> spec_fn(usize, usize) -> bool {
    |a: usize, b: usize| a <= b
}

/// `labels` in ascending order.
pub open spec fn sorted_labels(labels: Seq<usize>) -> Seq<usize> {
    labels.sort_by(label_leq())
}

/// `labels` stands in ascending order.
pub open spec fn is_sorted(labels: Seq<usize>) -> bool {
    forall|i: int, j: int| 0 <= i < j < labels.len() ==> labels[i] <= labels[j]
}

/// Slice `sort` on a vector of labels: afterwards the vector holds what it
/// held before, each label as often as before, in ascending order.
#[verifier::external_body]
fn sort_labels(labels: &mut Vec<usize>)
    ensures
        is_sorted(final(labels)@),
        final(labels)@.to_multiset() == old(labels)@.to_multiset(),
{
    labels.sort();
}

/// There is one way to put labels in ascending order.
pub proof fn lemma_sorted_labels(labels: Seq<usize>, ordered: Seq<usize>)
    requires
        is_sorted(ordered),
        ordered.to_multiset() == labels.to_multiset(),
    ensures
        ordered == sorted_labels(labels),
{
    let leq = label_leq();
    assert(vstd::relations::total_ordering(leq));
    labels.lemma_sort_by_ensures(leq);
    assert(vstd::relations::sorted_by(ordered, leq));
    vstd::seq_lib::lemma_sorted_unique(ordered, sorted_labels(labels), leq);
}

/// Putting labels in order loses none and adds none.
pub proof fn lemma_sorted_holds_the_same(labels: Seq<usize>, label: usize)
    ensures
        sorted_labels(labels).contains(label) <==> labels.contains(label),
{
    let leq = label_leq();
    assert(vstd::relations::total_ordering(leq));
    labels.lemma_sort_by_ensures(leq);
    vstd::seq_lib::to_multiset_contains(labels, label);
    vstd::seq_lib::to_multiset_contains(sorted_labels(labels), label);
}

/// A rule as the search sees it: the label of the parent and the labels of
/// the children in ascending order.
#[derive(Debug, Eq, Hash)]
pub struct RuleLabel {
    parent: usize,
    children: Vec<usize>,
}

impl View for RuleLabel {
    type V = (usize, Seq<usize>);

    /// The parent and the children.
    closed spec fn view(&self) -> (usize, Seq<usize>) {
        (self.parent, self.children@)
    }
}

impl PartialEq for RuleLabel {
    fn eq(&self, other: &Self) -> (r: bool) {
        if self.parent != other.parent || self.children.len() != other.children.len() {
            return false;
        }
        let mut i: usize = 0;
        while i < self.children.len()
            invariant
                i <= self.children.len(),
                self.children.len() == other.children.len(),
                forall|j: int| 0 <= j < i ==> self.children[j] == other.children[j],
            decreases self.children.len() - i,
        {
            if self.children[i] != other.children[i] {
                return false;
            }
            i += 1;
        }
        assert(self.children@ =~= other.children@);
        true
    }
}

impl PartialEqSpecImpl for RuleLabel {
    open spec fn obeys_eq_spec() -> bool {
        true
    }

    open spec fn eq_spec(&self, other: &Self) -> bool {
        self@ == other@
    }
}

impl Clone for RuleLabel {
    fn clone(&self) -> (copy: Self)
        ensures
            copy@ == self@,
    {
        let mut children: Vec<usize> = Vec::new();
        let mut i: usize = 0;
        while i < self.children.len()
            invariant
                i <= self.children.len(),
                children@ == self.children@.take(i as int),
            decreases self.children.len() - i,
        {
            children.push(self.children[i]);
            i += 1;
            assert(children@ =~= self.children@.take(i as int));
        }
        assert(children@ =~= self.children@);
        RuleLabel { parent: self.parent, children }
    }
}

impl RuleLabel {
    /// The rule with that parent and those children.
    pub fn new(parent: usize, children: Vec<usize>) -> (label: Self)
        ensures
            label@ == (parent, sorted_labels(children@)),
    {
        let mut children = children;
        let ghost given = children@;
        sort_labels(&mut children);
        proof {
            lemma_sorted_labels(given, children@);
        }
        Self { parent, children }
    }

    /// A rule with one child.
    pub fn new_link(parent: usize, child: usize) -> (label: Self)
        ensures
            label@ == (parent, seq![child]),
    {
        let mut children: Vec<usize> = Vec::new();
        children.push(child);
        assert(children@ =~= seq![child]);
        Self { parent, children }
    }

    /// The parent.
    pub fn get_parent(&self) -> (parent: &usize)
        ensures
            *parent == self@.0,
    {
        &self.parent
    }

    /// The children, in ascending order.
    pub fn get_children(&self) -> (children: &Vec<usize>)
        ensures
            children@ == self@.1,
    {
        &self.children
    }
}

} // verus!
