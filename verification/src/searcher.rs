//! The search: from a start class, apply the factories of a pack, class by
//! class, until the rules found make a specification.

use crate::combinatorial_class::lawful;
use crate::errors::SpecificationNotFoundError;
use crate::pack::{Rule, Strategy, StrategyFactory, StrategyPack};
use crate::searcher::ruledb::simple::{
    grows_from_survivors, lemma_lone_atom_specifies, lifts, materialized, root_survives,
    tree_blocked, RuleView, SimpleRuleDB,
};
use crate::searcher::ruledb::{lemma_sorted_labels, RuleDB};
use crate::specification::CombinatorialSpecification;
use vstd::prelude::*;

pub mod classdb;
pub mod equiv_db;
pub mod queue;
pub mod ruledb;

verus! {

/// What a search has gathered.
pub struct SearchState<F: StrategyFactory, R: ruledb::RuleDB<F::StrategyType>> {
    /// The classes met so far, each at its label.
    pub classes: Seq<F::ClassType>,
    /// The work that waits.
    pub queue: queue::QueueView,
    /// The rules found.
    pub ruledb: R,
}

/// Whether `after` is `before` with `rule` taken in: the parent and the
/// children of the rule have labels, the children wait in the queue, and the
/// rule is in the rule store.
pub open spec fn takes_rule<F: StrategyFactory, R: ruledb::RuleDB<F::StrategyType>>(
    before: SearchState<F, R>,
    rule: Rule<F::StrategyType>,
    after: SearchState<F, R>,
    pack: StrategyPack<F>,
) -> bool {
    let ends = classdb::labels_of(after.classes, rule.children());
    &&& classdb::interned_all(before.classes, seq![rule.parent()] + rule.children(), after.classes)
    &&& after.queue == queue::with_classes(before.queue, ends, pack)
    &&& after.ruledb.holds_after_add(
        before.ruledb,
        classdb::label_of(after.classes, rule.parent()) as usize,
        ends,
        rule,
    )
}

/// Whether `stages` leads from `before` to `after` by taking in the rules
/// of `rules`, one after the other.
pub open spec fn takes_along<F: StrategyFactory, R: ruledb::RuleDB<F::StrategyType>>(
    before: SearchState<F, R>,
    rules: Seq<Rule<F::StrategyType>>,
    after: SearchState<F, R>,
    pack: StrategyPack<F>,
    stages: Seq<SearchState<F, R>>,
) -> bool {
    &&& stages.len() == rules.len() + 1
    &&& stages[0] == before
    &&& stages[rules.len() as int] == after
    &&& forall|k: int|
        0 <= k < rules.len() ==> takes_rule(#[trigger] stages[k], rules[k], stages[k + 1], pack)
}

/// Whether `after` is `before` with the rules of `rules` taken in, one after
/// the other.
pub open spec fn takes_rules<F: StrategyFactory, R: ruledb::RuleDB<F::StrategyType>>(
    before: SearchState<F, R>,
    rules: Seq<Rule<F::StrategyType>>,
    after: SearchState<F, R>,
    pack: StrategyPack<F>,
) -> bool {
    exists|stages: Seq<SearchState<F, R>>| #[trigger]
        takes_along(before, rules, after, pack, stages)
}

/// An atom for the class searched for settles the search. Once a search that
/// has met one class and has no rules takes in a rule for that class without
/// children, the store holds this rule alone, under the label of the class;
/// the rule survives pruning, nothing keeps a proof tree from giving a
/// specification, and what a proof tree is turned into is the rule.
pub proof fn lemma_atom_at_start<F: StrategyFactory>(
    before: SearchState<F, SimpleRuleDB<F::StrategyType>>,
    rule: Rule<F::StrategyType>,
    after: SearchState<F, SimpleRuleDB<F::StrategyType>>,
    pack: StrategyPack<F>,
    tree: Seq<RuleView>,
    labels: Seq<RuleView>,
)
    requires
        before.classes.len() == 1,
        classdb::holds(before.classes, rule.parent()),
        rule.children().len() == 0,
        before.ruledb.keys().len() == 0,
        takes_rules(before, seq![rule], after, pack),
    ensures
        after.classes == before.classes,
        after.ruledb.keys() == seq![(0usize, Seq::<usize>::empty())],
        after.ruledb.strategy_of((0usize, Seq::<usize>::empty())) == Some(rule.strategy()),
        after.ruledb.equiv() == before.ruledb.equiv(),
        root_survives(after.ruledb.keys(), after.ruledb.equiv(), 0),
        !tree_blocked(after.ruledb.keys(), after.ruledb.equiv(), tree, 0, 1),
        lifts(after.ruledb.keys(), after.ruledb.equiv(), tree, 0, labels) ==> labels
            == after.ruledb.keys(),
{
    let stages = choose|stages: Seq<SearchState<F, SimpleRuleDB<F::StrategyType>>>| #[trigger]
        takes_along(before, seq![rule], after, pack, stages);
    assert(takes_rule(stages[0], seq![rule][0], stages[1], pack));
    let wanted = seq![rule.parent()] + rule.children();
    let steps = choose|steps: Seq<Seq<F::ClassType>>| #[trigger]
        classdb::interned_along(before.classes, wanted, after.classes, steps);
    assert(wanted.len() == 1 && wanted[0] == rule.parent());
    assert(classdb::holds(before.classes, rule.parent()));
    assert(classdb::interned(steps[0], wanted[0], steps[1]));
    classdb::lemma_label_of(after.classes, rule.parent());
    let none = Seq::<usize>::empty();
    assert(classdb::labels_of(after.classes, rule.children()) =~= none);
    lemma_sorted_labels(none, none);
    let key = (0usize, none);
    assert(!before.ruledb.keys().contains(key));
    assert(before.ruledb.keys().push(key) =~= seq![key]);
    lemma_lone_atom_specifies(after.ruledb.keys(), after.ruledb.equiv(), 0, 1, tree, labels);
}

/// A verification that gives an atom ends the search at its first expansion.
/// Take a searcher before any work, with a store without rules and a pack of
/// one factory, a verification that gives for each class one rule, for that
/// class and without children. Its queue is not dry; and the store that one
/// expansion leads to does not give up, and specifies only specifications of
/// one rule, whose parent, like the root, is the start class.
pub proof fn lemma_verification_atom_at_start<F: StrategyFactory>(
    searcher: &CombinatorialSpecificationSearcher<F, SimpleRuleDB<F::StrategyType>>,
    first: SearchState<F, SimpleRuleDB<F::StrategyType>>,
    spec: CombinatorialSpecification<F::StrategyType>,
)
    requires
        searcher.start_label() == 0,
        searcher.classes().len() == 1,
        searcher.last_created().is_none(),
        searcher.queue() == (queue::QueueView {
            verification: Seq::empty(),
            inferral: Seq::empty(),
            initial: Seq::empty(),
            expansion: Seq::empty(),
            ignore: Set::empty(),
            added: Set::empty(),
            last: None,
            yielded: Seq::empty(),
        }).with_class(0, searcher.pack()),
        searcher.ruledb().keys().len() == 0,
        searcher.pack().verifications@.len() == 1,
        searcher.pack().factories().len() == 1,
        forall|class: F::ClassType, rules: Seq<Rule<F::StrategyType>>| #[trigger]
            searcher.pack().factories()[0].yields(&class, rules) ==> rules.len() == 1
                && rules[0].children().len() == 0 && classdb::holds(seq![class], rules[0].parent()),
    ensures
        !searcher.drained(),
        searcher.expands_to(first) ==> !first.ruledb.gives_up(0, first.classes),
        searcher.expands_to(first) && first.ruledb.specifies(0, first.classes, spec)
            ==> spec.rules@.len() == 1 && cloned(searcher.classes()[0], spec.root) && cloned(
            searcher.classes()[0],
            spec.rules@[0].parent(),
        ),
{
    let pack = searcher.pack();
    let waiting = searcher.queue().scheduled();
    let packet = queue::WorkPacketInternal { class_label: 0, factory_index: 0 };
    assert(waiting =~= seq![packet]);
    assert(searcher.queue().ignore_after(searcher.last_created(), pack) =~= Set::<usize>::empty());
    assert(queue::ignored_prefix(waiting, Set::<usize>::empty()) == 0);
    assert(searcher.next_packet() == packet);
    if searcher.expands_to(first) {
        let start = searcher.handed_out();
        let rules = choose|rules: Seq<Rule<F::StrategyType>>|
            {
                &&& #[trigger] pack.factories()[packet.factory_index as int].yields(
                    &searcher.classes()[packet.class_label as int],
                    rules,
                )
                &&& takes_rules(start, rules, first, pack)
            };
        assert(rules =~= seq![rules[0]]);
        assert(start.classes =~= seq![searcher.classes()[0]]);
        let keys = first.ruledb.keys();
        let db = first.ruledb.equiv();
        lemma_atom_at_start(start, rules[0], first, pack, Seq::empty(), Seq::empty());
        if first.ruledb.gives_up(0, first.classes) {
            let tree = choose|tree: Seq<RuleView>| #[trigger]
                grows_from_survivors(keys, db, tree, 0) && tree_blocked(keys, db, tree, 0, 1);
            lemma_atom_at_start(start, rules[0], first, pack, tree, Seq::empty());
        }
        if first.ruledb.specifies(0, first.classes, spec) {
            let (tree, labels) = choose|tree: Seq<RuleView>, labels: Seq<RuleView>|
                {
                    &&& grows_from_survivors(keys, db, tree, 0)
                    &&& #[trigger] lifts(keys, db, tree, 0, labels)
                    &&& materialized(keys, first.ruledb.strategies(), first.classes, labels, 0, spec)
                };
            lemma_atom_at_start(start, rules[0], first, pack, tree, labels);
            assert(labels[0].0 == 0);
        }
    }
}

/// Looks for a specification of a class: applies the factories of a pack
/// to the class and to the classes this leads to, and asks the rule store
/// after each step whether the rules found make a specification.
pub struct CombinatorialSpecificationSearcher<F: StrategyFactory, R: ruledb::RuleDB<F::StrategyType>> {
    start_label: usize,
    queue: queue::ClassQueue<F>,
    classdb: classdb::ClassDB<F::ClassType>,
    ruledb: R,
    last_wp_created_rule: Option<bool>,
}

impl<F, R> CombinatorialSpecificationSearcher<F, R> where
    F: StrategyFactory,
    R: ruledb::RuleDB<F::StrategyType>,
 {
    /// The label of the class searched for.
    pub closed spec fn start_label(&self) -> usize {
        self.start_label
    }

    /// The classes met so far, each at its label.
    pub closed spec fn classes(&self) -> Seq<F::ClassType> {
        self.classdb@
    }

    /// The work that waits.
    pub closed spec fn queue(&self) -> queue::QueueView {
        self.queue@
    }

    /// The factories.
    pub closed spec fn pack(&self) -> StrategyPack<F> {
        self.queue.pack()
    }

    /// The rules found.
    pub closed spec fn ruledb(&self) -> R {
        self.ruledb
    }

    /// What the search has gathered.
    pub open spec fn state(&self) -> SearchState<F, R> {
        SearchState { classes: self.classes(), queue: self.queue(), ruledb: self.ruledb() }
    }

    /// Whether the last packet handed out gave a rule, once one was handed out.
    pub closed spec fn last_created(&self) -> Option<bool> {
        self.last_wp_created_rule
    }

    /// The parts are well formed, and every label in the queue is the label
    /// of a class.
    pub closed spec fn wf(&self) -> bool {
        &&& self.queue.wf()
        &&& self.classdb.wf()
        &&& self.ruledb.wf()
        &&& self.start_label < self.classdb@.len()
        &&& forall|l: usize| #[trigger] self.queue@.added.contains(l) ==> l < self.classdb@.len()
        &&& self.queue@.last.is_some() == self.last_wp_created_rule.is_some()
    }

    /// A searcher for `start_class`, before any work: the class has the label
    /// zero and waits in the queue.
    pub fn new(start_class: F::ClassType, pack: StrategyPack<F>, ruledb: R) -> (searcher: Self)
        requires
            lawful::<F::ClassType>(),
            pack.factories().len() <= usize::MAX,
            ruledb.wf(),
        ensures
            searcher.wf(),
            searcher.start_label() == 0,
            searcher.classes().len() == 1,
            cloned(start_class, searcher.classes()[0]),
            searcher.pack() == pack,
            searcher.ruledb() == ruledb,
            searcher.last_created().is_none(),
            searcher.queue() == (queue::QueueView {
                verification: Seq::empty(),
                inferral: Seq::empty(),
                initial: Seq::empty(),
                expansion: Seq::empty(),
                ignore: Set::empty(),
                added: Set::empty(),
                last: None,
                yielded: Seq::empty(),
            }).with_class(0, pack),
    {
        let mut classdb = classdb::ClassDB::new();
        let start_label = classdb.get_label_from_class_or_add(&start_class);
        let queue = queue::ClassQueue::new(pack, start_label);
        Self { start_label, queue, classdb, ruledb, last_wp_created_rule: None }
    }

    /// Whether the queue has nothing more to hand out.
    pub open spec fn drained(&self) -> bool {
        queue::ignored_prefix(
            self.queue().scheduled(),
            self.queue().ignore_after(self.last_created(), self.pack()),
        ) == self.queue().scheduled().len()
    }

    /// The queue after a look for the next packet that found none: the
    /// packets that waited, all of them of classes to ignore, are gone, and
    /// the class of the last packet is ignored where that packet settled it.
    pub open spec fn emptied_queue(&self) -> queue::QueueView {
        (queue::QueueView {
            ignore: self.queue().ignore_after(self.last_created(), self.pack()),
            ..self.queue().without_front(self.queue().scheduled().len() as int)
        })
    }

    /// A queue that was emptied stays as it is: it has nothing to hand out,
    /// and emptying it again changes nothing.
    pub proof fn lemma_emptied_stays_empty(&self, after: &Self)
        requires
            after.pack() == self.pack(),
            after.last_created() == self.last_created(),
            after.queue() == self.emptied_queue(),
        ensures
            after.drained(),
            after.emptied_queue() == after.queue(),
    {
        let before = self.queue();
        let now = after.queue();
        assert(now.scheduled() =~= Seq::<queue::WorkPacketInternal>::empty());
        assert(now.ignore_after(after.last_created(), after.pack()) =~= now.ignore);
        let again = after.emptied_queue();
        assert(again.verification =~= now.verification);
        assert(again.inferral =~= now.inferral);
        assert(again.initial =~= now.initial);
        assert(again.expansion =~= now.expansion);
    }

    /// The packet that the queue hands out next, where it is not drained.
    pub open spec fn next_packet(&self) -> queue::WorkPacketInternal {
        self.queue().scheduled()[queue::ignored_prefix(
            self.queue().scheduled(),
            self.queue().ignore_after(self.last_created(), self.pack()),
        )]
    }

    /// What the search has gathered once the next packet is handed out: the
    /// packet has left the queue, and the classes ignored are those to ignore
    /// from now on.
    pub open spec fn handed_out(&self) -> SearchState<F, R> {
        let packet = self.next_packet();
        (SearchState {
            queue: (queue::QueueView {
                ignore: self.queue().ignore_after(self.last_created(), self.pack()),
                last: Some(packet),
                yielded: self.queue().yielded.push(packet),
                ..self.queue().without_front(
                    queue::ignored_prefix(
                        self.queue().scheduled(),
                        self.queue().ignore_after(self.last_created(), self.pack()),
                    ) + 1,
                )
            }),
            ..self.state()
        })
    }

    /// Whether `after` is what the search has gathered after one expansion:
    /// the next packet is handed out, its factory applied to its class, and
    /// the rules this gives taken in.
    pub open spec fn expands_to(&self, after: SearchState<F, R>) -> bool {
        let packet = self.next_packet();
        exists|rules: Seq<Rule<F::StrategyType>>|
            {
                &&& #[trigger] self.pack().factories()[packet.factory_index as int].yields(
                    &self.classes()[packet.class_label as int],
                    rules,
                )
                &&& takes_rules(self.handed_out(), rules, after, self.pack())
            }
    }

    /// Whether `after` is the searcher after one expansion: it has the start
    /// label and the pack of `self`, has gathered what one expansion leads to,
    /// and knows whether the packet gave a rule.
    pub open spec fn expanded_to(&self, after: &Self) -> bool {
        let packet = self.next_packet();
        &&& !self.drained()
        &&& after.start_label() == self.start_label()
        &&& after.pack() == self.pack()
        &&& exists|rules: Seq<Rule<F::StrategyType>>|
            {
                &&& #[trigger] self.pack().factories()[packet.factory_index as int].yields(
                    &self.classes()[packet.class_label as int],
                    rules,
                )
                &&& after.last_created() == Some(rules.len() > 0)
                &&& takes_rules(self.handed_out(), rules, after.state(), self.pack())
            }
    }

    /// Whether `after` is the searcher after its rule store was asked for a
    /// specification: all is as in `self` but the store, which was asked.
    pub open spec fn asked_to(&self, after: &Self) -> bool {
        &&& after.start_label() == self.start_label()
        &&& after.pack() == self.pack()
        &&& after.classes() == self.classes()
        &&& after.queue() == self.queue()
        &&& after.last_created() == self.last_created()
        &&& after.ruledb().holds_after_asking(self.ruledb())
    }

    /// Whether `after` is the searcher after a look for the next packet that
    /// found none: all is as in `self` but the queue, which was emptied.
    pub open spec fn emptied_to(&self, after: &Self) -> bool {
        &&& self.drained()
        &&& after.start_label() == self.start_label()
        &&& after.pack() == self.pack()
        &&& after.classes() == self.classes()
        &&& after.ruledb() == self.ruledb()
        &&& after.last_created() == self.last_created()
        &&& after.queue() == self.emptied_queue()
    }

    /// Whether `after` is the searcher after a round that found nothing: one
    /// expansion, after which the rule store was asked for a specification of
    /// the start class and gave none.
    pub open spec fn round(&self, after: &Self) -> bool {
        exists|mid: Self| #[trigger]
            self.expanded_to(&mid) && mid.ruledb().gives_up(mid.start_label(), mid.classes())
                && mid.asked_to(after)
    }

    /// Whether `after` is the searcher after a round that found `spec`: one
    /// expansion, after which the rule store was asked for a specification of
    /// the start class and gave `spec`.
    pub open spec fn found_in_round(
        &self,
        after: &Self,
        spec: CombinatorialSpecification<F::StrategyType>,
    ) -> bool {
        exists|mid: Self| #[trigger]
            self.expanded_to(&mid) && mid.ruledb().specifies(
                mid.start_label(),
                mid.classes(),
                spec,
            ) && mid.asked_to(after)
    }

    /// Whether `heads` are the searchers at the beginning of the rounds of a
    /// search that starts from `self`, asks for at most `max_expansions`
    /// expansions and ends in `after` with `found`. Each round but the last
    /// finds nothing. The search ends with the first specification found, at
    /// a queue that has run dry, which it empties, or when the expansions
    /// asked for are done.
    pub open spec fn searched(
        &self,
        max_expansions: usize,
        after: &Self,
        found: Result<CombinatorialSpecification<F::StrategyType>, SpecificationNotFoundError>,
        heads: Seq<Self>,
    ) -> bool {
        let last = heads[heads.len() - 1];
        &&& 0 < heads.len() <= max_expansions + 1
        &&& heads[0] == *self
        &&& forall|k: int| 0 <= k < heads.len() - 1 ==> (#[trigger] heads[k]).round(&heads[k + 1])
        &&& match found {
            Ok(spec) => heads.len() <= max_expansions && last.found_in_round(after, spec),
            Err(_) => if heads.len() <= max_expansions {
                last.emptied_to(after)
            } else {
                *after == last
            },
        }
    }

    /// Whether the classes of `rule` are among `classes`.
    pub open spec fn knows(classes: Seq<F::ClassType>, rule: Rule<F::StrategyType>) -> bool {
        &&& classdb::holds(classes, rule.parent())
        &&& forall|k: int|
            0 <= k < rule.children().len() ==> classdb::holds(classes, #[trigger] rule.children()[k])
    }

    /// How a search that handed out `handed` packets and ended with `found`
    /// fared after its first expansion, which led to `first`: where the search
    /// ended there with a specification, the store of `first` specifies it;
    /// where it went on or failed, that store gave up.
    pub open spec fn asked_first(
        first: SearchState<F, R>,
        root: usize,
        found: Result<CombinatorialSpecification<F::StrategyType>, SpecificationNotFoundError>,
        handed: int,
    ) -> bool {
        match found {
            Ok(spec) => if handed == 1 {
                first.ruledb.specifies(root, first.classes, spec)
            } else {
                first.ruledb.gives_up(root, first.classes)
            },
            Err(_) => first.ruledb.gives_up(root, first.classes),
        }
    }

    /// Expands until the rule store gives a specification, the queue runs
    /// dry, or more packets were handed out than a machine can count.
    pub fn auto_search(&mut self) -> (found: Result<
        CombinatorialSpecification<F::StrategyType>,
        SpecificationNotFoundError,
    >)
        requires
            old(self).wf(),
        ensures
            final(self).wf(),
            final(self).start_label() == old(self).start_label(),
            final(self).pack() == old(self).pack(),
            classdb::begins_with(final(self).classes(), old(self).classes()),
            found matches Ok(spec) ==> final(self).ruledb().specifies(
                final(self).start_label(),
                final(self).classes(),
                spec,
            ),
            found.is_err() ==> final(self).drained() || final(self).queue().yielded.len()
                == old(self).queue().yielded.len() + usize::MAX,
            found.is_ok() ==> final(self).queue().yielded.len() > old(self).queue().yielded.len(),
            old(self).drained() ==> {
                &&& found.is_err()
                &&& final(self).classes() == old(self).classes()
                &&& final(self).ruledb() == old(self).ruledb()
                &&& final(self).last_created() == old(self).last_created()
                &&& final(self).queue() == old(self).emptied_queue()
            },
            !old(self).drained() ==> exists|first: SearchState<F, R>| #[trigger]
                old(self).expands_to(first) && Self::asked_first(
                    first,
                    old(self).start_label(),
                    found,
                    final(self).queue().yielded.len() - old(self).queue().yielded.len(),
                ),
            exists|heads: Seq<Self>| #[trigger]
                old(self).searched(usize::MAX, final(self), found, heads),
    {
        self.search(usize::MAX)
    }

    /// Expands at most `max_expansions` times, and asks the rule store for a
    /// specification after each. Gives up when the queue runs dry: a queue
    /// that is dry at the call gives an error and leaves the classes and the
    /// rules as they are.
    pub fn search(&mut self, max_expansions: usize) -> (found: Result<
        CombinatorialSpecification<F::StrategyType>,
        SpecificationNotFoundError,
    >)
        requires
            old(self).wf(),
        ensures
            final(self).wf(),
            final(self).start_label() == old(self).start_label(),
            final(self).pack() == old(self).pack(),
            classdb::begins_with(final(self).classes(), old(self).classes()),
            final(self).queue().yielded.len() <= old(self).queue().yielded.len() + max_expansions,
            found matches Ok(spec) ==> final(self).ruledb().specifies(
                final(self).start_label(),
                final(self).classes(),
                spec,
            ),
            found.is_err() ==> final(self).drained() || final(self).queue().yielded.len()
                == old(self).queue().yielded.len() + max_expansions,
            found.is_ok() ==> final(self).queue().yielded.len() > old(self).queue().yielded.len(),
            max_expansions == 0 ==> found.is_err() && final(self).state() == old(self).state()
                && final(self).last_created() == old(self).last_created(),
            old(self).drained() ==> found.is_err(),
            max_expansions > 0 && !old(self).drained() ==> exists|first: SearchState<F, R>| #[trigger]
                old(self).expands_to(first) && Self::asked_first(
                    first,
                    old(self).start_label(),
                    found,
                    final(self).queue().yielded.len() - old(self).queue().yielded.len(),
                ),
            old(self).drained() && max_expansions > 0 ==> {
                &&& final(self).classes() == old(self).classes()
                &&& final(self).ruledb() == old(self).ruledb()
                &&& final(self).last_created() == old(self).last_created()
                &&& final(self).queue() == old(self).emptied_queue()
            },
            exists|heads: Seq<Self>| #[trigger]
                old(self).searched(max_expansions, final(self), found, heads),
    {
        let mut expansions: usize = 0;
        let ghost mut first: SearchState<F, R> = self.state();
        let ghost mut heads: Seq<Self> = seq![*self];
        proof {
            classdb::lemma_begins_with_itself(self.classdb@);
        }
        while expansions < max_expansions
            invariant
                heads.len() == expansions + 1,
                heads[0] == *old(self),
                heads[expansions as int] == *self,
                forall|k: int| 0 <= k < expansions ==> (#[trigger] heads[k]).round(&heads[k + 1]),
                expansions > 0 ==> old(self).expands_to(first) && first.ruledb.gives_up(
                    old(self).start_label,
                    first.classes,
                ),
                self.wf(),
                expansions <= max_expansions,
                self.start_label == old(self).start_label,
                self.queue.pack() == old(self).queue.pack(),
                classdb::begins_with(self.classdb@, old(self).classdb@),
                self.queue@.yielded.len() == old(self).queue@.yielded.len() + expansions,
                expansions == 0 ==> *self == *old(self),
                expansions > 0 ==> !old(self).drained(),
            decreases max_expansions - expansions,
        {
            let ghost before = self.classdb@;
            let ghost head = *self;
            if !self.expand_once() {
                proof {
                    classdb::lemma_begins_with(self.classdb@, before, old(self).classdb@);
                    assert(old(self).searched(
                        max_expansions,
                        self,
                        Err(SpecificationNotFoundError {  }),
                        heads,
                    ));
                }
                return Err(SpecificationNotFoundError {  });
            }
            proof {
                classdb::lemma_begins_with(self.classdb@, before, old(self).classdb@);
            }
            let ghost reached = self.state();
            let ghost mid = *self;
            match self.ruledb.get_specification(self.start_label, &self.classdb) {
                Ok(spec) => {
                    proof {
                        if expansions == 0 {
                            assert(old(self).expands_to(reached) && Self::asked_first(
                                reached,
                                old(self).start_label(),
                                Ok(spec),
                                1,
                            ));
                        }
                        assert(head.expanded_to(&mid) && mid.ruledb().specifies(
                            mid.start_label(),
                            mid.classes(),
                            spec,
                        ) && mid.asked_to(self));
                        assert(head.found_in_round(self, spec));
                        assert(old(self).searched(max_expansions, self, Ok(spec), heads));
                    }
                    return Ok(spec);
                },
                Err(_) => {
                    proof {
                        if expansions == 0 {
                            first = reached;
                        }
                        assert(head.expanded_to(&mid) && mid.ruledb().gives_up(
                            mid.start_label(),
                            mid.classes(),
                        ) && mid.asked_to(self));
                        assert(head.round(self));
                    }
                },
            }
            proof {
                let longer = heads.push(*self);
                assert forall|k: int| 0 <= k < expansions + 1 implies (#[trigger] longer[k]).round(
                    &longer[k + 1],
                ) by {
                    if k < expansions {
                        assert(longer[k] == heads[k] && longer[k + 1] == heads[k + 1]);
                        assert(heads[k].round(&heads[k + 1]));
                    }
                }
                heads = longer;
            }
            expansions += 1;
        }
        proof {
            assert(old(self).searched(
                max_expansions,
                self,
                Err(SpecificationNotFoundError {  }),
                heads,
            ));
        }
        Err(SpecificationNotFoundError {  })
    }

    /// Takes the next packet from the queue, applies its factory to its class
    /// and takes in the rules this gives: their classes get labels, their
    /// children go into the queue, and the rules into the rule store. Tells
    /// whether there was a packet.
    pub fn expand_once(&mut self) -> (expanded: bool)
        requires
            old(self).wf(),
        ensures
            final(self).wf(),
            final(self).start_label() == old(self).start_label(),
            final(self).pack() == old(self).pack(),
            classdb::begins_with(final(self).classes(), old(self).classes()),
            expanded == !old(self).drained(),
            !expanded ==> final(self).classes() == old(self).classes() && final(self).ruledb()
                == old(self).ruledb() && final(self).last_created() == old(self).last_created()
                && final(self).queue() == old(self).emptied_queue() && final(self).drained(),
            expanded ==> {
                let packet = old(self).next_packet();
                &&& final(self).queue().yielded == old(self).queue().yielded.push(packet)
                &&& final(self).queue().last == Some(packet)
                &&& packet.class_label < old(self).classes().len()
                &&& packet.factory_index < old(self).pack().factories().len()
                &&& exists|rules: Seq<Rule<F::StrategyType>>|
                    {
                        &&& #[trigger] old(self).pack().factories()[packet.factory_index as int].yields(
                            &old(self).classes()[packet.class_label as int],
                            rules,
                        )
                        &&& final(self).last_created() == Some(rules.len() > 0)
                        &&& forall|j: int|
                            0 <= j < rules.len() ==> Self::knows(
                                final(self).classes(),
                                #[trigger] rules[j],
                            )
                        &&& takes_rules(
                            old(self).handed_out(),
                            rules,
                            final(self).state(),
                            old(self).pack(),
                        )
                    }
            },
            expanded ==> old(self).expands_to(final(self).state()) && old(self).expanded_to(
                final(self),
            ),
            !expanded ==> old(self).emptied_to(final(self)),
    {
        proof {
            classdb::lemma_begins_with_itself(self.classdb@);
        }
        let ghost n = queue::ignored_prefix(
            old(self).queue@.scheduled(),
            old(self).queue@.ignore_after(old(self).last_wp_created_rule, old(self).queue.pack()),
        );
        let wp = match self.queue.next(self.last_wp_created_rule) {
            Some(wp) => wp,
            None => {
                proof {
                    queue::lemma_without_front(old(self).queue@, n);
                    assert(self.queue@.scheduled() =~= Seq::<queue::WorkPacketInternal>::empty());
                }
                return false;
            },
        };
        let ghost packet = old(self).queue@.scheduled()[n];
        proof {
            assert(old(self).queue@.added.contains(packet.class_label));
        }
        let class = match self.classdb.get_class_from_label(wp.class_label) {
            Some(class) => class,
            None => {
                assert(false);
                return false;
            },
        };
        let mut rules = wp.factory.apply(class);
        let ghost all = rules@;
        let ghost taken = self.state();
        let ghost mut stages: Seq<SearchState<F, R>> = seq![taken];
        proof {
            assert(wp.factory.yields(class, all));
            assert(*wp.factory == old(self).pack().factories()[packet.factory_index as int]);
            assert(*class == old(self).classes()[packet.class_label as int]);
            assert(old(self).pack().factories()[packet.factory_index as int].yields(
                &old(self).classes()[packet.class_label as int],
                all,
            ));
        }
        self.last_wp_created_rule = Some(false);
        let ghost mut done: int = 0;
        while rules.len() > 0
            invariant
                self.wf(),
                self.start_label == old(self).start_label,
                self.queue.pack() == old(self).queue.pack(),
                classdb::begins_with(self.classdb@, old(self).classdb@),
                self.queue@.yielded == old(self).queue@.yielded.push(packet),
                self.queue@.last == Some(packet),
                0 <= done <= all.len(),
                rules@ == all.skip(done),
                self.last_wp_created_rule == Some(done > 0),
                takes_along(taken, all.take(done), self.state(), self.queue.pack(), stages),
                forall|j: int| 0 <= j < done ==> Self::knows(self.classdb@, #[trigger] all[j]),
            decreases rules.len(),
        {
            let ghost before = self.classdb@;
            let ghost state_before = self.state();
            let rule = rules.remove(0);
            proof {
                assert(rule == all[done]);
                assert(rules@ =~= all.skip(done + 1));
            }
            self.add_rule(rule);
            proof {
                let longer = stages.push(self.state());
                assert forall|k: int| 0 <= k < done + 1 implies takes_rule(
                    #[trigger] longer[k],
                    all.take(done + 1)[k],
                    longer[k + 1],
                    self.queue.pack(),
                ) by {
                    if k < done {
                        assert(longer[k] == stages[k]);
                        assert(longer[k + 1] == stages[k + 1]);
                        assert(all.take(done + 1)[k] == all.take(done)[k]);
                    }
                }
                stages = longer;
            }
            self.last_wp_created_rule = Some(true);
            proof {
                classdb::lemma_begins_with(self.classdb@, before, old(self).classdb@);
                assert forall|j: int| 0 <= j < done + 1 implies Self::knows(
                    self.classdb@,
                    #[trigger] all[j],
                ) by {
                    if j < done {
                        assert(Self::knows(before, all[j]));
                        classdb::lemma_label_is_stable(before, self.classdb@, all[j].parent());
                        assert forall|k: int| 0 <= k < all[j].children().len() implies classdb::holds(
                            self.classdb@,
                            #[trigger] all[j].children()[k],
                        ) by {
                            classdb::lemma_label_is_stable(
                                before,
                                self.classdb@,
                                all[j].children()[k],
                            );
                        }
                    }
                }
                done = done + 1;
            }
        }
        proof {
            assert(all.take(done) =~= all);
            assert(packet == old(self).next_packet());
            assert(self.queue().yielded == old(self).queue().yielded.push(packet));
            assert(self.queue().last == Some(packet));
            assert(packet.class_label < old(self).classes().len());
            assert(packet.factory_index < old(self).pack().factories().len());
            assert(all.skip(done).len() == 0);
            assert(old(self).pack().factories()[packet.factory_index as int].yields(
                &old(self).classes()[packet.class_label as int],
                all,
            ) && self.last_created() == Some(all.len() > 0) && (forall|j: int|
                0 <= j < all.len() ==> Self::knows(self.classes(), #[trigger] all[j]))
                && takes_along(taken, all, self.state(), old(self).pack(), stages));
        }
        true
    }

    /// Gives the classes of `rule` labels, puts the children in the queue and
    /// the rule in the rule store.
    fn add_rule(&mut self, rule: Rule<F::StrategyType>)
        requires
            old(self).wf(),
        ensures
            final(self).wf(),
            final(self).start_label == old(self).start_label,
            final(self).queue.pack() == old(self).queue.pack(),
            final(self).queue@.yielded == old(self).queue@.yielded,
            final(self).queue@.last == old(self).queue@.last,
            final(self).last_wp_created_rule == old(self).last_wp_created_rule,
            classdb::begins_with(final(self).classdb@, old(self).classdb@),
            Self::knows(final(self).classdb@, rule),
            takes_rule(old(self).state(), rule, final(self).state(), old(self).queue.pack()),
    {
        let ghost wanted = seq![rule.parent()] + rule.children();
        let start = self.classdb.get_label_from_class_or_add(rule.get_parent());
        let ghost mut stages: Seq<Seq<F::ClassType>> = seq![old(self).classdb@, self.classdb@];
        proof {
            assert(wanted.take(1)[0] == rule.parent());
        }
        let children = rule.get_children();
        let mut ends: Vec<usize> = Vec::new();
        let mut i: usize = 0;
        while i < children.len()
            invariant
                i <= children.len(),
                children@ == rule.children(),
                self.classdb.wf(),
                self.queue == old(self).queue,
                self.ruledb == old(self).ruledb,
                self.start_label == old(self).start_label,
                self.last_wp_created_rule == old(self).last_wp_created_rule,
                classdb::begins_with(self.classdb@, old(self).classdb@),
                classdb::holds(self.classdb@, rule.parent()),
                forall|k: int| 0 <= k < i ==> classdb::holds(self.classdb@, #[trigger] children@[k]),
                forall|k: int| 0 <= k < ends@.len() ==> #[trigger] ends@[k] < self.classdb@.len(),
                wanted == seq![rule.parent()] + rule.children(),
                classdb::interned_along(
                    old(self).classdb@,
                    wanted.take(i + 1),
                    self.classdb@,
                    stages,
                ),
                start == classdb::label_of(self.classdb@, rule.parent()),
                ends@.len() == i,
                forall|k: int|
                    0 <= k < i ==> #[trigger] ends@[k] == classdb::label_of(
                        self.classdb@,
                        children@[k],
                    ),
            decreases children.len() - i,
        {
            let ghost before = self.classdb@;
            let label = self.classdb.get_label_from_class_or_add(&children[i]);
            proof {
                classdb::lemma_begins_with(self.classdb@, before, old(self).classdb@);
                classdb::lemma_label_is_stable(before, self.classdb@, rule.parent());
                assert forall|k: int| 0 <= k < i + 1 implies classdb::holds(
                    self.classdb@,
                    #[trigger] children@[k],
                ) by {
                    if k < i {
                        classdb::lemma_label_is_stable(before, self.classdb@, children@[k]);
                    }
                }
                assert forall|k: int| 0 <= k < i implies #[trigger] ends@[k] == classdb::label_of(
                    self.classdb@,
                    children@[k],
                ) by {
                    classdb::lemma_label_is_stable(before, self.classdb@, children@[k]);
                }
                let longer = stages.push(self.classdb@);
                assert(wanted.take(i + 2)[i + 1] == children@[i as int]);
                assert forall|k: int| 0 <= k < i + 2 implies classdb::interned(
                    #[trigger] longer[k],
                    wanted.take(i + 2)[k],
                    longer[k + 1],
                ) by {
                    if k < i + 1 {
                        assert(longer[k] == stages[k]);
                        assert(longer[k + 1] == stages[k + 1]);
                        assert(wanted.take(i + 2)[k] == wanted.take(i + 1)[k]);
                    }
                }
                stages = longer;
            }
            ends.push(label);
            i += 1;
        }
        let ghost known = self.classdb@;
        proof {
            assert(wanted.take(i + 1) =~= wanted);
            assert(ends@ =~= classdb::labels_of(known, rule.children()));
        }
        let mut k: usize = 0;
        while k < ends.len()
            invariant
                k <= ends.len(),
                self.classdb@ == known,
                self.queue@ == queue::with_classes(
                    old(self).queue@,
                    ends@.take(k as int),
                    old(self).queue.pack(),
                ),
                self.classdb.wf(),
                self.queue.wf(),
                self.queue.pack() == old(self).queue.pack(),
                self.queue@.last == old(self).queue@.last,
                self.queue@.yielded == old(self).queue@.yielded,
                self.ruledb == old(self).ruledb,
                self.start_label == old(self).start_label,
                self.last_wp_created_rule == old(self).last_wp_created_rule,
                classdb::begins_with(self.classdb@, old(self).classdb@),
                Self::knows(self.classdb@, rule),
                forall|n: int| 0 <= n < ends@.len() ==> #[trigger] ends@[n] < self.classdb@.len(),
                forall|l: usize| #[trigger]
                    self.queue@.added.contains(l) ==> l < self.classdb@.len(),
            decreases ends.len() - k,
        {
            self.queue.add(ends[k]);
            k += 1;
            proof {
                assert(ends@.take(k as int).drop_last() =~= ends@.take(k - 1));
            }
        }
        let ghost labels = ends@;
        proof {
            assert(labels.take(k as int) =~= labels);
        }
        self.ruledb.add(start, ends, rule);
        proof {
            let ends = classdb::labels_of(self.classdb@, rule.children());
            assert(labels == ends);
            assert(classdb::interned_along(old(self).classdb@, wanted, self.classdb@, stages));
            assert(classdb::interned_all(old(self).classdb@, wanted, self.classdb@));
            assert(self.queue@ == queue::with_classes(old(self).queue@, ends, old(self).queue.pack()));
            assert(self.ruledb.holds_after_add(
                old(self).ruledb,
                classdb::label_of(self.classdb@, rule.parent()) as usize,
                ends,
                rule,
            ));
        }
    }
}

} // verus!
