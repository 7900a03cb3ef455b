//! A rule store that prunes the rules that lead nowhere and picks a proof
//! tree at random among the rest.

use crate::errors::SpecificationNotFoundError;
use crate::pack::{Rule, Strategy};
use crate::searcher::classdb::ClassDB;
use crate::searcher::equiv_db::{is_path, linked, EquivDB};
use crate::searcher::ruledb::{
    lemma_sorted_holds_the_same, lemma_sorted_labels, sorted_labels, RuleDB, RuleLabel,
};
use crate::specification::CombinatorialSpecification;
use rand::seq::SliceRandom;
use rand::thread_rng;
use std::collections::{HashMap, HashSet, VecDeque};
use vstd::prelude::*;

verus! {

broadcast use vstd::std_specs::hash::group_hash_axioms;

/// A rule as a value: the parent and the children.
pub type RuleView = (usize, Seq<usize>);

/// The views of `rules`.
pub open spec fn views(rules: Seq<RuleLabel>) -> Seq<RuleView> {
    rules.map_values(|rule: RuleLabel| rule@)
}

/// Whether a rule of `rules` at a position of `chosen` has the parent `label`.
pub open spec fn has_parent(rules: Seq<RuleView>, chosen: Set<int>, label: usize) -> bool {
    exists|j: int| chosen.contains(j) && 0 <= j < rules.len() && (#[trigger] rules[j]).0 == label
}

/// Whether each child of the rule at `i` is the parent of a rule of `chosen`.
pub open spec fn children_covered(rules: Seq<RuleView>, chosen: Set<int>, i: int) -> bool {
    forall|k: int|
        0 <= k < rules[i].1.len() ==> has_parent(rules, chosen, #[trigger] rules[i].1[k])
}

/// Whether the rules at the positions of `chosen` stand on their own: each
/// child of each of them is the parent of one of them.
pub open spec fn self_contained(rules: Seq<RuleView>, chosen: Set<int>) -> bool {
    forall|i: int| #[trigger]
        chosen.contains(i) ==> 0 <= i < rules.len() && children_covered(rules, chosen, i)
}

/// Whether the rule at `i` survives pruning: it belongs to a set of rules
/// that stands on its own.
pub open spec fn survives(rules: Seq<RuleView>, i: int) -> bool {
    exists|chosen: Set<int>| self_contained(rules, chosen) && #[trigger] chosen.contains(i)
}

/// The rules among the first `n` of `rules` that survive pruning and have
/// the parent `parent`, in order.
pub open spec fn surviving_for(rules: Seq<RuleView>, n: int, parent: usize) -> Seq<RuleView>
    decreases n,
{
    if n <= 0 {
        Seq::empty()
    } else {
        let front = surviving_for(rules, n - 1, parent);
        if survives(rules, n - 1) && rules[n - 1].0 == parent {
            front.push(rules[n - 1])
        } else {
            front
        }
    }
}

/// What `surviving_for` holds: the surviving rules with that parent.
pub proof fn lemma_surviving_for(rules: Seq<RuleView>, n: int, parent: usize)
    requires
        0 <= n <= rules.len(),
    ensures
        forall|j: int|
            0 <= j < surviving_for(rules, n, parent).len() ==> exists|i: int|
                0 <= i < n && survives(rules, i) && #[trigger] rules[i] == #[trigger] surviving_for(
                    rules,
                    n,
                    parent,
                )[j] && rules[i].0 == parent,
        forall|i: int|
            0 <= i < n && survives(rules, i) && (#[trigger] rules[i]).0 == parent
                ==> surviving_for(rules, n, parent).contains(rules[i]),
    decreases n,
{
    if n > 0 {
        lemma_surviving_for(rules, n - 1, parent);
        let front = surviving_for(rules, n - 1, parent);
        let all = surviving_for(rules, n, parent);
        assert forall|j: int| 0 <= j < all.len() implies exists|i: int|
            0 <= i < n && survives(rules, i) && #[trigger] rules[i] == #[trigger] all[j]
                && rules[i].0 == parent by {
            if j < front.len() {
                let i = choose|i: int|
                    0 <= i < n - 1 && survives(rules, i) && #[trigger] rules[i] == front[j]
                        && rules[i].0 == parent;
                assert(rules[i] == all[j]);
            } else {
                assert(rules[n - 1] == all[j]);
            }
        }
        assert forall|i: int|
            0 <= i < n && survives(rules, i) && (#[trigger] rules[i]).0
                == parent implies all.contains(rules[i]) by {
            if i < n - 1 {
                assert(front.contains(rules[i]));
                let j = choose|j: int| 0 <= j < front.len() && front[j] == rules[i];
                assert(all[j] == rules[i]);
            } else {
                assert(all[all.len() - 1] == rules[i]);
            }
        }
    }
}

/// Whether `rule` is a rule of `rules` that survives pruning.
pub open spec fn from_survivor(rules: Seq<RuleView>, rule: RuleView) -> bool {
    exists|i: int| 0 <= i < rules.len() && #[trigger] survives(rules, i) && rules[i] == rule
}

/// Pruning is stable: of rules that are exactly those that survive the
/// pruning of `rules`, in any order, all survive pruning.
pub proof fn lemma_pruning_is_stable(rules: Seq<RuleView>, kept: Seq<RuleView>)
    requires
        forall|j: int| 0 <= j < kept.len() ==> from_survivor(rules, #[trigger] kept[j]),
        forall|i: int|
            0 <= i < rules.len() && survives(rules, i) ==> kept.contains(#[trigger] rules[i]),
    ensures
        forall|j: int| 0 <= j < kept.len() ==> #[trigger] survives(kept, j),
{
    let all = Set::new(|j: int| 0 <= j < kept.len());
    assert forall|j: int| #[trigger] all.contains(j) implies 0 <= j < kept.len()
        && children_covered(kept, all, j) by {
        assert(from_survivor(rules, kept[j]));
        let i = choose|i: int|
            0 <= i < rules.len() && #[trigger] survives(rules, i) && rules[i] == kept[j];
        let chosen = choose|chosen: Set<int>|
            self_contained(rules, chosen) && #[trigger] chosen.contains(i);
        assert(children_covered(rules, chosen, i));
        assert forall|k: int| 0 <= k < kept[j].1.len() implies has_parent(
            kept,
            all,
            #[trigger] kept[j].1[k],
        ) by {
            assert(has_parent(rules, chosen, rules[i].1[k]));
            let m = choose|m: int|
                chosen.contains(m) && 0 <= m < rules.len() && (#[trigger] rules[m]).0
                    == rules[i].1[k];
            assert(survives(rules, m));
            assert(kept.contains(rules[m]));
            let t = choose|t: int| 0 <= t < kept.len() && kept[t] == rules[m];
            assert(all.contains(t) && kept[t].0 == kept[j].1[k]);
        }
    }
    assert(self_contained(kept, all));
    assert forall|j: int| 0 <= j < kept.len() implies #[trigger] survives(kept, j) by {
        assert(all.contains(j));
    }
}

/// How many entries of `flags` are set.
pub open spec fn count_set(flags: Seq<bool>) -> nat
    decreases flags.len(),
{
    if flags.len() == 0 {
        0
    } else {
        count_set(flags.drop_last()) + if flags.last() {
            1nat
        } else {
            0nat
        }
    }
}

proof fn lemma_count_clear(flags: Seq<bool>, i: int)
    requires
        0 <= i < flags.len(),
        flags[i],
    ensures
        count_set(flags.update(i, false)) + 1 == count_set(flags),
    decreases flags.len(),
{
    let after = flags.update(i, false);
    if i == flags.len() - 1 {
        assert(after.drop_last() =~= flags.drop_last());
    } else {
        assert(after.drop_last() =~= flags.drop_last().update(i, false));
        lemma_count_clear(flags.drop_last(), i);
    }
}

/// The positions whose flag is set.
pub open spec fn set_of(flags: Seq<bool>) -> Set<int> {
    Set::new(|i: int| 0 <= i < flags.len() && flags[i])
}

/// Whether every child of `rule` is in `keys`.
fn children_in(rule: &RuleLabel, keys: &HashSet<usize>) -> (all: bool)
    ensures
        all == forall|k: int| 0 <= k < rule@.1.len() ==> keys@.contains(#[trigger] rule@.1[k]),
{
    let children = rule.get_children();
    let mut k: usize = 0;
    while k < children.len()
        invariant
            k <= children.len(),
            children@ == rule@.1,
            forall|n: int| 0 <= n < k ==> keys@.contains(#[trigger] rule@.1[n]),
        decreases children.len() - k,
    {
        if !keys.contains(&children[k]) {
            return false;
        }
        k += 1;
    }
    true
}

/// Removes, again and again, the rules with a child that no remaining rule
/// has as parent, and groups what is left by parent.
pub fn prune(rules: Vec<RuleLabel>) -> (pruned: HashMap<usize, Vec<RuleLabel>>)
    ensures
        forall|p: usize|
            pruned@.contains_key(p) <==> surviving_for(
                views(rules@),
                rules@.len() as int,
                p,
            ).len() > 0,
        forall|p: usize| #[trigger]
            pruned@.contains_key(p) ==> views(pruned@[p]@) == surviving_for(
                views(rules@),
                rules@.len() as int,
                p,
            ),
{
    let ghost all = views(rules@);
    let n = rules.len();
    let mut alive: Vec<bool> = Vec::new();
    let mut i: usize = 0;
    while i < n
        invariant
            i <= n,
            alive@.len() == i,
            forall|j: int| 0 <= j < i ==> #[trigger] alive@[j],
        decreases n - i,
    {
        alive.push(true);
        i += 1;
    }
    let mut changed = true;
    while changed
        invariant
            n == rules@.len(),
            all == views(rules@),
            alive@.len() == n,
            forall|chosen: Set<int>, j: int|
                self_contained(all, chosen) && #[trigger] chosen.contains(j) ==> alive@[j],
            !changed ==> self_contained(all, set_of(alive@)),
        decreases
                count_set(alive@) + if changed {
                    1nat
                } else {
                    0nat
                },
    {
        changed = false;
        let ghost at_start = alive@;
        // The parents that still have a rule
        let mut keys: HashSet<usize> = HashSet::new();
        let mut i: usize = 0;
        while i < n
            invariant
                i <= n,
                n == rules@.len(),
                all == views(rules@),
                alive@.len() == n,
                forall|j: int|
                    0 <= j < i && alive@[j] ==> keys@.contains((#[trigger] all[j]).0),
                forall|p: usize|
                    keys@.contains(p) ==> exists|j: int|
                        0 <= j < i && alive@[j] && (#[trigger] all[j]).0 == p,
            decreases n - i,
        {
            if alive[i] {
                let ghost before = keys@;
                keys.insert(*rules[i].get_parent());
                proof {
                    assert(all[i as int] == rules@[i as int]@);
                    assert forall|p: usize| keys@.contains(p) implies exists|j: int|
                        0 <= j < i + 1 && alive@[j] && (#[trigger] all[j]).0 == p by {
                        if before.contains(p) {
                            let j = choose|j: int|
                                0 <= j < i && alive@[j] && (#[trigger] all[j]).0 == p;
                            assert(0 <= j < i + 1 && alive@[j] && all[j].0 == p);
                        } else {
                            assert(alive@[i as int] && all[i as int].0 == p);
                        }
                    }
                }
            }
            i += 1;
        }
        let mut i: usize = 0;
        while i < n
            invariant
                i <= n,
                n == rules@.len(),
                all == views(rules@),
                alive@.len() == n,
                at_start.len() == n,
                forall|j: int| 0 <= j < n && alive@[j] ==> at_start[j],
                forall|j: int| i <= j < n ==> alive@[j] == at_start[j],
                forall|j: int| 0 <= j < n && at_start[j] ==> keys@.contains((#[trigger] all[j]).0),
                forall|p: usize|
                    keys@.contains(p) ==> exists|j: int|
                        0 <= j < n && at_start[j] && (#[trigger] all[j]).0 == p,
                forall|chosen: Set<int>, j: int|
                    self_contained(all, chosen) && #[trigger] chosen.contains(j) ==> alive@[j],
                forall|j: int|
                    0 <= j < i && alive@[j] ==> forall|k: int|
                        0 <= k < all[j].1.len() ==> keys@.contains(#[trigger] all[j].1[k]),
                !changed ==> alive@ == at_start,
                changed ==> count_set(alive@) < count_set(at_start),
                count_set(alive@) <= count_set(at_start),
            decreases n - i,
        {
            if alive[i] {
                let fine = children_in(&rules[i], &keys);
                proof {
                    assert(all[i as int] == rules@[i as int]@);
                }
                if !fine {
                    let ghost before = alive@;
                    alive.set(i, false);
                    changed = true;
                    proof {
                        lemma_count_clear(before, i as int);
                        assert forall|chosen: Set<int>, j: int|
                            self_contained(all, chosen) && #[trigger] chosen.contains(
                                j,
                            ) implies alive@[j] by {
                            assert(before[j]);
                            if j == i {
                                assert(children_covered(all, chosen, j));
                                let k = choose|k: int|
                                    0 <= k < all[j].1.len() && !keys@.contains(
                                        #[trigger] all[j].1[k],
                                    );
                                assert(has_parent(all, chosen, all[j].1[k]));
                                let m = choose|m: int|
                                    chosen.contains(m) && 0 <= m < all.len() && (
                                    #[trigger] all[m]).0 == all[j].1[k];
                                assert(before[m]);
                                assert(at_start[m]);
                            }
                        }
                    }
                }
            }
            i += 1;
        }
        proof {
            if !changed {
                let chosen = set_of(alive@);
                assert forall|j: int| #[trigger] chosen.contains(j) implies 0 <= j < all.len()
                    && children_covered(all, chosen, j) by {
                    assert forall|k: int| 0 <= k < all[j].1.len() implies has_parent(
                        all,
                        chosen,
                        #[trigger] all[j].1[k],
                    ) by {
                        let p = all[j].1[k];
                        assert(keys@.contains(p));
                        let m = choose|m: int|
                            0 <= m < n && at_start[m] && (#[trigger] all[m]).0 == p;
                        assert(chosen.contains(m));
                    }
                }
            }
        }
    }
    proof {
        assert forall|j: int| 0 <= j < n implies (alive@[j] <==> survives(all, j)) by {
            if alive@[j] {
                assert(set_of(alive@).contains(j));
            }
            if survives(all, j) {
                let chosen = choose|chosen: Set<int>|
                    self_contained(all, chosen) && #[trigger] chosen.contains(j);
                assert(alive@[j]);
            }
        }
    }
    let mut pruned: HashMap<usize, Vec<RuleLabel>> = HashMap::new();
    let mut i: usize = 0;
    while i < n
        invariant
            i <= n,
            n == rules@.len(),
            all == views(rules@),
            alive@.len() == n,
            forall|j: int| 0 <= j < n ==> (alive@[j] <==> survives(all, j)),
            forall|p: usize|
                pruned@.contains_key(p) <==> surviving_for(all, i as int, p).len() > 0,
            forall|p: usize| #[trigger]
                pruned@.contains_key(p) ==> views(pruned@[p]@) == surviving_for(all, i as int, p),
        decreases n - i,
    {
        if alive[i] {
            let rule = rules[i].clone();
            let parent = *rule.get_parent();
            let ghost before = pruned@;
            let mut list = match pruned.remove(&parent) {
                Some(list) => list,
                None => Vec::new(),
            };
            let ghost prior = list@;
            list.push(rule);
            pruned.insert(parent, list);
            proof {
                assert(all[i as int] == rules@[i as int]@);
                assert(views(list@) =~= views(prior).push(rule@));
                assert(views(Seq::<RuleLabel>::empty()) =~= Seq::<RuleView>::empty());
                assert forall|p: usize|
                    pruned@.contains_key(p) <==> surviving_for(all, i + 1, p).len() > 0 by {
                    assert(before.contains_key(p) <==> surviving_for(all, i as int, p).len() > 0);
                }
                assert forall|p: usize| #[trigger] pruned@.contains_key(p) implies views(
                    pruned@[p]@,
                ) == surviving_for(all, i + 1, p) by {
                    if p != parent {
                        assert(before.contains_key(p));
                    } else if before.contains_key(p) {
                        assert(views(prior) == surviving_for(all, i as int, p));
                    }
                }
            }
        } else {
            proof {
                assert(all[i as int] == rules@[i as int]@);
            }
        }
        i += 1;
    }
    pruned
}

/// Each list of `rules_by_parent` holds rules with the parent it is listed
/// under.
pub open spec fn grouped(rules_by_parent: Map<usize, Vec<RuleLabel>>) -> bool {
    forall|p: usize, j: int|
        rules_by_parent.contains_key(p) && 0 <= j < rules_by_parent[p]@.len() ==> (
        #[trigger] rules_by_parent[p]@[j])@.0 == p
}

/// Each parent of `rules_by_parent` has a rule, and each child of each rule
/// is a parent.
pub open spec fn complete(rules_by_parent: Map<usize, Vec<RuleLabel>>) -> bool {
    &&& forall|p: usize| #[trigger]
        rules_by_parent.contains_key(p) ==> rules_by_parent[p]@.len() > 0
    &&& forall|p: usize, j: int, k: int|
        rules_by_parent.contains_key(p) && 0 <= j < rules_by_parent[p]@.len() && 0 <= k
            < rules_by_parent[p]@[j]@.1.len() ==> rules_by_parent.contains_key(
            #[trigger] rules_by_parent[p]@[j]@.1[k],
        )
}

/// Whether a rule of `rules` has the parent `label`.
pub open spec fn covered(rules: Seq<RuleView>, label: usize) -> bool {
    exists|j: int| 0 <= j < rules.len() && (#[trigger] rules[j]).0 == label
}

/// Whether each child of each rule of `rules` is the parent of a rule of
/// `rules`.
pub open spec fn closed(rules: Seq<RuleView>) -> bool {
    forall|j: int, k: int|
        0 <= j < rules.len() && 0 <= k < rules[j].1.len() ==> covered(
            rules,
            #[trigger] rules[j].1[k],
        )
}

/// Whether no two rules of `rules` have the same parent.
pub open spec fn one_rule_each(rules: Seq<RuleView>) -> bool {
    forall|a: int, b: int|
        0 <= a < rules.len() && 0 <= b < rules.len() && a != b ==> (#[trigger] rules[a]).0 != (
        #[trigger] rules[b]).0
}

/// Whether `tree` is a proof tree for `root` made of rules of
/// `rules_by_parent`: its first rule is one for `root`, each of its rules is
/// among the rules of its parent, no parent has two rules, and each child has
/// a rule.
pub open spec fn is_proof_tree(
    rules_by_parent: Map<usize, Vec<RuleLabel>>,
    root: usize,
    tree: Seq<RuleView>,
) -> bool {
    &&& tree.len() > 0
    &&& tree[0].0 == root
    &&& forall|j: int|
        0 <= j < tree.len() ==> rules_by_parent.contains_key((#[trigger] tree[j]).0) && views(
            rules_by_parent[tree[j].0]@,
        ).contains(tree[j])
    &&& one_rule_each(tree)
    &&& closed(tree)
}

/// Whether `child` is a child of a rule listed under `parent`.
pub open spec fn is_child_of(
    rules_by_parent: Map<usize, Vec<RuleLabel>>,
    parent: usize,
    child: usize,
) -> bool {
    rules_by_parent.contains_key(parent) && exists|j: int, k: int|
        0 <= j < rules_by_parent[parent]@.len() && 0 <= k < rules_by_parent[parent]@[j]@.1.len()
            && #[trigger] rules_by_parent[parent]@[j]@.1[k] == child
}

/// Whether `chain` leads from `root` to `label`, each label of it being a
/// child of a rule listed under the one before.
pub open spec fn leads(
    rules_by_parent: Map<usize, Vec<RuleLabel>>,
    root: usize,
    label: usize,
    chain: Seq<usize>,
) -> bool {
    &&& chain.len() > 0
    &&& chain[0] == root
    &&& chain[chain.len() - 1] == label
    &&& forall|t: int|
        0 <= t < chain.len() - 1 ==> is_child_of(rules_by_parent, #[trigger] chain[t], chain[t + 1])
}

/// Whether `label` can be reached from `root`: it is the root, or a child of
/// a rule listed under a label that can be reached.
pub open spec fn reachable(
    rules_by_parent: Map<usize, Vec<RuleLabel>>,
    root: usize,
    label: usize,
) -> bool {
    exists|chain: Seq<usize>| #[trigger] leads(rules_by_parent, root, label, chain)
}

/// Whether no rule is listed under `label`.
pub open spec fn dead_end(rules_by_parent: Map<usize, Vec<RuleLabel>>, label: usize) -> bool {
    !rules_by_parent.contains_key(label) || rules_by_parent[label]@.len() == 0
}

/// The children of the rules of a label that can be reached can be reached.
pub proof fn lemma_reach_child(
    rules_by_parent: Map<usize, Vec<RuleLabel>>,
    root: usize,
    parent: usize,
    child: usize,
)
    requires
        reachable(rules_by_parent, root, parent),
        is_child_of(rules_by_parent, parent, child),
    ensures
        reachable(rules_by_parent, root, child),
{
    let chain = choose|chain: Seq<usize>| #[trigger] leads(rules_by_parent, root, parent, chain);
    let longer = chain.push(child);
    assert forall|t: int| 0 <= t < longer.len() - 1 implies is_child_of(
        rules_by_parent,
        #[trigger] longer[t],
        longer[t + 1],
    ) by {
        if t < chain.len() - 1 {
            assert(is_child_of(rules_by_parent, chain[t], chain[t + 1]));
        }
    }
    assert(leads(rules_by_parent, root, child, longer));
}

/// `rand`'s `choose` on the rules, with the generator of the thread
/// (`thread_rng`): no rule where there is none to choose from, and else one
/// of the rules.
#[verifier::external_body]
fn choose_rule(rules: &Vec<RuleLabel>) -> (chosen: Option<&RuleLabel>)
    ensures
        match chosen {
            Some(rule) => exists|i: int| 0 <= i < rules@.len() && #[trigger] rules@[i] == *rule,
            None => rules@.len() == 0,
        },
{
    let mut rng = thread_rng();
    rules.choose(&mut rng)
}

proof fn lemma_covered_grows(rules: Seq<RuleView>, rule: RuleView, label: usize)
    ensures
        covered(rules, label) ==> covered(rules.push(rule), label),
        covered(rules.push(rule), rule.0),
{
    let more = rules.push(rule);
    if covered(rules, label) {
        let j = choose|j: int| 0 <= j < rules.len() && (#[trigger] rules[j]).0 == label;
        assert(more[j].0 == label);
    }
    assert(more[rules.len() as int].0 == rule.0);
}

/// Picks, breadth first from `root`, one rule at random for each class met.
pub fn random_proof_tree(rules_by_parent: &HashMap<usize, Vec<RuleLabel>>, root: usize) -> (found:
    Result<Vec<RuleLabel>, SpecificationNotFoundError>)
    requires
        grouped(rules_by_parent@),
    ensures
        found matches Ok(tree) ==> is_proof_tree(rules_by_parent@, root, views(tree@)),
        dead_end(rules_by_parent@, root) ==> found.is_err(),
        complete(rules_by_parent@) && rules_by_parent@.contains_key(root) ==> found.is_ok(),
        found.is_err() ==> exists|label: usize| #[trigger]
            reachable(rules_by_parent@, root, label) && dead_end(rules_by_parent@, label),
{
    let mut seen: HashSet<usize> = HashSet::new();
    let mut queue: VecDeque<usize> = VecDeque::new();
    let mut proof_tree_rules: Vec<RuleLabel> = Vec::new();
    queue.push_back(root);
    let ghost by_parent = rules_by_parent@;
    proof {
        assert(leads(by_parent, root, root, seq![root]));
    }
    loop
        invariant
            by_parent == rules_by_parent@,
            grouped(by_parent),
            by_parent.dom().finite(),
            seen@.finite(),
            seen@.subset_of(by_parent.dom()),
            forall|p: usize|
                seen@.contains(p) <==> covered(views(proof_tree_rules@), p),
            proof_tree_rules@.len() == 0 ==> queue@.len() > 0 && queue@[0] == root,
            proof_tree_rules@.len() > 0 ==> views(proof_tree_rules@)[0].0 == root,
            forall|j: int|
                0 <= j < proof_tree_rules@.len() ==> by_parent.contains_key(
                    (#[trigger] views(proof_tree_rules@)[j]).0,
                ) && views(by_parent[views(proof_tree_rules@)[j].0]@).contains(
                    views(proof_tree_rules@)[j],
                ),
            one_rule_each(views(proof_tree_rules@)),
            forall|j: int, k: int|
                0 <= j < proof_tree_rules@.len() && 0 <= k < views(proof_tree_rules@)[j].1.len()
                    ==> covered(
                    views(proof_tree_rules@),
                    #[trigger] views(proof_tree_rules@)[j].1[k],
                ) || queue@.contains(views(proof_tree_rules@)[j].1[k]),
            complete(by_parent) && by_parent.contains_key(root) ==> forall|n: int|
                0 <= n < queue@.len() ==> by_parent.contains_key(#[trigger] queue@[n]),
            forall|n: int| 0 <= n < queue@.len() ==> reachable(by_parent, root, #[trigger] queue@[n]),
        decreases by_parent.dom().len() - seen@.len(), queue@.len(),
    {
        let ghost tree = views(proof_tree_rules@);
        let ghost waiting = queue@;
        let ghost met = seen@;
        proof {
            vstd::set_lib::lemma_len_subset(met, by_parent.dom());
        }
        let parent = match queue.pop_front() {
            Some(parent) => parent,
            None => {
                proof {
                    assert forall|j: int, k: int|
                        0 <= j < tree.len() && 0 <= k < tree[j].1.len() implies covered(
                        tree,
                        #[trigger] tree[j].1[k],
                    ) by {
                        assert(!waiting.contains(tree[j].1[k]));
                    }
                }
                return Ok(proof_tree_rules);
            },
        };
        let ghost rest = queue@;
        proof {
            assert(waiting[0] == parent);
            assert forall|x: usize| waiting.contains(x) implies x == parent || rest.contains(x) by {
                let n = choose|n: int| 0 <= n < waiting.len() && waiting[n] == x;
                if n > 0 {
                    assert(rest[n - 1] == x);
                }
            }
            assert forall|n: int| 0 <= n < queue@.len() implies queue@[n] == waiting[n + 1] by {}
            assert(reachable(by_parent, root, waiting[0]));
        }
        if seen.contains(&parent) {
            proof {
                assert forall|j: int, k: int|
                    0 <= j < tree.len() && 0 <= k < tree[j].1.len() implies covered(
                    tree,
                    #[trigger] tree[j].1[k],
                ) || queue@.contains(tree[j].1[k]) by {
                    if tree[j].1[k] == parent {
                        assert(covered(tree, parent));
                    }
                }
            }
            continue ;
        } else {
            seen.insert(parent);
        }
        let rules_for_parent = match rules_by_parent.get(&parent) {
            Some(rules) => rules,
            None => {
                proof {
                    assert(reachable(by_parent, root, parent) && dead_end(by_parent, parent));
                }
                return Err(SpecificationNotFoundError {  });
            },
        };
        let chosen_rule_for_parent = match choose_rule(rules_for_parent) {
            Some(rule) => rule,
            None => {
                proof {
                    assert(reachable(by_parent, root, parent) && dead_end(by_parent, parent));
                }
                return Err(SpecificationNotFoundError {  });
            },
        };
        let ghost place = choose|i: int|
            0 <= i < rules_for_parent@.len() && #[trigger] rules_for_parent@[i]
                == *chosen_rule_for_parent;
        let children = chosen_rule_for_parent.get_children();
        let mut k: usize = 0;
        let ghost mid = queue@;
        while k < children.len()
            invariant
                k <= children.len(),
                queue@ == mid + children@.take(k as int),
            decreases children.len() - k,
        {
            queue.push_back(children[k]);
            k += 1;
            assert(queue@ =~= mid + children@.take(k as int));
        }
        let rule = chosen_rule_for_parent.clone();
        proof_tree_rules.push(rule);
        proof {
            let grown = views(proof_tree_rules@);
            assert(children@.take(k as int) =~= children@);
            assert(grown =~= tree.push(rule@));
            assert(rule@.0 == parent);
            assert(views(rules_for_parent@)[place] == rule@);
            assert forall|p: usize| seen@.contains(p) <==> covered(grown, p) by {
                lemma_covered_grows(tree, rule@, p);
                if covered(grown, p) && p != parent {
                    let j = choose|j: int| 0 <= j < grown.len() && (#[trigger] grown[j]).0 == p;
                    assert(tree[j].0 == p);
                }
            }
            assert forall|j: int| 0 <= j < grown.len() implies by_parent.contains_key(
                (#[trigger] grown[j]).0,
            ) && views(by_parent[grown[j].0]@).contains(grown[j]) by {
                if j < tree.len() {
                    assert(grown[j] == tree[j]);
                }
            }
            assert forall|a: int, b: int|
                0 <= a < grown.len() && 0 <= b < grown.len() && a != b implies (
            #[trigger] grown[a]).0 != (#[trigger] grown[b]).0 by {
                if a < tree.len() && b < tree.len() {
                    assert(grown[a] == tree[a] && grown[b] == tree[b]);
                } else if a < tree.len() {
                    assert(grown[a] == tree[a]);
                    assert(covered(tree, tree[a].0));
                } else {
                    assert(grown[b] == tree[b]);
                    assert(covered(tree, tree[b].0));
                }
            }
            assert forall|j: int, n: int|
                0 <= j < grown.len() && 0 <= n < grown[j].1.len() implies covered(
                grown,
                #[trigger] grown[j].1[n],
            ) || queue@.contains(grown[j].1[n]) by {
                let c = grown[j].1[n];
                if j < tree.len() {
                    assert(grown[j] == tree[j]);
                    assert(covered(tree, tree[j].1[n]) || waiting.contains(tree[j].1[n]));
                    lemma_covered_grows(tree, rule@, c);
                    if !covered(tree, c) && c != parent {
                        assert(waiting.contains(c));
                        assert(mid == rest);
                        assert(mid.contains(c));
                        let m = choose|m: int| 0 <= m < mid.len() && mid[m] == c;
                        assert(queue@[m] == c);
                    }
                } else {
                    assert(queue@[mid.len() + n] == c);
                }
            }
            if complete(by_parent) && by_parent.contains_key(root) {
                assert forall|n: int| 0 <= n < queue@.len() implies by_parent.contains_key(
                    #[trigger] queue@[n],
                ) by {
                    if n < mid.len() {
                        assert(queue@[n] == mid[n]);
                        assert(mid[n] == waiting[n + 1]);
                    } else {
                        assert(queue@[n] == rules_for_parent@[place]@.1[n - mid.len()]);
                    }
                }
            }
            assert forall|n: int| 0 <= n < queue@.len() implies reachable(
                by_parent,
                root,
                #[trigger] queue@[n],
            ) by {
                if n < mid.len() {
                    assert(queue@[n] == mid[n]);
                    assert(mid[n] == waiting[n + 1]);
                } else {
                    let c = n - mid.len();
                    assert(queue@[n] == rules_for_parent@[place]@.1[c]);
                    assert(by_parent[parent]@[place]@.1[c] == queue@[n]);
                    assert(is_child_of(by_parent, parent, queue@[n]));
                    lemma_reach_child(by_parent, root, parent, queue@[n]);
                }
            }
            assert(seen@.subset_of(by_parent.dom()));
            vstd::set_lib::lemma_len_subset(seen@, by_parent.dom());
        }
    }
}

/// Whether `list` holds `rule`.
fn contains_rule(list: &Vec<RuleLabel>, rule: &RuleLabel) -> (found: Option<usize>)
    ensures
        match found {
            Some(i) => i < list@.len() && views(list@)[i as int] == rule@,
            None => !views(list@).contains(rule@),
        },
{
    let mut i: usize = 0;
    while i < list.len()
        invariant
            i <= list.len(),
            forall|j: int| 0 <= j < i ==> views(list@)[j] != rule@,
        decreases list.len() - i,
    {
        if list[i] == *rule {
            return Some(i);
        }
        i += 1;
    }
    None
}

/// Adds `rule` to `list` unless `list` holds it.
fn push_unique(list: &mut Vec<RuleLabel>, rule: RuleLabel)
    requires
        views(old(list)@).no_duplicates(),
    ensures
        views(final(list)@).no_duplicates(),
        views(final(list)@) == if views(old(list)@).contains(rule@) {
            views(old(list)@)
        } else {
            views(old(list)@).push(rule@)
        },
{
    if contains_rule(list, &rule).is_none() {
        list.push(rule);
        proof {
            let before = views(old(list)@);
            let after = views(list@);
            assert(after =~= before.push(rule@));
            assert forall|a: int, b: int|
                0 <= a < after.len() && 0 <= b < after.len() && a != b implies after[a]
                != after[b] by {
                if a < before.len() {
                    assert(after[a] == before[a]);
                }
                if b < before.len() {
                    assert(after[b] == before[b]);
                }
            }
        }
    }
}

/// A store that holds, for each rule seen, the strategy it came from, and
/// finds a specification by pruning and picking rules at random.
pub struct SimpleRuleDB<S: Strategy> {
    rules: Vec<RuleLabel>,
    strategies: Vec<S>,
    equiv_db: EquivDB,
}

/// Whether `i` is the first position of `keys` whose rule is `target` up to
/// equivalence.
pub open spec fn is_first_match(keys: Seq<RuleView>, db: EquivDB, target: RuleView, i: int) -> bool {
    &&& 0 <= i < keys.len()
    &&& db.up_to_equivalence(keys[i]) == target
    &&& forall|j: int| 0 <= j < i ==> db.up_to_equivalence(#[trigger] keys[j]) != target
}

impl<S: Strategy> SimpleRuleDB<S> {
    /// The rules stored, in the order in which they came.
    pub closed spec fn keys(&self) -> Seq<RuleView> {
        views(self.rules@)
    }

    /// The strategy of each rule stored.
    pub closed spec fn strategies(&self) -> Seq<S> {
        self.strategies@
    }

    /// The equivalences found.
    pub closed spec fn equiv(&self) -> EquivDB {
        self.equiv_db
    }

    /// Each rule stored has a strategy, and no rule is stored twice.
    pub open spec fn valid(&self) -> bool {
        &&& self.keys().len() == self.strategies().len()
        &&& self.keys().no_duplicates()
        &&& self.equiv().wf()
    }

    /// The strategy stored for `key`.
    pub open spec fn strategy_of(&self, key: RuleView) -> Option<S> {
        if self.keys().contains(key) {
            Some(self.strategies()[self.keys().index_of(key)])
        } else {
            None
        }
    }

    /// A store without rules.
    pub fn new() -> (db: Self)
        ensures
            db.valid(),
            db.keys() == Seq::<RuleView>::empty(),
            db.equiv().edges() == Seq::<(usize, usize)>::empty(),
            forall|l: usize| #[trigger] db.equiv().root_of(l) == l,
    {
        let db = Self { rules: Vec::new(), strategies: Vec::new(), equiv_db: EquivDB::new() };
        assert(db.keys() =~= Seq::<RuleView>::empty());
        db
    }

    /// The strategy stored for `key`.
    pub fn get_strategy(&self, key: &RuleLabel) -> (strategy: Option<&S>)
        requires
            self.valid(),
        ensures
            match strategy {
                Some(s) => self.strategy_of(key@) == Some(*s),
                None => self.strategy_of(key@).is_none(),
            },
    {
        match contains_rule(&self.rules, key) {
            Some(i) => {
                proof {
                    let n = self.keys().index_of(key@);
                    assert(self.keys()[i as int] == key@);
                    assert(self.keys().contains(key@));
                    assert(self.keys()[n] == key@);
                }
                Some(&self.strategies[i])
            },
            None => None,
        }
    }

    /// The rules stored, each with its labels replaced by their
    /// representatives, and none twice.
    fn rule_up_to_equivalence(&mut self) -> (eqv_rules: Vec<RuleLabel>)
        requires
            old(self).valid(),
        ensures
            final(self).valid(),
            final(self).keys() == old(self).keys(),
            final(self).strategies() == old(self).strategies(),
            final(self).equiv().edges() == old(self).equiv().edges(),
            forall|l: usize| #[trigger] final(self).equiv().root_of(l) == old(self).equiv().root_of(l),
            views(eqv_rules@).no_duplicates(),
            forall|x: RuleView|
                views(eqv_rules@).contains(x) <==> exists|i: int|
                    0 <= i < old(self).keys().len() && old(self).equiv().up_to_equivalence(
                        #[trigger] old(self).keys()[i],
                    ) == x,
    {
        let mut eqv_rules: Vec<RuleLabel> = Vec::new();
        let ghost keys = self.keys();
        let ghost db = self.equiv_db;
        let mut i: usize = 0;
        assert(views(eqv_rules@) =~= Seq::<RuleView>::empty());
        while i < self.rules.len()
            invariant
                i <= self.rules.len(),
                self.rules == old(self).rules,
                self.strategies == old(self).strategies,
                keys == views(self.rules@),
                db == old(self).equiv_db,
                self.equiv_db.wf(),
                self.equiv_db.edges() == db.edges(),
                forall|l: usize| #[trigger] self.equiv_db.root_of(l) == db.root_of(l),
                views(eqv_rules@).no_duplicates(),
                forall|x: RuleView|
                    views(eqv_rules@).contains(x) <==> exists|j: int|
                        0 <= j < i && db.up_to_equivalence(#[trigger] keys[j]) == x,
            decreases self.rules.len() - i,
        {
            let ghost before = views(eqv_rules@);
            let ghost mid = self.equiv_db;
            let eqv_rule = self.equiv_db.rule_up_to_equivalence(&self.rules[i]);
            proof {
                mid.lemma_up_to_equivalence(&db, keys[i as int]);
                assert(keys[i as int] == self.rules@[i as int]@);
                assert forall|l: usize| #[trigger] self.equiv_db.root_of(l) == db.root_of(l) by {
                    assert(mid.root_of(l) == db.root_of(l));
                }
            }
            push_unique(&mut eqv_rules, eqv_rule);
            proof {
                let after = views(eqv_rules@);
                assert forall|x: RuleView| after.contains(x) <==> exists|j: int|
                    0 <= j < i + 1 && db.up_to_equivalence(#[trigger] keys[j]) == x by {
                    if before.contains(x) {
                        let j = choose|j: int|
                            0 <= j < i && db.up_to_equivalence(#[trigger] keys[j]) == x;
                        assert(0 <= j < i + 1 && db.up_to_equivalence(keys[j]) == x);
                        if after != before {
                            let k = choose|k: int| 0 <= k < before.len() && before[k] == x;
                            assert(after[k] == x);
                        }
                    }
                    if x == eqv_rule@ {
                        assert(db.up_to_equivalence(keys[i as int]) == x);
                        if after != before {
                            assert(after[before.len() as int] == x);
                        }
                    }
                    if after.contains(x) && !before.contains(x) {
                        let k = choose|k: int| 0 <= k < after.len() && after[k] == x;
                        if k < before.len() {
                            assert(before[k] == x);
                        }
                    }
                    if exists|j: int| 0 <= j < i + 1 && db.up_to_equivalence(#[trigger] keys[j]) == x {
                        let j = choose|j: int|
                            0 <= j < i + 1 && db.up_to_equivalence(#[trigger] keys[j]) == x;
                        if j < i {
                            assert(before.contains(x));
                        }
                    }
                }
            }
            i += 1;
        }
        eqv_rules
    }

    /// The first rule stored that is `eqv_rule` up to equivalence.
    fn find_rule_from_eqv_rule(&mut self, eqv_rule: &RuleLabel) -> (found: Option<RuleLabel>)
        requires
            old(self).valid(),
        ensures
            final(self).valid(),
            final(self).keys() == old(self).keys(),
            final(self).strategies() == old(self).strategies(),
            final(self).equiv().edges() == old(self).equiv().edges(),
            forall|l: usize| #[trigger] final(self).equiv().root_of(l) == old(self).equiv().root_of(l),
            match found {
                Some(rule) => exists|i: int|
                    is_first_match(old(self).keys(), old(self).equiv(), eqv_rule@, i) && rule@
                        == #[trigger] old(self).keys()[i],
                None => forall|i: int|
                    0 <= i < old(self).keys().len() ==> old(self).equiv().up_to_equivalence(
                        #[trigger] old(self).keys()[i],
                    ) != eqv_rule@,
            },
    {
        let ghost keys = self.keys();
        let ghost db = self.equiv_db;
        let mut i: usize = 0;
        while i < self.rules.len()
            invariant
                i <= self.rules.len(),
                self.rules == old(self).rules,
                self.strategies == old(self).strategies,
                keys == views(self.rules@),
                db == old(self).equiv_db,
                self.equiv_db.wf(),
                self.equiv_db.edges() == db.edges(),
                forall|l: usize| #[trigger] self.equiv_db.root_of(l) == db.root_of(l),
                forall|j: int| 0 <= j < i ==> db.up_to_equivalence(#[trigger] keys[j]) != eqv_rule@,
                old(self).valid(),
            decreases self.rules.len() - i,
        {
            let ghost mid = self.equiv_db;
            let candidate = self.equiv_db.rule_up_to_equivalence(&self.rules[i]);
            proof {
                mid.lemma_up_to_equivalence(&db, keys[i as int]);
                assert(keys[i as int] == self.rules@[i as int]@);
                assert forall|l: usize| #[trigger] self.equiv_db.root_of(l) == db.root_of(l) by {
                    assert(mid.root_of(l) == db.root_of(l));
                }
            }
            if *eqv_rule == candidate {
                let rule = self.rules[i].clone();
                proof {
                    assert(is_first_match(keys, db, eqv_rule@, i as int));
                }
                return Some(rule);
            }
            i += 1;
        }
        None
    }
}

impl<S: Strategy> RuleDB<S> for SimpleRuleDB<S> {
    open spec fn wf(&self) -> bool {
        self.valid()
    }

    open spec fn specifies(
        &self,
        root: usize,
        classes: Seq<S::ClassType>,
        spec: CombinatorialSpecification<S>,
    ) -> bool {
        exists|tree: Seq<RuleView>, labels: Seq<RuleView>|
            {
                &&& grows_from_survivors(self.keys(), self.equiv(), tree, root)
                &&& #[trigger] lifts(self.keys(), self.equiv(), tree, root, labels)
                &&& materialized(self.keys(), self.strategies(), classes, labels, root, spec)
            }
    }

    open spec fn gives_up(&self, root: usize, classes: Seq<S::ClassType>) -> bool {
        !root_survives(self.keys(), self.equiv(), root) || exists|tree: Seq<RuleView>| #[trigger]
            grows_from_survivors(self.keys(), self.equiv(), tree, root) && tree_blocked(
                self.keys(),
                self.equiv(),
                tree,
                root,
                classes.len() as int,
            )
    }

    open spec fn holds_after_asking(&self, before: Self) -> bool {
        &&& self.keys() == before.keys()
        &&& self.strategies() == before.strategies()
        &&& self.equiv().edges() == before.equiv().edges()
        &&& forall|l: usize| #[trigger] self.equiv().root_of(l) == before.equiv().root_of(l)
    }

    open spec fn holds_after_add(
        &self,
        before: Self,
        start: usize,
        ends: Seq<usize>,
        rule: Rule<S>,
    ) -> bool {
        let key = (start, sorted_labels(ends));
        &&& self.keys() == if before.keys().contains(key) {
            before.keys()
        } else {
            before.keys().push(key)
        }
        &&& self.strategy_of(key) == Some(rule.strategy())
        &&& forall|other: RuleView|
            other != key ==> #[trigger] self.strategy_of(other) == before.strategy_of(other)
        &&& if ends.len() == 1 && rule.strategy().is_equivalence_spec() {
            self.equiv().is_union_of(&before.equiv(), start, ends[0])
        } else {
            self.equiv() == before.equiv()
        }
    }

    fn add(&mut self, start: usize, ends: Vec<usize>, rule: Rule<S>)
        ensures
            final(self).keys() == if old(self).keys().contains((start, sorted_labels(ends@))) {
                old(self).keys()
            } else {
                old(self).keys().push((start, sorted_labels(ends@)))
            },
            final(self).strategy_of((start, sorted_labels(ends@))) == Some(rule.strategy()),
            forall|key: RuleView|
                key != (start, sorted_labels(ends@)) ==> #[trigger] final(self).strategy_of(key)
                    == old(self).strategy_of(key),
            if ends@.len() == 1 && rule.strategy().is_equivalence_spec() {
                final(self).equiv().is_union_of(&old(self).equiv(), start, ends@[0])
            } else {
                final(self).equiv() == old(self).equiv()
            },
    {
        if ends.len() == 1 && rule.is_equivalence() {
            self.equiv_db.union(start, ends[0]);
        }
        let key = RuleLabel::new(start, ends);
        let strategy = rule.get_strategy();
        let ghost before = old(self).keys();
        let ghost held = old(self).strategies();
        match contains_rule(&self.rules, &key) {
            Some(i) => {
                self.strategies[i] = strategy;
                proof {
                    assert(before[i as int] == key@);
                    assert(before.index_of(key@) == i);
                    assert forall|other: RuleView| other != key@ implies #[trigger] self.strategy_of(
                        other,
                    ) == old(self).strategy_of(other) by {
                        if before.contains(other) {
                            let n = before.index_of(other);
                            assert(before[n] == other);
                        }
                    }
                }
            },
            None => {
                self.rules.push(key);
                self.strategies.push(strategy);
                proof {
                    let after = self.keys();
                    assert(after =~= before.push(key@));
                    assert forall|a: int, b: int|
                        0 <= a < after.len() && 0 <= b < after.len() && a != b implies after[a]
                        != after[b] by {
                        if a < before.len() {
                            assert(after[a] == before[a]);
                        }
                        if b < before.len() {
                            assert(after[b] == before[b]);
                        }
                    }
                    assert(after[before.len() as int] == key@);
                    assert(after.index_of(key@) == before.len());
                    assert forall|other: RuleView| other != key@ implies #[trigger] self.strategy_of(
                        other,
                    ) == old(self).strategy_of(other) by {
                        if before.contains(other) {
                            let n = before.index_of(other);
                            assert(before[n] == other);
                            assert(after[n] == other);
                            assert(after.index_of(other) == n);
                        }
                        if after.contains(other) {
                            let n = after.index_of(other);
                            assert(after[n] == other);
                            assert(before[n] == other);
                        }
                    }
                }
            },
        }
    }

    fn get_specification(&mut self, root: usize, classdb: &ClassDB<S::ClassType>) -> (found: Result<
        CombinatorialSpecification<S>,
        SpecificationNotFoundError,
    >)
        ensures
            final(self).keys() == old(self).keys(),
            final(self).strategies() == old(self).strategies(),
            final(self).equiv().edges() == old(self).equiv().edges(),
            forall|l: usize| #[trigger] final(self).equiv().root_of(l) == old(self).equiv().root_of(l),
            !root_survives(old(self).keys(), old(self).equiv(), root) ==> found.is_err(),
            found.is_err() ==> !root_survives(old(self).keys(), old(self).equiv(), root)
                || exists|tree: Seq<RuleView>| #[trigger]
                grows_from_survivors(old(self).keys(), old(self).equiv(), tree, root)
                    && tree_blocked(
                    old(self).keys(),
                    old(self).equiv(),
                    tree,
                    root,
                    classdb@.len() as int,
                ),
    {
        let ghost keys = self.keys();
        let ghost db = self.equiv_db;
        let eqv_rules = self.rule_up_to_equivalence();
        let ghost distinct = views(eqv_rules@);
        let rules = prune(eqv_rules);
        let ghost mid = self.equiv_db;
        let eqv_root = self.equiv_db.find(root);
        let ghost db2 = self.equiv_db;
        proof {
            assert(eqv_root == db.root_of(root)) by {
                assert(mid.root_of(root) == db.root_of(root));
            }
            assert forall|l: usize| #[trigger] db2.root_of(l) == db.root_of(l) by {
                assert(mid.root_of(l) == db.root_of(l));
            }
            lemma_pruned_is_complete(distinct, rules@);
            lemma_root_survival(keys, db, distinct, rules@, root);
        }
        let eqv_specification_rules = match random_proof_tree(&rules, eqv_root) {
            Ok(tree) => tree,
            Err(error) => {
                return Err(error);
            },
        };
        let ghost tree = views(eqv_specification_rules@);
        let specification_rules = match self.eqv_specification_to_specification(
            eqv_specification_rules,
            root,
        ) {
            Ok(rules) => rules,
            Err(error) => {
                proof {
                    lemma_tree_lifts(keys, db, db2, distinct, rules@, tree, root);
                    lemma_tree_grows_from_survivors(keys, db, distinct, rules@, tree, root);
                    assert(grows_from_survivors(keys, db, tree, root) && tree_blocked(
                        keys,
                        db,
                        tree,
                        root,
                        classdb@.len() as int,
                    ));
                }
                return Err(error);
            },
        };
        let found = self.materialize(&specification_rules, root, classdb);
        proof {
            if found.is_ok() {
                let labels = views(specification_rules@);
                lemma_tree_grows_from_survivors(keys, db, distinct, rules@, tree, root);
                lemma_same_equivalences(keys, db, db2, tree, root, labels);
                lemma_same_equivalences(keys, db2, self.equiv_db, tree, root, labels);
                assert forall|l: usize| #[trigger] db.root_of(l) == db2.root_of(l) by {
                    assert(db2.root_of(l) == db.root_of(l));
                }
                lemma_same_equivalences(keys, db2, db, tree, root, labels);
                assert(grows_from_survivors(keys, db, tree, root) && lifts(
                    keys,
                    db,
                    tree,
                    root,
                    labels,
                ) && materialized(
                    old(self).keys(),
                    old(self).strategies(),
                    classdb@,
                    labels,
                    root,
                    found.unwrap(),
                ));
                assert(grows_from_survivors(self.keys(), self.equiv(), tree, root) && lifts(
                    self.keys(),
                    self.equiv(),
                    tree,
                    root,
                    labels,
                ) && materialized(
                    self.keys(),
                    self.strategies(),
                    classdb@,
                    labels,
                    root,
                    found.unwrap(),
                ));
            }
            if found.is_err() {
                let labels = views(specification_rules@);
                lemma_tree_grows_from_survivors(keys, db, distinct, rules@, tree, root);
                assert forall|l: usize| #[trigger] db.root_of(l) == db2.root_of(l) by {
                    assert(db2.root_of(l) == db.root_of(l));
                }
                lemma_same_equivalences(keys, db2, db, tree, root, labels);
                if root < classdb@.len() {
                    let j = choose|j: int|
                        0 <= j < labels.len() && !((#[trigger] labels[j]).0 < classdb@.len()
                            && keys.contains(labels[j]));
                    assert(keys.contains(labels[j]));
                    assert(labels[j].0 >= classdb@.len());
                }
                assert(lifts(keys, db, tree, root, labels) && label_unknown(
                    labels,
                    classdb@.len() as int,
                    root,
                ));
                assert(grows_from_survivors(keys, db, tree, root) && tree_blocked(
                    keys,
                    db,
                    tree,
                    root,
                    classdb@.len() as int,
                ));
            }
        }
        found
    }
}

/// Whether `tree` is a proof tree for the class of `root` made of rules of
/// the store that survive pruning, the rules taken up to equivalence.
pub open spec fn grows_from_survivors(
    keys: Seq<RuleView>,
    db: EquivDB,
    tree: Seq<RuleView>,
    root: usize,
) -> bool {
    &&& tree.len() > 0
    &&& tree[0].0 == db.root_of(root)
    &&& one_rule_each(tree)
    &&& closed(tree)
    &&& forall|j: int| 0 <= j < tree.len() ==> #[trigger] is_survivor(keys, db, tree[j])
}

/// Whether `rule` is a rule of the store up to equivalence that survives
/// pruning.
pub open spec fn is_survivor(keys: Seq<RuleView>, db: EquivDB, rule: RuleView) -> bool {
    exists|i: int|
        0 <= i < keys.len() && #[trigger] survives(quotient(keys, db), i) && quotient(keys, db)[i]
            == rule
}

/// A proof tree picked from what pruning left is made of survivors.
pub proof fn lemma_tree_grows_from_survivors(
    keys: Seq<RuleView>,
    db: EquivDB,
    distinct: Seq<RuleView>,
    pruned: Map<usize, Vec<RuleLabel>>,
    tree: Seq<RuleView>,
    root: usize,
)
    requires
        forall|x: RuleView|
            distinct.contains(x) <==> exists|i: int|
                0 <= i < keys.len() && db.up_to_equivalence(#[trigger] keys[i]) == x,
        forall|p: usize| #[trigger]
            pruned.contains_key(p) ==> views(pruned[p]@) == surviving_for(
                distinct,
                distinct.len() as int,
                p,
            ),
        is_proof_tree(pruned, db.root_of(root), tree),
    ensures
        grows_from_survivors(keys, db, tree, root),
{
    let n = distinct.len() as int;
    let mapped = quotient(keys, db);
    assert forall|x: RuleView| distinct.contains(x) implies mapped.contains(x) by {
        let m = choose|m: int| 0 <= m < keys.len() && db.up_to_equivalence(#[trigger] keys[m]) == x;
        assert(mapped[m] == x);
    }
    assert forall|j: int| 0 <= j < tree.len() implies #[trigger] is_survivor(keys, db, tree[j]) by {
        let p = tree[j].0;
        lemma_surviving_for(distinct, n, p);
        let kept = surviving_for(distinct, n, p);
        assert(views(pruned[p]@).contains(tree[j]));
        let t = choose|t: int| 0 <= t < kept.len() && kept[t] == tree[j];
        let i = choose|i: int|
            0 <= i < n && survives(distinct, i) && #[trigger] distinct[i] == #[trigger] kept[t]
                && distinct[i].0 == p;
        lemma_survival_transfers(distinct, mapped, i);
        let at = choose|at: int|
            0 <= at < mapped.len() && mapped[at] == distinct[i] && #[trigger] survives(mapped, at);
        assert(0 <= at < keys.len() && survives(quotient(keys, db), at) && quotient(keys, db)[at]
            == tree[j]);
    }
}

/// Stores of equivalences with the same representatives and the same edges
/// ask for the same steps.
pub proof fn lemma_same_joins(
    keys: Seq<RuleView>,
    before: EquivDB,
    after: EquivDB,
    tree: Seq<RuleView>,
    root: usize,
    label: usize,
    target: usize,
    path: Seq<usize>,
    t: int,
)
    requires
        forall|l: usize| #[trigger] after.root_of(l) == before.root_of(l),
        after.edges() == before.edges(),
        joins(keys, before, tree, root, label, target, path, t),
    ensures
        joins(keys, after, tree, root, label, target, path, t),
{
    assert forall|i: int| 0 <= i < keys.len() implies after.up_to_equivalence(#[trigger] keys[i])
        == before.up_to_equivalence(keys[i]) by {
        after.lemma_up_to_equivalence(&before, keys[i]);
    }
    assert forall|wanted: RuleView, i: int|
        is_first_match(keys, before, wanted, i) implies #[trigger] is_first_match(
        keys,
        after,
        wanted,
        i,
    ) by {}
    if label != root {
        let (j, i, k) = choose|j: int, i: int, k: int|
            0 <= j < tree.len() && #[trigger] is_first_match(keys, before, tree[j], i) && 0 <= k
                < keys[i].1.len() && #[trigger] keys[i].1[k] == label;
        assert(is_first_match(keys, after, tree[j], i));
    }
    let rule = choose|rule: RuleView| #[trigger]
        is_chosen_for(keys, before, tree, before.root_of(label), rule) && rule.0 == target;
    let (j, i) = choose|j: int, i: int|
        is_last_for(tree, before.root_of(label), j) && #[trigger] is_first_match(
            keys,
            before,
            tree[j],
            i,
        ) && keys[i] == rule;
    assert(is_first_match(keys, after, tree[j], i));
    assert(after.root_of(label) == before.root_of(label));
    assert(is_chosen_for(keys, after, tree, after.root_of(label), rule));
}

/// Stores of equivalences with the same representatives and the same edges
/// make the same trees and the same rules of them.
pub proof fn lemma_same_equivalences(
    keys: Seq<RuleView>,
    before: EquivDB,
    after: EquivDB,
    tree: Seq<RuleView>,
    root: usize,
    labels: Seq<RuleView>,
)
    requires
        forall|l: usize| #[trigger] after.root_of(l) == before.root_of(l),
        after.edges() == before.edges(),
    ensures
        grows_from_survivors(keys, before, tree, root) ==> grows_from_survivors(
            keys,
            after,
            tree,
            root,
        ),
        lifts(keys, before, tree, root, labels) ==> lifts(keys, after, tree, root, labels),
        link_missing(keys, before, tree, root) ==> link_missing(keys, after, tree, root),
{
    assert forall|i: int| 0 <= i < keys.len() implies after.up_to_equivalence(#[trigger] keys[i])
        == before.up_to_equivalence(keys[i]) by {
        after.lemma_up_to_equivalence(&before, keys[i]);
    }
    assert(quotient(keys, after) =~= quotient(keys, before));
    assert forall|label: usize, target: usize, path: Seq<usize>, t: int|
        joins(keys, before, tree, root, label, target, path, t) implies #[trigger] joins(
        keys,
        after,
        tree,
        root,
        label,
        target,
        path,
        t,
    ) by {
        lemma_same_joins(keys, before, after, tree, root, label, target, path, t);
    }
    if link_missing(keys, before, tree, root) {
        let (label, target, path, t) = choose|
            label: usize,
            target: usize,
            path: Seq<usize>,
            t: int,
        | #[trigger]
            joins(keys, before, tree, root, label, target, path, t) && !keys.contains(
                link_at(path, t),
            );
        assert(joins(keys, after, tree, root, label, target, path, t));
    }
    assert forall|target: RuleView, i: int|
        is_first_match(keys, before, target, i) implies #[trigger] is_first_match(
        keys,
        after,
        target,
        i,
    ) by {}
    if grows_from_survivors(keys, before, tree, root) {
        assert forall|j: int| 0 <= j < tree.len() implies #[trigger] is_survivor(
            keys,
            after,
            tree[j],
        ) by {
            assert(is_survivor(keys, before, tree[j]));
        }
    }
    if lifts(keys, before, tree, root, labels) {
        assert forall|n: int| 0 <= n < labels.len() implies is_chosen(
            keys,
            after,
            tree,
            #[trigger] labels[n],
        ) || is_link(keys, after, tree, root, labels[n]) by {
            if is_chosen(keys, before, tree, labels[n]) {
                let (j, i) = choose|j: int, i: int|
                    0 <= j < tree.len() && #[trigger] is_first_match(keys, before, tree[j], i)
                        && keys[i] == labels[n];
                assert(is_first_match(keys, after, tree[j], i));
            } else {
                let (label, target, path, t) = choose|
                    label: usize,
                    target: usize,
                    path: Seq<usize>,
                    t: int,
                | #[trigger]
                    joins(keys, before, tree, root, label, target, path, t) && labels[n]
                        == link_at(path, t);
                assert(joins(keys, after, tree, root, label, target, path, t));
            }
        }
        assert forall|j: int| 0 <= j < tree.len() implies #[trigger] chosen_in(
            keys,
            after,
            tree,
            labels,
            j,
        ) by {
            assert(chosen_in(keys, before, tree, labels, j));
            let i = choose|i: int| #[trigger]
                is_first_match(keys, before, tree[j], i) && labels.contains(keys[i]);
            assert(is_first_match(keys, after, tree[j], i));
        }
    }
}

/// What pruning leaves is grouped by parent, each parent has a rule, and
/// each child of each rule is a parent.
pub proof fn lemma_pruned_is_complete(rules: Seq<RuleView>, pruned: Map<usize, Vec<RuleLabel>>)
    requires
        forall|p: usize|
            pruned.contains_key(p) <==> surviving_for(rules, rules.len() as int, p).len() > 0,
        forall|p: usize| #[trigger]
            pruned.contains_key(p) ==> views(pruned[p]@) == surviving_for(
                rules,
                rules.len() as int,
                p,
            ),
    ensures
        grouped(pruned),
        complete(pruned),
{
    let n = rules.len() as int;
    assert forall|p: usize, j: int|
        pruned.contains_key(p) && 0 <= j < pruned[p]@.len() implies (#[trigger] pruned[p]@[j])@.0
        == p by {
        lemma_surviving_for(rules, n, p);
        assert(views(pruned[p]@)[j] == surviving_for(rules, n, p)[j]);
    }
    assert forall|p: usize| #[trigger] pruned.contains_key(p) implies pruned[p]@.len() > 0 by {
        assert(views(pruned[p]@).len() == pruned[p]@.len());
    }
    assert forall|p: usize, j: int, k: int|
        pruned.contains_key(p) && 0 <= j < pruned[p]@.len() && 0 <= k
            < pruned[p]@[j]@.1.len() implies pruned.contains_key(#[trigger] pruned[p]@[j]@.1[k]) by {
        lemma_surviving_for(rules, n, p);
        let kept = surviving_for(rules, n, p);
        assert(views(pruned[p]@)[j] == kept[j]);
        let i = choose|i: int|
            0 <= i < n && survives(rules, i) && #[trigger] rules[i] == #[trigger] kept[j]
                && rules[i].0 == p;
        let chosen = choose|chosen: Set<int>|
            self_contained(rules, chosen) && #[trigger] chosen.contains(i);
        assert(children_covered(rules, chosen, i));
        let c = rules[i].1[k];
        assert(has_parent(rules, chosen, c));
        let m = choose|m: int| chosen.contains(m) && 0 <= m < rules.len() && (#[trigger] rules[m]).0 == c;
        assert(survives(rules, m));
        lemma_surviving_for(rules, n, c);
        assert(surviving_for(rules, n, c).contains(rules[m]));
    }
}

/// The class of the root has rules left after pruning exactly when a rule
/// of the store that stands for it survives.
pub proof fn lemma_root_survival(
    keys: Seq<RuleView>,
    db: EquivDB,
    distinct: Seq<RuleView>,
    pruned: Map<usize, Vec<RuleLabel>>,
    root: usize,
)
    requires
        forall|x: RuleView|
            distinct.contains(x) <==> exists|i: int|
                0 <= i < keys.len() && db.up_to_equivalence(#[trigger] keys[i]) == x,
        forall|p: usize|
            pruned.contains_key(p) <==> surviving_for(distinct, distinct.len() as int, p).len()
                > 0,
    ensures
        pruned.contains_key(db.root_of(root)) <==> root_survives(keys, db, root),
{
    let n = distinct.len() as int;
    let rep = db.root_of(root);
    let mapped = quotient(keys, db);
    lemma_surviving_for(distinct, n, rep);
    if pruned.contains_key(rep) {
        let kept = surviving_for(distinct, n, rep);
        let i = choose|i: int|
            0 <= i < n && survives(distinct, i) && #[trigger] distinct[i] == #[trigger] kept[0]
                && distinct[i].0 == rep;
        assert forall|x: RuleView| distinct.contains(x) implies mapped.contains(x) by {
            let m = choose|m: int| 0 <= m < keys.len() && db.up_to_equivalence(#[trigger] keys[m]) == x;
            assert(mapped[m] == x);
        }
        lemma_survival_transfers(distinct, mapped, i);
        let j = choose|j: int| 0 <= j < mapped.len() && mapped[j] == distinct[i] && #[trigger] survives(mapped, j);
        assert(0 <= j < keys.len() && survives(quotient(keys, db), j) && db.root_of(keys[j].0)
            == db.root_of(root));
    }
    if root_survives(keys, db, root) {
        let i = choose|i: int|
            0 <= i < keys.len() && #[trigger] survives(quotient(keys, db), i) && db.root_of(
                keys[i].0,
            ) == db.root_of(root);
        assert forall|x: RuleView| mapped.contains(x) implies distinct.contains(x) by {
            let m = choose|m: int| 0 <= m < mapped.len() && mapped[m] == x;
            assert(db.up_to_equivalence(keys[m]) == x);
        }
        lemma_survival_transfers(mapped, distinct, i);
        let j = choose|j: int| 0 <= j < distinct.len() && distinct[j] == mapped[i] && #[trigger] survives(distinct, j);
        assert(distinct[j].0 == rep);
        assert(surviving_for(distinct, n, rep).contains(distinct[j]));
    }
}

/// A proof tree made of rules that pruning left can be turned into rules of
/// the store unless a step that is needed is not stored as a rule.
pub proof fn lemma_tree_lifts(
    keys: Seq<RuleView>,
    db: EquivDB,
    now: EquivDB,
    distinct: Seq<RuleView>,
    pruned: Map<usize, Vec<RuleLabel>>,
    tree: Seq<RuleView>,
    root: usize,
)
    requires
        forall|l: usize| #[trigger] now.root_of(l) == db.root_of(l),
        now.edges() == db.edges(),
        forall|x: RuleView|
            distinct.contains(x) <==> exists|i: int|
                0 <= i < keys.len() && db.up_to_equivalence(#[trigger] keys[i]) == x,
        forall|p: usize| #[trigger]
            pruned.contains_key(p) ==> views(pruned[p]@) == surviving_for(
                distinct,
                distinct.len() as int,
                p,
            ),
        is_proof_tree(pruned, db.root_of(root), tree),
        lift_blocked(keys, now, tree, root),
    ensures
        link_missing(keys, db, tree, root),
{
    let n = distinct.len() as int;
    assert forall|l: usize| #[trigger] db.root_of(l) == now.root_of(l) by {
        assert(now.root_of(l) == db.root_of(l));
    }
    lemma_same_equivalences(keys, now, db, tree, root, tree);
    assert forall|j: int| 0 <= j < tree.len() implies !unmatched(keys, now, #[trigger] tree[j]) by {
        let p = tree[j].0;
        lemma_surviving_for(distinct, n, p);
        let kept = surviving_for(distinct, n, p);
        assert(views(pruned[p]@).contains(tree[j]));
        let t = choose|t: int| 0 <= t < kept.len() && kept[t] == tree[j];
        let i = choose|i: int|
            0 <= i < n && survives(distinct, i) && #[trigger] distinct[i] == #[trigger] kept[t]
                && distinct[i].0 == p;
        assert(distinct.contains(tree[j]));
        let m = choose|m: int|
            0 <= m < keys.len() && db.up_to_equivalence(#[trigger] keys[m]) == tree[j];
        now.lemma_up_to_equivalence(&db, keys[m]);
    }
    assert forall|label: usize| #[trigger] needs_link(keys, now, tree, root, label) implies covered(
        tree,
        now.root_of(label),
    ) by {
        if label != root {
            let (j, i, k) = choose|j: int, i: int, k: int|
                0 <= j < tree.len() && #[trigger] is_first_match(keys, now, tree[j], i) && 0 <= k
                    < keys[i].1.len() && #[trigger] keys[i].1[k] == label;
            let reps = Seq::new(keys[i].1.len(), |k: int| now.root_of(keys[i].1[k]));
            assert(reps[k] == now.root_of(label));
            lemma_sorted_holds_the_same(reps, now.root_of(label));
            assert(tree[j].1.contains(now.root_of(label)));
            let at = choose|at: int| 0 <= at < tree[j].1.len() && tree[j].1[at] == now.root_of(label);
            assert(covered(tree, tree[j].1[at]));
        } else {
            assert(tree[0].0 == now.root_of(root));
        }
    }
}

/// Whether a rule of the store that stands for the class of `root` survives
/// pruning, the rules taken up to equivalence.
pub open spec fn root_survives(keys: Seq<RuleView>, db: EquivDB, root: usize) -> bool {
    exists|i: int|
        0 <= i < keys.len() && #[trigger] survives(quotient(keys, db), i) && db.root_of(keys[i].0)
            == db.root_of(root)
}

/// The rules of `keys`, each up to equivalence.
pub open spec fn quotient(keys: Seq<RuleView>, db: EquivDB) -> Seq<RuleView> {
    Seq::new(keys.len(), |i: int| db.up_to_equivalence(keys[i]))
}

/// Whether a rule survives pruning depends on the rules there are, not on
/// their order or on how often each is listed.
pub proof fn lemma_survival_transfers(from: Seq<RuleView>, to: Seq<RuleView>, i: int)
    requires
        forall|x: RuleView| from.contains(x) ==> to.contains(x),
        0 <= i < from.len(),
        survives(from, i),
    ensures
        exists|j: int| 0 <= j < to.len() && to[j] == from[i] && #[trigger] survives(to, j),
{
    let chosen = choose|chosen: Set<int>|
        self_contained(from, chosen) && #[trigger] chosen.contains(i);
    let moved = Set::new(
        |j: int|
            0 <= j < to.len() && exists|m: int|
                chosen.contains(m) && 0 <= m < from.len() && #[trigger] from[m] == to[j],
    );
    assert forall|j: int| #[trigger] moved.contains(j) implies 0 <= j < to.len()
        && children_covered(to, moved, j) by {
        let m = choose|m: int| chosen.contains(m) && 0 <= m < from.len() && #[trigger] from[m] == to[j];
        assert(children_covered(from, chosen, m));
        assert forall|k: int| 0 <= k < to[j].1.len() implies has_parent(
            to,
            moved,
            #[trigger] to[j].1[k],
        ) by {
            assert(has_parent(from, chosen, from[m].1[k]));
            let n = choose|n: int|
                chosen.contains(n) && 0 <= n < from.len() && (#[trigger] from[n]).0 == from[m].1[k];
            assert(from.contains(from[n]));
            let t = choose|t: int| 0 <= t < to.len() && to[t] == from[n];
            assert(moved.contains(t));
            assert(to[t].0 == to[j].1[k]);
        }
    }
    assert(from.contains(from[i]));
    let j = choose|j: int| 0 <= j < to.len() && to[j] == from[i];
    assert(moved.contains(j));
    assert(survives(to, j));
}

/// The rule that joins the label at `t` of `path` to the next.
pub open spec fn link_at(path: Seq<usize>, t: int) -> RuleView {
    (path[t], seq![path[t + 1]])
}

/// Whether `rule` joins one of the first `w` labels of `path` to the next.
pub open spec fn is_link_of(path: Seq<usize>, w: int, rule: RuleView) -> bool {
    exists|t: int| 0 <= t < w && rule == #[trigger] link_at(path, t)
}

/// `after` begins with `before`.
pub open spec fn begins_with(after: Seq<RuleView>, before: Seq<RuleView>) -> bool {
    &&& before.len() <= after.len()
    &&& forall|j: int| 0 <= j < before.len() ==> #[trigger] after[j] == before[j]
}

proof fn lemma_begins_with(after: Seq<RuleView>, before: Seq<RuleView>)
    requires
        begins_with(after, before),
    ensures
        forall|l: usize| covered(before, l) ==> #[trigger] covered(after, l),
        forall|x: RuleView| before.contains(x) ==> #[trigger] after.contains(x),
{
    assert forall|l: usize| covered(before, l) implies #[trigger] covered(after, l) by {
        let j = choose|j: int| 0 <= j < before.len() && (#[trigger] before[j]).0 == l;
        assert(after[j].0 == l);
    }
    assert forall|x: RuleView| before.contains(x) implies #[trigger] after.contains(x) by {
        let j = choose|j: int| 0 <= j < before.len() && before[j] == x;
        assert(after[j] == x);
    }
}

/// Whether `labels` is a specification of `root` made of rules of `keys`:
/// each rule is stored, none is listed twice, `root` has a rule, and each
/// child of each rule has one.
pub open spec fn label_specification(keys: Seq<RuleView>, labels: Seq<RuleView>, root: usize) -> bool {
    &&& forall|j: int| 0 <= j < labels.len() ==> keys.contains(#[trigger] labels[j])
    &&& labels.no_duplicates()
    &&& covered(labels, root)
    &&& closed(labels)
}

/// Whether the children of the rule at `j` all end in atoms within `depth`
/// steps.
pub open spec fn children_end_in_atoms(rules: Seq<RuleView>, j: int, depth: nat) -> bool
    decreases depth, 1nat,
{
    forall|k: int|
        0 <= k < rules[j].1.len() ==> ends_in_atoms(rules, #[trigger] rules[j].1[k], depth)
}

/// Whether `label` ends in atoms within `depth` steps: it has a rule among
/// `rules` whose children all end in atoms in fewer steps; a rule without
/// children is an atom.
pub open spec fn ends_in_atoms(rules: Seq<RuleView>, label: usize, depth: nat) -> bool
    decreases depth, 0nat,
{
    exists|j: int|
        0 <= j < rules.len() && (#[trigger] rules[j]).0 == label && (rules[j].1.len() == 0 || (
        depth > 0 && children_end_in_atoms(rules, j, (depth - 1) as nat)))
}

/// A specification covers its root and ends in atoms, where the rules of the
/// store can be ranked: where each class can be given a number that is
/// above the numbers of the children in each rule of the class. (Of a store
/// with a rule that has its parent among its children this cannot be said.)
pub proof fn lemma_specification_ends_in_atoms(
    keys: Seq<RuleView>,
    labels: Seq<RuleView>,
    root: usize,
    rank: spec_fn(usize) -> nat,
    label: usize,
)
    requires
        label_specification(keys, labels, root),
        forall|i: int, k: int|
            0 <= i < keys.len() && 0 <= k < keys[i].1.len() ==> rank(#[trigger] keys[i].1[k]) < rank(
                keys[i].0,
            ),
        covered(labels, label),
    ensures
        covered(labels, root),
        ends_in_atoms(labels, label, rank(label)),
    decreases rank(label),
{
    let j = choose|j: int| 0 <= j < labels.len() && (#[trigger] labels[j]).0 == label;
    assert(keys.contains(labels[j]));
    let i = choose|i: int| 0 <= i < keys.len() && keys[i] == labels[j];
    if labels[j].1.len() > 0 {
        assert(rank(keys[i].1[0]) < rank(keys[i].0));
        let below = (rank(label) - 1) as nat;
        assert forall|k: int| 0 <= k < labels[j].1.len() implies ends_in_atoms(
            labels,
            #[trigger] labels[j].1[k],
            below,
        ) by {
            let child = labels[j].1[k];
            assert(rank(keys[i].1[k]) < rank(keys[i].0));
            assert(covered(labels, child));
            lemma_specification_ends_in_atoms(keys, labels, root, rank, child);
            lemma_ends_sooner(labels, child, rank(child), below);
        }
        assert(children_end_in_atoms(labels, j, below));
    }
}

/// What ends in atoms within some steps does so within more.
pub proof fn lemma_ends_sooner(rules: Seq<RuleView>, label: usize, depth: nat, more: nat)
    requires
        ends_in_atoms(rules, label, depth),
        depth <= more,
    ensures
        ends_in_atoms(rules, label, more),
    decreases depth,
{
    let j = choose|j: int|
        0 <= j < rules.len() && (#[trigger] rules[j]).0 == label && (rules[j].1.len() == 0 || (
        depth > 0 && children_end_in_atoms(rules, j, (depth - 1) as nat)));
    if rules[j].1.len() > 0 {
        let below = (depth - 1) as nat;
        let above = (more - 1) as nat;
        assert forall|k: int| 0 <= k < rules[j].1.len() implies ends_in_atoms(
            rules,
            #[trigger] rules[j].1[k],
            above,
        ) by {
            lemma_ends_sooner(rules, rules[j].1[k], below, above);
        }
        assert(children_end_in_atoms(rules, j, above));
    } else {
        assert(rules[j].1.len() == 0);
    }
}

/// No rule of `keys` is `target` up to equivalence.
pub open spec fn unmatched(keys: Seq<RuleView>, db: EquivDB, target: RuleView) -> bool {
    forall|i: int| 0 <= i < keys.len() ==> db.up_to_equivalence(#[trigger] keys[i]) != target
}

/// Whether `label` has to be joined to a rule of the specification: it is
/// the root, or a child of the stored rule chosen for a rule of `tree`.
pub open spec fn needs_link(
    keys: Seq<RuleView>,
    db: EquivDB,
    tree: Seq<RuleView>,
    root: usize,
    label: usize,
) -> bool {
    label == root || exists|j: int, i: int, k: int|
        0 <= j < tree.len() && #[trigger] is_first_match(keys, db, tree[j], i) && 0 <= k
            < keys[i].1.len() && #[trigger] keys[i].1[k] == label
}

/// Whether `rule` is the stored rule chosen for a rule of `tree`: the first
/// stored rule that stands for it.
pub open spec fn is_chosen(keys: Seq<RuleView>, db: EquivDB, tree: Seq<RuleView>, rule: RuleView) -> bool {
    exists|j: int, i: int|
        0 <= j < tree.len() && #[trigger] is_first_match(keys, db, tree[j], i) && keys[i] == rule
}

/// Whether the rule at `j` is the last rule of `tree` whose parent is `class`.
pub open spec fn is_last_for(tree: Seq<RuleView>, class: usize, j: int) -> bool {
    &&& 0 <= j < tree.len()
    &&& tree[j].0 == class
    &&& forall|n: int| j < n < tree.len() ==> (#[trigger] tree[n]).0 != class
}

/// Whether `rule` is the stored rule chosen for the last rule of `tree`
/// whose parent is `class`.
pub open spec fn is_chosen_for(
    keys: Seq<RuleView>,
    db: EquivDB,
    tree: Seq<RuleView>,
    class: usize,
    rule: RuleView,
) -> bool {
    exists|j: int, i: int|
        is_last_for(tree, class, j) && #[trigger] is_first_match(keys, db, tree[j], i) && keys[i]
            == rule
}

/// Whether `target` is the parent of the stored rule chosen for the last
/// rule of `tree` for the class of `label`.
pub open spec fn is_target(
    keys: Seq<RuleView>,
    db: EquivDB,
    tree: Seq<RuleView>,
    label: usize,
    target: usize,
) -> bool {
    exists|rule: RuleView| #[trigger]
        is_chosen_for(keys, db, tree, db.root_of(label), rule) && rule.0 == target
}

/// Whether `path` is a shortest path along the edges from `a` to `b`.
pub open spec fn is_shortest(db: EquivDB, path: Seq<usize>, a: usize, b: usize) -> bool {
    &&& is_path(db.edges(), path, a, b)
    &&& forall|q: Seq<usize>| #[trigger] is_path(db.edges(), q, a, b) ==> path.len() <= q.len()
}

/// Whether the step at `t` of `path` joins a label to the rule chosen for
/// its class: `label` has to be joined, `target` is the parent of the rule
/// chosen for its class, and `path` is a shortest path from the one to the
/// other.
pub open spec fn joins(
    keys: Seq<RuleView>,
    db: EquivDB,
    tree: Seq<RuleView>,
    root: usize,
    label: usize,
    target: usize,
    path: Seq<usize>,
    t: int,
) -> bool {
    &&& needs_link(keys, db, tree, root, label)
    &&& is_target(keys, db, tree, label, target)
    &&& is_shortest(db, path, label, target)
    &&& 0 <= t < path.len() - 1
}

/// Whether `rule` is a step on a shortest path from a label that has to be
/// joined to the rule chosen for its class.
pub open spec fn is_link(
    keys: Seq<RuleView>,
    db: EquivDB,
    tree: Seq<RuleView>,
    root: usize,
    rule: RuleView,
) -> bool {
    exists|label: usize, target: usize, path: Seq<usize>, t: int| #[trigger]
        joins(keys, db, tree, root, label, target, path, t) && rule == link_at(path, t)
}

/// Whether the stored rule chosen for the rule at `j` of `tree` is among
/// `labels`.
pub open spec fn chosen_in(
    keys: Seq<RuleView>,
    db: EquivDB,
    tree: Seq<RuleView>,
    labels: Seq<RuleView>,
    j: int,
) -> bool {
    exists|i: int| #[trigger] is_first_match(keys, db, tree[j], i) && labels.contains(keys[i])
}

/// Whether `labels` is `tree` turned into rules of the store: a
/// specification of `root` that holds, for each rule of `tree`, the stored
/// rule chosen for it, and besides these only the steps of shortest paths
/// from the labels that have to be joined to the rules chosen for their
/// classes.
pub open spec fn lifts(
    keys: Seq<RuleView>,
    db: EquivDB,
    tree: Seq<RuleView>,
    root: usize,
    labels: Seq<RuleView>,
) -> bool {
    &&& label_specification(keys, labels, root)
    &&& forall|n: int|
        0 <= n < labels.len() ==> is_chosen(keys, db, tree, #[trigger] labels[n]) || is_link(
            keys,
            db,
            tree,
            root,
            labels[n],
        )
    &&& forall|j: int| 0 <= j < tree.len() ==> #[trigger] chosen_in(keys, db, tree, labels, j)
}

/// What can keep a proof tree over representatives from being turned into
/// rules of the store: a rule of the tree that no stored rule stands for, a
/// label to join whose class has no rule in the tree, or a step that is
/// needed and not stored as a rule.
pub open spec fn lift_blocked(keys: Seq<RuleView>, db: EquivDB, tree: Seq<RuleView>, root: usize) -> bool {
    ||| exists|j: int| 0 <= j < tree.len() && unmatched(keys, db, #[trigger] tree[j])
    ||| exists|label: usize| #[trigger]
        needs_link(keys, db, tree, root, label) && !covered(tree, db.root_of(label))
    ||| link_missing(keys, db, tree, root)
}

/// Whether a step on a shortest path from a label that has to be joined to
/// the rule chosen for its class is not stored as a rule.
pub open spec fn link_missing(
    keys: Seq<RuleView>,
    db: EquivDB,
    tree: Seq<RuleView>,
    root: usize,
) -> bool {
    exists|label: usize, target: usize, path: Seq<usize>, t: int| #[trigger]
        joins(keys, db, tree, root, label, target, path, t) && !keys.contains(link_at(path, t))
}

/// Whether the root or the parent of a rule of `labels` is the label of no
/// class.
pub open spec fn label_unknown(labels: Seq<RuleView>, classes: int, root: usize) -> bool {
    root >= classes || exists|i: int| 0 <= i < labels.len() && (#[trigger] labels[i]).0 >= classes
}

/// What can keep `tree` from giving a specification: a step that is needed
/// and not stored as a rule, or a rule that it is turned into whose parent,
/// or the root, is the label of no class.
pub open spec fn tree_blocked(
    keys: Seq<RuleView>,
    db: EquivDB,
    tree: Seq<RuleView>,
    root: usize,
    classes: int,
) -> bool {
    link_missing(keys, db, tree, root) || exists|labels: Seq<RuleView>| #[trigger]
        lifts(keys, db, tree, root, labels) && label_unknown(labels, classes, root)
}

/// A store whose one rule is an atom for `root` specifies `root` by that
/// rule alone: the rule survives pruning, nothing keeps a proof tree from
/// giving a specification, and what a proof tree is turned into is the rule.
pub proof fn lemma_lone_atom_specifies(
    keys: Seq<RuleView>,
    db: EquivDB,
    root: usize,
    classes: int,
    tree: Seq<RuleView>,
    labels: Seq<RuleView>,
)
    requires
        keys == seq![(root, Seq::<usize>::empty())],
        root < classes,
    ensures
        root_survives(keys, db, root),
        !tree_blocked(keys, db, tree, root, classes),
        lifts(keys, db, tree, root, labels) ==> labels == keys,
{
    let atoms = quotient(keys, db);
    let alone = set![0int];
    assert(self_contained(atoms, alone)) by {
        assert forall|i: int| #[trigger] alone.contains(i) implies 0 <= i < atoms.len()
            && children_covered(atoms, alone, i) by {
            let none = Seq::<usize>::empty();
            assert(Seq::new(keys[0].1.len(), |k: int| db.root_of(keys[0].1[k])) =~= none);
            lemma_sorted_labels(none, none);
            assert(atoms[i].1.len() == 0);
        }
    }
    assert(alone.contains(0));
    assert(survives(atoms, 0) && db.root_of(keys[0].0) == db.root_of(root));
    assert forall|label: usize, target: usize, path: Seq<usize>, t: int|
        !#[trigger] joins(keys, db, tree, root, label, target, path, t) by {
        if joins(keys, db, tree, root, label, target, path, t) {
            assert(label == root);
            assert(target == root);
            assert(is_path(db.edges(), seq![root], root, root));
        }
    }
    assert forall|other: Seq<RuleView>| #[trigger] lifts(keys, db, tree, root, other) implies other
        == keys && !label_unknown(other, classes, root) by {
        assert forall|n: int| 0 <= n < other.len() implies #[trigger] other[n] == keys[0] by {
            assert(is_chosen(keys, db, tree, other[n]) || is_link(keys, db, tree, root, other[n]));
        }
        if other.len() > 1 {
            assert(other[0] == other[1]);
        }
        assert(other =~= keys);
    }
}

/// Whether `spec` is `labels` with classes and strategies filled in: the
/// root and each parent is a clone of the class with that label, and each
/// strategy a clone of the one stored for the rule.
pub open spec fn materialized<S: Strategy>(
    keys: Seq<RuleView>,
    strategies: Seq<S>,
    classes: Seq<S::ClassType>,
    labels: Seq<RuleView>,
    root: usize,
    spec: CombinatorialSpecification<S>,
) -> bool {
    &&& root < classes.len()
    &&& cloned(classes[root as int], spec.root)
    &&& spec.rules@.len() == labels.len()
    &&& forall|j: int|
        0 <= j < labels.len() ==> {
            &&& (#[trigger] labels[j]).0 < classes.len()
            &&& keys.contains(labels[j])
            &&& cloned(classes[labels[j].0 as int], spec.rules@[j].parent())
            &&& cloned(strategies[keys.index_of(labels[j])], spec.rules@[j].strategy())
            &&& spec.rules@[j].strategy().decomposes_to(
                &spec.rules@[j].parent(),
                spec.rules@[j].children(),
            )
        }
}

impl<S: Strategy> SimpleRuleDB<S> {
    /// Fills in the classes and the strategies of `rules`.
    pub fn materialize(&self, rules: &Vec<RuleLabel>, root: usize, classdb: &ClassDB<S::ClassType>) -> (found:
        Result<CombinatorialSpecification<S>, SpecificationNotFoundError>)
        requires
            self.valid(),
        ensures
            found.is_ok() <==> root < classdb@.len() && forall|j: int|
                0 <= j < rules@.len() ==> (#[trigger] views(rules@)[j]).0 < classdb@.len()
                    && self.keys().contains(views(rules@)[j]),
            found matches Ok(spec) ==> materialized(
                self.keys(),
                self.strategies(),
                classdb@,
                views(rules@),
                root,
                spec,
            ),
    {
        let ghost labels = views(rules@);
        let mut actual_rules: Vec<Rule<S>> = Vec::new();
        let mut j: usize = 0;
        while j < rules.len()
            invariant
                j <= rules.len(),
                self.valid(),
                labels == views(rules@),
                actual_rules@.len() == j,
                forall|n: int|
                    0 <= n < j ==> {
                        &&& (#[trigger] labels[n]).0 < classdb@.len()
                        &&& self.keys().contains(labels[n])
                        &&& cloned(classdb@[labels[n].0 as int], actual_rules@[n].parent())
                        &&& cloned(
                            self.strategies()[self.keys().index_of(labels[n])],
                            actual_rules@[n].strategy(),
                        )
                        &&& actual_rules@[n].strategy().decomposes_to(
                            &actual_rules@[n].parent(),
                            actual_rules@[n].children(),
                        )
                    },
            decreases rules.len() - j,
        {
            let rule = &rules[j];
            let ghost built = actual_rules@;
            proof {
                assert(labels[j as int] == rule@);
            }
            let parent = match classdb.get_class_from_label(*rule.get_parent()) {
                Some(class) => class.clone(),
                None => {
                    return Err(SpecificationNotFoundError {  });
                },
            };
            let strategy = match self.get_strategy(rule) {
                Some(strategy) => strategy.clone(),
                None => {
                    return Err(SpecificationNotFoundError {  });
                },
            };
            proof {
                assert(cloned(classdb@[labels[j as int].0 as int], parent));
                assert(cloned(self.strategies()[self.keys().index_of(labels[j as int])], strategy));
            }
            actual_rules.push(Rule::new(parent, strategy));
            proof {
                assert forall|n: int| 0 <= n < j + 1 implies {
                    &&& (#[trigger] labels[n]).0 < classdb@.len()
                    &&& self.keys().contains(labels[n])
                    &&& cloned(classdb@[labels[n].0 as int], actual_rules@[n].parent())
                    &&& cloned(
                        self.strategies()[self.keys().index_of(labels[n])],
                        actual_rules@[n].strategy(),
                    )
                    &&& actual_rules@[n].strategy().decomposes_to(
                        &actual_rules@[n].parent(),
                        actual_rules@[n].children(),
                    )
                } by {
                    if n < j {
                        assert(actual_rules@[n] == built[n]);
                    }
                }
            }
            j += 1;
        }
        let root_class = match classdb.get_class_from_label(root) {
            Some(class) => class.clone(),
            None => {
                return Err(SpecificationNotFoundError {  });
            },
        };
        proof {
            assert(cloned(classdb@[root as int], root_class));
        }
        Ok(CombinatorialSpecification { rules: actual_rules, root: root_class })
    }

    /// Turns a proof tree over representatives into rules of the store: for
    /// each rule of the tree the first stored rule that stands for it, and, to
    /// join the root and each child of these rules to the rule chosen for its
    /// class, the rules along a shortest chain of edges. Fails where a rule
    /// that is needed is not stored.
    pub fn eqv_specification_to_specification(
        &mut self,
        eqv_specification_rules: Vec<RuleLabel>,
        root: usize,
    ) -> (found: Result<Vec<RuleLabel>, SpecificationNotFoundError>)
        requires
            old(self).valid(),
        ensures
            final(self).valid(),
            final(self).keys() == old(self).keys(),
            final(self).strategies() == old(self).strategies(),
            final(self).equiv().edges() == old(self).equiv().edges(),
            forall|l: usize| #[trigger] final(self).equiv().root_of(l) == old(self).equiv().root_of(l),
            match found {
                Ok(rules) => lifts(
                    old(self).keys(),
                    old(self).equiv(),
                    views(eqv_specification_rules@),
                    root,
                    views(rules@),
                ),
                Err(_) => lift_blocked(
                    old(self).keys(),
                    old(self).equiv(),
                    views(eqv_specification_rules@),
                    root,
                ),
            },
    {
        let ghost keys = self.keys();
        let ghost db = self.equiv_db;
        let ghost tree = views(eqv_specification_rules@);
        let mut children: Vec<usize> = Vec::new();
        children.push(root);
        let mut specification_rules_by_eqv_parent: HashMap<usize, RuleLabel> = HashMap::new();
        let mut specification_rules: Vec<RuleLabel> = Vec::new();
        assert(views(specification_rules@) =~= Seq::<RuleView>::empty());
        let mut j: usize = 0;
        while j < eqv_specification_rules.len()
            invariant
                j <= eqv_specification_rules.len(),
                old(self).valid(),
                self.valid(),
                self.keys() == keys,
                keys == old(self).keys(),
                self.strategies() == old(self).strategies(),
                db == old(self).equiv(),
                self.equiv().edges() == db.edges(),
                forall|l: usize| #[trigger] self.equiv().root_of(l) == db.root_of(l),
                tree == views(eqv_specification_rules@),
                views(specification_rules@).no_duplicates(),
                forall|n: int|
                    0 <= n < specification_rules@.len() ==> is_chosen(
                        keys,
                        db,
                        tree,
                        #[trigger] views(specification_rules@)[n],
                    ),
                forall|t: int|
                    0 <= t < j ==> #[trigger] chosen_in(
                        keys,
                        db,
                        tree,
                        views(specification_rules@),
                        t,
                    ),
                forall|n: int|
                    0 <= n < specification_rules@.len() ==> keys.contains(
                        #[trigger] views(specification_rules@)[n],
                    ),
                forall|n: int|
                    0 <= n < children@.len() ==> needs_link(
                        keys,
                        db,
                        tree,
                        root,
                        #[trigger] children@[n],
                    ),
                children@.len() > 0,
                children@[0] == root,
                forall|n: int, k: int|
                    0 <= n < specification_rules@.len() && 0 <= k < views(
                        specification_rules@,
                    )[n].1.len() ==> children@.contains(
                        #[trigger] views(specification_rules@)[n].1[k],
                    ),
                forall|e: usize|
                    specification_rules_by_eqv_parent@.contains_key(e) <==> exists|n: int|
                        0 <= n < j && (#[trigger] tree[n]).0 == e,
                forall|e: usize| #[trigger]
                    specification_rules_by_eqv_parent@.contains_key(e) ==> views(
                        specification_rules@,
                    ).contains(specification_rules_by_eqv_parent@[e]@) && db.root_of(
                        specification_rules_by_eqv_parent@[e]@.0,
                    ) == e && is_chosen_for(
                        keys,
                        db,
                        tree.take(j as int),
                        e,
                        specification_rules_by_eqv_parent@[e]@,
                    ),
            decreases eqv_specification_rules.len() - j,
        {
            let eqv_rule = &eqv_specification_rules[j];
            let ghost listed = views(specification_rules@);
            let ghost to_join = children@;
            let ghost chosen = specification_rules_by_eqv_parent@;
            let ghost mid = self.equiv_db;
            proof {
                assert(tree[j as int] == eqv_rule@);
            }
            let rule = match self.find_rule_from_eqv_rule(eqv_rule) {
                Some(rule) => rule,
                None => {
                    proof {
                        assert(unmatched(keys, db, tree[j as int])) by {
                            assert forall|i: int| 0 <= i < keys.len() implies db.up_to_equivalence(
                                #[trigger] keys[i],
                            ) != tree[j as int] by {
                                mid.lemma_up_to_equivalence(&db, keys[i]);
                            }
                        }
                    }
                    return Err(SpecificationNotFoundError {  });
                },
            };
            let ghost place = choose|i: int|
                is_first_match(keys, mid, eqv_rule@, i) && rule@ == #[trigger] keys[i];
            proof {
                assert forall|i: int| 0 <= i < keys.len() implies mid.up_to_equivalence(
                    #[trigger] keys[i],
                ) == db.up_to_equivalence(keys[i]) by {
                    mid.lemma_up_to_equivalence(&db, keys[i]);
                }
                assert(is_first_match(keys, db, tree[j as int], place));
                assert forall|l: usize| #[trigger] self.equiv().root_of(l) == db.root_of(l) by {
                    assert(mid.root_of(l) == db.root_of(l));
                }
            }
            let rule_children = rule.get_children();
            let mut k: usize = 0;
            while k < rule_children.len()
                invariant
                    k <= rule_children.len(),
                    rule_children@ == rule@.1,
                    children@ == to_join + rule_children@.take(k as int),
                decreases rule_children.len() - k,
            {
                children.push(rule_children[k]);
                k += 1;
                assert(children@ =~= to_join + rule_children@.take(k as int));
            }
            let copy = rule.clone();
            specification_rules_by_eqv_parent.insert(*eqv_rule.get_parent(), copy);
            push_unique(&mut specification_rules, rule);
            proof {
                let now = views(specification_rules@);
                assert(rule_children@.take(k as int) =~= rule_children@);
                assert(begins_with(now, listed));
                lemma_begins_with(now, listed);
                assert(now.contains(rule@)) by {
                    if !listed.contains(rule@) {
                        assert(now[listed.len() as int] == rule@);
                    }
                }
                assert(keys.contains(rule@));
                assert forall|n: int| 0 <= n < now.len() implies keys.contains(#[trigger] now[n]) by {
                    if n < listed.len() {
                        assert(now[n] == listed[n]);
                    }
                }
                assert forall|n: int| 0 <= n < now.len() implies is_chosen(
                    keys,
                    db,
                    tree,
                    #[trigger] now[n],
                ) by {
                    if n < listed.len() {
                        assert(now[n] == listed[n]);
                    } else {
                        assert(0 <= j < tree.len() && is_first_match(keys, db, tree[j as int], place)
                            && keys[place] == now[n]);
                    }
                }
                assert forall|t: int| 0 <= t < j + 1 implies #[trigger] chosen_in(
                    keys,
                    db,
                    tree,
                    now,
                    t,
                ) by {
                    if t < j {
                        assert(chosen_in(keys, db, tree, listed, t));
                        let i = choose|i: int| #[trigger]
                            is_first_match(keys, db, tree[t], i) && listed.contains(keys[i]);
                        assert(now.contains(keys[i]));
                    } else {
                        assert(is_first_match(keys, db, tree[t], place) && now.contains(keys[place]));
                    }
                }
                assert forall|n: int| 0 <= n < children@.len() implies needs_link(
                    keys,
                    db,
                    tree,
                    root,
                    #[trigger] children@[n],
                ) by {
                    if n < to_join.len() {
                        assert(children@[n] == to_join[n]);
                    } else {
                        let c = n - to_join.len();
                        assert(children@[n] == keys[place].1[c]);
                        assert(0 <= j < tree.len() && is_first_match(keys, db, tree[j as int], place)
                            && 0 <= c < keys[place].1.len() && keys[place].1[c] == children@[n]);
                    }
                }
                assert forall|n: int, c: int|
                    0 <= n < now.len() && 0 <= c < now[n].1.len() implies children@.contains(
                    #[trigger] now[n].1[c],
                ) by {
                    if n < listed.len() {
                        assert(now[n] == listed[n]);
                        assert(to_join.contains(listed[n].1[c]));
                        let m = choose|m: int| 0 <= m < to_join.len() && to_join[m] == listed[n].1[c];
                        assert(children@[m] == to_join[m]);
                    } else {
                        assert(children@[to_join.len() + c] == now[n].1[c]);
                    }
                }
                assert forall|e: usize|
                    specification_rules_by_eqv_parent@.contains_key(e) <==> exists|n: int|
                        0 <= n < j + 1 && (#[trigger] tree[n]).0 == e by {
                    if chosen.contains_key(e) {
                        let n = choose|n: int| 0 <= n < j && (#[trigger] tree[n]).0 == e;
                        assert(0 <= n < j + 1 && tree[n].0 == e);
                    }
                    if e == tree[j as int].0 {
                        assert(0 <= j < j + 1 && tree[j as int].0 == e);
                    }
                    if exists|n: int| 0 <= n < j + 1 && (#[trigger] tree[n]).0 == e {
                        let n = choose|n: int| 0 <= n < j + 1 && (#[trigger] tree[n]).0 == e;
                        if n < j {
                            assert(chosen.contains_key(e));
                        }
                    }
                }
                assert forall|e: usize| #[trigger]
                    specification_rules_by_eqv_parent@.contains_key(e) implies now.contains(
                    specification_rules_by_eqv_parent@[e]@,
                ) && db.root_of(specification_rules_by_eqv_parent@[e]@.0) == e && is_chosen_for(
                    keys,
                    db,
                    tree.take(j + 1),
                    e,
                    specification_rules_by_eqv_parent@[e]@,
                ) by {
                    let front = tree.take(j as int);
                    let longer = tree.take(j + 1);
                    if e != tree[j as int].0 {
                        assert(chosen.contains_key(e));
                        assert(is_chosen_for(keys, db, front, e, chosen[e]@));
                        let (t, i) = choose|t: int, i: int|
                            is_last_for(front, e, t) && #[trigger] is_first_match(
                                keys,
                                db,
                                front[t],
                                i,
                            ) && keys[i] == chosen[e]@;
                        assert(longer[t] == front[t]);
                        assert forall|n: int| t < n < longer.len() implies (#[trigger] longer[n]).0
                            != e by {
                            if n < j {
                                assert(front[n] == longer[n]);
                            }
                        }
                        assert(is_last_for(longer, e, t) && is_first_match(keys, db, longer[t], i));
                    } else {
                        assert(longer[j as int] == tree[j as int]);
                        assert(is_last_for(longer, e, j as int) && is_first_match(
                            keys,
                            db,
                            longer[j as int],
                            place,
                        ) && keys[place] == rule@);
                    }
                }
            }
            j += 1;
        }
        let ghost concrete = views(specification_rules@);
        let ghost chosen = specification_rules_by_eqv_parent@;
        proof {
            assert(tree.take(j as int) =~= tree);
        }
        let mut m: usize = 0;
        while m < children.len()
            invariant
                m <= children.len(),
                old(self).valid(),
                self.valid(),
                self.keys() == keys,
                keys == old(self).keys(),
                self.strategies() == old(self).strategies(),
                db == old(self).equiv(),
                self.equiv().edges() == db.edges(),
                forall|l: usize| #[trigger] self.equiv().root_of(l) == db.root_of(l),
                tree == views(eqv_specification_rules@),
                chosen == specification_rules_by_eqv_parent@,
                views(specification_rules@).no_duplicates(),
                forall|n: int|
                    0 <= n < specification_rules@.len() ==> is_chosen(
                        keys,
                        db,
                        tree,
                        #[trigger] views(specification_rules@)[n],
                    ) || is_link(keys, db, tree, root, views(specification_rules@)[n]),
                begins_with(views(specification_rules@), concrete),
                forall|n: int|
                    0 <= n < specification_rules@.len() ==> keys.contains(
                        #[trigger] views(specification_rules@)[n],
                    ),
                forall|n: int|
                    0 <= n < children@.len() ==> needs_link(
                        keys,
                        db,
                        tree,
                        root,
                        #[trigger] children@[n],
                    ),
                children@.len() > 0,
                children@[0] == root,
                forall|e: usize|
                    chosen.contains_key(e) <==> exists|n: int|
                        0 <= n < tree.len() && (#[trigger] tree[n]).0 == e,
                forall|e: usize| #[trigger]
                    chosen.contains_key(e) ==> concrete.contains(chosen[e]@) && db.root_of(
                        chosen[e]@.0,
                    ) == e && is_chosen_for(keys, db, tree, e, chosen[e]@),
                forall|n: int|
                    0 <= n < m ==> covered(views(specification_rules@), #[trigger] children@[n]),
                forall|n: int, k: int|
                    0 <= n < specification_rules@.len() && 0 <= k < views(
                        specification_rules@,
                    )[n].1.len() ==> covered(
                        views(specification_rules@),
                        #[trigger] views(specification_rules@)[n].1[k],
                    ) || exists|t: int|
                        m <= t < children@.len() && children@[t] == views(
                            specification_rules@,
                        )[n].1[k],
            decreases children.len() - m,
        {
            let child = children[m];
            let ghost mid = self.equiv_db;
            let child_eqv_label = self.equiv_db.find(child);
            proof {
                assert(child_eqv_label == db.root_of(child)) by {
                    assert(mid.root_of(child) == db.root_of(child));
                }
                assert forall|l: usize| #[trigger] self.equiv().root_of(l) == db.root_of(l) by {
                    assert(mid.root_of(l) == db.root_of(l));
                }
            }
            let parent_to_connect = match specification_rules_by_eqv_parent.get(&child_eqv_label) {
                Some(rule) => *rule.get_parent(),
                None => {
                    proof {
                        assert(needs_link(keys, db, tree, root, children@[m as int]));
                        if covered(tree, db.root_of(child)) {
                            let n = choose|n: int|
                                0 <= n < tree.len() && (#[trigger] tree[n]).0 == db.root_of(child);
                            assert(chosen.contains_key(child_eqv_label));
                        }
                    }
                    return Err(SpecificationNotFoundError {  });
                },
            };
            let ghost mid2 = self.equiv_db;
            let path = match self.equiv_db.find_path(child, parent_to_connect) {
                Ok(path) => path,
                Err(_) => {
                    proof {
                        assert(mid2.root_of(child) == db.root_of(child));
                        assert(mid2.root_of(parent_to_connect) == db.root_of(parent_to_connect));
                        assert(db.root_of(child) == db.root_of(parent_to_connect));
                        assert(false);
                    }
                    return Err(SpecificationNotFoundError {  });
                },
            };
            proof {
                assert forall|l: usize| #[trigger] self.equiv().root_of(l) == db.root_of(l) by {
                    assert(mid2.root_of(l) == db.root_of(l));
                }
                assert(is_shortest(db, path@, child, parent_to_connect));
                assert(needs_link(keys, db, tree, root, children@[m as int]));
                assert(is_chosen_for(keys, db, tree, db.root_of(child), chosen[child_eqv_label]@)
                    && chosen[child_eqv_label]@.0 == parent_to_connect);
                assert(is_target(keys, db, tree, child, parent_to_connect));
            }
            let ghost listed = views(specification_rules@);
            let mut w: usize = 0;
            while w + 1 < path.len()
                invariant
                    w < path@.len(),
                    self.valid(),
                    self.keys() == keys,
                    keys == old(self).keys(),
                    self.strategies() == old(self).strategies(),
                    db == old(self).equiv(),
                    self.equiv().edges() == db.edges(),
                    forall|l: usize| #[trigger] self.equiv().root_of(l) == db.root_of(l),
                    tree == views(eqv_specification_rules@),
                    is_path(db.edges(), path@, child, parent_to_connect),
                    needs_link(keys, db, tree, root, child),
                    is_target(keys, db, tree, child, parent_to_connect),
                    is_shortest(db, path@, child, parent_to_connect),
                    views(specification_rules@).no_duplicates(),
                    forall|n: int|
                        0 <= n < specification_rules@.len() ==> is_chosen(
                            keys,
                            db,
                            tree,
                            #[trigger] views(specification_rules@)[n],
                        ) || is_link(keys, db, tree, root, views(specification_rules@)[n]),
                    begins_with(views(specification_rules@), listed),
                    forall|n: int|
                        0 <= n < specification_rules@.len() ==> keys.contains(
                            #[trigger] views(specification_rules@)[n],
                        ),
                    forall|n: int|
                        0 <= n < w ==> views(specification_rules@).contains(
                            #[trigger] link_at(path@, n),
                        ),
                    forall|n: int|
                        listed.len() <= n < specification_rules@.len() ==> is_link_of(
                            path@,
                            w as int,
                            #[trigger] views(specification_rules@)[n],
                        ),
                decreases path.len() - w,
            {
                let ghost so_far = views(specification_rules@);
                let link = RuleLabel::new_link(path[w], path[w + 1]);
                let stored = contains_rule(&self.rules, &link);
                if stored.is_none() {
                    proof {
                        assert(joins(
                            keys,
                            db,
                            tree,
                            root,
                            child,
                            parent_to_connect,
                            path@,
                            w as int,
                        ) && !keys.contains(link_at(path@, w as int)));
                    }
                    return Err(SpecificationNotFoundError {  });
                }
                push_unique(&mut specification_rules, link);
                proof {
                    let now = views(specification_rules@);
                    assert(begins_with(now, so_far));
                    lemma_begins_with(now, so_far);
                    assert(now.contains(link@)) by {
                        if !so_far.contains(link@) {
                            assert(now[so_far.len() as int] == link@);
                        }
                    }
                    assert forall|n: int| 0 <= n < now.len() implies keys.contains(
                        #[trigger] now[n],
                    ) by {
                        if n < so_far.len() {
                            assert(now[n] == so_far[n]);
                        } else {
                            assert(now[n] == link@);
                            assert(keys[stored.unwrap() as int] == link@);
                        }
                    }
                    assert forall|n: int| 0 <= n < now.len() implies is_chosen(
                        keys,
                        db,
                        tree,
                        #[trigger] now[n],
                    ) || is_link(keys, db, tree, root, now[n]) by {
                        if n < so_far.len() {
                            assert(now[n] == so_far[n]);
                        } else {
                            assert(joins(
                                keys,
                                db,
                                tree,
                                root,
                                child,
                                parent_to_connect,
                                path@,
                                w as int,
                            ) && now[n] == link_at(path@, w as int));
                        }
                    }
                    assert forall|n: int| listed.len() <= n < now.len() implies is_link_of(
                        path@,
                        w + 1,
                        #[trigger] now[n],
                    ) by {
                        if n < so_far.len() {
                            assert(now[n] == so_far[n]);
                            assert(is_link_of(path@, w as int, so_far[n]));
                            let t = choose|t: int|
                                0 <= t < w && so_far[n] == #[trigger] link_at(path@, t);
                            assert(0 <= t < w + 1 && now[n] == link_at(path@, t));
                        } else {
                            assert(0 <= w < w + 1 && now[n] == link_at(path@, w as int));
                        }
                    }
                }
                w += 1;
            }
            proof {
                let now = views(specification_rules@);
                lemma_begins_with(now, listed);
                lemma_begins_with(now, concrete);
                lemma_begins_with(listed, concrete);
                let target_rule = chosen[child_eqv_label]@;
                assert(concrete.contains(target_rule));
                let at = choose|at: int| 0 <= at < concrete.len() && concrete[at] == target_rule;
                assert(now[at] == target_rule);
                assert(covered(now, parent_to_connect));
                // every label on the path has a rule
                assert forall|t: int| 0 <= t < path@.len() implies covered(now, #[trigger] path@[t]) by {
                    if t < path@.len() - 1 {
                        let link = link_at(path@, t);
                        assert(now.contains(link));
                        let n = choose|n: int| 0 <= n < now.len() && now[n] == link;
                        assert(now[n].0 == path@[t]);
                    }
                }
                assert(covered(now, path@[0]));
                assert forall|n: int| 0 <= n < m + 1 implies covered(now, #[trigger] children@[n]) by {
                    if n < m {
                        assert(covered(listed, children@[n]));
                    }
                }
                assert forall|n: int, k: int|
                    0 <= n < now.len() && 0 <= k < now[n].1.len() implies covered(
                    now,
                    #[trigger] now[n].1[k],
                ) || exists|t: int| m + 1 <= t < children@.len() && children@[t] == now[n].1[k] by {
                    if n < listed.len() {
                        assert(now[n] == listed[n]);
                        let c = listed[n].1[k];
                        if !covered(listed, c) {
                            let t = choose|t: int| m <= t < children@.len() && children@[t] == c;
                            if t == m {
                                assert(covered(now, c));
                            }
                        }
                    } else {
                        assert(is_link_of(path@, w as int, now[n]));
                        let t = choose|t: int|
                            0 <= t < w && now[n] == #[trigger] link_at(path@, t);
                        assert(now[n].1[k] == path@[t + 1]);
                        assert(covered(now, path@[t + 1]));
                    }
                }
            }
            m += 1;
        }
        proof {
            let now = views(specification_rules@);
            lemma_begins_with(now, concrete);
            assert forall|t: int| 0 <= t < tree.len() implies #[trigger] chosen_in(
                keys,
                db,
                tree,
                now,
                t,
            ) by {
                assert(chosen_in(keys, db, tree, concrete, t));
                let i = choose|i: int| #[trigger]
                    is_first_match(keys, db, tree[t], i) && concrete.contains(keys[i]);
                assert(now.contains(keys[i]));
            }
            assert(covered(now, children@[0]));
            assert forall|n: int, k: int|
                0 <= n < now.len() && 0 <= k < now[n].1.len() implies covered(
                now,
                #[trigger] now[n].1[k],
            ) by {}
        }
        Ok(specification_rules)
    }
}

} // verus!
