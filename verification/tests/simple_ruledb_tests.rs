use comb_spec_searcher::combinatorial_class::CombinatorialClass;
use comb_spec_searcher::pack::{Rule, Strategy};
use comb_spec_searcher::searcher::classdb::ClassDB;
use comb_spec_searcher::searcher::ruledb::simple::{prune, random_proof_tree, SimpleRuleDB};
use comb_spec_searcher::searcher::ruledb::{RuleDB, RuleLabel};
use std::collections::{HashMap, HashSet};

#[test]
fn prune_verification_rule_test() {
    let mut rules = HashSet::new();
    rules.insert(RuleLabel::new(0, vec![]));
    let rules = prune(rules.into_iter().collect());
    assert_eq!(rules.len(), 1);
}

#[test]
fn prune_simple_tree_test() {
    let mut rules = HashSet::new();
    rules.insert(RuleLabel::new(0, vec![1, 2]));
    rules.insert(RuleLabel::new(1, vec![]));
    rules.insert(RuleLabel::new(2, vec![]));
    let rules = prune(rules.into_iter().collect());
    assert_eq!(rules.len(), 3);
}

#[test]
fn prune_nothing_test() {
    let mut rules = HashSet::new();
    rules.insert(RuleLabel::new(0, vec![1, 2]));
    rules.insert(RuleLabel::new(2, vec![]));
    rules.insert(RuleLabel::new(4, vec![]));
    let rules = prune(rules.into_iter().collect());
    assert_eq!(rules.len(), 2);
    assert!(!rules.contains_key(&0));
}

/// A class that is nothing but a number.
#[derive(Debug, Clone, PartialEq)]
struct Node(usize);

impl CombinatorialClass for Node {}

/// A strategy that gives the children it is told to give.
#[derive(Debug, Clone, PartialEq)]
struct Split {
    name: &'static str,
    children: Vec<usize>,
    equivalence: bool,
}

impl Strategy for Split {
    type ClassType = Node;

    fn decompose(&self, _comb_class: &Node) -> Vec<Node> {
        self.children.iter().map(|c| Node(*c)).collect()
    }

    fn is_equivalence(&self) -> bool {
        self.equivalence
    }
}

fn rule(parent: usize, children: &[usize], equivalence: bool, name: &'static str) -> Rule<Split> {
    Rule::new(
        Node(parent),
        Split {
            name,
            children: children.to_vec(),
            equivalence,
        },
    )
}

fn add(db: &mut SimpleRuleDB<Split>, parent: usize, children: &[usize], equivalence: bool) {
    db.add(
        parent,
        children.to_vec(),
        rule(parent, children, equivalence, "plain"),
    );
}

fn classes(n: usize) -> ClassDB<Node> {
    let mut classdb = ClassDB::new();
    for i in 0..n {
        assert_eq!(classdb.get_label_from_class_or_add(&Node(i)), i);
    }
    classdb
}

fn flatten(pruned: &HashMap<usize, Vec<RuleLabel>>) -> Vec<RuleLabel> {
    let mut parents: Vec<&usize> = pruned.keys().collect();
    parents.sort();
    parents
        .into_iter()
        .flat_map(|p| pruned[p].iter().cloned())
        .collect()
}

#[test]
fn rule_label_sorts_its_children() {
    let label = RuleLabel::new(3, vec![5, 1, 4, 1, 0]);
    assert_eq!(*label.get_parent(), 3);
    assert_eq!(label.get_children(), &vec![0, 1, 1, 4, 5]);
    assert_eq!(label, RuleLabel::new(3, vec![1, 0, 1, 5, 4]));
    assert_ne!(label, RuleLabel::new(3, vec![1, 0, 5, 4]));
    assert_ne!(label, RuleLabel::new(2, vec![5, 1, 4, 1, 0]));
    assert_eq!(label.clone(), label);
    assert_eq!(RuleLabel::new_link(2, 7), RuleLabel::new(2, vec![7]));
}

#[test]
fn prune_propagates() {
    let rules = vec![RuleLabel::new(0, vec![1, 2]), RuleLabel::new(2, vec![])];
    let pruned = prune(rules);
    assert_eq!(flatten(&pruned), vec![RuleLabel::new(2, vec![])]);
    assert!(!pruned.contains_key(&0));

    let mut db = SimpleRuleDB::new();
    add(&mut db, 0, &[1, 2], false);
    add(&mut db, 2, &[], false);
    let classdb = classes(3);
    for _ in 0..20 {
        assert!(db.get_specification(0, &classdb).is_err());
        assert!(db.get_specification(1, &classdb).is_err());
    }
    let spec = db.get_specification(2, &classdb).ok().unwrap();
    assert_eq!(spec.root, Node(2));
    assert_eq!(spec.rules.len(), 1);
    assert_eq!(spec.rules[0].get_parent(), &Node(2));
    assert_eq!(spec.rules[0].get_children(), &Vec::<Node>::new());
}

#[test]
fn prune_removes_chains_and_keeps_cycles() {
    let rules = vec![
        RuleLabel::new(0, vec![1]),
        RuleLabel::new(1, vec![2]),
        RuleLabel::new(2, vec![3]),
        RuleLabel::new(4, vec![5, 4]),
        RuleLabel::new(5, vec![]),
        RuleLabel::new(5, vec![6]),
        RuleLabel::new(7, vec![8]),
        RuleLabel::new(8, vec![7]),
        RuleLabel::new(8, vec![0]),
        RuleLabel::new(9, vec![9, 3]),
    ];
    let pruned = prune(rules);
    assert_eq!(
        flatten(&pruned),
        vec![
            RuleLabel::new(4, vec![5, 4]),
            RuleLabel::new(5, vec![]),
            RuleLabel::new(7, vec![8]),
            RuleLabel::new(8, vec![7]),
        ]
    );
    let mut parents: Vec<usize> = pruned.keys().cloned().collect();
    parents.sort();
    assert_eq!(parents, vec![4, 5, 7, 8]);
}

#[test]
fn prune_keeps_the_order_of_the_rules_of_a_parent() {
    let rules = vec![
        RuleLabel::new(1, vec![2]),
        RuleLabel::new(2, vec![]),
        RuleLabel::new(1, vec![3]),
        RuleLabel::new(1, vec![]),
        RuleLabel::new(1, vec![2, 2]),
    ];
    let pruned = prune(rules);
    assert_eq!(
        pruned[&1],
        vec![
            RuleLabel::new(1, vec![2]),
            RuleLabel::new(1, vec![]),
            RuleLabel::new(1, vec![2, 2]),
        ]
    );
    assert_eq!(pruned[&2], vec![RuleLabel::new(2, vec![])]);
    assert_eq!(prune(Vec::new()).len(), 0);
}

#[test]
fn pruning_twice_changes_nothing() {
    let rules = vec![
        RuleLabel::new(0, vec![1, 2]),
        RuleLabel::new(1, vec![3]),
        RuleLabel::new(2, vec![]),
        RuleLabel::new(3, vec![0, 2]),
        RuleLabel::new(3, vec![4]),
        RuleLabel::new(5, vec![6]),
        RuleLabel::new(6, vec![7]),
        RuleLabel::new(2, vec![6]),
    ];
    let once = flatten(&prune(rules));
    let twice = flatten(&prune(once.clone()));
    assert_eq!(once, twice);
    assert_eq!(
        once,
        vec![
            RuleLabel::new(0, vec![1, 2]),
            RuleLabel::new(1, vec![3]),
            RuleLabel::new(2, vec![]),
            RuleLabel::new(3, vec![0, 2]),
        ]
    );
}

#[test]
fn added_rule_is_found_under_its_sorted_children() {
    let mut db = SimpleRuleDB::new();
    let strategy = Split {
        name: "first",
        children: vec![5, 2, 9],
        equivalence: false,
    };
    db.add(1, vec![5, 2, 9], Rule::new(Node(1), strategy.clone()));
    assert_eq!(
        db.get_strategy(&RuleLabel::new(1, vec![2, 5, 9])),
        Some(&strategy)
    );
    assert_eq!(
        db.get_strategy(&RuleLabel::new(1, vec![9, 5, 2])),
        Some(&strategy)
    );
    assert_eq!(db.get_strategy(&RuleLabel::new(1, vec![2, 5])), None);
    assert_eq!(db.get_strategy(&RuleLabel::new(2, vec![2, 5, 9])), None);
}

#[test]
fn later_rule_replaces_earlier_one_with_the_same_label() {
    let mut db = SimpleRuleDB::new();
    db.add(1, vec![2, 3], rule(1, &[2, 3], false, "first"));
    db.add(4, vec![], rule(4, &[], false, "other"));
    db.add(1, vec![3, 2], rule(1, &[3, 2], false, "second"));
    let found = db.get_strategy(&RuleLabel::new(1, vec![2, 3])).unwrap();
    assert_eq!(found.name, "second");
    assert_eq!(found.children, vec![3, 2]);
    assert_eq!(
        db.get_strategy(&RuleLabel::new(4, vec![])).unwrap().name,
        "other"
    );
}

#[test]
fn random_proof_tree_needs_a_rule_for_the_root() {
    let pruned = prune(vec![RuleLabel::new(1, vec![]), RuleLabel::new(2, vec![1])]);
    assert!(random_proof_tree(&pruned, 0).is_err());
    assert!(random_proof_tree(&pruned, 3).is_err());
    assert_eq!(
        random_proof_tree(&pruned, 1),
        Ok(vec![RuleLabel::new(1, vec![])])
    );
    assert_eq!(
        random_proof_tree(&pruned, 2),
        Ok(vec![RuleLabel::new(2, vec![1]), RuleLabel::new(1, vec![])])
    );
}

#[test]
fn random_proof_tree_picks_one_rule_for_each_class() {
    let rules = vec![
        RuleLabel::new(0, vec![1, 2]),
        RuleLabel::new(0, vec![2, 2, 3]),
        RuleLabel::new(1, vec![]),
        RuleLabel::new(1, vec![0]),
        RuleLabel::new(2, vec![3]),
        RuleLabel::new(2, vec![1, 1]),
        RuleLabel::new(3, vec![]),
    ];
    let pruned = prune(rules.clone());
    let mut seen: HashSet<Vec<RuleLabel>> = HashSet::new();
    for _ in 0..200 {
        let tree = random_proof_tree(&pruned, 0).unwrap();
        assert_eq!(*tree[0].get_parent(), 0);
        let parents: Vec<usize> = tree.iter().map(|r| *r.get_parent()).collect();
        for (i, p) in parents.iter().enumerate() {
            assert!(!parents[..i].contains(p));
        }
        for r in tree.iter() {
            assert!(rules.contains(r));
            for c in r.get_children() {
                assert!(parents.contains(c));
            }
        }
        seen.insert(tree);
    }
    // the choice is random: more than one tree comes up
    assert!(seen.len() > 1);
}

fn check_specification(
    spec: &comb_spec_searcher::specification::CombinatorialSpecification<Split>,
    root: usize,
) {
    assert_eq!(spec.root, Node(root));
    let parents: Vec<&Node> = spec.rules.iter().map(|r| r.get_parent()).collect();
    assert!(parents.contains(&&Node(root)));
    for r in spec.rules.iter() {
        for c in r.get_children() {
            assert!(parents.contains(&c));
        }
    }
}

#[test]
fn equivalence_lifting() {
    // a = 0, b = 1
    let mut found = 0;
    for _ in 0..200 {
        let mut db = SimpleRuleDB::new();
        db.add(0, vec![1], rule(0, &[1], true, "equivalence"));
        db.add(1, vec![], rule(1, &[], false, "atom"));
        let classdb = classes(2);
        if let Ok(spec) = db.get_specification(0, &classdb) {
            found += 1;
            check_specification(&spec, 0);
            let mut rules: Vec<(Node, &'static str, Vec<Node>)> = spec
                .rules
                .iter()
                .map(|r| (r.get_parent().clone(), "", r.get_children().clone()))
                .collect();
            for (i, r) in spec.rules.into_iter().enumerate() {
                rules[i].1 = r.get_strategy().name;
            }
            rules.sort_by_key(|r| r.0 .0);
            assert_eq!(
                rules,
                vec![
                    (Node(0), "equivalence", vec![Node(1)]),
                    (Node(1), "atom", vec![]),
                ]
            );
        }
    }
    assert!(found > 0);
}

#[test]
fn every_specification_covers_the_root_and_stands_on_its_own() {
    let mut db = SimpleRuleDB::new();
    add(&mut db, 0, &[1, 2], false);
    add(&mut db, 0, &[3], false);
    add(&mut db, 1, &[], false);
    add(&mut db, 2, &[1, 1], false);
    add(&mut db, 2, &[4], false);
    add(&mut db, 3, &[2, 1], false);
    add(&mut db, 5, &[6], false);
    let classdb = classes(7);
    let mut sizes = HashSet::new();
    for _ in 0..100 {
        let spec = db.get_specification(0, &classdb).ok().unwrap();
        check_specification(&spec, 0);
        sizes.insert(spec.rules.len());
    }
    // 0 -> [1, 2] gives three rules, 0 -> [3] four
    assert_eq!(sizes, HashSet::from([3, 4]));
    assert!(db.get_specification(4, &classdb).is_err());
    assert!(db.get_specification(5, &classdb).is_err());
    assert!(db.get_specification(9, &classdb).is_err());
}

#[test]
fn specification_needs_the_classes() {
    let mut db = SimpleRuleDB::new();
    add(&mut db, 0, &[1], false);
    add(&mut db, 1, &[], false);
    assert!(db.get_specification(0, &classes(1)).is_err());
    assert!(db.get_specification(0, &classes(0)).is_err());
    assert!(db.get_specification(0, &classes(2)).is_ok());
    let rules = vec![RuleLabel::new(1, vec![]), RuleLabel::new(0, vec![1])];
    let spec = db.materialize(&rules, 0, &classes(2)).ok().unwrap();
    assert_eq!(spec.root, Node(0));
    assert_eq!(spec.rules.len(), 2);
    assert_eq!(spec.rules[0].get_parent(), &Node(1));
    assert_eq!(spec.rules[1].get_parent(), &Node(0));
    assert_eq!(spec.rules[1].get_children(), &vec![Node(1)]);
    // a rule that is not stored has no strategy
    let unknown = vec![RuleLabel::new(1, vec![0])];
    assert!(db.materialize(&unknown, 0, &classes(2)).is_err());
    assert!(db.materialize(&rules, 2, &classes(2)).is_err());
}

#[test]
fn lifting_joins_children_to_the_rules_of_their_classes() {
    let mut db = SimpleRuleDB::new();
    // 0 -> [1], where 1 ~ 2 ~ 3 by the rules 1 -> [2] and 2 -> [3], and 3 is an atom
    add(&mut db, 0, &[1], false);
    add(&mut db, 1, &[2], true);
    add(&mut db, 2, &[3], true);
    add(&mut db, 3, &[], false);
    // the representatives: 1, 2 and 3 go to the root chosen by weight
    let tree = vec![RuleLabel::new(0, vec![2]), RuleLabel::new(2, vec![])];
    let lifted = db.eqv_specification_to_specification(tree, 0).unwrap();
    let mut lifted: Vec<(usize, Vec<usize>)> = lifted
        .iter()
        .map(|r| (*r.get_parent(), r.get_children().clone()))
        .collect();
    lifted.sort();
    assert_eq!(
        lifted,
        vec![(0, vec![1]), (1, vec![2]), (2, vec![3]), (3, vec![])]
    );
}

#[test]
fn lifting_fails_where_a_lookup_fails() {
    let mut db = SimpleRuleDB::new();
    add(&mut db, 0, &[1], false);
    add(&mut db, 1, &[], false);
    // no stored rule stands for 0 -> [2]
    let tree = vec![RuleLabel::new(0, vec![2]), RuleLabel::new(2, vec![])];
    assert!(db.eqv_specification_to_specification(tree, 0).is_err());
    // the class of the child 1 has no rule in the tree
    let tree = vec![RuleLabel::new(0, vec![1])];
    assert!(db.eqv_specification_to_specification(tree, 0).is_err());
    // the root has no rule in the tree
    let tree = vec![RuleLabel::new(1, vec![])];
    assert!(db.eqv_specification_to_specification(tree, 0).is_err());
    let tree = vec![RuleLabel::new(0, vec![1]), RuleLabel::new(1, vec![])];
    assert_eq!(
        db.eqv_specification_to_specification(tree.clone(), 0),
        Ok(tree)
    );
    // 2 ~ 3 by the rule 2 -> [3]; the path from 3 back to 2 is not stored as a rule
    add(&mut db, 2, &[3], true);
    add(&mut db, 4, &[3], false);
    add(&mut db, 3, &[], false);
    let tree = vec![RuleLabel::new(4, vec![3]), RuleLabel::new(3, vec![3])];
    assert!(db.eqv_specification_to_specification(tree, 4).is_err());
}

#[test]
fn random_proof_tree_fails_at_a_class_without_rules() {
    // the child 1 is met from the root and has no entry
    let mut by_parent: HashMap<usize, Vec<RuleLabel>> = HashMap::new();
    by_parent.insert(0, vec![RuleLabel::new(0, vec![1])]);
    assert!(random_proof_tree(&by_parent, 0).is_err());
    // an entry without rules is no better
    by_parent.insert(1, vec![]);
    assert!(random_proof_tree(&by_parent, 0).is_err());
    // a class without rules that is not met does no harm
    by_parent.insert(2, vec![RuleLabel::new(2, vec![])]);
    assert_eq!(
        random_proof_tree(&by_parent, 2),
        Ok(vec![RuleLabel::new(2, vec![])])
    );
    // once the child has a rule the tree is found
    by_parent.insert(1, vec![RuleLabel::new(1, vec![2])]);
    assert_eq!(
        random_proof_tree(&by_parent, 0),
        Ok(vec![
            RuleLabel::new(0, vec![1]),
            RuleLabel::new(1, vec![2]),
            RuleLabel::new(2, vec![])
        ])
    );
}

#[test]
fn lifting_takes_a_shortest_way() {
    let mut db = SimpleRuleDB::new();
    // 1 ~ 2 ~ 3 ~ 4 in a chain, and 1 ~ 4 at once; 4 is an atom
    add(&mut db, 0, &[1], false);
    add(&mut db, 1, &[2], true);
    add(&mut db, 2, &[3], true);
    add(&mut db, 3, &[4], true);
    add(&mut db, 1, &[4], true);
    add(&mut db, 4, &[], false);
    let tree = vec![RuleLabel::new(0, vec![2]), RuleLabel::new(2, vec![])];
    let lifted = db.eqv_specification_to_specification(tree, 0).unwrap();
    let mut lifted: Vec<(usize, Vec<usize>)> = lifted
        .iter()
        .map(|r| (*r.get_parent(), r.get_children().clone()))
        .collect();
    lifted.sort();
    // the child 1 is joined to the atom by the one rule 1 -> [4]
    assert_eq!(lifted, vec![(0, vec![1]), (1, vec![4]), (4, vec![])]);
}

#[test]
fn lifting_fails_where_a_step_is_not_stored() {
    let mut db = SimpleRuleDB::new();
    // 1 ~ 2 by the rule 2 -> [1]: the step from 1 to 2 is not stored
    add(&mut db, 0, &[1], false);
    add(&mut db, 2, &[1], true);
    add(&mut db, 2, &[], false);
    let tree = vec![RuleLabel::new(0, vec![1]), RuleLabel::new(1, vec![])];
    assert!(db.eqv_specification_to_specification(tree, 0).is_err());
    // with the step stored the child is joined to the atom
    add(&mut db, 1, &[2], true);
    let tree = vec![RuleLabel::new(0, vec![1]), RuleLabel::new(1, vec![])];
    let lifted = db.eqv_specification_to_specification(tree, 0).unwrap();
    let mut lifted: Vec<(usize, Vec<usize>)> = lifted
        .iter()
        .map(|r| (*r.get_parent(), r.get_children().clone()))
        .collect();
    lifted.sort();
    assert_eq!(lifted, vec![(0, vec![1]), (1, vec![2]), (2, vec![])]);
}

#[test]
fn a_lone_atom_specifies_its_class() {
    for _ in 0..20 {
        let mut db = SimpleRuleDB::new();
        add(&mut db, 0, &[], false);
        let spec = db.get_specification(0, &classes(1)).unwrap();
        assert_eq!(spec.root, Node(0));
        assert_eq!(spec.rules.len(), 1);
        assert_eq!(*spec.rules[0].get_parent(), Node(0));
        assert!(spec.rules[0].get_children().is_empty());
    }
}
