use comb_spec_searcher::searcher::ruledb::forest::function::{Function, IntOrInf};
use comb_spec_searcher::searcher::ruledb::forest::table_method::{
    ForestRuleKey, RuleBucket, RuleClassConnector, TableMethod,
};
use comb_spec_searcher::searcher::ruledb::forest::ForestRuleDB;

/// The universe consist of the rule of the usual 132 tree plus a dummy rule that is
/// useless.
#[test]
fn pumping_132_universe_test() {
    let rules = vec![
        ForestRuleKey::new(0, vec![1, 2], vec![0, 0], RuleBucket::Normal),
        ForestRuleKey::new(1, vec![], vec![], RuleBucket::Verification),
        ForestRuleKey::new(2, vec![3], vec![0], RuleBucket::Equiv),
        ForestRuleKey::new(3, vec![4], vec![0], RuleBucket::Equiv),
        ForestRuleKey::new(4, vec![5, 0, 0], vec![0, 1, 1], RuleBucket::Normal),
        ForestRuleKey::new(5, vec![], vec![], RuleBucket::Verification),
        ForestRuleKey::new(2, vec![6], vec![2], RuleBucket::Undefined),
    ];
    let mut tb = TableMethod::new();
    for rule in rules.into_iter() {
        tb.add_rule_key(rule)
    }
    for i in 0..6 {
        assert_eq!(*tb.function().get_value(i), IntOrInf::Infinity)
    }
    assert!((0..6).all(|c| tb.is_pumping(c)));
    assert!(!tb.is_pumping(6));
    let mut pu: Vec<_> = tb
        .pumping_subuniverse()
        .into_iter()
        .map(|forest_key| forest_key.key())
        .collect();
    pu.sort();
    assert_eq!(
        pu,
        vec![
            (&0, &vec![1, 2]),
            (&1, &vec![]),
            (&2, &vec![3]),
            (&3, &vec![4]),
            (&4, &vec![5, 0, 0]),
            (&5, &vec![])
        ]
    );
}

/// The universe consist of the rule of the usual 132 tree plus a dummy rule that is
/// useless.

/// We add rule progressively and make sure the function is always up to date.
#[test]
fn universe132_pumping_progressive_test() {
    let mut tb = TableMethod::new();

    // Point insertion
    tb.add_rule_key(ForestRuleKey::new(
        0,
        vec![1, 2],
        vec![0, 0],
        RuleBucket::Normal,
    ));
    assert_eq!(tb.function().get_value(0), &IntOrInf::Int(0));
    assert_eq!(tb.function().get_value(1), &IntOrInf::Int(0));
    assert_eq!(tb.function().get_value(2), &IntOrInf::Int(0));
    // Empty verif
    tb.add_rule_key(ForestRuleKey::new(
        1,
        vec![],
        vec![],
        RuleBucket::Verification,
    ));
    assert_eq!(tb.function().get_value(0), &IntOrInf::Int(0));
    assert_eq!(tb.function().get_value(1), &IntOrInf::Infinity);
    assert_eq!(tb.function().get_value(2), &IntOrInf::Int(0));
    // Point placement
    tb.add_rule_key(ForestRuleKey::new(2, vec![3], vec![0], RuleBucket::Equiv));
    assert_eq!(tb.function().get_value(0), &IntOrInf::Int(0));
    assert_eq!(tb.function().get_value(1), &IntOrInf::Infinity);
    assert_eq!(tb.function().get_value(2), &IntOrInf::Int(0));
    assert_eq!(tb.function().get_value(3), &IntOrInf::Int(0));
    // Row col sept
    tb.add_rule_key(ForestRuleKey::new(3, vec![4], vec![0], RuleBucket::Equiv));
    assert_eq!(tb.function().get_value(0), &IntOrInf::Int(0));
    assert_eq!(tb.function().get_value(1), &IntOrInf::Infinity);
    assert_eq!(tb.function().get_value(2), &IntOrInf::Int(0));
    assert_eq!(tb.function().get_value(3), &IntOrInf::Int(0));
    assert_eq!(tb.function().get_value(4), &IntOrInf::Int(0));
    // Point verif
    tb.add_rule_key(ForestRuleKey::new(
        5,
        vec![],
        vec![],
        RuleBucket::Verification,
    ));
    assert_eq!(tb.function().get_value(0), &IntOrInf::Int(0));
    assert_eq!(tb.function().get_value(1), &IntOrInf::Infinity);
    assert_eq!(tb.function().get_value(2), &IntOrInf::Int(0));
    assert_eq!(tb.function().get_value(3), &IntOrInf::Int(0));
    assert_eq!(tb.function().get_value(4), &IntOrInf::Int(0));
    assert_eq!(tb.function().get_value(5), &IntOrInf::Infinity);
    // Dumb rule
    tb.add_rule_key(ForestRuleKey::new(
        2,
        vec![6],
        vec![-2],
        RuleBucket::Undefined,
    ));
    assert_eq!(tb.function().get_value(0), &IntOrInf::Int(0));
    assert_eq!(tb.function().get_value(1), &IntOrInf::Infinity);
    assert_eq!(tb.function().get_value(2), &IntOrInf::Int(0));
    assert_eq!(tb.function().get_value(3), &IntOrInf::Int(0));
    assert_eq!(tb.function().get_value(4), &IntOrInf::Int(0));
    assert_eq!(tb.function().get_value(5), &IntOrInf::Infinity);
    assert_eq!(tb.function().get_value(6), &IntOrInf::Int(0));
    // Dumb rule. This will pump 2 and 0 a little bit
    tb.add_rule_key(ForestRuleKey::new(
        2,
        vec![7],
        vec![2],
        RuleBucket::Undefined,
    ));
    assert_eq!(tb.function().get_value(0), &IntOrInf::Int(2));
    assert_eq!(tb.function().get_value(1), &IntOrInf::Infinity);
    assert_eq!(tb.function().get_value(2), &IntOrInf::Int(2));
    assert_eq!(tb.function().get_value(3), &IntOrInf::Int(0));
    assert_eq!(tb.function().get_value(4), &IntOrInf::Int(0));
    assert_eq!(tb.function().get_value(5), &IntOrInf::Infinity);
    assert_eq!(tb.function().get_value(6), &IntOrInf::Int(0));
    assert_eq!(tb.function().get_value(7), &IntOrInf::Int(0));
    // Factor
    tb.add_rule_key(ForestRuleKey::new(
        4,
        vec![5, 0, 0],
        vec![0, 1, 1],
        RuleBucket::Normal,
    ));
    assert_eq!(tb.function().get_value(0), &IntOrInf::Infinity);
    assert_eq!(tb.function().get_value(1), &IntOrInf::Infinity);
    assert_eq!(tb.function().get_value(2), &IntOrInf::Infinity);
    assert_eq!(tb.function().get_value(3), &IntOrInf::Infinity);
    assert_eq!(tb.function().get_value(4), &IntOrInf::Infinity);
    assert_eq!(tb.function().get_value(5), &IntOrInf::Infinity);
    assert_eq!(tb.function().get_value(6), &IntOrInf::Int(0));
    assert_eq!(tb.function().get_value(7), &IntOrInf::Int(0));
}

#[test]
fn universe_not_pumping_test() {
    let rules = vec![
        ForestRuleKey::new(0, vec![1, 2], vec![0, 0], RuleBucket::Normal),
        ForestRuleKey::new(5, vec![], vec![], RuleBucket::Verification),
        ForestRuleKey::new(2, vec![3], vec![0], RuleBucket::Normal),
        ForestRuleKey::new(3, vec![4], vec![0], RuleBucket::Normal),
        ForestRuleKey::new(4, vec![5, 0, 0], vec![0, 1, 1], RuleBucket::Normal),
    ];
    let mut tb = TableMethod::new();
    for rule in rules.into_iter() {
        tb.add_rule_key(rule)
    }
    assert_eq!(tb.function().get_value(0), &IntOrInf::Int(0));
    assert_eq!(tb.function().get_value(1), &IntOrInf::Int(0));
    assert_eq!(tb.function().get_value(2), &IntOrInf::Int(1));
    assert_eq!(tb.function().get_value(3), &IntOrInf::Int(1));
    assert_eq!(tb.function().get_value(4), &IntOrInf::Int(1));
    assert_eq!(tb.function().get_value(5), &IntOrInf::Infinity);
}

#[test]
fn segmented_test() {
    let mut tb = TableMethod::new();

    tb.add_rule_key(ForestRuleKey::new(
        0,
        vec![1, 2],
        vec![0, 0],
        RuleBucket::Undefined,
    ));
    tb.add_rule_key(ForestRuleKey::new(
        1,
        vec![4, 14],
        vec![0, 0],
        RuleBucket::Undefined,
    ));
    tb.add_rule_key(ForestRuleKey::new(2, vec![], vec![], RuleBucket::Undefined));
    assert_eq!(tb.function().get_value(2), &IntOrInf::Infinity);

    tb.add_rule_key(ForestRuleKey::new(
        3,
        vec![16, 5],
        vec![1, 0],
        RuleBucket::Undefined,
    ));
    tb.add_rule_key(ForestRuleKey::new(4, vec![], vec![], RuleBucket::Undefined));
    tb.add_rule_key(ForestRuleKey::new(5, vec![], vec![], RuleBucket::Undefined));
    assert_eq!(tb.function().get_value(2), &IntOrInf::Infinity);
    assert_eq!(tb.function().get_value(3), &IntOrInf::Int(1));
    assert_eq!(tb.function().get_value(4), &IntOrInf::Infinity);
    assert_eq!(tb.function().get_value(5), &IntOrInf::Infinity);

    // Induced a gap size change
    tb.add_rule_key(ForestRuleKey::new(
        6,
        vec![7, 5, 17],
        vec![2, 1, 1],
        RuleBucket::Undefined,
    ));
    assert_eq!(tb.function().get_value(2), &IntOrInf::Infinity);
    assert_eq!(tb.function().get_value(3), &IntOrInf::Int(1));
    assert_eq!(tb.function().get_value(4), &IntOrInf::Infinity);
    assert_eq!(tb.function().get_value(5), &IntOrInf::Infinity);
    assert_eq!(tb.function().get_value(6), &IntOrInf::Int(1));

    tb.add_rule_key(ForestRuleKey::new(
        16,
        vec![6],
        vec![0],
        RuleBucket::Undefined,
    ));
    assert_eq!(tb.function().get_value(2), &IntOrInf::Infinity);
    assert_eq!(tb.function().get_value(3), &IntOrInf::Int(2));
    assert_eq!(tb.function().get_value(4), &IntOrInf::Infinity);
    assert_eq!(tb.function().get_value(5), &IntOrInf::Infinity);
    assert_eq!(tb.function().get_value(6), &IntOrInf::Int(1));
    assert_eq!(tb.function().get_value(16), &IntOrInf::Int(1));

    tb.add_rule_key(ForestRuleKey::new(7, vec![], vec![], RuleBucket::Undefined));
    tb.add_rule_key(ForestRuleKey::new(
        8,
        vec![9, 5],
        vec![1, 0],
        RuleBucket::Undefined,
    ));
    assert_eq!(tb.function().get_value(2), &IntOrInf::Infinity);
    assert_eq!(tb.function().get_value(3), &IntOrInf::Int(2));
    assert_eq!(tb.function().get_value(4), &IntOrInf::Infinity);
    assert_eq!(tb.function().get_value(5), &IntOrInf::Infinity);
    assert_eq!(tb.function().get_value(6), &IntOrInf::Int(1));
    assert_eq!(tb.function().get_value(7), &IntOrInf::Infinity);
    assert_eq!(tb.function().get_value(8), &IntOrInf::Int(1));
    assert_eq!(tb.function().get_value(16), &IntOrInf::Int(1));

    tb.add_rule_key(ForestRuleKey::new(
        12,
        vec![20, 5],
        vec![-1, 0],
        RuleBucket::Undefined,
    ));
    tb.add_rule_key(ForestRuleKey::new(
        20,
        vec![13],
        vec![0],
        RuleBucket::Undefined,
    ));
    tb.add_rule_key(ForestRuleKey::new(
        13,
        vec![15, 2, 5],
        vec![-1, 1, 0],
        RuleBucket::Undefined,
    ));
    tb.add_rule_key(ForestRuleKey::new(
        15,
        vec![1],
        vec![0],
        RuleBucket::Undefined,
    ));
    tb.add_rule_key(ForestRuleKey::new(
        14,
        vec![3],
        vec![0],
        RuleBucket::Undefined,
    ));
    assert_eq!(tb.function().get_value(0), &IntOrInf::Int(2));
    assert_eq!(tb.function().get_value(1), &IntOrInf::Int(2));
    assert_eq!(tb.function().get_value(2), &IntOrInf::Infinity);
    assert_eq!(tb.function().get_value(3), &IntOrInf::Int(2));
    assert_eq!(tb.function().get_value(4), &IntOrInf::Infinity);
    assert_eq!(tb.function().get_value(5), &IntOrInf::Infinity);
    assert_eq!(tb.function().get_value(6), &IntOrInf::Int(1));
    assert_eq!(tb.function().get_value(7), &IntOrInf::Infinity);
    assert_eq!(tb.function().get_value(8), &IntOrInf::Int(1));
    assert_eq!(tb.function().get_value(13), &IntOrInf::Int(1));
    assert_eq!(tb.function().get_value(14), &IntOrInf::Int(2));
    assert_eq!(tb.function().get_value(15), &IntOrInf::Int(2));
    assert_eq!(tb.function().get_value(16), &IntOrInf::Int(1));
    assert_eq!(tb.function().get_value(20), &IntOrInf::Int(1));

    tb.add_rule_key(ForestRuleKey::new(
        18,
        vec![8],
        vec![0],
        RuleBucket::Undefined,
    ));
    tb.add_rule_key(ForestRuleKey::new(
        11,
        vec![12, 18],
        vec![0, 0],
        RuleBucket::Undefined,
    ));
    assert_eq!(tb.function().get_value(0), &IntOrInf::Int(2));
    assert_eq!(tb.function().get_value(1), &IntOrInf::Int(2));
    assert_eq!(tb.function().get_value(2), &IntOrInf::Infinity);
    assert_eq!(tb.function().get_value(3), &IntOrInf::Int(2));
    assert_eq!(tb.function().get_value(4), &IntOrInf::Infinity);
    assert_eq!(tb.function().get_value(5), &IntOrInf::Infinity);
    assert_eq!(tb.function().get_value(6), &IntOrInf::Int(1));
    assert_eq!(tb.function().get_value(7), &IntOrInf::Infinity);
    assert_eq!(tb.function().get_value(8), &IntOrInf::Int(1));
    assert_eq!(tb.function().get_value(13), &IntOrInf::Int(1));
    assert_eq!(tb.function().get_value(14), &IntOrInf::Int(2));
    assert_eq!(tb.function().get_value(15), &IntOrInf::Int(2));
    assert_eq!(tb.function().get_value(16), &IntOrInf::Int(1));
    assert_eq!(tb.function().get_value(18), &IntOrInf::Int(1));
    assert_eq!(tb.function().get_value(20), &IntOrInf::Int(1));

    tb.add_rule_key(ForestRuleKey::new(
        17,
        vec![8],
        vec![0],
        RuleBucket::Undefined,
    ));
    assert_eq!(tb.function().get_value(0), &IntOrInf::Int(3));
    assert_eq!(tb.function().get_value(1), &IntOrInf::Int(3));
    assert_eq!(tb.function().get_value(2), &IntOrInf::Infinity);
    assert_eq!(tb.function().get_value(3), &IntOrInf::Int(3));
    assert_eq!(tb.function().get_value(4), &IntOrInf::Infinity);
    assert_eq!(tb.function().get_value(5), &IntOrInf::Infinity);
    assert_eq!(tb.function().get_value(6), &IntOrInf::Int(2));
    assert_eq!(tb.function().get_value(7), &IntOrInf::Infinity);
    assert_eq!(tb.function().get_value(8), &IntOrInf::Int(1));
    assert_eq!(tb.function().get_value(11), &IntOrInf::Int(1));
    assert_eq!(tb.function().get_value(12), &IntOrInf::Int(1));
    assert_eq!(tb.function().get_value(13), &IntOrInf::Int(2));
    assert_eq!(tb.function().get_value(14), &IntOrInf::Int(3));
    assert_eq!(tb.function().get_value(15), &IntOrInf::Int(3));
    assert_eq!(tb.function().get_value(16), &IntOrInf::Int(2));
    assert_eq!(tb.function().get_value(17), &IntOrInf::Int(1));
    assert_eq!(tb.function().get_value(18), &IntOrInf::Int(1));
    assert_eq!(tb.function().get_value(20), &IntOrInf::Int(2));

    tb.add_rule_key(ForestRuleKey::new(
        9,
        vec![0, 19],
        vec![0, 0],
        RuleBucket::Undefined,
    ));
    tb.add_rule_key(ForestRuleKey::new(
        10,
        vec![5, 11],
        vec![0, 1],
        RuleBucket::Undefined,
    ));
    assert_eq!(tb.function().get_value(0), &IntOrInf::Int(3));
    assert_eq!(tb.function().get_value(1), &IntOrInf::Int(3));
    assert_eq!(tb.function().get_value(2), &IntOrInf::Infinity);
    assert_eq!(tb.function().get_value(3), &IntOrInf::Int(3));
    assert_eq!(tb.function().get_value(4), &IntOrInf::Infinity);
    assert_eq!(tb.function().get_value(5), &IntOrInf::Infinity);
    assert_eq!(tb.function().get_value(6), &IntOrInf::Int(2));
    assert_eq!(tb.function().get_value(7), &IntOrInf::Infinity);
    assert_eq!(tb.function().get_value(8), &IntOrInf::Int(1));
    assert_eq!(tb.function().get_value(10), &IntOrInf::Int(2));
    assert_eq!(tb.function().get_value(11), &IntOrInf::Int(1));
    assert_eq!(tb.function().get_value(12), &IntOrInf::Int(1));
    assert_eq!(tb.function().get_value(13), &IntOrInf::Int(2));
    assert_eq!(tb.function().get_value(14), &IntOrInf::Int(3));
    assert_eq!(tb.function().get_value(15), &IntOrInf::Int(3));
    assert_eq!(tb.function().get_value(16), &IntOrInf::Int(2));
    assert_eq!(tb.function().get_value(17), &IntOrInf::Int(1));
    assert_eq!(tb.function().get_value(18), &IntOrInf::Int(1));
    assert_eq!(tb.function().get_value(20), &IntOrInf::Int(2));

    tb.add_rule_key(ForestRuleKey::new(
        19,
        vec![10],
        vec![0],
        RuleBucket::Undefined,
    ));
    assert!((0..21).all(|c| tb.function().get_value(c) == &IntOrInf::Infinity));
    assert!((0..21).all(|c| tb.is_pumping(c)));
}

#[test]
fn function_counts_up_and_finds_gaps() {
    let mut f = Function::new();
    assert_eq!(f.get_value(3), &IntOrInf::Int(0));
    assert_eq!(f.preimage_gap(1), 0);
    f.increase_value(3);
    assert_eq!(f.get_value(3), &IntOrInf::Int(1));
    assert_eq!(f.get_value(2), &IntOrInf::Int(0));
    // the value 1 is taken, 2 is free
    assert_eq!(f.preimage_gap(1), 1);
    assert_eq!(f.preimage_gap(2), 1);
    f.increase_value(3);
    // 1 is free again
    assert_eq!(f.preimage_gap(1), 0);
    // (0, 2] holds the value 2
    assert_eq!(f.preimage_gap(2), 2);
    f.increase_value(0);
    f.increase_value(5);
    f.increase_value(5);
    f.increase_value(5);
    f.increase_value(5);
    // values: 1, 0, 0, 2, 0, 4
    assert_eq!(f.preimage_gap(1), 2);
    assert_eq!(f.preimage_gap(2), 4);
    assert_eq!(f.preimage_gap(5), 4);
    f.set_infinite(5);
    assert_eq!(f.get_value(5), &IntOrInf::Infinity);
    assert_eq!(f.preimage_gap(2), 2);
    f.increase_value(5);
    assert_eq!(f.get_value(5), &IntOrInf::Infinity);
    f.set_infinite(9);
    assert_eq!(f.preimage(IntOrInf::Infinity), vec![5, 9]);
    assert_eq!(f.preimage(IntOrInf::Int(0)), vec![1, 2, 4, 6, 7, 8]);
    assert_eq!(f.preimage(IntOrInf::Int(2)), vec![3]);
    assert!(IntOrInf::Int(7).is_finite());
    assert!(!IntOrInf::Int(7).is_infinite());
    assert!(IntOrInf::Infinity.is_infinite());
}

#[test]
fn connector_keeps_what_it_is_told() {
    let mut connector = RuleClassConnector::new();
    assert_eq!(connector.get_rules_pumping_class(4), None);
    assert_eq!(connector.get_rules_using_class(4), None);
    connector.add_rule_pumping_class(4, 0);
    connector.add_rule_pumping_class(4, 2);
    connector.add_rule_using_class(4, 1, 0);
    connector.add_rule_using_class(5, 1, 1);
    connector.add_rule_using_class(4, 1, 2);
    assert_eq!(connector.get_rules_pumping_class(4), Some(&vec![0, 2]));
    assert_eq!(connector.get_rules_using_class(4), Some(&vec![(1, 0), (1, 2)]));
    assert_eq!(connector.get_rules_using_class(5), Some(&vec![(1, 1)]));
    connector.remove_class_information(4);
    assert_eq!(connector.get_rules_pumping_class(4), None);
    assert_eq!(connector.get_rules_using_class(4), None);
    assert_eq!(connector.get_rules_using_class(5), Some(&vec![(1, 1)]));
}

#[test]
fn atom_pumps_at_once() {
    let mut tb = TableMethod::new();
    assert!(!tb.is_pumping(0));
    tb.add_rule_key(ForestRuleKey::new(0, vec![], vec![], RuleBucket::Verification));
    assert!(tb.is_pumping(0));
    assert_eq!(tb.stable_subset(), vec![0]);
    assert_eq!(tb.pumping_subuniverse().len(), 1);
}

#[test]
fn values_never_go_down_and_settle() {
    let rules = vec![
        (0u32, vec![1u32, 2], vec![0i8, 0]),
        (5, vec![], vec![]),
        (2, vec![3], vec![0]),
        (3, vec![4], vec![0]),
        (4, vec![5, 0, 0], vec![0, 1, 1]),
        (1, vec![3], vec![-128]),
        (1, vec![5, 5], vec![127, 3]),
    ];
    let mut tb = TableMethod::new();
    let mut added: Vec<(u32, Vec<u32>, Vec<i8>)> = Vec::new();
    let mut before: Vec<IntOrInf> = (0..8).map(|c| *tb.function().get_value(c)).collect();
    for (parent, children, shifts) in rules {
        tb.add_rule_key(ForestRuleKey::new(
            parent,
            children.clone(),
            shifts.clone(),
            RuleBucket::Undefined,
        ));
        added.push((parent, children, shifts));
        let after: Vec<IntOrInf> = (0..8).map(|c| *tb.function().get_value(c)).collect();
        for c in 0..8 {
            match (before[c], after[c]) {
                (IntOrInf::Int(a), IntOrInf::Int(b)) => assert!(a <= b),
                (IntOrInf::Infinity, IntOrInf::Int(_)) => panic!("a value came down"),
                _ => {}
            }
        }
        // every rule with a finite parent is held back by a child
        for (parent, children, shifts) in added.iter() {
            if let IntOrInf::Int(pv) = after[*parent as usize] {
                assert!(children.iter().zip(shifts.iter()).any(|(c, s)| {
                    match after[*c as usize] {
                        IntOrInf::Int(cv) => cv as i64 + *s as i64 <= pv as i64,
                        IntOrInf::Infinity => false,
                    }
                }));
            }
        }
        before = after;
    }
    assert!((0..6).all(|c| tb.is_pumping(c)));
    assert_eq!(tb.stable_subset(), vec![0, 1, 2, 3, 4, 5]);
}

#[test]
fn forest_rule_db_wraps_the_table() {
    let mut db = ForestRuleDB::new(false);
    db.add_rule_key(ForestRuleKey::new(0, vec![1], vec![1], RuleBucket::Normal));
    assert!(!db.is_pumping(0));
    db.add_rule_key(ForestRuleKey::new(1, vec![], vec![], RuleBucket::Verification));
    assert!(db.is_pumping(1));
    assert!(db.is_pumping(0));
    assert!(!db.is_pumping(2));
}

#[test]
fn the_132_tree_universe_pumps_but_for_the_useless_class() {
    let rules = vec![
        ForestRuleKey::new(0, vec![1, 2], vec![0, 0], RuleBucket::Normal),
        ForestRuleKey::new(1, vec![], vec![], RuleBucket::Verification),
        ForestRuleKey::new(2, vec![3], vec![0], RuleBucket::Equiv),
        ForestRuleKey::new(3, vec![4], vec![0], RuleBucket::Equiv),
        ForestRuleKey::new(4, vec![5, 0, 0], vec![0, 1, 1], RuleBucket::Normal),
        ForestRuleKey::new(5, vec![], vec![], RuleBucket::Verification),
        ForestRuleKey::new(2, vec![6], vec![2], RuleBucket::Undefined),
    ];
    let mut tb = TableMethod::new();
    for rule in rules.into_iter() {
        tb.add_rule_key(rule)
    }
    for c in 0..6 {
        assert_eq!(tb.function().get_value(c), &IntOrInf::Infinity);
        assert!(tb.is_pumping(c));
    }
    assert_eq!(tb.function().get_value(6), &IntOrInf::Int(0));
    assert!(!tb.is_pumping(6));
    assert_eq!(tb.stable_subset(), vec![0, 1, 2, 3, 4, 5]);
}

#[test]
fn a_class_without_a_rule_stays_at_zero() {
    let mut tb = TableMethod::new();
    tb.add_rule_key(ForestRuleKey::new(3, vec![7, 8], vec![4, 1], RuleBucket::Normal));
    tb.add_rule_key(ForestRuleKey::new(7, vec![9], vec![-3], RuleBucket::Normal));
    tb.add_rule_key(ForestRuleKey::new(5, vec![], vec![], RuleBucket::Verification));
    // 3 is held back by 8: 0 + 1 <= 1
    assert_eq!(tb.function().get_value(3), &IntOrInf::Int(1));
    assert_eq!(tb.function().get_value(5), &IntOrInf::Infinity);
    for c in [0, 1, 2, 4, 6, 7, 8, 9, 10, 1000] {
        assert_eq!(tb.function().get_value(c), &IntOrInf::Int(0));
    }
}
