use comb_spec_searcher::combinatorial_class::CombinatorialClass;
use comb_spec_searcher::pack::{Rule, Strategy, StrategyFactory, StrategyPack};
use comb_spec_searcher::searcher::queue::{ClassQueue, WorkPacket};

#[derive(Debug, PartialEq, Clone)]
struct MockClass {}

impl CombinatorialClass for MockClass {}

#[derive(Debug, PartialEq, Clone)]
enum MockStrategy {
    Inferral1,
    Inferral2,
    Initial1,
    Initial2,
    Expansion1,
    Expansion2,
    Verification1,
    Verification2,
}

impl Strategy for MockStrategy {
    type ClassType = MockClass;

    fn decompose(&self, _comb_class: &MockClass) -> Vec<MockClass> {
        unreachable!();
    }

    fn is_equivalence(&self) -> bool {
        unreachable!();
    }
}

impl StrategyFactory for MockStrategy {
    type ClassType = MockClass;
    type StrategyType = MockStrategy;

    fn apply(&self, _class: &MockClass) -> Vec<Rule<MockStrategy>> {
        unreachable!();
    }
}

fn pack() -> StrategyPack<MockStrategy> {
    StrategyPack {
        initials: vec![MockStrategy::Initial1, MockStrategy::Initial2],
        inferrals: vec![MockStrategy::Inferral1, MockStrategy::Inferral2],
        expansions: vec![MockStrategy::Expansion1, MockStrategy::Expansion2],
        verifications: vec![MockStrategy::Verification1, MockStrategy::Verification2],
    }
}

#[test]
/// Test that the strategies are yielded in the right order for a single class
fn queue_basic_one_class_test() {
    let mut queue = ClassQueue::new(pack(), 0);
    let mut expected_factory = [
        MockStrategy::Verification1,
        MockStrategy::Verification2,
        MockStrategy::Inferral1,
        MockStrategy::Inferral2,
        MockStrategy::Initial1,
        MockStrategy::Initial2,
        MockStrategy::Expansion1,
        MockStrategy::Expansion2,
    ]
    .iter();
    let wp = queue.next(None).unwrap();
    assert_eq!(wp.class_label, 0);
    assert_eq!(wp.factory, expected_factory.next().unwrap());
    for factory in expected_factory {
        let wp = queue.next(Some(false)).unwrap();
        assert_eq!(wp.class_label, 0);
        assert_eq!(wp.factory, factory);
    }
    assert_eq!(queue.next(Some(false)), None);
}

#[test]
fn queue_basic_two_classes_test() {
    let mut queue = ClassQueue::new(pack(), 0);
    queue.add(1);
    let mut expected_wps = [
        WorkPacket {
            class_label: 0,
            factory: &MockStrategy::Verification1,
        },
        WorkPacket {
            class_label: 0,
            factory: &MockStrategy::Verification2,
        },
        WorkPacket {
            class_label: 1,
            factory: &MockStrategy::Verification1,
        },
        WorkPacket {
            class_label: 1,
            factory: &MockStrategy::Verification2,
        },
        WorkPacket {
            class_label: 0,
            factory: &MockStrategy::Inferral1,
        },
        WorkPacket {
            class_label: 0,
            factory: &MockStrategy::Inferral2,
        },
        WorkPacket {
            class_label: 1,
            factory: &MockStrategy::Inferral1,
        },
        WorkPacket {
            class_label: 1,
            factory: &MockStrategy::Inferral2,
        },
        WorkPacket {
            class_label: 0,
            factory: &MockStrategy::Initial1,
        },
        WorkPacket {
            class_label: 0,
            factory: &MockStrategy::Initial2,
        },
        WorkPacket {
            class_label: 1,
            factory: &MockStrategy::Initial1,
        },
        WorkPacket {
            class_label: 1,
            factory: &MockStrategy::Initial2,
        },
        WorkPacket {
            class_label: 0,
            factory: &MockStrategy::Expansion1,
        },
        WorkPacket {
            class_label: 0,
            factory: &MockStrategy::Expansion2,
        },
        WorkPacket {
            class_label: 1,
            factory: &MockStrategy::Expansion1,
        },
        WorkPacket {
            class_label: 1,
            factory: &MockStrategy::Expansion2,
        },
    ]
    .into_iter();
    assert_eq!(expected_wps.next().unwrap(), queue.next(None).unwrap());
    for expected_wp in expected_wps {
        assert_eq!(expected_wp, queue.next(Some(false)).unwrap());
    }
    assert_eq!(queue.next(Some(false)), None);
}

#[test]
fn queue_add_class_while_working() {
    let mut queue = ClassQueue::new(pack(), 0);
    queue.next(None).unwrap();
    for _ in 0..2 {
        queue.next(Some(false)).unwrap();
    }
    queue.add(3);
    assert_eq!(
        queue.next(Some(false)),
        Some(WorkPacket {
            class_label: 3,
            factory: &MockStrategy::Verification1
        })
    );
    assert_eq!(
        queue.next(Some(false)),
        Some(WorkPacket {
            class_label: 3,
            factory: &MockStrategy::Verification2
        })
    );
    assert_eq!(
        queue.next(Some(false)),
        Some(WorkPacket {
            class_label: 0,
            factory: &MockStrategy::Inferral2
        })
    );
}

#[test]
fn add_same_class_twice() {
    let mut queue = ClassQueue::new(pack(), 0);
    queue.next(None);
    for _ in 0..2 {
        queue.next(Some(false)).unwrap();
    }
    queue.add(0);
    for _ in 3..8 {
        queue.next(Some(false)).unwrap();
    }
    assert_eq!(queue.next(Some(false)), None);
}

#[test]
fn stop_yielding_after_verification() {
    let mut queue = ClassQueue::new(pack(), 0);
    queue.next(None).unwrap();
    assert_eq!(queue.next(Some(true)), None);
}

#[test]
fn stop_yielding_after_inferral() {
    let mut queue = ClassQueue::new(pack(), 0);
    queue.next(None).unwrap();
    queue.next(Some(false)).unwrap();
    queue.next(Some(false)).unwrap();
    assert_eq!(queue.next(Some(true)), None);
}

#[test]
fn keep_yielding_after_initial_and_expansion() {
    let mut queue = ClassQueue::new(pack(), 0);
    queue.next(None).unwrap(); // ver1
    queue.next(Some(false)).unwrap(); // ver2
    queue.next(Some(false)).unwrap(); // inf1
    queue.next(Some(false)).unwrap(); // inf2
    queue.next(Some(false)).unwrap(); // init1
    queue
        .next(Some(true))
        .expect("Should yield after successful initial"); // init2
    queue
        .next(Some(true))
        .expect("Should yield after successful initial"); //exp1
    queue
        .next(Some(true))
        .expect("Should yield after successful initial"); //exp2
    assert_eq!(queue.next(Some(true)), None)
}

fn tier(factory: &MockStrategy) -> usize {
    match factory {
        MockStrategy::Verification1 | MockStrategy::Verification2 => 0,
        MockStrategy::Inferral1 | MockStrategy::Inferral2 => 1,
        MockStrategy::Initial1 | MockStrategy::Initial2 => 2,
        MockStrategy::Expansion1 | MockStrategy::Expansion2 => 3,
    }
}

#[test]
fn no_packet_is_yielded_twice() {
    let mut queue = ClassQueue::new(pack(), 0);
    let mut seen: Vec<(usize, MockStrategy)> = Vec::new();
    let mut flag = None;
    let mut step = 0;
    loop {
        let (label, factory) = match queue.next(flag) {
            Some(wp) => (wp.class_label, wp.factory.clone()),
            None => break,
        };
        assert!(!seen.contains(&(label, factory.clone())));
        seen.push((label, factory));
        flag = Some(false);
        step += 1;
        if step % 3 == 0 && step <= 30 {
            queue.add(step / 3);
            queue.add(0);
        }
    }
    // classes 0..=10, the last ones added while the first were worked on
    assert_eq!(seen.len(), 88);
}

#[test]
fn packets_of_a_tier_come_before_those_of_later_tiers() {
    let mut queue = ClassQueue::new(pack(), 0);
    queue.add(1);
    queue.add(2);
    let mut last_tier = 0;
    let mut flag = None;
    let mut count = 0;
    while let Some(wp) = queue.next(flag) {
        // nothing is added while the queue is worked off, so tiers never go back
        assert!(tier(wp.factory) >= last_tier);
        last_tier = tier(wp.factory);
        flag = Some(false);
        count += 1;
    }
    assert_eq!(count, 24);
    assert_eq!(last_tier, 3);
}

#[test]
fn ignored_class_is_skipped() {
    let mut queue = ClassQueue::new(pack(), 0);
    queue.add(1);
    queue.ignore(0);
    let mut flag = None;
    let mut labels = Vec::new();
    while let Some(wp) = queue.next(flag) {
        labels.push(wp.class_label);
        flag = Some(false);
    }
    assert_eq!(labels, vec![1; 8]);
}

#[test]
fn success_of_an_initial_does_not_settle_the_class() {
    let mut queue = ClassQueue::new(pack(), 5);
    let mut flags = vec![None, Some(false), Some(false), Some(false), Some(false)];
    flags.extend([Some(true), Some(true), Some(true)]);
    let mut factories = Vec::new();
    for flag in flags {
        let wp = queue.next(flag).unwrap();
        assert_eq!(wp.class_label, 5);
        factories.push(wp.factory.clone());
    }
    assert_eq!(
        factories[4..],
        [
            MockStrategy::Initial1,
            MockStrategy::Initial2,
            MockStrategy::Expansion1,
            MockStrategy::Expansion2
        ]
    );
    assert_eq!(queue.next(Some(true)), None);
}

#[test]
fn pack_is_indexed_by_tier() {
    let pack = pack();
    assert_eq!(pack.len(), 8);
    let order = [
        MockStrategy::Verification1,
        MockStrategy::Verification2,
        MockStrategy::Inferral1,
        MockStrategy::Inferral2,
        MockStrategy::Initial1,
        MockStrategy::Initial2,
        MockStrategy::Expansion1,
        MockStrategy::Expansion2,
    ];
    for (index, factory) in order.iter().enumerate() {
        assert_eq!(pack.get_strategy_factory(index), factory);
        assert_eq!(pack.is_verification(index), index < 2);
        assert_eq!(pack.is_inferral(index), (2..4).contains(&index));
    }
}
