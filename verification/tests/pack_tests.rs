use comb_spec_searcher::combinatorial_class::CombinatorialClass;
use comb_spec_searcher::pack::{Rule, Strategy};

#[derive(Debug, PartialEq, Clone)]
struct Leaf {
    size: u32,
}

impl CombinatorialClass for Leaf {}

#[derive(Debug, PartialEq, Clone)]
struct Halve {}

impl Strategy for Halve {
    type ClassType = Leaf;

    fn decompose(&self, comb_class: &Leaf) -> Vec<Leaf> {
        vec![Leaf { size: comb_class.size / 2 }, Leaf { size: comb_class.size - comb_class.size / 2 }]
    }

    fn is_equivalence(&self) -> bool {
        false
    }
}

#[test]
fn rule_new_caches_children() {
    let rule = Rule::new(Leaf { size: 5 }, Halve {});
    assert_eq!(rule.get_parent(), &Leaf { size: 5 });
    assert_eq!(rule.get_children(), &vec![Leaf { size: 2 }, Leaf { size: 3 }]);
    assert!(!rule.is_equivalence());
    assert_eq!(rule.get_strategy(), Halve {});
}
