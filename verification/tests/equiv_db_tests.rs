use comb_spec_searcher::searcher::equiv_db::{neighbours, EquivDB, UnionFind};
use comb_spec_searcher::searcher::ruledb::RuleLabel;

#[test]
fn equiv_db_test() {
    let mut db = EquivDB::new();
    assert_eq!(1, db.find(1));
    assert_eq!(2, db.find(2));
    assert_eq!(3, db.find(3));
    assert_eq!(4, db.find(4));
    db.union(1, 3);
    println!("{:?}", db.debug_string());
    assert_eq!(2, db.find(2));
    assert_eq!(db.find(1), db.find(3));
    assert!(db.find(1) == 1 || db.find(1) == 3);
    assert_eq!(4, db.find(4));
    db.union(2, 4);
    assert_eq!(db.find(1), db.find(3));
    assert_eq!(db.find(2), db.find(4));
    db.union(1, 2);
    assert_eq!(db.find(1), db.find(2));
    assert_eq!(db.find(2), db.find(3));
    assert_eq!(db.find(3), db.find(4));
}

#[test]
fn union_joins_and_find_is_idempotent() {
    let mut db = EquivDB::new();
    let pairs = [(0, 1), (2, 3), (1, 2), (7, 7), (9, 4), (4, 0)];
    for (a, b) in pairs {
        db.union(a, b);
        assert_eq!(db.find(a), db.find(b));
        let root = db.find(a);
        assert_eq!(db.find(root), root);
    }
    for x in [0, 1, 2, 3, 4, 9] {
        assert_eq!(db.find(x), db.find(0));
    }
    assert_eq!(db.find(7), 7);
    assert_eq!(db.find(100), 100);
    assert!(!db.are_equivalent(7, 0));
    assert!(db.are_equivalent(9, 3));
}

#[test]
fn the_larger_set_keeps_its_root() {
    let mut sets = UnionFind::new();
    // a tie: the root of the second label wins
    sets.union(1, 2);
    assert_eq!(sets.find(1), 2);
    assert_eq!(sets.find(2), 2);
    // the set of 2 has two labels, that of 3 has one
    sets.union(2, 3);
    assert_eq!(sets.find(3), 2);
    sets.union(4, 1);
    assert_eq!(sets.find(4), 2);
    // joining a set with itself changes nothing
    sets.union(3, 4);
    assert_eq!(sets.find(3), 2);
    // {5, 6} against {1, 2, 3, 4}
    sets.union(5, 6);
    assert_eq!(sets.find(5), 6);
    sets.union(1, 5);
    assert_eq!(sets.find(6), 2);
    assert!(sets.are_equivalent(5, 4));
    assert!(!sets.are_equivalent(5, 8));
}

#[test]
fn rule_up_to_equivalence_replaces_and_sorts() {
    let mut db = EquivDB::new();
    db.union(9, 1);
    db.union(5, 7);
    // representatives: 9 -> 1, 5 -> 7
    assert_eq!(db.find(9), 1);
    assert_eq!(db.find(5), 7);
    let rule = RuleLabel::new(9, vec![5, 3, 9, 7]);
    let eqv = db.rule_up_to_equivalence(&rule);
    assert_eq!(eqv, RuleLabel::new(1, vec![1, 3, 7, 7]));
    assert_eq!(*eqv.get_parent(), 1);
    assert_eq!(eqv.get_children(), &vec![1, 3, 7, 7]);
}

#[test]
fn find_path_gives_a_shortest_path() {
    let mut db = EquivDB::new();
    db.union(1, 2);
    db.union(2, 3);
    db.union(3, 4);
    db.union(1, 4);
    db.union(10, 11);
    assert_eq!(db.find_path(1, 1), Ok(vec![1]));
    assert_eq!(db.find_path(1, 2), Ok(vec![1, 2]));
    assert_eq!(db.find_path(2, 1), Ok(vec![2, 1]));
    assert_eq!(db.find_path(1, 4), Ok(vec![1, 4]));
    assert_eq!(db.find_path(4, 2).map(|p| p.len()), Ok(3));
    assert_eq!(db.find_path(11, 10), Ok(vec![11, 10]));
    let path = db.find_path(1, 3).unwrap();
    assert_eq!(path.len(), 3);
    assert_eq!((path[0], path[2]), (1, 3));
    assert!(path[1] == 2 || path[1] == 4);
}

#[test]
fn find_path_fails_between_components() {
    let mut db = EquivDB::new();
    db.union(1, 2);
    db.union(3, 4);
    assert!(db.find_path(1, 3).is_err());
    assert!(db.find_path(2, 5).is_err());
    assert!(db.find_path(5, 6).is_err());
    assert_eq!(db.find_path(5, 5), Ok(vec![5]));
}

#[test]
fn neighbours_follow_edges_both_ways() {
    let edges = vec![(1, 2), (3, 1), (2, 3), (1, 1), (4, 5)];
    assert_eq!(neighbours(&edges, 1), vec![2, 3, 1]);
    assert_eq!(neighbours(&edges, 3), vec![1, 2]);
    assert_eq!(neighbours(&edges, 5), vec![4]);
    assert_eq!(neighbours(&edges, 6), Vec::<usize>::new());
}

#[test]
fn debug_string_shows_the_maps_and_the_edges() {
    let mut db = EquivDB::new();
    assert_eq!(
        db.debug_string(),
        "EquivDB { union_find: UnionFind { parent: {}, weight: {} }, edges: [] }"
    );
    db.find(7);
    assert_eq!(
        db.debug_string(),
        "EquivDB { union_find: UnionFind { parent: {7: 7}, weight: {7: 1} }, edges: [] }"
    );
    db.union(1, 3);
    db.union(3, 1);
    db.union(20, 4);
    let text = db.debug_string();
    assert!(text.starts_with("EquivDB { union_find: UnionFind { parent: {"));
    assert!(text.ends_with("} }, edges: [(1, 3), (3, 1), (20, 4)] }"));
    for entry in ["7: 7", "1: 3", "3: 3", "20: 4", "4: 4"] {
        let parents = &text[..text.find(", weight: ").unwrap()];
        assert!(parents.contains(entry));
    }
    assert!(text.contains(", weight: {"));
}
