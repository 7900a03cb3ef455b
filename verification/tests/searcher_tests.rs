use comb_spec_searcher::errors::SpecificationNotFoundError;
use comb_spec_searcher::pack::StrategyPack;
use comb_spec_searcher::searcher::ruledb::simple::SimpleRuleDB;
use comb_spec_searcher::word::{AvoidingWithPrefix, WordStrategy};
use comb_spec_searcher::CombinatorialSpecificationSearcher;

fn word(prefix: &str, just_prefix: bool) -> AvoidingWithPrefix {
    let patterns = vec![String::from("b")];
    let alphabet = vec!['a', 'b'];
    if just_prefix {
        AvoidingWithPrefix::new_just_prefix(String::from(prefix), patterns, alphabet)
    } else {
        AvoidingWithPrefix::new(String::from(prefix), patterns, alphabet)
    }
}

#[test]
fn verification_atom_at_start() {
    let pack = StrategyPack {
        initials: vec![],
        inferrals: vec![],
        expansions: vec![],
        verifications: vec![WordStrategy::Atom],
    };
    let start = word("ab", true);
    let mut searcher =
        CombinatorialSpecificationSearcher::new(start.clone(), pack, SimpleRuleDB::new());
    let spec = searcher.search(1).ok().unwrap();
    assert_eq!(spec.root, start);
    assert_eq!(spec.rules.len(), 1);
    assert_eq!(spec.rules[0].get_parent(), &start);
    assert_eq!(spec.rules[0].get_children(), &Vec::<AvoidingWithPrefix>::new());
    assert_eq!(
        spec.rules.into_iter().next().unwrap().get_strategy(),
        WordStrategy::Atom
    );
}

#[test]
fn search_ends_when_the_queue_is_empty() {
    let pack: StrategyPack<WordStrategy> = StrategyPack {
        initials: vec![],
        inferrals: vec![],
        expansions: vec![],
        verifications: vec![],
    };
    let mut searcher =
        CombinatorialSpecificationSearcher::new(word("", false), pack, SimpleRuleDB::new());
    assert!(!searcher.expand_once());
    assert!(searcher.auto_search().is_err());
    // an atom strategy alone finds nothing for a class that is no atom
    let pack = StrategyPack {
        initials: vec![],
        inferrals: vec![],
        expansions: vec![],
        verifications: vec![WordStrategy::Atom],
    };
    let mut searcher =
        CombinatorialSpecificationSearcher::new(word("", false), pack, SimpleRuleDB::new());
    assert!(searcher.search(0).is_err());
    assert!(searcher.expand_once());
    assert!(!searcher.expand_once());
    assert!(searcher.auto_search().is_err());
}

#[test]
fn search_stops_after_the_expansions_asked_for() {
    let pack = StrategyPack {
        initials: vec![WordStrategy::RemoveFrontOfPrefix],
        inferrals: vec![],
        expansions: vec![WordStrategy::Expansion],
        verifications: vec![WordStrategy::Atom],
    };
    let mut searcher =
        CombinatorialSpecificationSearcher::new(word("", false), pack, SimpleRuleDB::new());
    // the verification and the initial give no rule for the start class
    assert!(searcher.search(2).is_err());
    let found = searcher.search(40);
    if let Ok(spec) = found {
        assert_eq!(spec.root, word("", false));
        let parents: Vec<&AvoidingWithPrefix> =
            spec.rules.iter().map(|r| r.get_parent()).collect();
        assert!(parents.contains(&&word("", false)));
        for rule in spec.rules.iter() {
            for child in rule.get_children() {
                assert!(parents.contains(&child));
            }
        }
    }
}

#[test]
fn error_has_a_message() {
    let error = SpecificationNotFoundError {};
    assert_eq!(error.message(), "specification not found");
    assert_eq!(error, SpecificationNotFoundError {});
}

#[test]
fn expand_once_takes_one_packet_at_a_time() {
    let pack = StrategyPack {
        initials: vec![WordStrategy::RemoveFrontOfPrefix],
        inferrals: vec![],
        expansions: vec![WordStrategy::Expansion],
        verifications: vec![WordStrategy::Atom],
    };
    let mut searcher =
        CombinatorialSpecificationSearcher::new(word("a", false), pack, SimpleRuleDB::new());
    // the class "a": no atom; the front "a" can be removed; then it is expanded.
    // After that the children wait: three packets each for "a" alone, "",
    // "aa" and "ab", of which those for the atom "a" end with its verification.
    let mut expansions = 0;
    while searcher.expand_once() {
        expansions += 1;
        assert!(expansions < 1000);
        if expansions == 3 {
            break;
        }
    }
    assert_eq!(expansions, 3);
    assert!(searcher.expand_once());
}

#[test]
fn search_finds_a_specification_for_words() {
    let pack = StrategyPack {
        initials: vec![WordStrategy::RemoveFrontOfPrefix],
        inferrals: vec![],
        expansions: vec![WordStrategy::Expansion],
        verifications: vec![WordStrategy::Atom],
    };
    let mut found = 0;
    for _ in 0..20 {
        let mut searcher = CombinatorialSpecificationSearcher::new(
            word("", false),
            pack_copy(&pack),
            SimpleRuleDB::new(),
        );
        if let Ok(spec) = searcher.search(60) {
            found += 1;
            assert_eq!(spec.root, word("", false));
            let parents: Vec<&AvoidingWithPrefix> =
                spec.rules.iter().map(|r| r.get_parent()).collect();
            assert!(parents.contains(&&word("", false)));
            for rule in spec.rules.iter() {
                for child in rule.get_children() {
                    assert!(parents.contains(&child));
                }
            }
            assert!(spec.rules.iter().any(|r| r.get_children().is_empty()));
        }
    }
    assert!(found > 0);
}

fn pack_copy(pack: &StrategyPack<WordStrategy>) -> StrategyPack<WordStrategy> {
    StrategyPack {
        initials: pack.initials.clone(),
        inferrals: pack.inferrals.clone(),
        expansions: pack.expansions.clone(),
        verifications: pack.verifications.clone(),
    }
}

#[test]
fn a_dry_search_stays_dry() {
    let pack = StrategyPack {
        initials: vec![],
        inferrals: vec![],
        expansions: vec![],
        verifications: vec![WordStrategy::Atom],
    };
    let mut searcher =
        CombinatorialSpecificationSearcher::new(word("", false), pack, SimpleRuleDB::new());
    // the one packet gives no rule, and then nothing waits
    assert!(searcher.search(1).is_err());
    for _ in 0..3 {
        assert!(searcher.search(5).is_err());
        assert!(!searcher.expand_once());
        assert!(searcher.auto_search().is_err());
    }
}
