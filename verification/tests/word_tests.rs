use comb_spec_searcher::pack::{Rule, Strategy, StrategyFactory};
use comb_spec_searcher::word::remove_front_of_prefix_strategy::removable_prefix_length;
use comb_spec_searcher::word::{
    atom_strategy, expansion_strategy, remove_front_of_prefix_strategy, AvoidingWithPrefix,
    WordStrategy,
};

fn class(prefix: &str, patterns: &[&str]) -> AvoidingWithPrefix {
    AvoidingWithPrefix::new(
        String::from(prefix),
        patterns.iter().map(|p| String::from(*p)).collect(),
        vec!['a', 'b'],
    )
}

fn atom(prefix: &str, patterns: &[&str]) -> AvoidingWithPrefix {
    AvoidingWithPrefix::new_just_prefix(
        String::from(prefix),
        patterns.iter().map(|p| String::from(*p)).collect(),
        vec!['a', 'b'],
    )
}

#[test]
fn classes_compare_by_what_they_hold() {
    let patterns = ["ab", "bb"];
    assert_eq!(class("a", &patterns), class("a", &patterns));
    assert_ne!(class("a", &patterns), atom("a", &patterns));
    assert_ne!(class("a", &patterns), class("b", &patterns));
    assert_ne!(class("a", &patterns), class("a", &["ab"]));
    assert_ne!(class("a", &patterns), class("a", &["ab", "ba"]));
    assert_ne!(
        class("a", &patterns),
        AvoidingWithPrefix::new(
            String::from("a"),
            vec![String::from("ab"), String::from("bb")],
            vec!['a', 'c'],
        )
    );
    assert_eq!(atom("ab", &patterns).clone(), atom("ab", &patterns));
    assert!(atom("", &[]).is_just_prefix());
    assert!(!class("", &[]).is_just_prefix());
    assert_eq!(class("ab", &patterns).get_prefix(), "ab");
    assert_eq!(class("ab", &patterns).get_patterns(), &vec!["ab", "bb"]);
    assert_eq!(class("ab", &patterns).get_alphabet(), &vec!['a', 'b']);
}

#[test]
fn removable_prefix_length_stops_where_a_pattern_could_start() {
    let patterns = ["ababa", "babb"];
    assert_eq!(removable_prefix_length(&class("", &patterns)), 0);
    assert_eq!(removable_prefix_length(&class("a", &patterns)), 0);
    assert_eq!(removable_prefix_length(&class("b", &patterns)), 0);
    assert_eq!(removable_prefix_length(&class("aa", &patterns)), 1);
    assert_eq!(removable_prefix_length(&class("aabab", &patterns)), 1);
    assert_eq!(removable_prefix_length(&class("bbaab", &patterns)), 3);
    assert_eq!(removable_prefix_length(&class("bbb", &patterns)), 2);
    // only the last five letters are looked at
    assert_eq!(removable_prefix_length(&class("aaaaaaaabab", &patterns)), 7);
    assert_eq!(removable_prefix_length(&class("aaaaaaabbbbbb", &patterns)), 12);
    // without patterns the last letter is looked at, and nothing keeps it
    assert_eq!(removable_prefix_length(&class("abab", &[])), 4);
    assert_eq!(removable_prefix_length(&class("a", &["b"])), 1);
    assert_eq!(removable_prefix_length(&class("ab", &["b"])), 1);
}

#[test]
fn remove_front_of_prefix_splits_the_prefix() {
    let patterns = ["ababa", "babb"];
    let word = class("aabab", &patterns);
    assert_eq!(
        remove_front_of_prefix_strategy::decompose(&word),
        vec![atom("a", &patterns), class("abab", &patterns)]
    );
    assert_eq!(
        WordStrategy::RemoveFrontOfPrefix.decompose(&class("bbaab", &patterns)),
        vec![atom("bba", &patterns), class("ab", &patterns)]
    );
    assert_eq!(
        remove_front_of_prefix_strategy::decompose(&class("ab", &patterns)),
        vec![atom("", &patterns), class("ab", &patterns)]
    );
    let rules = remove_front_of_prefix_strategy::apply(&word);
    assert_eq!(rules.len(), 1);
    assert_eq!(rules[0].get_parent(), &word);
    assert_eq!(
        rules[0].get_children(),
        &vec![atom("a", &patterns), class("abab", &patterns)]
    );
    assert!(!rules[0].is_equivalence());
    // nothing to remove, or nothing but the prefix
    assert_eq!(remove_front_of_prefix_strategy::apply(&class("ab", &patterns)).len(), 0);
    assert_eq!(remove_front_of_prefix_strategy::apply(&atom("aabab", &patterns)).len(), 0);
    assert_eq!(WordStrategy::RemoveFrontOfPrefix.apply(&class("", &patterns)).len(), 0);
}

#[test]
fn expansion_adds_each_letter() {
    let patterns = ["bb"];
    let word = class("ab", &patterns);
    let children = vec![
        atom("ab", &patterns),
        class("aba", &patterns),
        class("abb", &patterns),
    ];
    assert_eq!(expansion_strategy::decompose(&word), children);
    assert_eq!(WordStrategy::Expansion.decompose(&word), children);
    let rules: Vec<Rule<WordStrategy>> = expansion_strategy::apply(&word);
    assert_eq!(rules.len(), 1);
    assert_eq!(rules[0].get_parent(), &word);
    assert_eq!(rules[0].get_children(), &children);
    assert!(rules[0].is_equivalence());
    assert_eq!(WordStrategy::Expansion.apply(&atom("ab", &patterns)).len(), 0);
    let empty = AvoidingWithPrefix::new(String::from("x"), vec![], vec![]);
    assert_eq!(
        expansion_strategy::decompose(&empty),
        vec![AvoidingWithPrefix::new_just_prefix(String::from("x"), vec![], vec![])]
    );
}

#[test]
fn atom_is_a_rule_without_children() {
    let patterns = ["bb"];
    let word = atom("ab", &patterns);
    let rules = atom_strategy::apply(&word);
    assert_eq!(rules.len(), 1);
    assert_eq!(rules[0].get_parent(), &word);
    assert_eq!(rules[0].get_children(), &Vec::<AvoidingWithPrefix>::new());
    assert!(!rules[0].is_equivalence());
    assert_eq!(atom_strategy::decompose(&word), Vec::<AvoidingWithPrefix>::new());
    assert_eq!(WordStrategy::Atom.decompose(&word), Vec::<AvoidingWithPrefix>::new());
    assert_eq!(atom_strategy::apply(&class("ab", &patterns)).len(), 0);
    assert_eq!(WordStrategy::Atom.apply(&class("ab", &patterns)).len(), 0);
    assert!(!WordStrategy::Atom.is_equivalence());
    assert!(!WordStrategy::RemoveFrontOfPrefix.is_equivalence());
    assert!(WordStrategy::Expansion.is_equivalence());
    assert_eq!(rules.into_iter().next().unwrap().get_strategy(), WordStrategy::Atom);
}
