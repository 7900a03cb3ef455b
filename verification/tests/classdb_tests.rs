use comb_spec_searcher::searcher::classdb::ClassDB;
use comb_spec_searcher::word::AvoidingWithPrefix;

#[test]
fn get_label_test() {
    let alphabet = vec!['a', 'b'];
    let patterns = vec![String::from("aaa")];
    let w1 = AvoidingWithPrefix::new(String::from(""), patterns.clone(), alphabet.clone());
    let w2 = AvoidingWithPrefix::new(String::from("a"), patterns.clone(), alphabet.clone());
    let w3 = AvoidingWithPrefix::new(String::from("b"), patterns.clone(), alphabet.clone());
    let mut classdb = ClassDB::new();
    assert_eq!(classdb.get_label_from_class(&w1), None);
    assert_eq!(classdb.get_label_from_class_or_add(&w1), 0);
    assert_eq!(classdb.get_label_from_class(&w1), Some(0));
    assert_eq!(classdb.get_label_from_class_or_add(&w2), 1);
    assert_eq!(classdb.get_label_from_class(&w1), Some(0));
    assert_eq!(classdb.get_label_from_class(&w2), Some(1));
    assert_eq!(classdb.get_label_from_class_or_add(&w3), 2);
    assert_eq!(classdb.get_label_from_class(&w1), Some(0));
    assert_eq!(classdb.get_label_from_class(&w2), Some(1));
}

fn word(prefix: &str, just_prefix: bool) -> AvoidingWithPrefix {
    let patterns = vec![String::from("ab"), String::from("bb")];
    let alphabet = vec!['a', 'b'];
    if just_prefix {
        AvoidingWithPrefix::new_just_prefix(String::from(prefix), patterns, alphabet)
    } else {
        AvoidingWithPrefix::new(String::from(prefix), patterns, alphabet)
    }
}

#[test]
fn interned_class_is_found_under_its_label() {
    let mut classdb = ClassDB::new();
    for prefix in ["", "a", "b", "ab", "ba"] {
        let class = word(prefix, false);
        let label = classdb.get_label_from_class_or_add(&class);
        assert_eq!(classdb.get_class_from_label(label), Some(&class));
    }
}

#[test]
fn labels_are_equal_exactly_for_equal_classes() {
    let classes = vec![
        word("", false),
        word("a", false),
        word("a", true),
        word("a", false),
        word("", false),
        word("b", true),
    ];
    let mut classdb = ClassDB::new();
    let labels: Vec<usize> =
        classes.iter().map(|c| classdb.get_label_from_class_or_add(c)).collect();
    for i in 0..classes.len() {
        for j in 0..classes.len() {
            assert_eq!(labels[i] == labels[j], classes[i] == classes[j]);
        }
    }
    assert_eq!(labels, vec![0, 1, 2, 1, 0, 3]);
}

#[test]
fn interning_again_gives_the_same_label() {
    let mut classdb = ClassDB::new();
    classdb.get_label_from_class_or_add(&word("b", false));
    let class = word("ab", false);
    let first = classdb.get_label_from_class_or_add(&class);
    assert_eq!(first, 1);
    for _ in 0..10 {
        assert_eq!(classdb.get_label_from_class_or_add(&class), first);
        classdb.get_label_from_class_or_add(&word("bb", true));
    }
    assert_eq!(classdb.get_label_from_class(&word("bb", true)), Some(2));
}

#[test]
fn unknown_label_has_no_class() {
    let mut classdb = ClassDB::new();
    assert_eq!(classdb.get_class_from_label(0), None);
    classdb.get_label_from_class_or_add(&word("", false));
    assert_eq!(classdb.get_class_from_label(0), Some(&word("", false)));
    assert_eq!(classdb.get_class_from_label(1), None);
}
