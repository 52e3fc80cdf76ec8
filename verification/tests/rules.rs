use mordle2::grapheme_rule::GraphemeRule;
use mordle2::rules::{Rules, RulesError};

#[test]
fn first_rule_for_a_grapheme_is_kept() {
    let mut rules = Rules::default();
    assert!(rules.add_rule("a", GraphemeRule::ExactPlace { grapheme_pos: 1 }).is_ok());
    assert!(rules.add_rule("b", GraphemeRule::NotInWord).is_ok());
    assert_eq!(
        rules.rules,
        vec![
            ("a", vec![GraphemeRule::ExactPlace { grapheme_pos: 1 }]),
            ("b", vec![GraphemeRule::NotInWord]),
        ]
    );
}

#[test]
fn same_rule_twice_changes_nothing() {
    let mut rules = Rules::default();
    rules.add_rule("a", GraphemeRule::CountFrom { count_from: 0 }).unwrap();
    rules.add_rule("a", GraphemeRule::CountFrom { count_from: 0 }).unwrap();
    assert_eq!(rules.rules, vec![("a", vec![GraphemeRule::CountFrom { count_from: 0 }])]);
}

#[test]
fn not_in_word_next_to_other_rules_is_refused() {
    let mut rules = Rules::default();
    rules.add_rule("a", GraphemeRule::ExactPlace { grapheme_pos: 0 }).unwrap();
    match rules.add_rule("a", GraphemeRule::NotInWord) {
        Err(RulesError::InvalidRule { grapheme, rule }) => {
            assert_eq!(grapheme, "a");
            assert_eq!(rule, GraphemeRule::NotInWord);
        }
        Ok(()) => panic!("accepted"),
    }
    rules.add_rule("b", GraphemeRule::NotInWord).unwrap();
    assert!(matches!(
        rules.add_rule("b", GraphemeRule::ExactCount { count: 1 }),
        Err(RulesError::InvalidRule { .. })
    ));
}

#[test]
fn other_new_rule_for_known_grapheme_is_accepted_without_change() {
    let mut rules = Rules::default();
    rules.add_rule("a", GraphemeRule::ExactPlace { grapheme_pos: 0 }).unwrap();
    assert!(rules.add_rule("a", GraphemeRule::ExactCount { count: 1 }).is_ok());
    assert_eq!(rules.rules, vec![("a", vec![GraphemeRule::ExactPlace { grapheme_pos: 0 }])]);
}

#[test]
fn new_rules_are_empty() {
    let rules = Rules::new();
    assert!(rules.rules.is_empty());
    let mut rules = Rules::new();
    assert!(rules.add_rule("c", GraphemeRule::CountFrom { count_from: 1 }).is_ok());
    assert_eq!(rules.rules, vec![("c", vec![GraphemeRule::CountFrom { count_from: 1 }])]);
}
