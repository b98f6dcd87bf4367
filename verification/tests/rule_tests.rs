use redactr::load_rule_configs;
use redactr::Rule;
use redactr::RuleConfig;
use redactr::text::replace_all;

#[test]
fn on_match_assigns_then_reuses() {
    let mut rule = Rule::new(
        String::from(r"\w+"),
        String::from("Person"),
        String::from("any word"),
    );
    assert_eq!(rule.on_match("Alice"), "Person1");
    assert_eq!(rule.on_match("Bob"), "Person2");
    assert_eq!(rule.on_match("Alice"), "Person1");
    assert_eq!(rule.count, 2);
    assert_eq!(rule.mapping.len(), 2);
    assert_eq!(rule.mapping[0].0, "Alice");
    assert_eq!(rule.mapping[0].1, "Person1");
    assert_eq!(rule.mapping[1].0, "Bob");
    assert_eq!(rule.mapping[1].1, "Person2");
}

#[test]
fn new_rule_is_fresh() {
    let rule = Rule::new(
        String::from("abc"),
        String::from("Thing"),
        String::from("a note"),
    );
    assert_eq!(rule.pattern, "abc");
    assert_eq!(rule.placeholder, "Thing");
    assert_eq!(rule.comment, "a note");
    assert_eq!(rule.count, 0);
    assert!(rule.mapping.is_empty());
}

#[test]
fn loader_keeps_definition_order_and_fields() {
    let rules = load_rule_configs(vec![
        RuleConfig {
            pattern: String::from("first"),
            placeholder: String::from("A"),
            comment: String::from("one"),
        },
        RuleConfig {
            pattern: String::from("second"),
            placeholder: String::from("B"),
            comment: String::from("two"),
        },
    ]);
    assert_eq!(rules.len(), 2);
    assert_eq!(rules[0].pattern, "first");
    assert_eq!(rules[0].placeholder, "A");
    assert_eq!(rules[0].comment, "one");
    assert_eq!(rules[1].pattern, "second");
    assert_eq!(rules[1].placeholder, "B");
    assert_eq!(rules[1].comment, "two");
    assert_eq!(rules[0].count, 0);
    assert_eq!(rules[1].count, 0);
}

#[test]
fn replace_all_rewrites_every_occurrence() {
    assert_eq!(replace_all("aaa", "a", "b"), "bbb");
    assert_eq!(replace_all("Alfred met Alfred", "Alfred", "Person1"), "Person1 met Person1");
    assert_eq!(replace_all("nothing here", "xyz", "q"), "nothing here");
}

#[test]
fn replace_all_is_leftmost_and_non_overlapping() {
    assert_eq!(replace_all("aaa", "aa", "b"), "ba");
    assert_eq!(replace_all("abab", "aba", "x"), "xb");
}

#[test]
fn replace_all_with_empty_needle_is_identity() {
    assert_eq!(replace_all("abc", "", "x"), "abc");
    assert_eq!(replace_all("", "", "x"), "");
}
