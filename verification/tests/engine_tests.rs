use redactr::load_rule_configs;
use redactr::redact;
use redactr::Rule;
use redactr::RuleConfig;

fn person_config() -> RuleConfig {
    RuleConfig {
        pattern: String::from(r"\b[A-Z][a-z]+\s[A-Z][a-z]+\b"),
        placeholder: String::from("Person"),
        comment: String::from("two capitalized words"),
    }
}

fn person_rules() -> Vec<Rule> {
    load_rule_configs(vec![person_config()])
}

#[test]
fn two_distinct_names() {
    let mut rules = person_rules();
    let out = redact(&mut rules, "Alfred Smith and John Doe went to the store.").unwrap();
    assert_eq!(out, "Person1 and Person2 went to the store.");
}

#[test]
fn same_name_twice() {
    let mut rules = person_rules();
    let out = redact(&mut rules, "Alfred Smith met Alfred Smith again.").unwrap();
    assert_eq!(out, "Person1 met Person1 again.");
    assert_eq!(rules[0].count, 1);
    assert_eq!(rules[0].mapping.len(), 1);
}

#[test]
fn empty_rule_set_is_identity() {
    let mut rules: Vec<Rule> = Vec::new();
    let out = redact(&mut rules, "Alfred Smith and John Doe went to the store.").unwrap();
    assert_eq!(out, "Alfred Smith and John Doe went to the store.");
}

#[test]
fn empty_input_stays_empty() {
    let mut rules = person_rules();
    let out = redact(&mut rules, "").unwrap();
    assert_eq!(out, "");
}

#[test]
fn no_match_is_identity() {
    let mut rules = person_rules();
    let out = redact(&mut rules, "nothing capitalized here.").unwrap();
    assert_eq!(out, "nothing capitalized here.");
    assert_eq!(rules[0].count, 0);
}

#[test]
fn isolation_across_runs() {
    let text = "Alfred Smith and John Doe went to the store.";
    let mut first = person_rules();
    let mut second = person_rules();
    let out1 = redact(&mut first, text).unwrap();
    let out2 = redact(&mut second, text).unwrap();
    assert_eq!(out1, out2);
    assert_eq!(out1, "Person1 and Person2 went to the store.");
}

#[test]
fn later_rule_scans_original_text_not_output() {
    // The second rule's pattern matches the first rule's pseudonyms, but it is
    // run against the original text, where none occur, so the output keeps
    // the first rule's pseudonyms.
    let mut rules = load_rule_configs(vec![
        person_config(),
        RuleConfig {
            pattern: String::from(r"Person[0-9]+"),
            placeholder: String::from("X"),
            comment: String::from("pseudonym-shaped text"),
        },
    ]);
    let out = redact(&mut rules, "Alfred Smith went home.").unwrap();
    assert_eq!(out, "Person1 went home.");
    assert_eq!(rules[1].count, 0);
}

#[test]
fn later_replacement_operates_on_accumulated_output() {
    // The second rule matches against the original text, but its replacement
    // is a global substring rewrite of the accumulating output — including
    // text the first rule's pseudonyms introduced.
    let mut rules = load_rule_configs(vec![
        RuleConfig {
            pattern: String::from(r"\bAlfred\b"),
            placeholder: String::from("Person"),
            comment: String::from("a standalone first name"),
        },
        RuleConfig {
            pattern: String::from(r"son"),
            placeholder: String::from("S"),
            comment: String::from("a literal syllable"),
        },
    ]);
    let out = redact(&mut rules, "Alfred likes son").unwrap();
    assert_eq!(out, "PerS11 likes S1");
}

#[test]
fn rule_families_are_independent() {
    let mut rules = load_rule_configs(vec![
        person_config(),
        RuleConfig {
            pattern: String::from(r"[0-9]+"),
            placeholder: String::from("Num"),
            comment: String::from("digit runs"),
        },
    ]);
    let out = redact(&mut rules, "Alfred Smith has 42 apples and 7 pears.").unwrap();
    assert_eq!(out, "Person1 has Num1 apples and Num2 pears.");
}

#[test]
fn replacement_is_global_over_identical_substrings() {
    // One match, but every byte-identical occurrence in the output is
    // rewritten, even inside a longer word the pattern itself did not match.
    let mut rules = load_rule_configs(vec![RuleConfig {
        pattern: String::from(r"\bAlfred\b"),
        placeholder: String::from("Person"),
        comment: String::from("a standalone first name"),
    }]);
    let out = redact(&mut rules, "Alfred and Alfredo").unwrap();
    assert_eq!(out, "Person1 and Person1o");
}

#[test]
fn invalid_pattern_reports_first_offending_rule() {
    let mut rules = load_rule_configs(vec![
        person_config(),
        RuleConfig {
            pattern: String::from(r"(unclosed"),
            placeholder: String::from("Broken"),
            comment: String::from("does not compile"),
        },
    ]);
    let err = redact(&mut rules, "Alfred Smith was here.").unwrap_err();
    assert_eq!(err.rule_index, 1);
    // The failed run touched no rule state.
    assert_eq!(rules[0].count, 0);
    assert_eq!(rules[0].mapping.len(), 0);
}

#[test]
fn many_distinct_values_reach_two_digit_pseudonyms() {
    let mut rules = load_rule_configs(vec![RuleConfig {
        pattern: String::from(r"[a-z]+"),
        placeholder: String::from("W"),
        comment: String::from("every lowercase word"),
    }]);
    let out = redact(&mut rules, "a b c d e f g h i j k l").unwrap();
    assert_eq!(out, "W1 W2 W3 W4 W5 W6 W7 W8 W9 W10 W11 W12");
    assert_eq!(rules[0].count, 12);
}
