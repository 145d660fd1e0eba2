use cargo_patch::layout::{copy_notice, manifest_in, working_dir, working_dir_decision, DirDecision};
use cargo_patch::rules::{parse_rule, RuleSet};
use cargo_patch::source::{Replacement, Substitutions};
use cargo_patch::text::{join_path, same_text};

#[test]
fn rule_is_split_at_the_first_equals() {
    assert_eq!(
        parse_rule("serde=https://x/serde?a=b"),
        Some(("serde".to_string(), "https://x/serde?a=b".to_string()))
    );
}

#[test]
fn rule_may_have_empty_sides() {
    assert_eq!(parse_rule("="), Some((String::new(), String::new())));
    assert_eq!(parse_rule("a="), Some(("a".to_string(), String::new())));
    assert_eq!(parse_rule("=b"), Some((String::new(), "b".to_string())));
}

#[test]
fn rule_without_equals_is_refused() {
    assert_eq!(parse_rule("serde"), None);
    assert_eq!(parse_rule(""), None);
}

#[test]
fn rule_with_wide_characters_is_split_by_characters() {
    assert_eq!(
        parse_rule("pä©k=ü/地址"),
        Some(("pä©k".to_string(), "ü/地址".to_string()))
    );
}

#[test]
fn rule_set_is_built_in_order() {
    let values = vec!["a=1".to_string(), "b=2".to_string(), "a=3".to_string()];
    let rules = RuleSet::parse(&values).unwrap();
    assert_eq!(rules.get("a"), Some(&"3".to_string()));
    assert_eq!(rules.get("b"), Some(&"2".to_string()));
    assert_eq!(rules.get("c"), None);
    assert_eq!(rules.rules.len(), 2);
}

#[test]
fn rule_set_reports_the_first_malformed_value() {
    let values = vec!["a=1".to_string(), "b".to_string(), "c".to_string()];
    assert_eq!(RuleSet::parse(&values), Err(1));
}

#[test]
fn rule_set_of_no_values_is_empty() {
    let rules = RuleSet::parse(&vec![]).unwrap();
    assert_eq!(rules, RuleSet::new());
    assert_eq!(rules.get("a"), None);
}

#[test]
fn rule_lookup_is_by_exact_name() {
    let mut rules = RuleSet::new();
    rules.insert("serde".to_string(), "u".to_string());
    assert_eq!(rules.get("serde"), Some(&"u".to_string()));
    assert_eq!(rules.get("serde_json"), None);
    assert_eq!(rules.get("Serde"), None);
    assert_eq!(rules.get("serd"), None);
}

#[test]
fn substitutions_last_write_wins() {
    let mut subs = Substitutions::new();
    assert!(subs.is_empty());
    subs.insert("a".to_string(), Replacement::Remote("u".to_string()));
    subs.insert("b".to_string(), Replacement::Local("p".to_string()));
    subs.insert("a".to_string(), Replacement::Local("q".to_string()));
    assert!(!subs.is_empty());
    assert_eq!(subs.len(), 2);
    assert_eq!(subs.get("a"), Some(&Replacement::Local("q".to_string())));
    assert_eq!(subs.get("b"), Some(&Replacement::Local("p".to_string())));
    assert_eq!(subs.get("c"), None);
}

#[test]
fn replacement_duplicate_is_equal() {
    let r = Replacement::Remote("u".to_string());
    assert_eq!(r.duplicate(), r);
    let l = Replacement::Local("p".to_string());
    assert_eq!(l.duplicate(), l);
}

#[test]
fn texts_are_compared_by_content() {
    assert!(same_text("", ""));
    assert!(same_text("abc", "abc"));
    assert!(!same_text("abc", "abd"));
    assert!(!same_text("abc", "ab"));
    assert!(!same_text("ab", "abc"));
    assert!(same_text("地址", "地址"));
    assert!(!same_text("地址", "地图"));
}

#[test]
fn paths_are_joined_with_a_slash() {
    assert_eq!(join_path("/cwd/cargo-patch", "B"), "/cwd/cargo-patch/B");
    assert_eq!(join_path("", "B"), "/B");
    assert_eq!(join_path("a", ""), "a/");
}

#[test]
fn working_directory_is_named_cargo_patch() {
    assert_eq!(working_dir("/home/me/project"), "/home/me/project/cargo-patch");
    assert_eq!(manifest_in("/home/me/project/cargo-patch/B"), "/home/me/project/cargo-patch/B/Cargo.toml");
}

#[test]
fn working_directory_is_created_used_or_rejected() {
    assert_eq!(working_dir_decision(false, false), DirDecision::Create);
    assert_eq!(working_dir_decision(false, true), DirDecision::Create);
    assert_eq!(working_dir_decision(true, true), DirDecision::Use);
    assert_eq!(working_dir_decision(true, false), DirDecision::Reject);
}

#[test]
fn notices_name_the_package() {
    assert_eq!(copy_notice("B", false), "Copying B...");
    assert_eq!(copy_notice("B", true), "Skipping B");
}
