use mdc::selection::{category_matches, category_terms, select_rules};
use mdc::text::{contains_text, decimal_text, split_text, trim_text, wildcard_matches};
use mdc::{Category, Rule, SafetyLevel};

#[test]
fn split_like_std() {
    assert_eq!(split_text("a,b", ','), vec!["a".to_string(), "b".to_string()]);
    assert_eq!(split_text("", ','), vec!["".to_string()]);
    assert_eq!(split_text("a,", ','), vec!["a".to_string(), "".to_string()]);
    assert_eq!(split_text(",,x", ','), vec!["".to_string(), "".to_string(), "x".to_string()]);
}

#[test]
fn trim_like_std() {
    assert_eq!(trim_text("  a b \t\n"), "a b");
    assert_eq!(trim_text("\u{3000}x\u{a0}"), "x");
    assert_eq!(trim_text("   "), "");
    assert_eq!(trim_text("x"), "x");
}

#[test]
fn contains_like_std() {
    assert!(contains_text("dev - node.js", "node"));
    assert!(contains_text("abc", ""));
    assert!(contains_text("abc", "abc"));
    assert!(!contains_text("abc", "abcd"));
    assert!(!contains_text("abc", "ac"));
}

#[test]
fn terms_lowercase_like_std() {
    assert_eq!(category_terms("Dev - Node.JS"), vec!["dev - node.js".to_string()]);
    assert_eq!(category_terms("ÄB"), vec!["äb".to_string()]);
}

#[test]
fn decimal_digits() {
    assert_eq!(decimal_text(0), "0");
    assert_eq!(decimal_text(7), "7");
    assert_eq!(decimal_text(1024), "1024");
    assert_eq!(decimal_text(u128::MAX), u128::MAX.to_string());
}

#[test]
fn category_terms_are_trimmed_and_lower_cased() {
    assert_eq!(
        category_terms(" Dev ,TRASH,"),
        vec!["dev".to_string(), "trash".to_string(), "".to_string()]
    );
}

#[test]
fn category_matching() {
    let terms = vec!["xcode".to_string()];
    assert!(category_matches(Category::DevXcode, &terms));
    assert!(!category_matches(Category::DevNode, &terms));
    assert!(!category_matches(Category::DevNode, &Vec::new()));
}

#[test]
fn select_rules_keeps_order() {
    let rules = vec![
        Rule::new("a", Category::Trash, SafetyLevel::Safe),
        Rule::new("b", Category::SystemLogs, SafetyLevel::Safe),
        Rule::new("c", Category::Trash, SafetyLevel::Safe),
    ];
    let kept = select_rules(rules, Some("trash".to_string()));
    let names: Vec<&str> = kept.iter().map(|r| r.name.as_str()).collect();
    assert_eq!(names, vec!["a", "c"]);
}

#[test]
fn wildcard_star_matches_any_run() {
    assert!(wildcard_matches("*.log", "app.log"));
    assert!(wildcard_matches("*", ""));
    assert!(wildcard_matches("**", "abc"));
    assert!(wildcard_matches("a*a", "aa"));
    assert!(wildcard_matches("a*a", "abracadabra"));
    assert!(!wildcard_matches("a*a", "a"));
    assert!(!wildcard_matches("*.log", "app.log2"));
    assert!(wildcard_matches("exact", "exact"));
    assert!(!wildcard_matches("exact", "exactly"));
    assert!(!wildcard_matches("", "x"));
    assert!(wildcard_matches("", ""));
}
