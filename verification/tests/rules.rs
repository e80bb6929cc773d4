use mdc::builtins::{builtin_rules_at, join_path, rules_for_home};
use mdc::{filter_rules, macos_builtin_rules, Category, Rule, RuleSet, SafetyLevel};

#[test]
fn category_and_safety_names() {
    assert_eq!(Category::SystemCache.to_string(), "System Cache");
    assert_eq!(Category::DevNode.to_string(), "Dev - Node.js");
    assert_eq!(Category::DevJetBrains.to_string(), "Dev - JetBrains");
    assert_eq!(Category::DsStore.to_string(), ".DS_Store");
    assert_eq!(SafetyLevel::Safe.to_string(), "Safe");
    assert_eq!(SafetyLevel::Caution.to_string(), "Caution");
    assert_eq!(SafetyLevel::Danger.to_string(), "Danger");
}

#[test]
fn rule_builders() {
    let rule = Rule::new("R", Category::Trash, SafetyLevel::Caution);
    assert_eq!(rule.name, "R");
    assert!(rule.base_dirs.is_empty());
    assert!(rule.patterns.is_empty());
    assert_eq!(rule.max_depth, None);
    assert_eq!(rule.description, "");
    let rule = rule
        .with_dirs(vec!["/a".to_string()])
        .with_patterns(vec!["p".to_string()])
        .with_max_depth(3)
        .with_description("d");
    assert_eq!(rule.base_dirs, vec!["/a".to_string()]);
    assert_eq!(rule.patterns, vec!["p".to_string()]);
    assert_eq!(rule.max_depth, Some(3));
    assert_eq!(rule.description, "d");
    assert_eq!(rule.category, Category::Trash);
    assert_eq!(rule.safety, SafetyLevel::Caution);
}

#[test]
fn rule_set_by_category() {
    let set = RuleSet::new(vec![
        Rule::new("a", Category::DevNode, SafetyLevel::Safe),
        Rule::new("b", Category::Trash, SafetyLevel::Safe),
        Rule::new("c", Category::DevNode, SafetyLevel::Safe),
    ]);
    let node: Vec<&str> = set.by_category(Category::DevNode).iter().map(|r| r.name.as_str()).collect();
    assert_eq!(node, vec!["a", "c"]);
    assert!(set.by_category(Category::DevXcode).is_empty());
    assert!(RuleSet::default().rules.is_empty());
}

#[test]
fn join_path_like_std() {
    assert_eq!(join_path("/home/u", "Library"), "/home/u/Library");
    assert_eq!(join_path("/home/u/", "Library"), "/home/u/Library");
    assert_eq!(join_path("", "Library"), "Library");
    assert_eq!(join_path("/home/u", "/abs"), "/abs");
    assert_eq!(join_path("~", ".npm"), "~/.npm");
}

#[test]
fn builtin_rules_below_a_home() {
    let rules = builtin_rules_at("/Users/me");
    assert_eq!(rules.len(), 23);
    assert_eq!(rules[0].name, "User Caches");
    assert_eq!(rules[0].base_dirs, vec!["/Users/me/Library/Caches".to_string()]);
    assert_eq!(rules[1].base_dirs, vec!["/Library/Caches".to_string()]);
    let ds = &rules[4];
    assert_eq!(ds.name, "DS_Store Files");
    assert_eq!(ds.patterns, vec![".DS_Store".to_string()]);
    assert_eq!(ds.max_depth, Some(10));
    assert_eq!(ds.base_dirs.len(), 5);
    let brew = rules.iter().find(|r| r.name == "Homebrew Cache").unwrap();
    assert_eq!(
        brew.base_dirs,
        vec![
            "/Users/me/Library/Caches/Homebrew".to_string(),
            "/opt/homebrew/Library/Caches/Homebrew".to_string(),
            "/usr/local/Homebrew/Library/Caches/Homebrew".to_string(),
        ]
    );
    assert_eq!(rules[22].name, "Rustup Temp");
    assert_eq!(rules[22].base_dirs, vec!["/Users/me/.rustup/tmp".to_string()]);
}

#[test]
fn builtin_rules_for_the_current_user() {
    let rules = macos_builtin_rules();
    assert_eq!(rules.len(), 23);
    assert_eq!(rules[1].name, "System Caches");
}

#[test]
fn filter_rules_without_filter_keeps_all() {
    assert_eq!(filter_rules(None).len(), 23);
}

#[test]
fn filter_rules_by_category_terms() {
    let dev = filter_rules(Some("Dev".to_string()));
    assert_eq!(dev.len(), 14);
    assert!(dev.iter().all(|r| r.category.to_string().starts_with("Dev")));
    let some = filter_rules(Some("  dev - NODE ,trash".to_string()));
    let names: Vec<&str> = some.iter().map(|r| r.name.as_str()).collect();
    assert_eq!(names, vec!["Trash", "npm Cache", "yarn Cache", "pnpm Store"]);
    assert!(filter_rules(Some("nothing".to_string())).is_empty());
    // An empty term occurs in every name.
    assert_eq!(filter_rules(Some("".to_string())).len(), 23);
}

#[test]
fn rules_without_a_home_are_built_below_tilde() {
    let rules = rules_for_home(None);
    assert_eq!(rules.len(), 23);
    assert_eq!(rules[0].name, "User Caches");
    assert_eq!(rules[0].base_dirs, vec!["~/Library/Caches".to_string()]);
    assert_eq!(rules[1].base_dirs, vec!["/Library/Caches".to_string()]);
    let with_home = rules_for_home(Some("/Users/me".to_string()));
    assert_eq!(with_home[0].base_dirs, vec!["/Users/me/Library/Caches".to_string()]);
}

#[test]
fn no_builtin_rule_is_in_the_docker_category() {
    let rules = builtin_rules_at("/Users/me");
    assert!(rules.iter().all(|r| r.category != Category::DevDocker));
    let set = RuleSet { rules };
    assert!(set.by_category(Category::DevDocker).is_empty());
}

#[test]
fn categories_partition_the_builtin_rules() {
    let set = RuleSet { rules: builtin_rules_at("/Users/me") };
    let all = [
        Category::SystemCache,
        Category::SystemLogs,
        Category::AppLeftovers,
        Category::DevHomebrew,
        Category::DevNode,
        Category::DevDocker,
        Category::DevPython,
        Category::DevXcode,
        Category::DevJetBrains,
        Category::DevGeneral,
        Category::Trash,
        Category::DsStore,
    ];
    let total: usize = all.iter().map(|c| set.by_category(*c).len()).sum();
    assert_eq!(total, set.rules.len());
}
