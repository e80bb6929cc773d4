use vstd::prelude::*;

use crate::rules::{Category, Rule, RuleView, SafetyLevel, rule_views};

verus! {

/// `rel` appended to `base` as `std::path::Path::join` does on Unix: an
/// absolute `rel` replaces `base`; otherwise a `/` goes between them unless
/// `base` is empty or already ends with one.
pub open spec fn join_path_spec(base: Seq<char>, rel: Seq<char>) -> Seq<char> {
    if rel.len() > 0 && rel[0] == '/' {
        rel
    } else if base.len() > 0 && base.last() != '/' {
        base + seq!['/'] + rel
    } else {
        base + rel
    }
}

/// `rel` appended to `base` as a path.
pub fn join_path(base: &str, rel: &str) -> (r: String)
    ensures
        r@ == join_path_spec(base@, rel@),
{
    proof {
        reveal_strlit("/");
    }
    if rel.unicode_len() > 0 && rel.get_char(0) == '/' {
        return String::from_str(rel);
    }
    let n = base.unicode_len();
    let mut r = String::from_str(base);
    if n > 0 && base.get_char(n - 1) != '/' {
        r.append("/");
    }
    r.append(rel);
    assert(r@ =~= join_path_spec(base@, rel@));
    r
}

/// The built-in rules for caches, logs, `.DS_Store` files and the trash, below the home
/// directory `home`.
pub open spec fn system_rules(home: Seq<char>) -> Seq<RuleView> {
    seq![
        RuleView {
            name: "User Caches"@,
            category: Category::SystemCache,
            safety: SafetyLevel::Safe,
            base_dirs: seq![join_path_spec(join_path_spec(home, "Library"@), "Caches"@)],
            patterns: Seq::empty(),
            max_depth: None,
            description: "User-level application caches"@,
        },
        RuleView {
            name: "System Caches"@,
            category: Category::SystemCache,
            safety: SafetyLevel::Caution,
            base_dirs: seq!["/Library/Caches"@],
            patterns: Seq::empty(),
            max_depth: None,
            description: "System-level application caches (may require sudo)"@,
        },
        RuleView {
            name: "User Logs"@,
            category: Category::SystemLogs,
            safety: SafetyLevel::Safe,
            base_dirs: seq![join_path_spec(join_path_spec(home, "Library"@), "Logs"@)],
            patterns: Seq::empty(),
            max_depth: None,
            description: "User application logs"@,
        },
        RuleView {
            name: "System Logs"@,
            category: Category::SystemLogs,
            safety: SafetyLevel::Caution,
            base_dirs: seq!["/var/log"@],
            patterns: Seq::empty(),
            max_depth: None,
            description: "System logs (may require sudo)"@,
        },
        RuleView {
            name: "DS_Store Files"@,
            category: Category::DsStore,
            safety: SafetyLevel::Safe,
            base_dirs: seq![
                join_path_spec(home, "Desktop"@),
                join_path_spec(home, "Documents"@),
                join_path_spec(home, "Downloads"@),
                join_path_spec(home, "Projects"@),
                join_path_spec(home, "Developer"@),
            ],
            patterns: seq![".DS_Store"@],
            max_depth: Some(10usize),
            description: "macOS .DS_Store files in common directories"@,
        },
        RuleView {
            name: "Trash"@,
            category: Category::Trash,
            safety: SafetyLevel::Caution,
            base_dirs: seq![join_path_spec(home, ".Trash"@)],
            patterns: Seq::empty(),
            max_depth: None,
            description: "Files in the Trash bin"@,
        },
    ]
}

/// The built-in rules for what uninstalled applications leave behind, below the home
/// directory `home`.
pub open spec fn leftover_rules(home: Seq<char>) -> Seq<RuleView> {
    seq![
        RuleView {
            name: "App Support Leftovers"@,
            category: Category::AppLeftovers,
            safety: SafetyLevel::Caution,
            base_dirs: seq![join_path_spec(home, "Library/Application Support"@)],
            patterns: Seq::empty(),
            max_depth: None,
            description: "Application support directories (heuristic detection planned)"@,
        },
        RuleView {
            name: "Preferences Leftovers"@,
            category: Category::AppLeftovers,
            safety: SafetyLevel::Caution,
            base_dirs: seq![join_path_spec(home, "Library/Preferences"@)],
            patterns: Seq::empty(),
            max_depth: None,
            description: "Preference plist files from uninstalled apps"@,
        },
        RuleView {
            name: "Containers Leftovers"@,
            category: Category::AppLeftovers,
            safety: SafetyLevel::Caution,
            base_dirs: seq![join_path_spec(home, "Library/Containers"@)],
            patterns: Seq::empty(),
            max_depth: None,
            description: "Sandboxed app container leftovers"@,
        },
    ]
}

/// The built-in rules for caches of development tools, below the home
/// directory `home`.
pub open spec fn developer_rules(home: Seq<char>) -> Seq<RuleView> {
    seq![
        RuleView {
            name: "Homebrew Cache"@,
            category: Category::DevHomebrew,
            safety: SafetyLevel::Safe,
            base_dirs: seq![
                join_path_spec(home, "Library/Caches/Homebrew"@),
                "/opt/homebrew/Library/Caches/Homebrew"@,
                "/usr/local/Homebrew/Library/Caches/Homebrew"@,
            ],
            patterns: Seq::empty(),
            max_depth: None,
            description: "Homebrew download caches"@,
        },
        RuleView {
            name: "npm Cache"@,
            category: Category::DevNode,
            safety: SafetyLevel::Safe,
            base_dirs: seq![join_path_spec(home, ".npm"@)],
            patterns: Seq::empty(),
            max_depth: None,
            description: "npm global cache"@,
        },
        RuleView {
            name: "yarn Cache"@,
            category: Category::DevNode,
            safety: SafetyLevel::Safe,
            base_dirs: seq![
                join_path_spec(home, ".yarn/cache"@),
                join_path_spec(home, ".cache/yarn"@),
            ],
            patterns: Seq::empty(),
            max_depth: None,
            description: "Yarn global cache"@,
        },
        RuleView {
            name: "pnpm Store"@,
            category: Category::DevNode,
            safety: SafetyLevel::Safe,
            base_dirs: seq![
                join_path_spec(home, ".local/share/pnpm/store"@),
                join_path_spec(home, ".pnpm-store"@),
            ],
            patterns: Seq::empty(),
            max_depth: None,
            description: "pnpm global store"@,
        },
        RuleView {
            name: "Python pip Cache"@,
            category: Category::DevPython,
            safety: SafetyLevel::Safe,
            base_dirs: seq![join_path_spec(home, ".cache/pip"@)],
            patterns: Seq::empty(),
            max_depth: None,
            description: "pip download cache"@,
        },
        RuleView {
            name: "Python PyCache"@,
            category: Category::DevPython,
            safety: SafetyLevel::Safe,
            base_dirs: seq![
                join_path_spec(home, "Projects"@),
                join_path_spec(home, "Developer"@),
                join_path_spec(home, "Documents"@),
            ],
            patterns: seq!["__pycache__"@],
            max_depth: Some(10usize),
            description: "Python __pycache__ directories in common project folders"@,
        },
        RuleView {
            name: "Xcode DerivedData"@,
            category: Category::DevXcode,
            safety: SafetyLevel::Safe,
            base_dirs: seq![join_path_spec(home, "Library/Developer/Xcode/DerivedData"@)],
            patterns: Seq::empty(),
            max_depth: None,
            description: "Xcode build intermediates"@,
        },
        RuleView {
            name: "Xcode Archives"@,
            category: Category::DevXcode,
            safety: SafetyLevel::Caution,
            base_dirs: seq![join_path_spec(home, "Library/Developer/Xcode/Archives"@)],
            patterns: Seq::empty(),
            max_depth: None,
            description: "Xcode app archives"@,
        },
        RuleView {
            name: "iOS Simulator Data"@,
            category: Category::DevXcode,
            safety: SafetyLevel::Caution,
            base_dirs: seq![join_path_spec(home, "Library/Developer/CoreSimulator/Devices"@)],
            patterns: Seq::empty(),
            max_depth: None,
            description: "iOS Simulator device data"@,
        },
        RuleView {
            name: "JetBrains Caches"@,
            category: Category::DevJetBrains,
            safety: SafetyLevel::Safe,
            base_dirs: seq![join_path_spec(home, "Library/Caches/JetBrains"@)],
            patterns: Seq::empty(),
            max_depth: None,
            description: "JetBrains IDE caches"@,
        },
        RuleView {
            name: "JetBrains Logs"@,
            category: Category::DevJetBrains,
            safety: SafetyLevel::Safe,
            base_dirs: seq![join_path_spec(home, "Library/Logs/JetBrains"@)],
            patterns: Seq::empty(),
            max_depth: None,
            description: "JetBrains IDE logs"@,
        },
        RuleView {
            name: "Gradle Cache"@,
            category: Category::DevGeneral,
            safety: SafetyLevel::Safe,
            base_dirs: seq![join_path_spec(home, ".gradle/caches"@)],
            patterns: Seq::empty(),
            max_depth: None,
            description: "Gradle build caches"@,
        },
        RuleView {
            name: "Cargo Registry Cache"@,
            category: Category::DevGeneral,
            safety: SafetyLevel::Safe,
            base_dirs: seq![join_path_spec(home, ".cargo/registry/cache"@)],
            patterns: Seq::empty(),
            max_depth: None,
            description: "Cargo crate download cache"@,
        },
        RuleView {
            name: "Rustup Temp"@,
            category: Category::DevGeneral,
            safety: SafetyLevel::Safe,
            base_dirs: seq![join_path_spec(home, ".rustup/tmp"@)],
            patterns: Seq::empty(),
            max_depth: None,
            description: "Rustup temporary files"@,
        },
    ]
}

/// The built-in rules for caches, logs, `.DS_Store` files and the trash, below the home
/// directory `home`.
fn system_rules_at(home: &str) -> (r: Vec<Rule>)
    ensures
        rule_views(r@) == system_rules(home@),
{
    let rules = vec![
        Rule::new("User Caches", Category::SystemCache, SafetyLevel::Safe)
            .with_dirs(vec![join_path(join_path(home, "Library").as_str(), "Caches")])
            .with_description("User-level application caches"),
        Rule::new("System Caches", Category::SystemCache, SafetyLevel::Caution)
            .with_dirs(vec![String::from_str("/Library/Caches")])
            .with_description("System-level application caches (may require sudo)"),
        Rule::new("User Logs", Category::SystemLogs, SafetyLevel::Safe)
            .with_dirs(vec![join_path(join_path(home, "Library").as_str(), "Logs")])
            .with_description("User application logs"),
        Rule::new("System Logs", Category::SystemLogs, SafetyLevel::Caution)
            .with_dirs(vec![String::from_str("/var/log")])
            .with_description("System logs (may require sudo)"),
        Rule::new("DS_Store Files", Category::DsStore, SafetyLevel::Safe)
            .with_dirs(vec![
                join_path(home, "Desktop"),
                join_path(home, "Documents"),
                join_path(home, "Downloads"),
                join_path(home, "Projects"),
                join_path(home, "Developer"),
            ])
            .with_patterns(vec![String::from_str(".DS_Store")])
            .with_max_depth(10)
            .with_description("macOS .DS_Store files in common directories"),
        Rule::new("Trash", Category::Trash, SafetyLevel::Caution)
            .with_dirs(vec![join_path(home, ".Trash")])
            .with_description("Files in the Trash bin"),
    ];
    assert(rule_views(rules@) =~~= system_rules(home@));
    rules
}

/// The built-in rules for what uninstalled applications leave behind, below the home
/// directory `home`.
fn leftover_rules_at(home: &str) -> (r: Vec<Rule>)
    ensures
        rule_views(r@) == leftover_rules(home@),
{
    let rules = vec![
        Rule::new("App Support Leftovers", Category::AppLeftovers, SafetyLevel::Caution)
            .with_dirs(vec![join_path(home, "Library/Application Support")])
            .with_description("Application support directories (heuristic detection planned)"),
        Rule::new("Preferences Leftovers", Category::AppLeftovers, SafetyLevel::Caution)
            .with_dirs(vec![join_path(home, "Library/Preferences")])
            .with_description("Preference plist files from uninstalled apps"),
        Rule::new("Containers Leftovers", Category::AppLeftovers, SafetyLevel::Caution)
            .with_dirs(vec![join_path(home, "Library/Containers")])
            .with_description("Sandboxed app container leftovers"),
    ];
    assert(rule_views(rules@) =~~= leftover_rules(home@));
    rules
}

/// The built-in rules for caches of development tools, below the home
/// directory `home`.
fn developer_rules_at(home: &str) -> (r: Vec<Rule>)
    ensures
        rule_views(r@) == developer_rules(home@),
{
    let rules = vec![
        Rule::new("Homebrew Cache", Category::DevHomebrew, SafetyLevel::Safe)
            .with_dirs(vec![
                join_path(home, "Library/Caches/Homebrew"),
                String::from_str("/opt/homebrew/Library/Caches/Homebrew"),
                String::from_str("/usr/local/Homebrew/Library/Caches/Homebrew"),
            ])
            .with_description("Homebrew download caches"),
        Rule::new("npm Cache", Category::DevNode, SafetyLevel::Safe)
            .with_dirs(vec![join_path(home, ".npm")])
            .with_description("npm global cache"),
        Rule::new("yarn Cache", Category::DevNode, SafetyLevel::Safe)
            .with_dirs(vec![join_path(home, ".yarn/cache"), join_path(home, ".cache/yarn")])
            .with_description("Yarn global cache"),
        Rule::new("pnpm Store", Category::DevNode, SafetyLevel::Safe)
            .with_dirs(
                vec![join_path(home, ".local/share/pnpm/store"), join_path(home, ".pnpm-store")],
            )
            .with_description("pnpm global store"),
        Rule::new("Python pip Cache", Category::DevPython, SafetyLevel::Safe)
            .with_dirs(vec![join_path(home, ".cache/pip")])
            .with_description("pip download cache"),
        Rule::new("Python PyCache", Category::DevPython, SafetyLevel::Safe)
            .with_dirs(vec![
                join_path(home, "Projects"),
                join_path(home, "Developer"),
                join_path(home, "Documents"),
            ])
            .with_patterns(vec![String::from_str("__pycache__")])
            .with_max_depth(10)
            .with_description("Python __pycache__ directories in common project folders"),
        Rule::new("Xcode DerivedData", Category::DevXcode, SafetyLevel::Safe)
            .with_dirs(vec![join_path(home, "Library/Developer/Xcode/DerivedData")])
            .with_description("Xcode build intermediates"),
        Rule::new("Xcode Archives", Category::DevXcode, SafetyLevel::Caution)
            .with_dirs(vec![join_path(home, "Library/Developer/Xcode/Archives")])
            .with_description("Xcode app archives"),
        Rule::new("iOS Simulator Data", Category::DevXcode, SafetyLevel::Caution)
            .with_dirs(vec![join_path(home, "Library/Developer/CoreSimulator/Devices")])
            .with_description("iOS Simulator device data"),
        Rule::new("JetBrains Caches", Category::DevJetBrains, SafetyLevel::Safe)
            .with_dirs(vec![join_path(home, "Library/Caches/JetBrains")])
            .with_description("JetBrains IDE caches"),
        Rule::new("JetBrains Logs", Category::DevJetBrains, SafetyLevel::Safe)
            .with_dirs(vec![join_path(home, "Library/Logs/JetBrains")])
            .with_description("JetBrains IDE logs"),
        Rule::new("Gradle Cache", Category::DevGeneral, SafetyLevel::Safe)
            .with_dirs(vec![join_path(home, ".gradle/caches")])
            .with_description("Gradle build caches"),
        Rule::new("Cargo Registry Cache", Category::DevGeneral, SafetyLevel::Safe)
            .with_dirs(vec![join_path(home, ".cargo/registry/cache")])
            .with_description("Cargo crate download cache"),
        Rule::new("Rustup Temp", Category::DevGeneral, SafetyLevel::Safe)
            .with_dirs(vec![join_path(home, ".rustup/tmp")])
            .with_description("Rustup temporary files"),
    ];
    assert(rule_views(rules@) =~~= developer_rules(home@));
    rules
}

/// The built-in rules, below the home directory `home`: system leftovers,
/// then application leftovers, then development caches.
pub open spec fn builtin_rules(home: Seq<char>) -> Seq<RuleView> {
    system_rules(home) + leftover_rules(home) + developer_rules(home)
}

/// The built-in rules for the home directory `home`.
pub fn builtin_rules_at(home: &str) -> (r: Vec<Rule>)
    ensures
        rule_views(r@) == builtin_rules(home@),
{
    let mut rules = system_rules_at(home);
    let mut more = leftover_rules_at(home);
    rules.append(&mut more);
    let mut dev = developer_rules_at(home);
    rules.append(&mut dev);
    assert(rule_views(rules@) =~= builtin_rules(home@));
    rules
}

/// The current user's home directory, from `dirs::home_dir`, as text (with
/// replacement characters where the path is not valid UTF-8). It depends on
/// the environment, so nothing is stated of what it returns.
#[verifier::external_body]
fn home_dir() -> Option<String> {
    match dirs::home_dir() {
        Some(p) => Some(p.to_string_lossy().into_owned()),
        None => None,
    }
}

/// The home directory that the built-in rules are placed below: the one
/// given, or `~` when there is none.
pub open spec fn home_or_tilde(home: Option<Seq<char>>) -> Seq<char> {
    match home {
        Some(h) => h,
        None => "~"@,
    }
}

/// The built-in rules for the home directory `home`, or for `~` when there
/// is none.
pub fn rules_for_home(home: Option<String>) -> (r: Vec<Rule>)
    ensures
        rule_views(r@) == builtin_rules(
            home_or_tilde(
                match home {
                    Some(h) => Some(h@),
                    None => None,
                },
            ),
        ),
{
    let home = match home {
        Some(h) => h,
        None => String::from_str("~"),
    };
    builtin_rules_at(home.as_str())
}

/// The built-in rules for the current user's home directory, or for `~`
/// when there is none (as `rules_for_home` states). Paths are text here: a
/// home directory that is not valid UTF-8 is taken with replacement
/// characters, so the rules below it name directories that do not exist. They cover every
/// category but `DevDocker` (`lemma_no_docker_rule`).
pub fn macos_builtin_rules() -> (r: Vec<Rule>)
    ensures
        exists|home: Seq<char>| rule_views(r@) == builtin_rules(home),
{
    let home = home_dir();
    let r = rules_for_home(home);
    assert(rule_views(r@) == builtin_rules(home_or_tilde(
        match home {
            Some(h) => Some(h@),
            None => None,
        },
    )));
    r
}

/// No built-in rule has the category `DevDocker`: Docker's images and
/// build caches are not covered by the built-in rules.
pub proof fn lemma_no_docker_rule(home: Seq<char>)
    ensures
        forall|k: int|
            0 <= k < builtin_rules(home).len() ==> #[trigger] builtin_rules(home)[k].category
                != Category::DevDocker,
{
    let rules = builtin_rules(home);
    assert forall|k: int| 0 <= k < rules.len() implies #[trigger] rules[k].category
        != Category::DevDocker by {
        let a = system_rules(home);
        let b = leftover_rules(home);
        let c = developer_rules(home);
        if k < a.len() {
            assert(rules[k] == a[k]);
        } else if k < a.len() + b.len() {
            assert(rules[k] == b[k - a.len()]);
        } else {
            assert(rules[k] == c[k - a.len() - b.len()]);
        }
    }
}

} // verus!
