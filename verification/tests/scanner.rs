use mdc::{Category, Rule, SafetyLevel, ScanAction, ScanEvent, ScanItem, Scanner};

/// A small file system held in memory: directories and files with sizes.
struct FakeFs {
    dirs: Vec<String>,
    files: Vec<(String, u64)>,
}

impl FakeFs {
    fn has(&self, path: &str) -> bool {
        self.dirs.iter().any(|d| d == path) || self.files.iter().any(|f| f.0 == path)
    }

    fn is_dir(&self, path: &str) -> bool {
        self.dirs.iter().any(|d| d == path)
    }

    fn children(&self, path: &str) -> Vec<String> {
        let prefix = format!("{}/", path);
        let mut out: Vec<String> = Vec::new();
        for p in self.dirs.iter().chain(self.files.iter().map(|f| &f.0)) {
            if let Some(rest) = p.strip_prefix(&prefix) {
                if !rest.is_empty() && !rest.contains('/') {
                    out.push(p.clone());
                }
            }
        }
        out.sort();
        out
    }

    /// Entries of a walk from `base`, depth first, with their depths. A
    /// directory in `locked` is yielded, and then, in place of its children,
    /// one entry that stands for the error of reading it: its path followed
    /// by `/` and a NUL character.
    fn walk(&self, base: &str, max_depth: Option<usize>, locked: &[&str]) -> Vec<(String, usize)> {
        let mut out = Vec::new();
        let mut stack = vec![(base.to_string(), 0usize)];
        while let Some((p, d)) = stack.pop() {
            if max_depth.map_or(false, |m| d > m) {
                continue;
            }
            let unreadable = locked.iter().any(|l| *l == p);
            if self.is_dir(&p) && !unreadable {
                for c in self.children(&p).into_iter().rev() {
                    stack.push((c, d + 1));
                }
            }
            if unreadable && max_depth.map_or(true, |m| d < m) {
                out.push((p.clone(), d));
                out.push((format!("{}/\u{0}", p), d + 1));
            } else {
                out.push((p, d));
            }
        }
        out
    }

    fn size(&self, path: &str) -> Option<u64> {
        if let Some(f) = self.files.iter().find(|f| f.0 == path) {
            Some(f.1)
        } else if self.is_dir(path) {
            let prefix = format!("{}/", path);
            Some(self.files.iter().filter(|f| f.0.starts_with(&prefix)).map(|f| f.1).sum())
        } else {
            None
        }
    }
}

/// Drives a scan of `rules` over `fs` and returns what it found.
fn scan_fake(fs: &FakeFs, rules: &[Rule]) -> Vec<ScanItem> {
    scan_fake_locked(fs, &[], rules)
}

/// Drives a scan of `rules` over `fs`, where the directories in `locked`
/// cannot be read, and returns what it found.
fn scan_fake_locked(fs: &FakeFs, locked: &[&str], rules: &[Rule]) -> Vec<ScanItem> {
    let scanner = Scanner::new();
    let mut session = scanner.scan(rules);
    let mut walk: Vec<(String, usize)> = Vec::new();
    let mut at = 0usize;
    let mut steps = 0;
    loop {
        steps += 1;
        assert!(steps < 10_000);
        let event = match session.action() {
            ScanAction::CheckBase { path } => ScanEvent::BaseChecked { exists: fs.has(&path) },
            ScanAction::OpenWalk { base, max_depth } => {
                walk = fs.walk(&base, max_depth, locked);
                at = 0;
                next_entry(&walk, &mut at)
            }
            ScanAction::NextEntry => next_entry(&walk, &mut at),
            ScanAction::MeasureSize { path } => ScanEvent::Measured { size: fs.size(&path) },
            ScanAction::SkipIfDirectory { path } => {
                if fs.is_dir(&path) {
                    let prefix = format!("{}/", path);
                    while at < walk.len() && walk[at].0.starts_with(&prefix) {
                        at += 1;
                    }
                }
                ScanEvent::Continued
            }
            ScanAction::Done => break,
        };
        session.answer(event);
    }
    assert!(session.is_done());
    session.into_items()
}

fn next_entry(walk: &[(String, usize)], at: &mut usize) -> ScanEvent {
    if *at < walk.len() {
        let path = walk[*at].0.clone();
        *at += 1;
        if path.ends_with('\u{0}') {
            ScanEvent::EntryUnreadable
        } else {
            ScanEvent::Entry { path }
        }
    } else {
        ScanEvent::WalkEnded
    }
}

#[test]
fn test_scan_pattern_files() {
    let fs = FakeFs {
        dirs: vec!["/tmp/t".to_string(), "/tmp/t/sub".to_string()],
        files: vec![
            ("/tmp/t/.DS_Store".to_string(), 1),
            ("/tmp/t/sub/.DS_Store".to_string(), 2),
            ("/tmp/t/other.txt".to_string(), 3),
        ],
    };
    let rule = Rule::new("DS_Store Test", Category::DsStore, SafetyLevel::Safe)
        .with_dirs(vec!["/tmp/t".to_string()])
        .with_patterns(vec![".DS_Store".to_string()]);
    let items = scan_fake(&fs, &[rule]);
    assert_eq!(items.len(), 2);
    let total_size: u64 = items.iter().filter_map(|i| i.size).sum();
    assert_eq!(total_size, 3);
}

#[test]
fn test_scan_directory_without_patterns() {
    let fs = FakeFs {
        dirs: vec!["/tmp/x".to_string(), "/tmp/x/cache".to_string()],
        files: vec![
            ("/tmp/x/cache/file1.txt".to_string(), 5),
            ("/tmp/x/cache/file2.txt".to_string(), 5),
        ],
    };
    let base = "/tmp/x/cache".to_string();
    let rule = Rule::new("Cache Test", Category::SystemCache, SafetyLevel::Safe)
        .with_dirs(vec![base.clone()]);
    let items = scan_fake(&fs, &[rule]);
    assert_eq!(items.len(), 1);
    assert_eq!(items[0].path, base);
    assert_eq!(items[0].size, Some(10));
}

#[test]
fn test_scan_skips_nonexistent_dirs() {
    let rule = Rule::new("Missing", Category::SystemCache, SafetyLevel::Safe)
        .with_dirs(vec!["/this/path/does/not/exist/12345".to_string()]);
    let scanner = Scanner::new();
    let rules = [rule];
    let mut session = scanner.scan(&rules);
    loop {
        let event = match session.action() {
            ScanAction::CheckBase { path } => ScanEvent::BaseChecked {
                exists: std::path::Path::new(&path).exists(),
            },
            ScanAction::Done => break,
            other => panic!("unexpected action {:?}", other),
        };
        session.answer(event);
    }
    let items = session.into_items();
    assert!(items.is_empty());
}

#[test]
fn scan_does_not_descend_into_a_matched_directory() {
    let fs = FakeFs {
        dirs: vec![
            "/p".to_string(),
            "/p/__pycache__".to_string(),
            "/p/__pycache__/__pycache__".to_string(),
            "/p/src".to_string(),
            "/p/src/__pycache__".to_string(),
        ],
        files: vec![
            ("/p/__pycache__/a.pyc".to_string(), 7),
            ("/p/__pycache__/__pycache__/b.pyc".to_string(), 4),
            ("/p/src/__pycache__/c.pyc".to_string(), 1),
        ],
    };
    let rule = Rule::new("PyCache", Category::DevPython, SafetyLevel::Safe)
        .with_dirs(vec!["/p".to_string()])
        .with_patterns(vec!["__pycache__".to_string()]);
    let items = scan_fake(&fs, &[rule]);
    let found: Vec<(&str, Option<u64>)> = items.iter().map(|i| (i.path.as_str(), i.size)).collect();
    assert_eq!(found, vec![("/p/__pycache__", Some(11)), ("/p/src/__pycache__", Some(1))]);
    assert!(items.iter().all(|i| i.rule_name == "PyCache" && i.category == Category::DevPython));
}

#[test]
fn scan_respects_max_depth() {
    let fs = FakeFs {
        dirs: vec!["/d".to_string(), "/d/a".to_string(), "/d/a/b".to_string()],
        files: vec![
            ("/d/.DS_Store".to_string(), 1),
            ("/d/a/.DS_Store".to_string(), 1),
            ("/d/a/b/.DS_Store".to_string(), 1),
        ],
    };
    let rule = Rule::new("DS", Category::DsStore, SafetyLevel::Safe)
        .with_dirs(vec!["/d".to_string()])
        .with_patterns(vec![".DS_Store".to_string()])
        .with_max_depth(2);
    let items = scan_fake(&fs, &[rule]);
    assert_eq!(items.len(), 2);
}

#[test]
fn scan_goes_through_rules_and_bases_in_order() {
    let fs = FakeFs {
        dirs: vec!["/one".to_string(), "/two".to_string()],
        files: vec![("/one/f".to_string(), 2), ("/two/g".to_string(), 3)],
    };
    let first = Rule::new("First", Category::SystemLogs, SafetyLevel::Caution)
        .with_dirs(vec!["/missing".to_string(), "/two".to_string()]);
    let empty = Rule::new("Empty", Category::Trash, SafetyLevel::Safe);
    let second = Rule::new("Second", Category::Trash, SafetyLevel::Danger)
        .with_dirs(vec!["/one".to_string()]);
    let items = scan_fake(&fs, &[first, empty, second]);
    let found: Vec<(&str, &str, Option<u64>)> = items
        .iter()
        .map(|i| (i.path.as_str(), i.rule_name.as_str(), i.size))
        .collect();
    assert_eq!(found, vec![("/two", "First", Some(3)), ("/one", "Second", Some(2))]);
    assert_eq!(items[1].safety, SafetyLevel::Danger);
}

#[test]
fn scan_of_no_rules_is_done_at_once() {
    let scanner = Scanner::default();
    let session = scanner.scan(&[]);
    assert!(session.is_done());
    assert!(matches!(session.action(), ScanAction::Done));
}

#[test]
fn scan_ignores_reports_that_answer_nothing_asked() {
    let rule = Rule::new("R", Category::SystemCache, SafetyLevel::Safe)
        .with_dirs(vec!["/r".to_string()]);
    let rules = [rule];
    let mut session = Scanner::new().scan(&rules);
    session.answer(ScanEvent::Measured { size: Some(1) });
    session.answer(ScanEvent::Continued);
    match session.action() {
        ScanAction::CheckBase { path } => assert_eq!(path, "/r"),
        other => panic!("unexpected action {:?}", other),
    }
    session.answer(ScanEvent::BaseChecked { exists: true });
    match session.action() {
        ScanAction::OpenWalk { base, max_depth } => {
            assert_eq!(base, "/r");
            assert_eq!(max_depth, None);
        }
        other => panic!("unexpected action {:?}", other),
    }
    session.answer(ScanEvent::WalkEnded);
    assert!(session.is_done());
}

#[test]
fn matches_rule_by_file_name() {
    let scanner = Scanner::new();
    let rule = Rule::new("DS", Category::DsStore, SafetyLevel::Safe)
        .with_dirs(vec!["/x".to_string()])
        .with_patterns(vec![".DS_Store".to_string()]);
    assert!(scanner.matches_rule("/x/y/.DS_Store", &rule));
    assert!(!scanner.matches_rule("/x/y/.DS_Store.bak", &rule));
    assert!(!scanner.matches_rule("/x/.DS_Store/z", &rule));
    assert!(!scanner.matches_rule("/", &rule));
}

#[test]
fn matches_rule_by_base_dir_comparing_paths() {
    let scanner = Scanner::new();
    let rule = Rule::new("C", Category::SystemCache, SafetyLevel::Safe)
        .with_dirs(vec!["/a/b".to_string(), "/c".to_string()]);
    assert!(scanner.matches_rule("/a/b", &rule));
    assert!(scanner.matches_rule("/c", &rule));
    // Paths compare by their components.
    assert!(scanner.matches_rule("/a/b/", &rule));
    assert!(scanner.matches_rule("/a//b", &rule));
    assert!(!scanner.matches_rule("/a/b/c", &rule));
    assert!(!scanner.matches_rule("/a", &rule));
}

#[test]
fn matches_name_against_patterns() {
    let rule = Rule::new("P", Category::DevPython, SafetyLevel::Safe)
        .with_patterns(vec!["a".to_string(), "b".to_string()]);
    assert!(mdc::scanner::matches_name(&rule, "b"));
    assert!(!mdc::scanner::matches_name(&rule, "c"));
}

#[test]
fn scan_skips_an_unreadable_directory_and_goes_on() {
    let fs = FakeFs {
        dirs: vec!["/w".to_string(), "/w/a".to_string(), "/w/locked".to_string(), "/w/z".to_string()],
        files: vec![
            ("/w/a/.DS_Store".to_string(), 1),
            ("/w/locked/.DS_Store".to_string(), 2),
            ("/w/z/.DS_Store".to_string(), 4),
        ],
    };
    let rule = Rule::new("DS", Category::DsStore, SafetyLevel::Safe)
        .with_dirs(vec!["/w".to_string()])
        .with_patterns(vec![".DS_Store".to_string()]);
    let items = scan_fake_locked(&fs, &["/w/locked"], &[rule]);
    let found: Vec<(&str, Option<u64>)> = items.iter().map(|i| (i.path.as_str(), i.size)).collect();
    assert_eq!(found, vec![("/w/a/.DS_Store", Some(1)), ("/w/z/.DS_Store", Some(4))]);
}

#[test]
fn unreadable_entry_keeps_the_walk_open() {
    let rule = Rule::new("L", Category::SystemLogs, SafetyLevel::Safe)
        .with_dirs(vec!["/v".to_string()])
        .with_patterns(vec!["*.log".to_string()]);
    let rules = [rule];
    let mut session = Scanner::new().scan(&rules);
    session.answer(ScanEvent::BaseChecked { exists: true });
    session.answer(ScanEvent::EntryUnreadable);
    assert!(matches!(session.action(), ScanAction::NextEntry));
    session.answer(ScanEvent::Entry { path: "/v/app.log".to_string() });
    match session.action() {
        ScanAction::MeasureSize { path } => assert_eq!(path, "/v/app.log"),
        other => panic!("unexpected action {:?}", other),
    }
    session.answer(ScanEvent::Measured { size: Some(9) });
    session.answer(ScanEvent::Continued);
    session.answer(ScanEvent::EntryUnreadable);
    session.answer(ScanEvent::WalkEnded);
    assert!(session.is_done());
    let items = session.into_items();
    assert_eq!(items.len(), 1);
    assert_eq!(items[0].path, "/v/app.log");
    assert_eq!(items[0].size, Some(9));
}

#[test]
fn scan_finds_names_by_wildcard() {
    let fs = FakeFs {
        dirs: vec!["/l".to_string(), "/l/old".to_string()],
        files: vec![
            ("/l/app.log".to_string(), 3),
            ("/l/app.txt".to_string(), 5),
            ("/l/old/sys.log".to_string(), 7),
        ],
    };
    let rule = Rule::new("Logs", Category::SystemLogs, SafetyLevel::Safe)
        .with_dirs(vec!["/l".to_string()])
        .with_patterns(vec!["*.log".to_string()]);
    let items = scan_fake(&fs, &[rule]);
    let found: Vec<&str> = items.iter().map(|i| i.path.as_str()).collect();
    assert_eq!(found, vec!["/l/app.log", "/l/old/sys.log"]);
}

#[test]
fn matches_rule_with_wildcards() {
    let scanner = Scanner::new();
    let rule = Rule::new("Logs", Category::SystemLogs, SafetyLevel::Safe)
        .with_patterns(vec!["*.log".to_string()]);
    assert!(scanner.matches_rule("/tmp/app.log", &rule));
    assert!(scanner.matches_rule("/tmp/.log", &rule));
    assert!(!scanner.matches_rule("/tmp/app.log.1", &rule));
    assert!(!scanner.matches_rule("/tmp/app.txt", &rule));
}

#[test]
fn matches_name_with_wildcards() {
    let rule = Rule::new("P", Category::DevGeneral, SafetyLevel::Safe)
        .with_patterns(vec!["a*b".to_string(), "x*y*z".to_string()]);
    assert!(mdc::scanner::matches_name(&rule, "ab"));
    assert!(mdc::scanner::matches_name(&rule, "a-long-b"));
    assert!(mdc::scanner::matches_name(&rule, "xyz"));
    assert!(mdc::scanner::matches_name(&rule, "x1y2z"));
    assert!(!mdc::scanner::matches_name(&rule, "ba"));
    assert!(!mdc::scanner::matches_name(&rule, "x1z2y"));
    let any = Rule::new("Any", Category::DevGeneral, SafetyLevel::Safe)
        .with_patterns(vec!["*".to_string()]);
    assert!(mdc::scanner::matches_name(&any, ""));
    assert!(mdc::scanner::matches_name(&any, "anything"));
}

#[test]
fn scan_of_joined_rules_joins_the_results() {
    let fs = FakeFs {
        dirs: vec!["/j".to_string(), "/j/k".to_string()],
        files: vec![("/j/a.log".to_string(), 1), ("/j/k/b.log".to_string(), 2), ("/j/k/c.tmp".to_string(), 4)],
    };
    let logs = Rule::new("Logs", Category::SystemLogs, SafetyLevel::Safe)
        .with_dirs(vec!["/j".to_string()])
        .with_patterns(vec!["*.log".to_string()]);
    let tmps = Rule::new("Tmp", Category::DevGeneral, SafetyLevel::Caution)
        .with_dirs(vec!["/j/k".to_string(), "/nope".to_string()])
        .with_patterns(vec!["*.tmp".to_string()]);
    let whole = Rule::new("Whole", Category::SystemCache, SafetyLevel::Safe)
        .with_dirs(vec!["/j/k".to_string()]);
    let key = |items: Vec<ScanItem>| -> Vec<(String, String, Option<u64>)> {
        items.into_iter().map(|i| (i.path, i.rule_name, i.size)).collect()
    };
    let first = vec![logs.clone(), tmps.clone()];
    let later = vec![whole.clone()];
    let joined = vec![logs, tmps, whole];
    let mut expected = key(scan_fake(&fs, &first));
    expected.extend(key(scan_fake(&fs, &later)));
    assert_eq!(key(scan_fake(&fs, &joined)), expected);
    assert_eq!(expected.len(), 4);
    assert!(key(scan_fake(&fs, &[])).is_empty());
}

#[test]
fn calculate_size_adds_file_sizes() {
    let scanner = Scanner::new();
    assert_eq!(scanner.calculate_size(&[]), 0);
    assert_eq!(scanner.calculate_size(&[5, 5]), 10);
    assert_eq!(scanner.calculate_size(&[u64::MAX - 3, 1, 2]), u64::MAX);
}
