use mdc::cleaner::success_count;
use mdc::{CleanMode, Cleaner, Category, SafetyLevel, ScanItem};

fn item(path: &str) -> ScanItem {
    ScanItem {
        path: path.to_string(),
        rule_name: "r".to_string(),
        category: Category::Trash,
        safety: SafetyLevel::Caution,
        size: Some(1),
    }
}

#[test]
fn dry_run_touches_nothing() {
    let cleaner = Cleaner::new();
    let items = vec![item("/a"), item("/b")];
    assert!(cleaner.trash_targets(&items, CleanMode::DryRun).is_empty());
    let results = cleaner.clean(&items, CleanMode::DryRun, &[]);
    assert_eq!(results.len(), 2);
    assert_eq!(results[1].path, "/b");
    assert!(results.iter().all(|r| r.success && r.message == "[DRY-RUN] would be moved to trash"));
    assert_eq!(success_count(&results), 2);
}

#[test]
fn move_to_trash_reports_each_outcome() {
    let cleaner = Cleaner::default();
    let items = vec![item("/a"), item("/b")];
    assert_eq!(
        cleaner.trash_targets(&items, CleanMode::MoveToTrash),
        vec!["/a".to_string(), "/b".to_string()]
    );
    let outcomes = vec![Ok(()), Err("no such file".to_string())];
    let results = cleaner.clean(&items, CleanMode::MoveToTrash, &outcomes);
    assert!(results[0].success);
    assert_eq!(results[0].message, "Moved to trash");
    assert!(!results[1].success);
    assert_eq!(results[1].path, "/b");
    assert_eq!(results[1].message, "Failed: no such file");
    assert_eq!(success_count(&results), 1);
}

#[test]
fn trash_result_for_one_path() {
    let r = Cleaner::new().trash_result("/x", &Err("denied".to_string()));
    assert_eq!(r.path, "/x");
    assert!(!r.success);
    assert_eq!(r.message, "Failed: denied");
}
