use mdc::{format_size, Analyzer, Category, CategorySummary, SafetyLevel, ScanItem};

fn make_item(path: &str, category: Category, safety: SafetyLevel, size: u64) -> ScanItem {
    ScanItem {
        path: path.to_string(),
        rule_name: "test".to_string(),
        category,
        safety,
        size: Some(size),
    }
}

#[test]
fn test_analyze_totals() {
    let items = vec![
        make_item("/a", Category::SystemCache, SafetyLevel::Safe, 100),
        make_item("/b", Category::SystemLogs, SafetyLevel::Safe, 200),
        make_item("/c", Category::DevNode, SafetyLevel::Caution, 300),
    ];
    let analyzer = Analyzer::new();
    let report = analyzer.analyze(&items, 10);

    assert_eq!(report.total_items, 3);
    assert_eq!(report.total_size, 600);
    assert_eq!(report.by_category.len(), 3);
    assert_eq!(report.top_items.len(), 3);
    assert_eq!(report.top_items[0].path, "/c");
}

#[test]
fn test_format_size() {
    assert_eq!(format_size(0), "0 B");
    assert_eq!(format_size(512), "512.00 B");
    assert_eq!(format_size(1024), "1.00 KB");
    assert_eq!(format_size(1024 * 1024), "1.00 MB");
    assert_eq!(format_size(1024 * 1024 * 1024), "1.00 GB");
}

#[test]
fn format_size_unit_edges() {
    assert_eq!(format_size(1), "1.00 B");
    assert_eq!(format_size(1023), "1023.00 B");
    assert_eq!(format_size(1536), "1.50 KB");
    assert_eq!(format_size(1024 * 1024 - 1), "1024.00 KB");
    assert_eq!(format_size(1024u64.pow(4)), "1.00 TB");
    assert_eq!(format_size(5 * 1024u64.pow(4) + 1), "5.00 TB");
    assert_eq!(format_size(u64::MAX), "16777216.00 TB");
}

#[test]
fn format_size_rounds_halves_to_even() {
    // 1152 / 1024 = 1.125 and 1408 / 1024 = 1.375 exactly.
    assert_eq!(format_size(1152), "1.12 KB");
    assert_eq!(format_size(1408), "1.38 KB");
}

#[test]
fn analyze_summaries_per_category_and_safety() {
    let items = vec![
        make_item("/a", Category::SystemCache, SafetyLevel::Safe, 100),
        make_item("/b", Category::DevNode, SafetyLevel::Caution, 50),
        make_item("/c", Category::SystemCache, SafetyLevel::Caution, 25),
        ScanItem {
            path: "/d".to_string(),
            rule_name: "r".to_string(),
            category: Category::Trash,
            safety: SafetyLevel::Safe,
            size: None,
        },
    ];
    let report = Analyzer::new().analyze(&items, 10);
    assert_eq!(report.total_items, 4);
    assert_eq!(report.total_size, 175);
    assert_eq!(
        report.by_category,
        vec![
            (Category::SystemCache, CategorySummary { count: 2, size: 125 }),
            (Category::DevNode, CategorySummary { count: 1, size: 50 }),
            (Category::Trash, CategorySummary { count: 1, size: 0 }),
        ]
    );
    assert_eq!(
        report.by_safety,
        vec![(SafetyLevel::Safe, 100), (SafetyLevel::Caution, 75)]
    );
    // The summaries add up to the totals.
    let counts: usize = report.by_category.iter().map(|e| e.1.count).sum();
    let sizes: u64 = report.by_category.iter().map(|e| e.1.size).sum();
    let safety_sizes: u64 = report.by_safety.iter().map(|e| e.1).sum();
    assert_eq!(counts, report.total_items);
    assert_eq!(sizes, report.total_size);
    assert_eq!(safety_sizes, report.total_size);
}

#[test]
fn analyze_top_items_largest_first_ties_in_order() {
    let items = vec![
        make_item("/small", Category::SystemCache, SafetyLevel::Safe, 10),
        make_item("/big1", Category::SystemCache, SafetyLevel::Safe, 90),
        make_item("/mid", Category::SystemCache, SafetyLevel::Safe, 50),
        make_item("/big2", Category::SystemCache, SafetyLevel::Safe, 90),
    ];
    let report = Analyzer::new().analyze(&items, 3);
    let paths: Vec<&str> = report.top_items.iter().map(|i| i.path.as_str()).collect();
    assert_eq!(paths, vec!["/big1", "/big2", "/mid"]);
    let all = Analyzer::new().analyze(&items, 100);
    let paths: Vec<&str> = all.top_items.iter().map(|i| i.path.as_str()).collect();
    assert_eq!(paths, vec!["/big1", "/big2", "/mid", "/small"]);
    let none = Analyzer::new().analyze(&items, 0);
    assert!(none.top_items.is_empty());
}

#[test]
fn analyze_unmeasured_items_count_as_empty() {
    let items = vec![
        ScanItem {
            path: "/u".to_string(),
            rule_name: "r".to_string(),
            category: Category::DsStore,
            safety: SafetyLevel::Safe,
            size: None,
        },
        make_item("/m", Category::DsStore, SafetyLevel::Safe, 1),
    ];
    let report = Analyzer::new().analyze(&items, 5);
    assert_eq!(report.total_size, 1);
    assert_eq!(report.top_items[0].path, "/m");
    assert_eq!(report.top_items[1].path, "/u");
}

#[test]
fn analyze_nothing() {
    let report = Analyzer::default().analyze(&[], 5);
    assert_eq!(report.total_items, 0);
    assert_eq!(report.total_size, 0);
    assert!(report.by_category.is_empty());
    assert!(report.by_safety.is_empty());
    assert!(report.top_items.is_empty());
}

#[test]
fn analysis_of_reordered_items_has_the_same_totals() {
    let items = vec![
        make_item("/a", Category::SystemCache, SafetyLevel::Safe, 100),
        make_item("/b", Category::DevNode, SafetyLevel::Caution, 200),
        make_item("/c", Category::SystemCache, SafetyLevel::Safe, 300),
        make_item("/d", Category::Trash, SafetyLevel::Danger, 50),
    ];
    let mut reordered = items.clone();
    reordered.reverse();
    let analyzer = Analyzer::new();
    let a = analyzer.analyze(&items, 10);
    let b = analyzer.analyze(&reordered, 10);
    assert_eq!(a.total_items, b.total_items);
    assert_eq!(a.total_size, b.total_size);
    let mut ca = a.by_category.clone();
    let mut cb = b.by_category.clone();
    ca.sort_by_key(|e| format!("{:?}", e.0));
    cb.sort_by_key(|e| format!("{:?}", e.0));
    assert_eq!(ca, cb);
    let mut sa = a.by_safety.clone();
    let mut sb = b.by_safety.clone();
    sa.sort_by_key(|e| format!("{:?}", e.0));
    sb.sort_by_key(|e| format!("{:?}", e.0));
    assert_eq!(sa, sb);
    let top_a: Vec<Option<u64>> = a.top_items.iter().map(|i| i.size).collect();
    let top_b: Vec<Option<u64>> = b.top_items.iter().map(|i| i.size).collect();
    assert_eq!(top_a, top_b);
    assert_eq!(top_a, vec![Some(300), Some(200), Some(100), Some(50)]);
    // First-occurrence order follows the items.
    assert_eq!(a.by_category[0].0, Category::SystemCache);
    assert_eq!(b.by_category[0].0, Category::Trash);
}
