use mdc::report::{
    category_table, clean_decision, found_line, processed_line, safety_table, summary_lines,
    table_report, top_items_table, total_size,
};
use mdc::{Analyzer, Category, CleanDecision, CleanMode, SafetyLevel, ScanItem};

fn make_item(path: &str, category: Category, safety: SafetyLevel, size: Option<u64>) -> ScanItem {
    ScanItem { path: path.to_string(), rule_name: "t".to_string(), category, safety, size }
}

#[test]
fn tables_of_a_report() {
    let items = vec![
        make_item("/a", Category::SystemLogs, SafetyLevel::Safe, Some(100)),
        make_item("/b", Category::DevNode, SafetyLevel::Caution, Some(2048)),
        make_item("/c", Category::SystemLogs, SafetyLevel::Safe, None),
    ];
    let report = Analyzer::new().analyze(&items, 2);
    assert_eq!(
        summary_lines(&report),
        vec!["Total items: 3".to_string(), "Total size:  2.10 KB".to_string()]
    );
    let cats = category_table(&report);
    assert_eq!(cats.header, vec!["Category", "Items", "Size"]);
    assert_eq!(
        cats.rows,
        vec![
            vec!["Dev - Node.js".to_string(), "1".to_string(), "2.00 KB".to_string()],
            vec!["System Logs".to_string(), "2".to_string(), "100.00 B".to_string()],
        ]
    );
    let safety = safety_table(&report);
    assert_eq!(safety.header, vec!["Safety", "Size"]);
    assert_eq!(
        safety.rows,
        vec![
            vec!["Safe".to_string(), "100.00 B".to_string()],
            vec!["Caution".to_string(), "2.00 KB".to_string()],
        ]
    );
    let top = top_items_table(&report);
    assert_eq!(top.header, vec!["Path", "Category", "Safety", "Size"]);
    assert_eq!(
        top.rows,
        vec![
            vec!["/b".to_string(), "Dev - Node.js".to_string(), "Caution".to_string(), "2.00 KB".to_string()],
            vec!["/a".to_string(), "System Logs".to_string(), "Safe".to_string(), "100.00 B".to_string()],
        ]
    );
}

#[test]
fn category_table_keeps_ties_in_report_order() {
    let items = vec![
        make_item("/a", Category::Trash, SafetyLevel::Safe, Some(5)),
        make_item("/b", Category::DsStore, SafetyLevel::Safe, Some(5)),
    ];
    let report = Analyzer::new().analyze(&items, 2);
    let cats = category_table(&report);
    assert_eq!(cats.rows[0][0], "Trash");
    assert_eq!(cats.rows[1][0], ".DS_Store");
}

#[test]
fn lines_of_a_clean() {
    assert_eq!(found_line(3, 1536), "Found 3 items totaling 1.50 KB");
    assert_eq!(processed_line(2, 3), "Processed 2/3 items successfully.");
}

#[test]
fn total_size_of_items() {
    let items = vec![
        make_item("/a", Category::Trash, SafetyLevel::Safe, Some(5)),
        make_item("/b", Category::Trash, SafetyLevel::Safe, None),
        make_item("/c", Category::Trash, SafetyLevel::Safe, Some(7)),
    ];
    assert_eq!(total_size(&items), Some(12));
    let huge = vec![
        make_item("/a", Category::Trash, SafetyLevel::Safe, Some(u64::MAX)),
        make_item("/b", Category::Trash, SafetyLevel::Safe, Some(1)),
    ];
    assert_eq!(total_size(&huge), None);
}

#[test]
fn clean_decisions() {
    assert_eq!(clean_decision(true, false), CleanDecision::Run(CleanMode::DryRun));
    assert_eq!(clean_decision(true, true), CleanDecision::Run(CleanMode::DryRun));
    assert_eq!(clean_decision(false, true), CleanDecision::Run(CleanMode::MoveToTrash));
    assert_eq!(clean_decision(false, false), CleanDecision::AskForConfirmation);
}

#[test]
fn table_report_draws_the_tables() {
    let items = vec![
        make_item("/a", Category::SystemCache, SafetyLevel::Safe, Some(2048)),
        make_item("/b", Category::DevNode, SafetyLevel::Caution, Some(100)),
    ];
    let report = Analyzer::new().analyze(&items, 5);
    let lines = table_report(&report);
    assert_eq!(lines.len(), 9);
    assert_eq!(lines[0], "\n=== Summary ===");
    assert_eq!(lines[1], "Total items: 2");
    assert_eq!(lines[2], "Total size:  2.10 KB");
    assert_eq!(lines[3], "\n=== By Category ===");
    assert_eq!(lines[5], "\n=== By Safety Level ===");
    assert_eq!(lines[7], "\n=== Top Items ===");

    let cats = category_table(&report);
    let mut expected = comfy_table::Table::new();
    expected.set_header(cats.header.clone()).apply_modifier(comfy_table::modifiers::UTF8_ROUND_CORNERS);
    for row in cats.rows.clone() {
        expected.add_row(row);
    }
    assert_eq!(lines[4], expected.to_string());
    assert!(lines[4].starts_with('╭'));
    assert!(lines[4].contains("System Cache"));

    let safety = safety_table(&report);
    let mut expected = comfy_table::Table::new();
    expected.set_header(safety.header.clone());
    for row in safety.rows.clone() {
        expected.add_row(row);
    }
    assert_eq!(lines[6], expected.to_string());
    assert!(lines[6].starts_with('+'));

    let top = top_items_table(&report);
    let mut expected = comfy_table::Table::new();
    expected.set_header(top.header.clone()).apply_modifier(comfy_table::modifiers::UTF8_ROUND_CORNERS);
    for row in top.rows.clone() {
        expected.add_row(row);
    }
    assert_eq!(lines[8], expected.to_string());
    assert!(lines[8].contains("/a"));
}
