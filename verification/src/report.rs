use vstd::prelude::*;

use crate::cleaner::CleanMode;
use crate::analyzer::{
    format_size, size_or_zero, size_text, total_size_of, AnalysisReport, CategorySummary,
};
use crate::order::{descending_order, descending_rank, lemma_descending_rank_injective};
use crate::rules::{category_name, safety_name, Category, SafetyLevel};
use crate::scanner::ScanItem;
use crate::text::{decimal, decimal_text, push_decimal};

verus! {

/// A table to show: a header and rows of cells.
#[derive(Debug)]
pub struct ReportTable {
    pub header: Vec<String>,
    pub rows: Vec<Vec<String>>,
}

/// The text of `prefix` followed by the decimal form of `n`.
fn labelled_number(prefix: &str, n: u128) -> (r: String)
    ensures
        r@ == prefix@ + decimal(n as nat),
{
    let mut s = String::from_str(prefix);
    push_decimal(&mut s, n);
    s
}

/// The summary lines of a report: its number of items and total size.
pub fn summary_lines(report: &AnalysisReport) -> (r: Vec<String>)
    ensures
        r.deep_view() == seq![
            "Total items: "@ + decimal(report.total_items as nat),
            "Total size:  "@ + size_text(report.total_size),
        ],
{
    let first = labelled_number("Total items: ", report.total_items as u128);
    let mut second = String::from_str("Total size:  ");
    second.append(format_size(report.total_size).as_str());
    let r = vec![first, second];
    assert(r.deep_view() =~= seq![
        "Total items: "@ + decimal(report.total_items as nat),
        "Total size:  "@ + size_text(report.total_size),
    ]);
    r
}

/// The row shown for a category summary: name, count and size.
pub open spec fn category_row(entry: (Category, CategorySummary)) -> Seq<Seq<char>> {
    seq![category_name(entry.0), decimal(entry.1.count as nat), size_text(entry.1.size)]
}

/// The sizes of category summaries.
pub open spec fn category_sizes(entries: Seq<(Category, CategorySummary)>) -> Seq<u64> {
    entries.map_values(|e: (Category, CategorySummary)| e.1.size)
}

fn category_cells(e: (Category, CategorySummary)) -> (r: Vec<String>)
    ensures
        r.deep_view() == category_row(e),
{
    let row = vec![e.0.to_string(), decimal_text(e.1.count as u128), format_size(e.1.size)];
    assert(row.deep_view() =~= category_row(e));
    row
}

fn size_keys_of(entries: &Vec<(Category, CategorySummary)>) -> (keys: Vec<u64>)
    ensures
        keys@ == category_sizes(entries@),
{
    let n = entries.len();
    let mut keys: Vec<u64> = Vec::new();
    let mut i: usize = 0;
    while i < n
        invariant
            n == entries.len(),
            i <= n,
            keys@ == category_sizes(entries@.take(i as int)),
        decreases n - i,
    {
        keys.push(entries[i].1.size);
        assert(keys@ =~= category_sizes(entries@.take(i + 1)));
        i += 1;
    }
    assert(entries@.take(n as int) =~= entries@);
    keys
}

/// Whether `rows` are the rows of the category table for `entries`: one
/// row per entry, placed at the entry's stable descending rank by size.
pub open spec fn category_rows(
    entries: Seq<(Category, CategorySummary)>,
    rows: Seq<Seq<Seq<char>>>,
) -> bool {
    &&& rows.len() == entries.len()
    &&& forall|i: int|
        0 <= i < entries.len() ==> rows[descending_rank(category_sizes(entries), i) as int]
            == category_row(#[trigger] entries[i])
}

/// The category table of a report: one row per category, largest size
/// first, categories of equal size in the report's order.
pub fn category_table(report: &AnalysisReport) -> (r: ReportTable)
    ensures
        r.header.deep_view() == seq!["Category"@, "Items"@, "Size"@],
        category_rows(report.by_category@, r.rows.deep_view()),
{
    let entries = &report.by_category;
    let n = entries.len();
    let keys = size_keys_of(entries);
    let order = descending_order(&keys, n);
    let mut rows: Vec<Vec<String>> = Vec::new();
    let mut k: usize = 0;
    while k < order.len()
        invariant
            n == entries.len(),
            keys@ == category_sizes(entries@),
            order.len() == n,
            forall|l: int|
                0 <= l < order.len() ==> order[l] < n && descending_rank(keys@, order[l] as int)
                    == l,
            k <= order.len(),
            rows.len() == k,
            forall|l: int|
                0 <= l < k ==> #[trigger] rows.deep_view()[l] == category_row(
                    entries@[order[l] as int],
                ),
        decreases order.len() - k,
    {
        let e = entries[order[k]];
        let row = category_cells(e);
        let ghost before = rows.deep_view();
        rows.push(row);
        assert(rows.deep_view() =~= before.push(category_row(e)));
        k += 1;
    }
    proof {
        assert forall|i: int| 0 <= i < n implies rows.deep_view()[descending_rank(
            category_sizes(entries@),
            i,
        ) as int] == category_row(entries@[i]) by {
            let k = descending_rank(keys@, i) as int;
            lemma_descending_rank_injective(keys@, i, 0);
            lemma_descending_rank_injective(keys@, i, order[k] as int);
        }
    }
    let header = vec![
        String::from_str("Category"),
        String::from_str("Items"),
        String::from_str("Size"),
    ];
    assert(header.deep_view() =~= seq!["Category"@, "Items"@, "Size"@]);
    ReportTable { header, rows }
}

/// The row shown for a safety summary: level and size.
pub open spec fn safety_row(entry: (SafetyLevel, u64)) -> Seq<Seq<char>> {
    seq![safety_name(entry.0), size_text(entry.1)]
}

/// The safety table of a report: one row per safety level, in the report's
/// order.
pub fn safety_table(report: &AnalysisReport) -> (r: ReportTable)
    ensures
        r.header.deep_view() == seq!["Safety"@, "Size"@],
        r.rows.deep_view() == report.by_safety@.map_values(|e: (SafetyLevel, u64)| safety_row(e)),
{
    let entries = &report.by_safety;
    let mut rows: Vec<Vec<String>> = Vec::new();
    let mut i: usize = 0;
    while i < entries.len()
        invariant
            i <= entries.len(),
            rows.deep_view() == entries@.take(i as int).map_values(
                |e: (SafetyLevel, u64)| safety_row(e),
            ),
        decreases entries.len() - i,
    {
        let e = entries[i];
        let row = vec![e.0.to_string(), format_size(e.1)];
        assert(row.deep_view() =~= safety_row(e));
        let ghost before = rows.deep_view();
        rows.push(row);
        assert(rows.deep_view() =~= before.push(safety_row(e)));
        assert(entries@.take(i + 1).map_values(|e: (SafetyLevel, u64)| safety_row(e))
            =~= before.push(safety_row(e)));
        i += 1;
    }
    assert(entries@.take(entries.len() as int) =~= entries@);
    let header = vec![String::from_str("Safety"), String::from_str("Size")];
    assert(header.deep_view() =~= seq!["Safety"@, "Size"@]);
    ReportTable { header, rows }
}

/// The row shown for an item: path, category, safety level and size (an
/// unmeasured item shown as empty).
pub open spec fn item_row(item: ScanItem) -> Seq<Seq<char>> {
    seq![
        item.path@,
        category_name(item.category),
        safety_name(item.safety),
        size_text(size_or_zero(item)),
    ]
}

/// The table of a report's largest items, in the report's order.
pub fn top_items_table(report: &AnalysisReport) -> (r: ReportTable)
    ensures
        r.header.deep_view() == seq!["Path"@, "Category"@, "Safety"@, "Size"@],
        r.rows.deep_view() == report.top_items@.map_values(|it: ScanItem| item_row(it)),
{
    let items = &report.top_items;
    let mut rows: Vec<Vec<String>> = Vec::new();
    let mut i: usize = 0;
    while i < items.len()
        invariant
            i <= items.len(),
            rows.deep_view() == items@.take(i as int).map_values(|it: ScanItem| item_row(it)),
        decreases items.len() - i,
    {
        let item = &items[i];
        let size: u64 = match item.size {
            Some(s) => s,
            None => 0,
        };
        let row = vec![
            item.path.clone(),
            item.category.to_string(),
            item.safety.to_string(),
            format_size(size),
        ];
        assert(row.deep_view() =~= item_row(*item));
        let ghost before = rows.deep_view();
        rows.push(row);
        assert(rows.deep_view() =~= before.push(item_row(*item)));
        assert(items@.take(i + 1).map_values(|it: ScanItem| item_row(it)) =~= before.push(
            item_row(*item),
        ));
        i += 1;
    }
    assert(items@.take(items.len() as int) =~= items@);
    let header = vec![
        String::from_str("Path"),
        String::from_str("Category"),
        String::from_str("Safety"),
        String::from_str("Size"),
    ];
    assert(header.deep_view() =~= seq!["Path"@, "Category"@, "Safety"@, "Size"@]);
    ReportTable { header, rows }
}

/// The sum of the measured sizes of `items`, or `None` where it does not fit
/// in 64 bits.
pub fn total_size(items: &[ScanItem]) -> (r: Option<u64>)
    ensures
        r == if total_size_of(items@) <= u64::MAX {
            Some(total_size_of(items@) as u64)
        } else {
            None::<u64>
        },
{
    let mut total: u64 = 0;
    let mut i: usize = 0;
    while i < items.len()
        invariant
            i <= items.len(),
            total == total_size_of(items@.take(i as int)),
        decreases items.len() - i,
    {
        assert(items@.take(i + 1).drop_last() =~= items@.take(i as int));
        let size: u64 = match items[i].size {
            Some(s) => s,
            None => 0,
        };
        if size > u64::MAX - total {
            proof {
                lemma_total_prefix(items@, i + 1);
            }
            return None;
        }
        total = total + size;
        i += 1;
    }
    assert(items@.take(items.len() as int) =~= items@);
    Some(total)
}

proof fn lemma_total_prefix(items: Seq<ScanItem>, i: int)
    requires
        0 <= i <= items.len(),
    ensures
        total_size_of(items.take(i)) <= total_size_of(items),
    decreases items.len() - i,
{
    if i < items.len() {
        lemma_total_prefix(items, i + 1);
        assert(items.take(i + 1).drop_last() =~= items.take(i));
    } else {
        assert(items.take(i) =~= items);
    }
}

/// The line announcing what a clean is about to go through.
pub fn found_line(count: usize, total: u64) -> (r: String)
    ensures
        r@ == "Found "@ + decimal(count as nat) + " items totaling "@ + size_text(total),
{
    let mut s = labelled_number("Found ", count as u128);
    s.append(" items totaling ");
    s.append(format_size(total).as_str());
    s
}

/// The line reporting how many items of a clean succeeded.
pub fn processed_line(succeeded: usize, total: usize) -> (r: String)
    ensures
        r@ == "Processed "@ + decimal(succeeded as nat) + "/"@ + decimal(total as nat)
            + " items successfully."@,
{
    let mut s = labelled_number("Processed ", succeeded as u128);
    s.append("/");
    s.append(decimal_text(total as u128).as_str());
    s.append(" items successfully.");
    s
}

/// What a clean command does with its flags.
#[derive(Debug, Clone, Copy, PartialEq, Eq, Structural)]
pub enum CleanDecision {
    /// Go through the items in this mode.
    Run(CleanMode),
    /// Touch nothing and ask for `--dry-run` or `--confirm`.
    AskForConfirmation,
}

/// The decision for the flags of a clean command: a dry run when asked for
/// one; moving to the trash only when confirmed and not a dry run; else
/// nothing.
pub fn clean_decision(dry_run: bool, confirm: bool) -> (r: CleanDecision)
    ensures
        dry_run ==> r == CleanDecision::Run(CleanMode::DryRun),
        !dry_run && confirm ==> r == CleanDecision::Run(CleanMode::MoveToTrash),
        !dry_run && !confirm ==> r == CleanDecision::AskForConfirmation,
        r == CleanDecision::Run(CleanMode::MoveToTrash) ==> confirm && !dry_run,
{
    if dry_run {
        CleanDecision::Run(CleanMode::DryRun)
    } else if confirm {
        CleanDecision::Run(CleanMode::MoveToTrash)
    } else {
        CleanDecision::AskForConfirmation
    }
}

/// The text of a table drawn by `comfy_table` with the given header and
/// rows, with rounded corners or not.
pub uninterp spec fn rendered_table(
    header: Seq<Seq<char>>,
    rows: Seq<Seq<Seq<char>>>,
    round_corners: bool,
) -> Seq<char>;

/// Draws a table with `comfy_table::Table`: its default preset, the header,
/// the rows in order, and the `UTF8_ROUND_CORNERS` modifier when
/// `round_corners` holds; then its text, as `Display` gives it. Its contract
/// names the result `rendered_table`: with no content arrangement and no
/// cell styles, the text depends on the header, the rows and the corners
/// alone. Nothing more of the drawing is stated.
#[verifier::external_body]
fn render_table(table: ReportTable, round_corners: bool) -> (r: String)
    ensures
        r@ == rendered_table(table.header.deep_view(), table.rows.deep_view(), round_corners),
{
    let mut out = comfy_table::Table::new();
    out.set_header(table.header);
    if round_corners {
        out.apply_modifier(comfy_table::modifiers::UTF8_ROUND_CORNERS);
    }
    out.add_rows(table.rows);
    out.to_string()
}

/// The lines of the table report of an analysis: a summary, then the
/// category table and the top items table with rounded corners, and the
/// safety table between them, each under a heading.
pub fn table_report(report: &AnalysisReport) -> (r: Vec<String>)
    ensures
        r.len() == 9,
        r.deep_view()[0] == "\n=== Summary ==="@,
        r.deep_view()[1] == "Total items: "@ + decimal(report.total_items as nat),
        r.deep_view()[2] == "Total size:  "@ + size_text(report.total_size),
        r.deep_view()[3] == "\n=== By Category ==="@,
        exists|rows: Seq<Seq<Seq<char>>>|
            category_rows(report.by_category@, rows) && r.deep_view()[4] == rendered_table(
                seq!["Category"@, "Items"@, "Size"@],
                rows,
                true,
            ),
        r.deep_view()[5] == "\n=== By Safety Level ==="@,
        r.deep_view()[6] == rendered_table(
            seq!["Safety"@, "Size"@],
            report.by_safety@.map_values(|e: (SafetyLevel, u64)| safety_row(e)),
            false,
        ),
        r.deep_view()[7] == "\n=== Top Items ==="@,
        r.deep_view()[8] == rendered_table(
            seq!["Path"@, "Category"@, "Safety"@, "Size"@],
            report.top_items@.map_values(|it: ScanItem| item_row(it)),
            true,
        ),
{
    let summary = summary_lines(report);
    assert(summary.deep_view().len() == 2);
    let categories = category_table(report);
    let ghost category_cells = categories.rows.deep_view();
    let category_text = render_table(categories, true);
    let safety_text = render_table(safety_table(report), false);
    let top_text = render_table(top_items_table(report), true);
    let ghost texts = seq![
        "\n=== Summary ==="@,
        summary.deep_view()[0],
        summary.deep_view()[1],
        "\n=== By Category ==="@,
        category_text@,
        "\n=== By Safety Level ==="@,
        safety_text@,
        "\n=== Top Items ==="@,
        top_text@,
    ];
    let mut lines: Vec<String> = Vec::new();
    lines.push(String::from_str("\n=== Summary ==="));
    lines.push(summary[0].clone());
    lines.push(summary[1].clone());
    lines.push(String::from_str("\n=== By Category ==="));
    lines.push(category_text);
    lines.push(String::from_str("\n=== By Safety Level ==="));
    lines.push(safety_text);
    lines.push(String::from_str("\n=== Top Items ==="));
    lines.push(top_text);
    assert(summary.deep_view()[0] == summary@[0]@);
    assert(summary.deep_view()[1] == summary@[1]@);
    assert(lines.deep_view() =~= texts);
    lines
}

} // verus!
