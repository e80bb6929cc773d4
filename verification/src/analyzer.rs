use vstd::prelude::*;

use crate::order::{
    count_above, count_equal, descending_order, descending_rank, lemma_above_dominates,
    lemma_descending_rank_injective, lemma_descending_rank_orders, lemma_rank_among_equals,
};
use crate::rules::{Category, SafetyLevel};
use crate::scanner::ScanItem;
use crate::text::{decimal, digit_char, push_decimal, push_two_digits, two_digits};

verus! {

/// The number of items and bytes found in one category.
#[derive(Debug, Clone, Copy, PartialEq, Eq, Structural)]
pub struct CategorySummary {
    pub count: usize,
    pub size: u64,
}

/// What an analysis of scan results reports: totals, a summary for each
/// category and each safety level that occurs, and the largest items.
#[derive(Debug)]
pub struct AnalysisReport {
    pub total_items: usize,
    pub total_size: u64,
    /// One entry for each category that occurs among the items, in the
    /// order in which the categories first occur.
    pub by_category: Vec<(Category, CategorySummary)>,
    /// One entry for each safety level that occurs among the items, with
    /// the bytes found at that level, in the order in which the levels first
    /// occur.
    pub by_safety: Vec<(SafetyLevel, u64)>,
    /// The largest items, largest first.
    pub top_items: Vec<ScanItem>,
}

/// The size of an item, an unmeasured one counting as empty.
pub open spec fn size_or_zero(item: ScanItem) -> u64 {
    match item.size {
        Some(s) => s,
        None => 0,
    }
}

/// The sizes of `items`, unmeasured ones counting as empty.
pub open spec fn size_keys(items: Seq<ScanItem>) -> Seq<u64> {
    items.map_values(|it: ScanItem| size_or_zero(it))
}

/// The sum of the measured sizes of `items`.
pub open spec fn total_size_of(items: Seq<ScanItem>) -> nat
    decreases items.len(),
{
    if items.len() == 0 {
        0
    } else {
        total_size_of(items.drop_last()) + size_or_zero(items.last()) as nat
    }
}

/// How many of `items` are in category `c`.
pub open spec fn count_in_category(items: Seq<ScanItem>, c: Category) -> nat
    decreases items.len(),
{
    if items.len() == 0 {
        0
    } else {
        count_in_category(items.drop_last(), c) + if items.last().category == c {
            1nat
        } else {
            0nat
        }
    }
}

/// The sum of the measured sizes of the `items` in category `c`.
pub open spec fn size_in_category(items: Seq<ScanItem>, c: Category) -> nat
    decreases items.len(),
{
    if items.len() == 0 {
        0
    } else {
        size_in_category(items.drop_last(), c) + if items.last().category == c {
            size_or_zero(items.last()) as nat
        } else {
            0nat
        }
    }
}

/// How many of `items` have safety level `s`.
pub open spec fn count_in_safety(items: Seq<ScanItem>, s: SafetyLevel) -> nat
    decreases items.len(),
{
    if items.len() == 0 {
        0
    } else {
        count_in_safety(items.drop_last(), s) + if items.last().safety == s {
            1nat
        } else {
            0nat
        }
    }
}

/// The sum of the measured sizes of the `items` with safety level `s`.
pub open spec fn size_in_safety(items: Seq<ScanItem>, s: SafetyLevel) -> nat
    decreases items.len(),
{
    if items.len() == 0 {
        0
    } else {
        size_in_safety(items.drop_last(), s) + if items.last().safety == s {
            size_or_zero(items.last()) as nat
        } else {
            0nat
        }
    }
}

/// The category summaries of an analysis of `items`: one entry for each
/// category that occurs, none twice, each with the items' count and bytes.
pub open spec fn summarizes_categories(
    items: Seq<ScanItem>,
    entries: Seq<(Category, CategorySummary)>,
) -> bool {
    &&& forall|k: int|
        0 <= k < entries.len() ==> {
            &&& entries[k].1.count == count_in_category(items, entries[k].0)
            &&& entries[k].1.count > 0
            &&& entries[k].1.size == size_in_category(items, entries[k].0)
        }
    &&& forall|k: int, l: int| 0 <= k < l < entries.len() ==> entries[k].0 != entries[l].0
    &&& forall|c: Category|
        count_in_category(items, c) > 0 ==> exists|k: int|
            0 <= k < entries.len() && #[trigger] entries[k].0 == c
}

/// The safety summaries of an analysis of `items`: one entry for each
/// safety level that occurs, none twice, each with the items' bytes.
pub open spec fn summarizes_safety(items: Seq<ScanItem>, entries: Seq<(SafetyLevel, u64)>) -> bool {
    &&& forall|k: int|
        0 <= k < entries.len() ==> {
            &&& count_in_safety(items, entries[k].0) > 0
            &&& entries[k].1 == size_in_safety(items, entries[k].0)
        }
    &&& forall|k: int, l: int| 0 <= k < l < entries.len() ==> entries[k].0 != entries[l].0
    &&& forall|s: SafetyLevel|
        count_in_safety(items, s) > 0 ==> exists|k: int|
            0 <= k < entries.len() && #[trigger] entries[k].0 == s
}

/// The index of the first of `items` in category `c`, for a category that
/// occurs among them.
pub open spec fn first_in_category(items: Seq<ScanItem>, c: Category) -> nat
    decreases items.len(),
{
    if items.len() == 0 {
        0
    } else if count_in_category(items.drop_last(), c) > 0 {
        first_in_category(items.drop_last(), c)
    } else {
        (items.len() - 1) as nat
    }
}

/// The index of the first of `items` with safety level `s`, for a level
/// that occurs among them.
pub open spec fn first_in_safety(items: Seq<ScanItem>, s: SafetyLevel) -> nat
    decreases items.len(),
{
    if items.len() == 0 {
        0
    } else if count_in_safety(items.drop_last(), s) > 0 {
        first_in_safety(items.drop_last(), s)
    } else {
        (items.len() - 1) as nat
    }
}

/// Category summaries come in the order in which their categories first
/// occur among the items.
pub open spec fn categories_in_order_of_appearance(
    items: Seq<ScanItem>,
    entries: Seq<(Category, CategorySummary)>,
) -> bool {
    forall|k: int, l: int|
        0 <= k < l < entries.len() ==> first_in_category(items, #[trigger] entries[k].0)
            < first_in_category(items, #[trigger] entries[l].0)
}

/// Safety summaries come in the order in which their levels first occur
/// among the items.
pub open spec fn safety_in_order_of_appearance(
    items: Seq<ScanItem>,
    entries: Seq<(SafetyLevel, u64)>,
) -> bool {
    forall|k: int, l: int|
        0 <= k < l < entries.len() ==> first_in_safety(items, #[trigger] entries[k].0)
            < first_in_safety(items, #[trigger] entries[l].0)
}

proof fn lemma_first_within(items: Seq<ScanItem>, c: Category, s: SafetyLevel)
    ensures
        count_in_category(items, c) > 0 ==> first_in_category(items, c) < items.len(),
        count_in_safety(items, s) > 0 ==> first_in_safety(items, s) < items.len(),
    decreases items.len(),
{
    if items.len() > 0 {
        lemma_first_within(items.drop_last(), c, s);
    }
}

/// Place `k` of `top` holds the item of `items` whose stable descending
/// rank by size is `k`.
pub open spec fn holds_item_of_rank(items: Seq<ScanItem>, top: Seq<ScanItem>, k: int) -> bool {
    exists|i: int|
        0 <= i < items.len() && descending_rank(size_keys(items), i) == k && #[trigger] items[i]@
            == top[k]@
}

/// The `limit` largest of `items`, largest first, as a stable sort by
/// descending size would order them: item `i` stands at its stable
/// descending rank when that rank is below the length, and every place is
/// filled by the item of that rank.
pub open spec fn largest_items(items: Seq<ScanItem>, limit: usize, top: Seq<ScanItem>) -> bool {
    &&& top.len() == if items.len() < limit { items.len() as nat } else { limit as nat }
    &&& forall|i: int|
        0 <= i < items.len() && descending_rank(size_keys(items), i) < top.len() ==> top[
            descending_rank(size_keys(items), i) as int
        ]@ == items[i]@
    &&& forall|k: int| 0 <= k < top.len() ==> #[trigger] holds_item_of_rank(items, top, k)
}

proof fn lemma_step(items: Seq<ScanItem>, i: int)
    requires
        0 <= i < items.len(),
    ensures
        total_size_of(items.take(i + 1)) == total_size_of(items.take(i)) + size_or_zero(items[i]),
        forall|c: Category|
            #![trigger count_in_category(items.take(i + 1), c)]
            #![trigger size_in_category(items.take(i + 1), c)]
            count_in_category(items.take(i + 1), c) == count_in_category(items.take(i), c)
                + if items[i].category == c {
                1nat
            } else {
                0nat
            } && size_in_category(items.take(i + 1), c) == size_in_category(items.take(i), c)
                + if items[i].category == c {
                size_or_zero(items[i]) as nat
            } else {
                0nat
            },
        forall|s: SafetyLevel|
            #![trigger count_in_safety(items.take(i + 1), s)]
            #![trigger size_in_safety(items.take(i + 1), s)]
            count_in_safety(items.take(i + 1), s) == count_in_safety(items.take(i), s)
                + if items[i].safety == s {
                1nat
            } else {
                0nat
            } && size_in_safety(items.take(i + 1), s) == size_in_safety(items.take(i), s)
                + if items[i].safety == s {
                size_or_zero(items[i]) as nat
            } else {
                0nat
            },
{
    assert(items.take(i + 1).drop_last() =~= items.take(i));
}

proof fn lemma_parts_bounded(items: Seq<ScanItem>, c: Category, s: SafetyLevel)
    ensures
        size_in_category(items, c) <= total_size_of(items),
        size_in_safety(items, s) <= total_size_of(items),
        count_in_category(items, c) <= items.len(),
    decreases items.len(),
{
    if items.len() > 0 {
        lemma_parts_bounded(items.drop_last(), c, s);
    }
}

proof fn lemma_absent_is_empty(items: Seq<ScanItem>, c: Category, s: SafetyLevel)
    ensures
        count_in_category(items, c) == 0 ==> size_in_category(items, c) == 0,
        count_in_safety(items, s) == 0 ==> size_in_safety(items, s) == 0,
    decreases items.len(),
{
    if items.len() > 0 {
        lemma_absent_is_empty(items.drop_last(), c, s);
    }
}

proof fn lemma_total_grows(items: Seq<ScanItem>, i: int)
    requires
        0 <= i <= items.len(),
    ensures
        total_size_of(items.take(i)) <= total_size_of(items),
    decreases items.len() - i,
{
    if i < items.len() {
        lemma_total_grows(items, i + 1);
        lemma_step(items, i);
    } else {
        assert(items.take(i) =~= items);
    }
}

/// Counts `items[i]` into the category summaries of the items before it.
fn record_category(entries: &mut Vec<(Category, CategorySummary)>, items: &[ScanItem], i: usize)
    requires
        i < items.len(),
        total_size_of(items@) <= u64::MAX,
        summarizes_categories(items@.take(i as int), old(entries)@),
        categories_in_order_of_appearance(items@.take(i as int), old(entries)@),
    ensures
        summarizes_categories(items@.take(i + 1), final(entries)@),
        categories_in_order_of_appearance(items@.take(i + 1), final(entries)@),
{
    let item = &items[i];
    let size: u64 = match item.size {
        Some(s) => s,
        None => 0,
    };
    let ghost pre = items@.take(i as int);
    let ghost post = items@.take(i + 1);
    proof {
        lemma_step(items@, i as int);
        lemma_total_grows(items@, i + 1);
        lemma_parts_bounded(post, item.category, item.safety);
        lemma_absent_is_empty(pre, item.category, item.safety);
    }
    let by_category = entries;
    let mut k: usize = 0;
    while k < by_category.len() && by_category[k].0 != item.category
        invariant
            k <= by_category.len(),
            forall|l: int| 0 <= l < k ==> by_category@[l].0 != item.category,
        decreases by_category.len() - k,
    {
        k += 1;
    }
    let ghost cat_before = by_category@;
    if k < by_category.len() {
        let old = by_category[k].1;
        by_category.set(
            k,
            (item.category, CategorySummary { count: old.count + 1, size: old.size + size }),
        );
    } else {
        by_category.push((item.category, CategorySummary { count: 1, size }));
    }
    proof {
        assert forall|l: int| 0 <= l < by_category@.len() implies {
            &&& (#[trigger] by_category@[l]).1.count == count_in_category(post, by_category@[l].0)
            &&& by_category@[l].1.count > 0
            &&& by_category@[l].1.size == size_in_category(post, by_category@[l].0)
        } by {
            let c = by_category@[l].0;
            assert(count_in_category(post, c) == count_in_category(pre, c) + if item.category == c {
                1nat
            } else {
                0nat
            });
            assert(size_in_category(post, c) == size_in_category(pre, c) + if item.category == c {
                size as nat
            } else {
                0nat
            });
            if l < cat_before.len() {
                assert(cat_before[l].1.count == count_in_category(pre, cat_before[l].0));
                if l == k {
                    assert(c == item.category);
                    assert(cat_before[l].1.size == size_in_category(pre, c));
                    assert(by_category@[l].1.size == cat_before[l].1.size + size);
                    assert(by_category@[l].1.count == cat_before[l].1.count + 1);
                } else {
                    assert(by_category@[l] == cat_before[l]);
                    if k < cat_before.len() {
                        assert(cat_before[k as int].0 == item.category);
                    }
                    assert(c != item.category);
                }
            } else {
                assert(l == k);
                assert(c == item.category);
                if count_in_category(pre, c) > 0 {
                    let w = choose|w: int|
                        0 <= w < cat_before.len() && #[trigger] cat_before[w].0 == c;
                    assert(false);
                }
            }
        }
        assert forall|c: Category| count_in_category(post, c) > 0 implies exists|l: int|
            0 <= l < by_category@.len() && #[trigger] by_category@[l].0 == c by {
            if c != item.category {
                let l = choose|l: int|
                    0 <= l < cat_before.len() && #[trigger] cat_before[l].0 == c;
                assert(by_category@[l].0 == c);
            } else {
                assert(by_category@[k as int].0 == c);
            }
        }
        assert(post.drop_last() =~= pre);
        assert forall|a: int, b: int| 0 <= a < b < by_category@.len() implies first_in_category(
            post,
            #[trigger] by_category@[a].0,
        ) < first_in_category(post, #[trigger] by_category@[b].0) by {
            let ca = cat_before[a].0;
            assert(by_category@[a].0 == ca);
            assert(count_in_category(pre, ca) == cat_before[a].1.count);
            assert(first_in_category(post, ca) == first_in_category(pre, ca));
            if b < cat_before.len() {
                let cb = cat_before[b].0;
                assert(by_category@[b].0 == cb);
                assert(count_in_category(pre, cb) == cat_before[b].1.count);
                assert(first_in_category(post, cb) == first_in_category(pre, cb));
                assert(first_in_category(pre, ca) < first_in_category(pre, cb));
            } else {
                lemma_first_within(pre, ca, item.safety);
                assert(by_category@[b].0 == item.category);
                if count_in_category(pre, item.category) > 0 {
                    let w = choose|w: int|
                        0 <= w < cat_before.len() && #[trigger] cat_before[w].0 == item.category;
                    assert(false);
                }
                assert(first_in_category(post, item.category) == i);
            }
        }
    }
}

/// Counts `items[i]` into the safety summaries of the items before it.
fn record_safety(entries: &mut Vec<(SafetyLevel, u64)>, items: &[ScanItem], i: usize)
    requires
        i < items.len(),
        total_size_of(items@) <= u64::MAX,
        summarizes_safety(items@.take(i as int), old(entries)@),
        safety_in_order_of_appearance(items@.take(i as int), old(entries)@),
    ensures
        summarizes_safety(items@.take(i + 1), final(entries)@),
        safety_in_order_of_appearance(items@.take(i + 1), final(entries)@),
{
    let item = &items[i];
    let size: u64 = match item.size {
        Some(s) => s,
        None => 0,
    };
    let ghost pre = items@.take(i as int);
    let ghost post = items@.take(i + 1);
    proof {
        lemma_step(items@, i as int);
        lemma_total_grows(items@, i + 1);
        lemma_parts_bounded(post, item.category, item.safety);
        lemma_absent_is_empty(pre, item.category, item.safety);
    }
    let by_safety = entries;
                let mut k: usize = 0;
    while k < by_safety.len() && by_safety[k].0 != item.safety
        invariant
            k <= by_safety.len(),
            forall|l: int| 0 <= l < k ==> by_safety@[l].0 != item.safety,
        decreases by_safety.len() - k,
    {
        k += 1;
    }
    let ghost safety_before = by_safety@;
    if k < by_safety.len() {
        let old = by_safety[k].1;
        by_safety.set(k, (item.safety, old + size));
    } else {
        by_safety.push((item.safety, size));
    }
    proof {
        assert forall|l: int| 0 <= l < by_safety@.len() implies {
            &&& count_in_safety(post, (#[trigger] by_safety@[l]).0) > 0
            &&& by_safety@[l].1 == size_in_safety(post, by_safety@[l].0)
        } by {
            let s = by_safety@[l].0;
            assert(count_in_safety(post, s) == count_in_safety(pre, s) + if item.safety == s {
                1nat
            } else {
                0nat
            });
            assert(size_in_safety(post, s) == size_in_safety(pre, s) + if item.safety == s {
                size as nat
            } else {
                0nat
            });
            if l < safety_before.len() {
                assert(count_in_safety(pre, safety_before[l].0) > 0);
                if l == k {
                    assert(s == item.safety);
                    assert(safety_before[l].1 == size_in_safety(pre, s));
                    assert(by_safety@[l].1 == safety_before[l].1 + size);
                } else {
                    assert(by_safety@[l] == safety_before[l]);
                    if k < safety_before.len() {
                        assert(safety_before[k as int].0 == item.safety);
                    }
                    assert(s != item.safety);
                }
            } else {
                assert(l == k);
                assert(s == item.safety);
                if count_in_safety(pre, s) > 0 {
                    let w = choose|w: int|
                        0 <= w < safety_before.len() && #[trigger] safety_before[w].0 == s;
                    assert(false);
                }
            }
        }
        assert forall|s: SafetyLevel| count_in_safety(post, s) > 0 implies exists|l: int|
            0 <= l < by_safety@.len() && #[trigger] by_safety@[l].0 == s by {
            if s != item.safety {
                let l = choose|l: int|
                    0 <= l < safety_before.len() && #[trigger] safety_before[l].0 == s;
                assert(by_safety@[l].0 == s);
            } else {
                assert(by_safety@[k as int].0 == s);
            }
        }
        assert(post.drop_last() =~= pre);
        assert forall|a: int, b: int| 0 <= a < b < by_safety@.len() implies first_in_safety(
            post,
            #[trigger] by_safety@[a].0,
        ) < first_in_safety(post, #[trigger] by_safety@[b].0) by {
            let sa = safety_before[a].0;
            assert(by_safety@[a].0 == sa);
            assert(count_in_safety(pre, sa) > 0);
            assert(first_in_safety(post, sa) == first_in_safety(pre, sa));
            if b < safety_before.len() {
                let sb = safety_before[b].0;
                assert(by_safety@[b].0 == sb);
                assert(count_in_safety(pre, sb) > 0);
                assert(first_in_safety(post, sb) == first_in_safety(pre, sb));
                assert(first_in_safety(pre, sa) < first_in_safety(pre, sb));
            } else {
                lemma_first_within(pre, item.category, sa);
                assert(by_safety@[b].0 == item.safety);
                if count_in_safety(pre, item.safety) > 0 {
                    let w = choose|w: int|
                        0 <= w < safety_before.len() && #[trigger] safety_before[w].0 == item.safety;
                    assert(false);
                }
                assert(first_in_safety(post, item.safety) == i);
            }
        }
    }
}

/// The `limit` largest of `items`, largest first, ties in their order.
fn largest_of(items: &[ScanItem], limit: usize) -> (top: Vec<ScanItem>)
    ensures
        largest_items(items@, limit, top@),
{
    let n = items.len();
    let mut keys: Vec<u64> = Vec::new();
    let mut i: usize = 0;
    while i < n
        invariant
            n == items.len(),
            i <= n,
            keys@ == size_keys(items@.take(i as int)),
        decreases n - i,
    {
        let size: u64 = match items[i].size {
            Some(s) => s,
            None => 0,
        };
        keys.push(size);
        assert(keys@ =~= size_keys(items@.take(i + 1)));
        i += 1;
    }
    assert(items@.take(n as int) =~= items@);
    assert(keys@.len() == n);
    let order = descending_order(&keys, limit);
    let mut top_items: Vec<ScanItem> = Vec::new();
    let mut k: usize = 0;
    while k < order.len()
        invariant
            k <= order.len(),
            keys@ == size_keys(items@),
            n == items.len(),
            forall|l: int|
                0 <= l < order.len() ==> order[l] < n && descending_rank(keys@, order[l] as int)
                    == l,
            top_items.len() == k,
            forall|l: int| 0 <= l < k ==> top_items@[l]@ == items@[order[l] as int]@,
        decreases order.len() - k,
    {
        top_items.push(items[order[k]].clone());
        k += 1;
    }
    proof {
        assert(top_items.len() == if items.len() < limit {
            items.len() as nat
        } else {
            limit as nat
        });
        assert forall|i: int|
            0 <= i < items.len() && descending_rank(size_keys(items@), i) < top_items.len()
            implies top_items@[descending_rank(size_keys(items@), i) as int]@ == items@[i]@ by {
            let k = descending_rank(keys@, i) as int;
            lemma_descending_rank_injective(keys@, i, order[k] as int);
        }
        assert forall|k: int| 0 <= k < top_items.len() implies #[trigger] holds_item_of_rank(
            items@,
            top_items@,
            k,
        ) by {
            let i = order[k] as int;
            assert(descending_rank(size_keys(items@), i) == k);
            assert(items@[i]@ == top_items@[k]@);
        }
    }
    top_items
}

/// Analyses scan results.
pub struct Analyzer;

impl Default for Analyzer {
    fn default() -> Analyzer {
        Analyzer
    }
}

impl Analyzer {
    pub fn new() -> Analyzer {
        Analyzer
    }

    /// Totals, per-category and per-safety summaries, and the `top_n`
    /// largest items of `items`.
    pub fn analyze(&self, items: &[ScanItem], top_n: usize) -> (r: AnalysisReport)
        requires
            total_size_of(items@) <= u64::MAX,
        ensures
            r.total_items == items.len(),
            r.total_size == total_size_of(items@),
            summarizes_categories(items@, r.by_category@),
            categories_in_order_of_appearance(items@, r.by_category@),
            summarizes_safety(items@, r.by_safety@),
            safety_in_order_of_appearance(items@, r.by_safety@),
            largest_items(items@, top_n, r.top_items@),
    {
        let n = items.len();
        let mut total_size: u64 = 0;
        let mut by_category: Vec<(Category, CategorySummary)> = Vec::new();
        let mut by_safety: Vec<(SafetyLevel, u64)> = Vec::new();
        let mut i: usize = 0;
        while i < n
            invariant
                n == items.len(),
                i <= n,
                total_size_of(items@) <= u64::MAX,
                total_size == total_size_of(items@.take(i as int)),
                summarizes_categories(items@.take(i as int), by_category@),
                categories_in_order_of_appearance(items@.take(i as int), by_category@),
                summarizes_safety(items@.take(i as int), by_safety@),
                safety_in_order_of_appearance(items@.take(i as int), by_safety@),
            decreases n - i,
        {
            let size: u64 = match items[i].size {
                Some(s) => s,
                None => 0,
            };
            proof {
                lemma_step(items@, i as int);
                lemma_total_grows(items@, i + 1);
            }
            total_size = total_size + size;
            record_category(&mut by_category, items, i);
            record_safety(&mut by_safety, items, i);
            i += 1;
        }
        assert(items@.take(n as int) =~= items@);
        let top_items = largest_of(items, top_n);
        AnalysisReport { total_items: n, total_size, by_category, by_safety, top_items }
    }
}

} // verus!

verus! {

/// The unit in which a size is shown: 0 for bytes, then KB, MB, GB and TB,
/// the largest whose amount is at most the size.
pub open spec fn size_unit(size: u64) -> nat {
    if size < 0x400 {
        0
    } else if size < 0x10_0000 {
        1
    } else if size < 0x4000_0000 {
        2
    } else if size < 0x100_0000_0000 {
        3
    } else {
        4
    }
}

/// The bytes in unit `e`: 1024 to the power `e`.
pub open spec fn unit_bytes(e: nat) -> nat {
    if e == 0 {
        1
    } else if e == 1 {
        0x400
    } else if e == 2 {
        0x10_0000
    } else if e == 3 {
        0x4000_0000
    } else {
        0x100_0000_0000
    }
}

/// The name of unit `e`.
pub open spec fn unit_name(e: nat) -> Seq<char> {
    if e == 0 {
        "B"@
    } else if e == 1 {
        "KB"@
    } else if e == 2 {
        "MB"@
    } else if e == 3 {
        "GB"@
    } else {
        "TB"@
    }
}

/// The distance between neighbouring double-precision values around `n`:
/// doubles hold 53 significant bits.
pub open spec fn f64_spacing(n: nat) -> nat
    decreases n,
{
    if n < 0x20_0000_0000_0000 {
        1
    } else {
        2 * f64_spacing(n / 2)
    }
}

/// `n / d` rounded to the nearest integer, halves to the even one.
pub open spec fn round_half_even(n: nat, d: nat) -> nat {
    let q = n / d;
    let r = n % d;
    if 2 * r > d || (2 * r == d && q % 2 == 1) {
        q + 1
    } else {
        q
    }
}

/// The double-precision value nearest to `n` (ties to even), which is what
/// converting an integer to a double gives.
pub open spec fn nearest_f64(n: nat) -> nat {
    round_half_even(n, f64_spacing(n)) * f64_spacing(n)
}

/// A size in its unit, in hundredths: the size as a double divided by the
/// unit's bytes, rounded to two decimals with halves to even, as formatting
/// a double to two decimals rounds.
pub open spec fn size_hundredths(size: u64) -> nat {
    round_half_even(nearest_f64(size as nat) * 100, unit_bytes(size_unit(size)))
}

/// How a size is shown: "0 B" for nothing, else the amount in its unit with
/// two decimals, a space and the unit's name.
pub open spec fn size_text(size: u64) -> Seq<char> {
    if size == 0 {
        "0 B"@
    } else {
        let h = size_hundredths(size);
        decimal(h / 100) + "."@ + two_digits(h % 100) + " "@ + unit_name(size_unit(size))
    }
}

fn round_half_even_u128(n: u128, d: u128) -> (r: u128)
    requires
        d > 0,
        n / d < u128::MAX,
    ensures
        r == round_half_even(n as nat, d as nat),
{
    let q = n / d;
    let r = n % d;
    if r > d - r || (r == d - r && q % 2 == 1) {
        q + 1
    } else {
        q
    }
}

/// Shows a size in bytes in a human-readable unit, such as "1.50 KB".
pub fn format_size(size: u64) -> (r: String)
    ensures
        r@ == size_text(size),
{
    if size == 0 {
        return String::from_str("0 B");
    }
    let e: u64 = if size < 0x400 {
        0
    } else if size < 0x10_0000 {
        1
    } else if size < 0x4000_0000 {
        2
    } else if size < 0x100_0000_0000 {
        3
    } else {
        4
    };
    let unit: u128 = if e == 0 {
        1
    } else if e == 1 {
        0x400
    } else if e == 2 {
        0x10_0000
    } else if e == 3 {
        0x4000_0000
    } else {
        0x100_0000_0000
    };
    // The spacing of doubles around `size`.
    let mut t: u64 = size;
    let mut u: u64 = 1;
    while t >= 0x20_0000_0000_0000
        invariant
            f64_spacing(size as nat) == u * f64_spacing(t as nat),
            u * t <= size,
            u >= 1,
        decreases t,
    {
        proof {
            assert(f64_spacing(t as nat) == 2 * f64_spacing((t / 2) as nat));
            assert((2 * u) * (t / 2) <= u * t) by (nonlinear_arith)
                requires
                    u >= 1,
                    t >= 1,
            ;
            assert(u * (2 * f64_spacing((t / 2) as nat)) == (2 * u) * f64_spacing((t / 2) as nat))
                by (nonlinear_arith);
            assert(2 * u <= u * t) by (nonlinear_arith)
                requires
                    t >= 2,
                    u >= 1,
            ;
        }
        t = t / 2;
        u = 2 * u;
    }
    assert(f64_spacing(t as nat) == 1);
    assert(u == f64_spacing(size as nat)) by (nonlinear_arith)
        requires
            f64_spacing(size as nat) == u * f64_spacing(t as nat),
            f64_spacing(t as nat) == 1,
    ;
    let double = round_half_even_u128(size as u128, u as u128);
    assert(double * u <= size + u) by (nonlinear_arith)
        requires
            double <= size as nat / u as nat + 1,
            u >= 1,
    ;
    let f: u128 = double * (u as u128);
    let hundredths = round_half_even_u128(f * 100, unit);
    let mut s = String::new();
    push_decimal(&mut s, hundredths / 100);
    s.append(".");
    push_two_digits(&mut s, hundredths % 100);
    s.append(" ");
    if e == 0 {
        s.append("B");
    } else if e == 1 {
        s.append("KB");
    } else if e == 2 {
        s.append("MB");
    } else if e == 3 {
        s.append("GB");
    } else {
        s.append("TB");
    }
    s
}

/// Whether `c` is one of the digits `0` to `9`.
pub open spec fn is_digit(c: char) -> bool {
    '0' <= c && c <= '9'
}

/// The value of the digit `c`.
pub open spec fn digit_value(c: char) -> int {
    (c as u32) as int - 48
}

/// The number that the digits `s` write in base ten.
pub open spec fn numeral_value(s: Seq<char>) -> int
    decreases s.len(),
{
    if s.len() == 0 {
        0
    } else {
        numeral_value(s.drop_last()) * 10 + digit_value(s.last())
    }
}

proof fn lemma_decimal_reads_back(n: nat)
    ensures
        decimal(n).len() >= 1,
        forall|i: int| 0 <= i < decimal(n).len() ==> is_digit(#[trigger] decimal(n)[i]),
        numeral_value(decimal(n)) == n,
        n >= 10 ==> decimal(n)[0] != '0',
    decreases n,
{
    assert(digit_value(digit_char(n % 10)) == n % 10);
    if n < 10 {
        let one = seq![digit_char(n)];
        assert(decimal(n) =~= one);
        assert(one.drop_last() =~= Seq::<char>::empty());
        assert(one.last() == digit_char(n));
        assert(numeral_value(Seq::<char>::empty()) == 0);
        assert(numeral_value(one) == numeral_value(one.drop_last()) * 10 + digit_value(one.last()));
    } else {
        lemma_decimal_reads_back(n / 10);
        let d = decimal(n / 10);
        assert(decimal(n) == d.push(digit_char(n % 10)));
        assert(d.push(digit_char(n % 10)).drop_last() =~= d);
        assert(forall|i: int| 0 <= i < d.len() ==> d.push(digit_char(n % 10))[i] == d[i]);
        if n / 10 < 10 {
            assert(d =~= seq![digit_char(n / 10)]);
        }
    }
}

/// How a positive size is shown: a whole number written without leading
/// zeros, a point, exactly two digits, a space and the unit's name, where
/// the whole number and the two digits together are the size in hundredths
/// of its unit.
pub proof fn law_size_text_has_two_decimals(size: u64)
    requires
        size > 0,
    ensures
        ({
            let t = size_text(size);
            let u = unit_name(size_unit(size));
            let k = t.len() - u.len() - 4;
            &&& k >= 1
            &&& forall|i: int| 0 <= i < k ==> is_digit(#[trigger] t[i])
            &&& k > 1 ==> t[0] != '0'
            &&& t[k] == '.'
            &&& is_digit(t[k + 1])
            &&& is_digit(t[k + 2])
            &&& t[k + 3] == ' '
            &&& t.subrange(k + 4, t.len() as int) == u
            &&& numeral_value(t.subrange(0, k)) * 100 + digit_value(t[k + 1]) * 10 + digit_value(
                t[k + 2],
            ) == size_hundredths(size)
        }),
{
    let h = size_hundredths(size);
    let w = decimal(h / 100);
    let f = two_digits(h % 100);
    let u = unit_name(size_unit(size));
    let t = size_text(size);
    lemma_decimal_reads_back(h / 100);
    assert(t == w + "."@ + f + " "@ + u);
    reveal_strlit(".");
    reveal_strlit(" ");
    let k = w.len() as int;
    assert(t.len() == k + 4 + u.len());
    assert(t.subrange(0, k) =~= w);
    assert(t.subrange(k + 4, t.len() as int) =~= u);
    assert forall|i: int| 0 <= i < k implies is_digit(#[trigger] t[i]) by {
        assert(t[i] == w[i]);
    }
    assert(t[k] == '.');
    assert(t[k + 1] == digit_char((h % 100) / 10));
    assert(t[k + 2] == digit_char((h % 100) % 10));
    assert(t[k + 3] == ' ');
    if k > 1 {
        assert(h / 100 >= 10);
        assert(t[0] == w[0]);
    }
}

/// The amount shown is the size in its unit rounded to the nearest
/// hundredth: within half a hundredth of the exact amount, for every size
/// that a double holds exactly. The unit is the largest one not above the
/// size.
pub proof fn law_size_amount_is_nearest(size: u64)
    requires
        0 < size < 0x20_0000_0000_0000,
    ensures
        ({
            let h = size_hundredths(size) as int;
            let ub = unit_bytes(size_unit(size)) as int;
            &&& 2 * (h * ub - 100 * size) <= ub
            &&& 2 * (100 * size - h * ub) <= ub
            &&& ub <= size
            &&& size_unit(size) < 4 ==> size < 1024 * ub
        }),
{
    let n = size as nat;
    assert(f64_spacing(n) == 1);
    assert(nearest_f64(n) == n);
    let ub = unit_bytes(size_unit(size));
    let big = 100 * n;
    let q = big / ub;
    let r = big % ub;
    vstd::arithmetic::div_mod::lemma_fundamental_div_mod(big as int, ub as int);
    assert(big == q * ub + r);
    let h = size_hundredths(size);
    assert(h == round_half_even(big, ub));
    if h == q + 1 {
        assert(h * ub == q * ub + ub) by (nonlinear_arith)
            requires
                h == q + 1,
        ;
    }
}

} // verus!

verus! {

/// The sum of the counts of category summaries.
pub open spec fn sum_of_counts(entries: Seq<(Category, CategorySummary)>) -> nat
    decreases entries.len(),
{
    if entries.len() == 0 {
        0
    } else {
        sum_of_counts(entries.drop_last()) + entries.last().1.count as nat
    }
}

/// The sum of the sizes of category summaries.
pub open spec fn sum_of_category_sizes(entries: Seq<(Category, CategorySummary)>) -> nat
    decreases entries.len(),
{
    if entries.len() == 0 {
        0
    } else {
        sum_of_category_sizes(entries.drop_last()) + entries.last().1.size as nat
    }
}

/// The sum of the sizes of safety summaries.
pub open spec fn sum_of_safety_sizes(entries: Seq<(SafetyLevel, u64)>) -> nat
    decreases entries.len(),
{
    if entries.len() == 0 {
        0
    } else {
        sum_of_safety_sizes(entries.drop_last()) + entries.last().1 as nat
    }
}

spec fn count_with_key<T>(items: Seq<ScanItem>, key: spec_fn(ScanItem) -> T, k: T) -> nat
    decreases items.len(),
{
    if items.len() == 0 {
        0
    } else {
        count_with_key(items.drop_last(), key, k) + if key(items.last()) == k {
            1nat
        } else {
            0nat
        }
    }
}

spec fn size_with_key<T>(items: Seq<ScanItem>, key: spec_fn(ScanItem) -> T, k: T) -> nat
    decreases items.len(),
{
    if items.len() == 0 {
        0
    } else {
        size_with_key(items.drop_last(), key, k) + if key(items.last()) == k {
            size_or_zero(items.last()) as nat
        } else {
            0nat
        }
    }
}

spec fn counts_for<T>(items: Seq<ScanItem>, key: spec_fn(ScanItem) -> T, ks: Seq<T>) -> nat
    decreases ks.len(),
{
    if ks.len() == 0 {
        0
    } else {
        counts_for(items, key, ks.drop_last()) + count_with_key(items, key, ks.last())
    }
}

spec fn sizes_for<T>(items: Seq<ScanItem>, key: spec_fn(ScanItem) -> T, ks: Seq<T>) -> nat
    decreases ks.len(),
{
    if ks.len() == 0 {
        0
    } else {
        sizes_for(items, key, ks.drop_last()) + size_with_key(items, key, ks.last())
    }
}

spec fn distinct<T>(ks: Seq<T>) -> bool {
    forall|a: int, b: int| 0 <= a < b < ks.len() ==> ks[a] != ks[b]
}

proof fn lemma_sums_of_nothing<T>(key: spec_fn(ScanItem) -> T, ks: Seq<T>)
    ensures
        counts_for(Seq::<ScanItem>::empty(), key, ks) == 0,
        sizes_for(Seq::<ScanItem>::empty(), key, ks) == 0,
    decreases ks.len(),
{
    if ks.len() > 0 {
        lemma_sums_of_nothing(key, ks.drop_last());
    }
}

proof fn lemma_sums_push<T>(
    items: Seq<ScanItem>,
    x: ScanItem,
    key: spec_fn(ScanItem) -> T,
    ks: Seq<T>,
)
    requires
        distinct(ks),
    ensures
        counts_for(items.push(x), key, ks) == counts_for(items, key, ks) + if ks.contains(key(x)) {
            1nat
        } else {
            0nat
        },
        sizes_for(items.push(x), key, ks) == sizes_for(items, key, ks) + if ks.contains(key(x)) {
            size_or_zero(x) as nat
        } else {
            0nat
        },
    decreases ks.len(),
{
    assert(items.push(x).drop_last() =~= items);
    if ks.len() > 0 {
        let rest = ks.drop_last();
        assert(distinct(rest));
        lemma_sums_push(items, x, key, rest);
        if ks.last() == key(x) {
            assert(!rest.contains(key(x)));
            assert(ks.contains(key(x))) by {
                assert(ks[ks.len() - 1] == key(x));
            }
        } else {
            if rest.contains(key(x)) {
                let j = choose|j: int| 0 <= j < rest.len() && rest[j] == key(x);
                assert(ks[j] == key(x));
            }
            if ks.contains(key(x)) {
                let j = choose|j: int| 0 <= j < ks.len() && ks[j] == key(x);
                assert(rest[j] == key(x));
            }
        }
    }
}

proof fn lemma_partition<T>(items: Seq<ScanItem>, key: spec_fn(ScanItem) -> T, ks: Seq<T>)
    requires
        distinct(ks),
        forall|i: int| 0 <= i < items.len() ==> ks.contains(#[trigger] key(items[i])),
    ensures
        counts_for(items, key, ks) == items.len(),
        sizes_for(items, key, ks) == total_size_of(items),
    decreases items.len(),
{
    if items.len() == 0 {
        lemma_sums_of_nothing(key, ks);
        assert(items =~= Seq::<ScanItem>::empty());
    } else {
        let rest = items.drop_last();
        assert forall|i: int| 0 <= i < rest.len() implies ks.contains(#[trigger] key(rest[i])) by {
            assert(key(rest[i]) == key(items[i]));
        }
        lemma_partition(rest, key, ks);
        assert(ks.contains(key(items[items.len() - 1])));
        lemma_sums_push(rest, items.last(), key, ks);
        assert(rest.push(items.last()) =~= items);
    }
}

proof fn lemma_category_key(items: Seq<ScanItem>, c: Category)
    ensures
        count_in_category(items, c) == count_with_key(items, |it: ScanItem| it.category, c),
        size_in_category(items, c) == size_with_key(items, |it: ScanItem| it.category, c),
    decreases items.len(),
{
    if items.len() > 0 {
        lemma_category_key(items.drop_last(), c);
    }
}

proof fn lemma_safety_key(items: Seq<ScanItem>, s: SafetyLevel)
    ensures
        count_in_safety(items, s) == count_with_key(items, |it: ScanItem| it.safety, s),
        size_in_safety(items, s) == size_with_key(items, |it: ScanItem| it.safety, s),
    decreases items.len(),
{
    if items.len() > 0 {
        lemma_safety_key(items.drop_last(), s);
    }
}

proof fn lemma_category_sums(items: Seq<ScanItem>, entries: Seq<(Category, CategorySummary)>)
    requires
        forall|k: int|
            0 <= k < entries.len() ==> {
                &&& (#[trigger] entries[k]).1.count == count_in_category(items, entries[k].0)
                &&& entries[k].1.size == size_in_category(items, entries[k].0)
            },
    ensures
        sum_of_counts(entries) == counts_for(
            items,
            |it: ScanItem| it.category,
            entries.map_values(|e: (Category, CategorySummary)| e.0),
        ),
        sum_of_category_sizes(entries) == sizes_for(
            items,
            |it: ScanItem| it.category,
            entries.map_values(|e: (Category, CategorySummary)| e.0),
        ),
    decreases entries.len(),
{
    let ks = entries.map_values(|e: (Category, CategorySummary)| e.0);
    if entries.len() > 0 {
        let rest = entries.drop_last();
        lemma_category_sums(items, rest);
        assert(rest.map_values(|e: (Category, CategorySummary)| e.0) =~= ks.drop_last());
        assert(entries[entries.len() - 1] == entries.last());
        lemma_category_key(items, entries.last().0);
    }
}

proof fn lemma_safety_sums(items: Seq<ScanItem>, entries: Seq<(SafetyLevel, u64)>)
    requires
        forall|k: int|
            0 <= k < entries.len() ==> (#[trigger] entries[k]).1 == size_in_safety(
                items,
                entries[k].0,
            ),
    ensures
        sum_of_safety_sizes(entries) == sizes_for(
            items,
            |it: ScanItem| it.safety,
            entries.map_values(|e: (SafetyLevel, u64)| e.0),
        ),
    decreases entries.len(),
{
    let ks = entries.map_values(|e: (SafetyLevel, u64)| e.0);
    if entries.len() > 0 {
        let rest = entries.drop_last();
        lemma_safety_sums(items, rest);
        assert(rest.map_values(|e: (SafetyLevel, u64)| e.0) =~= ks.drop_last());
        assert(entries[entries.len() - 1] == entries.last());
        lemma_safety_key(items, entries.last().0);
    }
}

/// The category summaries of an analysis account for every item and every
/// byte: their counts add up to the number of items and their sizes to the
/// total size.
pub proof fn law_category_summaries_add_up(
    items: Seq<ScanItem>,
    entries: Seq<(Category, CategorySummary)>,
)
    requires
        summarizes_categories(items, entries),
    ensures
        sum_of_counts(entries) == items.len(),
        sum_of_category_sizes(entries) == total_size_of(items),
{
    let key = |it: ScanItem| it.category;
    let ks = entries.map_values(|e: (Category, CategorySummary)| e.0);
    assert forall|i: int| 0 <= i < items.len() implies ks.contains(#[trigger] key(items[i])) by {
        let c = items[i].category;
        lemma_category_key(items, c);
        lemma_present(items, i);
        let k = choose|k: int|
            0 <= k < entries.len() && #[trigger] entries[k].0 == c;
        assert(ks[k] == c);
    }
    lemma_category_sums(items, entries);
    lemma_partition(items, key, ks);
}

/// The safety summaries of an analysis account for every byte: their sizes
/// add up to the total size.
pub proof fn law_safety_summaries_add_up(items: Seq<ScanItem>, entries: Seq<(SafetyLevel, u64)>)
    requires
        summarizes_safety(items, entries),
    ensures
        sum_of_safety_sizes(entries) == total_size_of(items),
{
    let key = |it: ScanItem| it.safety;
    let ks = entries.map_values(|e: (SafetyLevel, u64)| e.0);
    assert forall|i: int| 0 <= i < items.len() implies ks.contains(#[trigger] key(items[i])) by {
        let s = items[i].safety;
        lemma_present(items, i);
        let k = choose|k: int|
            0 <= k < entries.len() && #[trigger] entries[k].0 == s;
        assert(ks[k] == s);
    }
    lemma_safety_sums(items, entries);
    lemma_partition(items, key, ks);
}

proof fn lemma_present(items: Seq<ScanItem>, i: int)
    requires
        0 <= i < items.len(),
    ensures
        count_in_category(items, items[i].category) > 0,
        count_in_safety(items, items[i].safety) > 0,
    decreases items.len(),
{
    if i < items.len() - 1 {
        lemma_present(items.drop_last(), i);
    }
}

/// The largest items come largest first, and no item left out of them is
/// larger than one that was kept.
pub proof fn law_largest_items_in_order(items: Seq<ScanItem>, limit: usize, top: Seq<ScanItem>)
    requires
        largest_items(items, limit, top),
    ensures
        forall|k: int, l: int|
            0 <= k < l < top.len() ==> size_or_zero(#[trigger] top[k]) >= size_or_zero(
                #[trigger] top[l],
            ),
        forall|i: int, k: int|
            0 <= i < items.len() && descending_rank(size_keys(items), i) >= top.len() && 0 <= k
                < top.len() ==> size_or_zero(#[trigger] top[k]) >= size_or_zero(
                #[trigger] items[i],
            ),
{
    let keys = size_keys(items);
    assert forall|k: int, l: int| 0 <= k < l < top.len() implies size_or_zero(#[trigger] top[k])
        >= size_or_zero(#[trigger] top[l]) by {
        assert(holds_item_of_rank(items, top, k));
        assert(holds_item_of_rank(items, top, l));
        let i = choose|i: int|
            0 <= i < items.len() && descending_rank(keys, i) == k && #[trigger] items[i]@
                == top[k]@;
        let j = choose|j: int|
            0 <= j < items.len() && descending_rank(keys, j) == l && #[trigger] items[j]@
                == top[l]@;
        lemma_descending_rank_orders(keys, i, j);
    }
    assert forall|i: int, k: int|
        0 <= i < items.len() && descending_rank(size_keys(items), i) >= top.len() && 0 <= k
            < top.len() implies size_or_zero(#[trigger] top[k]) >= size_or_zero(
            #[trigger] items[i],
        ) by {
        assert(holds_item_of_rank(items, top, k));
        let j = choose|j: int|
            0 <= j < items.len() && descending_rank(keys, j) == k && #[trigger] items[j]@
                == top[k]@;
        lemma_descending_rank_orders(keys, j, i);
    }
}

/// Raising the limit only adds items at the end: the largest items for a
/// limit are the first ones of the largest items for any larger limit.
pub proof fn law_largest_items_grow_with_limit(
    items: Seq<ScanItem>,
    small: usize,
    top_small: Seq<ScanItem>,
    large: usize,
    top_large: Seq<ScanItem>,
)
    requires
        largest_items(items, small, top_small),
        largest_items(items, large, top_large),
        small <= large,
    ensures
        top_small.len() <= top_large.len(),
        forall|j: int| 0 <= j < top_small.len() ==> #[trigger] top_small[j]@ == top_large[j]@,
{
    let keys = size_keys(items);
    assert forall|j: int| 0 <= j < top_small.len() implies #[trigger] top_small[j]@
        == top_large[j]@ by {
        assert(holds_item_of_rank(items, top_small, j));
        assert(holds_item_of_rank(items, top_large, j));
        let a = choose|a: int|
            0 <= a < items.len() && descending_rank(keys, a) == j && #[trigger] items[a]@
                == top_small[j]@;
        let b = choose|b: int|
            0 <= b < items.len() && descending_rank(keys, b) == j && #[trigger] items[b]@
                == top_large[j]@;
        lemma_descending_rank_injective(keys, a, b);
    }
}

/// With a limit of at least the number of items, the largest items hold
/// every item exactly once: item `i` at its stable descending rank, the
/// ranks of different items being different places.
pub proof fn law_largest_items_hold_all(items: Seq<ScanItem>, limit: usize, top: Seq<ScanItem>)
    requires
        largest_items(items, limit, top),
        limit >= items.len(),
    ensures
        top.len() == items.len(),
        forall|i: int|
            #![trigger items[i]]
            0 <= i < items.len() ==> descending_rank(size_keys(items), i) < top.len() && top[
                descending_rank(size_keys(items), i) as int
            ]@ == items[i]@,
        forall|i: int, j: int|
            0 <= i < items.len() && 0 <= j < items.len() && i != j ==> descending_rank(
                size_keys(items),
                i,
            ) != descending_rank(size_keys(items), j),
{
    let keys = size_keys(items);
    assert forall|i: int|
        #![trigger items[i]]
        0 <= i < items.len() implies descending_rank(size_keys(items), i) < top.len() && top[
            descending_rank(size_keys(items), i) as int
        ]@ == items[i]@ by {
        lemma_descending_rank_injective(keys, i, i);
    }
    assert forall|i: int, j: int|
        0 <= i < items.len() && 0 <= j < items.len() && i != j implies descending_rank(
            size_keys(items),
            i,
        ) != descending_rank(size_keys(items), j) by {
        lemma_descending_rank_injective(keys, i, j);
    }
}

/// The sum of `g` over `items`.
spec fn sum_of(items: Seq<ScanItem>, g: spec_fn(ScanItem) -> nat) -> nat
    decreases items.len(),
{
    if items.len() == 0 {
        0
    } else {
        sum_of(items.drop_last(), g) + g(items.last())
    }
}

proof fn lemma_sum_remove(items: Seq<ScanItem>, g: spec_fn(ScanItem) -> nat, j: int)
    requires
        0 <= j < items.len(),
    ensures
        sum_of(items, g) == sum_of(items.remove(j), g) + g(items[j]),
    decreases items.len(),
{
    if j == items.len() - 1 {
        assert(items.remove(j) =~= items.drop_last());
    } else {
        let rest = items.drop_last();
        lemma_sum_remove(rest, g, j);
        assert(items.remove(j).drop_last() =~= rest.remove(j));
        assert(items.remove(j).last() == items.last());
    }
}

proof fn lemma_sum_reordered(items: Seq<ScanItem>, other: Seq<ScanItem>, g: spec_fn(ScanItem) -> nat)
    requires
        items.to_multiset() == other.to_multiset(),
    ensures
        sum_of(items, g) == sum_of(other, g),
    decreases items.len(),
{
    broadcast use vstd::seq_lib::group_to_multiset_ensures;

    if items.len() == 0 {
        assert(items.len() == items.to_multiset().len());
        assert(other.len() == other.to_multiset().len());
    } else {
        let rest = items.drop_last();
        let x = items.last();
        assert(rest.push(x) =~= items);
        assert(items.to_multiset().count(x) > 0);
        assert(other.contains(x));
        let j = choose|j: int| 0 <= j < other.len() && other[j] == x;
        assert(rest.to_multiset() =~= other.remove(j).to_multiset());
        lemma_sum_reordered(rest, other.remove(j), g);
        lemma_sum_remove(other, g, j);
    }
}

proof fn lemma_sums_are_sums(items: Seq<ScanItem>, c: Category, s: SafetyLevel)
    ensures
        total_size_of(items) == sum_of(items, |it: ScanItem| size_or_zero(it) as nat),
        count_in_category(items, c) == sum_of(
            items,
            |it: ScanItem|
                if it.category == c {
                    1nat
                } else {
                    0nat
                },
        ),
        size_in_category(items, c) == sum_of(
            items,
            |it: ScanItem|
                if it.category == c {
                    size_or_zero(it) as nat
                } else {
                    0nat
                },
        ),
        count_in_safety(items, s) == sum_of(
            items,
            |it: ScanItem|
                if it.safety == s {
                    1nat
                } else {
                    0nat
                },
        ),
        size_in_safety(items, s) == sum_of(
            items,
            |it: ScanItem|
                if it.safety == s {
                    size_or_zero(it) as nat
                } else {
                    0nat
                },
        ),
    decreases items.len(),
{
    if items.len() > 0 {
        lemma_sums_are_sums(items.drop_last(), c, s);
    }
}

/// The totals and summaries of an analysis do not depend on the order of
/// the items: two lists that hold the same items, each as often, have the
/// same number of items, the same total size, and the same count and size
/// in each category and at each safety level.
pub proof fn law_analysis_ignores_order(items: Seq<ScanItem>, other: Seq<ScanItem>)
    requires
        items.to_multiset() == other.to_multiset(),
    ensures
        items.len() == other.len(),
        total_size_of(items) == total_size_of(other),
        forall|c: Category|
            count_in_category(items, c) == count_in_category(other, c) && size_in_category(
                items,
                c,
            ) == size_in_category(other, c),
        forall|s: SafetyLevel|
            count_in_safety(items, s) == count_in_safety(other, s) && size_in_safety(items, s)
                == size_in_safety(other, s),
{
    broadcast use vstd::seq_lib::group_to_multiset_ensures;

    assert(items.len() == items.to_multiset().len());
    assert(other.len() == other.to_multiset().len());
    let c0 = Category::Trash;
    let s0 = SafetyLevel::Safe;
    lemma_sums_are_sums(items, c0, s0);
    lemma_sums_are_sums(other, c0, s0);
    lemma_sum_reordered(items, other, |it: ScanItem| size_or_zero(it) as nat);
    assert forall|c: Category|
        count_in_category(items, c) == count_in_category(other, c) && size_in_category(items, c)
            == size_in_category(other, c) by {
        lemma_sums_are_sums(items, c, s0);
        lemma_sums_are_sums(other, c, s0);
        let gc = |it: ScanItem|
            if it.category == c {
                1nat
            } else {
                0nat
            };
        let gs = |it: ScanItem|
            if it.category == c {
                size_or_zero(it) as nat
            } else {
                0nat
            };
        lemma_sum_reordered(items, other, gc);
        lemma_sum_reordered(items, other, gs);
    }
    assert forall|s: SafetyLevel|
        count_in_safety(items, s) == count_in_safety(other, s) && size_in_safety(items, s)
            == size_in_safety(other, s) by {
        lemma_sums_are_sums(items, c0, s);
        lemma_sums_are_sums(other, c0, s);
        let gc = |it: ScanItem|
            if it.safety == s {
                1nat
            } else {
                0nat
            };
        let gs = |it: ScanItem|
            if it.safety == s {
                size_or_zero(it) as nat
            } else {
                0nat
            };
        lemma_sum_reordered(items, other, gc);
        lemma_sum_reordered(items, other, gs);
    }
}

proof fn lemma_key_counts_are_sums(items: Seq<ScanItem>, v: u64)
    ensures
        count_above(size_keys(items), v) == sum_of(
            items,
            |it: ScanItem|
                if size_or_zero(it) > v {
                    1nat
                } else {
                    0nat
                },
        ),
        count_equal(size_keys(items), v) == sum_of(
            items,
            |it: ScanItem|
                if size_or_zero(it) == v {
                    1nat
                } else {
                    0nat
                },
        ),
    decreases items.len(),
{
    if items.len() > 0 {
        lemma_key_counts_are_sums(items.drop_last(), v);
        assert(size_keys(items).drop_last() =~= size_keys(items.drop_last()));
    }
}

proof fn lemma_key_counts_reordered(items: Seq<ScanItem>, other: Seq<ScanItem>, v: u64)
    requires
        items.to_multiset() == other.to_multiset(),
    ensures
        count_above(size_keys(items), v) == count_above(size_keys(other), v),
        count_equal(size_keys(items), v) == count_equal(size_keys(other), v),
{
    lemma_key_counts_are_sums(items, v);
    lemma_key_counts_are_sums(other, v);
    let ga = |it: ScanItem|
        if size_or_zero(it) > v {
            1nat
        } else {
            0nat
        };
    let ge = |it: ScanItem|
        if size_or_zero(it) == v {
            1nat
        } else {
            0nat
        };
    lemma_sum_reordered(items, other, ga);
    lemma_sum_reordered(items, other, ge);
}

/// The largest items do not depend on the order of the items but for ties:
/// for two lists that hold the same items, each as often, the largest items
/// for a limit are as many and have the same sizes, place by place.
pub proof fn law_largest_sizes_ignore_order(
    items: Seq<ScanItem>,
    other: Seq<ScanItem>,
    limit: usize,
    top: Seq<ScanItem>,
    other_top: Seq<ScanItem>,
)
    requires
        items.to_multiset() == other.to_multiset(),
        largest_items(items, limit, top),
        largest_items(other, limit, other_top),
    ensures
        top.len() == other_top.len(),
        forall|k: int|
            0 <= k < top.len() ==> size_or_zero(#[trigger] top[k]) == size_or_zero(other_top[k]),
{
    broadcast use vstd::seq_lib::group_to_multiset_ensures;

    assert(items.len() == items.to_multiset().len());
    assert(other.len() == other.to_multiset().len());
    let keys = size_keys(items);
    let other_keys = size_keys(other);
    assert forall|k: int| 0 <= k < top.len() implies size_or_zero(#[trigger] top[k])
        == size_or_zero(other_top[k]) by {
        assert(holds_item_of_rank(items, top, k));
        assert(holds_item_of_rank(other, other_top, k));
        let i = choose|i: int|
            0 <= i < items.len() && descending_rank(keys, i) == k && #[trigger] items[i]@
                == top[k]@;
        let j = choose|j: int|
            0 <= j < other.len() && descending_rank(other_keys, j) == k && #[trigger] other[j]@
                == other_top[k]@;
        let v = size_or_zero(items[i]);
        let w = size_or_zero(other[j]);
        assert(keys[i] == v);
        assert(other_keys[j] == w);
        lemma_rank_among_equals(keys, i);
        lemma_rank_among_equals(other_keys, j);
        lemma_key_counts_reordered(items, other, v);
        lemma_key_counts_reordered(items, other, w);
        if v < w {
            lemma_above_dominates(keys, v, w);
        } else if w < v {
            lemma_above_dominates(keys, w, v);
        }
        assert(v == w);
    }
}

} // verus!
