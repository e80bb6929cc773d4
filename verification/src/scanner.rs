use vstd::prelude::*;

use crate::text::{wildcard_match, wildcard_matches};
use crate::rules::{Category, Rule, RuleView, SafetyLevel, rule_views};

verus! {

/// Something found by a scan: a path, the rule that found it and, where it
/// could be measured, its size in bytes.
#[derive(Debug)]
pub struct ScanItem {
    pub path: String,
    pub rule_name: String,
    pub category: Category,
    pub safety: SafetyLevel,
    pub size: Option<u64>,
}

/// The value of a scan item, its text fields taken as character sequences.
pub struct ScanItemView {
    pub path: Seq<char>,
    pub rule_name: Seq<char>,
    pub category: Category,
    pub safety: SafetyLevel,
    pub size: Option<u64>,
}

impl View for ScanItem {
    type V = ScanItemView;

    open spec fn view(&self) -> ScanItemView {
        ScanItemView {
            path: self.path@,
            rule_name: self.rule_name@,
            category: self.category,
            safety: self.safety,
            size: self.size,
        }
    }
}

impl Clone for ScanItem {
    fn clone(&self) -> (r: ScanItem)
        ensures
            r@ == self@,
    {
        ScanItem {
            path: self.path.clone(),
            rule_name: self.rule_name.clone(),
            category: self.category,
            safety: self.safety,
            size: self.size,
        }
    }
}

/// Whether two paths are equal as `std::path::Path` compares them, by their
/// components.
pub uninterp spec fn same_path(a: Seq<char>, b: Seq<char>) -> bool;

/// The final component of a path as `std::path::Path::file_name` gives it,
/// as text.
pub uninterp spec fn path_file_name(path: Seq<char>) -> Option<Seq<char>>;

/// Compares two paths with `std::path::Path`'s `==`. Its contract names the
/// result `same_path`, and states only that a path is equal to itself.
#[verifier::external_body]
fn path_eq(a: &str, b: &str) -> (r: bool)
    ensures
        r == same_path(a@, b@),
        a@ == b@ ==> r,
{
    std::path::Path::new(a) == std::path::Path::new(b)
}

/// The characters of `path` after its last `/`; all of it where it has none.
pub open spec fn final_segment(path: Seq<char>) -> Seq<char>
    decreases path.len(),
{
    if path.len() == 0 || path.last() == '/' {
        Seq::empty()
    } else {
        final_segment(path.drop_last()).push(path.last())
    }
}

/// Whether `path` plainly ends in a name: it holds no `\` and no `:`, does
/// not begin with `//`, and its final segment is neither empty, `.` nor `..`.
/// Such a path has no prefix on any platform, and its final component is
/// that segment.
pub open spec fn ends_in_name(path: Seq<char>) -> bool {
    &&& !path.contains('\\')
    &&& !path.contains(':')
    &&& !(path.len() >= 2 && path[0] == '/' && path[1] == '/')
    &&& final_segment(path).len() > 0
    &&& final_segment(path) != "."@
    &&& final_segment(path) != ".."@
}

/// The final component of a path, from `std::path::Path::file_name`, as text
/// (`None` also where that component is not valid text). Its contract names
/// the result `path_file_name`, and states that a path that plainly ends in
/// a name (`ends_in_name`) has that name as its final component; of other
/// paths it states nothing more.
#[verifier::external_body]
fn file_name_of(path: &str) -> (r: Option<String>)
    ensures
        match r {
            Some(n) => path_file_name(path@) == Some(n@),
            None => path_file_name(path@) == None::<Seq<char>>,
        },
        ends_in_name(path@) ==> match r {
            Some(n) => n@ == final_segment(path@),
            None => false,
        },
{
    match std::path::Path::new(path).file_name() {
        Some(n) => match n.to_str() {
            Some(t) => Some(t.to_string()),
            None => None,
        },
        None => None,
    }
}

/// The name against which a rule's patterns are compared: the path's final
/// component (its final segment, where it plainly ends in a name), or
/// nothing.
pub open spec fn name_for_patterns(path: Seq<char>) -> Seq<char> {
    if ends_in_name(path) {
        final_segment(path)
    } else {
        match path_file_name(path) {
            Some(n) => n,
            None => Seq::empty(),
        }
    }
}

/// Whether a rule finds `path`: with no patterns, when the path is one of
/// the rule's base directories; with patterns, when the path's final
/// component matches one of them (`*` standing for any run of characters).
pub open spec fn rule_matches(rule: RuleView, path: Seq<char>) -> bool {
    if rule.patterns.len() == 0 {
        exists|k: int|
            0 <= k < rule.base_dirs.len() && #[trigger] same_path(path, rule.base_dirs[k])
    } else {
        exists|k: int|
            0 <= k < rule.patterns.len() && wildcard_match(
                #[trigger] rule.patterns[k],
                name_for_patterns(path),
            )
    }
}

/// Whether `name` matches one of the rule's patterns.
pub fn matches_name(rule: &Rule, name: &str) -> (r: bool)
    ensures
        r == exists|k: int|
            0 <= k < rule@.patterns.len() && wildcard_match(#[trigger] rule@.patterns[k], name@),
{
    let mut k: usize = 0;
    while k < rule.patterns.len()
        invariant
            k <= rule.patterns.len(),
            forall|l: int| 0 <= l < k ==> !wildcard_match(#[trigger] rule@.patterns[l], name@),
        decreases rule.patterns.len() - k,
    {
        if wildcard_matches(rule.patterns[k].as_str(), name) {
            assert(wildcard_match(rule@.patterns[k as int], name@));
            return true;
        }
        k += 1;
    }
    false
}

/// The sum of `sizes`.
pub open spec fn sum_of_sizes(sizes: Seq<u64>) -> nat
    decreases sizes.len(),
{
    if sizes.len() == 0 {
        0
    } else {
        sum_of_sizes(sizes.drop_last()) + sizes.last() as nat
    }
}

proof fn lemma_sum_of_sizes_prefix(sizes: Seq<u64>, n: int)
    requires
        0 <= n <= sizes.len(),
    ensures
        sum_of_sizes(sizes.take(n)) <= sum_of_sizes(sizes),
    decreases sizes.len(),
{
    if n < sizes.len() {
        lemma_sum_of_sizes_prefix(sizes.drop_last(), n);
        assert(sizes.drop_last().take(n) =~= sizes.take(n));
    } else {
        assert(sizes.take(n) =~= sizes);
    }
}

/// Finds the leftovers that rules describe.
pub struct Scanner;

impl Default for Scanner {
    fn default() -> Scanner {
        Scanner
    }
}

impl Scanner {
    pub fn new() -> Scanner {
        Scanner
    }

    /// The size of a directory from the sizes of the files below it: their
    /// sum.
    pub fn calculate_size(&self, file_sizes: &[u64]) -> (r: u64)
        requires
            sum_of_sizes(file_sizes@) <= u64::MAX,
        ensures
            r == sum_of_sizes(file_sizes@),
    {
        let mut total: u64 = 0;
        let mut i: usize = 0;
        while i < file_sizes.len()
            invariant
                i <= file_sizes.len(),
                sum_of_sizes(file_sizes@) <= u64::MAX,
                total == sum_of_sizes(file_sizes@.take(i as int)),
            decreases file_sizes.len() - i,
        {
            assert(file_sizes@.take(i + 1).drop_last() =~= file_sizes@.take(i as int));
            proof {
                lemma_sum_of_sizes_prefix(file_sizes@, i + 1);
            }
            total = total + file_sizes[i];
            i += 1;
        }
        assert(file_sizes@.take(file_sizes.len() as int) =~= file_sizes@);
        total
    }

    /// Whether `rule` finds `path`. A rule without patterns finds each of
    /// its base directories.
    pub fn matches_rule(&self, path: &str, rule: &Rule) -> (r: bool)
        ensures
            r == rule_matches(rule@, path@),
            rule@.patterns.len() == 0 && rule@.base_dirs.contains(path@) ==> r,
    {
        if rule.patterns.len() == 0 {
            let mut k: usize = 0;
            while k < rule.base_dirs.len()
                invariant
                    k <= rule.base_dirs.len(),
                    rule.patterns.len() == 0,
                    forall|l: int| 0 <= l < k ==> !same_path(path@, rule@.base_dirs[l]),
                    forall|l: int| 0 <= l < k ==> rule@.base_dirs[l] != path@,
                decreases rule.base_dirs.len() - k,
            {
                if path_eq(path, rule.base_dirs[k].as_str()) {
                    assert(same_path(path@, rule@.base_dirs[k as int]));
                    return true;
                }
                k += 1;
            }
            false
        } else {
            let name = match file_name_of(path) {
                Some(n) => n,
                None => String::new(),
            };
            assert(name@ == name_for_patterns(path@));
            matches_name(rule, name.as_str())
        }
    }
}

/// What a scan is waiting for.
#[derive(Debug, Clone, Copy, PartialEq, Eq, Structural)]
pub enum ScanPhase {
    /// Whether the current base directory exists.
    CheckBase,
    /// The first entry of a walk of the current base directory.
    OpenWalk,
    /// The next entry of the walk.
    NextEntry,
    /// The size of the entry just found.
    Measure,
    /// That the walk no longer descends into the entry just found, if it is
    /// a directory.
    SkipDir,
    /// Nothing: the scan is over.
    Done,
}

/// What the scan asks of the one who drives it.
#[derive(Debug)]
pub enum ScanAction {
    /// Report whether `path` exists, with `ScanEvent::BaseChecked`.
    CheckBase { path: String },
    /// Start walking `base`, at most `max_depth` levels deep, and report its
    /// first entry (the base itself) as `NextEntry` asks.
    OpenWalk { base: String, max_depth: Option<usize> },
    /// Report the next entry of the walk with `ScanEvent::Entry`; with
    /// `ScanEvent::EntryUnreadable` when the walk yields an entry it cannot
    /// read (such as a directory without permission), whose subtree the walk
    /// then leaves out; or with `ScanEvent::WalkEnded` when there is none.
    NextEntry,
    /// Report the size of `path` with `ScanEvent::Measured`.
    MeasureSize { path: String },
    /// Stop the walk from descending into `path` if it is a directory, then
    /// report `ScanEvent::Continued`.
    SkipIfDirectory { path: String },
    /// Nothing more: the scan is over.
    Done,
}

/// The value of a scan action.
pub enum ScanActionView {
    CheckBase { path: Seq<char> },
    OpenWalk { base: Seq<char>, max_depth: Option<usize> },
    NextEntry,
    MeasureSize { path: Seq<char> },
    SkipIfDirectory { path: Seq<char> },
    Done,
}

impl View for ScanAction {
    type V = ScanActionView;

    open spec fn view(&self) -> ScanActionView {
        match self {
            ScanAction::CheckBase { path } => ScanActionView::CheckBase { path: path@ },
            ScanAction::OpenWalk { base, max_depth } => ScanActionView::OpenWalk {
                base: base@,
                max_depth: *max_depth,
            },
            ScanAction::NextEntry => ScanActionView::NextEntry,
            ScanAction::MeasureSize { path } => ScanActionView::MeasureSize { path: path@ },
            ScanAction::SkipIfDirectory { path } => ScanActionView::SkipIfDirectory { path: path@ },
            ScanAction::Done => ScanActionView::Done,
        }
    }
}

/// What the one who drives a scan reports back.
#[derive(Debug)]
pub enum ScanEvent {
    /// Whether the base directory exists.
    BaseChecked { exists: bool },
    /// The walk yielded an entry at `path`.
    Entry { path: String },
    /// The walk yielded an entry that it could not read; the walk goes on
    /// without that entry's subtree.
    EntryUnreadable,
    /// The walk has no more entries.
    WalkEnded,
    /// The size of the entry just found, if it could be measured.
    Measured { size: Option<u64> },
    /// The entry just found was dealt with.
    Continued,
}

/// The value of a scan event.
pub enum ScanEventView {
    BaseChecked { exists: bool },
    Entry { path: Seq<char> },
    EntryUnreadable,
    WalkEnded,
    Measured { size: Option<u64> },
    Continued,
}

impl View for ScanEvent {
    type V = ScanEventView;

    open spec fn view(&self) -> ScanEventView {
        match self {
            ScanEvent::BaseChecked { exists } => ScanEventView::BaseChecked { exists: *exists },
            ScanEvent::Entry { path } => ScanEventView::Entry { path: path@ },
            ScanEvent::EntryUnreadable => ScanEventView::EntryUnreadable,
            ScanEvent::WalkEnded => ScanEventView::WalkEnded,
            ScanEvent::Measured { size } => ScanEventView::Measured { size: *size },
            ScanEvent::Continued => ScanEventView::Continued,
        }
    }
}

/// The state of a scan: its rules, the rule and base directory it is at,
/// what it waits for, and what it has found so far.
#[verifier::ext_equal]
pub struct ScanStateView {
    pub rules: Seq<RuleView>,
    pub rule_index: int,
    pub base_index: int,
    pub phase: ScanPhase,
    pub items: Seq<ScanItemView>,
}

/// The first base directory at or after base `bi` of rule `ri`, going on
/// to the following rules; `(rules.len(), 0)` when there is none.
pub open spec fn next_base(rules: Seq<RuleView>, ri: int, bi: int) -> (int, int)
    decreases rules.len() - ri,
{
    if ri < 0 || ri >= rules.len() {
        (rules.len() as int, 0)
    } else if 0 <= bi < rules[ri].base_dirs.len() {
        (ri, bi)
    } else {
        next_base(rules, ri + 1, 0)
    }
}

proof fn lemma_next_base_valid(rules: Seq<RuleView>, ri: int, bi: int)
    requires
        0 <= ri <= rules.len(),
    ensures
        ri <= next_base(rules, ri, bi).0 <= rules.len(),
        next_base(rules, ri, bi).0 < rules.len() ==> 0 <= next_base(rules, ri, bi).1
            < rules[next_base(rules, ri, bi).0].base_dirs.len(),
    decreases rules.len() - ri,
{
    if ri < rules.len() && !(0 <= bi < rules[ri].base_dirs.len()) {
        lemma_next_base_valid(rules, ri + 1, 0);
    }
}

/// The state that waits at the base directory `next_base(rules, ri, bi)`.
pub open spec fn at_base(s: ScanStateView, ri: int, bi: int) -> ScanStateView {
    let p = next_base(s.rules, ri, bi);
    ScanStateView {
        rule_index: p.0,
        base_index: p.1,
        phase: if p.0 < s.rules.len() { ScanPhase::CheckBase } else { ScanPhase::Done },
        ..s
    }
}

/// A fresh scan of `rules`.
pub open spec fn scan_start(rules: Seq<RuleView>) -> ScanStateView {
    at_base(
        ScanStateView {
            rules,
            rule_index: 0,
            base_index: 0,
            phase: ScanPhase::CheckBase,
            items: Seq::empty(),
        },
        0,
        0,
    )
}

/// The item that `rule` records for `path`.
pub open spec fn found_item(rule: RuleView, path: Seq<char>, size: Option<u64>) -> ScanItemView {
    ScanItemView {
        path,
        rule_name: rule.name,
        category: rule.category,
        safety: rule.safety,
        size,
    }
}

/// The base directory a scan is at.
pub open spec fn current_base(s: ScanStateView) -> Seq<char> {
    s.rules[s.rule_index].base_dirs[s.base_index]
}

/// What a scan asks for in state `s`.
pub open spec fn pending_action(s: ScanStateView) -> ScanActionView {
    match s.phase {
        ScanPhase::CheckBase => ScanActionView::CheckBase { path: current_base(s) },
        ScanPhase::OpenWalk => ScanActionView::OpenWalk {
            base: current_base(s),
            max_depth: s.rules[s.rule_index].max_depth,
        },
        ScanPhase::NextEntry => ScanActionView::NextEntry,
        ScanPhase::Measure => ScanActionView::MeasureSize { path: s.items.last().path },
        ScanPhase::SkipDir => ScanActionView::SkipIfDirectory { path: s.items.last().path },
        ScanPhase::Done => ScanActionView::Done,
    }
}

/// The state after `e` is reported in state `s`. A missing base directory
/// and the end of a walk move on to the next base directory; an entry that
/// the current rule finds is recorded and then measured; an entry that
/// cannot be read is passed over and the walk goes on; a report that does not
/// answer what the scan waits for changes nothing.
pub open spec fn after_event(s: ScanStateView, e: ScanEventView) -> ScanStateView {
    match (s.phase, e) {
        (ScanPhase::CheckBase, ScanEventView::BaseChecked { exists }) => if exists {
            ScanStateView { phase: ScanPhase::OpenWalk, ..s }
        } else {
            at_base(s, s.rule_index, s.base_index + 1)
        },
        (ScanPhase::OpenWalk, ScanEventView::Entry { path })
        | (ScanPhase::NextEntry, ScanEventView::Entry { path }) => if rule_matches(
            s.rules[s.rule_index],
            path,
        ) {
            ScanStateView {
                phase: ScanPhase::Measure,
                items: s.items.push(found_item(s.rules[s.rule_index], path, None)),
                ..s
            }
        } else {
            ScanStateView { phase: ScanPhase::NextEntry, ..s }
        },
        (ScanPhase::OpenWalk, ScanEventView::EntryUnreadable)
        | (ScanPhase::NextEntry, ScanEventView::EntryUnreadable) => ScanStateView {
            phase: ScanPhase::NextEntry,
            ..s
        },
        (ScanPhase::OpenWalk, ScanEventView::WalkEnded)
        | (ScanPhase::NextEntry, ScanEventView::WalkEnded) => at_base(
            s,
            s.rule_index,
            s.base_index + 1,
        ),
        (ScanPhase::Measure, ScanEventView::Measured { size }) => ScanStateView {
            phase: ScanPhase::SkipDir,
            items: s.items.update(
                s.items.len() - 1,
                ScanItemView { size, ..s.items.last() },
            ),
            ..s
        },
        (ScanPhase::SkipDir, ScanEventView::Continued) => ScanStateView {
            phase: ScanPhase::NextEntry,
            ..s
        },
        _ => s,
    }
}

/// Whether `item` is what `rule` records: the rule's name, category and
/// safety level, at a path that the rule finds.
pub open spec fn found_by(rule: RuleView, item: ScanItemView) -> bool {
    &&& item.rule_name == rule.name
    &&& item.category == rule.category
    &&& item.safety == rule.safety
    &&& rule_matches(rule, item.path)
}

/// Whether one of `rules` records `item`.
pub open spec fn found_by_one_of(rules: Seq<RuleView>, item: ScanItemView) -> bool {
    exists|j: int| 0 <= j < rules.len() && #[trigger] found_by(rules[j], item)
}

/// What holds of every state a scan reaches: it is at an existing base
/// directory of an existing rule until it is done, an entry being measured
/// has been recorded, and every recorded item was found by one of the rules.
pub open spec fn scan_well_formed(s: ScanStateView) -> bool {
    &&& 0 <= s.rule_index <= s.rules.len()
    &&& (s.phase == ScanPhase::Done) == (s.rule_index == s.rules.len())
    &&& s.phase != ScanPhase::Done ==> 0 <= s.base_index < s.rules[s.rule_index].base_dirs.len()
    &&& (s.phase == ScanPhase::Measure || s.phase == ScanPhase::SkipDir) ==> s.items.len() > 0
    &&& forall|k: int| 0 <= k < s.items.len() ==> #[trigger] found_by_one_of(s.rules, s.items[k])
}

#[derive(Debug, Clone, Copy)]
struct ScanPosition {
    rule_index: usize,
    base_index: usize,
    phase: ScanPhase,
}

/// A scan in progress over borrowed rules. It decides; whoever drives it
/// looks at the file system, as its actions ask.
pub struct ScanSession<'a> {
    rules: &'a [Rule],
    pos: ScanPosition,
    items: Vec<ScanItem>,
}

impl<'a> View for ScanSession<'a> {
    type V = ScanStateView;

    closed spec fn view(&self) -> ScanStateView {
        ScanStateView {
            rules: rule_views(self.rules@),
            rule_index: self.pos.rule_index as int,
            base_index: self.pos.base_index as int,
            phase: self.pos.phase,
            items: self.items@.map_values(|it: ScanItem| it@),
        }
    }
}

/// The place `next_base(rules, ri, bi)`, found by a walk over the rules.
fn find_base(rules: &[Rule], ri: usize, bi: usize) -> (r: (usize, usize))
    requires
        ri <= rules.len(),
    ensures
        (r.0 as int, r.1 as int) == next_base(rule_views(rules@), ri as int, bi as int),
{
    let ghost views = rule_views(rules@);
    let mut i = ri;
    let mut b = bi;
    while i < rules.len() && b >= rules[i].base_dirs.len()
        invariant
            i <= rules.len(),
            views == rule_views(rules@),
            next_base(views, i as int, b as int) == next_base(views, ri as int, bi as int),
        decreases rules.len() - i,
    {
        assert(views[i as int] == rules@[i as int]@);
        i += 1;
        b = 0;
    }
    if i < rules.len() {
        assert(views[i as int] == rules@[i as int]@);
        (i, b)
    } else {
        (i, 0)
    }
}

impl<'a> ScanSession<'a> {
    #[verifier::type_invariant]
    spec fn inv(&self) -> bool {
        scan_well_formed(self@)
    }

    fn position_at(rules: &[Rule], ri: usize, bi: usize) -> (p: ScanPosition)
        requires
            ri <= rules.len(),
        ensures
            ({
                let views = rule_views(rules@);
                let q = next_base(views, ri as int, bi as int);
                &&& p.rule_index == q.0
                &&& p.rule_index <= rules.len()
                &&& p.rule_index < rules.len() ==> p.base_index
                    < views[p.rule_index as int].base_dirs.len()
                &&& p.base_index == q.1
                &&& p.phase == if q.0 < rules.len() {
                    ScanPhase::CheckBase
                } else {
                    ScanPhase::Done
                }
            }),
    {
        let (i, b) = find_base(rules, ri, bi);
        proof {
            lemma_next_base_valid(rule_views(rules@), ri as int, bi as int);
        }
        ScanPosition {
            rule_index: i,
            base_index: b,
            phase: if i < rules.len() {
                ScanPhase::CheckBase
            } else {
                ScanPhase::Done
            },
        }
    }

    /// What the scan asks for now.
    pub fn action(&self) -> (r: ScanAction)
        ensures
            r@ == pending_action(self@),
    {
        proof {
            use_type_invariant(self);
        }
        let ri = self.pos.rule_index;
        let bi = self.pos.base_index;
        match self.pos.phase {
            ScanPhase::CheckBase => {
                assert(self.rules@[ri as int]@ == self@.rules[ri as int]);
                ScanAction::CheckBase { path: self.rules[ri].base_dirs[bi].clone() }
            },
            ScanPhase::OpenWalk => {
                assert(self.rules@[ri as int]@ == self@.rules[ri as int]);
                ScanAction::OpenWalk {
                    base: self.rules[ri].base_dirs[bi].clone(),
                    max_depth: self.rules[ri].max_depth,
                }
            },
            ScanPhase::NextEntry => ScanAction::NextEntry,
            ScanPhase::Measure => {
                let last = self.items.len() - 1;
                assert(self.items@[last as int]@ == self@.items.last());
                ScanAction::MeasureSize { path: self.items[last].path.clone() }
            },
            ScanPhase::SkipDir => {
                let last = self.items.len() - 1;
                assert(self.items@[last as int]@ == self@.items.last());
                ScanAction::SkipIfDirectory { path: self.items[last].path.clone() }
            },
            ScanPhase::Done => ScanAction::Done,
        }
    }

    /// Takes in what the driver reports.
    pub fn answer(&mut self, event: ScanEvent)
        ensures
            final(self)@ == after_event(old(self)@, event@),
    {
        proof {
            use_type_invariant(&*self);
        }
        let ghost s = self@;
        let ri = self.pos.rule_index;
        let bi = self.pos.base_index;
        if self.pos.phase != ScanPhase::Done {
            assert(self.rules@[ri as int]@ == s.rules[ri as int]);
            assert(bi < self.rules@[ri as int].base_dirs.len());
        }
        match (self.pos.phase, event) {
            (ScanPhase::CheckBase, ScanEvent::BaseChecked { exists }) => {
                if exists {
                    self.pos = ScanPosition { phase: ScanPhase::OpenWalk, ..self.pos };
                } else {
                    self.pos = Self::position_at(self.rules, ri, bi + 1);
                }
            },
            (ScanPhase::OpenWalk, ScanEvent::Entry { path })
            | (ScanPhase::NextEntry, ScanEvent::Entry { path }) => {
                let rule = &self.rules[ri];
                assert(rule@ == s.rules[ri as int]);
                if Scanner.matches_rule(path.as_str(), rule) {
                    let item = ScanItem {
                        path,
                        rule_name: rule.name.clone(),
                        category: rule.category,
                        safety: rule.safety,
                        size: None,
                    };
                    assert(found_by(s.rules[ri as int], item@));
                    let mut items = Vec::new();
                    std::mem::swap(&mut items, &mut self.items);
                    let ghost new_item = item@;
                    items.push(item);
                    assert forall|k: int| 0 <= k < items@.len() implies #[trigger] found_by_one_of(
                        s.rules,
                        items@[k]@,
                    ) by {
                        if k < s.items.len() {
                            assert(items@[k]@ == s.items[k]);
                        } else {
                            assert(items@[k]@ == new_item);
                            assert(found_by(s.rules[ri as int], new_item));
                        }
                    }
                    self.items = items;
                    self.pos = ScanPosition { phase: ScanPhase::Measure, ..self.pos };
                    assert(self@.items =~= s.items.push(item@));
                } else {
                    self.pos = ScanPosition { phase: ScanPhase::NextEntry, ..self.pos };
                }
            },
            (ScanPhase::OpenWalk, ScanEvent::EntryUnreadable)
            | (ScanPhase::NextEntry, ScanEvent::EntryUnreadable) => {
                self.pos = ScanPosition { phase: ScanPhase::NextEntry, ..self.pos };
            },
            (ScanPhase::OpenWalk, ScanEvent::WalkEnded)
            | (ScanPhase::NextEntry, ScanEvent::WalkEnded) => {
                self.pos = Self::position_at(self.rules, ri, bi + 1);
            },
            (ScanPhase::Measure, ScanEvent::Measured { size }) => {
                let last = self.items.len() - 1;
                let old_item = &self.items[last];
                let item = ScanItem {
                    path: old_item.path.clone(),
                    rule_name: old_item.rule_name.clone(),
                    category: old_item.category,
                    safety: old_item.safety,
                    size,
                };
                assert(item@ == ScanItemView { size, ..s.items.last() });
                self.pos = ScanPosition { phase: ScanPhase::NextEntry, ..self.pos };
                let mut items = Vec::new();
                std::mem::swap(&mut items, &mut self.items);
                let ghost new_item = item@;
                items.set(last, item);
                assert forall|k: int| 0 <= k < items@.len() implies #[trigger] found_by_one_of(
                    s.rules,
                    items@[k]@,
                ) by {
                    assert(found_by_one_of(s.rules, s.items[k]));
                    if k == last {
                        let j = choose|j: int|
                            0 <= j < s.rules.len() && #[trigger] found_by(s.rules[j], s.items[k]);
                        assert(found_by(s.rules[j], new_item));
                    } else {
                        assert(items@[k]@ == s.items[k]);
                    }
                }
                self.items = items;
                self.pos = ScanPosition { phase: ScanPhase::SkipDir, ..self.pos };
                assert(self@.items =~= s.items.update(s.items.len() - 1, item@));
            },
            (ScanPhase::SkipDir, ScanEvent::Continued) => {
                self.pos = ScanPosition { phase: ScanPhase::NextEntry, ..self.pos };
            },
            _ => {},
        }
        assert(self@.rules =~= s.rules);
    }

    /// Whether the scan is over.
    pub fn is_done(&self) -> (r: bool)
        ensures
            r == (self@.phase == ScanPhase::Done),
    {
        self.pos.phase == ScanPhase::Done
    }

    /// The items found so far; each was found by one of the scan's rules.
    pub fn into_items(self) -> (r: Vec<ScanItem>)
        ensures
            r@.map_values(|it: ScanItem| it@) == self@.items,
            forall|k: int| 0 <= k < r.len() ==> #[trigger] found_by_one_of(self@.rules, r@[k]@),
    {
        proof {
            use_type_invariant(&self);
        }
        let ghost s = self@;
        let r = self.items;
        assert forall|k: int| 0 <= k < r.len() implies #[trigger] found_by_one_of(
            s.rules,
            r@[k]@,
        ) by {
            assert(s.items[k] == r@[k]@);
        }
        r
    }
}

impl Scanner {
    /// Starts a scan of `rules`: of each base directory of each rule in
    /// turn, the items that the rule finds there.
    pub fn scan<'a>(&self, rules: &'a [Rule]) -> (r: ScanSession<'a>)
        ensures
            r@ == scan_start(rule_views(rules@)),
    {
        let pos = ScanSession::position_at(rules, 0, 0);
        let items: Vec<ScanItem> = Vec::new();
        let ghost v = ScanStateView {
            rules: rule_views(rules@),
            rule_index: pos.rule_index as int,
            base_index: pos.base_index as int,
            phase: pos.phase,
            items: items@.map_values(|it: ScanItem| it@),
        };
        assert(0 <= v.rule_index <= v.rules.len());
        assert((v.phase == ScanPhase::Done) == (v.rule_index == v.rules.len()));
        assert(v.phase != ScanPhase::Done ==> 0 <= v.base_index
            < v.rules[v.rule_index].base_dirs.len());
        assert(scan_well_formed(v));
        let s = ScanSession { rules, pos, items };
        assert(s@.items =~= Seq::<ScanItemView>::empty());
        s
    }
}

/// The state of a scan of `s.rules` followed by `later`, while a scan of
/// `s.rules` alone is in state `s`: the same, until the first rules are done;
/// then at the first base directory of the later rules.
pub open spec fn scan_joined(s: ScanStateView, later: Seq<RuleView>) -> ScanStateView {
    let joined = ScanStateView { rules: s.rules + later, ..s };
    if s.phase == ScanPhase::Done {
        at_base(joined, s.rules.len() as int, 0)
    } else {
        joined
    }
}

/// The state of a scan of `earlier` followed by `t.rules`, once `earlier`
/// was done having found `found`, while a scan of `t.rules` alone is in
/// state `t`.
pub open spec fn scan_after(
    earlier: Seq<RuleView>,
    found: Seq<ScanItemView>,
    t: ScanStateView,
) -> ScanStateView {
    ScanStateView {
        rules: earlier + t.rules,
        rule_index: t.rule_index + earlier.len(),
        base_index: t.base_index,
        phase: t.phase,
        items: found + t.items,
    }
}

proof fn lemma_next_base_joined_left(r1: Seq<RuleView>, r2: Seq<RuleView>, ri: int, bi: int)
    requires
        0 <= ri <= r1.len(),
        ri < r1.len() || bi == 0,
    ensures
        next_base(r1 + r2, ri, bi) == if next_base(r1, ri, bi).0 < r1.len() {
            next_base(r1, ri, bi)
        } else {
            next_base(r1 + r2, r1.len() as int, 0)
        },
    decreases r1.len() - ri,
{
    if ri < r1.len() {
        assert((r1 + r2)[ri] == r1[ri]);
        if !(0 <= bi < r1[ri].base_dirs.len()) {
            lemma_next_base_joined_left(r1, r2, ri + 1, 0);
        }
    }
}

proof fn lemma_next_base_joined_right(r1: Seq<RuleView>, r2: Seq<RuleView>, ri: int, bi: int)
    requires
        0 <= ri,
    ensures
        next_base(r1 + r2, ri + r1.len(), bi) == (
            next_base(r2, ri, bi).0 + r1.len(),
            next_base(r2, ri, bi).1,
        ),
    decreases r2.len() - ri,
{
    if ri < r2.len() {
        assert((r1 + r2)[ri + r1.len()] == r2[ri]);
        if !(0 <= bi < r2[ri].base_dirs.len()) {
            lemma_next_base_joined_right(r1, r2, ri + 1, 0);
        }
    }
}

/// A scan of two lists of rules, one after the other, starts as a scan of
/// the first list does.
pub proof fn law_joined_scan_starts(first: Seq<RuleView>, later: Seq<RuleView>)
    ensures
        scan_joined(scan_start(first), later) == scan_start(first + later),
{
    lemma_next_base_joined_left(first, later, 0, 0);
    assert(scan_joined(scan_start(first), later) =~= scan_start(first + later));
}

/// While the first list of rules is not done, a scan of two lists of rules
/// asks what a scan of the first list alone asks, and each report takes it
/// where the same report takes the scan of the first list.
pub proof fn law_joined_scan_steps(s: ScanStateView, later: Seq<RuleView>, e: ScanEventView)
    requires
        scan_well_formed(s),
        s.phase != ScanPhase::Done,
    ensures
        pending_action(scan_joined(s, later)) == pending_action(s),
        after_event(scan_joined(s, later), e) == scan_joined(after_event(s, e), later),
{
    let r1 = s.rules;
    let j = scan_joined(s, later);
    assert((r1 + later)[s.rule_index] == r1[s.rule_index]);
    lemma_next_base_joined_left(r1, later, s.rule_index, s.base_index + 1);
    lemma_next_base_valid(r1, s.rule_index, s.base_index + 1);
    assert(after_event(j, e) =~= scan_joined(after_event(s, e), later));
}

/// Once the first list of rules is done, a scan of two lists of rules is
/// where a fresh scan of the later list is, with what the first list found
/// recorded before.
pub proof fn law_joined_scan_hands_over(s: ScanStateView, later: Seq<RuleView>)
    requires
        s.phase == ScanPhase::Done,
    ensures
        scan_joined(s, later) == scan_after(s.rules, s.items, scan_start(later)),
{
    lemma_next_base_joined_right(s.rules, later, 0, 0);
    assert(scan_joined(s, later) =~= scan_after(s.rules, s.items, scan_start(later)));
}

/// A scan of `earlier` followed by the rules of `t`, once `earlier` is
/// done, asks what a scan of the later rules alone asks in state `t`, and
/// each report takes it where the same report takes that scan, the items
/// found by `earlier` staying first.
pub proof fn law_scan_after_steps(
    earlier: Seq<RuleView>,
    found: Seq<ScanItemView>,
    t: ScanStateView,
    e: ScanEventView,
)
    requires
        scan_well_formed(t),
    ensures
        t.phase != ScanPhase::Done ==> pending_action(scan_after(earlier, found, t))
            == pending_action(t),
        after_event(scan_after(earlier, found, t), e) == scan_after(
            earlier,
            found,
            after_event(t, e),
        ),
{
    let a = scan_after(earlier, found, t);
    if t.phase != ScanPhase::Done {
        assert((earlier + t.rules)[t.rule_index + earlier.len()] == t.rules[t.rule_index]);
    }
    if t.items.len() > 0 {
        assert((found + t.items).last() == t.items.last());
    }
    lemma_next_base_joined_right(earlier, t.rules, t.rule_index, t.base_index + 1);
    assert(after_event(a, e) =~= scan_after(earlier, found, after_event(t, e)));
}

/// The state that a scan in state `s` reaches once `events` are reported,
/// one after the other.
pub open spec fn run_scan(s: ScanStateView, events: Seq<ScanEventView>) -> ScanStateView
    decreases events.len(),
{
    if events.len() == 0 {
        s
    } else {
        after_event(run_scan(s, events.drop_last()), events.last())
    }
}

proof fn lemma_start_well_formed(rules: Seq<RuleView>)
    ensures
        scan_well_formed(scan_start(rules)),
{
    lemma_next_base_valid(rules, 0, 0);
}

proof fn lemma_after_event_well_formed(s: ScanStateView, e: ScanEventView)
    requires
        scan_well_formed(s),
    ensures
        scan_well_formed(after_event(s, e)),
{
    let t = after_event(s, e);
    if s.phase != ScanPhase::Done {
        lemma_next_base_valid(s.rules, s.rule_index, s.base_index + 1);
    }
    match (s.phase, e) {
        (ScanPhase::OpenWalk, ScanEventView::Entry { path })
        | (ScanPhase::NextEntry, ScanEventView::Entry { path }) => {
            if rule_matches(s.rules[s.rule_index], path) {
                let item = found_item(s.rules[s.rule_index], path, None);
                assert(found_by(s.rules[s.rule_index], item));
                assert forall|k: int| 0 <= k < t.items.len() implies #[trigger] found_by_one_of(
                    t.rules,
                    t.items[k],
                ) by {
                    if k < s.items.len() {
                        assert(t.items[k] == s.items[k]);
                    } else {
                        assert(t.items[k] == item);
                    }
                }
            }
        },
        (ScanPhase::Measure, ScanEventView::Measured { size }) => {
            let last = s.items.len() - 1;
            assert forall|k: int| 0 <= k < t.items.len() implies #[trigger] found_by_one_of(
                t.rules,
                t.items[k],
            ) by {
                assert(found_by_one_of(s.rules, s.items[k]));
                if k == last {
                    let j = choose|j: int|
                        0 <= j < s.rules.len() && #[trigger] found_by(s.rules[j], s.items[k]);
                    assert(found_by(s.rules[j], t.items[k]));
                } else {
                    assert(t.items[k] == s.items[k]);
                }
            }
        },
        _ => {},
    }
}

proof fn lemma_run_well_formed(s: ScanStateView, events: Seq<ScanEventView>)
    requires
        scan_well_formed(s),
    ensures
        scan_well_formed(run_scan(s, events)),
        run_scan(s, events).rules == s.rules,
    decreases events.len(),
{
    if events.len() > 0 {
        lemma_run_well_formed(s, events.drop_last());
        lemma_after_event_well_formed(run_scan(s, events.drop_last()), events.last());
    }
}

proof fn lemma_run_split(s: ScanStateView, first: Seq<ScanEventView>, rest: Seq<ScanEventView>)
    ensures
        run_scan(s, first + rest) == run_scan(run_scan(s, first), rest),
    decreases rest.len(),
{
    if rest.len() == 0 {
        assert(first + rest =~= first);
    } else {
        lemma_run_split(s, first, rest.drop_last());
        assert((first + rest).drop_last() =~= first + rest.drop_last());
        assert((first + rest).last() == rest.last());
    }
}

proof fn lemma_run_joined(first: Seq<RuleView>, later: Seq<RuleView>, events: Seq<ScanEventView>)
    requires
        forall|n: int|
            0 <= n < events.len() ==> (#[trigger] run_scan(
                scan_start(first),
                events.take(n),
            )).phase != ScanPhase::Done,
    ensures
        run_scan(scan_start(first + later), events) == scan_joined(
            run_scan(scan_start(first), events),
            later,
        ),
    decreases events.len(),
{
    if events.len() == 0 {
        law_joined_scan_starts(first, later);
    } else {
        let before = events.drop_last();
        assert forall|n: int| 0 <= n < before.len() implies (#[trigger] run_scan(
            scan_start(first),
            before.take(n),
        )).phase != ScanPhase::Done by {
            assert(before.take(n) =~= events.take(n));
        }
        lemma_run_joined(first, later, before);
        assert(events.take(before.len() as int) =~= before);
        let s = run_scan(scan_start(first), before);
        lemma_start_well_formed(first);
        lemma_run_well_formed(scan_start(first), before);
        law_joined_scan_steps(s, later, events.last());
    }
}

proof fn lemma_run_after(
    earlier: Seq<RuleView>,
    found: Seq<ScanItemView>,
    t: ScanStateView,
    events: Seq<ScanEventView>,
)
    requires
        scan_well_formed(t),
    ensures
        run_scan(scan_after(earlier, found, t), events) == scan_after(
            earlier,
            found,
            run_scan(t, events),
        ),
    decreases events.len(),
{
    if events.len() > 0 {
        lemma_run_after(earlier, found, t, events.drop_last());
        lemma_run_well_formed(t, events.drop_last());
        law_scan_after_steps(earlier, found, run_scan(t, events.drop_last()), events.last());
    }
}

/// Scanning two lists of rules, one after the other, gives what the first
/// list gives followed by what the second gives: where `first_events` take a
/// scan of `first` to its end (and no shorter part of them does), and
/// `later_events` then answer a scan of `later`, the same reports take a
/// scan of `first + later` to the state of that scan of `later`, with the
/// items found by `first` before its own.
pub proof fn law_scan_of_joined_rules(
    first: Seq<RuleView>,
    later: Seq<RuleView>,
    first_events: Seq<ScanEventView>,
    later_events: Seq<ScanEventView>,
)
    requires
        run_scan(scan_start(first), first_events).phase == ScanPhase::Done,
        forall|n: int|
            0 <= n < first_events.len() ==> (#[trigger] run_scan(
                scan_start(first),
                first_events.take(n),
            )).phase != ScanPhase::Done,
    ensures
        run_scan(scan_start(first + later), first_events + later_events) == scan_after(
            first,
            run_scan(scan_start(first), first_events).items,
            run_scan(scan_start(later), later_events),
        ),
        run_scan(scan_start(first + later), first_events + later_events).items == run_scan(
            scan_start(first),
            first_events,
        ).items + run_scan(scan_start(later), later_events).items,
{
    let s = run_scan(scan_start(first), first_events);
    lemma_start_well_formed(first);
    lemma_run_well_formed(scan_start(first), first_events);
    lemma_run_joined(first, later, first_events);
    lemma_run_split(scan_start(first + later), first_events, later_events);
    law_joined_scan_hands_over(s, later);
    lemma_start_well_formed(later);
    lemma_run_after(first, s.items, scan_start(later), later_events);
}

proof fn lemma_next_base_skips_empty_rules(rules: Seq<RuleView>, ri: int)
    requires
        0 <= ri <= rules.len(),
    ensures
        ri <= next_base(rules, ri, 0).0 <= rules.len(),
        forall|j: int|
            ri <= j < next_base(rules, ri, 0).0 && j < rules.len() ==> (
            #[trigger] rules[j]).base_dirs.len() == 0,
        next_base(rules, ri, 0).0 < rules.len() ==> next_base(rules, ri, 0).1 == 0,
    decreases rules.len() - ri,
{
    if ri < rules.len() && rules[ri].base_dirs.len() == 0 {
        lemma_next_base_skips_empty_rules(rules, ri + 1);
    }
}

/// Every base directory of every rule is looked at, in order: when a base
/// directory is found missing, or its walk ends, the scan goes on to check
/// the next base directory of the same rule; after the last one of a rule,
/// to the first base directory of the next rule that has any (rules without
/// base directories passed over), or it is done when no rule is left. What
/// was found stays.
pub proof fn law_scan_visits_every_base(s: ScanStateView, e: ScanEventView)
    requires
        scan_well_formed(s),
        ((s.phase == ScanPhase::OpenWalk || s.phase == ScanPhase::NextEntry) && e
            == ScanEventView::WalkEnded) || (s.phase == ScanPhase::CheckBase && e
            == ScanEventView::BaseChecked { exists: false }),
    ensures
        after_event(s, e).rules == s.rules,
        after_event(s, e).items == s.items,
        s.base_index + 1 < s.rules[s.rule_index].base_dirs.len() ==> {
            &&& after_event(s, e).rule_index == s.rule_index
            &&& after_event(s, e).base_index == s.base_index + 1
            &&& after_event(s, e).phase == ScanPhase::CheckBase
        },
        s.base_index + 1 >= s.rules[s.rule_index].base_dirs.len() ==> {
            &&& s.rule_index < after_event(s, e).rule_index <= s.rules.len()
            &&& forall|j: int|
                s.rule_index < j < after_event(s, e).rule_index ==> (
                #[trigger] s.rules[j]).base_dirs.len() == 0
            &&& after_event(s, e).rule_index < s.rules.len() ==> {
                &&& after_event(s, e).base_index == 0
                &&& after_event(s, e).phase == ScanPhase::CheckBase
                &&& s.rules[after_event(s, e).rule_index].base_dirs.len() > 0
            }
            &&& after_event(s, e).rule_index == s.rules.len() ==> after_event(s, e).phase
                == ScanPhase::Done
        },
{
    lemma_next_base_valid(s.rules, s.rule_index, s.base_index + 1);
    lemma_next_base_skips_empty_rules(s.rules, s.rule_index + 1);
    lemma_next_base_valid(s.rules, s.rule_index + 1, 0);
}

/// A base directory found to exist is walked: the scan stays at it and asks
/// to open a walk there, down to the rule's depth. An entry that cannot be
/// read leaves the scan at the same base directory, asking for the next
/// entry. Neither changes what was found.
pub proof fn law_scan_walks_existing_base(s: ScanStateView)
    requires
        scan_well_formed(s),
        s.phase != ScanPhase::Done,
    ensures
        s.phase == ScanPhase::CheckBase ==> {
            let t = after_event(s, ScanEventView::BaseChecked { exists: true });
            &&& t.rules == s.rules
            &&& t.items == s.items
            &&& t.rule_index == s.rule_index
            &&& t.base_index == s.base_index
            &&& pending_action(t) == (ScanActionView::OpenWalk {
                base: s.rules[s.rule_index].base_dirs[s.base_index],
                max_depth: s.rules[s.rule_index].max_depth,
            })
        },
        (s.phase == ScanPhase::OpenWalk || s.phase == ScanPhase::NextEntry) ==> {
            let t = after_event(s, ScanEventView::EntryUnreadable);
            &&& t.rules == s.rules
            &&& t.items == s.items
            &&& t.rule_index == s.rule_index
            &&& t.base_index == s.base_index
            &&& pending_action(t) == ScanActionView::NextEntry
        },
{
}

/// Each entry of a walk that the current rule finds is recorded, after what
/// was found before, with the entry's path and the rule's name, category and
/// safety level, and the scan then asks for its size; an entry that the rule
/// does not find changes nothing found, and the scan asks for the next one.
/// The scan stays at the same base directory either way.
pub proof fn law_scan_records_each_match(s: ScanStateView, path: Seq<char>)
    requires
        scan_well_formed(s),
        s.phase == ScanPhase::OpenWalk || s.phase == ScanPhase::NextEntry,
    ensures
        ({
            let t = after_event(s, ScanEventView::Entry { path });
            let rule = s.rules[s.rule_index];
            &&& t.rules == s.rules
            &&& t.rule_index == s.rule_index
            &&& t.base_index == s.base_index
            &&& rule_matches(rule, path) ==> {
                &&& t.items.len() == s.items.len() + 1
                &&& t.items.take(s.items.len() as int) == s.items
                &&& t.items.last() == (ScanItemView {
                    path,
                    rule_name: rule.name,
                    category: rule.category,
                    safety: rule.safety,
                    size: None,
                })
                &&& pending_action(t) == (ScanActionView::MeasureSize { path })
            }
            &&& !rule_matches(rule, path) ==> {
                &&& t.items == s.items
                &&& pending_action(t) == ScanActionView::NextEntry
            }
        }),
{
    let t = after_event(s, ScanEventView::Entry { path });
    if rule_matches(s.rules[s.rule_index], path) {
        assert(t.items.take(s.items.len() as int) =~= s.items);
    }
}

/// The size reported for an entry just recorded becomes that item's size and
/// nothing else changes; the scan then asks to keep the walk out of that
/// entry, and once that is done, for the next entry of the same walk.
pub proof fn law_scan_measures_then_skips(s: ScanStateView, size: Option<u64>)
    requires
        scan_well_formed(s),
        s.phase == ScanPhase::Measure,
    ensures
        ({
            let t = after_event(s, ScanEventView::Measured { size });
            let u = after_event(t, ScanEventView::Continued);
            let n = s.items.len() as int;
            &&& t.rules == s.rules
            &&& t.rule_index == s.rule_index
            &&& t.base_index == s.base_index
            &&& t.items.len() == n
            &&& t.items.take(n - 1) == s.items.take(n - 1)
            &&& t.items.last() == (ScanItemView { size, ..s.items.last() })
            &&& pending_action(t) == (ScanActionView::SkipIfDirectory { path: s.items.last().path })
            &&& u.rules == s.rules
            &&& u.rule_index == s.rule_index
            &&& u.base_index == s.base_index
            &&& u.items == t.items
            &&& pending_action(u) == ScanActionView::NextEntry
        }),
{
    let t = after_event(s, ScanEventView::Measured { size });
    let n = s.items.len() as int;
    assert(t.items.take(n - 1) =~= s.items.take(n - 1));
}

/// A fresh scan has found nothing and starts by checking the first base
/// directory of the first rule that has any; with no such rule it is done.
pub proof fn law_scan_starts_at_first_base(rules: Seq<RuleView>)
    ensures
        ({
            let t = scan_start(rules);
            &&& t.rules == rules
            &&& t.items.len() == 0
            &&& 0 <= t.rule_index <= rules.len()
            &&& forall|j: int| 0 <= j < t.rule_index ==> (#[trigger] rules[j]).base_dirs.len() == 0
            &&& t.rule_index < rules.len() ==> {
                &&& t.base_index == 0
                &&& rules[t.rule_index].base_dirs.len() > 0
                &&& pending_action(t) == (ScanActionView::CheckBase {
                    path: rules[t.rule_index].base_dirs[0],
                })
            }
            &&& t.rule_index == rules.len() ==> pending_action(t) == ScanActionView::Done
        }),
{
    lemma_next_base_skips_empty_rules(rules, 0);
    lemma_next_base_valid(rules, 0, 0);
}

} // verus!
