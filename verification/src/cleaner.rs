use vstd::prelude::*;

use crate::scanner::ScanItem;

verus! {

/// How a clean treats what it is given.
#[derive(Debug, Clone, Copy, PartialEq, Eq, Structural)]
pub enum CleanMode {
    /// Only show what would happen; remove nothing.
    DryRun,
    /// Move each item to the trash.
    MoveToTrash,
}

/// What became of one item of a clean.
#[derive(Debug)]
pub struct CleanResult {
    pub path: String,
    pub success: bool,
    pub message: String,
}

/// The value of a clean result, its text fields taken as character
/// sequences.
pub struct CleanResultView {
    pub path: Seq<char>,
    pub success: bool,
    pub message: Seq<char>,
}

impl View for CleanResult {
    type V = CleanResultView;

    open spec fn view(&self) -> CleanResultView {
        CleanResultView { path: self.path@, success: self.success, message: self.message@ }
    }
}

/// The result of a dry run for `path`.
pub open spec fn dry_run_result(path: Seq<char>) -> CleanResultView {
    CleanResultView { path, success: true, message: "[DRY-RUN] would be moved to trash"@ }
}

/// The result for `path` once moving it to the trash succeeded
/// (`Ok`) or failed with the error text `e` (`Err(e)`).
pub open spec fn trash_result_view(
    path: Seq<char>,
    outcome: Result<(), Seq<char>>,
) -> CleanResultView {
    match outcome {
        Ok(_) => CleanResultView { path, success: true, message: "Moved to trash"@ },
        Err(e) => CleanResultView { path, success: false, message: "Failed: "@ + e },
    }
}

/// The error text of an outcome, taken as a character sequence.
pub open spec fn outcome_view(outcome: Result<(), String>) -> Result<(), Seq<char>> {
    match outcome {
        Ok(u) => Ok(u),
        Err(e) => Err(e@),
    }
}

/// Moves scan results to the trash, or only shows what that would do.
pub struct Cleaner;

impl Default for Cleaner {
    fn default() -> Cleaner {
        Cleaner
    }
}

impl Cleaner {
    pub fn new() -> Cleaner {
        Cleaner
    }

    /// The paths that a clean of `items` in `mode` moves to the trash, in
    /// order: none in a dry run, all of them otherwise.
    pub fn trash_targets(&self, items: &[ScanItem], mode: CleanMode) -> (r: Vec<String>)
        ensures
            mode == CleanMode::DryRun ==> r.len() == 0,
            mode == CleanMode::MoveToTrash ==> r.len() == items.len() && forall|i: int|
                0 <= i < items.len() ==> #[trigger] r@[i]@ == items@[i].path@,
    {
        let mut r: Vec<String> = Vec::new();
        if mode == CleanMode::MoveToTrash {
            let mut i: usize = 0;
            while i < items.len()
                invariant
                    i <= items.len(),
                    r.len() == i,
                    forall|j: int| 0 <= j < i ==> #[trigger] r@[j]@ == items@[j].path@,
                decreases items.len() - i,
            {
                r.push(items[i].path.clone());
                i += 1;
            }
        }
        r
    }

    /// The result for `path` given what moving it to the trash gave:
    /// `Ok(())`, or the error's text.
    pub fn trash_result(&self, path: &str, outcome: &Result<(), String>) -> (r: CleanResult)
        ensures
            r@ == trash_result_view(path@, outcome_view(*outcome)),
    {
        match outcome {
            Ok(_) => CleanResult {
                path: String::from_str(path),
                success: true,
                message: String::from_str("Moved to trash"),
            },
            Err(e) => {
                let mut message = String::from_str("Failed: ");
                message.append(e.as_str());
                CleanResult { path: String::from_str(path), success: false, message }
            },
        }
    }

    /// The results of cleaning `items` in `mode`. In a dry run every item
    /// succeeds with a note; otherwise `outcomes[i]` is what moving the
    /// `i`-th path of `trash_targets` to the trash gave.
    pub fn clean(&self, items: &[ScanItem], mode: CleanMode, outcomes: &[Result<(), String>]) -> (r:
        Vec<CleanResult>)
        requires
            mode == CleanMode::MoveToTrash ==> outcomes.len() == items.len(),
        ensures
            r.len() == items.len(),
            forall|i: int|
                0 <= i < items.len() ==> #[trigger] r@[i]@ == match mode {
                    CleanMode::DryRun => dry_run_result(items@[i].path@),
                    CleanMode::MoveToTrash => trash_result_view(
                        items@[i].path@,
                        outcome_view(outcomes@[i]),
                    ),
                },
    {
        let mut results: Vec<CleanResult> = Vec::new();
        let mut i: usize = 0;
        while i < items.len()
            invariant
                i <= items.len(),
                mode == CleanMode::MoveToTrash ==> outcomes.len() == items.len(),
                results.len() == i,
                forall|j: int|
                    0 <= j < i ==> #[trigger] results@[j]@ == match mode {
                        CleanMode::DryRun => dry_run_result(items@[j].path@),
                        CleanMode::MoveToTrash => trash_result_view(
                            items@[j].path@,
                            outcome_view(outcomes@[j]),
                        ),
                    },
            decreases items.len() - i,
        {
            let result = match mode {
                CleanMode::DryRun => CleanResult {
                    path: items[i].path.clone(),
                    success: true,
                    message: String::from_str("[DRY-RUN] would be moved to trash"),
                },
                CleanMode::MoveToTrash => self.trash_result(items[i].path.as_str(), &outcomes[i]),
            };
            results.push(result);
            i += 1;
        }
        results
    }
}

/// How many of `results` succeeded.
pub open spec fn count_successes(results: Seq<CleanResult>) -> nat
    decreases results.len(),
{
    if results.len() == 0 {
        0
    } else {
        count_successes(results.drop_last()) + if results.last().success {
            1nat
        } else {
            0nat
        }
    }
}

/// The number of results that succeeded.
pub fn success_count(results: &[CleanResult]) -> (n: usize)
    ensures
        n == count_successes(results@),
{
    let mut n: usize = 0;
    let mut i: usize = 0;
    while i < results.len()
        invariant
            i <= results.len(),
            n == count_successes(results@.take(i as int)),
            n <= i,
        decreases results.len() - i,
    {
        assert(results@.take(i + 1).drop_last() =~= results@.take(i as int));
        if results[i].success {
            n += 1;
        }
        i += 1;
    }
    assert(results@.take(results.len() as int) =~= results@);
    n
}

proof fn lemma_successes_are_filtered(results: Seq<CleanResult>)
    ensures
        count_successes(results) == results.filter(|r: CleanResult| r.success).len(),
    decreases results.len(),
{
    reveal_with_fuel(Seq::filter, 1);
    if results.len() > 0 {
        lemma_successes_are_filtered(results.drop_last());
    }
}

proof fn lemma_successes_append(a: Seq<CleanResult>, b: Seq<CleanResult>)
    ensures
        count_successes(a + b) == count_successes(a) + count_successes(b),
    decreases b.len(),
{
    if b.len() == 0 {
        assert(a + b =~= a);
    } else {
        lemma_successes_append(a, b.drop_last());
        assert((a + b).drop_last() =~= a + b.drop_last());
    }
}

/// The success count counts the results that succeeded, wherever they stand:
/// it is the number of results whose `success` holds, the count of two runs
/// of results put together is the sum of their counts, and one result counts
/// one exactly when it succeeded.
pub proof fn law_success_count_counts_each_success(
    results: Seq<CleanResult>,
    more: Seq<CleanResult>,
    one: CleanResult,
)
    ensures
        count_successes(results) == results.filter(|r: CleanResult| r.success).len(),
        count_successes(results) <= results.len(),
        count_successes(results + more) == count_successes(results) + count_successes(more),
        count_successes(seq![one]) == if one.success {
            1nat
        } else {
            0nat
        },
{
    lemma_successes_are_filtered(results);
    results.lemma_filter_len(|r: CleanResult| r.success);
    lemma_successes_append(results, more);
    assert(seq![one].drop_last() =~= Seq::<CleanResult>::empty());
    assert(seq![one].last() == one);
    assert(count_successes(Seq::<CleanResult>::empty()) == 0);
    assert(count_successes(seq![one]) == count_successes(seq![one].drop_last()) + if one.success {
        1nat
    } else {
        0nat
    });
}

} // verus!
