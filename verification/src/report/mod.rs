//! Renders lint results for humans and for machines.

pub mod json;
pub mod text;

use vstd::prelude::*;

use crate::lint::{severity_count, FileResult, FindingView, ResultView, Severity};

verus! {

/// Bumped when the JSON shape changes incompatibly.
pub const SCHEMA_VERSION: u32 = 1;

/// Counts a whole run.
#[derive(Debug, Clone, Copy, PartialEq, Eq, Structural)]
pub struct Summary {
    pub files: usize,
    pub files_with_errors: usize,
    pub files_with_warnings: usize,
    /// The mean of the per-file scores, so the run's rating is exactly the
    /// average of the numbers printed above it. An empty run rates 100.
    pub score: u8,
}

impl Default for Summary {
    fn default() -> (r: Summary)
        ensures
            r == (Summary { files: 0, files_with_errors: 0, files_with_warnings: 0, score: 0 }),
    {
        Summary { files: 0, files_with_errors: 0, files_with_warnings: 0, score: 0 }
    }
}

pub open spec fn result_views(v: Seq<FileResult>) -> Seq<ResultView> {
    Seq::new(v.len(), |i: int| v[i]@)
}

/// How many files have at least one finding of a severity.
pub open spec fn files_with(results: Seq<ResultView>, severity: Severity) -> int
    decreases results.len(),
{
    if results.len() == 0 {
        0
    } else {
        files_with(results.drop_last(), severity) + if severity_count(
            results.last().findings,
            severity,
        ) > 0 {
            1int
        } else {
            0
        }
    }
}

/// Whether a file has a finding of a severity.
pub open spec fn has(result: ResultView, severity: Severity) -> bool {
    exists|i: int|
        0 <= i < result.findings.len() && (#[trigger] result.findings[i]).severity == severity
}

proof fn lemma_has(findings: Seq<FindingView>, severity: Severity)
    ensures
        severity_count(findings, severity) >= 0,
        severity_count(findings, severity) > 0 <==> exists|i: int|
            0 <= i < findings.len() && (#[trigger] findings[i]).severity == severity,
    decreases findings.len(),
{
    if findings.len() > 0 {
        let init = findings.drop_last();
        lemma_has(init, severity);
        if severity_count(init, severity) > 0 {
            let i = choose|i: int|
                0 <= i < init.len() && (#[trigger] init[i]).severity == severity;
            assert(findings[i].severity == severity);
        }
        if exists|i: int|
            0 <= i < findings.len() && (#[trigger] findings[i]).severity == severity {
            let i = choose|i: int|
                0 <= i < findings.len() && (#[trigger] findings[i]).severity == severity;
            if i < init.len() {
                assert(init[i].severity == severity);
            }
        }
    }
}

/// A run counts files, not findings: never more than it has, and some exactly
/// when a file has a finding of that severity.
pub proof fn lemma_files_with(results: Seq<ResultView>, severity: Severity)
    ensures
        0 <= files_with(results, severity) <= results.len(),
        files_with(results, severity) > 0 <==> exists|i: int|
            0 <= i < results.len() && #[trigger] has(results[i], severity),
    decreases results.len(),
{
    if results.len() > 0 {
        let init = results.drop_last();
        lemma_files_with(init, severity);
        lemma_has(results.last().findings, severity);
        assert(has(results.last(), severity) <==> severity_count(
            results.last().findings,
            severity,
        ) > 0);
        if files_with(init, severity) > 0 {
            let i = choose|i: int| 0 <= i < init.len() && #[trigger] has(init[i], severity);
            assert(has(results[i], severity));
        }
        if exists|i: int| 0 <= i < results.len() && #[trigger] has(results[i], severity) {
            let i = choose|i: int| 0 <= i < results.len() && #[trigger] has(results[i], severity);
            if i < init.len() {
                assert(has(init[i], severity));
            }
        }
        if has(results.last(), severity) {
            assert(has(results[results.len() - 1], severity));
        }
    }
}

/// The sum of the per-file scores.
pub open spec fn total_score(results: Seq<ResultView>) -> int
    decreases results.len(),
{
    if results.len() == 0 {
        0
    } else {
        total_score(results.drop_last()) + results.last().score
    }
}

/// The mean of the per-file scores, rounded down; 100 where there is none.
pub open spec fn mean_score(results: Seq<ResultView>) -> int {
    if results.len() == 0 {
        100
    } else {
        total_score(results) / results.len() as int
    }
}

/// The counts of a whole run.
pub open spec fn summary_of(results: Seq<ResultView>) -> Summary {
    Summary {
        files: results.len() as usize,
        files_with_errors: files_with(results, Severity::Error) as usize,
        files_with_warnings: files_with(results, Severity::Warning) as usize,
        score: mean_score(results) as u8,
    }
}

/// Counts, across results, how many files have at least one error or
/// warning. Mirrors other linters' summaries, which report the files
/// affected rather than a raw finding tally.
pub fn summarize(results: &[FileResult]) -> (r: Summary)
    ensures
        r.files == results@.len(),
        r.files_with_errors == files_with(result_views(results@), Severity::Error),
        r.files_with_warnings == files_with(result_views(results@), Severity::Warning),
        r.score == mean_score(result_views(results@)),
        r == summary_of(result_views(results@)),
{
    let ghost all = result_views(results@);
    let mut s = Summary::default();
    s.files = results.len();
    let mut total: u128 = 0;
    let mut i: usize = 0;
    assert(all.take(0) =~= Seq::empty());
    while i < results.len()
        invariant
            i <= results@.len(),
            all == result_views(results@),
            s.files == results@.len(),
            s.files_with_errors <= i,
            s.files_with_warnings <= i,
            s.files_with_errors == files_with(all.take(i as int), Severity::Error),
            s.files_with_warnings == files_with(all.take(i as int), Severity::Warning),
            total == total_score(all.take(i as int)),
            total <= 255 * i,
        decreases results@.len() - i,
    {
        let r = &results[i];
        proof {
            let next = all.take(i + 1);
            assert(next.drop_last() =~= all.take(i as int));
            assert(next.last() == r@);
        }
        if r.errors() > 0 {
            s.files_with_errors += 1;
        }
        if r.warnings() > 0 {
            s.files_with_warnings += 1;
        }
        total += r.score as u128;
        i += 1;
    }
    assert(all.take(i as int) =~= all);
    if results.len() == 0 {
        s.score = 100;
    } else {
        // Floored, matching the per-file scores it averages.
        let n: u128 = results.len() as u128;
        let mean: u128 = total / n;
        assert(mean <= 255) by (nonlinear_arith)
            requires
                n > 0,
                total <= 255 * n,
                mean == total / n,
        ;
        s.score = mean as u8;
    }
    s
}

/// One way of rendering a run.
///
/// Each implementor owns its own switches, so a call site names what it wants
/// once at construction instead of passing a row of positional bools that read
/// as `text(&results, false, true)` at the point of use.
pub trait Report {
    type Output;

    /// Whether `out` is what this report makes of a run.
    spec fn shows(&self, results: Seq<ResultView>, summary: Summary, out: Self::Output) -> bool;

    fn render(&self, results: &[FileResult], summary: &Summary) -> (r: Self::Output)
        ensures
            self.shows(result_views(results@), *summary, r),
    ;
}

/// The findings that are reported: all of them, or the errors alone.
pub open spec fn reported(findings: Seq<FindingView>, quiet: bool) -> Seq<FindingView>
    decreases findings.len(),
{
    if findings.len() == 0 {
        Seq::empty()
    } else {
        let rest = reported(findings.drop_last(), quiet);
        if quiet && findings.last().severity == Severity::Warning {
            rest
        } else {
            rest.push(findings.last())
        }
    }
}

proof fn lemma_total(results: Seq<ResultView>, low: int, high: int)
    requires
        forall|i: int| 0 <= i < results.len() ==> low <= (#[trigger] results[i]).score <= high,
    ensures
        low * results.len() <= total_score(results) <= high * results.len(),
    decreases results.len(),
{
    if results.len() > 0 {
        let init = results.drop_last();
        assert forall|i: int| 0 <= i < init.len() implies low <= (#[trigger] init[i]).score
            <= high by {
            assert(init[i] == results[i]);
        }
        lemma_total(init, low, high);
        assert(low <= results[results.len() - 1].score <= high);
        let n = init.len() as int;
        let m = results.len() as int;
        assert(low * m == low * n + low && high * m == high * n + high) by (nonlinear_arith)
            requires
                m == n + 1,
        ;
    } else {
        let m = results.len() as int;
        assert(low * m == 0 && high * m == 0) by (nonlinear_arith)
            requires
                m == 0,
        ;
    }
}

/// A run rates no worse than its worst file and no better than its best.
pub proof fn lemma_mean_score(results: Seq<ResultView>, low: int, high: int)
    requires
        results.len() > 0,
        forall|i: int| 0 <= i < results.len() ==> low <= (#[trigger] results[i]).score <= high,
    ensures
        low <= mean_score(results) <= high,
{
    lemma_total(results, low, high);
    let n = results.len() as int;
    let t = total_score(results);
    assert(low <= t / n <= high) by (nonlinear_arith)
        requires
            n > 0,
            low * n <= t <= high * n,
    ;
}

/// `--quiet` keeps every error, in order, and nothing else.
pub proof fn lemma_quiet(findings: Seq<FindingView>)
    ensures
        forall|i: int|
            0 <= i < reported(findings, true).len() ==> (#[trigger] reported(
                findings,
                true,
            )[i]).severity == Severity::Error,
        reported(findings, true).len() == severity_count(findings, Severity::Error),
        reported(findings, false) == findings,
    decreases findings.len(),
{
    if findings.len() > 0 {
        lemma_quiet(findings.drop_last());
        assert(findings.drop_last().push(findings.last()) =~= findings);
    } else {
        assert(reported(findings, false) =~= findings);
    }
}

} // verus!
