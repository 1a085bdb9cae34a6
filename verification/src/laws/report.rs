//! What a report says of a run.

use vstd::prelude::*;

use crate::lint::{severity_count, FindingView, ResultView, Severity};
use crate::number::decimal;
use crate::report::json::{json_of, JsonFinding, JsonReport, JsonReporter};
use crate::report::text::{
    band_color, card, card_line, card_width, count_line, file_block, file_blocks, finding_line,
    finding_lines, repeated, score_line, TextReporter,
};
use crate::report::{files_with, mean_score, reported, total_score, Report, Summary};

verus! {

/// The findings of a severity, in order.
pub open spec fn of_severity(findings: Seq<FindingView>, severity: Severity) -> Seq<FindingView> {
    findings.filter(|f: FindingView| f.severity == severity)
}

/// Whether a finding of a report says what a finding of a file does.
pub open spec fn says(j: JsonFinding, path: Seq<char>, f: FindingView) -> bool {
    j.file@ == path && j.line == f.line && j.rule@ == f.rule && j.severity == f.severity
        && j.message@ == f.message
}

/// Without `--quiet` everything is reported, with it the errors alone, all of
/// them and in order.
pub proof fn lemma_reported(findings: Seq<FindingView>)
    ensures
        reported(findings, false) == findings,
        reported(findings, true) == of_severity(findings, Severity::Error),
    decreases findings.len(),
{
    reveal(Seq::filter);
    if findings.len() > 0 {
        lemma_reported(findings.drop_last());
        assert(findings.drop_last().push(findings.last()) =~= findings);
    } else {
        assert(reported(findings, false) =~= findings);
        assert(of_severity(findings, Severity::Error) =~= Seq::empty());
    }
}

/// The JSON report has every file of the run, in order and as it was rated, and
/// of each file as many findings as it has, each with its place, its rule, its
/// severity and its message. With `--quiet` it has as many as the file has
/// errors, and these are they.
pub proof fn lemma_json_says_all(
    reporter: JsonReporter,
    results: Seq<ResultView>,
    summary: Summary,
    out: JsonReport,
    n: int,
)
    requires
        reporter.shows(results, summary, out),
        0 <= n < results.len(),
    ensures
        out.version == 1,
        out.summary == summary,
        out.files@.len() == results.len(),
        ({
            let file = out.files@[n];
            let kept = if reporter.quiet {
                of_severity(results[n].findings, Severity::Error)
            } else {
                results[n].findings
            };
            &&& file.path@ == results[n].path
            &&& file.kind == results[n].kind
            &&& file.tokens == results[n].tokens
            &&& file.score == results[n].score
            &&& file.findings@.len() == kept.len()
            &&& forall|i: int|
                0 <= i < kept.len() ==> says(#[trigger] file.findings@[i], results[n].path, kept[i])
        }),
{
    lemma_reported(results[n].findings);
    let file = out.files@[n];
    let shown = json_of(results, summary, reporter.quiet);
    assert(out@ == shown);
    assert(out@.files.len() == out.files@.len());
    assert(out@.files[n] == file@);
    assert(shown.files[n] == file@);
    let kept = reported(results[n].findings, reporter.quiet);
    assert(file@.findings.len() == kept.len());
    assert forall|i: int| 0 <= i < kept.len() implies says(
        #[trigger] file.findings@[i],
        results[n].path,
        kept[i],
    ) by {
        assert(file@.findings[i] == file.findings@[i]@);
    }
}

/// The places of the findings of a severity.
pub open spec fn severity_places(findings: Seq<FindingView>, severity: Severity) -> Set<int> {
    Set::new(|i: int| 0 <= i < findings.len() && findings[i].severity == severity)
}

/// A file has as many errors, or warnings, as there are such findings.
pub proof fn lemma_severities(findings: Seq<FindingView>, severity: Severity)
    ensures
        severity_places(findings, severity).finite(),
        severity_count(findings, severity) == severity_places(findings, severity).len(),
        severity_count(findings, severity) == of_severity(findings, severity).len(),
    decreases findings.len(),
{
    reveal(Seq::filter);
    if findings.len() == 0 {
        assert(severity_places(findings, severity) =~= Set::empty());
    } else {
        let init = findings.drop_last();
        let n = init.len() as int;
        lemma_severities(init, severity);
        if findings.last().severity == severity {
            assert(severity_places(findings, severity) =~= severity_places(init, severity).insert(
                n,
            ));
        } else {
            assert(severity_places(findings, severity) =~= severity_places(init, severity));
        }
    }
}

/// The places of the files with a finding of a severity.
pub open spec fn affected(results: Seq<ResultView>, severity: Severity) -> Set<int> {
    Set::new(
        |i: int|
            0 <= i < results.len() && exists|k: int|
                0 <= k < results[i].findings.len() && (#[trigger] results[i].findings[k]).severity
                    == severity,
    )
}

/// A run counts the files that have a finding of a severity, each once.
pub proof fn lemma_files_affected(results: Seq<ResultView>, severity: Severity)
    ensures
        affected(results, severity).finite(),
        files_with(results, severity) == affected(results, severity).len(),
    decreases results.len(),
{
    if results.len() == 0 {
        assert(affected(results, severity) =~= Set::empty());
    } else {
        let init = results.drop_last();
        let n = init.len() as int;
        lemma_files_affected(init, severity);
        let last = results.last().findings;
        lemma_severities(last, severity);
        let places = severity_places(last, severity);
        assert forall|i: int| 0 <= i < n implies results[i] == init[i] by {}
        if severity_count(last, severity) > 0 {
            let k = places.choose();
            assert(places.contains(k));
            assert(results[n].findings[k].severity == severity);
            assert(affected(results, severity) =~= affected(init, severity).insert(n));
        } else {
            assert forall|k: int| 0 <= k < last.len() implies (#[trigger] last[k]).severity
                != severity by {
                if last[k].severity == severity {
                    assert(places.contains(k));
                    assert(places.len() > 0) by {
                        if places.len() == 0 {
                            assert(places =~= Set::empty());
                        }
                    }
                }
            }
            assert(affected(results, severity) =~= affected(init, severity));
        }
    }
}

/// One more file adds its score to the sum, and the score of a run is the mean
/// of its files' scores, rounded down.
pub proof fn lemma_run_score(results: Seq<ResultView>, more: ResultView)
    requires
        total_score(results) + more.score >= 0,
    ensures
        total_score(results.push(more)) == total_score(results) + more.score,
        mean_score(results.push(more)) * (results.len() + 1) <= total_score(results) + more.score,
        total_score(results) + more.score < (mean_score(results.push(more)) + 1) * (results.len()
            + 1),
        total_score(Seq::empty()) == 0,
        mean_score(Seq::empty()) == 100,
{
    let all = results.push(more);
    assert(all.drop_last() =~= results);
    let t = total_score(all);
    let n = all.len() as int;
    let m = t / n;
    assert(m * n <= t && t < (m + 1) * n) by (nonlinear_arith)
        requires
            n > 0,
            m == t / n,
    ;
}

/// What stands in the report under each severity.
pub open spec fn severity_word(color: bool, severity: Severity) -> Seq<char> {
    match severity {
        Severity::Error => if color {
            "❌"@ + " "@ + ("\u{1b}[31m"@ + "error"@ + "\u{1b}[0m"@)
        } else {
            "error"@
        },
        Severity::Warning => if color {
            "⚠️"@ + " "@ + ("\u{1b}[33m"@ + "warning"@ + "\u{1b}[0m"@)
        } else {
            "warning"@
        },
    }
}

/// A finding takes one line: where it is, unless it is about the whole file,
/// how bad it is, its rule, and what is wrong.
pub proof fn lemma_finding_line(color: bool, f: FindingView)
    ensures
        f.line > 0 ==> finding_line(color, f) == "  "@ + decimal(f.line as nat) + ": "@ + severity_word(
            color,
            f.severity,
        ) + ": "@ + f.rule + ": "@ + f.message + "\n"@,
        f.line <= 0 ==> finding_line(color, f) == "  "@ + severity_word(color, f.severity) + ": "@
            + f.rule + ": "@ + f.message + "\n"@,
{
}

/// Every finding has its line, in order.
pub proof fn lemma_finding_lines(color: bool, a: Seq<FindingView>, b: Seq<FindingView>, f: FindingView)
    ensures
        finding_lines(color, Seq::empty()) == Seq::<char>::empty(),
        finding_lines(color, seq![f]) == finding_line(color, f),
        finding_lines(color, a + b) == finding_lines(color, a) + finding_lines(color, b),
    decreases b.len(),
{
    assert(seq![f].drop_last() =~= Seq::empty());
    assert(finding_lines(color, seq![f].drop_last()) =~= Seq::empty());
    assert(finding_lines(color, seq![f]) =~= finding_line(color, f));
    if b.len() > 0 {
        lemma_finding_lines(color, a, b.drop_last(), f);
        assert((a + b).drop_last() =~= a + b.drop_last());
        assert((a + b).last() == b.last());
        assert(finding_lines(color, a + b) =~= finding_lines(color, a) + finding_lines(color, b));
    } else {
        assert(a + b =~= a);
        assert(finding_lines(color, a + b) =~= finding_lines(color, a) + finding_lines(color, b));
    }
}

/// The code that a score is painted in: green from 90 on, yellow from 70,
/// orange from 50, and red below.
pub proof fn lemma_bands(score: int)
    ensures
        score >= 90 ==> band_color(score) == "\u{1b}[32m"@,
        70 <= score < 90 ==> band_color(score) == "\u{1b}[33m"@,
        50 <= score < 70 ==> band_color(score) == "\u{1b}[38;5;208m"@,
        score < 50 ==> band_color(score) == "\u{1b}[31m"@,
        score >= 90 ==> score_line(false, score) == "Score: "@ + (decimal(score as nat) + "/100"@)
            + " · "@ + "Healthy"@,
        70 <= score < 90 ==> score_line(false, score) == "Score: "@ + (decimal(score as nat)
            + "/100"@) + " · "@ + "Worth a look"@,
        50 <= score < 70 ==> score_line(false, score) == "Score: "@ + (decimal(score as nat)
            + "/100"@) + " · "@ + "Needs work"@,
        score < 50 ==> score_line(false, score) == "Score: "@ + (decimal(score as nat) + "/100"@)
            + " · "@ + "Unhealthy"@,
{
}

/// A file with a perfect score is left out of the report. Any other has its
/// path and its score on a line of its own, then its findings, or with
/// `--quiet` its errors, and an empty line.
pub proof fn lemma_file_block(quiet: bool, color: bool, r: ResultView)
    ensures
        r.score == 100 ==> file_block(quiet, color, r) == Seq::<char>::empty(),
        r.score != 100 && !color ==> file_block(quiet, color, r) == r.path + "  "@ + decimal(
            r.score as nat,
        ) + "\n"@ + finding_lines(
            false,
            if quiet {
                of_severity(r.findings, Severity::Error)
            } else {
                r.findings
            },
        ) + "\n"@,
        r.score != 100 && color ==> file_block(quiet, color, r) == ("\u{1b}[1m"@ + r.path
            + "\u{1b}[0m"@) + "  "@ + (band_color(r.score) + decimal(r.score as nat)
            + "\u{1b}[0m"@) + "\n"@ + finding_lines(
            true,
            if quiet {
                of_severity(r.findings, Severity::Error)
            } else {
                r.findings
            },
        ) + "\n"@,
{
    lemma_reported(r.findings);
}

/// The files come one after the other, and then the scorecard.
pub proof fn lemma_text_says_all(
    reporter: TextReporter,
    results: Seq<ResultView>,
    summary: Summary,
    out: String,
)
    requires
        reporter.shows(results, summary, out),
    ensures
        out@ == file_blocks(reporter.quiet, reporter.color, results) + card(
            reporter.color,
            summary,
        ),
{
}

/// Every file has its block, in order.
pub proof fn lemma_file_blocks(
    quiet: bool,
    color: bool,
    a: Seq<ResultView>,
    b: Seq<ResultView>,
    r: ResultView,
)
    ensures
        file_blocks(quiet, color, Seq::empty()) == Seq::<char>::empty(),
        file_blocks(quiet, color, seq![r]) == file_block(quiet, color, r),
        file_blocks(quiet, color, a + b) == file_blocks(quiet, color, a) + file_blocks(
            quiet,
            color,
            b,
        ),
    decreases b.len(),
{
    assert(seq![r].drop_last() =~= Seq::empty());
    assert(file_blocks(quiet, color, seq![r].drop_last()) =~= Seq::empty());
    assert(file_blocks(quiet, color, seq![r]) =~= file_block(quiet, color, r));
    if b.len() > 0 {
        lemma_file_blocks(quiet, color, a, b.drop_last(), r);
        assert((a + b).drop_last() =~= a + b.drop_last());
        assert((a + b).last() == b.last());
        assert(file_blocks(quiet, color, a + b) =~= file_blocks(quiet, color, a) + file_blocks(
            quiet,
            color,
            b,
        ));
    } else {
        assert(a + b =~= a);
        assert(file_blocks(quiet, color, a + b) =~= file_blocks(quiet, color, a) + file_blocks(
            quiet,
            color,
            b,
        ));
    }
}

/// "1 file", or a number of files.
pub open spec fn files_text(n: usize) -> Seq<char> {
    if n == 1 {
        decimal(1) + " file"@
    } else {
        decimal(n as nat) + " files"@
    }
}

/// The scorecard counts the files, those with errors and those with warnings.
pub proof fn lemma_count_line(s: Summary)
    ensures
        count_line(false, s) == files_text(s.files) + " checked, "@ + (files_text(s.files_with_errors)
            + " with errors"@) + ", "@ + (files_text(s.files_with_warnings) + " with warnings"@),
        count_line(true, s) == files_text(s.files) + " checked, "@ + (if s.files_with_errors == 0 {
            "\u{1b}[32m"@
        } else {
            "\u{1b}[31m"@
        } + (files_text(s.files_with_errors) + " with errors"@) + "\u{1b}[0m"@) + ", "@ + (
        if s.files_with_warnings == 0 {
            "\u{1b}[32m"@
        } else {
            "\u{1b}[33m"@
        } + (files_text(s.files_with_warnings) + " with warnings"@) + "\u{1b}[0m"@),
{
}

proof fn lemma_repeated(unit: Seq<char>, n: int)
    requires
        n >= 0,
    ensures
        repeated(unit, n).len() == n * unit.len(),
    decreases n,
{
    if n > 0 {
        lemma_repeated(unit, n - 1);
        assert((n - 1) * unit.len() + unit.len() == n * unit.len()) by (nonlinear_arith);
    } else {
        assert(0 * unit.len() == 0) by (nonlinear_arith);
    }
}

/// A line of the scorecard is filled with blanks so that, codes for color not
/// counted, every line is as wide as the widest.
pub proof fn lemma_card_line(s: Summary)
    ensures
        card_width(s) >= score_line(false, s.score as int).len(),
        card_width(s) >= count_line(false, s).len(),
        card_width(s) == score_line(false, s.score as int).len() || card_width(s) == count_line(
            false,
            s,
        ).len(),
        ({
            let w = card_width(s);
            let one = score_line(false, s.score as int);
            let two = count_line(false, s);
            &&& card_line(one, one.len() as int, w).len() == card_line(Seq::empty(), 0, w).len()
            &&& card_line(two, two.len() as int, w).len() == card_line(Seq::empty(), 0, w).len()
        }),
{
    reveal_strlit(" ");
    let w = card_width(s);
    lemma_repeated(" "@, w);
    lemma_repeated(" "@, w - score_line(false, s.score as int).len());
    lemma_repeated(" "@, w - count_line(false, s).len());
}

/// A character over and over.
proof fn lemma_run(c: char, n: int)
    requires
        n >= 0,
    ensures
        repeated(seq![c], n) == Seq::new(n as nat, |i: int| c),
    decreases n,
{
    if n > 0 {
        lemma_run(c, n - 1);
    }
    assert(repeated(seq![c], n) =~= Seq::new(n as nat, |i: int| c));
}

/// The scorecard is a box around the score, an empty line and the counts. Its
/// bars are as wide as what is in it and a blank on either side.
pub proof fn lemma_card(color: bool, s: Summary)
    ensures
        ({
            let w = card_width(s);
            let bar = Seq::new(w as nat, |i: int| '─') + seq!['─', '─'];
            let one = score_line(false, s.score as int).len() as int;
            let two = count_line(false, s).len() as int;
            card(color, s) == "┌"@ + bar + "┐\n"@ + ("│ "@ + score_line(color, s.score as int)
                + Seq::new((w - one) as nat, |i: int| ' ') + " │\n"@) + ("│ "@ + Seq::<char>::empty()
                + Seq::new(w as nat, |i: int| ' ') + " │\n"@) + ("│ "@ + count_line(color, s)
                + Seq::new((w - two) as nat, |i: int| ' ') + " │\n"@) + "└"@ + bar + "┘\n"@
        }),
{
    reveal_strlit(" ");
    reveal_strlit("─");
    reveal_strlit("──");
    assert(" "@ =~= seq![' ']);
    assert("─"@ =~= seq!['─']);
    assert("──"@ =~= seq!['─', '─']);
    lemma_card_line(s);
    let w = card_width(s);
    lemma_run('─', w);
    lemma_run(' ', w);
    lemma_run(' ', w - score_line(false, s.score as int).len());
    lemma_run(' ', w - count_line(false, s).len());
}

} // verus!
