//! The human-readable report.

use vstd::prelude::*;

use super::{reported, result_views, Report, Summary};
use crate::lint::{finding_views, FileResult, Finding, FindingView, ResultView, Severity};
use crate::number::{decimal, write_natural};
use crate::text::to_chars;

verus! {

pub const BOLD: &'static str = "\u{1b}[1m";

pub const RED: &'static str = "\u{1b}[31m";

pub const ORANGE: &'static str = "\u{1b}[38;5;208m";

pub const YELLOW: &'static str = "\u{1b}[33m";

pub const GREEN: &'static str = "\u{1b}[32m";

pub const RESET: &'static str = "\u{1b}[0m";

pub const ERROR_EMOJI: &'static str = "❌";

pub const WARNING_EMOJI: &'static str = "⚠️";

/// A text between a color code and its end.
pub open spec fn painted(color: bool, code: Seq<char>, text: Seq<char>) -> Seq<char> {
    if color {
        code + text + RESET@
    } else {
        text
    }
}

fn paint(color: bool, code: &str, text: &str) -> (r: String)
    ensures
        r@ == painted(color, code@, text@),
{
    if color {
        let mut out = code.to_owned();
        out.append(text);
        out.append(RESET);
        out
    } else {
        text.to_owned()
    }
}

/// The color of the band a score falls in.
pub open spec fn band_color(score: int) -> Seq<char> {
    if score >= 90 {
        GREEN@
    } else if score >= 70 {
        YELLOW@
    } else if score >= 50 {
        ORANGE@
    } else {
        RED@
    }
}

/// The name of the band a score falls in.
pub open spec fn band_name(score: int) -> Seq<char> {
    if score >= 90 {
        "Healthy"@
    } else if score >= 70 {
        "Worth a look"@
    } else if score >= 50 {
        "Needs work"@
    } else {
        "Unhealthy"@
    }
}

fn color_of(score: u8) -> (r: &'static str)
    ensures
        r@ == band_color(score as int),
{
    if score >= 90 {
        GREEN
    } else if score >= 70 {
        YELLOW
    } else if score >= 50 {
        ORANGE
    } else {
        RED
    }
}

fn name_of(score: u8) -> (r: &'static str)
    ensures
        r@ == band_name(score as int),
{
    if score >= 90 {
        "Healthy"
    } else if score >= 70 {
        "Worth a look"
    } else if score >= 50 {
        "Needs work"
    } else {
        "Unhealthy"
    }
}

/// A score in the color of its band.
pub fn paint_score(color: bool, score: u8) -> (r: String)
    ensures
        r@ == painted(color, band_color(score as int), decimal(score as nat)),
{
    paint(color, color_of(score), write_natural(score as u128).as_str())
}

/// A severity as the report shows it, with a symbol where there is color.
pub open spec fn severity_text(color: bool, severity: Severity) -> Seq<char> {
    match severity {
        Severity::Error => if color {
            ERROR_EMOJI@ + " "@ + painted(true, RED@, "error"@)
        } else {
            "error"@
        },
        Severity::Warning => if color {
            WARNING_EMOJI@ + " "@ + painted(true, YELLOW@, "warning"@)
        } else {
            "warning"@
        },
    }
}

fn show_severity(color: bool, severity: Severity) -> (r: String)
    ensures
        r@ == severity_text(color, severity),
{
    if !color {
        return severity.as_str().to_string();
    }
    let (symbol, code) = match severity {
        Severity::Error => (ERROR_EMOJI, RED),
        Severity::Warning => (WARNING_EMOJI, YELLOW),
    };
    let mut out = symbol.to_string();
    out.append(" ");
    out.append(paint(true, code, severity.as_str()).as_str());
    out
}

/// The line of a finding. One that concerns the whole file has no number.
pub open spec fn finding_line(color: bool, f: FindingView) -> Seq<char> {
    let head = if f.line > 0 {
        "  "@ + decimal(f.line as nat) + ": "@
    } else {
        "  "@
    };
    head + severity_text(color, f.severity) + ": "@ + f.rule + ": "@ + f.message + "\n"@
}

fn show_finding(color: bool, f: &Finding) -> (r: String)
    ensures
        r@ == finding_line(color, f@),
{
    let mut out = "  ".to_string();
    if f.line > 0 {
        out.append(write_natural(f.line as u128).as_str());
        out.append(": ");
    }
    out.append(show_severity(color, f.severity).as_str());
    out.append(": ");
    out.append(f.rule);
    out.append(": ");
    out.append(f.message.as_str());
    out.append("\n");
    out
}

/// The lines of some findings, warnings left out on request.
pub open spec fn finding_lines(color: bool, findings: Seq<FindingView>) -> Seq<char>
    decreases findings.len(),
{
    if findings.len() == 0 {
        Seq::empty()
    } else {
        finding_lines(color, findings.drop_last()) + finding_line(color, findings.last())
    }
}

/// What the report says of a file: its path and score, its findings and an
/// empty line. A file with a perfect score is left out: there is nothing to
/// flag.
pub open spec fn file_block(quiet: bool, color: bool, r: ResultView) -> Seq<char> {
    if r.score == 100 {
        Seq::empty()
    } else {
        painted(color, BOLD@, r.path) + "  "@ + painted(
            color,
            band_color(r.score),
            decimal(r.score as nat),
        ) + "\n"@ + finding_lines(color, reported(r.findings, quiet)) + "\n"@
    }
}

fn show_file(quiet: bool, color: bool, r: &FileResult) -> (out: String)
    ensures
        out@ == file_block(quiet, color, r@),
{
    if r.score == 100 {
        let empty = String::new();
        assert(empty@ =~= Seq::empty());
        return empty;
    }
    let mut out = paint(color, BOLD, r.path.as_str());
    out.append("  ");
    out.append(paint_score(color, r.score).as_str());
    out.append("\n");
    let ghost all = r@.findings;
    let mut lines = String::new();
    let mut i: usize = 0;
    assert(all.take(0) =~= Seq::empty());
    assert(lines@ =~= Seq::empty());
    while i < r.findings.len()
        invariant
            i <= r.findings@.len(),
            all == finding_views(r.findings@),
            lines@ == finding_lines(color, reported(all.take(i as int), quiet)),
        decreases r.findings@.len() - i,
    {
        let f = &r.findings[i];
        proof {
            let next = all.take(i + 1);
            assert(next.drop_last() =~= all.take(i as int));
            assert(next.last() == f@);
            let before = reported(all.take(i as int), quiet);
            assert(before.push(f@).drop_last() =~= before);
        }
        if !(quiet && f.severity == Severity::Warning) {
            lines.append(show_finding(color, f).as_str());
        }
        i += 1;
    }
    assert(all.take(i as int) =~= all);
    out.append(lines.as_str());
    out.append("\n");
    out
}

/// What the report says of some files.
pub open spec fn file_blocks(quiet: bool, color: bool, results: Seq<ResultView>) -> Seq<char>
    decreases results.len(),
{
    if results.len() == 0 {
        Seq::empty()
    } else {
        file_blocks(quiet, color, results.drop_last()) + file_block(quiet, color, results.last())
    }
}

/// A number of files.
pub open spec fn file_count(n: int) -> Seq<char> {
    decimal(n as nat) + if n == 1 {
        " file"@
    } else {
        " files"@
    }
}

fn count_files(n: usize) -> (r: String)
    ensures
        r@ == file_count(n as int),
{
    let mut out = write_natural(n as u128);
    if n == 1 {
        out.append(" file");
    } else {
        out.append(" files");
    }
    out
}

/// The color of a count: green when there is nothing to count.
pub open spec fn count_color(n: int, code: Seq<char>) -> Seq<char> {
    if n == 0 {
        GREEN@
    } else {
        code
    }
}

/// The first line of the scorecard.
pub open spec fn score_line(color: bool, score: int) -> Seq<char> {
    "Score: "@ + painted(color, band_color(score), decimal(score as nat) + "/100"@) + " · "@
        + band_name(score)
}

fn show_score(color: bool, score: u8) -> (r: String)
    ensures
        r@ == score_line(color, score as int),
{
    let mut rating = write_natural(score as u128);
    rating.append("/100");
    let mut out = "Score: ".to_string();
    out.append(paint(color, color_of(score), rating.as_str()).as_str());
    out.append(" · ");
    out.append(name_of(score));
    out
}

/// The last line of the scorecard.
pub open spec fn count_line(color: bool, s: Summary) -> Seq<char> {
    file_count(s.files as int) + " checked, "@ + painted(
        color,
        count_color(s.files_with_errors as int, RED@),
        file_count(s.files_with_errors as int) + " with errors"@,
    ) + ", "@ + painted(
        color,
        count_color(s.files_with_warnings as int, YELLOW@),
        file_count(s.files_with_warnings as int) + " with warnings"@,
    )
}

fn show_counts(color: bool, s: &Summary) -> (r: String)
    ensures
        r@ == count_line(color, *s),
{
    let mut errors = count_files(s.files_with_errors);
    errors.append(" with errors");
    let mut warnings = count_files(s.files_with_warnings);
    warnings.append(" with warnings");
    let mut out = count_files(s.files);
    out.append(" checked, ");
    let red = if s.files_with_errors == 0 {
        GREEN
    } else {
        RED
    };
    out.append(paint(color, red, errors.as_str()).as_str());
    out.append(", ");
    let yellow = if s.files_with_warnings == 0 {
        GREEN
    } else {
        YELLOW
    };
    out.append(paint(color, yellow, warnings.as_str()).as_str());
    out
}

/// `unit` over and over.
pub open spec fn repeated(unit: Seq<char>, n: int) -> Seq<char>
    decreases n,
{
    if n <= 0 {
        Seq::empty()
    } else {
        repeated(unit, n - 1) + unit
    }
}

fn repeat(unit: &str, n: usize) -> (r: String)
    ensures
        r@ == repeated(unit@, n as int),
{
    let mut out = String::new();
    let mut i: usize = 0;
    assert(out@ =~= Seq::empty());
    while i < n
        invariant
            i <= n,
            out@ == repeated(unit@, i as int),
        decreases n - i,
    {
        out.append(unit);
        i += 1;
    }
    out
}

/// How wide the scorecard is inside: as wide as its widest line, color codes
/// not counted.
pub open spec fn card_width(s: Summary) -> int {
    let a = score_line(false, s.score as int).len() as int;
    let b = count_line(false, s).len() as int;
    if a < b {
        b
    } else {
        a
    }
}

/// A line of the scorecard, filled up to its width.
pub open spec fn card_line(text: Seq<char>, length: int, width: int) -> Seq<char> {
    "│ "@ + text + repeated(" "@, width - length) + " │\n"@
}

/// The run's scorecard: a bordered box with the score on top, a blank line,
/// then the file counts underneath.
pub open spec fn card(color: bool, s: Summary) -> Seq<char> {
    let width = card_width(s);
    let bar = repeated("─"@, width) + "──"@;
    "┌"@ + bar + "┐\n"@ + card_line(
        score_line(color, s.score as int),
        score_line(false, s.score as int).len() as int,
        width,
    ) + card_line(Seq::empty(), 0, width) + card_line(
        count_line(color, s),
        count_line(false, s).len() as int,
        width,
    ) + "└"@ + bar + "┘\n"@
}

fn show_card_line(text: &str, length: usize, width: usize) -> (r: String)
    requires
        length <= width,
    ensures
        r@ == card_line(text@, length as int, width as int),
{
    let mut out = "│ ".to_string();
    out.append(text);
    out.append(repeat(" ", width - length).as_str());
    out.append(" │\n");
    out
}

fn show_card(color: bool, s: &Summary) -> (r: String)
    ensures
        r@ == card(color, *s),
{
    let a: usize = to_chars(show_score(false, s.score).as_str()).len();
    let b: usize = to_chars(show_counts(false, s).as_str()).len();
    let width: usize = if a < b {
        b
    } else {
        a
    };
    let mut bar = repeat("─", width);
    bar.append("──");
    let empty = String::new();
    assert(empty@ =~= Seq::empty());
    let mut out = "┌".to_string();
    out.append(bar.as_str());
    out.append("┐\n");
    out.append(show_card_line(show_score(color, s.score).as_str(), a, width).as_str());
    out.append(show_card_line(empty.as_str(), 0, width).as_str());
    out.append(show_card_line(show_counts(color, s).as_str(), b, width).as_str());
    out.append("└");
    out.append(bar.as_str());
    out.append("┘\n");
    out
}

/// The whole report.
pub open spec fn text_of(
    quiet: bool,
    color: bool,
    results: Seq<ResultView>,
    summary: Summary,
) -> Seq<char> {
    file_blocks(quiet, color, results) + card(color, summary)
}

/// Writes the run for a reader: what is wrong with each file, then a
/// scorecard.
#[derive(Debug)]
pub struct TextReporter {
    pub quiet: bool,
    pub color: bool,
}

impl Report for TextReporter {
    type Output = String;

    open spec fn shows(&self, results: Seq<ResultView>, summary: Summary, out: String) -> bool {
        out@ == text_of(self.quiet, self.color, results, summary)
    }

    fn render(&self, results: &[FileResult], summary: &Summary) -> (r: String) {
        let ghost all = result_views(results@);
        let mut out = String::new();
        let mut i: usize = 0;
        assert(all.take(0) =~= Seq::empty());
        assert(out@ =~= Seq::empty());
        while i < results.len()
            invariant
                i <= results@.len(),
                all == result_views(results@),
                out@ == file_blocks(self.quiet, self.color, all.take(i as int)),
            decreases results@.len() - i,
        {
            proof {
                let next = all.take(i + 1);
                assert(next.drop_last() =~= all.take(i as int));
                assert(next.last() == results@[i as int]@);
            }
            out.append(show_file(self.quiet, self.color, &results[i]).as_str());
            i += 1;
        }
        assert(all.take(i as int) =~= all);
        out.append(show_card(self.color, summary).as_str());
        out
    }
}

} // verus!
