use lintmatter::discover::Kind;
use lintmatter::lint::ids::{RULE_NAME_DIR_MISMATCH, RULE_TOKENS_CONTENT};
use lintmatter::lint::{Counts, FileResult, Finding, Severity};
use lintmatter::report::json::{JsonReport, JsonReporter};
use lintmatter::report::text::{
    paint_score, TextReporter, BOLD, ERROR_EMOJI, GREEN, ORANGE, RED, RESET, WARNING_EMOJI, YELLOW,
};
use lintmatter::report::{summarize, Report, Summary, SCHEMA_VERSION};

fn render_text(results: &[FileResult], quiet: bool, color: bool) -> String {
    TextReporter { quiet, color }.render(results, &summarize(results))
}

fn render_json(results: &[FileResult], quiet: bool) -> JsonReport {
    JsonReporter { quiet }.render(results, &summarize(results))
}

fn results() -> Vec<FileResult> {
    vec![
        FileResult {
            path: "AGENTS.md".to_string(),
            kind: Kind::Agents,
            tokens: Counts {
                content: 6142,
                name: 0,
                description: 0,
            },
            score: 50,
            findings: vec![Finding {
                line: 0,
                rule: RULE_TOKENS_CONTENT,
                severity: Severity::Error,
                message: "content is 6,142 tokens, over the 5,000 token limit".to_string(),
            }],
        },
        FileResult {
            path: "skills/thing/SKILL.md".to_string(),
            kind: Kind::Skill,
            tokens: Counts {
                content: 120,
                name: 2,
                description: 30,
            },
            score: 96,
            findings: vec![Finding {
                line: 2,
                rule: RULE_NAME_DIR_MISMATCH,
                severity: Severity::Warning,
                message: "name \"other\" does not match its directory \"thing\"".to_string(),
            }],
        },
    ]
}

#[test]
fn summarize_totals_across_results() {
    assert_eq!(
        summarize(&results()),
        Summary {
            files: 2,
            files_with_errors: 1,
            files_with_warnings: 1,
            score: 73,
        }
    );
}

#[test]
fn text_output_shape() {
    let out = render_text(&results(), false, false);
    let lines: Vec<&str> = out.trim_end_matches('\n').split('\n').collect();
    assert_eq!(lines.len(), 11, "{out}");
    assert_eq!(lines[0], "AGENTS.md  50");
    assert!(
        lines[1].starts_with("  error: tokens.content: "),
        "{}",
        lines[1]
    );
    assert_eq!(lines[2], "");
    assert_eq!(lines[3], "skills/thing/SKILL.md  96");
    assert!(
        lines[4].starts_with("  2: warning: name.dir-mismatch: "),
        "{}",
        lines[4]
    );
    assert_eq!(lines[5], "");
    // The run's scorecard: a bordered box with the score on top, a blank
    // line, then the file counts underneath.
    assert!(
        lines[6].starts_with('┌') && lines[6].ends_with('┐'),
        "{out}"
    );
    assert!(lines[7].contains("Score: 73/100 · Worth a look"), "{out}");
    assert!(
        lines[8].starts_with('│')
            && lines[8].ends_with('│')
            && lines[8].trim_matches('│').trim().is_empty(),
        "{out}"
    );
    assert!(
        lines[9].contains("2 files checked, 1 file with errors, 1 file with warnings"),
        "{out}"
    );
    assert!(
        lines[10].starts_with('└') && lines[10].ends_with('┘'),
        "{out}"
    );
}

/// A file with a perfect score is dropped entirely -- there's nothing to
/// flag -- in both the normal and `--quiet` views.
#[test]
fn text_drops_files_with_a_perfect_score() {
    let clean = vec![FileResult {
        path: "skills/good/SKILL.md".to_string(),
        kind: Kind::Skill,
        tokens: Counts::default(),
        score: 100,
        findings: vec![],
    }];
    let out = render_text(&clean, false, false);
    assert!(!out.contains("skills/good/SKILL.md"), "{out}");
    assert!(out.contains("Score: 100/100 · Healthy"), "{out}");

    let out = render_text(&clean, true, false);
    assert!(!out.contains("skills/good/SKILL.md"), "{out}");
}

#[test]
fn text_quiet_suppresses_warnings() {
    let out = render_text(&results(), true, false);
    assert!(!out.contains("warning: "));
    assert!(out.contains("1 file with warnings"));
}

#[test]
fn text_singular_plural() {
    let out = render_text(&[], false, false);
    assert!(out.contains("Score: 100/100 · Healthy"), "{out}");
    assert!(
        out.contains("0 files checked, 0 files with errors, 0 files with warnings"),
        "{out}"
    );
}

#[test]
fn text_color_adds_symbols_and_sgr_codes() {
    let out = render_text(&results(), false, true);
    assert!(out.contains(ERROR_EMOJI), "{out}");
    assert!(out.contains(WARNING_EMOJI), "{out}");
    assert!(out.contains(RED), "{out}");
    assert!(out.contains(YELLOW), "{out}");
    assert!(out.contains(BOLD), "{out}");
    assert!(out.contains(RESET), "{out}");
    assert!(out.contains("error"), "{out}");
    assert!(out.contains("warning"), "{out}");
}

#[test]
fn text_color_clean_run_shows_green_count() {
    let out = render_text(&[], false, true);
    assert!(out.contains(GREEN), "{out}");
    assert!(!out.contains(RED), "{out}");
    assert!(!out.contains(YELLOW), "{out}");
}

/// A mid-range score bad enough to fall short of yellow still isn't the
/// worst band: it's painted orange rather than red.
#[test]
fn paint_score_orange_band() {
    assert_eq!(paint_score(true, 60), format!("{ORANGE}60{RESET}"));
}

#[test]
fn json_output_shape() {
    let got = render_json(&results(), false);
    assert_eq!(got.version, SCHEMA_VERSION);
    assert_eq!(got.files.len(), 2);
    assert_eq!(got.summary.files, 2);
    assert_eq!(got.summary.files_with_errors, 1);
    assert_eq!(got.summary.files_with_warnings, 1);
    assert_eq!(got.summary.score, 73);
    assert_eq!(got.files[0].score, 50);
    assert_eq!(got.files[1].score, 96);
    assert_eq!(got.files[1].tokens.name, 2);
    // A line of zero stands for none, and is left out when it is written.
    assert_eq!(got.files[0].findings[0].line, 0);
    assert_eq!(got.files[1].findings[0].line, 2);
}

#[test]
fn json_quiet_suppresses_warnings() {
    let got = render_json(&results(), true);
    for file in &got.files {
        for finding in &file.findings {
            assert_ne!(finding.severity.as_str(), "warning");
        }
    }
    assert_eq!(got.summary.files_with_warnings, 1);
}

#[test]
fn json_quiet_does_not_mutate_input() {
    let input = results();
    let got = render_json(&input, true);

    // The rendered report drops the warning, but the caller's results are
    // left intact -- quiet is a view, not an edit.
    for file in &got.files {
        assert!(file.findings.is_empty() || file.path == "AGENTS.md");
    }
    assert_eq!(got.summary.files_with_warnings, 1);
    assert_eq!(summarize(&input).files_with_warnings, 1);
    assert_eq!(input[1].findings.len(), 1);
}

#[test]
fn json_findings_repeat_their_file() {
    let got = render_json(&results(), false);
    for file in &got.files {
        for finding in &file.findings {
            assert_eq!(finding.file, file.path);
        }
    }
    assert_eq!(got.files[0].findings[0].rule, RULE_TOKENS_CONTENT);
    assert_eq!(
        got.files[0].findings[0].message,
        "content is 6,142 tokens, over the 5,000 token limit"
    );
}

#[test]
fn scores_are_painted_by_band() {
    assert_eq!(paint_score(true, 100), format!("{GREEN}100{RESET}"));
    assert_eq!(paint_score(true, 10), format!("{RED}10{RESET}"));
    assert_eq!(paint_score(false, 10), "10");
}

/// The mean is rounded down, and a run without files rates a hundred.
#[test]
fn the_run_rates_the_floored_mean() {
    let one = |score: u8| FileResult {
        path: "AGENTS.md".to_string(),
        kind: Kind::Agents,
        tokens: Counts::default(),
        score,
        findings: vec![],
    };
    assert_eq!(summarize(&[one(50), one(51), one(51)]).score, 50);
    assert_eq!(summarize(&[one(99), one(100)]).score, 99);
    assert_eq!(summarize(&[]).score, 100);
}
