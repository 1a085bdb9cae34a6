//! The machine-readable report, as plain values in the order they are
//! written.

use vstd::prelude::*;

use super::{reported, result_views, Report, Summary, SCHEMA_VERSION};
use crate::discover::Kind;
use crate::lint::{finding_views, Counts, FileResult, FindingView, ResultView, Severity};

verus! {

/// The whole run.
#[derive(Debug)]
pub struct JsonReport {
    pub version: u32,
    pub files: Vec<JsonFile>,
    pub summary: Summary,
}

/// One file. Findings do not store their file -- it is always the enclosing
/// result's path -- so this re-attaches it.
#[derive(Debug)]
pub struct JsonFile {
    pub path: String,
    pub kind: Kind,
    pub tokens: Counts,
    pub score: u8,
    pub findings: Vec<JsonFinding>,
}

/// One finding. A line of 0 is left out of the report.
#[derive(Debug)]
pub struct JsonFinding {
    pub file: String,
    pub line: usize,
    pub rule: &'static str,
    pub severity: Severity,
    pub message: String,
}

pub struct JsonFindingView {
    pub file: Seq<char>,
    pub line: int,
    pub rule: Seq<char>,
    pub severity: Severity,
    pub message: Seq<char>,
}

#[verifier::ext_equal]
pub struct JsonFileView {
    pub path: Seq<char>,
    pub kind: Kind,
    pub tokens: Counts,
    pub score: int,
    pub findings: Seq<JsonFindingView>,
}

#[verifier::ext_equal]
pub struct JsonView {
    pub version: int,
    pub files: Seq<JsonFileView>,
    pub summary: Summary,
}

impl JsonFinding {
    pub open spec fn view(self) -> JsonFindingView {
        JsonFindingView {
            file: self.file@,
            line: self.line as int,
            rule: self.rule@,
            severity: self.severity,
            message: self.message@,
        }
    }
}

impl JsonFile {
    pub open spec fn view(self) -> JsonFileView {
        JsonFileView {
            path: self.path@,
            kind: self.kind,
            tokens: self.tokens,
            score: self.score as int,
            findings: Seq::new(self.findings@.len(), |i: int| self.findings@[i]@),
        }
    }
}

impl JsonReport {
    pub open spec fn view(self) -> JsonView {
        JsonView {
            version: self.version as int,
            files: Seq::new(self.files@.len(), |i: int| self.files@[i]@),
            summary: self.summary,
        }
    }
}

/// A finding, with the path of its file.
pub open spec fn json_finding(path: Seq<char>, f: FindingView) -> JsonFindingView {
    JsonFindingView {
        file: path,
        line: f.line,
        rule: f.rule,
        severity: f.severity,
        message: f.message,
    }
}

/// What the report says of a file.
pub open spec fn json_file(r: ResultView, quiet: bool) -> JsonFileView {
    let shown = reported(r.findings, quiet);
    JsonFileView {
        path: r.path,
        kind: r.kind,
        tokens: r.tokens,
        score: r.score,
        findings: Seq::new(shown.len(), |i: int| json_finding(r.path, shown[i])),
    }
}

/// What the report says of a run.
pub open spec fn json_of(results: Seq<ResultView>, summary: Summary, quiet: bool) -> JsonView {
    JsonView {
        version: SCHEMA_VERSION as int,
        files: Seq::new(results.len(), |i: int| json_file(results[i], quiet)),
        summary,
    }
}

/// Writes the whole run as a single object, sorted by path upstream so the
/// output diffs cleanly between runs.
#[derive(Debug)]
pub struct JsonReporter {
    pub quiet: bool,
}

fn file_entry(r: &FileResult, quiet: bool) -> (f: JsonFile)
    ensures
        f@ == json_file(r@, quiet),
{
    let ghost all = r@.findings;
    let mut out: Vec<JsonFinding> = Vec::new();
    let mut i: usize = 0;
    assert(all.take(0) =~= Seq::empty());
    while i < r.findings.len()
        invariant
            i <= r.findings@.len(),
            all == finding_views(r.findings@),
            out@.len() == reported(all.take(i as int), quiet).len(),
            forall|k: int|
                0 <= k < out@.len() ==> (#[trigger] out@[k])@ == json_finding(
                    r@.path,
                    reported(all.take(i as int), quiet)[k],
                ),
        decreases r.findings@.len() - i,
    {
        let f = &r.findings[i];
        let ghost before = reported(all.take(i as int), quiet);
        proof {
            let next = all.take(i + 1);
            assert(next.drop_last() =~= all.take(i as int));
            assert(next.last() == f@);
        }
        if !(quiet && f.severity == Severity::Warning) {
            out.push(
                JsonFinding {
                    file: r.path.clone(),
                    line: f.line,
                    rule: f.rule,
                    severity: f.severity,
                    message: f.message.clone(),
                },
            );
        }
        i += 1;
    }
    assert(all.take(i as int) =~= all);
    let f = JsonFile {
        path: r.path.clone(),
        kind: r.kind,
        tokens: r.tokens,
        score: r.score,
        findings: out,
    };
    assert(f@ =~= json_file(r@, quiet));
    f
}

impl Report for JsonReporter {
    type Output = JsonReport;

    open spec fn shows(&self, results: Seq<ResultView>, summary: Summary, out: JsonReport) -> bool {
        out@ == json_of(results, summary, self.quiet)
    }

    fn render(&self, results: &[FileResult], summary: &Summary) -> (r: JsonReport) {
        let mut files: Vec<JsonFile> = Vec::new();
        let mut i: usize = 0;
        while i < results.len()
            invariant
                i <= results@.len(),
                files@.len() == i,
                forall|k: int|
                    0 <= k < i ==> (#[trigger] files@[k])@ == json_file(
                        result_views(results@)[k],
                        self.quiet,
                    ),
            decreases results@.len() - i,
        {
            files.push(file_entry(&results[i], self.quiet));
            i += 1;
        }
        let r = JsonReport { version: SCHEMA_VERSION, files, summary: *summary };
        assert(r@ =~= json_of(result_views(results@), *summary, self.quiet));
        r
    }
}

} // verus!
