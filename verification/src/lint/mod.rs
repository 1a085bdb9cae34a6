//! Applies the rules to agent instruction files.

pub mod ids;
pub mod perfect;
pub mod rule;
pub mod rules;
pub mod score;

use vstd::prelude::*;

use self::rules::{ran, references, run_all};
use self::score::{score, score_of};
use crate::config::{Config, ConfigView};
use crate::discover::{Kind, Target, TargetView};
use crate::parse::{
    document_of, lossy_utf8, without_bom, Document, DocumentView, ErrKind, Error, ErrorView,
    Frontmatter,
};
use crate::text::{holds, same, texts, to_chars, to_text, trim, trimmed};
use crate::tokens::{estimate, Counter, Estimator};
use crate::utils::{absolute, clean, cleaned, resolve, up, PathView};

verus! {

/// Limits on the fields of a skill, in characters.
pub const MAX_NAME_CHARS: usize = 64;

pub const MAX_DESCRIPTION_CHARS: usize = 1024;

/// Marks how a finding affects the exit code.
#[derive(Debug, Clone, Copy, PartialEq, Eq, Structural)]
pub enum Severity {
    Error,
    Warning,
}

impl Severity {
    /// The severity as reports name it.
    pub open spec fn label(self) -> Seq<char> {
        match self {
            Severity::Error => "error"@,
            Severity::Warning => "warning"@,
        }
    }

    /// The severity as reports name it.
    pub fn as_str(&self) -> (r: &'static str)
        ensures
            r@ == self.label(),
    {
        match self {
            Severity::Error => "error",
            Severity::Warning => "warning",
        }
    }
}

/// A single rule violation.
///
/// The file is not stored here: it is always the enclosing [`FileResult`]'s
/// path.
#[derive(Debug, Clone)]
pub struct Finding {
    pub line: usize,
    /// Always one of the registry's ids, so it borrows rather than allocates.
    pub rule: &'static str,
    pub severity: Severity,
    pub message: String,
}

pub struct FindingView {
    pub line: int,
    pub rule: Seq<char>,
    pub severity: Severity,
    pub message: Seq<char>,
}

impl Finding {
    pub open spec fn view(self) -> FindingView {
        FindingView {
            line: self.line as int,
            rule: self.rule@,
            severity: self.severity,
            message: self.message@,
        }
    }
}

pub open spec fn finding_views(v: Seq<Finding>) -> Seq<FindingView> {
    Seq::new(v.len(), |i: int| v[i]@)
}

/// The measured token cost of a file's parts.
#[derive(Debug, Clone, Copy)]
pub struct Counts {
    pub content: usize,
    pub name: usize,
    pub description: usize,
}

impl Default for Counts {
    fn default() -> (r: Counts)
        ensures
            r == (Counts { content: 0, name: 0, description: 0 }),
    {
        Counts { content: 0, name: 0, description: 0 }
    }
}

/// What a rule reports.
pub struct Report {
    pub severity: Severity,
    pub line: int,
    pub message: Seq<char>,
}

/// What a rule makes of a file: whether it had anything to judge, and what it
/// reports.
#[verifier::ext_equal]
pub struct Outcome {
    pub applies: bool,
    pub reports: Seq<Report>,
}

impl Outcome {
    /// Nothing to judge.
    pub open spec fn quiet() -> Outcome {
        Outcome { applies: false, reports: Seq::empty() }
    }

    /// Something to judge, and nothing wrong with it.
    pub open spec fn passed() -> Outcome {
        Outcome { applies: true, reports: Seq::empty() }
    }

    /// One violation that fails the build.
    pub open spec fn error(line: int, message: Seq<char>) -> Outcome {
        Outcome { applies: true, reports: seq![Report { severity: Severity::Error, line, message }] }
    }

    /// One stylistic mismatch.
    pub open spec fn warning(line: int, message: Seq<char>) -> Outcome {
        Outcome {
            applies: true,
            reports: seq![Report { severity: Severity::Warning, line, message }],
        }
    }

    /// This outcome followed by another.
    pub open spec fn and(self, more: Outcome) -> Outcome {
        Outcome {
            applies: self.applies || more.applies,
            reports: self.reports + more.reports,
        }
    }
}

/// That a rule ran on a file, and whether it fired.
pub struct MarkView {
    pub rule: Seq<char>,
    pub failed: bool,
}

/// Whether a rule is marked.
pub open spec fn is_marked(list: Seq<MarkView>, rule: Seq<char>) -> bool {
    exists|i: int| 0 <= i < list.len() && (#[trigger] list[i]).rule == rule
}

/// Whether a rule is marked as fired.
pub open spec fn is_failed(list: Seq<MarkView>, rule: Seq<char>) -> bool {
    exists|i: int| 0 <= i < list.len() && (#[trigger] list[i]).rule == rule && list[i].failed
}

/// `list` with a mark for `rule`, once.
pub open spec fn marked(list: Seq<MarkView>, rule: Seq<char>, failed: bool) -> Seq<MarkView> {
    if is_marked(list, rule) {
        Seq::new(
            list.len(),
            |i: int|
                MarkView {
                    rule: list[i].rule,
                    failed: list[i].failed || (failed && list[i].rule == rule),
                },
        )
    } else {
        list.push(MarkView { rule, failed })
    }
}

/// That a rule ran on a file, and whether it fired.
#[derive(Debug)]
pub struct Mark {
    pub rule: &'static str,
    pub failed: bool,
}

impl Mark {
    pub open spec fn view(self) -> MarkView {
        MarkView { rule: self.rule@, failed: self.failed }
    }
}

/// Which rules ran on a file and which of them fired. Tracked per rule id, not
/// per finding, so a rule that reports repeatedly -- an unknown key on every
/// line, a broken link on every line -- still counts once toward the score.
#[derive(Debug)]
pub struct Tally {
    pub marks: Vec<Mark>,
}

impl Tally {
    pub open spec fn view(self) -> Seq<MarkView> {
        Seq::new(self.marks@.len(), |i: int| self.marks@[i]@)
    }

    /// Marks a rule as run, and as fired if it did.
    pub fn mark(&mut self, rule: &'static str, failed: bool)
        ensures
            final(self)@ == marked(old(self)@, rule@, failed),
    {
        let ghost before = self@;
        let mut known = false;
        let mut i: usize = 0;
        while i < self.marks.len()
            invariant
                i <= self.marks@.len(),
                self@.len() == before.len(),
                known == exists|j: int| 0 <= j < i && (#[trigger] before[j]).rule == rule@,
                forall|j: int|
                    0 <= j < before.len() ==> (#[trigger] self@[j]) == (MarkView {
                        rule: before[j].rule,
                        failed: before[j].failed || (j < i && failed && before[j].rule == rule@),
                    }),
            decreases self.marks@.len() - i,
        {
            assert(self@[i as int] == self.marks@[i as int]@);
            if same(self.marks[i].rule, rule) {
                assert(before[i as int].rule == rule@);
                known = true;
                let was = self.marks[i].failed;
                let id = self.marks[i].rule;
                let ghost now = self@;
                self.marks.set(i, Mark { rule: id, failed: was || failed });
                assert(self@ =~= now.update(
                    i as int,
                    MarkView { rule: rule@, failed: was || failed },
                ));
            }
            i += 1;
        }
        if !known {
            assert(self@ =~= before);
            self.marks.push(Mark { rule, failed });
            assert(self@ =~= before.push(MarkView { rule: rule@, failed }));
        } else {
            assert(self@ =~= marked(before, rule@, failed));
        }
    }
}

/// Collects findings for the rule currently running, applying `--strict`.
///
/// The rule id comes from the sink rather than each call site, so a rule
/// cannot file a finding under someone else's id.
#[derive(Debug)]
pub struct FindingSink {
    pub findings: Vec<Finding>,
    pub tally: Tally,
    pub strict: bool,
    pub rule: &'static str,
}

#[verifier::ext_equal]
pub struct SinkView {
    pub findings: Seq<FindingView>,
    pub tally: Seq<MarkView>,
    pub strict: bool,
    pub rule: Seq<char>,
}

/// How severe a report is under `--strict`.
pub open spec fn promoted(severity: Severity, strict: bool) -> Severity {
    if strict {
        Severity::Error
    } else {
        severity
    }
}

impl SinkView {
    /// The findings that reports of the current rule make.
    pub open spec fn filed(self, reports: Seq<Report>) -> Seq<FindingView> {
        Seq::new(
            reports.len(),
            |i: int|
                FindingView {
                    line: reports[i].line,
                    rule: self.rule,
                    severity: promoted(reports[i].severity, self.strict),
                    message: reports[i].message,
                },
        )
    }

    /// The sink after the current rule came to an outcome. A rule that fired
    /// counts as applied, whether or not it said so.
    pub open spec fn after(self, o: Outcome) -> SinkView {
        SinkView {
            findings: self.findings + self.filed(o.reports),
            tally: if o.applies || o.reports.len() > 0 {
                marked(self.tally, self.rule, o.reports.len() > 0)
            } else {
                self.tally
            },
            strict: self.strict,
            rule: self.rule,
        }
    }

    /// Two outcomes one after the other are one outcome.
    pub proof fn lemma_after(self, a: Outcome, b: Outcome)
        ensures
            self.after(a).after(b) == self.after(a.and(b)),
    {
        let one = self.after(a).after(b);
        let two = self.after(a.and(b));
        lemma_marked_twice(self.tally, self.rule, a.reports.len() > 0, b.reports.len() > 0);
        assert(one.findings =~= two.findings);
        assert(one.tally == two.tally);
    }

    /// The outcome of a rule that did nothing changes nothing.
    pub proof fn lemma_quiet(self)
        ensures
            self.after(Outcome::quiet()) == self,
    {
        assert(self.after(Outcome::quiet()) =~= self);
    }
}

proof fn lemma_marked_twice(list: Seq<MarkView>, rule: Seq<char>, a: bool, b: bool)
    ensures
        marked(marked(list, rule, a), rule, b) == marked(list, rule, a || b),
{
    let once = marked(list, rule, a);
    if is_marked(list, rule) {
        let i = choose|i: int| 0 <= i < list.len() && (#[trigger] list[i]).rule == rule;
        assert(once[i].rule == rule);
    } else {
        assert(once[list.len() as int].rule == rule);
        assert forall|i: int| 0 <= i < list.len() implies (#[trigger] once[i]) == list[i]
            && list[i].rule != rule by {}
    }
    assert(marked(once, rule, b) =~= marked(list, rule, a || b));
}

impl FindingSink {
    pub open spec fn view(self) -> SinkView {
        SinkView {
            findings: finding_views(self.findings@),
            tally: self.tally@,
            strict: self.strict,
            rule: self.rule@,
        }
    }

    /// A sink that holds nothing yet.
    pub fn new(strict: bool) -> (r: FindingSink)
        ensures
            r@.findings == Seq::<FindingView>::empty(),
            r@.tally == Seq::<MarkView>::empty(),
            r@.strict == strict,
            r@.rule == ""@,
    {
        let r = FindingSink {
            findings: Vec::new(),
            tally: Tally { marks: Vec::new() },
            strict,
            rule: "",
        };
        assert(r@.findings =~= Seq::empty());
        assert(r@.tally =~= Seq::empty());
        r
    }

    /// Names the rule that runs next.
    pub fn begin(&mut self, rule: &'static str)
        ensures
            final(self)@ == (SinkView { rule: rule@, ..old(self)@ }),
    {
        self.rule = rule;
    }

    /// Records a violation that should fail the build.
    pub fn error(&mut self, line: usize, msg: String)
        ensures
            final(self)@ == old(self)@.after(Outcome::error(line as int, msg@)),
    {
        self.add(Severity::Error, line, msg);
    }

    /// Records a stylistic mismatch. `--strict` promotes it to an error.
    pub fn warn(&mut self, line: usize, msg: String)
        ensures
            final(self)@ == old(self)@.after(Outcome::warning(line as int, msg@)),
    {
        self.add(Severity::Warning, line, msg);
    }

    /// Records that the current rule had something to judge on this file,
    /// whether or not it goes on to fire. A rule that never calls this --
    /// because its precondition never held, the way `allowed-tools.type`
    /// stays quiet when the key is absent -- leaves the score's numerator and
    /// denominator alike, the same way a disabled rule already does by never
    /// running its `check` at all.
    pub fn applies(&mut self)
        ensures
            final(self)@ == old(self)@.after(Outcome::passed()),
    {
        self.tally.mark(self.rule, false);
        assert(self@.findings =~= old(self)@.after(Outcome::passed()).findings);
    }

    fn add(&mut self, severity: Severity, line: usize, msg: String)
        ensures
            final(self)@ == old(self)@.after(
                (Outcome {
                    applies: true,
                    reports: seq![Report { severity, line: line as int, message: msg@ }],
                }),
            ),
    {
        let ghost o = Outcome {
            applies: true,
            reports: seq![Report { severity, line: line as int, message: msg@ }],
        };
        // A rule that fired must be in the denominator too, whether or not the
        // check site remembered to call `applies` first.
        self.tally.mark(self.rule, true);
        let severity = if self.strict {
            Severity::Error
        } else {
            severity
        };
        self.findings.push(Finding { line, rule: self.rule, severity, message: msg });
        assert(self@.findings =~= old(self)@.after(o).findings);
    }
}

/// Everything a rule may look at for one file.
///
/// Rules read the working directory, and which referenced files exist, from
/// here rather than from the process, so a verdict cannot depend on where the
/// binary happened to be run.
pub struct FileContext<'a> {
    pub target: &'a Target,
    pub doc: &'a Document,
    pub tokens: &'a Counts,
    pub cfg: &'a Config,
    pub cwd: &'a str,
    /// Normalized absolute paths that were found to exist.
    pub existing: &'a Vec<String>,
    pub name: Option<String>,
    pub description: Option<String>,
}

#[verifier::ext_equal]
pub struct ContextView {
    pub target: TargetView,
    pub doc: DocumentView,
    pub tokens: Counts,
    pub cfg: ConfigView,
    pub cwd: Seq<char>,
    pub existing: Seq<Seq<char>>,
    pub name: Option<Seq<char>>,
    pub description: Option<Seq<char>>,
}

/// The view of an optional string.
pub open spec fn opt_text(s: Option<String>) -> Option<Seq<char>> {
    match s {
        Some(t) => Some(t@),
        None => None,
    }
}

impl ContextView {
    /// Whether the front matter is usable: present, parsed, and a mapping.
    pub open spec fn has_mapping(self) -> bool {
        self.doc.error is None && self.doc.frontmatter.present
    }

    /// The parse error, when it is of the given kind.
    pub open spec fn error_of(self, kind: ErrKind) -> Option<ErrorView> {
        match self.doc.error {
            Some(e) if e.kind == kind => Some(e),
            _ => None,
        }
    }

    /// The directory holding the file.
    pub open spec fn holding_dir(self) -> PathView {
        let p = absolute(self.cwd, self.target.path);
        PathView { rooted: p.rooted, parts: p.parts.drop_last() }
    }

    /// The name of the directory holding the file, unless that is the working
    /// directory or has no name.
    pub open spec fn skill_dir(self) -> Option<Seq<char>> {
        let dir = self.holding_dir();
        if absolute(self.cwd, self.target.path).parts.len() == 0 || dir == cleaned(self.cwd)
            || dir.parts.len() == 0 || dir.parts.last() == up() {
            None
        } else {
            Some(dir.parts.last())
        }
    }
}

impl<'a> FileContext<'a> {
    pub open spec fn wf(self) -> bool {
        self.doc.wf()
    }

    pub open spec fn view(self) -> ContextView {
        ContextView {
            target: self.target@,
            doc: self.doc@,
            tokens: *self.tokens,
            cfg: self.cfg@,
            cwd: self.cwd@,
            existing: texts(self.existing@),
            name: opt_text(self.name),
            description: opt_text(self.description),
        }
    }

    /// The front matter, but only when it is usable: present, parsed, and a
    /// mapping. Rules that read keys go through this, so a malformed block
    /// short-circuits all of them the same way.
    pub fn frontmatter(&self) -> (r: Option<&Frontmatter>)
        requires
            self.wf(),
        ensures
            r is Some <==> self@.has_mapping(),
            r matches Some(fm) ==> fm.wf() && fm@ == self@.doc.frontmatter,
    {
        self.doc.mapping()
    }

    /// The skill's name: `Some` only when present and non-empty after
    /// trimming. That is what keeps `name.format` and friends quiet while
    /// `name.required` fires, without any rule knowing about the others.
    pub fn name(&self) -> (r: Option<&str>)
        ensures
            self@.name == (match r {
                Some(s) => Some(s@),
                None => None,
            }),
    {
        match &self.name {
            Some(s) => Some(s.as_str()),
            None => None,
        }
    }

    /// The skill's description, under the same rule as [`Self::name`].
    pub fn description(&self) -> (r: Option<&str>)
        ensures
            self@.description == (match r {
                Some(s) => Some(s@),
                None => None,
            }),
    {
        match &self.description {
            Some(s) => Some(s.as_str()),
            None => None,
        }
    }

    /// The parse error, when it is of the given kind.
    pub fn error_of(&self, kind: ErrKind) -> (r: Option<&Error>)
        ensures
            self@.error_of(kind) == (match r {
                Some(e) => Some(e@),
                None => None,
            }),
    {
        match &self.doc.error {
            Some(e) => if e.kind == kind {
                Some(e)
            } else {
                None
            },
            None => None,
        }
    }

    /// Joins `path` onto the working directory when relative and lexically
    /// normalizes it, without touching the filesystem or resolving symlinks.
    pub fn abs_path(&self, path: &str) -> (r: String)
        ensures
            r@ == absolute(self@.cwd, path@).text(),
    {
        resolve(self.cwd, path).text()
    }

    /// The name of the directory holding the skill file, or `None` when there
    /// is no meaningful directory to match the name against: a loose skill
    /// file in the working directory is named after the project, not the
    /// skill.
    pub fn skill_dir(&self) -> (r: Option<String>)
        ensures
            self@.skill_dir() == opt_text(r),
    {
        let abs = resolve(self.cwd, self.target.path.as_str());
        let Some(dir) = abs.parent() else {
            return None;
        };
        assert(dir@ == self@.holding_dir());
        if dir.same(&clean(self.cwd)) {
            return None;
        }
        let n: usize = dir.parts.len();
        if n == 0 {
            return None;
        }
        let last = dir.parts[n - 1].as_slice();
        assert(dir@.parts.last() == last@);
        assert(last@ =~= up() <==> last@.len() == 2 && last@[0] == '.' && last@[1] == '.');
        if last.len() == 2 && last[0] == '.' && last[1] == '.' {
            return None;
        }
        Some(to_text(last))
    }
}

/// Everything learned about one file.
#[derive(Debug, Clone)]
pub struct FileResult {
    pub path: String,
    pub kind: Kind,
    pub tokens: Counts,
    /// How well the file rates, 0 to 100.
    pub score: u8,
    pub findings: Vec<Finding>,
}

#[verifier::ext_equal]
pub struct ResultView {
    pub path: Seq<char>,
    pub kind: Kind,
    pub tokens: Counts,
    pub score: int,
    pub findings: Seq<FindingView>,
}

/// How many findings have a severity.
pub open spec fn severity_count(findings: Seq<FindingView>, severity: Severity) -> int
    decreases findings.len(),
{
    if findings.len() == 0 {
        0
    } else {
        severity_count(findings.drop_last(), severity) + if findings.last().severity == severity {
            1int
        } else {
            0
        }
    }
}

impl FileResult {
    pub open spec fn view(self) -> ResultView {
        ResultView {
            path: self.path@,
            kind: self.kind,
            tokens: self.tokens,
            score: self.score as int,
            findings: finding_views(self.findings@),
        }
    }

    pub fn errors(&self) -> (r: usize)
        ensures
            r == severity_count(self@.findings, Severity::Error),
    {
        self.count(Severity::Error)
    }

    pub fn warnings(&self) -> (r: usize)
        ensures
            r == severity_count(self@.findings, Severity::Warning),
    {
        self.count(Severity::Warning)
    }

    fn count(&self, s: Severity) -> (r: usize)
        ensures
            r == severity_count(self@.findings, s),
            r <= self.findings@.len(),
    {
        let ghost all = self@.findings;
        let mut n: usize = 0;
        let mut i: usize = 0;
        assert(all.take(0) =~= Seq::empty());
        while i < self.findings.len()
            invariant
                i <= self.findings@.len(),
                n <= i,
                all == finding_views(self.findings@),
                n == severity_count(all.take(i as int), s),
            decreases self.findings@.len() - i,
        {
            proof {
                let next = all.take(i + 1);
                assert(next.drop_last() =~= all.take(i as int));
                assert(next.last() == self.findings@[i as int]@);
            }
            if self.findings[i].severity == s {
                n += 1;
            }
            i += 1;
        }
        assert(all.take(i as int) =~= all);
        n
    }
}

/// A front-matter scalar without the white space around it, unless nothing is
/// left.
pub open spec fn non_empty_of(raw: Option<Seq<char>>) -> Option<Seq<char>> {
    match raw {
        Some(s) if trim(s).len() > 0 => Some(trim(s)),
        _ => None,
    }
}

/// Trims a front-matter scalar, discarding it when nothing is left.
fn non_empty(raw: Option<String>) -> (r: Option<String>)
    ensures
        opt_text(r) == non_empty_of(opt_text(raw)),
{
    let Some(s) = raw else {
        return None;
    };
    let chars = to_chars(s.as_str());
    let kept = trimmed(chars.as_slice());
    if kept.len() == 0 {
        None
    } else {
        Some(to_text(kept))
    }
}

/// What the linter reads from a front-matter key: only a skill has a name and
/// description to be judged.
pub open spec fn skill_field(kind: Kind, doc: DocumentView, key: Seq<char>) -> Option<Seq<char>> {
    if kind == Kind::Skill && doc.error is None && doc.frontmatter.present {
        non_empty_of(doc.frontmatter.string(key))
    } else {
        None
    }
}

/// How many tokens an optional text costs.
pub open spec fn cost(tokens: spec_fn(Seq<char>) -> nat, text: Option<Seq<char>>) -> nat {
    match text {
        Some(s) => tokens(s),
        None => 0,
    }
}

/// Everything the rules may look at for one file.
pub open spec fn context_of(
    cfg: ConfigView,
    cwd: Seq<char>,
    tokens: spec_fn(Seq<char>) -> nat,
    target: TargetView,
    doc: DocumentView,
    existing: Seq<Seq<char>>,
) -> ContextView {
    let name = skill_field(target.kind, doc, "name"@);
    let description = skill_field(target.kind, doc, "description"@);
    ContextView {
        target,
        doc,
        tokens: Counts {
            content: tokens(doc.body) as usize,
            name: cost(tokens, name) as usize,
            description: cost(tokens, description) as usize,
        },
        cfg,
        cwd,
        existing,
        name,
        description,
    }
}

/// The sink before any rule ran.
pub open spec fn fresh_sink(strict: bool) -> SinkView {
    SinkView { findings: Seq::empty(), tally: Seq::empty(), strict, rule: ""@ }
}

/// The sink after every rule ran on a file.
pub open spec fn sink_of(ctx: ContextView) -> SinkView {
    ran(ctx, ctx.cfg.disabled, fresh_sink(ctx.cfg.strict), ids::ids().len() as int)
}

/// What is learned about a file.
pub open spec fn result_of(ctx: ContextView) -> ResultView {
    ResultView {
        path: ctx.target.path,
        kind: ctx.target.kind,
        tokens: ctx.tokens,
        score: score_of(ctx.tokens, ctx.cfg, ctx.target.kind, sink_of(ctx).tally),
        findings: sink_of(ctx).findings,
    }
}

/// Applies a configuration's rules using a token counter.
pub struct Linter<C: Counter> {
    cfg: Config,
    /// `None` falls back to the heuristic estimator.
    counter: Option<C>,
    /// Rules read this through their context instead of asking the process.
    cwd: String,
}

impl<C: Counter> Linter<C> {
    pub closed spec fn config(&self) -> ConfigView {
        self.cfg@
    }

    pub closed spec fn dir(&self) -> Seq<char> {
        self.cwd@
    }

    /// How many tokens a text is counted as.
    pub closed spec fn tokens(&self) -> spec_fn(Seq<char>) -> nat {
        |s: Seq<char>|
            match self.counter {
                Some(c) => c.tokens(s),
                None => estimate(s),
            }
    }

    /// The context in which a parsed file is judged.
    pub open spec fn context(
        &self,
        target: TargetView,
        doc: DocumentView,
        existing: Seq<Seq<char>>,
    ) -> ContextView {
        context_of(self.config(), self.dir(), self.tokens(), target, doc, existing)
    }

    /// Returns a Linter that treats `cwd` as the working directory, so the one
    /// rule that cares can be tested without mutating process-global state
    /// while other tests run alongside it. `None` for `counter` falls back to
    /// the heuristic estimator.
    pub fn with_cwd(cfg: Config, counter: Option<C>, cwd: String) -> (r: Linter<C>)
        ensures
            r.config() == cfg@,
            r.dir() == cwd@,
            forall|s: Seq<char>| #[trigger]
                r.tokens()(s) == (match counter {
                    Some(c) => c.tokens(s),
                    None => estimate(s),
                }),
    {
        Linter { cfg, counter, cwd }
    }

    fn count(&self, text: &str) -> (r: usize)
        ensures
            r == self.tokens()(text@),
    {
        match &self.counter {
            Some(c) => c.count(text),
            None => Estimator::new().count(text),
        }
    }

    fn measure(&self, text: &Option<String>) -> (r: usize)
        ensures
            r == cost(self.tokens(), opt_text(*text)),
    {
        match text {
            Some(s) => self.count(s.as_str()),
            None => 0,
        }
    }

    /// Lints already-read file contents, given which of the files that
    /// [`Linter::references`] names exist.
    ///
    /// Rules run in registry order, so findings come out in that order without
    /// a sort: output never depends on the order checks happen to run in.
    pub fn check(&self, t: &Target, src: &[u8], existing: &Vec<String>) -> (r: FileResult)
        ensures
            r@ == result_of(
                self.context(
                    t@,
                    document_of(without_bom(lossy_utf8(src@))),
                    texts(existing@),
                ),
            ),
    {
        let doc = Document::parse(src);
        self.check_document(t, &doc, existing)
    }

    /// Lints a parsed file.
    pub fn check_document(&self, t: &Target, doc: &Document, existing: &Vec<String>) -> (r:
        FileResult)
        requires
            doc.wf(),
        ensures
            r@ == result_of(self.context(t@, doc@, texts(existing@))),
    {
        let (name, description) = skill_fields(t.kind, doc);
        let tokens = Counts {
            content: self.count(doc.body.as_str()),
            name: self.measure(&name),
            description: self.measure(&description),
        };
        let ctx = FileContext {
            target: t,
            doc,
            tokens: &tokens,
            cfg: &self.cfg,
            cwd: self.cwd.as_str(),
            existing,
            name,
            description,
        };
        assert(ctx@ == self.context(t@, doc@, texts(existing@)));
        let mut sink = FindingSink::new(self.cfg.strict);
        assert(sink@ =~= fresh_sink(self.cfg.strict));
        run_all(&ctx, &self.cfg.disabled, &mut sink);
        proof {
            lemma_ran_marks(
                ctx@,
                ctx@.cfg.disabled,
                fresh_sink(self.cfg.strict),
                ids::ids().len() as int,
            );
        }
        FileResult {
            path: t.path.clone(),
            kind: t.kind,
            score: score(&tokens, &self.cfg, t.kind, &sink.tally),
            tokens,
            findings: sink.findings,
        }
    }

    /// The files a target refers to that have to be looked up before it is
    /// linted: none outside the tree it was found under, and none at all when
    /// the rule is switched off.
    pub fn references(&self, t: &Target, src: &[u8]) -> (r: Vec<String>)
        ensures
            texts(r@) == looked_up(
                self.context(t@, document_of(without_bom(lossy_utf8(src@))), Seq::empty()),
            ),
    {
        let doc = Document::parse(src);
        self.document_references(t, &doc)
    }

    /// The files a parsed target refers to that have to be looked up.
    pub fn document_references(&self, t: &Target, doc: &Document) -> (r: Vec<String>)
        requires
            doc.wf(),
        ensures
            texts(r@) == looked_up(self.context(t@, doc@, Seq::empty())),
    {
        let mut out: Vec<String> = Vec::new();
        if holds(&self.cfg.disabled, ids::RULE_FILE_REFERENCE_MISSING) {
            assert(texts(out@) =~= Seq::empty());
            return out;
        }
        let (name, description) = skill_fields(t.kind, doc);
        let tokens = Counts {
            content: self.count(doc.body.as_str()),
            name: self.measure(&name),
            description: self.measure(&description),
        };
        let existing: Vec<String> = Vec::new();
        let ctx = FileContext {
            target: t,
            doc,
            tokens: &tokens,
            cfg: &self.cfg,
            cwd: self.cwd.as_str(),
            existing: &existing,
            name,
            description,
        };
        assert(texts(existing@) =~= Seq::empty());
        assert(ctx@ == self.context(t@, doc@, Seq::empty()));
        let list = references::references(&ctx);
        let mut i: usize = 0;
        while i < list.len()
            invariant
                i <= list@.len(),
                out@.len() == i,
                forall|j: int| 0 <= j < i ==> (#[trigger] out@[j])@ == list@[j]@.path.text(),
            decreases list@.len() - i,
        {
            let text = list[i].path.text();
            out.push(text);
            i += 1;
        }
        assert(texts(out@) =~= looked_up(ctx@));
        out
    }
}

/// The normalized paths of the files a target refers to.
pub open spec fn looked_up(ctx: ContextView) -> Seq<Seq<char>> {
    if ctx.cfg.disabled.contains(ids::RULE_FILE_REFERENCE_MISSING@) {
        Seq::empty()
    } else {
        let refs = references::references_of(ctx);
        Seq::new(refs.len(), |i: int| refs[i].path.text())
    }
}

/// The name and description the linter reads.
fn skill_fields(kind: Kind, doc: &Document) -> (r: (Option<String>, Option<String>))
    requires
        doc.wf(),
    ensures
        opt_text(r.0) == skill_field(kind, doc@, "name"@),
        opt_text(r.1) == skill_field(kind, doc@, "description"@),
{
    if kind != Kind::Skill {
        return (None, None);
    }
    match doc.mapping() {
        Some(fm) => (non_empty(fm.string("name")), non_empty(fm.string("description"))),
        None => (None, None),
    }
}

/// At most one mark is made for every rule that runs.
proof fn lemma_ran_marks(ctx: ContextView, disabled: Seq<Seq<char>>, start: SinkView, n: int)
    requires
        0 <= n,
    ensures
        ran(ctx, disabled, start, n).tally.len() <= start.tally.len() + n,
    decreases n,
{
    if n > 0 {
        lemma_ran_marks(ctx, disabled, start, n - 1);
    }
}

} // verus!
