//! One run of the linter, as a conversation with the outside.
//!
//! A run asks for what it needs -- a config file, a look at some paths, the
//! contents of a file -- and goes on with the reply, until it has its output.

use vstd::prelude::*;

use crate::cli::{
    check_rule_names, disable_fault, id_lines, lemma_default_path, lemma_no_path, list_rules,
    only_flags, parse_args, parsed, resolve, resolve_color, resolved, usage, usage_text,
    wants_color, Flags, FlagsView, ParseOutcome, ParsedView, Resolved, ResolvedView, EXIT_FINDINGS,
    EXIT_OK, EXIT_USAGE, VERSION,
};
use crate::config::{
    candidates, candidates_of, discover, first_in, parse as parse_config, settings_of, unreadable as
    unreadable_config, Config, ConfigView, Settings, SettingsView,
};
use crate::discover::{
    argument_views, cannot_read, find, found, target_views, unreadable, Argument, ArgumentView,
    Target, TargetView,
};
use crate::lint::ids::ids;
use crate::lint::{
    context_of, looked_up, result_of, ContextView, FileResult, Linter, ResultView, Severity,
};
use crate::parse::{document_of, lossy_utf8, without_bom};
use crate::report::json::{json_of, JsonReport, JsonReporter, JsonView};
use crate::report::text::{text_of, TextReporter};
use crate::report::{has, lemma_files_with, result_views, summarize, summary_of, Report};
use crate::text::{debug_text, quoted, same, texts, to_chars};
use crate::tokens::{estimate, Estimator};
use crate::utils::{slashed, to_slash};
use crate::yaml::yaml;

verus! {

/// What a run knows of the process it is part of.
#[derive(Debug)]
pub struct Surroundings {
    pub cwd: String,
    /// Whether `NO_COLOR` is set.
    pub no_color: bool,
    /// The value of `CLICOLOR_FORCE`.
    pub force_color: Option<String>,
    /// Whether the output goes to a terminal.
    pub is_terminal: bool,
}

pub struct SurroundingsView {
    pub cwd: Seq<char>,
    pub no_color: bool,
    pub force_color: Option<Seq<char>>,
    pub is_terminal: bool,
}

impl Surroundings {
    pub open spec fn view(self) -> SurroundingsView {
        SurroundingsView {
            cwd: self.cwd@,
            no_color: self.no_color,
            force_color: match self.force_color {
                Some(s) => Some(s@),
                None => None,
            },
            is_terminal: self.is_terminal,
        }
    }
}

/// What a run shows on its standard output.
#[derive(Debug)]
pub enum Shown {
    Nothing,
    /// What a run says of itself: its version or its rules.
    Notice(String),
    /// A report as text.
    Text(String),
    /// A report as JSON.
    Json(JsonReport),
}

/// How a run ends.
#[derive(Debug)]
pub struct Output {
    pub shown: Shown,
    /// What goes to standard error.
    pub errors: String,
    pub code: i32,
}

pub enum ShownView {
    Nothing,
    Notice(Seq<char>),
    Text(Seq<char>),
    Json(JsonView),
}

pub struct OutputView {
    pub shown: ShownView,
    pub errors: Seq<char>,
    pub code: i32,
}

impl Output {
    pub open spec fn view(self) -> OutputView {
        OutputView {
            shown: match self.shown {
                Shown::Nothing => ShownView::Nothing,
                Shown::Notice(s) => ShownView::Notice(s@),
                Shown::Text(s) => ShownView::Text(s@),
                Shown::Json(j) => ShownView::Json(j@),
            },
            errors: self.errors@,
            code: self.code,
        }
    }
}

/// What a run needs next.
#[derive(Debug)]
pub enum Action {
    /// Read this config file.
    ReadConfig(String),
    /// Tell which of these are files.
    WhichFiles(Vec<String>),
    /// Look at these paths, and into the directories that the excludes do not
    /// prune.
    Look { paths: Vec<String>, excludes: Vec<String> },
    /// Read this file.
    ReadFile(String),
    /// Tell which of these exist.
    WhichExist(Vec<String>),
    /// Show this and end.
    Finish(Output),
}

/// A reply from outside.
#[derive(Debug)]
pub enum Event {
    /// The text of a config file, or why it cannot be read.
    Config(Result<String, String>),
    /// Those of the paths asked for that are there.
    Present(Vec<String>),
    /// What stands at the paths.
    Seen(Vec<Argument>),
    /// The contents of a file, or why it cannot be read.
    File(Result<Vec<u8>, String>),
}

pub enum ActionView {
    ReadConfig(Seq<char>),
    WhichFiles(Seq<Seq<char>>),
    Look { paths: Seq<Seq<char>>, excludes: Seq<Seq<char>> },
    ReadFile(Seq<char>),
    WhichExist(Seq<Seq<char>>),
    Finish(OutputView),
}

pub enum EventView {
    Config(Result<Seq<char>, Seq<char>>),
    Present(Seq<Seq<char>>),
    Seen(Seq<ArgumentView>),
    File(Result<Seq<u8>, Seq<char>>),
}

impl Action {
    pub open spec fn view(self) -> ActionView {
        match self {
            Action::ReadConfig(s) => ActionView::ReadConfig(s@),
            Action::WhichFiles(v) => ActionView::WhichFiles(texts(v@)),
            Action::Look { paths, excludes } => ActionView::Look {
                paths: texts(paths@),
                excludes: texts(excludes@),
            },
            Action::ReadFile(s) => ActionView::ReadFile(s@),
            Action::WhichExist(v) => ActionView::WhichExist(texts(v@)),
            Action::Finish(o) => ActionView::Finish(o@),
        }
    }
}

impl Event {
    pub open spec fn view(self) -> EventView {
        match self {
            Event::Config(Ok(s)) => EventView::Config(Ok(s@)),
            Event::Config(Err(m)) => EventView::Config(Err(m@)),
            Event::Present(v) => EventView::Present(texts(v@)),
            Event::Seen(v) => EventView::Seen(argument_views(v@)),
            Event::File(Ok(b)) => EventView::File(Ok(b@)),
            Event::File(Err(m)) => EventView::File(Err(m@)),
        }
    }
}

/// The token counts of a run.
pub open spec fn counter() -> spec_fn(Seq<char>) -> nat {
    |s: Seq<char>| estimate(s)
}

/// How far a run has come with its files.
pub struct Work {
    linter: Linter<Estimator>,
    format: String,
    color: String,
    quiet: bool,
    targets: Vec<Target>,
    /// The target it is at.
    at: usize,
    results: Vec<FileResult>,
    errors: String,
}

#[verifier::ext_equal]
pub struct WorkView {
    pub config: ConfigView,
    pub format: Seq<char>,
    pub color: Seq<char>,
    pub quiet: bool,
    pub targets: Seq<TargetView>,
    pub at: int,
    pub results: Seq<ResultView>,
    pub errors: Seq<char>,
}

impl Work {
    pub closed spec fn view(self) -> WorkView {
        WorkView {
            config: self.linter.config(),
            format: self.format@,
            color: self.color@,
            quiet: self.quiet,
            targets: target_views(self.targets@),
            at: self.at as int,
            results: result_views(self.results@),
            errors: self.errors@,
        }
    }

    /// The linter counts as every run does, from the directory of the run.
    pub closed spec fn wf(self, cwd: Seq<char>) -> bool {
        &&& self.linter.tokens() == counter()
        &&& self.linter.dir() == cwd
        &&& self.at <= self.targets@.len()
    }
}

/// Where a run stands.
pub enum Stage {
    /// Waiting for the config file at a path.
    Config(Flags, String),
    /// Waiting to hear where a config file is.
    Search(Flags),
    /// Waiting for what stands at the paths.
    Look(Resolved),
    /// Waiting for the contents of a target.
    Read(Work),
    /// Waiting to hear which of a target's references exist.
    Refer(Work, Vec<u8>),
    End,
}

pub enum StageView {
    Config(FlagsView, Seq<char>),
    Search(FlagsView),
    Look(ResolvedView),
    Read(WorkView),
    Refer(WorkView, Seq<u8>),
    End,
}

impl Stage {
    pub open spec fn view(self) -> StageView {
        match self {
            Stage::Config(f, path) => StageView::Config(f@, path@),
            Stage::Search(f) => StageView::Search(f@),
            Stage::Look(r) => StageView::Look(r@),
            Stage::Read(w) => StageView::Read(w@),
            Stage::Refer(w, src) => StageView::Refer(w@, src@),
            Stage::End => StageView::End,
        }
    }

    pub open spec fn wf(self, cwd: Seq<char>) -> bool {
        match self {
            Stage::Read(w) => w.wf(cwd) && w@.at < w@.targets.len(),
            Stage::Refer(w, _) => w.wf(cwd) && w@.at < w@.targets.len(),
            _ => true,
        }
    }
}

/// Whether an event is the reply a stage waits for.
pub open spec fn awaits(stage: StageView, event: EventView) -> bool {
    match stage {
        StageView::Config(..) => event is Config,
        StageView::Search(_) => event is Present,
        StageView::Look(_) => event is Seen,
        StageView::Read(_) => event is File,
        StageView::Refer(..) => event is Present,
        StageView::End => false,
    }
}

/// A line on standard error.
pub open spec fn complaint(msg: Seq<char>) -> Seq<char> {
    "lintmatter: "@ + msg + "\n"@
}

pub open spec fn ended(shown: ShownView, errors: Seq<char>, code: i32) -> (StageView, ActionView) {
    (StageView::End, ActionView::Finish(OutputView { shown, errors, code }))
}

/// A run that could not happen.
pub open spec fn refused(msg: Seq<char>) -> (StageView, ActionView) {
    ended(ShownView::Nothing, complaint(msg), EXIT_USAGE)
}

/// A run whose settings are known, unless they ask for an output it does not
/// have.
pub open spec fn planned(f: FlagsView, cfg: SettingsView) -> (StageView, ActionView) {
    let plan = resolved(f, cfg);
    if plan.format != "text"@ && plan.format != "json"@ {
        refused("unknown format "@ + debug_text(plan.format) + ": want text or json"@)
    } else if plan.color != "auto"@ && plan.color != "always"@ && plan.color != "never"@ {
        refused("unknown color "@ + debug_text(plan.color) + ": want auto, always, or never"@)
    } else {
        (StageView::Look(plan), ActionView::Look { paths: plan.paths, excludes: plan.excludes })
    }
}

/// How a run starts. The config file is the one named by `--config`, or the
/// nearest at or above the working directory. `--no-config` skips the search.
pub open spec fn started(args: Seq<Seq<char>>, around: SurroundingsView) -> (StageView, ActionView) {
    match parsed(args) {
        ParsedView::Help => ended(ShownView::Nothing, usage_text(), EXIT_OK),
        ParsedView::Fault(m) => ended(
            ShownView::Nothing,
            complaint(m) + usage_text(),
            EXIT_USAGE,
        ),
        ParsedView::Flags(f) => if f.show_version {
            ended(
                ShownView::Notice("lintmatter "@ + VERSION@ + "\n"@),
                Seq::empty(),
                EXIT_OK,
            )
        } else if f.list_rules {
            ended(ShownView::Notice(id_lines(ids())), Seq::empty(), EXIT_OK)
        } else {
            match disable_fault(f.disabled) {
                Some(m) => refused(m),
                None => configured(f, around.cwd),
            }
        },
    }
}

/// How a run gets its config file.
pub open spec fn configured(f: FlagsView, cwd: Seq<char>) -> (StageView, ActionView) {
    match f.config {
        Some(path) => if f.no_config {
            refused("--config and --no-config cannot be used together"@)
        } else {
            (StageView::Config(f, path), ActionView::ReadConfig(path))
        },
        None => if f.no_config {
            planned(f, SettingsView::unset())
        } else {
            (
                StageView::Search(f),
                ActionView::WhichFiles(candidates_of(cwd)),
            )
        },
    }
}

/// A run goes on to its next target, or to its end.
pub open spec fn advanced(w: WorkView, around: SurroundingsView) -> (StageView, ActionView) {
    if 0 <= w.at < w.targets.len() {
        (StageView::Read(w), ActionView::ReadFile(w.targets[w.at].path))
    } else {
        let summary = summary_of(w.results);
        ended(
            if w.format == "json"@ {
                ShownView::Json(json_of(w.results, summary, w.quiet))
            } else {
                ShownView::Text(
                    text_of(
                        w.quiet,
                        wants_color(
                            w.color,
                            around.no_color,
                            around.force_color,
                            around.is_terminal,
                        ),
                        w.results,
                        summary,
                    ),
                )
            },
            w.errors,
            if summary.files_with_errors > 0 || w.errors.len() > 0 {
                EXIT_FINDINGS
            } else {
                EXIT_OK
            },
        )
    }
}

/// The context in which the target a run is at is judged.
pub open spec fn judged(
    w: WorkView,
    src: Seq<u8>,
    existing: Seq<Seq<char>>,
    cwd: Seq<char>,
) -> ContextView {
    context_of(
        w.config,
        cwd,
        counter(),
        w.targets[w.at],
        document_of(without_bom(lossy_utf8(src))),
        existing,
    )
}

/// How a run goes on.
pub open spec fn next(stage: StageView, event: EventView, around: SurroundingsView) -> (
    StageView,
    ActionView,
) {
    match (stage, event) {
        (StageView::Config(f, path), EventView::Config(Err(reason))) => refused(
            "cannot read config "@ + path + ": "@ + reason,
        ),
        (StageView::Config(f, path), EventView::Config(Ok(src))) => match settings_of(
            yaml(src),
            slashed(path),
        ) {
            Err(m) => refused(m),
            Ok(cfg) => planned(f, cfg),
        },
        (StageView::Search(f), EventView::Present(files)) => match first_in(
            candidates_of(around.cwd),
            files,
        ) {
            Some(path) => (StageView::Config(f, path), ActionView::ReadConfig(path)),
            None => planned(f, SettingsView::unset()),
        },
        (StageView::Look(plan), EventView::Seen(args)) => match found(
            args,
            plan.excludes,
            around.cwd,
        ) {
            Err(m) => refused(m),
            Ok(targets) => advanced(
                WorkView {
                    config: plan.config,
                    format: plan.format,
                    color: plan.color,
                    quiet: plan.quiet,
                    targets,
                    at: 0,
                    results: Seq::empty(),
                    errors: Seq::empty(),
                },
                around,
            ),
        },
        // A file that cannot be read is named, and the others are still
        // checked.
        (StageView::Read(w), EventView::File(Err(reason))) => advanced(
            WorkView {
                at: w.at + 1,
                errors: w.errors + complaint(cannot_read(w.targets[w.at].path, reason)),
                ..w
            },
            around,
        ),
        (StageView::Read(w), EventView::File(Ok(src))) => (
            StageView::Refer(w, src),
            ActionView::WhichExist(looked_up(judged(w, src, Seq::empty(), around.cwd))),
        ),
        (StageView::Refer(w, src), EventView::Present(existing)) => advanced(
            WorkView {
                at: w.at + 1,
                results: w.results.push(result_of(judged(w, src, existing, around.cwd))),
                ..w
            },
            around,
        ),
        _ => (StageView::End, arbitrary()),
    }
}

fn end(shown: Shown, errors: String, code: i32) -> (r: (Stage, Action))
    ensures
        r.0 is End,
        r.1 matches Action::Finish(o) && o == (Output { shown, errors, code }),
{
    (Stage::End, Action::Finish(Output { shown, errors, code }))
}

fn complain(msg: &str) -> (r: String)
    ensures
        r@ == complaint(msg@),
{
    let mut m = "lintmatter: ".to_string();
    m.append(msg);
    m.append("\n");
    m
}

fn refuse(msg: &str) -> (r: (Stage, Action))
    ensures
        (r.0@, r.1@) == refused(msg@),
        forall|cwd: Seq<char>| r.0.wf(cwd),
{
    end(Shown::Nothing, complain(msg), EXIT_USAGE)
}

fn copy_list(list: &Vec<String>) -> (r: Vec<String>)
    ensures
        texts(r@) == texts(list@),
{
    let mut out: Vec<String> = Vec::new();
    let mut i: usize = 0;
    while i < list.len()
        invariant
            i <= list@.len(),
            out@.len() == i,
            forall|j: int| 0 <= j < i ==> (#[trigger] out@[j])@ == list@[j]@,
        decreases list@.len() - i,
    {
        out.push(list[i].clone());
        i += 1;
    }
    assert(texts(out@) =~= texts(list@));
    out
}

/// Settles what the run is to do.
fn plan(f: Flags, cfg: Settings) -> (r: (Stage, Action))
    ensures
        (r.0@, r.1@) == planned(f@, cfg@),
        forall|cwd: Seq<char>| r.0.wf(cwd),
{
    let plan = resolve(f, cfg);
    if !same(plan.format.as_str(), "text") && !same(plan.format.as_str(), "json") {
        let mut m = "unknown format ".to_string();
        m.append(quoted(plan.format.as_str()).as_str());
        m.append(": want text or json");
        return refuse(m.as_str());
    }
    let color = plan.color.as_str();
    if !same(color, "auto") && !same(color, "always") && !same(color, "never") {
        let mut m = "unknown color ".to_string();
        m.append(quoted(color).as_str());
        m.append(": want auto, always, or never");
        return refuse(m.as_str());
    }
    let action = Action::Look {
        paths: copy_list(&plan.paths),
        excludes: copy_list(&plan.excludes),
    };
    (Stage::Look(plan), action)
}

/// Finds the config file for this run: the one named by `--config`, or the
/// nearest `.lintmatter.yaml` at or above the working directory. `--no-config`
/// skips the search, and finding nothing is not an error.
fn load_config(f: Flags, cwd: &str) -> (r: (Stage, Action))
    ensures
        (r.0@, r.1@) == configured(f@, cwd@),
        forall|d: Seq<char>| r.0.wf(d),
{
    let named = match &f.config {
        Some(path) => Some(path.clone()),
        None => None,
    };
    match named {
        Some(path) => {
            if f.no_config {
                return refuse("--config and --no-config cannot be used together");
            }
            (Stage::Config(f, path.clone()), Action::ReadConfig(path))
        },
        None => {
            if f.no_config {
                return plan(f, Settings::default());
            }
            (Stage::Search(f), Action::WhichFiles(candidates(cwd)))
        },
    }
}

/// Starts a run.
pub fn start(args: &[String], around: &Surroundings) -> (r: (Stage, Action))
    ensures
        (r.0@, r.1@) == started(texts(args@), around@),
        r.0.wf(around@.cwd),
{
    let f = match parse_args(args) {
        ParseOutcome::Flags(f) => f,
        ParseOutcome::Help => return end(Shown::Nothing, usage(), EXIT_OK),
        ParseOutcome::Fault(m) => {
            let mut errors = complain(m.as_str());
            errors.append(usage().as_str());
            return end(Shown::Nothing, errors, EXIT_USAGE);
        },
    };
    let none = String::new();
    assert(none@ =~= Seq::empty());
    if f.show_version {
        let mut out = "lintmatter ".to_string();
        out.append(VERSION);
        out.append("\n");
        return end(Shown::Notice(out), none, EXIT_OK);
    }
    if f.list_rules {
        return end(Shown::Notice(list_rules()), none, EXIT_OK);
    }
    // Typos in --disable are caught before the config file is read so the
    // error names the flag the user just typed.
    if let Some(m) = check_rule_names(&f.disabled) {
        return refuse(m.as_str());
    }
    load_config(f, around.cwd.as_str())
}

/// Goes on to the next target, or to the end.
fn advance(w: Work, around: &Surroundings) -> (r: (Stage, Action))
    requires
        w.wf(around@.cwd),
    ensures
        (r.0@, r.1@) == advanced(w@, around@),
        r.0.wf(around@.cwd),
{
    if w.at < w.targets.len() {
        let path = w.targets[w.at].path.clone();
        assert(w@.targets[w@.at] == w.targets@[w.at as int]@);
        return (Stage::Read(w), Action::ReadFile(path));
    }
    // Summarized once and handed to the reporter, rather than each reporter
    // recomputing it and the exit code recomputing it again.
    let results = w.results.as_slice();
    let summary = summarize(results);
    let shown = if same(w.format.as_str(), "json") {
        Shown::Json(JsonReporter { quiet: w.quiet }.render(results, &summary))
    } else {
        let color = resolve_color(
            w.color.as_str(),
            around.no_color,
            &around.force_color,
            around.is_terminal,
        );
        Shown::Text(TextReporter { quiet: w.quiet, color }.render(results, &summary))
    };
    let code = if summary.files_with_errors > 0 || to_chars(w.errors.as_str()).len() > 0 {
        EXIT_FINDINGS
    } else {
        EXIT_OK
    };
    end(shown, w.errors, code)
}

/// Begins with the targets of a run.
fn begin_work(plan: Resolved, targets: Vec<Target>, cwd: &str) -> (w: Work)
    ensures
        w.wf(cwd@),
        w@ == (WorkView {
            config: plan@.config,
            format: plan@.format,
            color: plan@.color,
            quiet: plan@.quiet,
            targets: target_views(targets@),
            at: 0,
            results: Seq::empty(),
            errors: Seq::empty(),
        }),
{
    let linter = Linter::with_cwd(plan.config, None::<Estimator>, cwd.to_owned());
    assert(linter.tokens() =~= counter());
    let w = Work {
        linter,
        format: plan.format,
        color: plan.color,
        quiet: plan.quiet,
        targets,
        at: 0,
        results: Vec::new(),
        errors: String::new(),
    };
    assert(w@.results =~= Seq::empty());
    assert(w@.errors =~= Seq::empty());
    w
}

/// Takes the reply to what the run asked for, and goes on.
pub fn step(stage: Stage, event: Event, around: &Surroundings) -> (r: (Stage, Action))
    requires
        stage.wf(around@.cwd),
        awaits(stage@, event@),
    ensures
        (r.0@, r.1@) == next(stage@, event@, around@),
        r.0.wf(around@.cwd),
{
    match (stage, event) {
        (Stage::Config(f, path), Event::Config(Err(reason))) => refuse(
            unreadable_config(path.as_str(), reason.as_str()).as_str(),
        ),
        (Stage::Config(f, path), Event::Config(Ok(src))) => match parse_config(
            src.as_str(),
            to_slash(path.as_str()).as_str(),
        ) {
            Err(m) => refuse(m.as_str()),
            Ok(cfg) => plan(f, cfg),
        },
        (Stage::Search(f), Event::Present(files)) => match discover(
            around.cwd.as_str(),
            &files,
        ) {
            Some(path) => (Stage::Config(f, path.clone()), Action::ReadConfig(path)),
            None => plan(f, Settings::default()),
        },
        (Stage::Look(plan), Event::Seen(args)) => match find(
            args.as_slice(),
            &plan.excludes,
            around.cwd.as_str(),
        ) {
            Err(m) => refuse(m.as_str()),
            Ok(targets) => advance(begin_work(plan, targets, around.cwd.as_str()), around),
        },
        (Stage::Read(w), Event::File(Err(reason))) => {
            let ghost before = w@;
            let mut w = w;
            let count: usize = w.targets.len();
            assert(w.at < count);
            let m = unreadable(w.targets[w.at].path.as_str(), reason.as_str());
            assert(before.targets[before.at] == w.targets@[w.at as int]@);
            w.errors.append(complain(m.as_str()).as_str());
            w.at += 1;
            assert(w@ =~= (WorkView { at: before.at + 1, errors: w.errors@, ..before }));
            advance(w, around)
        },
        (Stage::Read(w), Event::File(Ok(src))) => {
            let refs = w.linter.references(&w.targets[w.at], src.as_slice());
            assert(w@.targets[w@.at] == w.targets@[w.at as int]@);
            (Stage::Refer(w, src), Action::WhichExist(refs))
        },
        (Stage::Refer(w, src), Event::Present(existing)) => {
            let ghost before = w@;
            let mut w = w;
            let count: usize = w.targets.len();
            assert(w.at < count);
            let result = w.linter.check(&w.targets[w.at], src.as_slice(), &existing);
            assert(before.targets[before.at] == w.targets@[w.at as int]@);
            w.results.push(result);
            w.at += 1;
            assert(w@ =~= (WorkView {
                at: before.at + 1,
                results: before.results.push(result@),
                ..before
            }));
            advance(w, around)
        },
        _ => {
            assert(false);
            end(Shown::Nothing, String::new(), EXIT_USAGE)
        },
    }
}

/// Why a run's output could not be written.
#[derive(Debug)]
pub struct WriteFailure {
    /// Whether the reader has gone.
    pub broken_pipe: bool,
    pub reason: String,
}

/// What is left of a run once its output is written.
#[derive(Debug)]
pub struct Ending {
    /// What goes to standard error.
    pub errors: String,
    pub code: i32,
}

/// How a run ends whose output could not be written, as far as a failure
/// counts.
pub open spec fn failed_output(shown: ShownView, failure: Option<WriteFailure>) -> bool {
    (shown is Text || shown is Json) && failure is Some && !failure->Some_0.broken_pipe
}

/// Ends a run once its output is written, or could not be. A closed pipe is how
/// `lintmatter . | head` ends, not a failure: the run reports whatever the
/// findings warrant and stays quiet, rather than exiting like a bad flag. Every
/// other failure to write a report is still worth reporting.
pub fn settle(output: Output, failure: &Option<WriteFailure>) -> (r: Ending)
    ensures
        failed_output(output@.shown, *failure) ==> r.code == EXIT_USAGE && r.errors@
            == output.errors@ + complaint(failure->Some_0.reason@),
        !failed_output(output@.shown, *failure) ==> r.code == output.code && r.errors@
            == output.errors@,
{
    let Output { shown, errors, code } = output;
    let report = match shown {
        Shown::Text(_) => true,
        Shown::Json(_) => true,
        _ => false,
    };
    match failure {
        Some(f) => {
            if report && !f.broken_pipe {
                let mut errors = errors;
                errors.append(complain(f.reason.as_str()).as_str());
                return Ending { errors, code: EXIT_USAGE };
            }
        },
        None => {},
    }
    Ending { errors, code }
}

/// How much is left to ask: first by the kind of stage.
pub open spec fn phase(stage: StageView) -> nat {
    match stage {
        StageView::Search(_) => 4,
        StageView::Config(..) => 3,
        StageView::Look(_) => 2,
        StageView::Read(_) => 1,
        StageView::Refer(..) => 1,
        StageView::End => 0,
    }
}

/// How much is left to ask of the targets.
pub open spec fn remaining(stage: StageView) -> int {
    match stage {
        StageView::Read(w) => 2 * (w.targets.len() - w.at),
        StageView::Refer(w, _) => 2 * (w.targets.len() - w.at) - 1,
        _ => 0,
    }
}

/// Whether a stage has a target left where it needs one.
pub open spec fn on_target(stage: StageView) -> bool {
    match stage {
        StageView::Read(w) => 0 <= w.at < w.targets.len(),
        StageView::Refer(w, _) => 0 <= w.at < w.targets.len(),
        _ => true,
    }
}

/// A run gets on with every reply, so it comes to an end; and it ends exactly
/// when it finishes.
pub proof fn lemma_progress(stage: StageView, event: EventView, around: SurroundingsView)
    requires
        on_target(stage),
        awaits(stage, event),
    ensures
        ({
            let (to, action) = next(stage, event, around);
            &&& on_target(to)
            &&& phase(to) < phase(stage) || (phase(to) == phase(stage) && 0 <= remaining(to)
                < remaining(stage))
            &&& to is End <==> action is Finish
        }),
{
}

/// A run that is refused shows nothing, says why, and is told apart from one
/// with findings by its code. This is how a run starts.
pub proof fn lemma_refused_start(args: Seq<Seq<char>>, around: SurroundingsView)
    ensures
        started(args, around).1 matches ActionView::Finish(o) ==> (o.code == EXIT_OK || o.code
            == EXIT_USAGE) && (o.code == EXIT_USAGE ==> o.shown is Nothing
            && "lintmatter: "@.is_prefix_of(o.errors)),
{
    if let ActionView::Finish(o) = started(args, around).1 {
        if o.code == EXIT_USAGE {
            assert("lintmatter: "@.is_prefix_of(o.errors)) by {
                assert(o.errors.take("lintmatter: "@.len() as int) =~= "lintmatter: "@);
            }
        }
    }
}

/// A run that is refused shows nothing, says why, and is told apart from one
/// with findings by its code. This is how a run goes on.
pub proof fn lemma_refused(stage: StageView, event: EventView, around: SurroundingsView)
    requires
        awaits(stage, event),
    ensures
        next(stage, event, around).1 matches ActionView::Finish(o) ==> (o.code == EXIT_USAGE
            <==> o.shown is Nothing) && (o.code == EXIT_USAGE
            ==> "lintmatter: "@.is_prefix_of(o.errors)),
{
    if let ActionView::Finish(o) = next(stage, event, around).1 {
        if o.code == EXIT_USAGE {
            assert(o.errors.take("lintmatter: "@.len() as int) =~= "lintmatter: "@);
        }
    }
}

/// A run over its targets ends with the code for findings if a file has an
/// error or could not be read, and with success otherwise: warnings alone still
/// succeed.
pub proof fn lemma_code(w: WorkView, around: SurroundingsView)
    requires
        w.at == w.targets.len(),
        w.results.len() <= usize::MAX,
    ensures
        advanced(w, around).1 matches ActionView::Finish(o) && o.errors == w.errors && o.code == (
        if w.errors.len() > 0 || exists|i: int|
            0 <= i < w.results.len() && #[trigger] has(w.results[i], Severity::Error) {
            EXIT_FINDINGS
        } else {
            EXIT_OK
        }),
{
    lemma_files_with(w.results, Severity::Error);
}

/// A file that cannot be read is named and fails the run, and the other files
/// are still checked: the run keeps its results and goes on to the next target.
pub proof fn lemma_unreadable(w: WorkView, reason: Seq<char>, around: SurroundingsView)
    requires
        0 <= w.at < w.targets.len(),
    ensures
        ({
            let (to, action) = next(StageView::Read(w), EventView::File(Err(reason)), around);
            let errors = w.errors + complaint(cannot_read(w.targets[w.at].path, reason));
            if w.at + 1 < w.targets.len() {
                to == StageView::Read(WorkView { at: w.at + 1, errors, ..w }) && action
                    == ActionView::ReadFile(w.targets[w.at + 1].path)
            } else {
                action matches ActionView::Finish(o) && o.errors == errors && o.code
                    == EXIT_FINDINGS
            }
        }),
{
    assert(complaint(cannot_read(w.targets[w.at].path, reason)).len() > 0) by {
        reveal_strlit("lintmatter: ");
    }
}

/// Where a run stands after some replies, and what it asks for then.
pub open spec fn after(
    args: Seq<Seq<char>>,
    events: Seq<EventView>,
    around: SurroundingsView,
) -> (StageView, ActionView)
    decreases events.len(),
{
    if events.len() == 0 {
        started(args, around)
    } else {
        next(after(args, events.drop_last(), around).0, events.last(), around)
    }
}

/// Whether flags differ only in that the one names no path and the other the
/// current directory.
spec fn same_but_path(f: FlagsView, g: FlagsView) -> bool {
    f.paths.len() == 0 && g == (FlagsView { paths: seq!["."@], ..f })
}

/// Whether two runs stand at the same place, but for how they were told to take
/// the current directory.
spec fn alike(a: StageView, b: StageView) -> bool {
    ||| a == b
    ||| match (a, b) {
        (StageView::Config(f, p), StageView::Config(g, q)) => p == q && same_but_path(f, g),
        (StageView::Search(f), StageView::Search(g)) => same_but_path(f, g),
        _ => false,
    }
}

proof fn lemma_alike_plan(f: FlagsView, g: FlagsView, cfg: SettingsView)
    requires
        same_but_path(f, g),
    ensures
        planned(f, cfg) == planned(g, cfg),
{
    lemma_default_path(f, cfg);
}

proof fn lemma_alike_next(a: StageView, b: StageView, event: EventView, around: SurroundingsView)
    requires
        alike(a, b),
    ensures
        alike(next(a, event, around).0, next(b, event, around).0),
        next(a, event, around).1 == next(b, event, around).1,
{
    match (a, b, event) {
        (StageView::Config(f, p), StageView::Config(g, _), EventView::Config(Ok(src))) => {
            if let Ok(cfg) = settings_of(yaml(src), slashed(p)) {
                if f != g {
                    lemma_alike_plan(f, g, cfg);
                }
            }
        },
        (StageView::Search(f), StageView::Search(g), EventView::Present(_)) => {
            if f != g {
                lemma_alike_plan(f, g, SettingsView::unset());
            }
        },
        _ => {},
    }
}

/// Naming no path is naming the current directory, all the way: with the same
/// replies the two runs ask for the same, show the same and end with the same
/// code.
pub proof fn lemma_no_path_run(
    args: Seq<Seq<char>>,
    events: Seq<EventView>,
    around: SurroundingsView,
)
    requires
        only_flags(args, 0),
    ensures
        after(args, events, around).1 == after(args.push("."@), events, around).1,
{
    lemma_alike_runs(args, events, around);
}

proof fn lemma_alike_runs(
    args: Seq<Seq<char>>,
    events: Seq<EventView>,
    around: SurroundingsView,
)
    requires
        only_flags(args, 0),
    ensures
        alike(after(args, events, around).0, after(args.push("."@), events, around).0),
        after(args, events, around).1 == after(args.push("."@), events, around).1,
    decreases events.len(),
{
    if events.len() == 0 {
        lemma_no_path(args);
        if let ParsedView::Flags(f) = parsed(args) {
            lemma_alike_plan(f, FlagsView { paths: seq!["."@], ..f }, SettingsView::unset());
        }
    } else {
        lemma_alike_runs(args, events.drop_last(), around);
        lemma_alike_next(
            after(args, events.drop_last(), around).0,
            after(args.push("."@), events.drop_last(), around).0,
            events.last(),
            around,
        );
    }
}

} // verus!
