//! What a run does, step by step, and how it ends.

use vstd::prelude::*;

use crate::cli::{
    disable_fault, id_lines, parsed, resolved, usage_text, wants_color, FlagsView, ParsedView,
    ResolvedView, USAGE_DESCRIPTION, USAGE_HEAD, USAGE_NAME, USAGE_SKILL, USAGE_TAIL,
};
use crate::config::{candidates_of, first_in, settings_of, SettingsView};
use crate::discover::{found, ArgumentView};
use crate::laws::rules::Case;
use crate::lint::ids::ids;
use crate::lint::rules::references::references_of;
use crate::lint::{result_of, Severity};
use crate::number::decimal_int;
use crate::parse::{document_of, lossy_utf8, without_bom};
use crate::report::json::json_of;
use crate::report::text::text_of;
use crate::report::{files_with, mean_score, Summary};
use crate::run::{
    failed_output, next, started, ActionView, EventView, ShownView, StageView, SurroundingsView,
    WorkView, WriteFailure,
};
use crate::text::debug_text;
use crate::tokens::{Counter, Estimator};
use crate::utils::slashed;
use crate::yaml::yaml;

verus! {

/// Whether a run ends, with what it shows, what it complains of, and its code.
pub open spec fn ends(
    r: (StageView, ActionView),
    shown: ShownView,
    errors: Seq<char>,
    code: i32,
) -> bool {
    r.0 is End && (r.1 matches ActionView::Finish(o) && o.shown == shown && o.errors == errors
        && o.code == code)
}

/// Whether a run is refused: it shows nothing, says why, and ends with code 2.
pub open spec fn is_refused(r: (StageView, ActionView), why: Seq<char>) -> bool {
    ends(r, ShownView::Nothing, "lintmatter: "@ + why + "\n"@, 2)
}

/// A command line that asks for help, or that is wrong, ends the run with the
/// usage on standard error, with code 0 or code 2. The version and the rules
/// are shown, and the run ends with code 0. A rule that there is not cannot be
/// disabled.
pub proof fn lemma_start(args: Seq<Seq<char>>, around: SurroundingsView)
    ensures
        parsed(args) is Help ==> ends(
            started(args, around),
            ShownView::Nothing,
            usage_text(),
            0,
        ),
        parsed(args) matches ParsedView::Fault(m) ==> ends(
            started(args, around),
            ShownView::Nothing,
            "lintmatter: "@ + m + "\n"@ + usage_text(),
            2,
        ),
        parsed(args) matches ParsedView::Flags(f) ==> {
            &&& f.show_version ==> ends(
                started(args, around),
                ShownView::Notice("lintmatter "@ + "0.1.0"@ + "\n"@),
                Seq::empty(),
                0,
            )
            &&& !f.show_version && f.list_rules ==> ends(
                started(args, around),
                ShownView::Notice(id_lines(ids())),
                Seq::empty(),
                0,
            )
            &&& !f.show_version && !f.list_rules ==> (disable_fault(f.disabled) matches Some(m)
                ==> is_refused(started(args, around), m))
        },
{
}

/// Whether a run is to lint: its command line is right and asks for no less.
pub open spec fn is_to_lint(args: Seq<Seq<char>>, f: FlagsView) -> bool {
    parsed(args) == ParsedView::Flags(f) && !f.show_version && !f.list_rules && disable_fault(
        f.disabled,
    ) is None
}

/// The config file is the one that is named, or the nearest above the working
/// directory, or none with `--no-config`. The two flags exclude each other.
pub proof fn lemma_config_choice(args: Seq<Seq<char>>, around: SurroundingsView, f: FlagsView)
    requires
        is_to_lint(args, f),
    ensures
        f.no_config && f.config is Some ==> is_refused(
            started(args, around),
            "--config and --no-config cannot be used together"@,
        ),
        !f.no_config ==> (f.config matches Some(path) ==> started(args, around) == (
            StageView::Config(f, path),
            ActionView::ReadConfig(path),
        )),
        !f.no_config && f.config is None ==> started(args, around) == (
            StageView::Search(f),
            ActionView::WhichFiles(candidates_of(around.cwd)),
        ),
        f.no_config && f.config is None ==> sets_out(started(args, around), f, SettingsView::unset()),
{
}

/// Whether a run sets out with its settings, or is refused for a format or a
/// color that there is not.
pub open spec fn sets_out(r: (StageView, ActionView), f: FlagsView, cfg: SettingsView) -> bool {
    let plan = resolved(f, cfg);
    if f.format != "text"@ && f.format != "json"@ {
        is_refused(r, "unknown format "@ + debug_text(f.format) + ": want text or json"@)
    } else if f.color != "auto"@ && f.color != "always"@ && f.color != "never"@ {
        is_refused(r, "unknown color "@ + debug_text(f.color) + ": want auto, always, or never"@)
    } else {
        r == (
            StageView::Look(plan),
            ActionView::Look { paths: plan.paths, excludes: plan.excludes },
        )
    }
}

/// A config file is read where it was found, and its settings are those of the
/// run. One that cannot be read or is wrong refuses the run.
pub proof fn lemma_config(
    f: FlagsView,
    path: Seq<char>,
    src: Seq<char>,
    reason: Seq<char>,
    files: Seq<Seq<char>>,
    around: SurroundingsView,
)
    ensures
        is_refused(
            next(StageView::Config(f, path), EventView::Config(Err(reason)), around),
            "cannot read config "@ + path + ": "@ + reason,
        ),
        settings_of(yaml(src), slashed(path)) matches Err(m) ==> is_refused(
            next(StageView::Config(f, path), EventView::Config(Ok(src)), around),
            m,
        ),
        settings_of(yaml(src), slashed(path)) matches Ok(cfg) ==> sets_out(
            next(StageView::Config(f, path), EventView::Config(Ok(src)), around),
            f,
            cfg,
        ),
        first_in(candidates_of(around.cwd), files) matches Some(p) ==> next(
            StageView::Search(f),
            EventView::Present(files),
            around,
        ) == (StageView::Config(f, p), ActionView::ReadConfig(p)),
        first_in(candidates_of(around.cwd), files) is None ==> sets_out(
            next(StageView::Search(f), EventView::Present(files), around),
            f,
            SettingsView::unset(),
        ),
{
}

/// Whether a run goes on to the next of its files, or ends after the last: with
/// its report, with its complaints, and with code 1 where a file has an error
/// or could not be read, and code 0 otherwise.
pub open spec fn carries_on(r: (StageView, ActionView), w: WorkView, around: SurroundingsView) -> bool {
    if w.at < w.targets.len() {
        r == (StageView::Read(w), ActionView::ReadFile(w.targets[w.at].path))
    } else {
        let summary = Summary {
            files: w.results.len() as usize,
            files_with_errors: files_with(w.results, Severity::Error) as usize,
            files_with_warnings: files_with(w.results, Severity::Warning) as usize,
            score: mean_score(w.results) as u8,
        };
        ends(
            r,
            if w.format == "json"@ {
                ShownView::Json(json_of(w.results, summary, w.quiet))
            } else {
                ShownView::Text(
                    text_of(
                        w.quiet,
                        wants_color(
                            w.color,
                            around.no_color,
                            around.force_color,
                            around.is_terminal,
                        ),
                        w.results,
                        summary,
                    ),
                )
            },
            w.errors,
            if summary.files_with_errors > 0 || w.errors.len() > 0 {
                1
            } else {
                0
            },
        )
    }
}

/// A run lints the files that its paths stand for, from the first on.
pub proof fn lemma_look(plan: ResolvedView, args: Seq<ArgumentView>, around: SurroundingsView)
    ensures
        found(args, plan.excludes, around.cwd) matches Err(m) ==> is_refused(
            next(StageView::Look(plan), EventView::Seen(args), around),
            m,
        ),
        found(args, plan.excludes, around.cwd) matches Ok(targets) ==> carries_on(
            next(StageView::Look(plan), EventView::Seen(args), around),
            (WorkView {
                config: plan.config,
                format: plan.format,
                color: plan.color,
                quiet: plan.quiet,
                targets,
                at: 0,
                results: Seq::empty(),
                errors: Seq::empty(),
            }),
            around,
        ),
{
}

/// A file as a run judges it: by its settings, from its directory, and with
/// four characters to a token.
pub open spec fn case_of(
    w: WorkView,
    src: Seq<u8>,
    existing: Seq<Seq<char>>,
    around: SurroundingsView,
) -> Case {
    Case {
        cfg: w.config,
        cwd: around.cwd,
        tokens: |s: Seq<char>| Estimator.tokens(s),
        target: w.targets[w.at],
        doc: document_of(without_bom(lossy_utf8(src))),
        existing,
    }
}

/// Of each file the run asks which of its references exist, unless nobody
/// wants to know, and then judges it and goes on. A file that cannot be read is
/// complained of, and the run goes on.
#[verifier::rlimit(40)]
pub proof fn lemma_files(
    w: WorkView,
    src: Seq<u8>,
    existing: Seq<Seq<char>>,
    reason: Seq<char>,
    around: SurroundingsView,
)
    requires
        0 <= w.at < w.targets.len(),
    ensures
        carries_on(
            next(StageView::Read(w), EventView::File(Err(reason)), around),
            (WorkView {
                at: w.at + 1,
                errors: w.errors + ("lintmatter: "@ + ("cannot read "@ + w.targets[w.at].path + ": "@
                    + reason) + "\n"@),
                ..w
            }),
            around,
        ),
        next(StageView::Read(w), EventView::File(Ok(src)), around).0 == StageView::Refer(w, src),
        next(StageView::Read(w), EventView::File(Ok(src)), around).1 matches ActionView::WhichExist(
            asked,
        ) ==> {
            let refs = references_of(case_of(w, src, Seq::empty(), around).context());
            if w.config.disabled.contains("file-reference.missing"@) {
                asked.len() == 0
            } else {
                asked.len() == refs.len() && forall|i: int|
                    0 <= i < refs.len() ==> #[trigger] asked[i] == refs[i].path.text()
            }
        },
        next(StageView::Read(w), EventView::File(Ok(src)), around).1 is WhichExist,
        carries_on(
            next(StageView::Refer(w, src), EventView::Present(existing), around),
            (WorkView {
                at: w.at + 1,
                results: w.results.push(result_of(case_of(w, src, existing, around).context())),
                ..w
            }),
            around,
        ),
{
    assert(case_of(w, src, existing, around).tokens =~= crate::run::counter());
    assert(case_of(w, src, Seq::empty(), around).tokens =~= crate::run::counter());
}

/// A report that could not be written fails the run, unless the pipe was
/// closed. What is no report does not.
pub proof fn lemma_output(shown: ShownView, failure: Option<WriteFailure>)
    ensures
        failure is None ==> !failed_output(shown, failure),
        shown is Nothing || shown is Notice ==> !failed_output(shown, failure),
        failure matches Some(f) ==> (shown is Text || shown is Json) ==> (failed_output(shown, failure)
            <==> !f.broken_pipe),
{
}

/// The usage tells the budgets that hold where nobody sets others.
pub proof fn lemma_usage()
    ensures
        usage_text() == USAGE_HEAD@ + decimal_int(2500) + USAGE_SKILL@ + decimal_int(5000)
            + USAGE_NAME@ + decimal_int(16) + USAGE_DESCRIPTION@ + decimal_int(100) + USAGE_TAIL@,
{
}

} // verus!
