//! Whole runs, over a tree that is held in memory.

use lintmatter::cli::{
    is_init, parse_args, resolve, resolve_color, split_flag, usage, Flags, ParseOutcome,
    EXIT_FINDINGS, EXIT_OK, EXIT_USAGE, VERSION,
};
use lintmatter::config::{parse, Settings, DEFAULT_MAX_AGENTS_TOKENS};
use lintmatter::discover::{Argument, Entry, Item};
use lintmatter::lint::ids::{
    rule_ids, RULE_DESCRIPTION_LENGTH, RULE_FRONTMATTER_MISSING, RULE_FRONTMATTER_UNKNOWN_KEY,
    RULE_FRONTMATTER_UNTERMINATED, RULE_NAME_DIR_MISMATCH, RULE_NAME_FORMAT,
    RULE_TOKENS_DESCRIPTION, RULE_TOKENS_NAME,
};
use lintmatter::report::json::JsonReport;
use lintmatter::report::SCHEMA_VERSION;
use lintmatter::run::{
    settle, start, step, Action, Event, Output, Shown, Surroundings, WriteFailure,
};
use lintmatter::utils::resolve as resolve_path;

const CWD: &str = "/work";

/// The files there are, by absolute path; one without contents cannot be read.
struct World {
    files: Vec<(String, Option<String>)>,
}

fn no_such_file() -> String {
    "No such file or directory (os error 2)".to_string()
}

fn add(entries: &mut Vec<Entry>, parts: &[&str]) {
    if parts.len() == 1 {
        entries.push(Entry { name: parts[0].to_string(), item: Item::File });
        return;
    }
    for e in entries.iter_mut() {
        if e.name == parts[0] {
            if let Item::Directory(inner) = &mut e.item {
                add(inner, &parts[1..]);
            }
            return;
        }
    }
    let mut inner = Vec::new();
    add(&mut inner, &parts[1..]);
    entries.push(Entry { name: parts[0].to_string(), item: Item::Directory(inner) });
}

impl World {
    fn with(mut self, path: &str, contents: &str) -> World {
        self.files.push((path.to_string(), Some(contents.to_string())));
        self
    }

    fn get(&self, path: &str) -> Option<&Option<String>> {
        let path = resolve_path(CWD, path).text();
        self.files.iter().find(|(p, _)| *p == path).map(|(_, c)| c)
    }

    fn item(&self, path: &str) -> Item {
        if self.get(path).is_some() {
            return Item::File;
        }
        let prefix = format!("{}/", resolve_path(CWD, path).text());
        let mut entries = Vec::new();
        for (p, _) in &self.files {
            if let Some(rest) = p.strip_prefix(&prefix) {
                let parts: Vec<&str> = rest.split('/').collect();
                add(&mut entries, &parts);
            }
        }
        if entries.is_empty() {
            Item::Unreadable(no_such_file())
        } else {
            Item::Directory(entries)
        }
    }

    fn present(&self, paths: Vec<String>) -> Vec<String> {
        paths.into_iter().filter(|p| self.get(p).is_some()).collect()
    }

    fn answer(&self, action: Action) -> Result<Event, Output> {
        Ok(match action {
            Action::ReadConfig(path) => Event::Config(match self.get(&path) {
                Some(Some(text)) => Ok(text.clone()),
                _ => Err(no_such_file()),
            }),
            Action::WhichFiles(paths) => Event::Present(self.present(paths)),
            Action::WhichExist(paths) => Event::Present(self.present(paths)),
            Action::Look { paths, excludes: _ } => Event::Seen(
                paths
                    .into_iter()
                    .map(|path| {
                        let item = self.item(&path);
                        Argument { path, item }
                    })
                    .collect(),
            ),
            Action::ReadFile(path) => Event::File(match self.get(&path) {
                Some(Some(text)) => Ok(text.clone().into_bytes()),
                _ => Err(no_such_file()),
            }),
            Action::Finish(output) => return Err(output),
        })
    }

    fn run(&self, args: &[&str]) -> Output {
        let around = Surroundings {
            cwd: CWD.to_string(),
            no_color: false,
            force_color: None,
            is_terminal: false,
        };
        let args: Vec<String> = args.iter().map(|s| s.to_string()).collect();
        let (mut stage, mut action) = start(&args, &around);
        loop {
            match self.answer(action) {
                Ok(event) => {
                    let (next, asked) = step(stage, event, &around);
                    stage = next;
                    action = asked;
                }
                Err(output) => return output,
            }
        }
    }
}

const CLEAN_SKILL: &str = "---\nname: well-formed\ndescription: Use this skill when a fixture should pass every rule there is.\n---\n\n# Well formed\n\nThe body of the skill, with a few words.\n";

fn fixtures() -> World {
    let verbose = format!(
        "---\nname: verbose-description\ndescription: {}\nauthor: someone\n---\n\nBody.\n",
        "words that go on and on. ".repeat(60).trim_end()
    );
    World { files: Vec::new() }
        .with("/work/Cargo.toml", "[package]\n")
        .with("/work/testdata/clean/AGENTS.md", "# Instructions\n\nKeep the tree clean, please.\n")
        .with("/work/testdata/clean/skills/well-formed/SKILL.md", CLEAN_SKILL)
        .with("/work/testdata/broken/AGENTS.md", "# Instructions\n\nNothing wrong here.\n")
        .with(
            "/work/testdata/broken/bad-name/SKILL.md",
            "---\nname: Bad_Name\ndescription: A skill whose name is not valid.\n---\n\nBody.\n",
        )
        .with("/work/testdata/broken/no-frontmatter/SKILL.md", "# A skill\n\nNo front matter.\n")
        .with(
            "/work/testdata/broken/unterminated/SKILL.md",
            "---\nname: unterminated\ndescription: Never closed.\n",
        )
        .with("/work/testdata/broken/verbose-description/SKILL.md", &verbose)
        .with("/work/testdata/broken/node_modules/pkg/SKILL.md", "# A dependency\n")
}

fn fixture(parts: &[&str]) -> String {
    let mut p = "testdata".to_string();
    for part in parts {
        p.push('/');
        p.push_str(part);
    }
    p
}

fn outcome(output: Output) -> (i32, String, String) {
    let shown = match output.shown {
        Shown::Nothing => String::new(),
        Shown::Notice(s) => s,
        Shown::Text(s) => s,
        Shown::Json(_) => panic!("a report as JSON"),
    };
    (output.code, shown, output.errors)
}

/// Runs over the fixtures and some config file, config discovery included.
fn run_with(config: &str, args: &[&str]) -> (i32, String, String) {
    outcome(fixtures().with("/tmp/scratch/.lintmatter.yaml", config).run(args))
}

const CONFIG: &str = "/tmp/scratch/.lintmatter.yaml";

/// Runs over the fixtures with config discovery off.
fn run_args(args: &[&str]) -> (i32, String, String) {
    let mut with_flag = vec!["--no-config"];
    with_flag.extend_from_slice(args);
    outcome(fixtures().run(&with_flag))
}

fn run_json(args: &[&str]) -> (i32, JsonReport) {
    let mut with_flag = vec!["--no-config"];
    with_flag.extend_from_slice(args);
    let output = fixtures().run(&with_flag);
    match output.shown {
        Shown::Json(report) => (output.code, report),
        other => panic!("{other:?}"),
    }
}

/// The files a finding was reported under. Every file gets a header line
/// carrying its score, so a path appearing in the output is no proof that a
/// rule fired on it -- only an indented line below the header is.
fn files_with_findings(stdout: &str) -> Vec<&str> {
    let mut out: Vec<&str> = Vec::new();
    let mut header = "";
    for line in stdout.split('\n') {
        if line.starts_with("  ") {
            if !header.is_empty() && !out.contains(&header) {
                out.push(header);
            }
        } else if let Some((path, _)) = line.rsplit_once("  ") {
            header = path;
        }
    }
    out
}

#[test]
fn cli_broken_pipe_is_not_a_usage_error() {
    let run_into_failing_writer = |broken_pipe: bool, path: String| {
        let output = fixtures().run(&["--no-config", &path]);
        let reason = "the write failed".to_string();
        let end = settle(output, &Some(WriteFailure { broken_pipe, reason }));
        (end.code, end.errors)
    };

    // Findings still set the exit code, and nothing is said about the pipe.
    let (code, stderr) = run_into_failing_writer(true, fixture(&["broken"]));
    assert_eq!(code, EXIT_FINDINGS, "stderr={stderr}");
    assert!(stderr.is_empty(), "stderr={stderr}");

    let (code, stderr) = run_into_failing_writer(true, fixture(&["clean"]));
    assert_eq!(code, EXIT_OK, "stderr={stderr}");
    assert!(stderr.is_empty(), "stderr={stderr}");

    // Other write failures are still reported, so this did not widen into
    // swallowing real I/O errors.
    let (code, stderr) = run_into_failing_writer(false, fixture(&["broken"]));
    assert_eq!(code, EXIT_USAGE);
    assert!(stderr.contains("lintmatter:"), "stderr={stderr}");
}

#[test]
fn cli_clean_tree_exits_zero() {
    let (code, stdout, stderr) = run_args(&[&fixture(&["clean"])]);
    assert_eq!(code, EXIT_OK, "stdout: {stdout} stderr: {stderr}");
    assert!(
        stdout.contains("2 files checked, 0 files with errors, 0 files with warnings"),
        "{stdout}"
    );
}

#[test]
fn cli_broken_tree_exits_one() {
    let (code, stdout, _) = run_args(&[&fixture(&["broken"])]);
    assert_eq!(code, EXIT_FINDINGS);
    for want in [
        RULE_FRONTMATTER_MISSING,
        RULE_FRONTMATTER_UNTERMINATED,
        RULE_NAME_FORMAT,
        RULE_NAME_DIR_MISMATCH,
        RULE_FRONTMATTER_UNKNOWN_KEY,
        RULE_DESCRIPTION_LENGTH,
        RULE_TOKENS_DESCRIPTION,
    ] {
        assert!(stdout.contains(want), "stdout missing {want}:\n{stdout}");
    }
    assert!(!stdout.contains("node_modules"), "{stdout}");
}

#[test]
fn cli_text_output_format() {
    let path = fixture(&["broken", "bad-name", "SKILL.md"]);
    let (code, stdout, _) = run_args(&[&path]);
    assert_eq!(code, EXIT_FINDINGS);

    let mut header = "";
    let mut name_format = "";
    for line in stdout.split('\n') {
        if line.contains("SKILL.md") && !line.starts_with("  ") {
            header = line;
        }
        if line.contains(RULE_NAME_FORMAT) {
            name_format = line;
        }
    }
    assert!(!header.is_empty(), "{stdout}");
    assert!(!name_format.is_empty(), "{stdout}");
    let trimmed = name_format.strip_prefix("  ").unwrap();
    let parts: Vec<&str> = trimmed.splitn(4, ": ").collect();
    assert_eq!(parts.len(), 4, "{name_format}");
    assert_eq!(parts[0], "2");
    assert_eq!(parts[1], "error");
    assert_eq!(parts[2], RULE_NAME_FORMAT);
}

#[test]
fn cli_json_output() {
    let (code, got) = run_json(&["--format", "json", &fixture(&["broken"])]);
    assert_eq!(code, EXIT_FINDINGS);
    assert_eq!(got.version, SCHEMA_VERSION);
    assert_eq!(got.summary.files, got.files.len());
    assert!(got.summary.files_with_errors > 0);
    // A run over the broken fixtures must not rate perfect.
    assert!(got.summary.score < 100, "{got:?}");

    let mut paths = Vec::new();
    let mut total: u64 = 0;
    for file in &got.files {
        paths.push(file.path.clone());
        assert!(!file.kind.as_str().is_empty());
        assert!(file.score <= 100, "{}", file.score);
        total += u64::from(file.score);
        for finding in &file.findings {
            assert_eq!(finding.file, file.path);
            assert!(!finding.message.is_empty());
        }
    }
    // The run's score is the mean of the per-file scores it reports.
    assert_eq!(u64::from(got.summary.score), total / got.files.len() as u64, "{got:?}");

    let mut sorted = paths.clone();
    sorted.sort();
    assert_eq!(paths, sorted);
}

#[test]
fn cli_json_reports_token_counts() {
    let (_, got) = run_json(&[
        "--format",
        "json",
        &fixture(&["clean", "skills", "well-formed", "SKILL.md"]),
    ]);
    assert_eq!(got.files.len(), 1);
    let tok = &got.files[0].tokens;
    assert!(tok.content > 0);
    assert!(tok.name > 0);
    assert!(tok.description > 0);
}

#[test]
fn cli_content_budget_flags() {
    let clean = fixture(&["clean"]);

    let (code, stdout, _) =
        run_args(&["--max-agents-tokens", "5", "--max-skill-tokens", "0", &clean]);
    assert_eq!(code, EXIT_FINDINGS, "{stdout}");
    let flagged = files_with_findings(&stdout);
    assert_eq!(flagged.len(), 1, "{stdout}");
    assert!(flagged[0].ends_with("AGENTS.md"), "{stdout}");

    let (code, stdout, _) =
        run_args(&["--max-agents-tokens", "0", "--max-skill-tokens", "5", &clean]);
    assert_eq!(code, EXIT_FINDINGS, "{stdout}");
    let flagged = files_with_findings(&stdout);
    assert_eq!(flagged.len(), 1, "{stdout}");
    assert!(flagged[0].ends_with("SKILL.md"), "{stdout}");

    let (code, stdout, _) =
        run_args(&["--max-agents-tokens", "0", "--max-skill-tokens", "0", &clean]);
    assert_eq!(code, EXIT_OK, "{stdout}");
}

#[test]
fn cli_name_and_description_budget_flags() {
    let skill = fixture(&["clean", "skills", "well-formed", "SKILL.md"]);

    let (code, stdout, _) =
        run_args(&["--max-skill-tokens", "0", "--max-skill-name-tokens", "1", &skill]);
    assert_eq!(code, EXIT_FINDINGS);
    assert!(stdout.contains(RULE_TOKENS_NAME));

    let (code, stdout, _) =
        run_args(&["--max-skill-tokens", "0", "--max-skill-description-tokens", "5", &skill]);
    assert_eq!(code, EXIT_FINDINGS);
    assert!(stdout.contains(RULE_TOKENS_DESCRIPTION));

    let (code, ..) = run_args(&[&skill]);
    assert_eq!(code, EXIT_OK);
}

#[test]
fn cli_warnings_alone_exit_zero() {
    let skill = fixture(&["broken", "bad-name", "SKILL.md"]);

    let (code, stdout, _) = run_args(&["--disable", RULE_NAME_FORMAT, &skill]);
    assert_eq!(code, EXIT_OK, "{stdout}");
    assert!(stdout.contains(RULE_NAME_DIR_MISMATCH));

    let (code, ..) = run_args(&["--strict", "--disable", RULE_NAME_FORMAT, &skill]);
    assert_eq!(code, EXIT_FINDINGS);
}

#[test]
fn cli_quiet_suppresses_warnings() {
    let skill = fixture(&["broken", "bad-name", "SKILL.md"]);

    let (_, stdout, _) = run_args(&["--quiet", &skill]);
    assert!(!stdout.contains(RULE_NAME_DIR_MISMATCH));
    assert!(stdout.contains(RULE_NAME_FORMAT));
    assert!(stdout.contains("warning"));

    let (_, got) = run_json(&["--quiet", "--format", "json", &skill]);
    for file in &got.files {
        for finding in &file.findings {
            assert_ne!(finding.rule, RULE_NAME_DIR_MISMATCH);
        }
    }
    assert!(got.summary.files_with_warnings > 0);
}

#[test]
fn cli_color_flag_controls_decoration() {
    let skill = fixture(&["broken", "bad-name", "SKILL.md"]);

    // The output of these runs is no terminal, so "auto" (the default) stays
    // plain here.
    let (_, stdout, _) = run_args(&[&skill]);
    assert!(!stdout.contains('\u{1b}'), "{stdout}");

    let (_, stdout, _) = run_args(&["--color", "always", &skill]);
    assert!(stdout.contains('\u{1b}'), "{stdout}");
    assert!(stdout.contains("\u{274c}") || stdout.contains("\u{26a0}"), "{stdout}");

    let (_, stdout, _) = run_args(&["--color", "never", &skill]);
    assert!(!stdout.contains('\u{1b}'), "{stdout}");

    let (code, stdout, stderr) = run_args(&["--color", "rainbow", &skill]);
    assert_eq!(code, EXIT_USAGE, "stdout={stdout} stderr={stderr}");
    assert!(stderr.contains("unknown color"), "{stderr}");
}

#[test]
fn cli_exclude_prunes_paths() {
    let (code, stdout, _) = run_args(&[
        "--exclude",
        "verbose-description",
        "--exclude",
        "no-frontmatter",
        "--exclude",
        "unterminated",
        "--exclude",
        "bad-name",
        &fixture(&["broken"]),
    ]);
    assert_eq!(code, EXIT_OK, "{stdout}");
    assert!(stdout.contains("1 file checked"), "{stdout}");
}

#[test]
fn cli_usage_errors() {
    let clean = fixture(&["clean"]);
    let cases: &[(&str, Vec<&str>, &str)] = &[
        ("unknown format", vec!["--format", "xml"], "unknown format"),
        ("unknown rule", vec!["--disable", "no.such.rule"], "unknown rule"),
        ("negative budget", vec!["--max-agents-tokens", "-5"], "must be zero or more"),
        ("bad exclude glob", vec!["--exclude", "["], "invalid exclude"),
    ];
    for (name, extra, want) in cases {
        let mut args: Vec<&str> = extra.clone();
        args.push(&clean);
        let (code, stdout, stderr) = run_args(&args);
        assert_eq!(code, EXIT_USAGE, "{name}: stdout={stdout} stderr={stderr}");
        assert!(stderr.contains(want), "{name}: stderr={stderr}");
        assert!(stdout.is_empty(), "{name}: stdout={stdout}");
    }

    let (code, stdout, stderr) = run_args(&["nope-does-not-exist"]);
    assert_eq!(code, EXIT_USAGE, "stdout={stdout} stderr={stderr}");
    assert!(stderr.contains("cannot read"), "{stderr}");

    let (code, stdout, stderr) = run_args(&["Cargo.toml"]);
    assert_eq!(code, EXIT_USAGE, "stdout={stdout} stderr={stderr}");
    assert!(stderr.contains("not an AGENTS.md or SKILL.md"), "{stderr}");

    let (code, stdout, stderr) = run_args(&["--nope"]);
    assert_eq!(code, EXIT_USAGE, "stdout={stdout} stderr={stderr}");
    assert!(stderr.contains("flag provided but not defined"), "{stderr}");
}

#[test]
fn cli_config_file_supplies_settings() {
    let (code, stdout, stderr) = run_with(
        "max-agents-tokens: 5\nmax-skill-tokens: 0\n",
        &["--config", CONFIG, &fixture(&["clean"])],
    );
    assert_eq!(code, EXIT_FINDINGS, "stdout={stdout} stderr={stderr}");
    let flagged = files_with_findings(&stdout);
    assert_eq!(flagged.len(), 1, "{stdout}");
    assert!(flagged[0].ends_with("AGENTS.md"), "{stdout}");
}

#[test]
fn cli_config_file_disables_rules() {
    let skill = fixture(&["broken", "bad-name", "SKILL.md"]);
    let (code, stdout, _) = run_with(
        "rules:\n  name.format: false\n  name.dir-mismatch: false\n",
        &["--config", CONFIG, &skill],
    );
    assert_eq!(code, EXIT_OK, "{stdout}");
    assert!(!stdout.contains(RULE_NAME_FORMAT), "{stdout}");
    assert!(!stdout.contains(RULE_NAME_DIR_MISMATCH), "{stdout}");
}

#[test]
fn cli_flags_win_over_the_config_file() {
    let clean = fixture(&["clean"]);

    // The flag overrides the file's budget, so the tree comes back clean.
    let (code, stdout, stderr) = run_with(
        "max-agents-tokens: 5\n",
        &["--config", CONFIG, "--max-agents-tokens", "0", &clean],
    );
    assert_eq!(code, EXIT_OK, "stdout={stdout} stderr={stderr}");
    assert!(stdout.contains("2 files checked"), "{stdout}");
}

#[test]
fn cli_run_behavior_flags_are_not_configurable_via_the_file() {
    let skill = fixture(&["broken", "bad-name", "SKILL.md"]);

    // strict, quiet, format and color are not valid config keys.
    for key in ["strict: true", "quiet: true", "format: json", "color: never"] {
        let (code, stdout, stderr) =
            run_with(&format!("{key}\n"), &["--config", CONFIG, &skill]);
        assert_eq!(code, EXIT_USAGE, "{key}: stdout={stdout} stderr={stderr}");
        assert!(stderr.contains("unknown setting"), "{key}: {stderr}");
    }

    // Without them in the file, --strict on the command line still works
    // as a run-behavior flag, unaffected by the config file's presence.
    let cfg = "rules:\n  name.format: false\n";
    let (code, ..) = run_with(cfg, &["--config", CONFIG, &skill]);
    assert_eq!(code, EXIT_OK);
    let (code, ..) = run_with(cfg, &["--config", CONFIG, "--strict", &skill]);
    assert_eq!(code, EXIT_FINDINGS);
}

#[test]
fn cli_excludes_and_disables_accumulate() {
    let (code, stdout, _) = run_with(
        "exclude:\n  - verbose-description\n  - no-frontmatter\nrules:\n  name.format: false\n",
        &[
            "--config",
            CONFIG,
            "--exclude",
            "unterminated",
            "--exclude",
            "bad-name",
            &fixture(&["broken"]),
        ],
    );
    assert_eq!(code, EXIT_OK, "{stdout}");
    assert!(stdout.contains("1 file checked"), "{stdout}");
}

#[test]
fn cli_no_config_ignores_the_file() {
    let clean = fixture(&["clean"]);

    let (code, ..) = run_with("max-agents-tokens: 5\n", &["--config", CONFIG, &clean]);
    assert_eq!(code, EXIT_FINDINGS);

    let (code, stdout, stderr) = run_with("max-agents-tokens: 5\n", &["--no-config", &clean]);
    assert_eq!(code, EXIT_OK, "stdout={stdout} stderr={stderr}");
}

#[test]
fn cli_config_usage_errors() {
    let clean = fixture(&["clean"]);
    let bad = "max-skill-tokens: -1\n";
    let missing = "/tmp/scratch/absent.yaml";

    let cases: &[(&str, Vec<&str>, &str)] = &[
        ("unreadable config", vec!["--config", missing], "cannot read config"),
        ("invalid config", vec!["--config", CONFIG], "must be zero or more"),
        (
            "config and no-config",
            vec!["--config", CONFIG, "--no-config"],
            "cannot be used together",
        ),
        ("empty config path", vec!["--config", ""], "must not be empty"),
    ];
    for (name, extra, want) in cases {
        let mut args: Vec<&str> = extra.clone();
        args.push(&clean);
        let (code, stdout, stderr) = run_with(bad, &args);
        assert_eq!(code, EXIT_USAGE, "{name}: stdout={stdout} stderr={stderr}");
        assert!(stderr.contains(want), "{name}: stderr={stderr}");
        assert!(stdout.is_empty(), "{name}: stdout={stdout}");
    }
}

#[test]
fn config_is_discovered_from_the_working_directory() {
    // The search starts at the working directory, and finds a file above it.
    let world = fixtures().with("/.lintmatter.yaml", "max-agents-tokens: 5\n");
    let (code, stdout, _) = outcome(world.run(&[&fixture(&["clean"])]));
    assert_eq!(code, EXIT_FINDINGS, "{stdout}");

    let cfg = parse("max-skill-tokens: 7\n", "/tmp/x/.lintmatter.yaml").unwrap();
    assert_eq!(cfg.max_skill_tokens, Some(7));

    let resolved = resolve(Flags::default(), cfg);
    assert_eq!(resolved.config.max_skill_tokens, 7);
    assert_eq!(resolved.config.max_agents_tokens, DEFAULT_MAX_AGENTS_TOKENS);
    assert_eq!(resolved.paths, vec![".".to_string()]);

    let (code, stdout, _) = outcome(world.run(&["--no-config", &fixture(&["clean"])]));
    assert_eq!(code, EXIT_OK, "{stdout}");
}

/// A file can be discovered and then fail to open: it vanished in between, or
/// it is a dangling symlink, which the walk adds without following.
#[test]
fn an_unreadable_file_is_reported_but_does_not_abort_the_run() {
    let mut world = World { files: Vec::new() }
        .with("/tmp/dir/AGENTS.md", "readable instructions\n");
    world.files.push(("/tmp/dir/sub/AGENTS.md".to_string(), None));

    let (code, stdout, stderr) = outcome(world.run(&["--no-config", "/tmp/dir"]));

    // The bad file is named on stderr...
    assert!(stderr.contains("cannot read"), "{stderr}");
    // ...the good one is still checked, rather than discarded with the run...
    assert!(stdout.contains("1 file checked"), "{stdout}");
    // ...and the run fails, but as findings rather than as bad usage.
    assert_eq!(code, EXIT_FINDINGS, "stdout={stdout} stderr={stderr}");
}

#[test]
fn cli_version_and_list_rules() {
    let (code, stdout, _) = run_args(&["--version"]);
    assert_eq!(code, EXIT_OK);
    assert!(stdout.starts_with("lintmatter "), "{stdout}");
    assert_eq!(stdout, format!("lintmatter {VERSION}\n"));

    let (code, stdout, _) = run_args(&["--list-rules"]);
    assert_eq!(code, EXIT_OK);
    let listed: Vec<&str> = stdout.split_whitespace().collect();
    assert_eq!(listed.len(), rule_ids().len());
    for rule in rule_ids() {
        assert!(stdout.contains(rule), "{stdout}");
    }
}

#[test]
fn help_exits_zero() {
    let (code, _, stderr) = run_args(&["-h"]);
    assert_eq!(code, EXIT_OK);
    assert!(stderr.contains("lintmatter lints agent instruction files"), "{stderr}");
}

#[test]
fn cli_no_paths_defaults_to_current_directory() {
    let (code_default, stdout_default, _) = run_args(&[]);
    let (code_dot, stdout_dot, _) = run_args(&["."]);
    assert_eq!(code_default, code_dot);
    assert_eq!(stdout_default, stdout_dot);
}

/// The same with the config file that applies there.
#[test]
fn no_paths_defaults_to_current_directory() {
    let world = fixtures().with("/work/.lintmatter.yaml", "max-agents-tokens: 5\n");
    let (code_default, stdout_default, _) = outcome(world.run(&[]));
    let (code_dot, stdout_dot, _) = outcome(world.run(&["."]));
    assert_eq!(code_default, code_dot);
    assert_eq!(stdout_default, stdout_dot);
    assert!(stdout_default.contains("7 files checked"), "{stdout_default}");
}

fn strings(list: &[&str]) -> Vec<String> {
    list.iter().map(|s| s.to_string()).collect()
}

#[test]
fn flags_are_read_in_every_spelling() {
    let ParseOutcome::Flags(f) = parse_args(&strings(&[
        "-strict",
        "--quiet=false",
        "--format=json",
        "--exclude",
        "a",
        "--exclude=b",
        "--max-skill-tokens=12",
        "--",
        "--odd",
        "x",
    ])) else {
        panic!("want flags");
    };
    assert!(f.strict && !f.quiet);
    assert_eq!(f.format, "json");
    assert_eq!(f.excludes, strings(&["a", "b"]));
    assert_eq!(f.max_skill_tokens, Some(12));
    assert_eq!(f.paths, strings(&["--odd", "x"]));

    assert_eq!(split_flag("--a=b=c"), ("a".to_string(), Some("b=c".to_string())));
    assert_eq!(split_flag("-a"), ("a".to_string(), None));
}

fn fault(args: &[&str]) -> String {
    match parse_args(&strings(args)) {
        ParseOutcome::Fault(m) => m,
        _ => panic!("{args:?}: want a fault"),
    }
}

#[test]
fn faults_name_the_flag() {
    assert_eq!(fault(&["--format"]), "flag needs an argument: --format");
    assert_eq!(fault(&["--exclude="]), "--exclude value must not be empty");
    assert_eq!(
        fault(&["--max-skill-tokens", "lots"]),
        "invalid value \"lots\" for flag --max-skill-tokens: not an integer"
    );
    assert_eq!(
        fault(&["--max-skill-tokens=-1", "--max-agents-tokens=-2"]),
        "--max-agents-tokens, --max-skill-tokens must be zero or more (0 disables the check)"
    );
    assert_eq!(fault(&["--no-such=1"]), "flag provided but not defined: -no-such");
}

#[test]
fn flags_win_over_settings_and_settings_over_defaults() {
    let flags = Flags { max_agents_tokens: Some(1), excludes: strings(&["f"]), ..Flags::default() };
    let settings = Settings {
        max_agents_tokens: Some(2),
        max_skill_name_tokens: Some(3),
        excludes: strings(&["s"]),
        ..Settings::default()
    };
    let r = resolve(flags, settings);
    assert_eq!(r.config.max_agents_tokens, 1);
    assert_eq!(r.config.max_skill_name_tokens, 3);
    assert_eq!(r.config.max_skill_tokens, 5000);
    assert_eq!(r.excludes, strings(&["s", "f"]));
}

#[test]
fn color_follows_the_conventions() {
    assert!(resolve_color("always", true, &None, false));
    assert!(!resolve_color("never", false, &Some("1".to_string()), true));
    assert!(!resolve_color("auto", true, &Some("1".to_string()), true));
    assert!(resolve_color("auto", false, &Some("1".to_string()), false));
    assert!(!resolve_color("auto", false, &Some("0".to_string()), false));
    assert!(resolve_color("auto", false, &None, true));
}

/// A write that fails is no matter to what a run says of itself.
#[test]
fn a_notice_that_cannot_be_written_is_no_failure() {
    let output = fixtures().run(&["--version"]);
    let reason = "the write failed".to_string();
    let end = settle(output, &Some(WriteFailure { broken_pipe: false, reason }));
    assert_eq!(end.code, EXIT_OK);
    assert!(end.errors.is_empty());
}

#[test]
fn usage_names_the_defaults() {
    let text = usage();
    for want in ["2500", "5000", "16", "100", "--list-rules", "--no-config"] {
        assert!(text.contains(want), "{text}");
    }
}

/// Usage printed because a flag was wrong is diagnostic output, so it stays on
/// stderr alongside the error and leaves stdout clean.
#[test]
fn usage_after_a_wrong_flag_goes_to_stderr() {
    let (code, stdout, stderr) = run_args(&["--nope"]);
    assert_eq!(code, EXIT_USAGE);
    assert!(stdout.is_empty(), "{stdout}");
    assert!(
        stderr.contains("flag provided but not defined")
            && stderr.contains("lintmatter lints agent instruction files"),
        "{stderr}"
    );
}

/// Whatever the flags, leaving the path out is naming the current directory.
#[test]
fn a_dot_behind_the_flags_changes_nothing() {
    let world = fixtures().with("/work/.lintmatter.yaml", "max-agents-tokens: 5\n");
    let lines: [&[&str]; 9] = [
        &["--strict"],
        &["--quiet", "--color", "always"],
        &["--disable=name.format", "--exclude", "broken"],
        &["--config", "/work/.lintmatter.yaml"],
        &["--config", "missing.yaml"],
        &["--no-config", "--max-skill-tokens", "3"],
        &["--max-skill-tokens=-1"],
        &["--format", "xml"],
        &["--list-rules"],
    ];
    for flags in lines {
        let mut dotted = flags.to_vec();
        dotted.push(".");
        assert_eq!(outcome(world.run(flags)), outcome(world.run(&dotted)), "{flags:?}");
    }
}

#[test]
fn only_the_first_word_asks_for_the_wizard() {
    assert!(is_init(&strings(&["init"])));
    assert!(is_init(&strings(&["init", "--force"])));
    assert!(!is_init(&strings(&[])));
    assert!(!is_init(&strings(&["--strict", "init"])));
    assert!(!is_init(&strings(&["initial"])));
}
