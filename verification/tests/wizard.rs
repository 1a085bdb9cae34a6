use lintmatter::cli::{EXIT_OK, EXIT_USAGE};
use lintmatter::config::{
    parse, Settings, DEFAULT_MAX_AGENTS_TOKENS, DEFAULT_MAX_SKILL_DESCRIPTION_TOKENS,
    DEFAULT_MAX_SKILL_NAME_TOKENS, DEFAULT_MAX_SKILL_TOKENS, YAML_FILE_NAME, YML_FILE_NAME,
};
use lintmatter::init::{render, resolve_rules, unwritable, wrote};
use lintmatter::program::{launch, Job};
use lintmatter::run::Surroundings;
use lintmatter::wizard::{start, step, Action, Event, Unwritten};

const FILE_NAMES: [&str; 2] = [YAML_FILE_NAME, YML_FILE_NAME];

/// Runs the wizard in a directory that has some of the config files, returning
/// the exit code, the two streams, and the file it writes.
fn init(
    existing: &[&str],
    args: &[&str],
    answers: &str,
    above: Option<&str>,
) -> (i32, String, String, Option<(String, String)>) {
    let args: Vec<String> = args.iter().map(|s| s.to_string()).collect();
    let mut lines = answers.lines();
    let mut stdout = String::new();
    let mut written = None;
    let (mut stage, mut action) = start(&args);
    loop {
        let event = match action {
            Action::Survey => Event::Surveyed {
                yaml: existing.contains(&YAML_FILE_NAME),
                yml: existing.contains(&YML_FILE_NAME),
                above: above.map(|s| s.to_string()),
            },
            Action::Ask(shown) => {
                stdout.push_str(&shown);
                Event::Line(lines.next().map(|s| s.to_string()))
            }
            Action::Write { shown, name, text } => {
                stdout.push_str(&shown);
                written = Some((name.to_string(), text));
                Event::Written(None)
            }
            Action::Finish { shown, errors, code } => {
                stdout.push_str(&shown);
                return (code, stdout, errors, written);
            }
        };
        let (next, asked) = step(stage, event);
        stage = next;
        action = asked;
    }
}

/// The generated file must be one that is accepted, and must mean exactly what
/// the answers said.
fn parsed(body: &str) -> Settings {
    parse(body, ".lintmatter.yaml").expect("generated config must parse")
}

#[test]
fn blank_answers_write_the_defaults() {
    let (code, stdout, stderr, written) = init(&[], &[], "\n\n\n\n\n\n", None);
    assert_eq!(code, EXIT_OK, "stdout={stdout} stderr={stderr}");

    let (_, body) = written.expect("a config file");
    assert_eq!(parsed(&body), Settings::default(), "{body}");
    // Every budget is documented, none of them pinned.
    for (key, default) in [
        ("max-agents-tokens", DEFAULT_MAX_AGENTS_TOKENS),
        ("max-skill-tokens", DEFAULT_MAX_SKILL_TOKENS),
        ("max-skill-name-tokens", DEFAULT_MAX_SKILL_NAME_TOKENS),
        ("max-skill-description-tokens", DEFAULT_MAX_SKILL_DESCRIPTION_TOKENS),
    ] {
        assert!(body.contains(&format!("# {key}: {default}\n")), "{body}");
    }
    assert!(body.contains("# rules:"), "{body}");
    assert!(stdout.contains("Wrote .lintmatter.yaml"), "{stdout}");
}

#[test]
fn end_of_input_takes_the_defaults() {
    let (code, stdout, stderr, written) = init(&[], &[], "", None);
    assert_eq!(code, EXIT_OK, "stdout={stdout} stderr={stderr}");
    assert_eq!(parsed(&written.expect("a config file").1), Settings::default());
}

#[test]
fn answers_are_written_and_parse_back() {
    let answers = "3000\n4000\n\n50\ntestdata, tmp\n9, description.length\n";
    let (code, stdout, stderr, written) = init(&[], &[], answers, None);
    assert_eq!(code, EXIT_OK, "stdout={stdout} stderr={stderr}");

    let (_, body) = written.expect("a config file");
    assert_eq!(
        parsed(&body),
        Settings {
            max_agents_tokens: Some(3000),
            max_skill_tokens: Some(4000),
            // Left blank, so it stays the default rather than being pinned.
            max_skill_name_tokens: None,
            max_skill_description_tokens: Some(50),
            excludes: vec!["testdata".to_string(), "tmp".to_string()],
            // Chosen by number and by id, reported in rule order.
            disabled: vec![
                "name.dir-mismatch".to_string(),
                "description.length".to_string(),
            ],
        },
        "{body}"
    );
}

#[test]
fn a_zero_budget_is_kept_rather_than_read_as_no_answer() {
    let (_, _, _, written) = init(&[], &[], "0\n\n\n\n\n\n", None);
    let (_, body) = written.expect("a config file");
    assert_eq!(parsed(&body).max_agents_tokens, Some(0), "{body}");
}

#[test]
fn bad_answers_are_asked_again() {
    let answers = "-1\nlots\n900\n\n\n\n\nbogus.rule\n99\n2\n";
    let (code, stdout, stderr, written) = init(&[], &[], answers, None);
    assert_eq!(code, EXIT_OK, "stdout={stdout} stderr={stderr}");

    assert!(stdout.contains("must be zero or more (0 disables the check)"), "{stdout}");
    assert!(stdout.contains(r#"invalid value "lots""#), "{stdout}");
    assert!(stdout.contains(r#"unknown rule "bogus.rule""#), "{stdout}");
    assert!(stdout.contains("no rule numbered 99"), "{stdout}");

    let (_, body) = written.expect("a config file");
    assert_eq!(
        parsed(&body),
        Settings {
            max_agents_tokens: Some(900),
            disabled: vec!["frontmatter.not-first".to_string()],
            ..Settings::default()
        },
        "{body}"
    );
}

#[test]
fn an_existing_config_is_not_overwritten_without_force() {
    for name in FILE_NAMES {
        let (code, stdout, stderr, written) = init(&[name], &[], "\n\n\n\n\n\n", None);
        assert_eq!(code, EXIT_USAGE, "stdout={stdout} stderr={stderr}");
        assert!(stderr.contains(&format!("{name} already exists")), "{stderr}");
        assert!(written.is_none());
    }
}

#[test]
fn force_rewrites_the_file_that_is_already_there() {
    // The .yml spelling is rewritten in place: writing .lintmatter.yaml
    // instead would leave two configs with only the new one being read.
    for name in FILE_NAMES {
        let (code, stdout, stderr, written) = init(&[name], &["--force"], "\n\n\n\n\n\n", None);
        assert_eq!(code, EXIT_OK, "stdout={stdout} stderr={stderr}");

        let (target, body) = written.expect("a config file");
        assert_eq!(target, name);
        assert_eq!(parsed(&body), Settings::default(), "{body}");
        assert!(stdout.contains(&format!("Wrote {name}")), "{stdout}");
    }
}

#[test]
fn a_config_further_up_is_pointed_out() {
    let (code, stdout, _, written) = init(&[], &[], "", Some("/tmp/x/.lintmatter.yaml"));
    assert_eq!(code, EXIT_OK, "stdout={stdout}");
    assert!(stdout.contains("already applies"), "{stdout}");
    assert_eq!(written.expect("a config file").0, ".lintmatter.yaml");
}

#[test]
fn init_usage_errors() {
    let cases: &[(&str, &[&str], &str)] = &[
        ("unknown flag", &["--wizard"], "flag provided but not defined"),
        ("a path", &["skills/"], "init takes no paths"),
        ("a path after a flag", &["--force", "."], "init takes no paths"),
    ];
    for (name, args, want) in cases {
        let (code, stdout, stderr, written) = init(&[], args, "\n\n\n\n\n\n", None);
        assert_eq!(code, EXIT_USAGE, "{name}: stdout={stdout} stderr={stderr}");
        assert!(stderr.contains(want), "{name}: {stderr}");
        assert!(written.is_none(), "{name}: wrote a file anyway");
    }
}

#[test]
fn help_writes_usage_and_no_file() {
    let (code, _, stderr, written) = init(&[], &["--help"], "", None);
    assert_eq!(code, EXIT_OK);
    assert!(stderr.contains("lintmatter init [--force]"), "{stderr}");
    assert!(written.is_none());
}

/// Whatever can be written without quotes is read back, to the letter.
#[test]
fn plain_settings_are_read_back() {
    let cases: &[&[&str]] = &[
        &["docs/**", "my notes", "a[b]{c}", "_x", "/abs/path", ".github", "v1.2.3", "x-1e5"],
        &["caf\u{e9}", "nan1", "truest", "Nullable", "falsey", "inf"],
        &["e5", "x & y", "a,b", "it's", "say\"hi\"", "tail-", "q?", "a*b"],
    ];
    for excludes in cases {
        let want = Settings {
            max_agents_tokens: Some(i64::MAX),
            max_skill_tokens: None,
            max_skill_name_tokens: Some(0),
            max_skill_description_tokens: Some(7),
            excludes: excludes.iter().map(|s| s.to_string()).collect(),
            disabled: vec!["name.format".to_string(), "tokens.name".to_string()],
        };
        let body = render(&want);
        assert_eq!(parsed(&body), want, "{body}");
    }
}

#[test]
fn rules_are_picked_by_number_or_id() {
    assert_eq!(
        resolve_rules("17, frontmatter.missing, 1").unwrap(),
        vec!["frontmatter.missing".to_string(), "file-reference.missing".to_string()]
    );
    assert_eq!(resolve_rules(" , ").unwrap(), Vec::<String>::new());
    assert_eq!(resolve_rules("0").unwrap_err(), "no rule numbered 0: pick 1 to 17");
    assert_eq!(
        resolve_rules("nope").unwrap_err(),
        "unknown rule \"nope\": run --list-rules to see them all"
    );
}

#[test]
fn a_file_that_cannot_be_written_is_named() {
    assert_eq!(
        unwritable("/x/.lintmatter.yaml", "Permission denied"),
        "lintmatter: cannot write /x/.lintmatter.yaml: Permission denied\n"
    );
}

/// Globs are what the wizard asks for, and most of them mean something else to
/// YAML when they stand bare.
#[test]
fn excludes_that_need_quotes_parse_back() {
    let (code, _, _, written) =
        init(&[], &[], "\n\n\n\n*.tmp, a #b, a: b, 1.0, null, vendor/**, \"x\\y\"\n\n", None);
    assert_eq!(code, EXIT_OK);
    let (_, body) = written.expect("a config file");
    for line in [
        "  - \"*.tmp\"\n",
        "  - \"a #b\"\n",
        "  - \"a: b\"\n",
        "  - \"1.0\"\n",
        "  - \"null\"\n",
        "  - vendor/**\n",
        "  - \"\\\"x\\\\y\\\"\"\n",
    ] {
        assert!(body.contains(line), "{line:?} is not in {body}");
    }
    assert_eq!(
        parsed(&body).excludes,
        ["*.tmp", "a #b", "a: b", "1.0", "null", "vendor/**", "\"x\\y\""]
    );
}

#[test]
fn any_exclude_parses_back() {
    let odd = [
        "true", "False", ".nan", "~", "-", "- a", "?", ": ", "[a]", "{a}", "&a", "!a", "|", ">", "%a",
        "@a", "`a`", "'a'", "'", "\"", "\\", "\\n", "#", "a\tb", "\ta", "a ", " a", "0x1f", "007", "-1",
        "1e3", "...", "---", "a\nb", "a\r\nb", "a\0b", "a\0007", "\u{feff}a", "a\u{feff}b", "\u{7}", "\u{85}",
        "\u{2028}", "é*", "日本/*.md", "*.md", "**/*.md", "../a", ".git", "/abs", "_x", "a,b",
    ];
    for text in odd {
        let s = Settings { excludes: vec![text.to_string()], ..Settings::default() };
        let body = render(&s);
        assert_eq!(parse(&body, "p"), Ok(s), "{text:?}: {body}");
    }
    let all = Settings {
        max_agents_tokens: Some(0),
        max_skill_tokens: None,
        max_skill_name_tokens: Some(i64::MAX),
        max_skill_description_tokens: None,
        excludes: odd.iter().map(|t| t.to_string()).collect(),
        disabled: vec!["name.format".to_string(), "tokens.content".to_string()],
    };
    assert_eq!(parse(&render(&all), "p"), Ok(all));

    let long = Settings { excludes: vec!["*".repeat(5000)], ..Settings::default() };
    assert_eq!(parse(&render(&long), "p"), Ok(long));
}

/// Drives the wizard up to the file it writes.
fn to_the_file(args: &[&str]) -> (lintmatter::wizard::Stage, Action) {
    let args: Vec<String> = args.iter().map(|s| s.to_string()).collect();
    let (stage, action) = start(&args);
    assert!(matches!(action, Action::Survey));
    let (mut stage, mut action) =
        step(stage, Event::Surveyed { yaml: false, yml: true, above: None });
    while matches!(action, Action::Ask(_)) {
        let (next, asked) = step(stage, Event::Line(Some(" \n".to_string())));
        stage = next;
        action = asked;
    }
    (stage, action)
}

#[test]
fn a_refusal_writes_nothing() {
    for name in FILE_NAMES {
        let (code, stdout, stderr, written) = init(&[name], &[], "\n\n\n\n\n\n", None);
        assert_eq!(code, EXIT_USAGE);
        assert_eq!(stdout, "");
        assert!(stderr.contains(&format!("{name} already exists")), "{stderr}");
        assert_eq!(written, None);
    }
}

#[test]
fn a_rewrite_ends_well() {
    let (stage, action) = to_the_file(&["--force"]);
    let Action::Write { name, text, .. } = action else {
        panic!("{action:?}");
    };
    assert_eq!(name, YML_FILE_NAME);
    assert_eq!(parsed(&text), Settings::default());
    let (_, end) = step(stage, Event::Written(None));
    let Action::Finish { shown, errors, code } = end else {
        panic!("{end:?}");
    };
    assert_eq!((shown.as_str(), errors.as_str(), code), ("\nWrote .lintmatter.yml\n", "", EXIT_OK));
}

#[test]
fn a_failed_write_is_a_usage_error() {
    let (stage, _) = to_the_file(&["-f"]);
    let failure = Unwritten { path: "/a/b".to_string(), reason: "no room".to_string() };
    let (_, end) = step(stage, Event::Written(Some(failure)));
    let Action::Finish { shown, errors, code } = end else {
        panic!("{end:?}");
    };
    assert_eq!(shown, "");
    assert_eq!(errors, "lintmatter: cannot write /a/b: no room\n");
    assert_eq!(code, EXIT_USAGE);
}

#[test]
fn init_is_dispatched_before_any_flag() {
    let around = Surroundings {
        cwd: "/work".to_string(),
        no_color: false,
        force_color: None,
        is_terminal: false,
    };
    let job = |args: &[&str]| {
        let args: Vec<String> = args.iter().map(|s| s.to_string()).collect();
        launch(&args, &around)
    };
    assert!(matches!(job(&["init"]), Job::Wizard(_, Action::Survey)));
    // What follows is read as the wizard's flags, not as the linter's.
    for rest in ["--strict", "--format", "skills/"] {
        match job(&["init", rest]) {
            Job::Wizard(_, Action::Finish { errors, code, .. }) => {
                assert_eq!(code, EXIT_USAGE);
                assert!(errors.contains("lintmatter init [--force]"), "{errors}");
            }
            _ => panic!("{rest}"),
        }
    }
    assert!(matches!(job(&[]), Job::Lint(..)));
    assert!(matches!(job(&["--strict", "init"]), Job::Lint(..)));
    assert!(matches!(job(&["./init"]), Job::Lint(..)));
}
