use lintmatter::cli::{parse_args, ParseOutcome};
use lintmatter::config::{
    DEFAULT_MAX_AGENTS_TOKENS, DEFAULT_MAX_SKILL_DESCRIPTION_TOKENS, DEFAULT_MAX_SKILL_NAME_TOKENS,
    DEFAULT_MAX_SKILL_TOKENS,
};
use lintmatter::web::{
    accept, answer, bad_request, bind_addr, budget_settings_json, check_clone, check_lint,
    clone_args, contains_text, error_reply, lint_args, render_index, render_page, replace_text,
    reply, validate_github_url, Budgets, LintRequest, Ran, BAD_REQUEST, BUDGETS_PLACEHOLDER,
    GENERIC_ERROR, INVALID_BUDGET_ERROR, INVALID_URL_ERROR, MAX_BUDGET, PAGE_CLASS_PLACEHOLDER,
    PAGE_TITLE_PLACEHOLDER, SERVER_ERROR,
};

const PAGE: &str = "<html><title>{{PAGE_TITLE}}</title><body class=\"{{PAGE_CLASS}}\">\n<p>A linter for agentic context</p>\n<a class=\"landing-cta\" href=\"/demo\">Try it</a>\n<h2 id=\"runner-heading\">Lint a repository</h2>\n<script>const settings = {{BUDGET_SETTINGS}};</script></body></html>\n";

fn budgets(
    agents: Option<i64>,
    skill: Option<i64>,
    name: Option<i64>,
    description: Option<i64>,
) -> Budgets {
    Budgets {
        max_agents_tokens: agents,
        max_skill_tokens: skill,
        max_skill_name_tokens: name,
        max_skill_description_tokens: description,
    }
}

#[test]
fn budgets_become_flags_in_flag_order() {
    assert_eq!(
        budgets(Some(1200), Some(0), Some(8), Some(64)).flags(),
        [
            "--max-agents-tokens",
            "1200",
            "--max-skill-tokens",
            "0",
            "--max-skill-name-tokens",
            "8",
            "--max-skill-description-tokens",
            "64",
        ]
    );
}

/// A budget the caller left out must not reach the command line at all:
/// that is what leaves the clone's own `.lintmatter.yaml` in charge of it.
#[test]
fn omitted_budgets_pass_no_flags() {
    assert_eq!(Budgets::default().flags(), Vec::<String>::new());

    let partial = budgets(None, Some(10), None, None);
    assert_eq!(partial.flags(), ["--max-skill-tokens", "10"]);
}

#[test]
fn validate_rejects_budgets_outside_the_allowed_range() {
    assert!(Budgets::defaults().validate().is_ok());
    assert!(
        Budgets { max_skill_tokens: Some(0), ..Budgets::default() }.validate().is_ok(),
        "0 disables a check and must stay accepted"
    );

    for bad in [-1, MAX_BUDGET + 1] {
        let err = Budgets { max_agents_tokens: Some(bad), ..Budgets::default() }
            .validate()
            .unwrap_err();
        assert!(err.contains("--max-agents-tokens"), "{err}");
    }
}

/// The message spells the ceiling out, so it has to be the ceiling the
/// server actually enforces.
#[test]
fn the_budget_error_names_the_real_ceiling() {
    assert!(
        INVALID_BUDGET_ERROR.contains(&MAX_BUDGET.to_string()),
        "{INVALID_BUDGET_ERROR:?} does not name {MAX_BUDGET}"
    );
}

/// The form starts from these, so they are the linter's defaults or the
/// page is quietly lying about what it enforces.
#[test]
fn defaults_are_the_linters_own() {
    let got = Budgets::defaults();
    assert_eq!(got.max_agents_tokens, Some(DEFAULT_MAX_AGENTS_TOKENS));
    assert_eq!(got.max_skill_tokens, Some(DEFAULT_MAX_SKILL_TOKENS));
    assert_eq!(got.max_skill_name_tokens, Some(DEFAULT_MAX_SKILL_NAME_TOKENS));
    assert_eq!(got.max_skill_description_tokens, Some(DEFAULT_MAX_SKILL_DESCRIPTION_TOKENS));
}

/// The served page must carry the linter's real defaults, not a
/// placeholder the form would then read as `undefined`.
#[test]
fn render_index_substitutes_the_budget_settings() {
    let rendered = render_index(PAGE);
    assert!(!rendered.contains(BUDGETS_PLACEHOLDER), "the placeholder survived rendering");
    for needle in [
        &format!("\"max_agents_tokens\":{DEFAULT_MAX_AGENTS_TOKENS}"),
        &format!("\"max_skill_tokens\":{DEFAULT_MAX_SKILL_TOKENS}"),
        &format!("\"max_skill_name_tokens\":{DEFAULT_MAX_SKILL_NAME_TOKENS}"),
        &format!("\"max_skill_description_tokens\":{DEFAULT_MAX_SKILL_DESCRIPTION_TOKENS}"),
    ] {
        assert!(rendered.contains(needle.as_str()), "rendered page is missing {needle}");
    }
}

#[test]
fn page_variants_select_the_right_view() {
    let landing = render_page(PAGE, "landing", "lintmatter");
    let demo = render_page(PAGE, "demo", "Try lintmatter");

    assert!(landing.contains("<body class=\"landing\">"));
    assert!(landing.contains("<title>lintmatter</title>"));
    assert!(landing.contains("A linter for agentic context"));
    assert!(landing.contains("class=\"landing-cta\" href=\"/demo\""));
    assert!(demo.contains("<body class=\"demo\">"));
    assert!(demo.contains("<title>Try lintmatter</title>"));
    assert!(demo.contains("id=\"runner-heading\">Lint a repository"));
    assert!(!landing.contains(PAGE_CLASS_PLACEHOLDER));
    assert!(!demo.contains(PAGE_TITLE_PLACEHOLDER));
}

#[test]
fn the_settings_are_json() {
    assert_eq!(
        budget_settings_json(),
        "{\"defaults\":{\"max_agents_tokens\":2500,\"max_skill_tokens\":5000,\"max_skill_name_tokens\":16,\"max_skill_description_tokens\":100},\"max\":1000000}"
    );
    let value: serde_json::Value = serde_json::from_str(&budget_settings_json()).unwrap();
    assert_eq!(value["max"], 1_000_000);
    assert_eq!(value["defaults"]["max_skill_tokens"], 5000);
}

#[test]
fn a_faulty_budget_is_named_with_its_value() {
    assert_eq!(
        budgets(None, Some(7), Some(-3), Some(-4)).validate().unwrap_err(),
        "--max-skill-name-tokens is -3, outside 0..=1000000"
    );
}

#[test]
fn only_repository_urls_are_accepted() {
    let good = [
        ("https://github.com/o/r", "https://github.com/o/r"),
        ("  https://github.com/o/r/ ", "https://github.com/o/r"),
        ("https://github.com/o/r.git", "https://github.com/o/r"),
        ("https://github.com/O-o_1/r.x", "https://github.com/O-o_1/r.x"),
    ];
    for (raw, want) in good {
        assert_eq!(validate_github_url(raw).as_deref(), Ok(want), "{raw}");
    }
    let bad = [
        ("http://github.com/o/r", "URL must start with https://github.com/"),
        ("ext::sh -c id", "URL must start with https://github.com/"),
        ("https://github.com/o", "URL must look like https://github.com/<owner>/<repo>"),
        ("https://github.com/o/r/tree", "URL must look like https://github.com/<owner>/<repo>"),
        ("https://github.com/o/r//", "URL must look like https://github.com/<owner>/<repo>"),
        ("https://github.com/o/r?x=1", "owner/repo contains invalid characters"),
        ("https://github.com//r", "owner/repo contains invalid characters"),
        ("https://github.com/o/.git", "owner/repo contains invalid characters"),
    ];
    for (raw, want) in bad {
        assert_eq!(validate_github_url(raw).unwrap_err(), want, "{raw}");
    }
}

#[test]
fn a_request_is_judged_by_url_then_budgets() {
    let req = |url: &str, b: Budgets| LintRequest { url: url.to_string(), budgets: b };
    assert_eq!(
        accept(&req("https://github.com/o/r.git", Budgets::default())).unwrap(),
        "https://github.com/o/r"
    );
    let err = accept(&req("nope", budgets(Some(-1), None, None, None))).unwrap_err();
    assert_eq!((err.status, err.public_message), (BAD_REQUEST, INVALID_URL_ERROR));
    let err = accept(&req("https://github.com/o/r", budgets(Some(-1), None, None, None)))
        .unwrap_err();
    assert_eq!((err.status, err.public_message), (BAD_REQUEST, INVALID_BUDGET_ERROR));
    assert_eq!(err.log_detail, "--max-agents-tokens is -1, outside 0..=1000000");
}

#[test]
fn what_other_programs_say_is_logged_and_not_sent() {
    assert!(check_clone(&Ran::Exited(Some(0), "noise".to_string())).is_none());
    let err = check_clone(&Ran::Exited(Some(128), "  fatal: no\n".to_string())).unwrap();
    assert_eq!(err.status, BAD_REQUEST);
    assert_eq!(err.log_detail, "git clone failed: fatal: no");
    assert!(err.public_message.starts_with("Could not clone that repository."));
    let err = check_clone(&Ran::TimedOut).unwrap();
    assert_eq!(err.public_message, "Cloning that repository timed out. Please try again.");
    let err = check_clone(&Ran::Unrunnable("no git".to_string())).unwrap();
    assert_eq!((err.status, err.public_message), (SERVER_ERROR, GENERIC_ERROR));

    assert!(check_lint(&Ran::Exited(Some(0), String::new())).is_none());
    assert!(check_lint(&Ran::Exited(Some(1), String::new())).is_none());
    let err = check_lint(&Ran::Exited(None, " killed ".to_string())).unwrap();
    assert_eq!((err.status, err.public_message), (SERVER_ERROR, GENERIC_ERROR));
    assert_eq!(err.log_detail, "lintmatter failed: killed");
    assert!(check_lint(&Ran::TimedOut).is_some());
    assert!(check_lint(&Ran::Unrunnable("gone".to_string())).is_some());
}

#[test]
fn the_programs_get_their_arguments() {
    assert_eq!(
        clone_args("https://github.com/o/r", "/tmp/d"),
        ["clone", "--depth", "1", "--", "https://github.com/o/r", "/tmp/d"]
    );
    assert_eq!(
        lint_args(&budgets(None, Some(10), None, None)),
        ["--format", "json", "--max-skill-tokens", "10"]
    );
}

#[test]
fn the_server_listens_on_loopback_unless_told() {
    assert_eq!(bind_addr(&None, None), "127.0.0.1:3000");
    assert_eq!(bind_addr(&Some("0.0.0.0".to_string()), Some(80)), "0.0.0.0:80");
}

#[test]
fn texts_are_replaced_from_the_left() {
    assert_eq!(replace_text("aaaa", "aa", "b"), "bb");
    assert_eq!(replace_text("aaa", "aa", "b"), "ba");
    assert_eq!(replace_text("x{{A}}y{{A}}", "{{A}}", "{{A}}z"), "x{{A}}zy{{A}}z");
    assert!(contains_text("abc", "bc") && contains_text("abc", ""));
    assert!(!contains_text("abc", "cb"));
}

/// The linter understands what it is given.
#[test]
fn the_linter_takes_in_the_budgets() {
    for b in [Budgets::default(), Budgets::defaults(), budgets(None, Some(0), None, Some(9))] {
        let ParseOutcome::Flags(f) = parse_args(&lint_args(&b)) else {
            panic!("want flags");
        };
        assert_eq!(f.format, "json");
        assert_eq!(f.max_agents_tokens, b.max_agents_tokens);
        assert_eq!(f.max_skill_tokens, b.max_skill_tokens);
        assert_eq!(f.max_skill_name_tokens, b.max_skill_name_tokens);
        assert_eq!(f.max_skill_description_tokens, b.max_skill_description_tokens);
        assert!(f.paths.is_empty() && !f.strict && !f.quiet);
    }
}

/// No placeholder survives, even where the page crowds them.
#[test]
fn a_served_page_has_no_placeholder() {
    let crowded = "{{{BUDGET_SETTINGS}}}{{PAGE_CLASS}}{{PAGE_TITLE}}{{PAGE_CLASS}}{";
    let page = render_page(crowded, "demo", "Try lintmatter");
    for placeholder in [BUDGETS_PLACEHOLDER, PAGE_CLASS_PLACEHOLDER, PAGE_TITLE_PLACEHOLDER] {
        assert!(!page.contains(placeholder), "{page}");
    }
}

#[test]
fn an_answer_is_the_report_with_url_and_budgets() {
    let budgets = Budgets { max_skill_tokens: Some(10), ..Budgets::default() };
    let stdout = br#"{"version":1,"files":[{"path":"a","score":1.5}],"url":"old","ok":[true,null]}"#;
    let ran = Ran::Exited(Some(1), "ignored".to_string());
    let got = answer("https://github.com/o/r".to_string(), &budgets, &ran, stdout).unwrap();
    let want: serde_json::Value = serde_json::from_str(
        r#"{"version":1,"files":[{"path":"a","score":1.5}],"ok":[true,null],
            "url":"https://github.com/o/r",
            "budgets":{"max_agents_tokens":null,"max_skill_tokens":10,
                "max_skill_name_tokens":null,"max_skill_description_tokens":null}}"#,
    )
    .unwrap();
    assert_eq!(got, want);

    // What is no object is handed on as it is.
    let got = answer("u".to_string(), &budgets, &ran, b"[1]").unwrap();
    assert_eq!(got, serde_json::Value::from(vec![1]));
}

#[test]
fn an_unreadable_report_is_the_servers_fault() {
    let ran = Ran::Exited(Some(0), String::new());
    for stdout in ["", "{", "not json", "{} {}", "\u{feff}{}"] {
        let err =
            answer("u".to_string(), &Budgets::defaults(), &ran, stdout.as_bytes()).unwrap_err();
        assert_eq!(err.status, SERVER_ERROR);
        assert_eq!(err.public_message, GENERIC_ERROR);
        assert!(err.log_detail.starts_with("failed to parse lintmatter output: "), "{stdout}");
    }
    // A run that failed has no report to read.
    let ran = Ran::Exited(Some(2), " usage ".to_string());
    let err = answer("u".to_string(), &Budgets::defaults(), &ran, b"{}").unwrap_err();
    assert_eq!(err.log_detail, "lintmatter failed: usage");

    let err = reply(Err("broken".to_string()), "u".to_string(), &Budgets::defaults()).unwrap_err();
    assert_eq!(err.log_detail, "failed to parse lintmatter output: broken");
}

#[test]
fn an_error_tells_its_public_message_alone() {
    let err = bad_request("/internal/path".to_string(), INVALID_URL_ERROR);
    let sent = error_reply(&err);
    assert_eq!(sent["error"], INVALID_URL_ERROR);
    assert_eq!(sent.as_object().unwrap().len(), 1);
}
