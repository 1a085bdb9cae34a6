use lintmatter::config::{
    Config, DEFAULT_MAX_AGENTS_TOKENS, DEFAULT_MAX_SKILL_DESCRIPTION_TOKENS,
    DEFAULT_MAX_SKILL_NAME_TOKENS, DEFAULT_MAX_SKILL_TOKENS,
};
use lintmatter::discover::{unreadable, Kind, Target};
use lintmatter::lint::ids::{
    rule_ids as all_rule_ids, RULE_ALLOWED_TOOLS_TYPE, RULE_DESCRIPTION_LENGTH,
    RULE_DESCRIPTION_REQUIRED, RULE_FILE_REFERENCE_MISSING, RULE_FRONTMATTER_INVALID,
    RULE_FRONTMATTER_MISSING, RULE_FRONTMATTER_NOT_FIRST, RULE_FRONTMATTER_UNKNOWN_KEY,
    RULE_FRONTMATTER_UNTERMINATED, RULE_METADATA_TYPE, RULE_NAME_DIR_MISMATCH, RULE_NAME_FORMAT,
    RULE_NAME_LENGTH, RULE_NAME_REQUIRED, RULE_TOKENS_CONTENT, RULE_TOKENS_DESCRIPTION,
    RULE_TOKENS_NAME,
};
use lintmatter::lint::rules::references::link_target_path;
use lintmatter::lint::score::{budget_score, part, score, Part};
use lintmatter::lint::{
    Counts, FileResult, Finding, FindingSink, Linter, Mark, Severity, Tally, MAX_DESCRIPTION_CHARS,
    MAX_NAME_CHARS,
};
use lintmatter::tokens::{Counter, Estimator};

/// A directory and the files that exist anywhere.
struct Dir {
    path: String,
    files: Vec<String>,
}

impl Dir {
    fn new() -> Dir {
        Dir { path: "/tmp/base".to_string(), files: Vec::new() }
    }

    fn write_file(&mut self, name: &str) {
        self.files.push(format!("{}/{}", self.path, name));
    }

    fn sub(&self, name: &str) -> Dir {
        Dir { path: format!("{}/{}", self.path, name), files: self.files.clone() }
    }
}

/// A file to lint, with its contents and the files around it.
struct Case {
    target: Target,
    src: String,
    files: Vec<String>,
}

fn write_skill(skill_name: &str, src: &str) -> Case {
    Case {
        target: Target {
            path: format!("/tmp/base/{skill_name}/SKILL.md"),
            kind: Kind::Skill,
            root: "/tmp/base".to_string(),
        },
        src: src.to_string(),
        files: Vec::new(),
    }
}

fn agents_target(dir: &Dir, src: &str) -> Case {
    agents_target_under(dir, dir, src)
}

/// An AGENTS.md written into `dir`, but discovered under walk root `root`.
/// Separate from `agents_target` so a fixture can sit below its root, which
/// is what makes a `../` reference back into the tree distinguishable from
/// one that escapes it.
fn agents_target_under(root: &Dir, dir: &Dir, src: &str) -> Case {
    Case {
        target: Target {
            path: format!("{}/AGENTS.md", dir.path),
            kind: Kind::Agents,
            root: root.path.clone(),
        },
        src: src.to_string(),
        files: dir.files.clone(),
    }
}

fn run_linter<C: Counter>(linter: Linter<C>, case: &Case) -> FileResult {
    let wanted = linter.references(&case.target, case.src.as_bytes());
    let existing: Vec<String> = wanted.into_iter().filter(|p| case.files.contains(p)).collect();
    linter.check(&case.target, case.src.as_bytes(), &existing)
}

fn lint_from(cfg: Config, cwd: &str, case: &Case) -> FileResult {
    run_linter(Linter::with_cwd(cfg, None::<Estimator>, cwd.to_string()), case)
}

fn lint(cfg: Config, case: &Case) -> FileResult {
    lint_from(cfg, "/work", case)
}

/// A counter reporting a fixed number, so a score test can sit exactly on
/// a budget boundary instead of depending on the estimator's heuristics.
struct Fixed(usize);

impl Counter for Fixed {
    fn count(&self, _: &str) -> usize {
        self.0
    }
}

fn lint_counted(cfg: Config, count: usize, case: &Case) -> FileResult {
    run_linter(Linter::with_cwd(cfg, Some(Fixed(count)), "/work".to_string()), case)
}

fn rule_ids(findings: &[Finding]) -> Vec<&str> {
    findings.iter().map(|f| f.rule).collect()
}

/// Every budget off, so rule tests see only the rule under test. Spelled
/// out rather than derived from Config::default(), which now carries the
/// real budgets -- keep it explicit.
fn generous_config() -> Config {
    Config {
        max_agents_tokens: 0,
        max_skill_tokens: 0,
        max_skill_name_tokens: 0,
        max_skill_description_tokens: 0,
        disabled: Vec::new(),
        strict: false,
    }
}

const VALID_SKILL: &str = "---\nname: valid-skill\ndescription: Use this skill when you need a fixture that passes every rule.\n---\n\n# Valid skill\n\nBody content.\n";

#[test]
fn skill_frontmatter_rules() {
    let long_name = "a".repeat(MAX_NAME_CHARS + 1);
    let long_desc = "x".repeat(MAX_DESCRIPTION_CHARS + 1);
    let cases: Vec<(&str, &str, String, Vec<&str>)> = vec![
        ("valid skill has no findings", "valid-skill", VALID_SKILL.to_string(), vec![]),
        (
            "missing front matter",
            "no-frontmatter",
            "# A skill with no front matter\n\nBody.\n".to_string(),
            vec![RULE_FRONTMATTER_MISSING],
        ),
        (
            "front matter not first",
            "late-frontmatter",
            "\n---\nname: late-frontmatter\ndescription: Late.\n---\n".to_string(),
            vec![RULE_FRONTMATTER_NOT_FIRST],
        ),
        (
            "unterminated front matter",
            "unterminated",
            "---\nname: unterminated\ndescription: No closing fence.\n".to_string(),
            vec![RULE_FRONTMATTER_UNTERMINATED],
        ),
        (
            "invalid yaml",
            "bad-yaml",
            "---\nname: bad-yaml\n  description: wrong indent\n---\nBody.\n".to_string(),
            vec![RULE_FRONTMATTER_INVALID],
        ),
        (
            "front matter is a sequence",
            "sequence",
            "---\n- name: sequence\n---\nBody.\n".to_string(),
            vec![RULE_FRONTMATTER_INVALID],
        ),
        (
            "name missing",
            "nameless",
            "---\ndescription: A skill with no name.\n---\nBody.\n".to_string(),
            vec![RULE_NAME_REQUIRED],
        ),
        (
            "name empty",
            "empty-name",
            "---\nname: \"\"\ndescription: A skill with an empty name.\n---\nBody.\n".to_string(),
            vec![RULE_NAME_REQUIRED],
        ),
        (
            "name not a scalar",
            "listy-name",
            "---\nname:\n  - listy-name\ndescription: A skill whose name is a list.\n---\nBody.\n"
                .to_string(),
            vec![RULE_NAME_REQUIRED],
        ),
        (
            "name has bad characters",
            "Bad_Name",
            "---\nname: Bad_Name\ndescription: A skill with an invalid name.\n---\nBody.\n".to_string(),
            vec![RULE_NAME_FORMAT],
        ),
        (
            "name has double hyphen",
            "double--hyphen",
            "---\nname: double--hyphen\ndescription: A skill with a doubled hyphen.\n---\nBody.\n"
                .to_string(),
            vec![RULE_NAME_FORMAT],
        ),
        (
            "name too long",
            "long",
            format!(
                "---\nname: {long_name}\ndescription: A skill with a very long name.\n---\nBody.\n"
            ),
            vec![RULE_NAME_LENGTH, RULE_NAME_DIR_MISMATCH],
        ),
        (
            "name does not match directory",
            "some-directory",
            "---\nname: other-name\ndescription: A skill in a mismatched directory.\n---\nBody.\n"
                .to_string(),
            vec![RULE_NAME_DIR_MISMATCH],
        ),
        (
            "description missing",
            "no-description",
            "---\nname: no-description\n---\nBody.\n".to_string(),
            vec![RULE_DESCRIPTION_REQUIRED],
        ),
        (
            "description empty",
            "blank-description",
            "---\nname: blank-description\ndescription: \"   \"\n---\nBody.\n".to_string(),
            vec![RULE_DESCRIPTION_REQUIRED],
        ),
        (
            "description too long",
            "verbose",
            format!("---\nname: verbose\ndescription: {long_desc}\n---\nBody.\n"),
            vec![RULE_DESCRIPTION_LENGTH],
        ),
        (
            "unknown key",
            "extra-keys",
            "---\nname: extra-keys\ndescription: A skill with a stray key.\nauthor: someone\n---\nBody.\n"
                .to_string(),
            vec![RULE_FRONTMATTER_UNKNOWN_KEY],
        ),
        (
            "known optional keys are accepted",
            "optional-keys",
            "---\nname: optional-keys\ndescription: A skill using every optional key.\nlicense: MIT\nallowed-tools:\n  - Read\n  - Bash\nmetadata:\n  owner: infra\n---\nBody.\n".to_string(),
            vec![],
        ),
        (
            "allowed-tools wrong type",
            "bad-tools",
            "---\nname: bad-tools\ndescription: A skill with a malformed tool list.\nallowed-tools:\n  read: true\n---\nBody.\n".to_string(),
            vec![RULE_ALLOWED_TOOLS_TYPE],
        ),
        (
            "metadata wrong type",
            "bad-metadata",
            "---\nname: bad-metadata\ndescription: A skill with scalar metadata.\nmetadata: not-a-mapping\n---\nBody.\n".to_string(),
            vec![RULE_METADATA_TYPE],
        ),
        (
            "several problems are all reported",
            "multi",
            "---\nname: Multi_Skill\nextra: true\n---\nBody.\n".to_string(),
            vec![
                RULE_FRONTMATTER_UNKNOWN_KEY,
                RULE_NAME_FORMAT,
                RULE_NAME_DIR_MISMATCH,
                RULE_DESCRIPTION_REQUIRED,
            ],
        ),
    ];

    for (name, skill_dir_name, src, want_rules) in cases {
        let target = write_skill(skill_dir_name, &src);
        let res = lint(generous_config(), &target);
        assert_eq!(rule_ids(&res.findings), want_rules, "{name}");
    }
}

#[test]
fn token_budgets() {
    let target = write_skill("budgeted", VALID_SKILL);

    let mut cfg = generous_config();
    cfg.max_skill_tokens = 1;
    let res = lint(cfg, &target);
    assert_eq!(
        rule_ids(&res.findings),
        vec![RULE_NAME_DIR_MISMATCH, RULE_TOKENS_CONTENT]
    );

    let mut cfg = generous_config();
    cfg.max_skill_tokens = 0;
    let res = lint(cfg, &target);
    assert_eq!(rule_ids(&res.findings), vec![RULE_NAME_DIR_MISMATCH]);

    let mut cfg = generous_config();
    cfg.max_skill_name_tokens = 1;
    let res = lint(cfg, &target);
    assert_eq!(
        rule_ids(&res.findings),
        vec![RULE_NAME_DIR_MISMATCH, RULE_TOKENS_NAME]
    );

    let mut cfg = generous_config();
    cfg.max_skill_description_tokens = 2;
    let res = lint(cfg, &target);
    assert_eq!(
        rule_ids(&res.findings),
        vec![RULE_NAME_DIR_MISMATCH, RULE_TOKENS_DESCRIPTION]
    );

    let res = lint(generous_config(), &target);
    assert!(res.tokens.content > 0 && res.tokens.name > 0 && res.tokens.description > 0);
}

/// Guards the score against a rule being added and rated by accident: a
/// new id has to be given a part before this passes.
#[test]
fn every_rule_belongs_to_a_score_part() {
    for rule in all_rule_ids().iter() {
        assert!(part(rule).is_some(), "{rule} is not assigned a score part");
    }
}

#[test]
fn frontmatter_score() {
    let valid_body = "description: Use this skill when you need a fixture that passes.";
    let cases: Vec<(&str, &str, String, u8)> = vec![
        (
            "clean skill passes every rule applied to it",
            "valid-skill",
            VALID_SKILL.to_string(),
            100,
        ),
        (
            "one of eight rules fails, and 87.5 floors to 87",
            "Bad_Name",
            format!("---\nname: Bad_Name\n{valid_body}\n---\nBody.\n"),
            87,
        ),
        (
            "a rule firing repeatedly still costs one rule",
            "valid-skill",
            format!(
                "---\nname: valid-skill\n{valid_body}\nauthor: a\nversion: 1\nowner: b\n---\nBody.\n"
            ),
            87,
        ),
        (
            "missing front matter leaves one rule applied, and it failed",
            "no-frontmatter",
            "# No front matter\n\nBody.\n".to_string(),
            0,
        ),
        (
            "unparseable front matter scores the same as none",
            "bad-yaml",
            "---\nname: bad-yaml\n  description: wrong indent\n---\nBody.\n".to_string(),
            0,
        ),
    ];

    for (name, dir, src, want) in cases {
        let target = write_skill(dir, &src);
        let res = lint(generous_config(), &target);
        assert_eq!(res.score, want, "{name}");
    }
}

/// A disabled rule was never applied, so it leaves the fraction entirely;
/// --strict only moves severities, which the score does not read.
#[test]
fn score_follows_disable_but_not_strict() {
    let src = "---\nname: Bad_Name\ndescription: Use this skill for a fixture.\n---\nBody.\n";
    let target = write_skill("Bad_Name", src);

    let res = lint(generous_config(), &target);
    assert_eq!(res.score, 87);

    let mut cfg = generous_config();
    cfg.strict = true;
    let res = lint(cfg, &target);
    assert_eq!(res.score, 87);

    let mut cfg = generous_config();
    cfg.disabled = vec![RULE_NAME_FORMAT.to_string()];
    let res = lint(cfg, &target);
    assert_eq!(res.score, 100);
}

/// Full marks up to the budget, then falling linearly to zero at twice it.
#[test]
fn token_score_grades_the_overage() {
    let base = Dir::new();
    let target = agents_target(&base, "Body.\n");
    let mut cfg = generous_config();
    cfg.max_agents_tokens = 100;

    for (count, want) in [
        (50, 100),
        (100, 100),
        (125, 75),
        (150, 50),
        (200, 0),
        (900, 0),
    ] {
        let res = lint_counted(cfg.clone(), count, &target);
        assert_eq!(res.score, want, "{count} tokens against a 100 token budget");
    }
}

/// A skill's three budgets average into one component, so name and
/// description weigh against the body rather than beside the other parts.
#[test]
fn token_score_averages_the_budgets_that_ran() {
    let target = write_skill("valid-skill", VALID_SKILL);
    let mut cfg = generous_config();
    // Only the body is budgeted, and it sits at twice its limit.
    cfg.max_skill_tokens = 1;
    let res = lint_counted(cfg.clone(), 2, &target);
    // Front matter is perfect, the one budget that ran scores zero.
    assert_eq!(res.score, 50);

    // Budget the name too and it passes, pulling the token part back to 50.
    cfg.max_skill_name_tokens = 2;
    let res = lint_counted(cfg, 2, &target);
    assert_eq!(res.score, 75);
}

#[test]
fn file_reference_score_is_all_or_nothing() {
    let mut base = Dir::new();
    base.write_file("there.md");
    let target = agents_target(&base, "See [there](./there.md).\n");
    let res = lint(generous_config(), &target);
    assert_eq!(res.score, 100);

    let mut base = Dir::new();
    base.write_file("there.md");
    let target = agents_target(
        &base,
        "See [there](./there.md) and [gone](./gone.md).\n",
    );
    let res = lint(generous_config(), &target);
    assert_eq!(res.score, 0);
}

/// An AGENTS.md has no front matter to rate, and with every budget off and
/// nothing to resolve there is nothing left to hold against it.
#[test]
fn parts_with_nothing_to_judge_drop_out() {
    let base = Dir::new();
    let target = agents_target(&base, "Body with no references.\n");
    let res = lint(generous_config(), &target);
    assert_eq!(res.score, 100);

    // Give it a broken reference and a body twice its budget: the two parts
    // that now apply average, with front matter still left out.
    let target = agents_target(&base, "See [gone](./gone.md).\n");
    let mut cfg = generous_config();
    cfg.max_agents_tokens = 100;
    let res = lint_counted(cfg, 200, &target);
    assert_eq!(res.score, 0);
}

#[test]
fn per_kind_content_budget() {
    let base = Dir::new();
    let body = "some filler prose to spend tokens on. ".repeat(20);
    let agents = agents_target(&base, &body);
    let skill = write_skill(
        "kinded",
        &format!("---\nname: kinded\ndescription: A skill with a body.\n---\n{body}"),
    );

    let mut cfg = generous_config();
    cfg.max_skill_tokens = 10000;
    cfg.max_agents_tokens = 1;
    let agents_res = lint(cfg.clone(), &agents);
    assert_eq!(agents_res.errors(), 1);

    let skill_res = lint(cfg.clone(), &skill);
    assert!(
        !skill_res
            .findings
            .iter()
            .any(|f| f.rule == RULE_TOKENS_CONTENT)
    );

    cfg.max_agents_tokens = 0;
    cfg.max_skill_tokens = 1;
    let skill_res = lint(cfg, &skill);
    assert!(
        skill_res
            .findings
            .iter()
            .any(|f| f.rule == RULE_TOKENS_CONTENT)
    );
}

#[test]
fn agents_frontmatter_is_not_validated() {
    let base = Dir::new();
    let src =
        "---\ntitle: Project instructions\nowner: infra\n---\n\n# Instructions\n\nBody.\n";
    let target = agents_target(&base, src);

    let res = lint(generous_config(), &target);
    assert!(res.findings.is_empty());
    assert!(res.tokens.content > 0);
}

#[test]
fn agents_unterminated_frontmatter_is_reported() {
    let base = Dir::new();
    let src = "---\ntitle: Project instructions\n\n# Instructions never closed\n";
    let target = agents_target(&base, src);

    let res = lint(generous_config(), &target);
    assert_eq!(rule_ids(&res.findings), vec![RULE_FRONTMATTER_UNTERMINATED]);
}

#[test]
fn agents_frontmatter_excluded_from_content() {
    let base = Dir::new();
    let fm_src =
        "---\ntitle: A fairly wordy front matter block that costs real tokens\n---\nBody.\n";
    let with_fm = agents_target(&base, fm_src);
    let base2 = Dir::new();
    let bare = agents_target(&base2, "Body.\n");

    let with_res = lint(generous_config(), &with_fm);
    let bare_res = lint(generous_config(), &bare);
    assert_eq!(with_res.tokens.content, bare_res.tokens.content);
}

#[test]
fn name_dir_mismatch_uses_injected_cwd() {
    // name.dir-mismatch deliberately ignores a skill sitting directly in
    // the working directory, since a loose SKILL.md is named for its
    // project rather than its folder. Injecting the cwd is what makes that
    // branch testable: reading it from the process would mean chdir-ing
    // while the rest of the suite runs concurrently.
    let target = write_skill(
        "some-directory",
        "---\nname: other-name\ndescription: A skill in a mismatched directory.\n---\nBody.\n",
    );
    let res = lint_from(generous_config(), "/tmp/base/some-directory", &target);
    assert!(res.findings.is_empty(), "{:?}", rule_ids(&res.findings));

    let res = lint_from(generous_config(), "/tmp/base", &target);
    assert_eq!(rule_ids(&res.findings), vec![RULE_NAME_DIR_MISMATCH]);
}

#[test]
fn default_config_enforces_budgets() {
    let cfg = Config::default();
    assert_eq!(cfg.max_agents_tokens, DEFAULT_MAX_AGENTS_TOKENS);
    assert_eq!(cfg.max_skill_tokens, DEFAULT_MAX_SKILL_TOKENS);
    assert_eq!(cfg.max_skill_name_tokens, DEFAULT_MAX_SKILL_NAME_TOKENS);
    assert_eq!(
        cfg.max_skill_description_tokens,
        DEFAULT_MAX_SKILL_DESCRIPTION_TOKENS
    );

    // The point of the hand-written Default: reaching for it must not
    // hand back a linter that checks nothing.
    let base = Dir::new();
    let body = "some filler prose to spend tokens on. ".repeat(500);
    let target = agents_target(&base, &body);
    let res = lint(Config::default(), &target);
    assert_eq!(rule_ids(&res.findings), vec![RULE_TOKENS_CONTENT]);
}

#[test]
fn strict_promotes_warnings() {
    let target = write_skill(
        "mismatched-dir",
        "---\nname: other-name\ndescription: A skill in a mismatched directory.\n---\nBody.\n",
    );

    let cfg = generous_config();
    let res = lint(cfg.clone(), &target);
    assert_eq!(res.errors(), 0);
    assert_eq!(res.warnings(), 1);

    let mut cfg = cfg;
    cfg.strict = true;
    let res = lint(cfg, &target);
    assert_eq!(res.errors(), 1);
    assert_eq!(res.warnings(), 0);
}

#[test]
fn disable_skips_rules() {
    let target = write_skill(
        "mismatched-dir",
        "---\nname: Bad_Name\ndescription: A skill with an invalid name.\n---\nBody.\n",
    );

    let mut cfg = generous_config();
    cfg.disabled = vec![
        RULE_NAME_FORMAT.to_string(),
        RULE_NAME_DIR_MISMATCH.to_string(),
    ];
    let res = lint(cfg, &target);
    assert!(res.findings.is_empty());
}

#[test]
fn findings_carry_file_and_line() {
    let target = write_skill(
        "lines",
        "---\nname: Bad_Name\ndescription: A skill with an invalid name.\n---\nBody.\n",
    );

    let res = lint(generous_config(), &target);
    // The file is carried once, by the result; findings anchor the line.
    // That the JSON still repeats `file` on each finding is asserted by
    // the CLI's json_output test.
    assert_eq!(res.path, target.target.path);
    for f in &res.findings {
        if f.rule == RULE_NAME_FORMAT {
            assert_eq!(f.line, 2);
        }
    }
}

/// Reading a file is left to the caller; one that is gone is an error of the run.
#[test]
fn missing_file_is_an_error() {
    let err = unreadable("/tmp/base/SKILL.md", "No such file or directory (os error 2)");
    assert_eq!(err, "cannot read /tmp/base/SKILL.md: No such file or directory (os error 2)");
}

#[test]
fn file_reference_rule() {
    {
        let mut dir = Dir::new();
        dir.write_file("notes.md");
        let src = "# Instructions\n\nSee [notes](./notes.md) for details.\n";
        let target = agents_target(&dir, src);
        let res = lint(generous_config(), &target);
        assert!(res.findings.is_empty());
    }
    {
        let dir = Dir::new();
        let src = "# Instructions\n\nSee [notes](./notes.md) for details.\n";
        let target = agents_target(&dir, src);
        let res = lint(generous_config(), &target);
        assert_eq!(rule_ids(&res.findings), vec![RULE_FILE_REFERENCE_MISSING]);
    }
    {
        let dir = Dir::new();
        let src = "See [docs](https://example.com/x), [mail](mailto:a@example.com) and [section](#heading).\n";
        let target = agents_target(&dir, src);
        let res = lint(generous_config(), &target);
        assert!(res.findings.is_empty());
    }
    {
        let dir = Dir::new();
        let src = "Example syntax:\n\n```md\n[example](./missing.md)\n```\n";
        let target = agents_target(&dir, src);
        let res = lint(generous_config(), &target);
        assert!(res.findings.is_empty());
    }
    {
        let target = write_skill(
            "with-link",
            "---\nname: with-link\ndescription: A skill that references a missing helper script.\n---\nSee [helper](./helper.sh).\n",
        );
        let res = lint(generous_config(), &target);
        assert_eq!(rule_ids(&res.findings), vec![RULE_FILE_REFERENCE_MISSING]);
    }
    {
        let dir = Dir::new();
        let src = "# Instructions\n\nIntro line.\n\nSee [notes](./notes.md).\n";
        let target = agents_target(&dir, src);
        let res = lint(generous_config(), &target);
        assert_eq!(res.findings.len(), 1);
        assert_eq!(res.findings[0].line, 5);
    }
}

#[test]
fn file_references_outside_the_linted_tree_are_skipped() {
    // Escapes are skipped whether or not the target exists. lintmatter runs
    // in CI over checkouts it does not trust, and a finding that
    // distinguished "exists" from "does not exist" above the root would
    // make any file's markdown a probe for what is on the host.
    let mut outer = Dir::new();
    outer.write_file("outside.md");
    let root = outer.sub("root");
    let sub = root.sub("sub");

    let escaping: &[(&str, &str)] = &[
        (
            "link to an existing file above the root",
            "See [x](../../outside.md).\n",
        ),
        (
            "link to a missing file above the root",
            "See [x](../../nowhere.md).\n",
        ),
        ("code span escaping the root", "Read `../../outside.md`.\n"),
    ];
    for (name, src) in escaping {
        let target = agents_target_under(&root, &sub, src);
        let res = lint(generous_config(), &target);
        assert!(
            res.findings.is_empty(),
            "{name}: {:?}",
            rule_ids(&res.findings)
        );
    }

    // Control: a missing reference that stays inside the tree is still
    // reported, so the cases above are not passing vacuously.
    let target = agents_target_under(&root, &sub, "See [x](./nowhere.md).\n");
    let res = lint(generous_config(), &target);
    assert_eq!(rule_ids(&res.findings), vec![RULE_FILE_REFERENCE_MISSING]);
}

#[test]
fn file_reference_rule_nested_fences() {
    // A fence closes only on the same marker, at least as long, with no
    // info string. Each case pairs a source file with the rules it should
    // produce, so both directions of the old toggle bug are covered: the
    // block body must stay unscanned, and the tracker must not latch open
    // and swallow the prose that follows.
    let cases: &[(&str, &str, Vec<&str>)] = &[
        (
            "inner ``` does not close an outer ````",
            "````md\n```\n[x](./missing.md)\n```\nstill inside: [y](./gone.md)\n````\n",
            vec![],
        ),
        (
            "~~~ does not close a ``` block",
            "```\n~~~\n[x](./missing.md)\n~~~\n```\n",
            vec![],
        ),
        (
            "a fence carrying an info string does not close",
            "```\n```rust\n[x](./missing.md)\n```\n",
            vec![],
        ),
        (
            "prose after a closed block is still scanned",
            "````\n```\n````\n\nSee [y](./gone.md).\n",
            vec![RULE_FILE_REFERENCE_MISSING],
        ),
        (
            "a longer run closes a shorter block",
            "```\n[x](./missing.md)\n````\n\nSee [y](./gone.md).\n",
            vec![RULE_FILE_REFERENCE_MISSING],
        ),
        (
            "an indented closing fence still closes",
            "```\n[x](./missing.md)\n  ```\n\nSee [y](./gone.md).\n",
            vec![RULE_FILE_REFERENCE_MISSING],
        ),
    ];

    for (name, src, want) in cases {
        let dir = Dir::new();
        let target = agents_target(&dir, src);
        let res = lint(generous_config(), &target);
        assert_eq!(rule_ids(&res.findings), *want, "{name}");
    }
}

#[test]
fn file_reference_rule_code_spans() {
    {
        // Path-shaped inline code span pointing at a missing file inside
        // the tree.
        let dir = Dir::new();
        let sub = dir.sub("sub");
        let src = "Read instructions from `../planner_instructions.md`.\n";
        let target = agents_target_under(&dir, &sub, src);
        let res = lint(generous_config(), &target);
        assert_eq!(rule_ids(&res.findings), vec![RULE_FILE_REFERENCE_MISSING]);
    }
    {
        // Same reference, but the file exists. A `../` hop that lands back
        // inside the linted tree must still be checked -- this is the
        // guard that skipping escapes did not swallow ordinary references.
        let mut dir = Dir::new();
        dir.write_file("planner_instructions.md");
        let sub = dir.sub("sub");
        let src = "Read instructions from `../planner_instructions.md`.\n";
        let target = agents_target_under(&dir, &sub, src);
        let res = lint(generous_config(), &target);
        assert!(res.findings.is_empty());
    }
    {
        // Code spans that are not path-shaped are left alone.
        let dir = Dir::new();
        let src = "Run `cargo test`, check `--strict`, or see `notes` and `./bin/lint`.\n";
        let target = agents_target(&dir, src);
        let res = lint(generous_config(), &target);
        assert!(res.findings.is_empty());
    }
    {
        // A link and a code span pointing at the same missing target on
        // one line report once, not twice.
        let dir = Dir::new();
        let src = "See [it](./missing.md) or `./missing.md`.\n";
        let target = agents_target(&dir, src);
        let res = lint(generous_config(), &target);
        assert_eq!(rule_ids(&res.findings), vec![RULE_FILE_REFERENCE_MISSING]);
    }
    {
        // Code spans inside fenced code blocks are still ignored.
        let dir = Dir::new();
        let src = "Example:\n\n```md\nSee `../missing.md`.\n```\n";
        let target = agents_target(&dir, src);
        let res = lint(generous_config(), &target);
        assert!(res.findings.is_empty());
    }
}

#[test]
fn file_reference_rule_links_inside_code_spans() {
    // Link syntax shown inside backticks is literal text, not a link, so
    // its target is not checked. A code span used as a link *label* is the
    // other direction of the same masking: that link is real and must
    // still be checked.
    let cases: &[(&str, &str, Vec<&str>)] = &[
        (
            "link syntax inside a code span is not a reference",
            "Write it as `[title](./missing.md)`.\n",
            vec![],
        ),
        (
            "an image inside a code span is not a reference",
            "Write it as `![alt](./missing.png)`.\n",
            vec![],
        ),
        (
            "a double-backtick span hides link syntax too",
            "Use ``[title](./missing.md)`` for that.\n",
            vec![],
        ),
        (
            "a code span in the label does not hide the link",
            "See [`notes`](./notes.md).\n",
            vec![RULE_FILE_REFERENCE_MISSING],
        ),
        (
            // The masked target is dropped rather than reported as a file
            // named `***`; the span is still read as a path on its own.
            "a masked span in the target position is not reported as `***`",
            "See [notes](`./notes.md`).\n",
            vec![RULE_FILE_REFERENCE_MISSING],
        ),
        (
            "masking one link leaves a real one on the same line",
            "See `[x](./missing.md)` and [y](./gone.md).\n",
            vec![RULE_FILE_REFERENCE_MISSING],
        ),
    ];

    for (name, src, want) in cases {
        let dir = Dir::new();
        let target = agents_target(&dir, src);
        let res = lint(generous_config(), &target);
        assert_eq!(rule_ids(&res.findings), *want, "{name}");
    }

    // The label case again with the file present: the link is checked, and
    // it resolves, so the case above is not passing on a parse failure.
    let mut dir = Dir::new();
    dir.write_file("notes.md");
    let target = agents_target(&dir, "See [`notes`](./notes.md).\n");
    let res = lint(generous_config(), &target);
    assert!(res.findings.is_empty());
}

#[test]
fn each_part_has_its_rules() {
    assert_eq!(part(RULE_NAME_FORMAT), Some(Part::Frontmatter));
    assert_eq!(part(RULE_TOKENS_NAME), Some(Part::Tokens));
    assert_eq!(part(RULE_FILE_REFERENCE_MISSING), Some(Part::FileReferences));
    assert_eq!(part("no.such.rule"), None);
}

fn tally(marks: &[(&'static str, bool)]) -> Tally {
    Tally { marks: marks.iter().map(|(rule, failed)| Mark { rule, failed: *failed }).collect() }
}

/// The overage is an exact fraction, and only the mean is rounded, down.
#[test]
fn the_score_is_an_exact_mean() {
    let mut cfg = generous_config();
    cfg.max_agents_tokens = 100;
    let tokens = |content: usize| Counts { content, name: 0, description: 0 };
    let over = tally(&[(RULE_TOKENS_CONTENT, true)]);
    assert_eq!(score(&tokens(107), &cfg, Kind::Agents, &over), 93);
    assert_eq!(score(&tokens(101), &cfg, Kind::Agents, &over), 99);
    assert_eq!(score(&tokens(199), &cfg, Kind::Agents, &over), 1);
    assert_eq!(score(&tokens(200), &cfg, Kind::Agents, &over), 0);

    // One of three: 66.67 rounds down.
    let two_of_three = tally(&[
        (RULE_NAME_REQUIRED, false),
        (RULE_NAME_FORMAT, false),
        (RULE_NAME_LENGTH, true),
    ]);
    assert_eq!(score(&tokens(0), &generous_config(), Kind::Skill, &two_of_three), 66);
    assert_eq!(score(&tokens(0), &generous_config(), Kind::Skill, &tally(&[])), 100);
}

#[test]
fn a_tally_counts_each_rule_once() {
    let t = tally(&[(RULE_NAME_REQUIRED, false), (RULE_NAME_FORMAT, true)]);
    assert!(t.has(RULE_NAME_REQUIRED) && t.has(RULE_NAME_FORMAT));
    assert!(!t.has(RULE_NAME_LENGTH));
    assert!(t.failed(RULE_NAME_FORMAT) && !t.failed(RULE_NAME_REQUIRED));
}

/// Strict mode raises what a sink is warned of, and nothing else.
#[test]
fn a_sink_raises_warnings_when_strict() {
    for strict in [false, true] {
        let mut sink = FindingSink::new(strict);
        sink.begin(RULE_NAME_FORMAT);
        sink.warn(3, "soft".to_string());
        sink.error(4, "hard".to_string());
        assert_eq!(sink.findings.len(), 2);
        let want = if strict { Severity::Error } else { Severity::Warning };
        assert_eq!(sink.findings[0].severity, want);
        assert_eq!(sink.findings[0].rule, RULE_NAME_FORMAT);
        assert_eq!(sink.findings[1].severity, Severity::Error);
        assert_eq!(sink.findings[1].line, 4);
    }
}

/// Each file that a document refers to is asked for once, and only inside the
/// tree.
#[test]
fn references_are_asked_for_in_the_tree() {
    let case = agents_target(
        &Dir::new(),
        "See [a](./a.md), `./docs/b.md` and [c](../../c.md) or [d](https://example.com).\n",
    );
    let linter = Linter::with_cwd(generous_config(), None::<Estimator>, "/work".to_string());
    assert_eq!(
        linter.references(&case.target, case.src.as_bytes()),
        vec!["/tmp/base/a.md".to_string(), "/tmp/base/docs/b.md".to_string()]
    );
}

#[test]
fn tokens_are_a_quarter_of_the_characters() {
    let e = Estimator::new();
    assert_eq!(e.count(""), 0);
    assert_eq!(e.count("a"), 1);
    assert_eq!(e.count("abcd"), 1);
    assert_eq!(e.count("abcde"), 2);
    assert_eq!(e.count("\u{e9}\u{e9}\u{e9}\u{e9}"), 1);
}

/// A file rates a hundred exactly when there is nothing to report of it.
#[test]
fn a_perfect_score_means_no_findings() {
    let mut tight = generous_config();
    tight.max_skill_tokens = 5;
    tight.max_skill_name_tokens = 1;
    for cfg in [generous_config(), Config::default(), tight] {
        for src in [
            VALID_SKILL,
            "# No front matter\n",
            "---\nname: valid-skill\n---\nSee [x](./gone.md).\n",
            "---\nname: valid-skill\ndescription: d\nextra: 1\nother: 2\n---\n",
        ] {
            let res = lint(cfg.clone(), &write_skill("valid-skill", src));
            assert_eq!(res.score == 100, res.findings.is_empty(), "{src}");
        }
    }
}

/// The path a link points at, read as a link again, is that path.
#[test]
fn link_targets_are_read_once() {
    let path = |raw: &str| link_target_path(&raw.chars().collect::<Vec<char>>());
    for raw in [
        "https://example.com/x",
        "mailto:a@example.com",
        "#heading",
        "/etc/x",
        "//host/x",
        "",
        "  ",
        "{{path}}",
        "$HOME/x",
        "*.md",
        "?q",
    ] {
        assert_eq!(path(raw), None, "{raw}");
    }
    for (raw, want) in [
        ("./notes.md#top", "./notes.md"),
        ("notes.md \"A title\"", "notes.md"),
        ("<notes.md>", "notes.md"),
        ("<<a>", "<a"),
        ("<a", "<a"),
        ("<a b>", "a"),
        ("\ta.md?x#y ", "a.md"),
        ("a/b:c", "a/b:c"),
    ] {
        assert_eq!(path(raw).as_deref(), Some(want), "{raw}");
        assert_eq!(path(want).as_deref(), Some(want), "{raw}");
    }
}

#[test]
fn a_budget_scores_by_its_overage() {
    let value = |count: usize, limit: i64| {
        let share = budget_score(count, limit);
        share.num as f64 / share.den as f64
    };
    assert_eq!(value(100, 100), 100.0);
    assert_eq!(value(125, 100), 75.0);
    assert_eq!(value(150, 100), 50.0);
    assert_eq!(value(200, 100), 0.0);
    assert_eq!(value(10_000_000, 1), 0.0);
    assert_eq!(value(7, 0), 100.0);
    for count in 0..220 {
        assert!(value(count, 100) >= value(count + 1, 100), "{count}");
        assert_eq!(value(count, 100) == 100.0, count <= 100, "{count}");
        assert_eq!(value(count, 100) == 0.0, count >= 200, "{count}");
    }
}
