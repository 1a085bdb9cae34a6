use lintmatter::config::{
    candidates, discover, parse, read_settings, unreadable, Config, Settings,
    DEFAULT_MAX_AGENTS_TOKENS, DEFAULT_MAX_SKILL_TOKENS,
};
use lintmatter::discover::Kind;
use lintmatter::yaml::{Data, Fault, Node, Scalar};

fn parse_str(src: &str) -> Result<Settings, String> {
    parse(src, ".lintmatter.yaml")
}

#[test]
fn parses_every_setting() {
    let src = r#"
max-agents-tokens: 1200
max-skill-tokens: 0
max-skill-name-tokens: 8
max-skill-description-tokens: 64
exclude:
  - testdata
  - "examples/**"
rules:
  name.dir-mismatch: false
  frontmatter.unknown-key: off
  tokens.content: true
"#;
    let got = parse_str(src).unwrap();
    assert_eq!(
        got,
        Settings {
            max_agents_tokens: Some(1200),
            max_skill_tokens: Some(0),
            max_skill_name_tokens: Some(8),
            max_skill_description_tokens: Some(64),
            excludes: vec!["testdata".to_string(), "examples/**".to_string()],
            // Only the rules switched off are collected, in file order.
            disabled: vec![
                "name.dir-mismatch".to_string(),
                "frontmatter.unknown-key".to_string(),
            ],
        }
    );
}

#[test]
fn empty_documents_yield_no_settings() {
    for src in ["", "\n\n", "# just a comment\n", "---\n"] {
        let got = parse_str(src).unwrap_or_else(|e| panic!("{src:?}: {e}"));
        assert_eq!(got, Settings::default(), "{src:?}");
    }
}

#[test]
fn scalar_shorthand_accepts_a_lone_exclude() {
    let got = parse_str("exclude: testdata\n").unwrap();
    assert_eq!(got.excludes, vec!["testdata".to_string()]);
}

#[test]
fn errors_point_at_the_offending_line() {
    let cases: &[(&str, &str, &str)] = &[
        (
            "unknown setting",
            "max-skill-tokens: 10\nmax-skil-tokens: 10\n",
            ".lintmatter.yaml:2: unknown setting \"max-skil-tokens\"",
        ),
        (
            "not an integer",
            "max-agents-tokens: lots\n",
            ".lintmatter.yaml:1: invalid value \"lots\" for max-agents-tokens",
        ),
        (
            "negative budget",
            "\nmax-skill-tokens: -1\n",
            ".lintmatter.yaml:2: max-skill-tokens must be zero or more",
        ),
        (
            "budget is a list",
            "max-skill-tokens:\n  - 10\n",
            ".lintmatter.yaml:2: max-skill-tokens must be an integer",
        ),
        (
            "empty string",
            "exclude: \"\"\n",
            ".lintmatter.yaml:1: exclude must be a non-empty string",
        ),
        (
            "exclude entry is a mapping",
            "exclude:\n  - drop: true\n",
            ".lintmatter.yaml:2: exclude must be a non-empty string",
        ),
        (
            "rules is not a mapping",
            "rules:\n  - name.format\n",
            ".lintmatter.yaml:2: rules must be a mapping",
        ),
        (
            "unknown rule",
            "rules:\n  name.format: true\n  no.such.rule: false\n",
            ".lintmatter.yaml:3: unknown rule \"no.such.rule\"",
        ),
        (
            "rule value is not a boolean",
            "rules:\n  name.format: maybe\n",
            ".lintmatter.yaml:2: invalid value \"maybe\" for rules.name.format",
        ),
        (
            "not a mapping",
            "- max-skill-tokens\n",
            ".lintmatter.yaml:1: config must be a mapping",
        ),
        (
            "invalid yaml",
            "max-skill-tokens: 1\n  exclude: true\n",
            "invalid YAML",
        ),
    ];
    for (name, src, want) in cases {
        let err = parse_str(src).unwrap_err();
        assert!(err.contains(want), "{name}: got {err:?}, want {want:?}");
        assert!(!err.contains('\n'), "{name}: message should be one line");
    }
}

/// Reading the file itself is left to the caller; what follows is not.
#[test]
fn load_reads_a_file() {
    let got = parse("max-skill-tokens: 42\n", "/tmp/x/.lintmatter.yaml").unwrap();
    assert_eq!(got.max_skill_tokens, Some(42));

    let err = unreadable("/tmp/x/nope.yaml", "No such file or directory (os error 2)");
    assert!(err.contains("cannot read config"), "{err}");

    // Errors name the file they came from.
    let err = parse("max-skill-tokens: nope\n", "/tmp/x/.lintmatter.yaml").unwrap_err();
    assert!(err.contains(".lintmatter.yaml:1:"), "{err}");
}

fn files(list: &[&str]) -> Vec<String> {
    list.iter().map(|s| s.to_string()).collect()
}

#[test]
fn discover_walks_up_from_the_starting_directory() {
    let nested = "/tmp/root/skills/deep";
    assert!(discover(nested, &files(&[])).is_none());

    let root_cfg = "/tmp/root/.lintmatter.yml";
    assert_eq!(discover(nested, &files(&[root_cfg])).as_deref(), Some(root_cfg));

    // .yaml wins over .yml in the same directory, and the nearest
    // directory wins over an ancestor.
    let preferred = "/tmp/root/.lintmatter.yaml";
    assert_eq!(
        discover("/tmp/root", &files(&[root_cfg, preferred])).as_deref(),
        Some(preferred)
    );

    let nested_cfg = "/tmp/root/skills/deep/.lintmatter.yaml";
    assert_eq!(
        discover(nested, &files(&[root_cfg, preferred, nested_cfg])).as_deref(),
        Some(nested_cfg)
    );
}

/// A directory is no file, so it is not among those that the search is told of.
#[test]
fn discover_ignores_a_directory_named_like_the_config() {
    assert!(discover("/tmp/root", &files(&[])).is_none());
    assert!(discover("/tmp/root", &files(&["/tmp/other/.lintmatter.yaml"])).is_none());
}

#[test]
fn candidates_go_up_to_the_root() {
    assert_eq!(
        candidates("/a/b"),
        files(&[
            "/a/b/.lintmatter.yaml",
            "/a/b/.lintmatter.yml",
            "/a/.lintmatter.yaml",
            "/a/.lintmatter.yml",
            "/.lintmatter.yaml",
            "/.lintmatter.yml",
        ])
    );
}

#[test]
fn content_limit_follows_the_kind() {
    let cfg = Config::default();
    assert_eq!(cfg.content_limit(Kind::Agents), DEFAULT_MAX_AGENTS_TOKENS);
    assert_eq!(cfg.content_limit(Kind::Skill), DEFAULT_MAX_SKILL_TOKENS);
    assert!(!cfg.strict);
    assert!(cfg.disabled.is_empty());
}

#[test]
fn settings_are_read_from_any_reply_of_the_loader() {
    let err = read_settings(
        &Err(Fault { line: 7, info: "did not find expected key".to_string() }),
        "c.yaml",
    )
    .unwrap_err();
    assert!(err.contains("invalid YAML"), "{err}");
    assert!(err.contains("did not find expected key"), "{err}");

    let text = |line: usize, s: &str| Node { line, data: Data::Scalar(Scalar::Text(s.to_string())) };
    let root = Node {
        line: 1,
        data: Data::Mapping(vec![
            (
                text(1, "max-agents-tokens"),
                Node { line: 1, data: Data::Scalar(Scalar::Integer(9)) },
            ),
            (text(2, "exclude"), text(2, "x")),
        ]),
    };
    let got = read_settings(&Ok(vec![root]), "c.yaml").unwrap();
    assert_eq!(got.max_agents_tokens, Some(9));
    assert_eq!(got.excludes, vec!["x".to_string()]);
    assert!(got.max_skill_tokens.is_none());
}

/// The loader takes no byte order mark inside a document, not even in a
/// comment.
#[test]
fn a_byte_order_mark_in_a_comment_is_a_fault() {
    assert!(parse_str("#\u{feff}").is_err());
    assert!(parse_str("# x\u{feff}\nmax-skill-tokens: 1\n").is_err());
    assert_eq!(parse_str("# x\n\n# y"), Ok(Settings::default()));
}

#[test]
fn quoted_texts_are_read_with_their_escapes() {
    let got = parse_str("exclude:\n  - \"*.tmp\"\n  - \"a\\\"b\\\\c\\nd\"\n").unwrap();
    assert_eq!(got.excludes, ["*.tmp", "a\"b\\c\nd"]);
}

#[test]
fn the_path_only_labels_the_errors() {
    for src in [
        "max-skill-tokens: 1\n",
        "",
        "max-skill-tokens: lots\n",
        "max-skill-tokens: -1\n",
        "bogus: 1\n",
        "exclude: ['']\n",
        "rules: 1\n",
        "rules:\n  nope: false\n",
        "rules:\n  name.format: \"maybe\\nnot\"\n",
        "[1]: 2\n",
        "- a\n",
        "a: b: c\n",
        "%",
    ] {
        match (parse(src, "p.yaml"), parse(src, "/other/q.yml")) {
            (Ok(a), Ok(b)) => assert_eq!(a, b, "{src}"),
            (Err(a), Err(b)) => {
                let rest = a.strip_prefix("p.yaml").expect("the path in front");
                assert!(rest.starts_with(':') && !rest.contains('\n'), "{rest}");
                assert_eq!(b, format!("/other/q.yml{rest}"));
            }
            (a, b) => panic!("{src}: {a:?} and {b:?}"),
        }
    }
}

#[test]
fn candidates_keep_the_text_of_the_start() {
    assert_eq!(
        candidates("."),
        files(&["./.lintmatter.yaml", "./.lintmatter.yml", ".lintmatter.yaml", ".lintmatter.yml"])
    );
    for (start, dirs) in [
        ("", vec![""]),
        ("/", vec!["/"]),
        ("a", vec!["a/", ""]),
        ("a/b/", vec!["a/b/", "a/", ""]),
        ("a//b/./c", vec!["a//b/./c/", "a//b/", "a/", ""]),
        ("./a", vec!["./a/", "./", ""]),
        ("../a", vec!["../a/", "../", ""]),
        ("/a/.", vec!["/a/./", "/"]),
        ("//a", vec!["//a/", "/"]),
        (".a/..b", vec![".a/..b/", ".a/", ""]),
    ] {
        let mut want = Vec::new();
        for dir in dirs {
            want.push(format!("{dir}.lintmatter.yaml"));
            want.push(format!("{dir}.lintmatter.yml"));
        }
        assert_eq!(candidates(start), want, "{start}");
        let told: Vec<String> = std::path::Path::new(start)
            .ancestors()
            .flat_map(|dir| {
                [".lintmatter.yaml", ".lintmatter.yml"]
                    .map(|name| dir.join(name).to_string_lossy().to_string())
            })
            .collect();
        assert_eq!(candidates(start), told, "{start}");
    }
}
