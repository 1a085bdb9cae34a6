use lintmatter::parse::{assemble, is_skill_block, Document, ErrKind, Frontmatter, Value};
use lintmatter::yaml::{load, scalar_string, Data, Fault, Node, Scalar};

#[test]
fn split_valid() {
    let src = "---\nname: my-skill\ndescription: Does a thing.\n---\n\n# Heading\n\nBody text.\n";
    let d = Document::parse(src.as_bytes());
    let (fm, body, err) = (d.frontmatter, d.body, d.error);
    assert!(err.is_none());
    assert!(fm.present);
    assert_eq!(fm.keys(), &["name".to_string(), "description".to_string()]);
    assert_eq!(fm.string("name").as_deref(), Some("my-skill"));
    assert_eq!(fm.line("name"), 2);
    assert_eq!(fm.line("description"), 3);
    assert_eq!(fm.end_line, 4);
    assert!(body.starts_with("\n# Heading"));
    assert!(!body.contains("name:"));
}

#[test]
fn split_no_frontmatter() {
    let src = "# Just markdown\n\nNo front matter here.\n";
    let d = Document::parse(src.as_bytes());
    let (fm, body, err) = (d.frontmatter, d.body, d.error);
    assert!(err.is_none());
    assert!(!fm.present);
    assert_eq!(body, src);
}

#[test]
fn split_bom() {
    let src = "\u{feff}---\nname: bom-skill\n---\nbody\n";
    let d = Document::parse(src.as_bytes());
    let (fm, _, err) = (d.frontmatter, d.body, d.error);
    assert!(err.is_none());
    assert_eq!(fm.string("name").as_deref(), Some("bom-skill"));
}

#[test]
fn split_crlf() {
    let src = "---\r\nname: crlf-skill\r\n---\r\nbody\r\n";
    let d = Document::parse(src.as_bytes());
    let (fm, _, err) = (d.frontmatter, d.body, d.error);
    assert!(err.is_none());
    assert_eq!(fm.string("name").as_deref(), Some("crlf-skill"));
}

#[test]
fn split_errors() {
    let cases: &[(&str, &str, ErrKind, usize)] = &[
        ("fence not first", "\n---\nname: late\n---\n", ErrKind::NotFirst, 2),
        (
            "unterminated",
            "---\nname: open-ended\nbody without a closing fence\n",
            ErrKind::Unterminated,
            1,
        ),
        (
            "invalid yaml",
            "---\nname: ok\n  bad: indent\n---\nbody\n",
            ErrKind::InvalidYaml,
            3,
        ),
        ("not a mapping", "---\n- one\n- two\n---\nbody\n", ErrKind::NotMapping, 2),
        ("empty block", "---\n---\nbody\n", ErrKind::NotMapping, 1),
    ];
    for (name, src, want_kind, want_line) in cases {
        let d = Document::parse(src.as_bytes());
        let (_, body, err) = (d.frontmatter, d.body, d.error);
        let err = err.unwrap_or_else(|| panic!("{name}: want an error"));
        assert_eq!(err.kind, *want_kind, "{name}: kind");
        assert_eq!(err.line, *want_line, "{name}: line (message: {})", err.msg);
        assert!(!body.is_empty(), "{name}: body should be non-empty");
        assert!(!err.msg.contains('\n'), "{name}: message should be one line");
    }
}

#[test]
fn misplaced_frontmatter_is_distinguished_from_a_thematic_break() {
    // Reported: a `---` block below the top that really is front matter.
    let cases: &[(&str, &str)] = &[
        (
            "after a heading",
            "# My Skill\n\n---\nname: my-skill\ndescription: Does a thing.\n---\nBody.\n",
        ),
        ("after prose", "Some intro.\n\n---\ndescription: Does a thing.\n---\nBody.\n"),
    ];
    for (name, src) in cases {
        let d = Document::parse(src.as_bytes());
        let err = d.error.unwrap_or_else(|| panic!("{name}: want an error"));
        assert_eq!(err.kind, ErrKind::NotFirst, "{name}");
        assert_eq!(err.line, 3, "{name}");
    }

    // A candidate fence that never closes must not stop the scan: real
    // front matter can still follow it.
    let d = Document::parse(
        b"# Title\n\n---\n\nA break with no partner.\n\n---\nname: late-skill\ndescription: Real front matter, in the wrong place.\n---\n",
    );
    let err = d.error.expect("want an error after an unclosed candidate");
    assert_eq!(err.kind, ErrKind::NotFirst);
    assert_eq!(err.line, 7);

    // Not reported: `---` used as a thematic break, which is what most
    // `---` in markdown is. Flagging these would be far worse than the
    // vaguer message they replace.
    let quiet: &[(&str, &str)] = &[
        ("thematic break", "# Title\n\n---\n\nA new section.\n"),
        ("setext underline", "Title\n---\n\nBody text under a setext heading.\n"),
        ("block without skill keys", "# Title\n\n---\nfoo: bar\n---\n\nBody.\n"),
        ("block that never closes", "# Title\n\n---\nname: unclosed\n"),
        ("unparseable block", "# Title\n\n---\nname: ok\n  bad: indent\n---\n"),
        ("two thematic breaks", "# Title\n\n---\n\nSection.\n\n---\n\nAnother.\n"),
    ];
    for (name, src) in quiet {
        let d = Document::parse(src.as_bytes());
        assert!(d.error.is_none(), "{name}: unexpected {:?}", d.error.map(|e| e.msg));
        assert!(!d.frontmatter.present, "{name}");
    }
}

#[test]
fn string_slice_variants() {
    let cases: &[(&str, &str, Option<&[&str]>)] = &[
        (
            "sequence",
            "---\nallowed-tools:\n  - Read\n  - Bash\n---\n",
            Some(&["Read", "Bash"]),
        ),
        (
            "comma separated",
            "---\nallowed-tools: Read, Bash\n---\n",
            Some(&["Read", "Bash"]),
        ),
        (
            "flow sequence",
            "---\nallowed-tools: [Read, Bash]\n---\n",
            Some(&["Read", "Bash"]),
        ),
        ("mapping is rejected", "---\nallowed-tools:\n  read: true\n---\n", None),
        ("nested sequence is rejected", "---\nallowed-tools:\n  - [Read]\n---\n", None),
    ];
    for (name, src, want) in cases {
        let d = Document::parse(src.as_bytes());
        let (fm, _, err) = (d.frontmatter, d.body, d.error);
        assert!(err.is_none(), "{name}: {:?}", err.map(|e| e.msg));
        let got = fm.string_slice("allowed-tools");
        match want {
            Some(want) => {
                let got = got.unwrap_or_else(|| panic!("{name}: want Some, got None"));
                assert_eq!(got, *want, "{name}");
            }
            None => assert!(got.is_none(), "{name}: got {got:?}"),
        }
    }
}

#[test]
fn accessors_on_absent_keys() {
    let d = Document::parse(b"---\nname: only-name\n---\n");
    let (fm, _, err) = (d.frontmatter, d.body, d.error);
    assert!(err.is_none());
    assert!(!fm.has("license"));
    assert!(fm.node("license").is_none());
    assert!(fm.string("license").is_none());
    assert_eq!(fm.line("license"), fm.end_line);
}

#[test]
fn node_kind() {
    let d = Document::parse(b"---\nmetadata:\n  owner: infra\n---\n");
    let (fm, _, err) = (d.frontmatter, d.body, d.error);
    assert!(err.is_none());
    assert!(matches!(fm.node("metadata"), Some(Value::Mapping)));
}

#[test]
fn a_written_block_is_read_back() {
    let d = Document::parse_text("---\nlicense: MIT\n---\nThe body\nof the file.\n");
    assert!(d.error.is_none());
    assert_eq!(d.frontmatter.keys(), &["license".to_string()]);
    assert_eq!(d.frontmatter.string("license").as_deref(), Some("MIT"));
    assert_eq!(d.body, "The body\nof the file.\n");
    assert!(d.mapping().is_some());
}

#[test]
fn a_default_frontmatter_is_absent() {
    let fm = Frontmatter::default();
    assert!(!fm.is_present());
    assert_eq!(fm.closing_line(), 0);
    assert!(fm.keys().is_empty());
}

#[test]
fn bytes_that_are_not_text_are_replaced() {
    let d = Document::parse(b"caf\xff\n");
    assert_eq!(d.body, "caf\u{fffd}\n");
}

#[test]
fn a_null_value_reads_as_no_string() {
    let d = Document::parse(b"---\nname:\nflag: true\ncount: 12\n---\n");
    assert!(d.frontmatter.has("name"));
    assert_eq!(d.frontmatter.string("flag").as_deref(), Some("true"));
    assert_eq!(d.frontmatter.string("count").as_deref(), Some("12"));
}

#[test]
fn assemble_takes_any_reply_of_the_loader() {
    let d = assemble(
        Err(Fault { line: 3, info: "while parsing".to_string() }),
        9,
        "rest".to_string(),
    );
    let err = d.error.expect("want an error");
    assert_eq!(err.kind, ErrKind::InvalidYaml);
    assert_eq!(err.line, 4);
    assert_eq!(d.body, "rest");

    let d = assemble(Ok(Vec::new()), 2, "rest".to_string());
    assert_eq!(d.error.expect("want an error").kind, ErrKind::NotMapping);

    let key = Node { line: 1, data: Data::Scalar(Scalar::Text("name".to_string())) };
    let value = Node { line: 1, data: Data::Scalar(Scalar::Text("x".to_string())) };
    let d = assemble(
        Ok(vec![Node { line: 1, data: Data::Mapping(vec![(key, value)]) }]),
        3,
        String::new(),
    );
    assert!(d.error.is_none());
    assert_eq!(d.frontmatter.string("name").as_deref(), Some("x"));
    assert_eq!(d.frontmatter.end_line, 3);
}

#[test]
fn a_skill_block_names_a_skill_key() {
    assert!(is_skill_block(&load("name: a\n")));
    assert!(is_skill_block(&load("description: a\n")));
    assert!(!is_skill_block(&load("foo: bar\n")));
    assert!(!is_skill_block(&load("- name\n")));
    assert!(!is_skill_block(&load("name: ok\n  bad: indent\n")));
}

#[test]
fn loading_keeps_lines_and_kinds() {
    let docs = load("a: 1\nb:\n  - true\n  - x\n").expect("valid");
    assert_eq!(docs.len(), 1);
    let Data::Mapping(entries) = &docs[0].data else {
        panic!("want a mapping");
    };
    assert_eq!(entries.len(), 2);
    assert_eq!(entries[0].0.line, 1);
    assert_eq!(scalar_string(&entries[0].0.data).as_deref(), Some("a"));
    assert_eq!(scalar_string(&entries[0].1.data).as_deref(), Some("1"));
    let Data::Sequence(items) = &entries[1].1.data else {
        panic!("want a sequence");
    };
    assert_eq!(items[0].line, 3);
    assert_eq!(scalar_string(&items[0].data).as_deref(), Some("true"));
    assert_eq!(scalar_string(&items[1].data).as_deref(), Some("x"));
    assert!(scalar_string(&entries[1].1.data).is_none());

    assert!(load("# only a comment\n\n").expect("valid").is_empty());
}

/// Plain front matter is read as it is written, comments and all.
#[test]
fn plain_front_matter_is_read_as_written() {
    let src = "---\n# who\nname: my skill\n\ncount: 12\nflag: false\nallowed-tools:\n  - Read\n  - 7\nmetadata:\n  owner: infra\n# end\n---\nbody\n";
    let d = Document::parse(src.as_bytes());
    assert!(d.error.is_none());
    assert_eq!(d.body, "body\n");
    assert_eq!(d.frontmatter.end_line, 13);
    assert_eq!(d.frontmatter.keys(), ["name", "count", "flag", "allowed-tools", "metadata"]);
    assert_eq!(d.frontmatter.string("name").as_deref(), Some("my skill"));
    assert_eq!(d.frontmatter.string("count").as_deref(), Some("12"));
    assert_eq!(d.frontmatter.string("flag").as_deref(), Some("false"));
    assert_eq!(
        d.frontmatter.string_slice("allowed-tools"),
        Some(vec!["Read".to_string(), "7".to_string()])
    );
    assert!(matches!(d.frontmatter.node("metadata"), Some(Value::Mapping)));
}

/// A key is on a line between the fences, and what is not there is reported at
/// the closing one.
#[test]
fn keys_are_on_lines_of_their_block() {
    for text in [
        "---\nname: a\ndescription: b\n---\nbody\n",
        "---\r\nname: a\r\n\r\ndescription: b\r\n---\r\nbody\r\n",
        "---\n# remark\n\nname: |\n  x\n  y\n\"description\": b\n...\n",
        "---\n{name: a,\n description: b}\n---\n",
        "---\n~: a\nnull2: b\n---",
        "---\n: a\nlast: b\n---",
        "---\nnull: a\nb: what?\n---",
        "---\n? a\n: b\nnull: c\n---",
        "---\nname: a\n? \n\n---",
        "---\nnull: a\nb: what ?\n# c\n---",
    ] {
        let fm = Document::parse(text.as_bytes()).frontmatter;
        assert!(!fm.keys().is_empty(), "{text:?}");
        for key in fm.keys() {
            assert!(2 <= fm.line(key) && fm.line(key) < fm.end_line, "{text:?}: {key}");
        }
        assert_eq!(fm.line("no-such-key"), fm.end_line);
    }
    let fm = Document::parse(b"---\nname: a\ndescription: b\n---\n").frontmatter;
    assert_eq!((fm.line("name"), fm.line("description"), fm.end_line), (2, 3, 4));
}

/// A key that is announced and then missing stands where the block ends.
#[test]
fn a_missing_key_is_at_the_fence() {
    for text in ["---\nname: a\n? \n---\n", "---\n?\r\n# c\r\n---", "---\na: b\n? # c\n  \n---"] {
        let fm = Document::parse(text.as_bytes()).frontmatter;
        assert!(fm.has("null"), "{text:?}");
        assert_eq!(fm.line("null"), fm.end_line, "{text:?}");
    }
}

#[test]
fn quoted_values_are_read_without_their_quotes() {
    let d = Document::parse(b"---\nname: \"a\\\"b\"\nlist:\n  - \"*.tmp\"\n  - c\n---\nbody");
    assert_eq!(d.frontmatter.string("name").as_deref(), Some("a\"b"));
    assert_eq!(
        d.frontmatter.string_slice("list"),
        Some(vec!["*.tmp".to_string(), "c".to_string()])
    );
}
