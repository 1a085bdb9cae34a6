use lintmatter::discover::{
    find, join_path, kind_by_name, kind_for, prunes, Argument, Entry, Item, Kind, Target,
};

const ROOT: &str = "/tmp/tree";

fn add(entries: &mut Vec<Entry>, parts: &[&str]) {
    if parts.len() == 1 {
        entries.push(Entry { name: parts[0].to_string(), item: Item::File });
        return;
    }
    for e in entries.iter_mut() {
        if e.name == parts[0] {
            if let Item::Directory(inner) = &mut e.item {
                add(inner, &parts[1..]);
            }
            return;
        }
    }
    let mut inner = Vec::new();
    add(&mut inner, &parts[1..]);
    entries.push(Entry { name: parts[0].to_string(), item: Item::Directory(inner) });
}

/// A tree as the directories would list it.
fn tree(files: &[&str]) -> Item {
    let mut entries = Vec::new();
    for file in files {
        let parts: Vec<&str> = file.split('/').collect();
        add(&mut entries, &parts);
    }
    Item::Directory(entries)
}

fn argument(path: &str, item: Item) -> Argument {
    Argument { path: path.to_string(), item }
}

fn list(items: &[&str]) -> Vec<String> {
    items.iter().map(|s| s.to_string()).collect()
}

fn rel_paths(targets: &[Target]) -> Vec<String> {
    targets
        .iter()
        .map(|t| {
            let rel = t.path.strip_prefix("/tmp/tree/").unwrap();
            format!("{} ({})", rel, t.kind.as_str())
        })
        .collect()
}

#[test]
fn kind_for_matches_expected_names() {
    let cases: &[(&str, Option<Kind>)] = &[
        ("AGENTS.md", Some(Kind::Agents)),
        ("agents.md", Some(Kind::Agents)),
        ("a/b/Agents.MD", Some(Kind::Agents)),
        ("SKILL.md", Some(Kind::Skill)),
        ("skill.md", Some(Kind::Skill)),
        ("SKILLS.md", None),
        ("README.md", None),
        ("AGENT.md", None),
        ("agents.markdown", None),
        ("AGENTS.md.bak", None),
    ];
    for (path, want) in cases {
        assert_eq!(kind_for(path), *want, "{path}");
    }
}

#[test]
fn find_walks_recursively() {
    let item = tree(&[
        "AGENTS.md",
        "README.md",
        "docs/AGENTS.md",
        "skills/alpha/SKILL.md",
        "skills/beta/skill.md",
        "skills/gamma/SKILLS.md",
        "node_modules/pkg/SKILL.md",
        ".git/hooks/AGENTS.md",
        "vendor/dep/AGENTS.md",
        "dist/AGENTS.md",
        "skills/alpha/reference/doc.md",
    ]);
    let targets = find(&[argument(ROOT, item)], &vec![], "/").unwrap();
    let want = vec![
        "AGENTS.md (agents)".to_string(),
        "docs/AGENTS.md (agents)".to_string(),
        "skills/alpha/SKILL.md (skill)".to_string(),
        "skills/beta/skill.md (skill)".to_string(),
    ];
    assert_eq!(rel_paths(&targets), want);
}

#[test]
fn find_excludes() {
    let files = [
        "AGENTS.md",
        "examples/AGENTS.md",
        "skills/keep/SKILL.md",
        "skills/drop/SKILL.md",
        "fixtures/bad/SKILL.md",
    ];

    let cases: &[(&[&str], &[&str])] = &[
        (
            &["examples"],
            &[
                "AGENTS.md (agents)",
                "fixtures/bad/SKILL.md (skill)",
                "skills/drop/SKILL.md (skill)",
                "skills/keep/SKILL.md (skill)",
            ],
        ),
        (
            &["skills/drop"],
            &[
                "AGENTS.md (agents)",
                "examples/AGENTS.md (agents)",
                "fixtures/bad/SKILL.md (skill)",
                "skills/keep/SKILL.md (skill)",
            ],
        ),
        (
            &["examples", "fixtures"],
            &[
                "AGENTS.md (agents)",
                "skills/drop/SKILL.md (skill)",
                "skills/keep/SKILL.md (skill)",
            ],
        ),
        (
            &["AGENTS.md"],
            &[
                "fixtures/bad/SKILL.md (skill)",
                "skills/drop/SKILL.md (skill)",
                "skills/keep/SKILL.md (skill)",
            ],
        ),
    ];
    for (excludes, want) in cases {
        let excludes = list(excludes);
        let targets = find(&[argument(ROOT, tree(&files))], &excludes, "/").unwrap();
        let want: Vec<String> = want.iter().map(|s| s.to_string()).collect();
        assert_eq!(rel_paths(&targets), want, "excludes = {excludes:?}");
    }
}

#[test]
fn find_explicit_file() {
    let file = "/tmp/tree/nested/deep/SKILL.md";
    let targets = find(&[argument(file, Item::File)], &vec![], "/").unwrap();
    assert_eq!(targets.len(), 1);
    assert_eq!(targets[0].kind, Kind::Skill);

    let file = "/tmp/tree/node_modules/pkg/SKILL.md";
    let targets = find(&[argument(file, Item::File)], &vec![], "/").unwrap();
    assert_eq!(
        targets.len(),
        1,
        "an explicit file inside a skipped directory is still linted"
    );
}

#[test]
fn find_errors() {
    let err = find(&[argument("/tmp/tree/README.md", Item::File)], &vec![], "/").unwrap_err();
    assert!(err.contains("not an AGENTS.md or SKILL.md"), "{err}");

    let gone = Item::Unreadable("No such file or directory (os error 2)".to_string());
    assert!(find(&[argument("/tmp/tree/nope", gone)], &vec![], "/").is_err());

    let err = find(
        &[argument(ROOT, tree(&["README.md"]))],
        &list(&["["]),
        "/",
    )
    .unwrap_err();
    assert!(err.contains("invalid exclude"), "{err}");
}

#[test]
fn find_deduplicates() {
    let file = "/tmp/tree/AGENTS.md";
    let targets = find(
        &[
            argument(ROOT, tree(&["AGENTS.md"])),
            argument(file, Item::File),
            argument(file, Item::File),
        ],
        &vec![],
        "/",
    )
    .unwrap();
    assert_eq!(targets.len(), 1);
}

#[test]
fn find_empty_result() {
    let targets = find(&[argument(ROOT, tree(&["README.md"]))], &vec![], "/").unwrap();
    assert!(targets.is_empty());
}

#[test]
fn relative_and_absolute_spellings_are_one_file() {
    let targets = find(
        &[
            argument("tree/AGENTS.md", Item::File),
            argument("/tmp/tree/AGENTS.md", Item::File),
            argument("./tree/./AGENTS.md", Item::File),
        ],
        &vec![],
        "/tmp",
    )
    .unwrap();
    assert_eq!(targets.len(), 1);
}

#[test]
fn a_directory_that_cannot_be_listed_stops_the_run() {
    let closed = Item::Directory(vec![Entry {
        name: "sub".to_string(),
        item: Item::Closed("Permission denied (os error 13)".to_string()),
    }]);
    let err = find(&[argument(ROOT, closed)], &vec![], "/").unwrap_err();
    assert!(err.contains("Permission denied"), "{err}");
}

#[test]
fn excludes_match_names_and_paths_as_globs() {
    assert!(prunes(&list(&["*.md"]), "a.md", "docs/a.md"));
    assert!(prunes(&list(&["docs/*"]), "a.md", "docs/a.md"));
    assert!(prunes(&list(&["plain"]), "plain", "deep/plain"));
    assert!(!prunes(&list(&["plain"]), "plane", "deep/plane"));
    assert!(prunes(&list(&["nothing", "deep/plain"]), "plain", "deep/plain"));
}

#[test]
fn names_are_matched_in_any_case() {
    assert_eq!(kind_for("x/aGeNtS.mD"), Some(Kind::Agents));
    assert_eq!(kind_by_name("agents.md"), Some(Kind::Agents));
    assert_eq!(kind_by_name("notes.md"), None);
    assert_eq!(Kind::Skill.as_str(), "skill");
    assert_eq!(join_path("a", "b"), "a/b");
}

/// The case of ASCII letters never counts, whatever else a name holds.
#[test]
fn kind_ignores_ascii_case_in_any_name() {
    for (a, b) in [
        ("s\u{212a}ill.md", "S\u{212a}ILL.MD"),
        ("Σkill.md", "ΣKILL.MD"),
        ("x/AGENTS.md", "y/z/agents.MD"),
        ("ÄGENTS.md", "Ägents.md"),
        ("..", "/"),
    ] {
        assert_eq!(kind_for(a), kind_for(b), "{a} and {b}");
    }
    assert_eq!(kind_for("s\u{212a}ill.md"), Some(Kind::Skill));
}

/// A file named outright stands for its directory, as it was named.
#[test]
fn the_root_of_a_file_is_told_as_its_path_is() {
    for (path, root) in [
        ("SKILL.md", ""),
        ("./SKILL.md", "."),
        ("./a/SKILL.md", "./a"),
        ("a//b/SKILL.md", "a//b"),
        ("../SKILL.md", ".."),
        ("/SKILL.md", "/"),
        ("/x/SKILL.md", "/x"),
    ] {
        let targets = find(&[argument(path, Item::File)], &vec![], "/work").unwrap();
        assert_eq!(targets[0].root, root, "{path}");
        let told = std::path::Path::new(path).parent().unwrap();
        assert_eq!(targets[0].root, told.to_string_lossy(), "{path}");
    }
}
