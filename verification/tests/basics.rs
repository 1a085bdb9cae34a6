use lintmatter::fence::FenceTracker;
use lintmatter::number::{read_i64, read_usize, write_grouped, write_integer, write_natural};
use lintmatter::order::{precedes, sort_order, sort_texts};
use lintmatter::text::{join_with, split_at, split_items, to_chars, to_lower, to_text, trimmed};
use lintmatter::utils::{
    clean, clean_path, file_name, parent_text, resolve, resolve_parts, split_parts, to_slash,
};

fn chars(s: &str) -> Vec<char> {
    to_chars(s)
}

#[test]
fn numbers_are_written_and_read_back() {
    assert_eq!(write_natural(0), "0");
    assert_eq!(write_natural(u128::MAX), u128::MAX.to_string());
    for n in [0, 7, -7, i64::MAX, i64::MIN] {
        assert_eq!(write_integer(n), n.to_string());
        assert_eq!(read_i64(&write_integer(n)), Some(n));
    }
    assert_eq!(write_grouped(6142), "6,142");
    assert_eq!(write_grouped(999), "999");
    assert_eq!(write_grouped(1_000_000), "1,000,000");
}

#[test]
fn numbers_are_read_as_the_standard_library_does() {
    for s in ["", "+", "-", "+5", "-0", "007", "9223372036854775808", " 1", "1 ", "1_0", "\u{663}"] {
        assert_eq!(read_i64(s), s.parse::<i64>().ok(), "{s:?}");
        assert_eq!(read_usize(s), s.parse::<usize>().ok(), "{s:?}");
    }
    assert_eq!(read_usize("18446744073709551615"), "18446744073709551615".parse::<usize>().ok());
}

#[test]
fn texts_are_split_and_joined_back() {
    for s in ["", "a", "a/b", "/a//b/", "///"] {
        let parts = split_at(&chars(s), '/');
        let want: Vec<Vec<char>> = s.split('/').map(|p| p.chars().collect()).collect();
        assert_eq!(parts, want, "{s:?}");
        assert_eq!(to_text(&join_with(&parts, '/')), s);
    }
    assert_eq!(split_items(" a, ,b c ,"), vec!["a".to_string(), "b c".to_string()]);
    assert_eq!(to_text(trimmed(&chars("\u{a0}\t x y \n"))), "\u{a0}\t x y \n".trim());
    assert_eq!(to_lower("AbC-\u{c9}"), "abc-\u{c9}");
}

#[test]
fn texts_are_sorted_by_their_bytes() {
    assert!(precedes(&chars("a"), &chars("ab")));
    assert!(precedes(&chars("Z"), &chars("a")));
    assert!(!precedes(&chars("b"), &chars("a")));
    let mut want = vec!["b", "a", "\u{1f600}", "\u{e9}", "", "ab", "B"];
    let keys: Vec<Vec<char>> = want.iter().map(|s| chars(s)).collect();
    want.sort();
    let got: Vec<String> = sort_texts(&keys).iter().map(|s| to_text(s)).collect();
    assert_eq!(got, want);
    let twice = [chars("b"), chars("a"), chars("b"), chars("a")];
    assert_eq!(sort_order(&twice), vec![1, 3, 0, 2]);
}

#[test]
fn paths_are_cleaned_once_and_for_all() {
    for (raw, want) in [
        ("/a/./b//c/", "/a/b/c"),
        ("a/../b", "b"),
        ("/..", "/"),
        ("../x", "../x"),
    ] {
        let cleaned = clean_path(raw);
        assert_eq!(cleaned, want, "{raw}");
        assert_eq!(clean_path(&cleaned), cleaned, "{raw}");
    }
    assert!(clean("/a/b/c").starts_with(&clean("/a/b")));
    assert!(!clean("/a/bc").starts_with(&clean("/a/b")));
    assert_eq!(resolve("/work", "x/../y").text(), "/work/y");
    assert_eq!(resolve("/work", "/abs").text(), "/abs");
}

#[test]
fn names_and_parents_of_paths() {
    assert_eq!(file_name("a/b.md").map(|n| to_text(&n)).as_deref(), Some("b.md"));
    assert!(file_name("a/..").is_none());
    assert_eq!(parent_text("a/b.md"), "a");
    assert_eq!(to_slash("a\\b/c"), "a/b/c");
    assert_eq!(split_parts(&chars("/a/./b")).len(), 2);
    assert_eq!(resolve_parts("/w", vec![chars("x")]).text(), "/w/x");
}

fn prose(lines: &[&str]) -> Vec<bool> {
    let mut tracker = FenceTracker::default();
    lines.iter().map(|l| tracker.scan_line(&chars(l))).collect()
}

#[test]
fn a_fence_closes_on_its_own_marker() {
    assert_eq!(
        prose(&["text", "```rs", "~~~", "``", "```", "text"]),
        vec![true, false, false, false, false, true]
    );
    assert_eq!(prose(&["````", "```", "`````", "after"]), vec![false, false, false, true]);
    assert_eq!(prose(&["```", "never closed"]), vec![false, false]);
}
