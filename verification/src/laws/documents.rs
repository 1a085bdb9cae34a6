//! What a file's text is taken for: its front matter, its body, and what is
//! wrong with it.

use vstd::prelude::*;

use crate::laws::fences::run_of;
use crate::laws::paths::lemma_split;
use crate::parse::{
    assembled, close_fence, close_from, document_of, entries_of, fence_of, first_content, key_index,
    misplaced_at, misplaced_from, names_a_skill, open_fence, strings_of, value_of, without_bom,
    without_cr, DocumentView, EntryView, ErrKind, FrontmatterView, ValueView,
};
use crate::text::{join, lemma_split_join, list_items, nonblank, split, trim};
use crate::yaml::{scalar_text, yaml, DataView, FaultView, NodeView};

verus! {

/// Whether a text is blanks and tabs and then carriage returns.
pub open spec fn is_line_end(s: Seq<char>) -> bool {
    exists|k: int|
        0 <= k <= s.len() && (forall|j: int| 0 <= j < k ==> #[trigger] s[j] == ' ' || s[j] == '\t')
            && #[trigger] s.skip(k) == run_of('\r', (s.len() - k) as nat)
}

proof fn lemma_without_cr(line: Seq<char>)
    ensures
        without_cr(line).len() <= line.len(),
        without_cr(line) == line.take(without_cr(line).len() as int),
        without_cr(line).len() > 0 ==> without_cr(line).last() != '\r',
        forall|j: int| without_cr(line).len() <= j < line.len() ==> line[j] == '\r',
    decreases line.len(),
{
    if line.len() > 0 && line.last() == '\r' {
        let init = line.drop_last();
        lemma_without_cr(init);
        let m = without_cr(line).len() as int;
        assert(init.take(m) =~= line.take(m));
        assert forall|j: int| m <= j < line.len() implies line[j] == '\r' by {
            if j < init.len() {
                assert(init[j] == line[j]);
            }
        }
    } else {
        assert(line.take(line.len() as int) =~= line);
    }
}

proof fn lemma_fence_of(c: char, n: nat, rest: Seq<char>, mark: char)
    requires
        n > 0,
        c != ' ' && c != '\t' && c != '\r',
        mark != ' ' && mark != '\t' && mark != '\r',
        rest.len() == 0 || rest[0] != c,
    ensures
        fence_of(without_cr(run_of(c, n) + rest), mark) <==> c == mark && n >= 3 && is_line_end(rest),
{
    let line = run_of(c, n) + rest;
    let s = without_cr(line);
    let m = s.len() as int;
    lemma_without_cr(line);
    assert(m >= n) by {
        if m < n {
            assert(line[m] == '\r');
        }
    }
    assert(forall|j: int| 0 <= j < m ==> #[trigger] s[j] == line[j]);
    if fence_of(s, mark) {
        let k = choose|k: int| #[trigger]
            s.take(k).len() == k && 3 <= k <= s.len() && (forall|j: int| 0 <= j < k ==> s[j] == mark)
                && (forall|j: int| k <= j < s.len() ==> s[j] == ' ' || s[j] == '\t');
        assert(s[0] == c);
        assert(c == mark);
        assert(k == n) by {
            if k > n {
                assert(s[n as int] == mark);
                assert(line[n as int] == rest[0]);
            }
            if k < n {
                assert(s[k] == c);
            }
        }
        let e = m - n;
        assert forall|j: int| 0 <= j < e implies #[trigger] rest[j] == ' ' || rest[j] == '\t' by {
            assert(s[j + n] == rest[j]);
        }
        assert(rest.skip(e) =~= run_of('\r', (rest.len() - e) as nat)) by {
            assert forall|j: int| 0 <= j < rest.len() - e implies rest.skip(e)[j] == '\r' by {
                assert(line[m + j] == rest[e + j]);
            }
        }
        assert(is_line_end(rest));
    }
    if c == mark && n >= 3 && is_line_end(rest) {
        let e = choose|e: int|
            0 <= e <= rest.len() && (forall|j: int|
                0 <= j < e ==> #[trigger] rest[j] == ' ' || rest[j] == '\t') && #[trigger] rest.skip(e)
                == run_of('\r', (rest.len() - e) as nat);
        assert(rest.skip(e) == run_of('\r', (rest.len() - e) as nat));
        assert(m <= n + e) by {
            if m > n + e {
                assert(s.last() == line[m - 1]);
                assert(line[m - 1] == rest.skip(e)[m - 1 - n - e]);
                assert(run_of('\r', (rest.len() - e) as nat)[m - 1 - n - e] == '\r');
            }
        }
        assert(s.take(n as int).len() == n);
        assert forall|j: int| n <= j < s.len() implies s[j] == ' ' || s[j] == '\t' by {
            assert(s[j] == rest[j - n]);
        }
        assert forall|j: int| 0 <= j < n implies s[j] == mark by {
            assert(s[j] == line[j]);
        }
        assert(fence_of(s, mark));
    }
}

/// Front matter is fenced by lines of three or more dashes, with nothing but
/// blanks, tabs and carriage returns behind them. Dots close it too, but do not
/// open it. No other line does either.
pub proof fn lemma_fence_lines(c: char, n: nat, rest: Seq<char>)
    requires
        n > 0,
        c != ' ' && c != '\t' && c != '\r',
        rest.len() == 0 || rest[0] != c,
    ensures
        open_fence(run_of(c, n) + rest) <==> c == '-' && n >= 3 && is_line_end(rest),
        close_fence(run_of(c, n) + rest) <==> (c == '-' || c == '.') && n >= 3 && is_line_end(rest),
{
    lemma_fence_of(c, n, rest, '-');
    lemma_fence_of(c, n, rest, '.');
}

/// A line that starts with white space, or is empty, fences nothing.
pub proof fn lemma_no_fence(line: Seq<char>)
    requires
        line.len() == 0 || line[0] == ' ' || line[0] == '\t' || line[0] == '\r',
    ensures
        !open_fence(line),
        !close_fence(line),
{
    lemma_without_cr(line);
    let s = without_cr(line);
    if s.len() > 0 {
        assert(s[0] == line[0]);
    }
}

/// Whether a text is lines: none of them holds a line feed.
pub open spec fn are_lines(lines: Seq<Seq<char>>) -> bool {
    lines.len() > 0 && forall|k: int| 0 <= k < lines.len() ==> !(#[trigger] lines[k]).contains('\n')
}

proof fn lemma_close_from(lines: Seq<Seq<char>>, from: int, k: int)
    requires
        0 <= from <= k <= lines.len(),
        forall|j: int| from <= j < k ==> !close_fence(#[trigger] lines[j]),
        k < lines.len() ==> close_fence(lines[k]),
    ensures
        close_from(lines, from) == k,
    decreases k - from,
{
    if from < k {
        assert(!close_fence(lines[from]));
        lemma_close_from(lines, from + 1, k);
    }
}

proof fn lemma_first_content(lines: Seq<Seq<char>>, from: int, k: int)
    requires
        0 <= from <= k <= lines.len(),
        forall|j: int| from <= j < k ==> trim(#[trigger] lines[j]).len() == 0,
        k < lines.len() ==> trim(lines[k]).len() > 0,
    ensures
        first_content(lines, from) == k,
    decreases k - from,
{
    if from < k {
        assert(trim(lines[from]).len() == 0);
        lemma_first_content(lines, from + 1, k);
    }
}

proof fn lemma_misplaced_from(lines: Seq<Seq<char>>, from: int, k: int)
    requires
        0 <= from <= k <= lines.len(),
        forall|j: int| from <= j < k ==> !misplaced_at(lines, j),
        k < lines.len() ==> misplaced_at(lines, k),
    ensures
        misplaced_from(lines, from) == k,
    decreases k - from,
{
    if from < k {
        lemma_misplaced_from(lines, from + 1, k);
    }
}

/// A text whose first line opens front matter has what stands between it and
/// the first closing line as its front matter, and what stands behind as its
/// body. One that never closes it is all body, and told so on its first line.
pub proof fn lemma_fenced_document(lines: Seq<Seq<char>>, k: int)
    requires
        are_lines(lines),
        trim(lines[0]).len() > 0,
        open_fence(lines[0]),
        1 <= k <= lines.len(),
        forall|j: int| 1 <= j < k ==> !close_fence(#[trigger] lines[j]),
        k < lines.len() ==> close_fence(lines[k]),
    ensures
        k < lines.len() ==> document_of(join(lines, seq!['\n'])) == assembled(
            yaml(join(lines.subrange(1, k), seq!['\n'])),
            k + 1,
            join(lines.skip(k + 1), seq!['\n']),
        ),
        k == lines.len() ==> {
            let d = document_of(join(lines, seq!['\n']));
            &&& d.body == join(lines, seq!['\n'])
            &&& d.frontmatter.present
            &&& d.frontmatter.entries.len() == 0
            &&& d.error matches Some(e) && e.kind == ErrKind::Unterminated && e.line == 1 && e.msg
                == "front matter is not closed by a --- fence"@
        },
{
    lemma_split_join(lines, '\n');
    lemma_first_content(lines, 0, 0);
    lemma_close_from(lines, 1, k);
}

/// Whether a line opens front matter that is closed and is a skill's.
pub open spec fn opens_skill(lines: Seq<Seq<char>>, i: int) -> bool {
    open_fence(lines[i]) && exists|k: int|
        i < k < lines.len() && #[trigger] close_fence(lines[k]) && (forall|j: int|
            i < j < k ==> !close_fence(#[trigger] lines[j])) && names_a_skill(
            yaml(join(lines.subrange(i + 1, k), seq!['\n'])),
        )
}

proof fn lemma_misplaced(lines: Seq<Seq<char>>, i: int)
    requires
        0 <= i < lines.len(),
    ensures
        misplaced_at(lines, i) <==> opens_skill(lines, i),
{
    lemma_close_bounds(lines, i + 1);
    let close = close_from(lines, i + 1);
    if misplaced_at(lines, i) {
        assert(close_fence(lines[close]));
        assert(opens_skill(lines, i));
    }
    if opens_skill(lines, i) {
        let k = choose|k: int|
            i < k < lines.len() && #[trigger] close_fence(lines[k]) && (forall|j: int|
                i < j < k ==> !close_fence(#[trigger] lines[j])) && names_a_skill(
                yaml(join(lines.subrange(i + 1, k), seq!['\n'])),
            );
        lemma_close_from(lines, i + 1, k);
    }
}

proof fn lemma_close_bounds(lines: Seq<Seq<char>>, from: int)
    requires
        0 <= from <= lines.len(),
    ensures
        from <= close_from(lines, from) <= lines.len(),
        close_from(lines, from) < lines.len() ==> close_fence(lines[close_from(lines, from)]),
        forall|j: int| from <= j < close_from(lines, from) ==> !close_fence(#[trigger] lines[j]),
    decreases lines.len() - from,
{
    if from < lines.len() && !close_fence(lines[from]) {
        lemma_close_bounds(lines, from + 1);
    }
}

/// Whether a document has no front matter: its text is all body.
pub open spec fn is_all_body(d: DocumentView, text: Seq<char>) -> bool {
    d.body == text && !d.frontmatter.present && d.frontmatter.entries.len() == 0
}

/// Front matter behind blank lines is told to be on the first line instead.
pub proof fn lemma_late_document(lines: Seq<Seq<char>>, i: int)
    requires
        are_lines(lines),
        0 < i < lines.len(),
        forall|j: int| 0 <= j < i ==> trim(#[trigger] lines[j]).len() == 0,
        trim(lines[i]).len() > 0,
        open_fence(lines[i]),
    ensures
        ({
            let d = document_of(join(lines, seq!['\n']));
            &&& is_all_body(d, join(lines, seq!['\n']))
            &&& d.error matches Some(e) && e.kind == ErrKind::NotFirst && e.line == i + 1 && e.msg
                == "front matter must start on the first line of the file"@
        }),
{
    lemma_split_join(lines, '\n');
    lemma_first_content(lines, 0, i);
}

/// A text that starts with anything else has no front matter. Where there is a
/// skill's further down, the first such is told to be in the wrong place.
pub proof fn lemma_plain_document(lines: Seq<Seq<char>>, i: int, k: int)
    requires
        are_lines(lines),
        0 <= i <= lines.len(),
        forall|j: int| 0 <= j < i ==> trim(#[trigger] lines[j]).len() == 0,
        i < lines.len() ==> trim(lines[i]).len() > 0 && !open_fence(lines[i]),
        0 <= k <= lines.len(),
        forall|j: int| 0 <= j < k ==> !opens_skill(lines, j),
        k < lines.len() ==> opens_skill(lines, k),
    ensures
        ({
            let d = document_of(join(lines, seq!['\n']));
            &&& is_all_body(d, join(lines, seq!['\n']))
            &&& k == lines.len() ==> d.error is None
            &&& k < lines.len() ==> (d.error matches Some(e) && e.kind == ErrKind::NotFirst && e.line
                == k + 1 && e.msg == "front matter must start on the first line of the file"@)
        }),
{
    lemma_split_join(lines, '\n');
    lemma_first_content(lines, 0, i);
    assert forall|j: int| 0 <= j < k implies !misplaced_at(lines, j) by {
        lemma_misplaced(lines, j);
    }
    if k < lines.len() {
        lemma_misplaced(lines, k);
    }
    lemma_misplaced_from(lines, 0, k);
}

/// A skill's front matter is a mapping with a name or a description.
pub proof fn lemma_names_a_skill(docs: Seq<NodeView>, fault: FaultView)
    ensures
        !names_a_skill(Err(fault)),
        docs.len() == 0 || !(docs[0].data is Mapping) ==> !names_a_skill(Ok(docs)),
        docs.len() > 0 ==> (docs[0].data matches DataView::Mapping(pairs) ==> (names_a_skill(
            Ok(docs),
        ) <==> exists|i: int|
            0 <= i < pairs.len() && (scalar_text((#[trigger] pairs[i]).0.data) == Some("name"@)
                || scalar_text(pairs[i].0.data) == Some("description"@)))),
{
}

/// What front matter is, by what its YAML is: a mapping is its entries, and
/// anything else is told, on the line of the file that it is on.
pub proof fn lemma_assembled(
    docs: Seq<NodeView>,
    fault: FaultView,
    end_line: int,
    body: Seq<char>,
)
    ensures
        ({
            let d = assembled(Ok(docs), end_line, body);
            &&& d.body == body
            &&& d.frontmatter.present
            &&& d.frontmatter.end_line == end_line
            &&& docs.len() == 0 ==> d.frontmatter.entries.len() == 0 && (d.error matches Some(e)
                && e.kind == ErrKind::NotMapping && e.line == 1 && e.msg
                == "front matter is empty"@)
            &&& docs.len() > 0 ==> (docs[0].data matches DataView::Mapping(pairs) ==> d.error is None
                && d.frontmatter.entries == entries_of(pairs))
            &&& docs.len() > 0 && !(docs[0].data is Mapping) ==> d.frontmatter.entries.len() == 0 && (
            d.error matches Some(e) && e.kind == ErrKind::NotMapping && e.line == docs[0].line + 1
                && e.msg == "front matter must be a mapping of keys to values"@)
        }),
        ({
            let d = assembled(Err(fault), end_line, body);
            &&& d.body == body
            &&& d.frontmatter.present
            &&& d.frontmatter.end_line == end_line
            &&& d.frontmatter.entries.len() == 0
            &&& d.error matches Some(e) && e.kind == ErrKind::InvalidYaml && e.line == fault.line + 1
                && e.msg == "invalid YAML in front matter: "@ + trim(fault.info)
        }),
{
}

proof fn lemma_key_index_is(entries: Seq<EntryView>, key: Seq<char>)
    ensures
        0 <= key_index(entries, key) <= entries.len(),
        key_index(entries, key) < entries.len() ==> entries[key_index(entries, key)].key == key,
        forall|j: int| 0 <= j < key_index(entries, key) ==> (#[trigger] entries[j]).key != key,
    decreases entries.len(),
{
    if entries.len() > 0 {
        let init = entries.drop_last();
        lemma_key_index_is(init, key);
        let i = key_index(entries, key);
        assert forall|j: int| 0 <= j < i implies (#[trigger] entries[j]).key != key by {
            if j < init.len() {
                assert(init[j] == entries[j]);
            }
        }
    }
}

/// A field is found under its key: its value, and the line it is on. A field
/// that is not there counts as on the closing line.
pub proof fn lemma_lookup(fm: FrontmatterView, key: Seq<char>, i: int)
    requires
        0 <= i <= fm.entries.len(),
        forall|j: int| 0 <= j < i ==> (#[trigger] fm.entries[j]).key != key,
        i < fm.entries.len() ==> fm.entries[i].key == key,
    ensures
        i < fm.entries.len() ==> fm.has(key) && fm.line(key) == fm.entries[i].line && fm.node(key)
            == Some(fm.entries[i].value),
        i == fm.entries.len() ==> !fm.has(key) && fm.line(key) == fm.end_line && fm.node(key) is None,
        fm.string(key) is Some <==> (fm.node(key) matches Some(v) && v is Scalar),
        fm.string(key) matches Some(s) ==> fm.node(key) == Some(ValueView::Scalar(s)),
{
    lemma_key_index_is(fm.entries, key);
    let k = key_index(fm.entries, key);
    if k < i {
        assert(fm.entries[k].key == key);
    }
    if i < k {
        assert(fm.entries[i].key != key);
    }
}

/// Every entry of a mapping that has a text as its key counts, on the line of
/// the file that the key is on. Of two with one key the later one counts, in
/// the place of the first.
pub proof fn lemma_entries(pairs: Seq<(NodeView, NodeView)>, key: NodeView, value: NodeView)
    ensures
        entries_of(Seq::empty()).len() == 0,
        scalar_text(key.data) is None ==> entries_of(pairs.push((key, value))) == entries_of(pairs),
        scalar_text(key.data) matches Some(text) ==> {
            let before = entries_of(pairs);
            let now = entries_of(pairs.push((key, value)));
            let e = EntryView { key: text, line: key.line + 1, value: value_of(value.data) };
            &&& (forall|i: int| 0 <= i < before.len() ==> (#[trigger] before[i]).key != text) ==> now
                == before.push(e)
            &&& forall|i: int|
                0 <= i < before.len() && (#[trigger] before[i]).key == text && (forall|j: int|
                    0 <= j < i ==> before[j].key != text) ==> now == before.update(i, e)
        },
{
    let all = pairs.push((key, value));
    assert(all.drop_last() =~= pairs);
    if let Some(text) = scalar_text(key.data) {
        let before = entries_of(pairs);
        let now = entries_of(all);
        let e = EntryView { key: text, line: key.line + 1, value: value_of(value.data) };
        lemma_key_index_is(before, text);
        let k = key_index(before, text);
        if forall|i: int| 0 <= i < before.len() ==> (#[trigger] before[i]).key != text {
            if k < before.len() {
                assert(before[k].key != text);
            }
        }
        assert forall|i: int|
            0 <= i < before.len() && (#[trigger] before[i]).key == text && (forall|j: int|
                0 <= j < i ==> before[j].key != text) implies now == before.update(i, e) by {
            if i < k {
                assert(before[i].key != text);
            }
            if k < i {
                assert(before[k].key != text);
            }
        }
    }
}

/// What a value is: a text, a list, a mapping, or nothing of these.
pub proof fn lemma_values(data: DataView)
    ensures
        data is Scalar ==> value_of(data) == ValueView::Scalar(scalar_text(data)->Some_0),
        data matches DataView::Sequence(items) ==> (value_of(data) matches ValueView::Sequence(list)
            && list.len() == items.len() && forall|i: int|
            0 <= i < items.len() ==> #[trigger] list[i] == value_of(items[i].data)),
        data is Mapping ==> value_of(data) == ValueView::Mapping,
        data is Other ==> value_of(data) == ValueView::Other,
{
}

proof fn lemma_nonblank_add(a: Seq<Seq<char>>, b: Seq<Seq<char>>)
    ensures
        nonblank(a + b) == nonblank(a) + nonblank(b),
    decreases b.len(),
{
    if b.len() > 0 {
        assert((a + b).drop_last() =~= a + b.drop_last());
        assert((a + b).last() == b.last());
        lemma_nonblank_add(a, b.drop_last());
    }
    assert(nonblank(a + b) =~= nonblank(a) + nonblank(b));
}

/// A text is a list of what stands between its commas, without white space
/// around it and without what is blank.
pub proof fn lemma_list(a: Seq<char>, b: Seq<char>)
    ensures
        list_items(a + seq![','] + b) == list_items(a) + list_items(b),
        !a.contains(',') && trim(a).len() > 0 ==> list_items(a) == seq![trim(a)],
        !a.contains(',') && trim(a).len() == 0 ==> list_items(a).len() == 0,
{
    lemma_split(a, ',', b);
    lemma_nonblank_add(split(a, ','), split(b, ','));
    if !a.contains(',') {
        let one = seq![a];
        assert(one.drop_last() =~= Seq::empty());
        assert(nonblank(one.drop_last()) =~= Seq::empty());
        assert(nonblank(one) =~= if trim(a).len() > 0 {
            seq![trim(a)]
        } else {
            Seq::empty()
        });
    }
}

/// A field is a list of texts where it is a text, or a list of nothing but
/// texts.
pub proof fn lemma_strings(s: Seq<char>, items: Seq<ValueView>)
    ensures
        strings_of(ValueView::Scalar(s)) == Some(list_items(s)),
        strings_of(ValueView::Sequence(items)) is Some <==> forall|i: int|
            0 <= i < items.len() ==> #[trigger] items[i] is Scalar,
        strings_of(ValueView::Sequence(items)) matches Some(list) ==> list.len() == items.len()
            && forall|i: int|
            0 <= i < items.len() ==> items[i] == ValueView::Scalar(#[trigger] list[i]),
        strings_of(ValueView::Mapping) is None,
        strings_of(ValueView::Other) is None,
{
}

/// One byte order mark at the start of a file does not count, and nothing else
/// goes.
pub proof fn lemma_bom(text: Seq<char>)
    ensures
        without_bom(seq!['\u{feff}'] + text) == text,
        text.len() == 0 || text[0] != '\u{feff}' ==> without_bom(text) == text,
{
    assert((seq!['\u{feff}'] + text).skip(1) =~= text);
}

} // verus!
