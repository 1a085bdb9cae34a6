//! The file-reference rule: markdown links and path-shaped inline code spans
//! whose target looks like a local file but does not resolve to one.

use vstd::prelude::*;
use vstd::slice::slice_subrange;

use crate::discover::{join_path, joined, Kind};
use crate::fence::{after, is_prose, open_after, FenceTracker};
use crate::lint::ids::RULE_FILE_REFERENCE_MISSING;
use crate::lint::rule::Rule;
use crate::lint::{ContextView, FileContext, FindingSink, Outcome, Report, Severity};
use crate::text::{
    copy, debug_text, find_char, first_index, has_char, holds, is_white, is_whitespace,
    lemma_first_index, lemma_first_index_is, lemma_trim, quoted, rows, split, split_at, texts,
    to_chars, to_text, trim, trimmed,
};
use crate::utils::{absolute, parent_text, parent_text_of, resolve, CleanPath, PathView};

verus! {

/// The first code span from `from` on, by its two backticks: a backtick, one
/// or more other characters, and a backtick.
pub open spec fn span_from(s: Seq<char>, from: int) -> Option<(int, int)>
    decreases s.len() - from,
    via span_from_shrinks
{
    let i = first_index(s, '`', from);
    let j = first_index(s, '`', i + 1);
    if from < 0 || i >= s.len() || j >= s.len() {
        None
    } else if j == i + 1 {
        span_from(s, i + 1)
    } else {
        Some((i, j))
    }
}

#[via_fn]
proof fn span_from_shrinks(s: Seq<char>, from: int) {
    if 0 <= from <= s.len() {
        lemma_first_index(s, '`', from);
    }
}

/// The code spans from `from` on, from left to right.
pub open spec fn spans_from(s: Seq<char>, from: int) -> Seq<(int, int)>
    decreases s.len() - from,
    via spans_from_shrinks
{
    match span_from(s, from) {
        Some((i, j)) => seq![(i, j)] + spans_from(s, j + 1),
        None => Seq::empty(),
    }
}

#[via_fn]
proof fn spans_from_shrinks(s: Seq<char>, from: int) {
    lemma_span_from(s, from);
}

proof fn lemma_span_from(s: Seq<char>, from: int)
    ensures
        span_from(s, from) matches Some((i, j)) ==> 0 <= from <= i && i + 1 < j < s.len(),
    decreases s.len() - from,
{
    if 0 <= from <= s.len() {
        lemma_first_index(s, '`', from);
        let i = first_index(s, '`', from);
        if i < s.len() {
            lemma_first_index(s, '`', i + 1);
            let j = first_index(s, '`', i + 1);
            if j == i + 1 && j < s.len() {
                lemma_span_from(s, i + 1);
            }
        }
    }
}

/// Whether a position lies in one of the spans.
pub open spec fn covered(spans: Seq<(int, int)>, k: int) -> bool {
    exists|t: int| 0 <= t < spans.len() && (#[trigger] spans[t]).0 <= k <= spans[t].1
}

/// A line with its code spans blanked out.
pub open spec fn masked(s: Seq<char>) -> Seq<char> {
    Seq::new(
        s.len(),
        |k: int|
            if covered(spans_from(s, 0), k) {
                '*'
            } else {
                s[k]
            },
    )
}

/// Where the target of the link that opens at `b` stands: a bracketed label,
/// directly followed by a target in parentheses that is not empty.
pub open spec fn link_at(s: Seq<char>, b: int) -> Option<(int, int)> {
    let c = first_index(s, ']', b + 1);
    let d = first_index(s, ')', c + 2);
    if 0 <= b < s.len() && s[b] == '[' && c + 1 < s.len() && s[c + 1] == '(' && d < s.len() && d > c
        + 2 {
        Some((c + 2, d))
    } else {
        None
    }
}

/// The targets of the links from `from` on, from left to right.
pub open spec fn links_from(s: Seq<char>, from: int) -> Seq<(int, int)>
    decreases s.len() - from,
    via links_from_shrinks
{
    if from < 0 || from >= s.len() {
        Seq::empty()
    } else {
        match link_at(s, from) {
            Some((a, b)) => seq![(a, b)] + links_from(s, b + 1),
            None => links_from(s, from + 1),
        }
    }
}

#[via_fn]
proof fn links_from_shrinks(s: Seq<char>, from: int) {
    lemma_link_at(s, from);
}

proof fn lemma_link_at(s: Seq<char>, b: int)
    ensures
        link_at(s, b) matches Some((x, y)) ==> 0 <= b < x < y < s.len(),
{
    if 0 <= b < s.len() {
        lemma_first_index(s, ']', b + 1);
        let c = first_index(s, ']', b + 1);
        if c + 2 <= s.len() {
            lemma_first_index(s, ')', c + 2);
        }
    }
}

/// The first position of one of two characters, or the length.
pub open spec fn first_of(s: Seq<char>, a: char, b: char) -> int {
    let i = first_index(s, a, 0);
    let j = first_index(s, b, 0);
    if i < j {
        i
    } else {
        j
    }
}

/// What stands before the first of two characters.
pub open spec fn before(s: Seq<char>, a: char, b: char) -> Seq<char> {
    s.take(first_of(s, a, b))
}

pub open spec fn is_letter(c: char) -> bool {
    ('a' <= c <= 'z') || ('A' <= c <= 'Z')
}

pub open spec fn is_letter_or_digit(c: char) -> bool {
    is_letter(c) || ('0' <= c <= '9')
}

/// Whether a text begins with a URI scheme: a letter, then letters, digits,
/// `+`, `.` or `-`, then a colon.
pub open spec fn has_scheme(s: Seq<char>) -> bool {
    let k = first_index(s, ':', 0);
    k < s.len() && k > 0 && is_letter(s[0]) && forall|i: int|
        1 <= i < k ==> is_letter_or_digit(#[trigger] s[i]) || s[i] == '+' || s[i] == '.' || s[i]
            == '-'
}

/// A target without the angle brackets it may stand in.
pub open spec fn unbracketed(s: Seq<char>) -> Seq<char> {
    if s.len() > 0 && s[0] == '<' && s.skip(1).contains('>') {
        s.skip(1).take(first_index(s.skip(1), '>', 0))
    } else {
        s
    }
}

/// A link's target without brackets and title.
pub open spec fn bare_target(raw: Seq<char>) -> Seq<char> {
    before(unbracketed(trim(raw)), ' ', '\t')
}

/// The file path a markdown link points at, or `None` when the link is not a
/// checkable local file reference.
pub open spec fn link_path(raw: Seq<char>) -> Option<Seq<char>> {
    let whole = bare_target(raw);
    let path = before(whole, '#', '?');
    if whole.len() == 0 || whole[0] == '#' || has_scheme(whole) || (whole.len() >= 2 && whole[0]
        == '/' && whole[1] == '/') || path.len() == 0 || path[0] == '/' || path.contains('{')
        || path.contains('}') || path.contains('$') || path.contains('*') {
        None
    } else {
        Some(path)
    }
}

proof fn lemma_before(s: Seq<char>, a: char, b: char)
    ensures
        0 <= first_of(s, a, b) <= s.len(),
        before(s, a, b).len() == first_of(s, a, b),
        forall|i: int|
            0 <= i < before(s, a, b).len() ==> #[trigger] before(s, a, b)[i] == s[i] && s[i] != a
                && s[i] != b,
        !s.contains(a) && !s.contains(b) ==> before(s, a, b) == s,
{
    lemma_first_index(s, a, 0);
    lemma_first_index(s, b, 0);
    if !s.contains(a) && !s.contains(b) {
        lemma_first_index_is(s, a, 0, s.len() as int);
        lemma_first_index_is(s, b, 0, s.len() as int);
        assert(before(s, a, b) =~= s);
    }
}

proof fn lemma_trim_nothing(s: Seq<char>)
    requires
        forall|i: int| 0 <= i < s.len() ==> !is_white(#[trigger] s[i]),
    ensures
        trim(s) == s,
{
    lemma_trim(s);
    let (a, b) = choose|a: int, b: int|
        0 <= a <= b <= s.len() && trim(s) == #[trigger] s.subrange(a, b) && (forall|j: int|
            0 <= j < a ==> is_white(s[j])) && (forall|j: int| b <= j < s.len() ==> is_white(s[j]));
    assert(s.subrange(a, b) == trim(s));
    if a > 0 {
        assert(is_white(s[0]));
    }
    if b < s.len() {
        assert(is_white(s[b]));
    }
    assert(s.subrange(0, s.len() as int) =~= s);
}

/// Taking a target out of its brackets once is enough, whatever of it is kept.
proof fn lemma_unbracketed(s: Seq<char>, t: Seq<char>)
    requires
        0 < t.len() <= unbracketed(s).len(),
        forall|i: int| 0 <= i < t.len() ==> #[trigger] t[i] == unbracketed(s)[i],
    ensures
        unbracketed(t) == t,
{
    let inner = unbracketed(s);
    let rest = s.skip(1);
    if t[0] == '<' && t.skip(1).contains('>') {
        let j = t.skip(1).index_of('>');
        assert(t[j + 1] == '>');
        assert(inner[j + 1] == '>');
        if s[0] == '<' && rest.contains('>') {
            lemma_first_index(rest, '>', 0);
            assert(rest[j + 1] == '>');
        } else {
            assert(rest[j] == '>');
            assert(rest.contains('>'));
        }
    }
}

proof fn lemma_scheme_of_prefix(whole: Seq<char>, t: Seq<char>)
    requires
        t.len() <= whole.len(),
        forall|i: int| 0 <= i < t.len() ==> #[trigger] t[i] == whole[i],
        has_scheme(t),
    ensures
        has_scheme(whole),
{
    let k = first_index(t, ':', 0);
    lemma_first_index(t, ':', 0);
    assert forall|j: int| 0 <= j < k implies whole[j] != ':' by {
        assert(t[j] == whole[j]);
    }
    lemma_first_index_is(whole, ':', 0, k);
    assert forall|i: int| 1 <= i < k implies is_letter_or_digit(#[trigger] whole[i]) || whole[i]
        == '+' || whole[i] == '.' || whole[i] == '-' by {
        assert(t[i] == whole[i]);
    }
}

/// The path that a link points at is a relative path without blanks, anchors
/// and placeholders, and a link to that path points at it. The target holds no
/// white space but blanks and tabs.
pub proof fn lemma_link_path(raw: Seq<char>)
    requires
        forall|i: int|
            0 <= i < raw.len() && is_white(#[trigger] raw[i]) ==> raw[i] == ' ' || raw[i] == '\t',
    ensures
        link_path(raw) matches Some(t) ==> {
            &&& t.len() > 0
            &&& t[0] != '/'
            &&& !t.contains(' ') && !t.contains('\t')
            &&& !t.contains('#') && !t.contains('?')
            &&& !t.contains('{') && !t.contains('}') && !t.contains('$') && !t.contains('*')
            &&& !has_scheme(t)
            &&& link_path(t) == Some(t)
        },
{
    if let Some(t) = link_path(raw) {
        let cleared = trim(raw);
        let inner = unbracketed(cleared);
        let whole = bare_target(raw);
        lemma_trim(raw);
        let (a, b) = choose|a: int, b: int|
            0 <= a <= b <= raw.len() && cleared == #[trigger] raw.subrange(a, b) && (forall|j: int|
                0 <= j < a ==> is_white(raw[j])) && (forall|j: int|
                b <= j < raw.len() ==> is_white(raw[j]));
        assert(raw.subrange(a, b) == cleared);
        lemma_before(inner, ' ', '\t');
        lemma_before(whole, '#', '?');
        if cleared.len() > 0 && cleared[0] == '<' && cleared.skip(1).contains('>') {
            lemma_first_index(cleared.skip(1), '>', 0);
        }
        assert forall|i: int| 0 <= i < t.len() implies #[trigger] t[i] == inner[i] && t[i]
            == whole[i] && !is_white(t[i]) && t[i] != ' ' && t[i] != '\t' && t[i] != '#' && t[i]
            != '?' by {
            assert(t[i] == whole[i]);
            assert(whole[i] == inner[i]);
            if cleared[0] == '<' && cleared.skip(1).contains('>') {
                assert(inner[i] == cleared[i + 1]);
                assert(cleared[i + 1] == raw[a + i + 1]);
            } else {
                assert(inner[i] == cleared[i]);
                assert(cleared[i] == raw[a + i]);
            }
        }
        lemma_trim_nothing(t);
        lemma_unbracketed(cleared, t);
        lemma_before(t, ' ', '\t');
        lemma_before(t, '#', '?');
        if has_scheme(t) {
            lemma_scheme_of_prefix(whole, t);
        }
        assert(bare_target(t) == t);
    }
}

/// What follows the last `c`, or all of it when there is none.
pub open spec fn after_last(s: Seq<char>, c: char) -> Seq<char>
    decreases s.len(),
{
    if s.len() == 0 || s.last() == c {
        Seq::empty()
    } else {
        after_last(s.drop_last(), c).push(s.last())
    }
}

/// Whether a text ends in a file extension: letters and digits behind the
/// last dot of its last path part.
pub open spec fn has_extension(s: Seq<char>) -> bool {
    let part = after_last(s, '/');
    let ext = after_last(part, '.');
    part.contains('.') && ext.len() > 0 && forall|i: int|
        0 <= i < ext.len() ==> is_letter_or_digit(#[trigger] ext[i])
}

pub open spec fn is_relative(s: Seq<char>) -> bool {
    seq!['.', '/'].is_prefix_of(s) || seq!['.', '.', '/'].is_prefix_of(s)
}

/// A file path in an inline code span, or `None` when the span is not clearly
/// a relative file reference.
pub open spec fn span_path(raw: Seq<char>) -> Option<Seq<char>> {
    let s = trim(raw);
    if s.len() == 0 || (exists|i: int| 0 <= i < s.len() && is_white(#[trigger] s[i]))
        || !is_relative(s) || s.contains('{') || s.contains('}') || s.contains('$') || s.contains(
        '*',
    ) || s.contains('#') || s.contains('?') || !has_extension(s) {
        None
    } else {
        Some(s)
    }
}

/// The paths of the first `n` links of a line.
pub open spec fn link_paths(s: Seq<char>, links: Seq<(int, int)>) -> Seq<Seq<char>>
    decreases links.len(),
{
    if links.len() == 0 {
        Seq::empty()
    } else {
        let rest = link_paths(s, links.drop_last());
        match link_path(s.subrange(links.last().0, links.last().1)) {
            Some(path) => rest.push(path),
            None => rest,
        }
    }
}

/// `found` and the paths of code spans that are not yet in it.
pub open spec fn with_spans(
    s: Seq<char>,
    found: Seq<Seq<char>>,
    spans: Seq<(int, int)>,
) -> Seq<Seq<char>>
    decreases spans.len(),
{
    if spans.len() == 0 {
        found
    } else {
        let rest = with_spans(s, found, spans.drop_last());
        match span_path(s.subrange(spans.last().0 + 1, spans.last().1)) {
            Some(path) if !rest.contains(path) => rest.push(path),
            _ => rest,
        }
    }
}

/// The checkable file references on one line: the links outside code spans,
/// then the code spans.
pub open spec fn targets_of(line: Seq<char>) -> Seq<Seq<char>> {
    let text = masked(line);
    with_spans(line, link_paths(text, links_from(text, 0)), spans_from(line, 0))
}

/// The views of a list of ranges.
pub open spec fn ranges(v: Seq<(usize, usize)>) -> Seq<(int, int)> {
    Seq::new(v.len(), |i: int| (v[i].0 as int, v[i].1 as int))
}

/// Whether ranges lie in a text of length `n`, none of them reversed.
pub open spec fn within(list: Seq<(int, int)>, n: int) -> bool {
    forall|t: int| 0 <= t < list.len() ==> 0 <= (#[trigger] list[t]).0 < list[t].1 < n
}

fn next_span(s: &[char], from: usize) -> (r: Option<(usize, usize)>)
    requires
        from <= s@.len(),
    ensures
        span_from(s@, from as int) == (match r {
            Some((i, j)) => Some((i as int, j as int)),
            None => None,
        }),
{
    let mut at: usize = from;
    loop
        invariant
            from <= at <= s@.len(),
            span_from(s@, from as int) == span_from(s@, at as int),
        decreases s@.len() - at,
    {
        let i: usize = find_char(s, '`', at);
        if i >= s.len() {
            return None;
        }
        let j: usize = find_char(s, '`', i + 1);
        if j >= s.len() {
            return None;
        }
        if j > i + 1 {
            return Some((i, j));
        }
        at = i + 1;
    }
}

fn code_spans(s: &[char]) -> (r: Vec<(usize, usize)>)
    ensures
        ranges(r@) == spans_from(s@, 0),
        within(ranges(r@), s@.len() as int),
{
    let n: usize = s.len();
    let mut out: Vec<(usize, usize)> = Vec::new();
    let mut at: usize = 0;
    assert(ranges(out@) + spans_from(s@, 0) =~= spans_from(s@, 0));
    loop
        invariant
            n == s@.len(),
            at <= s@.len(),
            ranges(out@) + spans_from(s@, at as int) == spans_from(s@, 0),
            within(ranges(out@), s@.len() as int),
        ensures
            span_from(s@, at as int) is None,
        decreases s@.len() - at,
    {
        let Some((i, j)) = next_span(s, at) else {
            break;
        };
        proof {
            lemma_span_from(s@, at as int);
            let next = out@.push((i, j));
            let one = seq![(i as int, j as int)];
            let rest = spans_from(s@, j + 1);
            assert(ranges(next) =~= ranges(out@) + one);
            assert(ranges(out@) + (one + rest) =~= (ranges(out@) + one) + rest);
            assert(within(ranges(next), s@.len() as int)) by {
                assert forall|t: int| 0 <= t < ranges(next).len() implies 0 <= (#[trigger] ranges(
                    next,
                )[t]).0 < ranges(next)[t].1 < s@.len() by {
                    if t < out@.len() {
                        assert(ranges(next)[t] == ranges(out@)[t]);
                    }
                }
            }
        }
        out.push((i, j));
        at = j + 1;
    }
    assert(ranges(out@) + Seq::<(int, int)>::empty() =~= ranges(out@));
    out
}

/// Blanks out inline code spans so link syntax shown inside backticks --
/// `` `[title](./example.md)` `` -- reads as the literal text it is rather than
/// as a reference. Masking rather than deleting keeps a code span used as a
/// link label, ``[`notes`](./notes.md)``, a link whose target is still checked.
///
/// The filler is `*` because a link target with one in it is never checked: a
/// masked span sitting in a link's target position is then dropped, not
/// reported as a missing file named `****`.
fn mask_code_spans(s: &[char], spans: &Vec<(usize, usize)>) -> (r: Vec<char>)
    requires
        ranges(spans@) == spans_from(s@, 0),
        within(ranges(spans@), s@.len() as int),
    ensures
        r@ == masked(s@),
{
    let ghost all = ranges(spans@);
    let n: usize = s.len();
    let mut out = copy(s);
    let mut t: usize = 0;
    while t < spans.len()
        invariant
            n == s@.len(),
            t <= spans@.len(),
            all == ranges(spans@),
            within(all, s@.len() as int),
            out@.len() == s@.len(),
            forall|k: int|
                0 <= k < s@.len() ==> #[trigger] out@[k] == if covered(all.take(t as int), k) {
                    '*'
                } else {
                    s@[k]
                },
        decreases spans@.len() - t,
    {
        let (i, j) = spans[t];
        assert(all[t as int] == (i as int, j as int));
        let ghost before_mask = out@;
        let mut k: usize = i;
        while k <= j
            invariant
                n == s@.len(),
                i <= k <= j + 1,
                j < s@.len(),
                out@.len() == s@.len(),
                before_mask.len() == s@.len(),
                forall|x: int|
                    0 <= x < s@.len() ==> #[trigger] out@[x] == if i <= x < k {
                        '*'
                    } else {
                        before_mask[x]
                    },
            decreases j + 1 - k,
        {
            out.set(k, '*');
            k += 1;
        }
        proof {
            let (old_t, new_t) = (all.take(t as int), all.take(t + 1));
            assert forall|x: int| 0 <= x < s@.len() implies #[trigger] out@[x] == if covered(
                new_t,
                x,
            ) {
                '*'
            } else {
                s@[x]
            } by {
                if covered(old_t, x) {
                    let u = choose|u: int|
                        0 <= u < old_t.len() && (#[trigger] old_t[u]).0 <= x <= old_t[u].1;
                    assert(new_t[u] == old_t[u]);
                }
                if i <= x <= j {
                    assert(new_t[t as int] == (i as int, j as int));
                }
                if covered(new_t, x) {
                    let u = choose|u: int|
                        0 <= u < new_t.len() && (#[trigger] new_t[u]).0 <= x <= new_t[u].1;
                    if u < t {
                        assert(old_t[u] == new_t[u]);
                    }
                }
            }
        }
        t += 1;
    }
    assert(all.take(t as int) =~= all);
    assert(out@ =~= masked(s@));
    out
}

fn find_link(s: &[char], b: usize) -> (r: Option<(usize, usize)>)
    requires
        b < s@.len(),
    ensures
        link_at(s@, b as int) == (match r {
            Some((x, y)) => Some((x as int, y as int)),
            None => None,
        }),
        r matches Some((x, y)) ==> b < x < y < s@.len(),
{
    if s[b] != '[' {
        return None;
    }
    let c: usize = find_char(s, ']', b + 1);
    if c >= s.len() || c + 1 >= s.len() || s[c + 1] != '(' {
        return None;
    }
    let d: usize = find_char(s, ')', c + 2);
    if d >= s.len() || d <= c + 2 {
        return None;
    }
    Some((c + 2, d))
}

fn links(s: &[char]) -> (r: Vec<(usize, usize)>)
    ensures
        ranges(r@) == links_from(s@, 0),
        within(ranges(r@), s@.len() as int),
{
    let mut out: Vec<(usize, usize)> = Vec::new();
    let mut at: usize = 0;
    assert(ranges(out@) + links_from(s@, 0) =~= links_from(s@, 0));
    while at < s.len()
        invariant
            at <= s@.len(),
            ranges(out@) + links_from(s@, at as int) == links_from(s@, 0),
            within(ranges(out@), s@.len() as int),
        decreases s@.len() - at,
    {
        match find_link(s, at) {
            Some((x, y)) => {
                proof {
                    let next = out@.push((x, y));
                    let one = seq![(x as int, y as int)];
                    let rest = links_from(s@, y + 1);
                    assert(ranges(next) =~= ranges(out@) + one);
                    assert(ranges(out@) + (one + rest) =~= (ranges(out@) + one) + rest);
                    assert forall|t: int| 0 <= t < ranges(next).len() implies 0 <= (
                    #[trigger] ranges(next)[t]).0 < ranges(next)[t].1 < s@.len() by {
                        if t < out@.len() {
                            assert(ranges(next)[t] == ranges(out@)[t]);
                        }
                    }
                }
                out.push((x, y));
                at = y + 1;
            },
            None => {
                at += 1;
            },
        }
    }
    assert(ranges(out@) + Seq::<(int, int)>::empty() =~= ranges(out@));
    out
}

/// What stands before the first of two characters.
fn cut<'a>(s: &'a [char], a: char, b: char) -> (r: &'a [char])
    ensures
        r@ == before(s@, a, b),
{
    let i: usize = find_char(s, a, 0);
    let j: usize = find_char(s, b, 0);
    let n: usize = if i < j {
        i
    } else {
        j
    };
    assert(s@.take(n as int) =~= s@.subrange(0, n as int));
    slice_subrange(s, 0, n)
}

fn letter(c: char) -> (r: bool)
    ensures
        r == is_letter(c),
{
    ('a' <= c && c <= 'z') || ('A' <= c && c <= 'Z')
}

fn letter_or_digit(c: char) -> (r: bool)
    ensures
        r == is_letter_or_digit(c),
{
    letter(c) || ('0' <= c && c <= '9')
}

/// Detects an absolute URI (`https://`, `mailto:`, `tel:`, and the like) so
/// those targets are left for a browser rather than checked as files.
fn is_uri(s: &[char]) -> (r: bool)
    ensures
        r == has_scheme(s@),
{
    let k: usize = find_char(s, ':', 0);
    if k >= s.len() || k == 0 || !letter(s[0]) {
        return false;
    }
    let mut i: usize = 1;
    while i < k
        invariant
            1 <= i <= k < s@.len(),
            k == first_index(s@, ':', 0),
            is_letter(s@[0]),
            forall|j: int|
                1 <= j < i ==> is_letter_or_digit(#[trigger] s@[j]) || s@[j] == '+' || s@[j] == '.'
                    || s@[j] == '-',
        decreases k - i,
    {
        let c = s[i];
        if !(letter_or_digit(c) || c == '+' || c == '.' || c == '-') {
            return false;
        }
        i += 1;
    }
    true
}

fn strip_brackets<'a>(s: &'a [char]) -> (r: &'a [char])
    ensures
        r@ == unbracketed(s@),
{
    if s.len() == 0 || s[0] != '<' {
        return s;
    }
    let rest = slice_subrange(s, 1, s.len());
    assert(rest@ =~= s@.skip(1));
    if !has_char(rest, '>') {
        return s;
    }
    let end: usize = find_char(rest, '>', 0);
    assert(rest@.take(end as int) =~= rest@.subrange(0, end as int));
    slice_subrange(rest, 0, end)
}

/// Extracts the file path a markdown link points at, or `None` when the link
/// is not a checkable local file reference: an absolute URL, an in-page
/// anchor, an absolute path, or a templated placeholder.
pub fn link_target_path(raw: &[char]) -> (r: Option<String>)
    ensures
        link_path(raw@) == (match r {
            Some(path) => Some(path@),
            None => None,
        }),
{
    let whole = cut(strip_brackets(trimmed(raw)), ' ', '\t');
    if whole.len() == 0 || whole[0] == '#' {
        return None;
    }
    if is_uri(whole) || (whole.len() >= 2 && whole[0] == '/' && whole[1] == '/') {
        return None;
    }
    let path = cut(whole, '#', '?');
    if path.len() == 0 || path[0] == '/' || has_char(path, '{') || has_char(path, '}') || has_char(
        path,
        '$',
    ) || has_char(path, '*') {
        return None;
    }
    Some(to_text(path))
}

proof fn lemma_after_last(s: Seq<char>, c: char, at: int)
    requires
        0 <= at <= s.len(),
        at > 0 ==> s[at - 1] == c,
        forall|j: int| at <= j < s.len() ==> s[j] != c,
    ensures
        after_last(s, c) == s.skip(at),
    decreases s.len() - at,
{
    if at < s.len() {
        lemma_after_last(s.drop_last(), c, at);
        assert(s.drop_last().skip(at).push(s.last()) =~= s.skip(at));
    } else {
        assert(s.skip(at) =~= Seq::empty());
    }
}

/// What follows the last `c`.
fn tail<'a>(s: &'a [char], c: char) -> (r: &'a [char])
    ensures
        r@ == after_last(s@, c),
{
    let mut at: usize = s.len();
    while at > 0 && s[at - 1] != c
        invariant
            at <= s@.len(),
            forall|j: int| at <= j < s@.len() ==> s@[j] != c,
        decreases at,
    {
        at -= 1;
    }
    let r = slice_subrange(s, at, s.len());
    proof {
        lemma_after_last(s@, c, at as int);
        assert(r@ =~= s@.skip(at as int));
    }
    r
}

fn ends_in_extension(s: &[char]) -> (r: bool)
    ensures
        r == has_extension(s@),
{
    let part = tail(s, '/');
    if !has_char(part, '.') {
        return false;
    }
    let ext = tail(part, '.');
    if ext.len() == 0 {
        return false;
    }
    let mut i: usize = 0;
    while i < ext.len()
        invariant
            i <= ext@.len(),
            ext@ == after_last(after_last(s@, '/'), '.'),
            forall|j: int| 0 <= j < i ==> is_letter_or_digit(#[trigger] ext@[j]),
        decreases ext@.len() - i,
    {
        if !letter_or_digit(ext[i]) {
            return false;
        }
        i += 1;
    }
    true
}

fn has_white(s: &[char]) -> (r: bool)
    ensures
        r == exists|i: int| 0 <= i < s@.len() && is_white(#[trigger] s@[i]),
{
    let mut i: usize = 0;
    while i < s.len()
        invariant
            i <= s@.len(),
            forall|j: int| 0 <= j < i ==> !is_white(#[trigger] s@[j]),
        decreases s@.len() - i,
    {
        if is_whitespace(s[i]) {
            return true;
        }
        i += 1;
    }
    false
}

fn relative(s: &[char]) -> (r: bool)
    ensures
        r == is_relative(s@),
{
    proof {
        assert(seq!['.', '/'].is_prefix_of(s@) <==> s@.len() >= 2 && s@[0] == '.' && s@[1] == '/') by {
            if s@.len() >= 2 {
                assert(s@.take(2) =~= seq![s@[0], s@[1]]);
            }
            if seq!['.', '/'].is_prefix_of(s@) {
                assert(s@.take(2)[0] == seq!['.', '/'][0]);
                assert(s@.take(2)[1] == seq!['.', '/'][1]);
            }
        }
        assert(seq!['.', '.', '/'].is_prefix_of(s@) <==> s@.len() >= 3 && s@[0] == '.' && s@[1] == '.'
            && s@[2] == '/') by {
            if s@.len() >= 3 {
                assert(s@.take(3) =~= seq![s@[0], s@[1], s@[2]]);
            }
            if seq!['.', '.', '/'].is_prefix_of(s@) {
                assert(s@.take(3)[0] == seq!['.', '.', '/'][0]);
                assert(s@.take(3)[1] == seq!['.', '.', '/'][1]);
                assert(s@.take(3)[2] == seq!['.', '.', '/'][2]);
            }
        }
    }
    (s.len() >= 2 && s[0] == '.' && s[1] == '/') || (s.len() >= 3 && s[0] == '.' && s[1] == '.'
        && s[2] == '/')
}

/// Extracts a checkable file path from an inline code span, or `None` when
/// the span is not clearly a relative file reference. Narrowly scoped to
/// avoid false positives on flags, identifiers, and shell snippets: the span
/// must be a single whitespace-free token starting with `./` or `../` and
/// ending in a file extension.
fn code_span_target_path(raw: &[char]) -> (r: Option<String>)
    ensures
        span_path(raw@) == (match r {
            Some(path) => Some(path@),
            None => None,
        }),
{
    let s = trimmed(raw);
    if s.len() == 0 || has_white(s) || !relative(s) {
        return None;
    }
    if has_char(s, '{') || has_char(s, '}') || has_char(s, '$') || has_char(s, '*') || has_char(
        s,
        '#',
    ) || has_char(s, '?') || !ends_in_extension(s) {
        return None;
    }
    Some(to_text(s))
}

/// The checkable file references on one line; a code span naming the same
/// target as a link reports once.
pub fn line_targets(line: &[char]) -> (r: Vec<String>)
    ensures
        texts(r@) == targets_of(line@),
{
    let spans = code_spans(line);
    let text = mask_code_spans(line, &spans);
    let found = links(text.as_slice());
    let ghost all_links = ranges(found@);
    let ghost all_spans = ranges(spans@);
    let mut out: Vec<String> = Vec::new();
    let mut i: usize = 0;
    assert(all_links.take(0) =~= Seq::empty());
    assert(texts(out@) =~= Seq::empty());
    while i < found.len()
        invariant
            i <= found@.len(),
            all_links == ranges(found@),
            within(all_links, text@.len() as int),
            texts(out@) == link_paths(text@, all_links.take(i as int)),
        decreases found@.len() - i,
    {
        let (a, b) = found[i];
        proof {
            assert(all_links[i as int] == (a as int, b as int));
            let next = all_links.take(i + 1);
            assert(next.drop_last() =~= all_links.take(i as int));
            assert(next.last() == all_links[i as int]);
        }
        if let Some(path) = link_target_path(slice_subrange(text.as_slice(), a, b)) {
            assert(texts(out@.push(path)) =~= texts(out@).push(path@));
            out.push(path);
        }
        i += 1;
    }
    assert(all_links.take(i as int) =~= all_links);
    let ghost from_links = texts(out@);
    let mut k: usize = 0;
    assert(all_spans.take(0) =~= Seq::empty());
    while k < spans.len()
        invariant
            k <= spans@.len(),
            all_spans == ranges(spans@),
            within(all_spans, line@.len() as int),
            texts(out@) == with_spans(line@, from_links, all_spans.take(k as int)),
        decreases spans@.len() - k,
    {
        let (a, b) = spans[k];
        proof {
            assert(all_spans[k as int] == (a as int, b as int));
            let next = all_spans.take(k + 1);
            assert(next.drop_last() =~= all_spans.take(k as int));
            assert(next.last() == all_spans[k as int]);
        }
        if let Some(path) = code_span_target_path(slice_subrange(line, a + 1, b)) {
            assert(texts(out@.push(path)) =~= texts(out@).push(path@));
            if !holds(&out, path.as_str()) {
                out.push(path);
            }
        }
        k += 1;
    }
    assert(all_spans.take(k as int) =~= all_spans);
    out
}

/// A reference to a file of the linted tree.
#[verifier::ext_equal]
pub struct ReferenceView {
    /// 1-based line in the file.
    pub line: int,
    /// The target as written.
    pub target: Seq<char>,
    /// Where it leads.
    pub path: PathView,
}

/// Where a target written in the file leads.
pub open spec fn leads_to(ctx: ContextView, target: Seq<char>) -> PathView {
    absolute(ctx.cwd, joined(parent_text_of(ctx.target.path), target))
}

/// Whether a target stays in the linted tree.
pub open spec fn in_tree(ctx: ContextView, target: Seq<char>) -> bool {
    leads_to(ctx, target).starts_with(absolute(ctx.cwd, ctx.target.root))
}

/// The references that targets on a line make.
pub open spec fn line_references(ctx: ContextView, line: int, targets: Seq<Seq<char>>) -> Seq<
    ReferenceView,
>
    decreases targets.len(),
{
    if targets.len() == 0 {
        Seq::empty()
    } else {
        let rest = line_references(ctx, line, targets.drop_last());
        let target = targets.last();
        if in_tree(ctx, target) {
            rest.push(ReferenceView { line, target, path: leads_to(ctx, target) })
        } else {
            rest
        }
    }
}

/// How many lines of the file come before the body.
pub open spec fn body_offset(ctx: ContextView) -> int {
    if ctx.doc.frontmatter.present {
        ctx.doc.frontmatter.end_line
    } else {
        0
    }
}

/// The references on the first `n` lines of the body, outside fenced blocks.
pub open spec fn references_upto(ctx: ContextView, lines: Seq<Seq<char>>, n: int) -> Seq<
    ReferenceView,
>
    decreases n,
{
    if n <= 0 {
        Seq::empty()
    } else {
        let rest = references_upto(ctx, lines, n - 1);
        if is_prose(open_after(lines, n - 1), lines[n - 1]) {
            rest + line_references(ctx, body_offset(ctx) + n, targets_of(lines[n - 1]))
        } else {
            rest
        }
    }
}

/// Every checkable reference of a file, in order.
pub open spec fn references_of(ctx: ContextView) -> Seq<ReferenceView> {
    let lines = split(ctx.doc.body, '\n');
    references_upto(ctx, lines, lines.len() as int)
}

/// What is reported of references: those to files that do not exist.
pub open spec fn broken(existing: Seq<Seq<char>>, refs: Seq<ReferenceView>) -> Seq<Report>
    decreases refs.len(),
{
    if refs.len() == 0 {
        Seq::empty()
    } else {
        let rest = broken(existing, refs.drop_last());
        let last = refs.last();
        if existing.contains(last.path.text()) {
            rest
        } else {
            rest.push(
                Report {
                    severity: Severity::Error,
                    line: last.line,
                    message: "referenced file "@ + debug_text(last.target) + " does not exist"@,
                },
            )
        }
    }
}

/// A reference to a file of the linted tree.
#[derive(Debug)]
pub struct Reference {
    pub line: usize,
    pub target: String,
    pub path: CleanPath,
}

impl Reference {
    pub open spec fn view(self) -> ReferenceView {
        ReferenceView { line: self.line as int, target: self.target@, path: self.path@ }
    }
}

pub open spec fn reference_views(v: Seq<Reference>) -> Seq<ReferenceView> {
    Seq::new(v.len(), |i: int| v[i]@)
}

fn add_references(
    ctx: &FileContext<'_>,
    dir: &str,
    root: &CleanPath,
    line: usize,
    targets: Vec<String>,
    out: &mut Vec<Reference>,
)
    requires
        dir@ == parent_text_of(ctx@.target.path),
        root@ == absolute(ctx@.cwd, ctx@.target.root),
    ensures
        reference_views(final(out)@) == reference_views(old(out)@) + line_references(
            ctx@,
            line as int,
            texts(targets@),
        ),
{
    let ghost start = reference_views(out@);
    let ghost all = texts(targets@);
    assert(all.take(0) =~= Seq::empty());
    assert(start + Seq::<ReferenceView>::empty() =~= start);
    for target in it: targets
        invariant
            it.seq() == targets@,
            all == texts(targets@),
            dir@ == parent_text_of(ctx@.target.path),
            root@ == absolute(ctx@.cwd, ctx@.target.root),
            reference_views(out@) == start + line_references(
                ctx@,
                line as int,
                all.take(it.index() as int),
            ),
    {
        let ghost rest = line_references(ctx@, line as int, all.take(it.index() as int));
        proof {
            let next = all.take(it.index() + 1);
            assert(next.drop_last() =~= all.take(it.index() as int));
            assert(next.last() == target@);
        }
        // Resolved lexically, so deciding whether a reference escapes the tree
        // costs no filesystem access of its own.
        let path = resolve(ctx.cwd, join_path(dir, target.as_str()).as_str());
        if path.starts_with(root) {
            let one = Reference { line, target, path };
            proof {
                assert(reference_views(out@.push(one)) =~= reference_views(out@).push(one@));
                assert((start + rest).push(one@) =~= start + rest.push(one@));
            }
            out.push(one);
        }
    }
    assert(all.take(all.len() as int) =~= all);
}

/// Every checkable reference of a file, in order.
pub fn references(ctx: &FileContext<'_>) -> (r: Vec<Reference>)
    requires
        ctx.wf(),
    ensures
        reference_views(r@) == references_of(ctx@),
{
    let dir = parent_text(ctx.target.path.as_str());
    let root = resolve(ctx.cwd, ctx.target.root.as_str());
    let offset: usize = if ctx.doc.frontmatter.is_present() {
        ctx.doc.frontmatter.closing_line()
    } else {
        0
    };
    let lines = split_at(to_chars(ctx.doc.body.as_str()).as_slice(), '\n');
    let ghost all = rows(lines@);
    let count: usize = lines.len();
    assert(offset + count <= usize::MAX);
    let mut fences = FenceTracker::default();
    let mut out: Vec<Reference> = Vec::new();
    let mut i: usize = 0;
    assert(reference_views(out@) =~= Seq::empty());
    while i < lines.len()
        invariant
            i <= lines@.len(),
            all == rows(lines@),
            all == split(ctx@.doc.body, '\n'),
            offset + all.len() <= usize::MAX,
            offset == body_offset(ctx@),
            dir@ == parent_text_of(ctx@.target.path),
            root@ == absolute(ctx@.cwd, ctx@.target.root),
            fences@ == open_after(all, i as int),
            reference_views(out@) == references_upto(ctx@, all, i as int),
        decreases lines@.len() - i,
    {
        let line = lines[i].as_slice();
        assert(all[i as int] == line@);
        if fences.scan_line(line) {
            add_references(ctx, dir.as_str(), &root, offset + (i + 1), line_targets(line), &mut out);
        }
        i += 1;
    }
    out
}

/// Applies to both AGENTS.md and SKILL.md, since a dangling reference breaks
/// the file's contract with the runtime regardless of kind.
///
/// References resolving outside the linted tree are left alone, like URLs and
/// absolute paths: the linter often runs in CI over a checkout it does not
/// trust, and looking up whatever path a file names would turn its markdown
/// into a probe for what exists on the host.
#[derive(Debug)]
pub struct Missing;

impl Rule for Missing {
    open spec fn label(&self) -> Seq<char> {
        RULE_FILE_REFERENCE_MISSING@
    }

    open spec fn covers(&self, kind: Kind) -> bool {
        true
    }

    open spec fn outcome(&self, ctx: ContextView) -> Outcome {
        let refs = references_of(ctx);
        Outcome { applies: refs.len() > 0, reports: broken(ctx.existing, refs) }
    }

    fn id(&self) -> (r: &'static str) {
        RULE_FILE_REFERENCE_MISSING
    }

    fn applies_to(&self, _kind: Kind) -> (r: bool) {
        true
    }

    fn check(&self, ctx: &FileContext<'_>, sink: &mut FindingSink) {
        let list = references(ctx);
        let ghost refs = reference_views(list@);
        let ghost start = sink@;
        let mut i: usize = 0;
        proof {
            assert(refs.take(0) =~= Seq::empty());
            start.lemma_quiet();
        }
        while i < list.len()
            invariant
                i <= list@.len(),
                refs == reference_views(list@),
                sink@ == start.after(
                    (Outcome { applies: i > 0, reports: broken(ctx@.existing, refs.take(i as int)) }),
                ),
            decreases list@.len() - i,
        {
            let one = &list[i];
            let ghost so_far = Outcome {
                applies: i > 0,
                reports: broken(ctx@.existing, refs.take(i as int)),
            };
            proof {
                let next = refs.take(i + 1);
                assert(next.drop_last() =~= refs.take(i as int));
                assert(next.last() == one@);
                start.lemma_after(so_far, Outcome::passed());
                assert(so_far.and(Outcome::passed()) =~= (Outcome {
                    applies: true,
                    reports: so_far.reports,
                }));
            }
            sink.applies();
            if !holds(ctx.existing, one.path.text().as_str()) {
                let mut m = "referenced file ".to_string();
                m.append(quoted(one.target.as_str()).as_str());
                m.append(" does not exist");
                proof {
                    let passed = so_far.and(Outcome::passed());
                    let fault = Outcome::error(one.line as int, m@);
                    start.lemma_after(passed, fault);
                    assert(passed.and(fault) =~= (Outcome {
                        applies: true,
                        reports: broken(ctx@.existing, refs.take(i + 1)),
                    }));
                }
                sink.error(one.line, m);
            }
            i += 1;
        }
        assert(refs.take(i as int) =~= refs);
    }
}

proof fn lemma_line_in_tree(ctx: ContextView, line: int, targets: Seq<Seq<char>>)
    ensures
        forall|i: int|
            0 <= i < line_references(ctx, line, targets).len() ==> (#[trigger] line_references(
                ctx,
                line,
                targets,
            )[i]).path.starts_with(absolute(ctx.cwd, ctx.target.root)),
    decreases targets.len(),
{
    if targets.len() > 0 {
        lemma_line_in_tree(ctx, line, targets.drop_last());
        let rest = line_references(ctx, line, targets.drop_last());
        let all = line_references(ctx, line, targets);
        assert forall|i: int| 0 <= i < all.len() implies (#[trigger] all[i]).path.starts_with(
            absolute(ctx.cwd, ctx.target.root),
        ) by {
            if i < rest.len() {
                assert(all[i] == rest[i]);
            }
        }
    }
}

proof fn lemma_upto_in_tree(ctx: ContextView, lines: Seq<Seq<char>>, n: int)
    ensures
        forall|i: int|
            0 <= i < references_upto(ctx, lines, n).len() ==> (#[trigger] references_upto(
                ctx,
                lines,
                n,
            )[i]).path.starts_with(absolute(ctx.cwd, ctx.target.root)),
    decreases n,
{
    if n > 0 {
        lemma_upto_in_tree(ctx, lines, n - 1);
        let rest = references_upto(ctx, lines, n - 1);
        let more = line_references(ctx, body_offset(ctx) + n, targets_of(lines[n - 1]));
        lemma_line_in_tree(ctx, body_offset(ctx) + n, targets_of(lines[n - 1]));
        let all = references_upto(ctx, lines, n);
        assert forall|i: int| 0 <= i < all.len() implies (#[trigger] all[i]).path.starts_with(
            absolute(ctx.cwd, ctx.target.root),
        ) by {
            if i < rest.len() {
                assert(all[i] == rest[i]);
            } else {
                assert(all[i] == more[i - rest.len()]);
            }
        }
    }
}

/// No reference that leads out of the linted tree is ever looked at.
pub proof fn lemma_references_in_tree(ctx: ContextView, i: int)
    requires
        0 <= i < references_of(ctx).len(),
    ensures
        references_of(ctx)[i].path.starts_with(absolute(ctx.cwd, ctx.target.root)),
{
    let lines = split(ctx.doc.body, '\n');
    lemma_upto_in_tree(ctx, lines, lines.len() as int);
}

proof fn lemma_broken_only(
    a: Seq<Seq<char>>,
    b: Seq<Seq<char>>,
    refs: Seq<ReferenceView>,
)
    requires
        forall|i: int|
            0 <= i < refs.len() ==> (a.contains((#[trigger] refs[i]).path.text()) <==> b.contains(
                refs[i].path.text(),
            )),
    ensures
        broken(a, refs) == broken(b, refs),
    decreases refs.len(),
{
    if refs.len() > 0 {
        let init = refs.drop_last();
        assert forall|i: int| 0 <= i < init.len() implies (a.contains(
            (#[trigger] init[i]).path.text(),
        ) <==> b.contains(init[i].path.text())) by {
            assert(init[i] == refs[i]);
        }
        lemma_broken_only(a, b, init);
        assert(refs[refs.len() - 1] == refs.last());
    }
}

/// What exists outside the linted tree makes no difference: two views of the
/// filesystem that agree on the tree give the same outcome.
pub proof fn lemma_tree_decides(ctx: ContextView, other: Seq<Seq<char>>)
    requires
        forall|p: PathView|
            p.starts_with(absolute(ctx.cwd, ctx.target.root)) ==> (ctx.existing.contains(
                #[trigger] p.text(),
            ) <==> other.contains(p.text())),
    ensures
        Missing.outcome(ctx) == Missing.outcome((ContextView { existing: other, ..ctx })),
{
    let next = ContextView { existing: other, ..ctx };
    let refs = references_of(ctx);
    let lines = split(ctx.doc.body, '\n');
    lemma_same_references(ctx, next, lines, lines.len() as int);
    lemma_upto_in_tree(ctx, lines, lines.len() as int);
    lemma_broken_only(ctx.existing, other, refs);
}

proof fn lemma_same_line(a: ContextView, b: ContextView, line: int, targets: Seq<Seq<char>>)
    requires
        a.cwd == b.cwd,
        a.target == b.target,
    ensures
        line_references(a, line, targets) == line_references(b, line, targets),
    decreases targets.len(),
{
    if targets.len() > 0 {
        lemma_same_line(a, b, line, targets.drop_last());
    }
}

/// Which references a file makes depends on its text, its place and the
/// working directory alone.
pub proof fn lemma_same_references(a: ContextView, b: ContextView, lines: Seq<Seq<char>>, n: int)
    requires
        a.cwd == b.cwd,
        a.target == b.target,
        a.doc == b.doc,
    ensures
        references_upto(a, lines, n) == references_upto(b, lines, n),
    decreases n,
{
    if n > 0 {
        lemma_same_references(a, b, lines, n - 1);
        lemma_same_line(a, b, body_offset(a) + n, targets_of(lines[n - 1]));
    }
}

} // verus!
