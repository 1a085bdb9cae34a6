//! Which paths the references of a file name, and what is said of them.

use vstd::prelude::*;

use crate::lint::rules::references::{
    after_last, bare_target, before, has_extension, has_scheme, is_letter_or_digit, is_relative,
    link_path, span_path, unbracketed,
};
use crate::text::{first_index, is_white, lemma_first_index, lemma_first_index_is, lemma_trim, trim};

verus! {

/// Whether a text is a path that a link can name as it is: relative, without
/// white space, scheme, anchor, query, brackets and placeholders.
pub open spec fn is_plain_path(t: Seq<char>) -> bool {
    &&& t.len() > 0
    &&& t[0] != '/'
    &&& forall|i: int|
        0 <= i < t.len() ==> {
            let c = #[trigger] t[i];
            &&& !is_white(c) && c != ' ' && c != '\t'
            &&& c != ':' && c != '#' && c != '?' && c != '<' && c != '>'
            &&& c != '{' && c != '}' && c != '$' && c != '*'
        }
}

proof fn lemma_trim_is(s: Seq<char>, a: int, b: int)
    requires
        0 <= a < b <= s.len(),
        forall|j: int| 0 <= j < a ==> is_white(s[j]),
        forall|j: int| b <= j < s.len() ==> is_white(s[j]),
        !is_white(s[a]),
        !is_white(s[b - 1]),
    ensures
        trim(s) == s.subrange(a, b),
{
    lemma_trim(s);
    let (x, y) = choose|x: int, y: int|
        0 <= x <= y <= s.len() && trim(s) == #[trigger] s.subrange(x, y) && (forall|j: int|
            0 <= j < x ==> is_white(s[j])) && (forall|j: int| y <= j < s.len() ==> is_white(s[j]));
    assert(s.subrange(x, y) == trim(s));
    assert(x <= a) by {
        if x > a {
            assert(is_white(s[a]));
        }
    }
    assert(y >= b) by {
        if y < b {
            assert(is_white(s[b - 1]));
        }
    }
    assert(trim(s)[0] == s[x]);
    assert(trim(s).last() == s[y - 1]);
}

proof fn lemma_before_is(s: Seq<char>, a: char, b: char, at: int)
    requires
        0 <= at <= s.len(),
        at < s.len() ==> s[at] == a || s[at] == b,
        forall|j: int| 0 <= j < at ==> s[j] != a && s[j] != b,
    ensures
        before(s, a, b) == s.take(at),
{
    lemma_first_index(s, a, 0);
    lemma_first_index(s, b, 0);
}

/// White space is what Unicode says it is: in ASCII, the blank, and the five
/// characters from tab to carriage return.
pub proof fn lemma_white(c: char)
    ensures
        c as u32 <= 0x7f ==> (is_white(c) <==> c as u32 == 0x20 || 9 <= c as u32 <= 13),
        c as u32 > 0x7f ==> (is_white(c) <==> c as u32 == 0x85 || c as u32 == 0xa0 || c as u32
            == 0x1680 || 0x2000 <= c as u32 <= 0x200a || c as u32 == 0x2028 || c as u32 == 0x2029
            || c as u32 == 0x202f || c as u32 == 0x205f || c as u32 == 0x3000),
{
}

/// White space around a text is what trimming takes away, and all that it
/// takes away.
pub proof fn lemma_trimmed(a: Seq<char>, t: Seq<char>, b: Seq<char>)
    requires
        forall|i: int| 0 <= i < a.len() ==> is_white(#[trigger] a[i]),
        forall|i: int| 0 <= i < b.len() ==> is_white(#[trigger] b[i]),
        t.len() > 0 ==> !is_white(t[0]) && !is_white(t[t.len() - 1]),
    ensures
        trim(a + t + b) == t,
{
    let s = a + t + b;
    if t.len() > 0 {
        let n = a.len() as int;
        assert(s[n] == t[0] && s[n + t.len() - 1] == t[t.len() - 1]);
        lemma_trim_is(s, n, n + t.len());
        assert(s.subrange(n, n + t.len()) =~= t);
    } else {
        lemma_trim(s);
        assert forall|i: int| 0 <= i < s.len() implies is_white(s[i]) by {
            if i < a.len() {
                assert(s[i] == a[i]);
            } else {
                assert(s[i] == b[i - a.len()]);
            }
        }
        if trim(s).len() > 0 {
            let (x, y) = choose|x: int, y: int|
                0 <= x <= y <= s.len() && trim(s) == #[trigger] s.subrange(x, y) && (forall|j: int|
                    0 <= j < x ==> is_white(s[j])) && (forall|j: int|
                    y <= j < s.len() ==> is_white(s[j]));
            assert(trim(s)[0] == s.subrange(x, y)[0]);
            assert(is_white(s[x]));
        }
        assert(trim(s) =~= t);
    }
}

proof fn lemma_path_alone(t: Seq<char>, rest: Seq<char>, whole: Seq<char>)
    requires
        is_plain_path(t),
        whole == t + rest,
        rest.len() == 0 || rest[0] == '#' || rest[0] == '?',
    ensures
        !has_scheme(whole),
        before(whole, '#', '?') == t,
        !t.contains('{') && !t.contains('}') && !t.contains('$') && !t.contains('*'),
        whole[0] == t[0] && whole[0] != '#' && whole[0] != '/',
{
    let n = t.len() as int;
    assert(forall|j: int| 0 <= j < n ==> #[trigger] whole[j] == t[j]);
    lemma_before_is(whole, '#', '?', n);
    assert(whole.take(n) =~= t);
    lemma_first_index(whole, ':', 0);
    let k = first_index(whole, ':', 0);
    if k < whole.len() {
        assert(k >= n) by {
            if k < n {
                assert(t[k] == ':');
            }
        }
        if has_scheme(whole) {
            assert(whole[n] == rest[0]);
            assert(k > n);
            assert(is_letter_or_digit(whole[n]) || whole[n] == '+' || whole[n] == '.' || whole[n]
                == '-');
        }
    }
}

/// Whether a text is an anchor or a query, or empty.
pub open spec fn is_anchor(s: Seq<char>) -> bool {
    &&& s.len() == 0 || s[0] == '#' || s[0] == '?'
    &&& forall|i: int|
        0 <= i < s.len() ==> !is_white(#[trigger] s[i]) && s[i] != ' ' && s[i] != '\t'
}

proof fn lemma_whole(t: Seq<char>, anchor: Seq<char>)
    requires
        is_plain_path(t),
        is_anchor(anchor),
    ensures
        forall|j: int|
            0 <= j < (t + anchor).len() ==> !is_white(#[trigger] (t + anchor)[j]) && (t + anchor)[j]
                != ' ' && (t + anchor)[j] != '\t',
        (t + anchor).len() > 0,
        (t + anchor)[0] == t[0],
{
    let whole = t + anchor;
    assert forall|j: int| 0 <= j < whole.len() implies !is_white(#[trigger] whole[j]) && whole[j]
        != ' ' && whole[j] != '\t' by {
        if j < t.len() {
            assert(whole[j] == t[j]);
        } else {
            assert(whole[j] == anchor[j - t.len()]);
        }
    }
}

proof fn lemma_bare_names(raw: Seq<char>, t: Seq<char>, anchor: Seq<char>)
    requires
        is_plain_path(t),
        is_anchor(anchor),
        bare_target(raw) == t + anchor,
    ensures
        link_path(raw) == Some(t),
{
    lemma_path_alone(t, anchor, t + anchor);
}

/// A link to a path names that path, whatever anchor or query follows it, and
/// with white space around it or without.
pub proof fn lemma_link_names_path(a: Seq<char>, t: Seq<char>, anchor: Seq<char>, b: Seq<char>)
    requires
        is_plain_path(t),
        is_anchor(anchor),
        forall|i: int| 0 <= i < a.len() ==> is_white(#[trigger] a[i]),
        forall|i: int| 0 <= i < b.len() ==> is_white(#[trigger] b[i]),
    ensures
        link_path(a + (t + anchor) + b) == Some(t),
{
    let whole = t + anchor;
    let n = whole.len() as int;
    lemma_whole(t, anchor);
    lemma_trimmed(a, whole, b);
    assert(whole[0] == t[0]);
    assert(unbracketed(whole) == whole);
    lemma_before_is(whole, ' ', '\t', n);
    assert(whole.take(n) =~= whole);
    lemma_bare_names(a + whole + b, t, anchor);
}

proof fn lemma_trim_keeps(raw: Seq<char>, n: int)
    requires
        0 < n <= raw.len(),
        !is_white(raw[0]),
        !is_white(raw[n - 1]),
    ensures
        n <= trim(raw).len() <= raw.len(),
        forall|j: int| 0 <= j < trim(raw).len() ==> #[trigger] trim(raw)[j] == raw[j],
{
    lemma_trim(raw);
    let (a, b) = choose|a: int, b: int|
        0 <= a <= b <= raw.len() && trim(raw) == #[trigger] raw.subrange(a, b) && (forall|j: int|
            0 <= j < a ==> is_white(raw[j])) && (forall|j: int| b <= j < raw.len() ==> is_white(raw[j]));
    assert(trim(raw) == raw.subrange(a, b));
    assert(a == 0) by {
        if a > 0 {
            assert(is_white(raw[0]));
        }
    }
    assert(b >= n) by {
        if b < n {
            assert(is_white(raw[n - 1]));
        }
    }
}

/// So does a link with a title behind the path.
pub proof fn lemma_link_with_title(t: Seq<char>, anchor: Seq<char>, title: Seq<char>)
    requires
        is_plain_path(t),
        is_anchor(anchor),
        title.len() == 0 || title[0] == ' ' || title[0] == '\t',
    ensures
        link_path((t + anchor) + title) == Some(t),
{
    let whole = t + anchor;
    let raw = whole + title;
    let n = whole.len() as int;
    lemma_whole(t, anchor);
    assert(forall|j: int| 0 <= j < n ==> #[trigger] raw[j] == whole[j]);
    assert(raw[0] == whole[0] && raw[n - 1] == whole[n - 1]);
    lemma_trim_keeps(raw, n);
    let cleared = trim(raw);
    assert(forall|j: int| 0 <= j < n ==> #[trigger] cleared[j] == whole[j]);
    assert(cleared[0] == t[0]);
    assert(unbracketed(cleared) == cleared);
    if cleared.len() > n {
        assert(cleared[n] == raw[n] && raw[n] == title[0]);
    }
    lemma_before_is(cleared, ' ', '\t', n);
    assert(cleared.take(n) =~= whole);
    lemma_bare_names(raw, t, anchor);
}

/// A path in angle brackets is the path, whatever follows.
pub proof fn lemma_link_in_brackets(t: Seq<char>, rest: Seq<char>)
    requires
        is_plain_path(t),
        rest.len() == 0 || !is_white(rest[rest.len() - 1]),
    ensures
        link_path(seq!['<'] + t + seq!['>'] + rest) == Some(t),
{
    let raw = seq!['<'] + t + seq!['>'] + rest;
    let n = t.len() as int;
    assert(!is_white(raw[0]));
    assert(!is_white(raw[raw.len() - 1])) by {
        if rest.len() > 0 {
            assert(raw[raw.len() - 1] == rest[rest.len() - 1]);
        } else {
            assert(raw[raw.len() - 1] == '>');
        }
    }
    lemma_trim_is(raw, 0, raw.len() as int);
    assert(raw.subrange(0, raw.len() as int) =~= raw);
    let inner = raw.skip(1);
    assert(inner[n] == '>');
    assert(inner.contains('>'));
    assert forall|j: int| 0 <= j < n implies inner[j] != '>' by {
        assert(inner[j] == t[j]);
    }
    lemma_first_index_is(inner, '>', 0, n);
    assert(inner.take(n) =~= t);
    lemma_before_is(t, ' ', '\t', n);
    assert(t.take(n) =~= t);
    lemma_path_alone(t, Seq::empty(), t + Seq::<char>::empty());
    assert(t + Seq::<char>::empty() =~= t);
}

/// No file is named by a link to a place on the page, to another site, to a
/// path from the root, or to a path with a placeholder in it. None of them
/// holds white space or brackets here.
pub proof fn lemma_link_names_no_file(s: Seq<char>)
    requires
        forall|i: int| 0 <= i < s.len() ==> !is_white(#[trigger] s[i]) && s[i] != ' ' && s[i] != '\t',
        s.len() > 0 ==> s[0] != '<',
    ensures
        s.len() == 0 ==> link_path(s) is None,
        s.len() > 0 && (s[0] == '#' || s[0] == '?' || s[0] == '/') ==> link_path(s) is None,
        has_scheme(s) ==> link_path(s) is None,
        !s.contains('#') && !s.contains('?') && (s.contains('{') || s.contains('}') || s.contains('$')
            || s.contains('*')) ==> link_path(s) is None,
{
    let n = s.len() as int;
    if n > 0 {
        lemma_trim_is(s, 0, n);
        assert(s.subrange(0, n) =~= s);
        lemma_before_is(s, ' ', '\t', n);
        assert(s.take(n) =~= s);
        assert(bare_target(s) == s);
        lemma_first_index(s, '#', 0);
        lemma_first_index(s, '?', 0);
        if s[0] == '?' {
            lemma_before_is(s, '#', '?', 0);
            assert(before(s, '#', '?').len() == 0);
        }
        if !s.contains('#') && !s.contains('?') {
            lemma_before_is(s, '#', '?', n);
        }
    } else {
        lemma_trim(s);
        assert(trim(s).len() == 0);
        lemma_before_is(trim(s), ' ', '\t', 0);
        assert(bare_target(s).len() == 0);
    }
}

/// A target without white space and brackets names what stands before its
/// anchor or query, unless that is empty, from the root or has a placeholder in
/// it, or the target has a scheme.
pub proof fn lemma_link_exact(t: Seq<char>, anchor: Seq<char>)
    requires
        forall|i: int|
            0 <= i < t.len() ==> !is_white(#[trigger] t[i]) && t[i] != ' ' && t[i] != '\t' && t[i]
                != '#' && t[i] != '?',
        is_anchor(anchor),
        t.len() > 0 ==> t[0] != '<',
    ensures
        link_path(t + anchor) == if t.len() == 0 || t[0] == '/' || has_scheme(t + anchor) || t.contains(
            '{',
        ) || t.contains('}') || t.contains('$') || t.contains('*') {
            None
        } else {
            Some(t)
        },
{
    let s = t + anchor;
    let n = s.len() as int;
    if n > 0 {
        assert forall|j: int| 0 <= j < n implies !is_white(#[trigger] s[j]) && s[j] != ' ' && s[j]
            != '\t' by {
            if j < t.len() {
                assert(s[j] == t[j]);
            } else {
                assert(s[j] == anchor[j - t.len()]);
            }
        }
        lemma_trim_is(s, 0, n);
        assert(s.subrange(0, n) =~= s);
        assert(s[0] != '<');
        lemma_before_is(s, ' ', '\t', n);
        assert(s.take(n) =~= s);
        assert(bare_target(s) == s);
        let k = t.len() as int;
        assert(forall|j: int| 0 <= j < k ==> #[trigger] s[j] == t[j]);
        if k < n {
            assert(s[k] == anchor[0]);
        }
        lemma_before_is(s, '#', '?', k);
        assert(s.take(k) =~= t);
    } else {
        lemma_trim(s);
        assert(trim(s).len() == 0);
        lemma_before_is(trim(s), ' ', '\t', 0);
        assert(bare_target(s).len() == 0);
    }
}

/// A scheme is a letter, then letters, digits, `+`, `.` or `-`, then a colon.
pub proof fn lemma_scheme(name: Seq<char>, rest: Seq<char>)
    requires
        !name.contains(':'),
    ensures
        has_scheme(name + seq![':'] + rest) <==> {
            &&& name.len() > 0
            &&& ('a' <= name[0] <= 'z' || 'A' <= name[0] <= 'Z')
            &&& forall|i: int|
                0 <= i < name.len() ==> ('a' <= #[trigger] name[i] <= 'z') || ('A' <= name[i] <= 'Z')
                    || ('0' <= name[i] <= '9') || name[i] == '+' || name[i] == '.' || name[i] == '-'
        },
        !rest.contains(':') ==> !has_scheme(name + rest),
{
    let s = name + seq![':'] + rest;
    let k = name.len() as int;
    assert(s[k] == ':');
    assert(forall|j: int| 0 <= j < k ==> #[trigger] s[j] == name[j]);
    lemma_first_index_is(s, ':', 0, k);
    if has_scheme(s) {
        assert forall|i: int| 0 <= i < name.len() implies ('a' <= #[trigger] name[i] <= 'z') || ('A'
            <= name[i] <= 'Z') || ('0' <= name[i] <= '9') || name[i] == '+' || name[i] == '.'
            || name[i] == '-' by {
            assert(s[i] == name[i]);
        }
    }
    if !rest.contains(':') {
        let u = name + rest;
        assert forall|j: int| 0 <= j < u.len() implies u[j] != ':' by {
            if j < k {
                assert(u[j] == name[j]);
            } else {
                assert(u[j] == rest[j - k]);
            }
        }
        lemma_first_index_is(u, ':', 0, u.len() as int);
    }
}

proof fn lemma_after_last_is(s: Seq<char>, c: char, at: int)
    requires
        0 <= at <= s.len(),
        at > 0 ==> s[at - 1] == c,
        forall|j: int| at <= j < s.len() ==> s[j] != c,
    ensures
        after_last(s, c) == s.skip(at),
    decreases s.len() - at,
{
    if at < s.len() {
        lemma_after_last_is(s.drop_last(), c, at);
        assert(s.drop_last().skip(at).push(s.last()) =~= s.skip(at));
    } else {
        assert(s.skip(at) =~= Seq::empty());
    }
}

/// Whether a text holds white space or a character of placeholders, anchors or
/// queries.
pub open spec fn has_odd_char(t: Seq<char>) -> bool {
    exists|i: int|
        0 <= i < t.len() && (is_white(#[trigger] t[i]) || t[i] == '{' || t[i] == '}' || t[i] == '$'
            || t[i] == '*' || t[i] == '#' || t[i] == '?')
}

/// A code span names a file exactly where it starts with `./` or `../`, has no
/// odd character in it, and ends in letters and digits behind the last dot of
/// its last part.
pub proof fn lemma_span_names_file(
    dirs: Seq<char>,
    stem: Seq<char>,
    ext: Seq<char>,
    a: Seq<char>,
    b: Seq<char>,
)
    requires
        dirs.len() == 0 || dirs[dirs.len() - 1] == '/',
        !stem.contains('/'),
        !ext.contains('/') && !ext.contains('.'),
        forall|i: int| 0 <= i < a.len() ==> is_white(#[trigger] a[i]),
        forall|i: int| 0 <= i < b.len() ==> is_white(#[trigger] b[i]),
    ensures
        ({
            let t = dirs + stem + seq!['.'] + ext;
            let start = (t.len() >= 2 && t[0] == '.' && t[1] == '/') || (t.len() >= 3 && t[0] == '.'
                && t[1] == '.' && t[2] == '/');
            let end = ext.len() > 0 && forall|i: int|
                0 <= i < ext.len() ==> ('a' <= #[trigger] ext[i] <= 'z') || ('A' <= ext[i] <= 'Z')
                    || ('0' <= ext[i] <= '9');
            &&& start && end && !has_odd_char(t) ==> span_path(a + t + b) == Some(t)
            &&& (!start || !end || has_odd_char(t)) && !is_white(t[0]) && !is_white(t[t.len() - 1])
                ==> span_path(a + t + b) is None
        }),
{
    let t = dirs + stem + seq!['.'] + ext;
    let d = dirs.len() as int;
    let e = d + stem.len() + 1;
    assert(t[e - 1] == '.');
    if d > 0 {
        assert(t[d - 1] == '/');
    }
    assert forall|j: int| d <= j < t.len() implies t[j] != '/' by {
        if j < e - 1 {
            assert(t[j] == stem[j - d]);
        } else if j >= e {
            assert(t[j] == ext[j - e]);
        }
    }
    lemma_after_last_is(t, '/', d);
    let part = t.skip(d);
    assert(part[e - d - 1] == '.');
    assert(part.contains('.'));
    assert forall|j: int| e - d <= j < part.len() implies part[j] != '.' by {
        assert(part[j] == ext[j - (e - d)]);
    }
    lemma_after_last_is(part, '.', e - d);
    assert(part.skip(e - d) =~= ext);
    lemma_starts(t);
    if !is_white(t[0]) && !is_white(t[t.len() - 1]) {
        lemma_trimmed(a, t, b);
    }
    if !has_odd_char(t) {
        assert(!is_white(t[0]) && !is_white(t[t.len() - 1]));
        assert(forall|i: int| 0 <= i < t.len() ==> !is_white(#[trigger] t[i]));
    }
    if has_odd_char(t) {
        let i = choose|i: int|
            0 <= i < t.len() && (is_white(#[trigger] t[i]) || t[i] == '{' || t[i] == '}' || t[i]
                == '$' || t[i] == '*' || t[i] == '#' || t[i] == '?');
        assert(t.contains(t[i]));
    }
}

proof fn lemma_starts(t: Seq<char>)
    ensures
        is_relative(t) <==> (t.len() >= 2 && t[0] == '.' && t[1] == '/') || (t.len() >= 3 && t[0]
            == '.' && t[1] == '.' && t[2] == '/'),
{
    if t.len() >= 2 {
        assert(t.take(2) =~= seq![t[0], t[1]]);
    }
    if t.len() >= 3 {
        assert(t.take(3) =~= seq![t[0], t[1], t[2]]);
    }
    if seq!['.', '/'].is_prefix_of(t) {
        assert(t.take(2)[0] == seq!['.', '/'][0]);
        assert(t.take(2)[1] == seq!['.', '/'][1]);
    }
    if seq!['.', '.', '/'].is_prefix_of(t) {
        assert(t.take(3)[0] == seq!['.', '.', '/'][0]);
        assert(t.take(3)[1] == seq!['.', '.', '/'][1]);
        assert(t.take(3)[2] == seq!['.', '.', '/'][2]);
    }
}

/// A code span without a dot in its last part names no file.
pub proof fn lemma_span_needs_extension(dirs: Seq<char>, name: Seq<char>)
    requires
        dirs.len() == 0 || dirs[dirs.len() - 1] == '/',
        !name.contains('/') && !name.contains('.'),
    ensures
        !has_extension(dirs + name),
{
    let t = dirs + name;
    let d = dirs.len() as int;
    assert forall|j: int| d <= j < t.len() implies t[j] != '/' by {
        assert(t[j] == name[j - d]);
    }
    lemma_after_last_is(t, '/', d);
    assert(t.skip(d) =~= name);
}

} // verus!
