//! Text as sequences of characters: trimming, splitting, joining, searching.

use vstd::prelude::*;
use vstd::slice::slice_subrange;

verus! {

/// `String::push` appends one character.
pub assume_specification[ String::push ](s: &mut String, c: char)
    ensures
        final(s)@ == old(s)@.push(c),
;

/// The views of a list of owned strings.
pub open spec fn texts(v: Seq<String>) -> Seq<Seq<char>> {
    Seq::new(v.len(), |i: int| v[i]@)
}

/// The views of a list of character vectors.
pub open spec fn rows(v: Seq<Vec<char>>) -> Seq<Seq<char>> {
    Seq::new(v.len(), |i: int| v[i]@)
}

/// Unicode's White_Space property.
pub open spec fn is_white(c: char) -> bool {
    ||| '\u{9}' <= c <= '\u{d}'
    ||| c == ' '
    ||| c == '\u{85}'
    ||| c == '\u{a0}'
    ||| c == '\u{1680}'
    ||| '\u{2000}' <= c <= '\u{200a}'
    ||| c == '\u{2028}'
    ||| c == '\u{2029}'
    ||| c == '\u{202f}'
    ||| c == '\u{205f}'
    ||| c == '\u{3000}'
}

pub open spec fn trim_start(s: Seq<char>) -> Seq<char>
    decreases s.len(),
{
    if s.len() > 0 && is_white(s[0]) {
        trim_start(s.skip(1))
    } else {
        s
    }
}

pub open spec fn trim_end(s: Seq<char>) -> Seq<char>
    decreases s.len(),
{
    if s.len() > 0 && is_white(s.last()) {
        trim_end(s.drop_last())
    } else {
        s
    }
}

/// `s` without its leading and trailing white space.
pub open spec fn trim(s: Seq<char>) -> Seq<char> {
    trim_end(trim_start(s))
}

/// The position of the first `c` at or after `from`, or the length of `s`
/// when there is none.
pub open spec fn first_index(s: Seq<char>, c: char, from: int) -> int
    decreases s.len() - from,
{
    if 0 <= from < s.len() {
        if s[from] == c {
            from
        } else {
            first_index(s, c, from + 1)
        }
    } else {
        s.len() as int
    }
}

/// The pieces of `s` between occurrences of `sep`: always at least one.
pub open spec fn split(s: Seq<char>, sep: char) -> Seq<Seq<char>>
    decreases s.len(),
    via split_shrinks
{
    let i = first_index(s, sep, 0);
    if i < s.len() {
        seq![s.take(i)] + split(s.skip(i + 1), sep)
    } else {
        seq![s]
    }
}

#[via_fn]
proof fn split_shrinks(s: Seq<char>, sep: char) {
    lemma_first_index(s, sep, 0);
}

/// `parts` one after the other with `sep` between neighbours.
pub open spec fn join(parts: Seq<Seq<char>>, sep: Seq<char>) -> Seq<char>
    decreases parts.len(),
{
    if parts.len() == 0 {
        Seq::empty()
    } else if parts.len() == 1 {
        parts[0]
    } else {
        join(parts.drop_last(), sep) + sep + parts.last()
    }
}

/// What [`first_index`] finds: the earliest occurrence from `from` on.
pub proof fn lemma_first_index(s: Seq<char>, c: char, from: int)
    requires
        0 <= from <= s.len(),
    ensures
        from <= first_index(s, c, from) <= s.len(),
        first_index(s, c, from) < s.len() ==> s[first_index(s, c, from)] == c,
        forall|j: int| from <= j < first_index(s, c, from) ==> s[j] != c,
    decreases s.len() - from,
{
    if from < s.len() && s[from] != c {
        lemma_first_index(s, c, from + 1);
    }
}

/// A position with the properties of [`lemma_first_index`] is the one found.
pub proof fn lemma_first_index_is(s: Seq<char>, c: char, from: int, at: int)
    requires
        0 <= from <= at <= s.len(),
        at < s.len() ==> s[at] == c,
        forall|j: int| from <= j < at ==> s[j] != c,
    ensures
        first_index(s, c, from) == at,
    decreases s.len() - from,
{
    if from < at {
        lemma_first_index_is(s, c, from + 1, at);
    }
}

pub fn is_whitespace(c: char) -> (r: bool)
    ensures
        r == is_white(c),
{
    ('\u{9}' <= c && c <= '\u{d}') || c == ' ' || c == '\u{85}' || c == '\u{a0}' || c == '\u{1680}'
        || ('\u{2000}' <= c && c <= '\u{200a}') || c == '\u{2028}' || c == '\u{2029}' || c
        == '\u{202f}' || c == '\u{205f}' || c == '\u{3000}'
}

/// The characters of a string.
pub fn to_chars(s: &str) -> (r: Vec<char>)
    ensures
        r@ == s@,
{
    let mut out: Vec<char> = Vec::new();
    for c in it: s.chars()
        invariant
            it.seq() == s@,
            out@ == s@.take(it.index() as int),
    {
        out.push(c);
    }
    out
}

/// The string made of some characters.
pub fn to_text(s: &[char]) -> (r: String)
    ensures
        r@ == s@,
{
    let mut out = String::new();
    let mut i: usize = 0;
    while i < s.len()
        invariant
            i <= s@.len(),
            out@ == s@.take(i as int),
        decreases s@.len() - i,
    {
        out.push(s[i]);
        i += 1;
    }
    assert(s@.take(s@.len() as int) == s@);
    out
}

/// An owned copy of some characters.
pub fn copy(s: &[char]) -> (r: Vec<char>)
    ensures
        r@ == s@,
{
    let mut out: Vec<char> = Vec::new();
    let mut i: usize = 0;
    while i < s.len()
        invariant
            i <= s@.len(),
            out@ == s@.take(i as int),
        decreases s@.len() - i,
    {
        out.push(s[i]);
        i += 1;
    }
    assert(s@.take(s@.len() as int) == s@);
    out
}

/// Whether two runs of characters are equal.
pub fn same_chars(a: &[char], b: &[char]) -> (r: bool)
    ensures
        r == (a@ == b@),
{
    if a.len() != b.len() {
        return false;
    }
    let mut i: usize = 0;
    while i < a.len()
        invariant
            i <= a@.len(),
            a@.len() == b@.len(),
            forall|j: int| 0 <= j < i ==> a@[j] == b@[j],
        decreases a@.len() - i,
    {
        if a[i] != b[i] {
            return false;
        }
        i += 1;
    }
    assert(a@ =~= b@);
    true
}

/// Whether two strings are equal.
pub fn same(a: &str, b: &str) -> (r: bool)
    ensures
        r == (a@ == b@),
{
    same_chars(to_chars(a).as_slice(), to_chars(b).as_slice())
}

/// Whether `list` holds a string equal to `s`.
pub fn holds(list: &Vec<String>, s: &str) -> (r: bool)
    ensures
        r == texts(list@).contains(s@),
{
    let mut i: usize = 0;
    while i < list.len()
        invariant
            i <= list@.len(),
            forall|j: int| 0 <= j < i ==> texts(list@)[j] != s@,
        decreases list@.len() - i,
    {
        if same(list[i].as_str(), s) {
            assert(texts(list@)[i as int] == s@);
            return true;
        }
        i += 1;
    }
    false
}

/// The position of the first `c` at or after `from`, or the length.
pub fn find_char(s: &[char], c: char, from: usize) -> (r: usize)
    requires
        from <= s@.len(),
    ensures
        r == first_index(s@, c, from as int),
        from <= r <= s@.len(),
        r < s@.len() ==> s@[r as int] == c,
        forall|j: int| from <= j < r ==> s@[j] != c,
{
    let mut i: usize = from;
    while i < s.len() && s[i] != c
        invariant
            from <= i <= s@.len(),
            forall|j: int| from <= j < i ==> s@[j] != c,
        decreases s@.len() - i,
    {
        i += 1;
    }
    proof {
        lemma_first_index_is(s@, c, from as int, i as int);
    }
    i
}

/// Whether some character is `c`.
pub fn has_char(s: &[char], c: char) -> (r: bool)
    ensures
        r == s@.contains(c),
{
    let at: usize = find_char(s, c, 0);
    if at < s.len() {
        assert(s@[at as int] == c);
        true
    } else {
        false
    }
}

/// Whether `s` begins with `p`.
pub fn starts_with(s: &[char], p: &[char]) -> (r: bool)
    ensures
        r == p@.is_prefix_of(s@),
{
    if p.len() > s.len() {
        return false;
    }
    let r = same_chars(slice_subrange(s, 0, p.len()), p);
    assert(p@.is_prefix_of(s@) <==> s@.subrange(0, p@.len() as int) == p@);
    r
}

proof fn lemma_trim_start_step(s: Seq<char>, k: int)
    requires
        0 <= k <= s.len(),
        forall|j: int| 0 <= j < k ==> is_white(s[j]),
    ensures
        trim_start(s) == trim_start(s.skip(k)),
    decreases k,
{
    if k > 0 {
        lemma_trim_start_step(s.skip(1), k - 1);
        assert(s.skip(1).skip(k - 1) =~= s.skip(k));
    } else {
        assert(s.skip(0) =~= s);
    }
}

proof fn lemma_trim_end_step(s: Seq<char>, k: int)
    requires
        0 <= k <= s.len(),
        forall|j: int| k <= j < s.len() ==> is_white(s[j]),
    ensures
        trim_end(s) == trim_end(s.take(k)),
    decreases s.len() - k,
{
    if k < s.len() {
        lemma_trim_end_step(s.drop_last(), k);
        assert(s.drop_last().take(k) =~= s.take(k));
    } else {
        assert(s.take(k) =~= s);
    }
}

/// Trimming keeps a run of the text that neither begins nor ends with
/// white space, and drops nothing but white space around it.
pub proof fn lemma_trim(s: Seq<char>)
    ensures
        exists|a: int, b: int|
            0 <= a <= b <= s.len() && trim(s) == #[trigger] s.subrange(a, b) && (forall|j: int|
                0 <= j < a ==> is_white(s[j])) && (forall|j: int| b <= j < s.len() ==> is_white(s[j])),
        trim(s).len() > 0 ==> !is_white(trim(s)[0]) && !is_white(trim(s).last()),
        trim(s).len() <= s.len(),
{
    lemma_trim_start(s);
    let t = trim_start(s);
    lemma_trim_end(t);
    let a = s.len() - t.len();
    let b = a + trim_end(t).len();
    assert(s.subrange(a, b) =~= trim(s));
    assert forall|j: int| b <= j < s.len() implies is_white(s[j]) by {
        assert(s[j] == t[j - a]);
    }
}

proof fn lemma_trim_start(s: Seq<char>)
    ensures
        trim_start(s).len() <= s.len(),
        trim_start(s) == s.skip(s.len() - trim_start(s).len()),
        forall|j: int| 0 <= j < s.len() - trim_start(s).len() ==> is_white(s[j]),
        trim_start(s).len() > 0 ==> !is_white(trim_start(s)[0]),
    decreases s.len(),
{
    if s.len() > 0 && is_white(s[0]) {
        lemma_trim_start(s.skip(1));
        let t = trim_start(s);
        assert(s.skip(1).skip(s.len() - 1 - t.len()) =~= s.skip(s.len() - t.len()));
        assert forall|j: int| 0 <= j < s.len() - t.len() implies is_white(s[j]) by {
            if j > 0 {
                assert(s[j] == s.skip(1)[j - 1]);
            }
        }
    } else {
        assert(s.skip(0) =~= s);
    }
}

proof fn lemma_trim_end(s: Seq<char>)
    ensures
        trim_end(s).len() <= s.len(),
        trim_end(s) == s.take(trim_end(s).len() as int),
        forall|j: int| trim_end(s).len() <= j < s.len() ==> is_white(s[j]),
        trim_end(s).len() > 0 ==> !is_white(trim_end(s).last()),
    decreases s.len(),
{
    if s.len() > 0 && is_white(s.last()) {
        lemma_trim_end(s.drop_last());
        let t = trim_end(s);
        assert(s.drop_last().take(t.len() as int) =~= s.take(t.len() as int));
        assert forall|j: int| t.len() <= j < s.len() implies is_white(s[j]) by {
            if j < s.len() - 1 {
                assert(s[j] == s.drop_last()[j]);
            }
        }
    } else {
        assert(s.take(s.len() as int) =~= s);
    }
}

/// The characters without leading and trailing white space.
pub fn trimmed(s: &[char]) -> (r: &[char])
    ensures
        r@ == trim(s@),
{
    let mut a: usize = 0;
    while a < s.len() && is_whitespace(s[a])
        invariant
            a <= s@.len(),
            forall|j: int| 0 <= j < a ==> is_white(s@[j]),
        decreases s@.len() - a,
    {
        a += 1;
    }
    let mut b: usize = s.len();
    while a < b && is_whitespace(s[b - 1])
        invariant
            a <= b <= s@.len(),
            forall|j: int| b <= j < s@.len() ==> is_white(s@[j]),
        decreases b,
    {
        b -= 1;
    }
    proof {
        lemma_trim_start_step(s@, a as int);
        let t = s@.skip(a as int);
        assert(a < s@.len() ==> t[0] == s@[a as int]);
        assert(trim_start(t) == t);
        lemma_trim_end_step(t, b - a);
        assert(t.take(b - a) =~= s@.subrange(a as int, b as int));
    }
    slice_subrange(s, a, b)
}

proof fn lemma_split_step(s: Seq<char>, sep: char, start: int, i: int)
    requires
        0 <= start <= i < s.len(),
        s[i] == sep,
        forall|j: int| start <= j < i ==> s[j] != sep,
    ensures
        split(s.skip(start), sep) == seq![s.subrange(start, i)] + split(s.skip(i + 1), sep),
{
    let t = s.skip(start);
    lemma_first_index_is(t, sep, 0, i - start);
    assert(t.take(i - start) =~= s.subrange(start, i));
    assert(t.skip(i - start + 1) =~= s.skip(i + 1));
}

/// Splits at every `sep`.
pub fn split_at(s: &[char], sep: char) -> (r: Vec<Vec<char>>)
    ensures
        rows(r@) == split(s@, sep),
        r@.len() >= 1,
{
    let mut out: Vec<Vec<char>> = Vec::new();
    let mut start: usize = 0;
    let mut i: usize = find_char(s, sep, 0);
    assert(s@.skip(0) =~= s@);
    assert(rows(out@) + split(s@.skip(0), sep) =~= split(s@, sep));
    while i < s.len()
        invariant
            start <= i <= s@.len(),
            i < s@.len() ==> s@[i as int] == sep,
            forall|j: int| start <= j < i ==> s@[j] != sep,
            rows(out@) + split(s@.skip(start as int), sep) == split(s@, sep),
        decreases s@.len() - i,
    {
        let piece = copy(slice_subrange(s, start, i));
        proof {
            lemma_split_step(s@, sep, start as int, i as int);
            assert(rows(out@.push(piece)) =~= rows(out@) + seq![piece@]);
            assert(rows(out@) + (seq![piece@] + split(s@.skip(i + 1), sep)) =~= (rows(out@) + seq![
                piece@,
            ]) + split(s@.skip(i + 1), sep));
        }
        out.push(piece);
        start = i + 1;
        i = find_char(s, sep, start);
    }
    let last = copy(slice_subrange(s, start, s.len()));
    proof {
        let t = s@.skip(start as int);
        lemma_first_index_is(t, sep, 0, t.len() as int);
        assert(last@ =~= t);
        assert(split(t, sep) =~= seq![last@]);
        assert(rows(out@.push(last)) =~= rows(out@) + seq![last@]);
    }
    out.push(last);
    out
}

/// Joins pieces with a one-character separator.
pub fn join_with(parts: &[Vec<char>], sep: char) -> (r: Vec<char>)
    ensures
        r@ == join(rows(parts@), seq![sep]),
{
    let mut out: Vec<char> = Vec::new();
    let mut i: usize = 0;
    assert(rows(parts@).take(0) =~= Seq::empty());
    while i < parts.len()
        invariant
            i <= parts@.len(),
            out@ == join(rows(parts@).take(i as int), seq![sep]),
        decreases parts@.len() - i,
    {
        let ghost before = out@;
        if i > 0 {
            out.push(sep);
        }
        let mut piece = copy(parts[i].as_slice());
        out.append(&mut piece);
        proof {
            let all = rows(parts@);
            assert(all.take(i + 1).drop_last() =~= all.take(i as int));
            assert(all.take(i + 1).last() == parts@[i as int]@);
            if i > 0 {
                assert(out@ =~= before + seq![sep] + parts@[i as int]@);
            } else {
                assert(out@ =~= parts@[i as int]@);
            }
        }
        i += 1;
    }
    assert(rows(parts@).take(parts@.len() as int) =~= rows(parts@));
    out
}

proof fn lemma_join_cons(head: Seq<char>, rest: Seq<Seq<char>>, sep: Seq<char>)
    requires
        rest.len() > 0,
    ensures
        join(seq![head] + rest, sep) == head + sep + join(rest, sep),
    decreases rest.len(),
{
    let all = seq![head] + rest;
    assert(all.last() == rest.last());
    if rest.len() == 1 {
        assert(all.drop_last() =~= seq![head]);
        assert(join(all.drop_last(), sep) == head);
    } else {
        assert(all.drop_last() =~= seq![head] + rest.drop_last());
        lemma_join_cons(head, rest.drop_last(), sep);
        assert(join(all, sep) =~= head + sep + join(rest, sep));
    }
}

/// Splitting and joining again gives back the text.
pub proof fn lemma_join_split(s: Seq<char>, sep: char)
    ensures
        join(split(s, sep), seq![sep]) == s,
        split(s, sep).len() >= 1,
        forall|k: int| 0 <= k < split(s, sep).len() ==> !(#[trigger] split(s, sep)[k]).contains(sep),
    decreases s.len(),
{
    lemma_first_index(s, sep, 0);
    let i = first_index(s, sep, 0);
    if i < s.len() {
        let rest = split(s.skip(i + 1), sep);
        lemma_join_split(s.skip(i + 1), sep);
        lemma_join_cons(s.take(i), rest, seq![sep]);
        assert(s.take(i) + seq![sep] + s.skip(i + 1) =~= s);
        assert forall|k: int| 0 <= k < split(s, sep).len() implies !(#[trigger] split(
            s,
            sep,
        )[k]).contains(sep) by {
            if k > 0 {
                assert(split(s, sep)[k] == rest[k - 1]);
            }
        }
    }
}

/// Joining two lists one after the other puts one separator between them.
pub proof fn lemma_join_append(a: Seq<Seq<char>>, b: Seq<Seq<char>>, sep: Seq<char>)
    requires
        a.len() > 0,
        b.len() > 0,
    ensures
        join(a + b, sep) == join(a, sep) + sep + join(b, sep),
    decreases b.len(),
{
    let all = a + b;
    assert(all.last() == b.last());
    if b.len() == 1 {
        assert(all.drop_last() =~= a);
    } else {
        assert(all.drop_last() =~= a + b.drop_last());
        lemma_join_append(a, b.drop_last(), sep);
        assert(join(all, sep) =~= join(a, sep) + sep + join(b, sep));
    }
}

/// A text joined with a one-character separator is at least as long as its
/// separators and any one of its parts.
pub proof fn lemma_join_len(parts: Seq<Seq<char>>, sep: char, k: int)
    requires
        0 <= k < parts.len(),
    ensures
        join(parts, seq![sep]).len() >= parts.len() - 1 + parts[k].len(),
    decreases parts.len(),
{
    if parts.len() > 1 {
        if k < parts.len() - 1 {
            lemma_join_len(parts.drop_last(), sep, k);
        } else {
            lemma_join_len(parts.drop_last(), sep, 0);
        }
    }
}

/// Joining and splitting again gives back the parts, when no part holds the
/// separator.
pub proof fn lemma_split_join(parts: Seq<Seq<char>>, sep: char)
    requires
        parts.len() >= 1,
        forall|k: int| 0 <= k < parts.len() ==> !(#[trigger] parts[k]).contains(sep),
    ensures
        split(join(parts, seq![sep]), sep) == parts,
    decreases parts.len(),
{
    let all = join(parts, seq![sep]);
    let head = parts[0];
    if parts.len() == 1 {
        lemma_first_index_is(all, sep, 0, all.len() as int);
        assert(split(all, sep) =~= parts);
    } else {
        let rest = parts.skip(1);
        assert(parts =~= seq![head] + rest);
        lemma_join_cons(head, rest, seq![sep]);
        assert forall|k: int| 0 <= k < rest.len() implies !(#[trigger] rest[k]).contains(sep) by {
            assert(rest[k] == parts[k + 1]);
        }
        lemma_split_join(rest, sep);
        assert forall|j: int| 0 <= j < head.len() implies all[j] != sep by {
            assert(all[j] == head[j]);
        }
        lemma_first_index_is(all, sep, 0, head.len() as int);
        assert(all.take(head.len() as int) =~= head);
        assert(all.skip(head.len() as int + 1) =~= join(rest, seq![sep]));
    }
}

/// The parts of a comma-separated list: trimmed, without the empty ones.
pub open spec fn nonblank(parts: Seq<Seq<char>>) -> Seq<Seq<char>>
    decreases parts.len(),
{
    if parts.len() == 0 {
        Seq::empty()
    } else {
        let rest = nonblank(parts.drop_last());
        let last = trim(parts.last());
        if last.len() == 0 {
            rest
        } else {
            rest.push(last)
        }
    }
}

/// The items of a comma-separated list.
pub open spec fn list_items(s: Seq<char>) -> Seq<Seq<char>> {
    nonblank(split(s, ','))
}

/// Splits a comma-separated list into its trimmed, non-empty items.
pub fn split_items(s: &str) -> (r: Vec<String>)
    ensures
        texts(r@) == list_items(s@),
{
    let parts = split_at(to_chars(s).as_slice(), ',');
    let ghost all = rows(parts@);
    let mut out: Vec<String> = Vec::new();
    let mut i: usize = 0;
    assert(all.take(0) =~= Seq::empty());
    assert(texts(out@) =~= nonblank(all.take(0)));
    while i < parts.len()
        invariant
            i <= parts@.len(),
            all == rows(parts@),
            texts(out@) == nonblank(all.take(i as int)),
        decreases parts@.len() - i,
    {
        let item = trimmed(parts[i].as_slice());
        proof {
            assert(all.take(i + 1).drop_last() =~= all.take(i as int));
            assert(all.take(i + 1).last() == parts@[i as int]@);
        }
        if item.len() > 0 {
            let kept = to_text(item);
            assert(texts(out@.push(kept)) =~= texts(out@).push(kept@));
            out.push(kept);
        }
        i += 1;
    }
    assert(all.take(parts@.len() as int) =~= all);
    out
}

/// No item of a comma-separated list is empty, holds a comma, or has white
/// space around it.
pub proof fn lemma_list_items(s: Seq<char>, k: int)
    requires
        0 <= k < list_items(s).len(),
    ensures
        list_items(s)[k].len() > 0,
        !list_items(s)[k].contains(','),
        trim(list_items(s)[k]) == list_items(s)[k],
{
    lemma_join_split(s, ',');
    lemma_nonblank(split(s, ','), k);
}

proof fn lemma_nonblank(parts: Seq<Seq<char>>, k: int)
    requires
        0 <= k < nonblank(parts).len(),
        forall|j: int| 0 <= j < parts.len() ==> !(#[trigger] parts[j]).contains(','),
    ensures
        nonblank(parts)[k].len() > 0,
        !nonblank(parts)[k].contains(','),
        trim(nonblank(parts)[k]) == nonblank(parts)[k],
    decreases parts.len(),
{
    let before = parts.drop_last();
    assert forall|j: int| 0 <= j < before.len() implies !(#[trigger] before[j]).contains(',') by {
        assert(before[j] == parts[j]);
    }
    if k < nonblank(before).len() {
        lemma_nonblank(before, k);
    } else {
        let t = trim(parts.last());
        lemma_trim(parts.last());
        let (a, b) = choose|a: int, b: int|
            0 <= a <= b <= parts.last().len() && t == #[trigger] parts.last().subrange(a, b);
        assert forall|j: int| 0 <= j < t.len() implies t[j] != ',' by {
            assert(t[j] == parts.last()[a + j]);
        }
        assert(trim_start(t) == t);
        assert(trim_end(t) == t);
    }
}

/// The lower-case form of an ASCII letter; any other character itself.
pub open spec fn lower(c: char) -> char {
    if 'A' <= c <= 'Z' {
        ((c as u8 + 32) as u8) as char
    } else {
        c
    }
}

/// `s` with its ASCII letters in lower case.
pub open spec fn ascii_lower(s: Seq<char>) -> Seq<char> {
    Seq::new(s.len(), |i: int| lower(s[i]))
}

/// The text with its ASCII letters in lower case.
pub fn to_lower(s: &str) -> (r: String)
    ensures
        r@ == ascii_lower(s@),
{
    let chars = to_chars(s);
    let mut out: Vec<char> = Vec::new();
    let mut i: usize = 0;
    while i < chars.len()
        invariant
            i <= chars@.len(),
            out@.len() == i,
            forall|j: int| 0 <= j < i ==> out@[j] == lower(chars@[j]),
        decreases chars@.len() - i,
    {
        let c = chars[i];
        if 'A' <= c && c <= 'Z' {
            out.push((c as u8 + 32) as char);
        } else {
            out.push(c);
        }
        i += 1;
    }
    assert(out@ =~= ascii_lower(s@));
    to_text(out.as_slice())
}

/// A string as `{:?}` writes it.
pub uninterp spec fn debug_text(s: Seq<char>) -> Seq<char>;

/// Whether a text is ASCII that prints, without quotes and backslashes.
pub open spec fn prints_bare(s: Seq<char>) -> bool {
    forall|i: int|
        0 <= i < s.len() ==> ' ' <= #[trigger] s[i] <= '~' && s[i] != '"' && s[i] != '\'' && s[i]
            != '\\'
}

/// Whether a text holds no line break.
pub open spec fn one_line(s: Seq<char>) -> bool {
    forall|i: int| 0 <= i < s.len() ==> #[trigger] s[i] != '\n'
}

/// `format!` with `{:?}` on a string: in double quotes, with escapes for what
/// does not print, a line break among it. ASCII that prints stays as it is, but
/// for quotes and backslashes.
#[verifier::external_body]
pub(crate) fn quoted(s: &str) -> (r: String)
    ensures
        r@ == debug_text(s@),
        one_line(r@),
        prints_bare(s@) ==> r@ == seq!['"'] + s@ + seq!['"'],
{
    format!("{:?}", s)
}

} // verus!
