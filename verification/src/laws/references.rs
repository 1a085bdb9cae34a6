//! Which links and code spans of a line are references, told by their
//! characters.

use vstd::prelude::*;

use crate::lint::rules::references::{
    covered, link_at, links_from, masked, span_from, spans_from,
};
use crate::text::{first_index, lemma_first_index, lemma_first_index_is};

verus! {

/// The targets of the links in a text.
pub open spec fn link_texts(s: Seq<char>) -> Seq<Seq<char>> {
    links_from(s, 0).map_values(|r: (int, int)| s.subrange(r.0, r.1))
}

/// The insides of the code spans in a text.
pub open spec fn span_texts(s: Seq<char>) -> Seq<Seq<char>> {
    spans_from(s, 0).map_values(|r: (int, int)| s.subrange(r.0 + 1, r.1))
}

/// The ranges `by` places further on.
spec fn moved(list: Seq<(int, int)>, by: int) -> Seq<(int, int)> {
    list.map_values(|r: (int, int)| (r.0 + by, r.1 + by))
}

proof fn lemma_index_behind(p: Seq<char>, q: Seq<char>, c: char, k: int)
    requires
        0 <= k <= q.len(),
    ensures
        first_index(p + q, c, p.len() + k) == p.len() + first_index(q, c, k),
{
    lemma_first_index(q, c, k);
    lemma_first_index_is(p + q, c, p.len() + k, p.len() + first_index(q, c, k));
}

proof fn lemma_link_at_bounds(s: Seq<char>, b: int)
    ensures
        link_at(s, b) matches Some((x, y)) ==> 0 <= b && b + 3 <= x < y < s.len(),
{
    if 0 <= b < s.len() {
        lemma_first_index(s, ']', b + 1);
        let c = first_index(s, ']', b + 1);
        if c + 2 <= s.len() {
            lemma_first_index(s, ')', c + 2);
        }
    }
}

proof fn lemma_links_behind(p: Seq<char>, q: Seq<char>, k: int)
    requires
        0 <= k,
    ensures
        links_from(p + q, p.len() + k) == moved(links_from(q, k), p.len() as int),
    decreases q.len() - k,
{
    let s = p + q;
    let n = p.len() as int;
    if k < q.len() {
        lemma_link_at_bounds(q, k);
        lemma_index_behind(p, q, ']', k + 1);
        lemma_first_index(q, ']', k + 1);
        let c = first_index(q, ']', k + 1);
        if c + 2 <= q.len() {
            lemma_index_behind(p, q, ')', c + 2);
            lemma_first_index(q, ')', c + 2);
        }
        match link_at(q, k) {
            Some((a, b)) => {
                assert(link_at(s, n + k) == Some((a + n, b + n)));
                lemma_links_behind(p, q, b + 1);
                assert(moved(seq![(a, b)] + links_from(q, b + 1), n) =~= seq![(a + n, b + n)] + moved(
                    links_from(q, b + 1),
                    n,
                ));
            },
            None => {
                assert(link_at(s, n + k) is None);
                lemma_links_behind(p, q, k + 1);
            },
        }
    } else {
        assert(links_from(s, n + k) =~= moved(links_from(q, k), n));
    }
}

proof fn lemma_links_skip(s: Seq<char>, a: int, b: int)
    requires
        0 <= a <= b <= s.len(),
        forall|j: int| a <= j < b ==> s[j] != '[',
    ensures
        links_from(s, a) == links_from(s, b),
    decreases b - a,
{
    if a < b {
        assert(link_at(s, a) is None);
        lemma_links_skip(s, a + 1, b);
    }
}

/// A label in brackets and a target in parentheses right behind it are a link
/// to that target, whatever stands before: also where the text before ends in
/// an exclamation mark. What follows has the links it would have alone.
pub proof fn lemma_link(p: Seq<char>, label: Seq<char>, target: Seq<char>, q: Seq<char>)
    requires
        !p.contains('['),
        !label.contains(']'),
        target.len() > 0,
        !target.contains(')'),
    ensures
        link_texts(p + seq!['['] + label + seq![']', '('] + target + seq![')'] + q) == seq![target]
            + link_texts(q),
{
    let head = p + seq!['['] + label + seq![']', '('] + target + seq![')'];
    let s = head + q;
    let b = p.len() as int;
    let c = b + 1 + label.len();
    let d = c + 2 + target.len();
    assert forall|j: int| 0 <= j < b implies s[j] != '[' by {
        assert(s[j] == p[j]);
    }
    assert(s[b] == '[' && s[c] == ']' && s[c + 1] == '(' && s[d] == ')');
    assert forall|j: int| b + 1 <= j < c implies s[j] != ']' by {
        assert(s[j] == label[j - b - 1]);
    }
    assert forall|j: int| c + 2 <= j < d implies s[j] != ')' by {
        assert(s[j] == target[j - c - 2]);
    }
    lemma_first_index_is(s, ']', b + 1, c);
    lemma_first_index_is(s, ')', c + 2, d);
    lemma_links_skip(s, 0, b);
    assert(link_at(s, b) == Some((c + 2, d)));
    assert(head.len() == d + 1);
    lemma_links_behind(head, q, 0);
    let rest = links_from(q, 0);
    assert(links_from(s, 0) == seq![(c + 2, d)] + moved(rest, d + 1));
    assert(s.subrange(c + 2, d) =~= target);
    lemma_links_sound(q, 0);
    let all = link_texts(s);
    assert(all.len() == 1 + rest.len());
    assert forall|i: int| 0 <= i < all.len() implies all[i] == (seq![target] + link_texts(q))[i] by {
        if i > 0 {
            let r = rest[i - 1];
            assert(links_from(s, 0)[i] == (r.0 + d + 1, r.1 + d + 1));
            assert(s.subrange(r.0 + d + 1, r.1 + d + 1) =~= q.subrange(r.0, r.1));
        }
    }
    assert(all =~= seq![target] + link_texts(q));
}

/// Whether a range is the target of a link: a bracketed label before it, and a
/// parenthesis on either side.
pub open spec fn is_link(s: Seq<char>, r: (int, int)) -> bool {
    &&& 3 <= r.0 < r.1 < s.len()
    &&& s[r.0 - 1] == '('
    &&& s[r.0 - 2] == ']'
    &&& s[r.1] == ')'
    &&& !s.subrange(r.0, r.1).contains(')')
    &&& exists|b: int|
        0 <= b < r.0 - 2 && #[trigger] s[b] == '[' && forall|j: int|
            b < j < r.0 - 2 ==> s[j] != ']'
}

proof fn lemma_links_sound(s: Seq<char>, from: int)
    ensures
        forall|i: int| 0 <= i < links_from(s, from).len() ==> is_link(s, #[trigger] links_from(s, from)[i]),
    decreases s.len() - from,
{
    if 0 <= from < s.len() {
        lemma_link_at_bounds(s, from);
        match link_at(s, from) {
            Some((a, b)) => {
                lemma_links_sound(s, b + 1);
                lemma_first_index(s, ']', from + 1);
                lemma_first_index(s, ')', a);
                assert forall|j: int| 0 <= j < s.subrange(a, b).len() implies s.subrange(a, b)[j] != ')' by {}
                assert(s[from] == '[');
                assert(is_link(s, (a, b)));
                let rest = links_from(s, b + 1);
                assert forall|i: int| 0 <= i < links_from(s, from).len() implies is_link(
                    s,
                    #[trigger] links_from(s, from)[i],
                ) by {
                    if i > 0 {
                        assert(links_from(s, from)[i] == rest[i - 1]);
                    }
                }
            },
            None => {
                lemma_links_sound(s, from + 1);
                assert(links_from(s, from) == links_from(s, from + 1));
            },
        }
    } else {
        assert(links_from(s, from).len() == 0);
    }
}

/// Nothing else is a link.
pub proof fn lemma_only_links(s: Seq<char>)
    ensures
        forall|i: int| 0 <= i < links_from(s, 0).len() ==> is_link(s, #[trigger] links_from(s, 0)[i]),
        !s.contains('[') ==> link_texts(s).len() == 0,
{
    lemma_links_sound(s, 0);
    if !s.contains('[') {
        lemma_links_skip(s, 0, s.len() as int);
    }
}

proof fn lemma_span_behind(p: Seq<char>, q: Seq<char>, k: int)
    requires
        0 <= k <= q.len(),
    ensures
        span_from(p + q, p.len() + k) == (match span_from(q, k) {
            Some((i, j)) => Some((i + p.len(), j + p.len())),
            None => None,
        }),
        span_from(q, k) matches Some((i, j)) ==> k <= i && i + 1 < j < q.len() && q[i] == '`' && q[j]
            == '`' && forall|x: int| i < x < j ==> q[x] != '`',
    decreases q.len() - k,
{
    lemma_first_index(q, '`', k);
    lemma_index_behind(p, q, '`', k);
    let i = first_index(q, '`', k);
    if i < q.len() {
        lemma_first_index(q, '`', i + 1);
        lemma_index_behind(p, q, '`', i + 1);
        if first_index(q, '`', i + 1) == i + 1 && i + 1 < q.len() {
            lemma_span_behind(p, q, i + 1);
        }
    } else {
        lemma_first_index(p + q, '`', p.len() + k);
    }
}

proof fn lemma_spans_behind(p: Seq<char>, q: Seq<char>, k: int)
    requires
        0 <= k <= q.len(),
    ensures
        spans_from(p + q, p.len() + k) == moved(spans_from(q, k), p.len() as int),
    decreases q.len() - k,
{
    let n = p.len() as int;
    lemma_span_behind(p, q, k);
    match span_from(q, k) {
        Some((i, j)) => {
            lemma_spans_behind(p, q, j + 1);
            assert(moved(seq![(i, j)] + spans_from(q, j + 1), n) =~= seq![(i + n, j + n)] + moved(
                spans_from(q, j + 1),
                n,
            ));
        },
        None => {
            assert(spans_from(p + q, n + k) =~= moved(spans_from(q, k), n));
        },
    }
}

/// A text without backticks has no code spans, and nothing of it is blanked
/// out. One that is never closed opens none.
pub proof fn lemma_no_spans(s: Seq<char>, i: int)
    requires
        0 <= i <= s.len(),
        forall|j: int| 0 <= j < s.len() && j != i ==> s[j] != '`',
    ensures
        spans_from(s, 0).len() == 0,
        masked(s) == s,
{
    if i < s.len() && s[i] == '`' {
        lemma_first_index_is(s, '`', 0, i);
        lemma_first_index_is(s, '`', i + 1, s.len() as int);
    } else {
        lemma_first_index_is(s, '`', 0, s.len() as int);
    }
    assert(masked(s) =~= s);
}

/// A backtick, other characters and a backtick are a code span, which is
/// blanked out whole. What follows has the code spans it would have alone.
pub proof fn lemma_span(p: Seq<char>, code: Seq<char>, q: Seq<char>)
    requires
        !p.contains('`'),
        code.len() > 0,
        !code.contains('`'),
    ensures
        ({
            let s = p + seq!['`'] + code + seq!['`'] + q;
            &&& span_texts(s) == seq![code] + span_texts(q)
            &&& masked(s) == p + Seq::new(code.len() + 2, |i: int| '*') + masked(q)
        }),
{
    let head = p + seq!['`'] + code + seq!['`'];
    let s = head + q;
    let i = p.len() as int;
    let j = i + 1 + code.len();
    assert forall|x: int| 0 <= x < i implies s[x] != '`' by {
        assert(s[x] == p[x]);
    }
    assert forall|x: int| i < x < j implies s[x] != '`' by {
        assert(s[x] == code[x - i - 1]);
    }
    assert(s[i] == '`' && s[j] == '`');
    lemma_first_index_is(s, '`', 0, i);
    lemma_first_index_is(s, '`', i + 1, j);
    assert(span_from(s, 0) == Some((i, j)));
    assert(head.len() == j + 1);
    lemma_spans_behind(head, q, 0);
    let rest = spans_from(q, 0);
    let all = spans_from(s, 0);
    assert(all == seq![(i, j)] + moved(rest, j + 1));
    assert(s.subrange(i + 1, j) =~= code);
    lemma_spans_sound(q, 0);
    assert forall|x: int| 0 <= x < all.len() implies span_texts(s)[x] == (seq![code] + span_texts(q))[x] by {
        if x > 0 {
            let r = rest[x - 1];
            assert(all[x] == (r.0 + j + 1, r.1 + j + 1));
            assert(s.subrange(r.0 + j + 2, r.1 + j + 1) =~= q.subrange(r.0 + 1, r.1));
        }
    }
    assert(span_texts(s) =~= seq![code] + span_texts(q));
    let blank = p + Seq::new(code.len() + 2, |x: int| '*') + masked(q);
    assert forall|k: int| 0 <= k < s.len() implies masked(s)[k] == blank[k] by {
        if k < i {
            assert(!covered(all, k)) by {
                assert forall|t: int| 0 <= t < all.len() implies !((#[trigger] all[t]).0 <= k
                    <= all[t].1) by {
                    if t > 0 {
                        assert(rest[t - 1].0 >= 0);
                        assert(all[t] == (rest[t - 1].0 + j + 1, rest[t - 1].1 + j + 1));
                    }
                }
            }
        } else if k <= j {
            assert(all[0] == (i, j));
            assert(covered(all, k));
        } else {
            let m = k - j - 1;
            if covered(rest, m) {
                let t = choose|t: int| 0 <= t < rest.len() && (#[trigger] rest[t]).0 <= m <= rest[t].1;
                assert(all[t + 1] == (rest[t].0 + j + 1, rest[t].1 + j + 1));
                assert(covered(all, k));
            }
            if covered(all, k) {
                let t = choose|t: int| 0 <= t < all.len() && (#[trigger] all[t]).0 <= k <= all[t].1;
                assert(t > 0);
                assert(all[t] == (rest[t - 1].0 + j + 1, rest[t - 1].1 + j + 1));
                assert(rest[t - 1].0 <= m <= rest[t - 1].1);
                assert(covered(rest, m));
            }
        }
    }
    assert(masked(s) =~= blank);
}

/// Whether a range lies between the two backticks of a code span.
pub open spec fn is_span(s: Seq<char>, r: (int, int)) -> bool {
    &&& 0 <= r.0 && r.0 + 1 < r.1 < s.len()
    &&& s[r.0] == '`'
    &&& s[r.1] == '`'
    &&& forall|j: int| r.0 < j < r.1 ==> s[j] != '`'
}

proof fn lemma_spans_sound(s: Seq<char>, from: int)
    requires
        0 <= from <= s.len(),
    ensures
        forall|i: int| 0 <= i < spans_from(s, from).len() ==> is_span(s, #[trigger] spans_from(s, from)[i]),
    decreases s.len() - from,
{
    lemma_span_behind(Seq::empty(), s, from);
    if let Some((i, j)) = span_from(s, from) {
        lemma_spans_sound(s, j + 1);
        let rest = spans_from(s, j + 1);
        assert forall|x: int| 0 <= x < spans_from(s, from).len() implies is_span(
            s,
            #[trigger] spans_from(s, from)[x],
        ) by {
            if x > 0 {
                assert(spans_from(s, from)[x] == rest[x - 1]);
            }
        }
    }
}

/// Nothing else is a code span.
pub proof fn lemma_only_spans(s: Seq<char>)
    ensures
        forall|i: int| 0 <= i < spans_from(s, 0).len() ==> is_span(s, #[trigger] spans_from(s, 0)[i]),
{
    lemma_spans_sound(s, 0);
}

} // verus!
