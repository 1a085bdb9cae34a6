//! Where a fenced block begins and where it ends.

use vstd::prelude::*;

use crate::fence::{fence, is_prose, leading, open_after, FenceView};
use crate::laws::targets::lemma_trimmed;
use crate::text::{is_white, lemma_trim, trim, trim_start};

verus! {

/// Whether a text is white space alone, or empty.
pub open spec fn is_blank(s: Seq<char>) -> bool {
    forall|i: int| 0 <= i < s.len() ==> is_white(#[trigger] s[i])
}

/// `n` times the same character.
pub open spec fn run_of(c: char, n: nat) -> Seq<char> {
    Seq::new(n, |i: int| c)
}

proof fn lemma_start(a: Seq<char>, t: Seq<char>)
    requires
        is_blank(a),
        t.len() == 0 || !is_white(t[0]),
    ensures
        trim_start(a + t) == t,
    decreases a.len(),
{
    if a.len() > 0 {
        let s = a + t;
        assert(s[0] == a[0]);
        assert(s.skip(1) =~= a.skip(1) + t);
        assert(is_blank(a.skip(1)));
        lemma_start(a.skip(1), t);
    } else {
        assert(a + t =~= t);
    }
}

proof fn lemma_leading(c: char, n: nat, rest: Seq<char>)
    requires
        rest.len() == 0 || rest[0] != c,
    ensures
        leading(run_of(c, n) + rest, c) == n,
    decreases n,
{
    let s = run_of(c, n) + rest;
    if n > 0 {
        assert(s.skip(1) =~= run_of(c, (n - 1) as nat) + rest);
        lemma_leading(c, (n - 1) as nat, rest);
    } else {
        assert(s =~= rest);
    }
}

proof fn lemma_blank(s: Seq<char>)
    ensures
        is_blank(s) <==> trim(s).len() == 0,
{
    if is_blank(s) {
        lemma_trimmed(s, Seq::empty(), Seq::empty());
        assert(s + Seq::<char>::empty() + Seq::<char>::empty() =~= s);
    } else {
        let k = choose|k: int| 0 <= k < s.len() && !is_white(#[trigger] s[k]);
        lemma_trim(s);
        if trim(s).len() == 0 {
            let (a, b) = choose|a: int, b: int|
                0 <= a <= b <= s.len() && trim(s) == #[trigger] s.subrange(a, b) && (forall|j: int|
                    0 <= j < a ==> is_white(s[j])) && (forall|j: int|
                    b <= j < s.len() ==> is_white(s[j]));
            assert(s.subrange(a, b).len() == b - a);
            assert(is_white(s[k]));
        }
    }
}

/// A line is a fence where its first visible characters are three or more
/// backticks, or three or more tildes, and nowhere else. It is bare where
/// nothing but white space follows them.
pub proof fn lemma_fence(a: Seq<char>, c: char, n: nat, rest: Seq<char>)
    requires
        is_blank(a),
        !is_white(c),
        n > 0,
        rest.len() == 0 || rest[0] != c,
    ensures
        (c == '`' || c == '~') && n >= 3 ==> fence(a + (run_of(c, n) + rest)) == Some(
            FenceView { marker: c, length: n as int, bare: is_blank(rest) },
        ),
        !((c == '`' || c == '~') && n >= 3) ==> fence(a + (run_of(c, n) + rest)) is None,
        fence(a) is None,
{
    let t = run_of(c, n) + rest;
    assert(t[0] == c);
    lemma_start(a, t);
    lemma_leading(c, n, rest);
    assert(t.skip(n as int) =~= rest);
    lemma_blank(rest);
    lemma_start(a, Seq::empty());
    assert(a + Seq::<char>::empty() =~= a);
}

/// Whether a line ends a block that `n` times `c` began.
pub open spec fn ends_block(line: Seq<char>, c: char, n: int) -> bool {
    fence(line) matches Some(f) && f.marker == c && f.length >= n && f.bare
}

/// A block goes on until a bare fence of the same marker that is at least as
/// long. No line of it is text, neither of its fences is, and after it the
/// text goes on.
pub proof fn lemma_block(lines: Seq<Seq<char>>, i: int, k: int)
    requires
        0 <= i < k <= lines.len(),
        open_after(lines, i) is None,
        fence(lines[i]) is Some,
        forall|j: int|
            i < j < k ==> !ends_block(
                #[trigger] lines[j],
                fence(lines[i])->Some_0.marker,
                fence(lines[i])->Some_0.length,
            ),
    ensures
        open_after(lines, k) == Some((fence(lines[i])->Some_0.marker, fence(lines[i])->Some_0.length)),
        forall|j: int|
            i <= j < k ==> !(#[trigger] is_prose(open_after(lines, j), lines[j])),
        k < lines.len() ==> !is_prose(open_after(lines, k), lines[k]),
        k < lines.len() && ends_block(
            lines[k],
            fence(lines[i])->Some_0.marker,
            fence(lines[i])->Some_0.length,
        ) ==> open_after(lines, k + 1) is None,
    decreases k - i,
{
    if k > i + 1 {
        lemma_block(lines, i, k - 1);
        assert(!ends_block(
            lines[k - 1],
            fence(lines[i])->Some_0.marker,
            fence(lines[i])->Some_0.length,
        ));
    }
}

/// Outside a block every line that is no fence is text, and leaves things as
/// they are.
pub proof fn lemma_outside(lines: Seq<Seq<char>>, i: int)
    requires
        0 <= i < lines.len(),
        open_after(lines, i) is None,
    ensures
        open_after(lines, 0) is None,
        is_prose(open_after(lines, i), lines[i]) <==> fence(lines[i]) is None,
        fence(lines[i]) is None ==> open_after(lines, i + 1) is None,
{
}

} // verus!
