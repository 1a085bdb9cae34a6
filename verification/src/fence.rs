//! Fenced code blocks of a markdown text, tracked line by line.

use vstd::prelude::*;
use vstd::slice::slice_subrange;

use crate::text::{is_white, is_whitespace, trim, trim_start, trimmed};

verus! {

/// A fence: its marker, how often it is repeated, and whether anything but
/// white space follows.
pub struct FenceView {
    pub marker: char,
    pub length: int,
    pub bare: bool,
}

/// How many times `c` stands at the start of `s`.
pub open spec fn leading(s: Seq<char>, c: char) -> int
    decreases s.len(),
{
    if s.len() > 0 && s[0] == c {
        1 + leading(s.skip(1), c)
    } else {
        0
    }
}

/// The fence that a line is: three or more backticks or tildes, after any
/// indentation.
pub open spec fn fence(line: Seq<char>) -> Option<FenceView> {
    let s = trim_start(line);
    if s.len() > 0 && (s[0] == '`' || s[0] == '~') && leading(s, s[0]) >= 3 {
        Some(
            FenceView {
                marker: s[0],
                length: leading(s, s[0]),
                bare: trim(s.skip(leading(s, s[0]))).len() == 0,
            },
        )
    } else {
        None
    }
}

/// The fence that is open after `line`, when `open` was before it. A block
/// ends only on the marker that opened it, repeated at least as often, with
/// nothing behind it.
pub open spec fn after(open: Option<(char, int)>, line: Seq<char>) -> Option<(char, int)> {
    match (open, fence(line)) {
        (None, Some(f)) => Some((f.marker, f.length)),
        (Some(o), Some(f)) => if f.marker == o.0 && f.length >= o.1 && f.bare {
            None
        } else {
            open
        },
        (_, None) => open,
    }
}

/// Whether a line is text: outside every block and not a fence itself.
pub open spec fn is_prose(open: Option<(char, int)>, line: Seq<char>) -> bool {
    open is None && fence(line) is None
}

/// The fence that is open after the first `n` of `lines`.
pub open spec fn open_after(lines: Seq<Seq<char>>, n: int) -> Option<(char, int)>
    decreases n,
{
    if n <= 0 {
        None
    } else {
        after(open_after(lines, n - 1), lines[n - 1])
    }
}

/// Follows the fences of a text, one line at a time.
#[derive(Debug)]
pub struct FenceTracker {
    open: Option<(char, usize)>,
}

impl Default for FenceTracker {
    fn default() -> (r: FenceTracker)
        ensures
            r@ == None::<(char, int)>,
    {
        FenceTracker { open: None }
    }
}

impl FenceTracker {
    /// The open fence: its marker and how often it is repeated.
    pub closed spec fn view(self) -> Option<(char, int)> {
        match self.open {
            Some((c, n)) => Some((c, n as int)),
            None => None,
        }
    }

    /// Takes in the next line, and reports whether it is text to be read:
    /// outside every fenced block and not a fence.
    pub fn scan_line(&mut self, line: &[char]) -> (r: bool)
        ensures
            r == is_prose(old(self)@, line@),
            final(self)@ == after(old(self)@, line@),
    {
        let Some((marker, length, bare)) = read_fence(line) else {
            return self.open.is_none();
        };
        match self.open {
            None => {
                self.open = Some((marker, length));
            },
            Some((c, n)) => {
                if marker == c && length >= n && bare {
                    self.open = None;
                }
            },
        }
        false
    }
}

proof fn lemma_trim_start_is(s: Seq<char>, a: int)
    requires
        0 <= a <= s.len(),
        forall|j: int| 0 <= j < a ==> is_white(s[j]),
        a < s.len() ==> !is_white(s[a]),
    ensures
        trim_start(s) == s.skip(a),
    decreases a,
{
    if a > 0 {
        lemma_trim_start_is(s.skip(1), a - 1);
        assert(s.skip(1).skip(a - 1) =~= s.skip(a));
    } else {
        assert(s.skip(0) =~= s);
    }
}

proof fn lemma_leading_is(s: Seq<char>, c: char, n: int)
    requires
        0 <= n <= s.len(),
        forall|j: int| 0 <= j < n ==> s[j] == c,
        n < s.len() ==> s[n] != c,
    ensures
        leading(s, c) == n,
    decreases n,
{
    if n > 0 {
        lemma_leading_is(s.skip(1), c, n - 1);
    }
}

fn read_fence(line: &[char]) -> (r: Option<(char, usize, bool)>)
    ensures
        fence(line@) == (match r {
            Some((marker, length, bare)) => Some(
                FenceView { marker, length: length as int, bare },
            ),
            None => None,
        }),
{
    let mut a: usize = 0;
    while a < line.len() && is_whitespace(line[a])
        invariant
            a <= line@.len(),
            forall|j: int| 0 <= j < a ==> is_white(line@[j]),
        decreases line@.len() - a,
    {
        a += 1;
    }
    let s = slice_subrange(line, a, line.len());
    proof {
        lemma_trim_start_is(line@, a as int);
        assert(s@ =~= line@.skip(a as int));
    }
    if s.len() == 0 || (s[0] != '`' && s[0] != '~') {
        return None;
    }
    let marker = s[0];
    let mut n: usize = 0;
    while n < s.len() && s[n] == marker
        invariant
            n <= s@.len(),
            forall|j: int| 0 <= j < n ==> s@[j] == marker,
        decreases s@.len() - n,
    {
        n += 1;
    }
    let rest = slice_subrange(s, n, s.len());
    proof {
        lemma_leading_is(s@, marker, n as int);
        assert(rest@ =~= s@.skip(n as int));
    }
    if n < 3 {
        return None;
    }
    Some((marker, n, trimmed(rest).len() == 0))
}

/// A block stays open until a bare fence of the same marker, at least as long,
/// comes by: no other line ends it, and none inside it is text.
pub proof fn lemma_block_stays(open: Option<(char, int)>, line: Seq<char>)
    requires
        open is Some,
        !(fence(line) matches Some(f) && f.marker == open->Some_0.0 && f.length >= open->Some_0.1
            && f.bare),
    ensures
        after(open, line) == open,
        !is_prose(open, line),
{
}

} // verus!
