//! Slash-separated paths, compared and normalized lexically: nothing here
//! touches the filesystem or resolves a link.

use vstd::prelude::*;
use vstd::slice::slice_subrange;

use crate::text::{
    copy, join, join_with, lemma_first_index_is, lemma_join_split, lemma_split_join, rows,
    same_chars, split, split_at, to_chars, to_text,
};

verus! {

/// The path part that names the parent directory.
pub open spec fn up() -> Seq<char> {
    seq!['.', '.']
}

/// `raw` without its empty parts and those that name the directory itself.
pub open spec fn names(raw: Seq<Seq<char>>) -> Seq<Seq<char>>
    decreases raw.len(),
{
    if raw.len() == 0 {
        Seq::empty()
    } else {
        let before = names(raw.drop_last());
        if raw.last().len() == 0 || raw.last() == seq!['.'] {
            before
        } else {
            before.push(raw.last())
        }
    }
}

/// The parts of a path, in order.
pub open spec fn parts(path: Seq<char>) -> Seq<Seq<char>> {
    names(split(path, '/'))
}

/// Whether a path starts at the root.
pub open spec fn rooted(path: Seq<char>) -> bool {
    path.len() > 0 && path[0] == '/'
}

/// `list` with every `..` applied to the part before it. At the root a `..`
/// leads nowhere; at the front of a relative path it stays.
pub open spec fn squash(list: Seq<Seq<char>>, at_root: bool) -> Seq<Seq<char>>
    decreases list.len(),
{
    if list.len() == 0 {
        Seq::empty()
    } else {
        let before = squash(list.drop_last(), at_root);
        if list.last() != up() {
            before.push(list.last())
        } else if before.len() > 0 && before.last() != up() {
            before.drop_last()
        } else if at_root {
            before
        } else {
            before.push(up())
        }
    }
}

/// A normalized path.
#[verifier::ext_equal]
pub struct PathView {
    pub rooted: bool,
    pub parts: Seq<Seq<char>>,
}

impl PathView {
    /// The path as text; the relative path without parts is `.`.
    pub open spec fn text(self) -> Seq<char> {
        if self.rooted {
            seq!['/'] + join(self.parts, seq!['/'])
        } else if self.parts.len() == 0 {
            seq!['.']
        } else {
            join(self.parts, seq!['/'])
        }
    }

    /// Whether this path is `base` or lies below it.
    pub open spec fn starts_with(self, base: PathView) -> bool {
        self.rooted == base.rooted && base.parts.is_prefix_of(self.parts)
    }
}

/// A path, normalized.
pub open spec fn cleaned(path: Seq<char>) -> PathView {
    PathView { rooted: rooted(path), parts: squash(parts(path), rooted(path)) }
}

/// A path, taken relative to `cwd` unless it starts at the root, and
/// normalized.
pub open spec fn absolute(cwd: Seq<char>, path: Seq<char>) -> PathView {
    if rooted(path) {
        cleaned(path)
    } else {
        PathView { rooted: rooted(cwd), parts: squash(parts(cwd) + parts(path), rooted(cwd)) }
    }
}

/// The last part of a path, unless it is a `..`.
pub open spec fn base_name(path: Seq<char>) -> Option<Seq<char>> {
    let list = parts(path);
    if list.len() == 0 || list.last() == up() {
        None
    } else {
        Some(list.last())
    }
}

/// A normalized path.
#[derive(Debug)]
pub struct CleanPath {
    pub rooted: bool,
    pub parts: Vec<Vec<char>>,
}

impl CleanPath {
    pub open spec fn view(self) -> PathView {
        PathView { rooted: self.rooted, parts: rows(self.parts@) }
    }

    /// The path as text.
    pub fn text(&self) -> (r: String)
        ensures
            r@ == self@.text(),
    {
        let body = join_with(self.parts.as_slice(), '/');
        if self.rooted {
            let mut out: Vec<char> = Vec::new();
            out.push('/');
            let mut body = body;
            out.append(&mut body);
            to_text(out.as_slice())
        } else if self.parts.len() == 0 {
            let mut out: Vec<char> = Vec::new();
            out.push('.');
            assert(out@ =~= seq!['.']);
            to_text(out.as_slice())
        } else {
            to_text(body.as_slice())
        }
    }

    /// Whether this path is `base` or lies below it.
    pub fn starts_with(&self, base: &CleanPath) -> (r: bool)
        ensures
            r == self@.starts_with(base@),
    {
        if self.rooted != base.rooted || base.parts.len() > self.parts.len() {
            return false;
        }
        let mut i: usize = 0;
        while i < base.parts.len()
            invariant
                i <= base.parts@.len() <= self.parts@.len(),
                forall|j: int| 0 <= j < i ==> base.parts@[j]@ == self.parts@[j]@,
            decreases base.parts@.len() - i,
        {
            if !same_chars(base.parts[i].as_slice(), self.parts[i].as_slice()) {
                assert(base@.parts[i as int] != self@.parts[i as int]);
                return false;
            }
            i += 1;
        }
        assert(base@.parts =~= self@.parts.take(base@.parts.len() as int));
        true
    }

    /// Whether two normalized paths are the same.
    pub fn same(&self, other: &CleanPath) -> (r: bool)
        ensures
            r == (self@ == other@),
    {
        if self.parts.len() != other.parts.len() {
            return false;
        }
        let r = self.starts_with(other);
        assert(r ==> self@.parts =~= other@.parts);
        r
    }

    /// The directory that holds this path, or `None` at the top.
    pub fn parent(&self) -> (r: Option<CleanPath>)
        ensures
            r is None <==> self@.parts.len() == 0,
            r matches Some(p) ==> p@ == (PathView {
                rooted: self@.rooted,
                parts: self@.parts.drop_last(),
            }),
    {
        let n: usize = self.parts.len();
        if n == 0 {
            return None;
        }
        let kept = copy_parts(slice_subrange(self.parts.as_slice(), 0, n - 1));
        assert(rows(kept@) =~= self@.parts.drop_last());
        Some(CleanPath { rooted: self.rooted, parts: kept })
    }
}

fn copy_parts(list: &[Vec<char>]) -> (r: Vec<Vec<char>>)
    ensures
        rows(r@) == rows(list@),
{
    let mut out: Vec<Vec<char>> = Vec::new();
    let mut i: usize = 0;
    while i < list.len()
        invariant
            i <= list@.len(),
            out@.len() == i,
            forall|j: int| 0 <= j < i ==> (#[trigger] out@[j])@ == list@[j]@,
        decreases list@.len() - i,
    {
        let part = copy(list[i].as_slice());
        out.push(part);
        i += 1;
    }
    assert(rows(out@) =~= rows(list@));
    out
}

/// The parts of a path.
pub fn split_parts(path: &[char]) -> (r: Vec<Vec<char>>)
    ensures
        rows(r@) == parts(path@),
{
    let raw = split_at(path, '/');
    let ghost all = rows(raw@);
    let mut out: Vec<Vec<char>> = Vec::new();
    let mut i: usize = 0;
    assert(all.take(0) =~= Seq::empty());
    assert(rows(out@) =~= names(all.take(0)));
    while i < raw.len()
        invariant
            i <= raw@.len(),
            all == rows(raw@),
            rows(out@) == names(all.take(i as int)),
        decreases raw@.len() - i,
    {
        let part = copy(raw[i].as_slice());
        proof {
            let next = all.take(i + 1);
            assert(next.drop_last() =~= all.take(i as int));
            assert(next.last() == part@);
            assert(part@.len() == 1 && part@[0] == '.' <==> part@ =~= seq!['.']);
            assert(rows(out@.push(part)) =~= rows(out@).push(part@));
        }
        if !(part.len() == 0 || (part.len() == 1 && part[0] == '.')) {
            out.push(part);
        }
        i += 1;
    }
    assert(all.take(i as int) =~= all);
    out
}

fn is_up(part: &[char]) -> (r: bool)
    ensures
        r == (part@ == up()),
{
    assert(part@.len() == 2 && part@[0] == '.' && part@[1] == '.' <==> part@ =~= up());
    part.len() == 2 && part[0] == '.' && part[1] == '.'
}

fn squash_parts(list: &[Vec<char>], at_root: bool) -> (r: Vec<Vec<char>>)
    ensures
        rows(r@) == squash(rows(list@), at_root),
{
    let ghost all = rows(list@);
    let mut out: Vec<Vec<char>> = Vec::new();
    let mut i: usize = 0;
    assert(all.take(0) =~= Seq::empty());
    assert(rows(out@) =~= squash(all.take(0), at_root));
    while i < list.len()
        invariant
            i <= list@.len(),
            all == rows(list@),
            rows(out@) == squash(all.take(i as int), at_root),
        decreases list@.len() - i,
    {
        let part = copy(list[i].as_slice());
        proof {
            let next = all.take(i + 1);
            assert(next.drop_last() =~= all.take(i as int));
            assert(next.last() == part@);
            assert(rows(out@.push(part)) =~= rows(out@).push(part@));
            if out@.len() > 0 {
                assert(rows(out@.drop_last()) =~= rows(out@).drop_last());
                assert(rows(out@).last() == out@.last()@);
            }
        }
        let n: usize = out.len();
        if !is_up(part.as_slice()) {
            out.push(part);
        } else if n > 0 && !is_up(out[n - 1].as_slice()) {
            out.pop();
        } else if !at_root {
            out.push(part);
        }
        i += 1;
    }
    assert(all.take(i as int) =~= all);
    out
}

/// Whether a path starts at the root.
pub fn is_rooted(path: &[char]) -> (r: bool)
    ensures
        r == rooted(path@),
{
    path.len() > 0 && path[0] == '/'
}

/// Normalizes a path.
pub fn clean(path: &str) -> (r: CleanPath)
    ensures
        r@ == cleaned(path@),
{
    let chars = to_chars(path);
    let at_root = is_rooted(chars.as_slice());
    let list = split_parts(chars.as_slice());
    CleanPath { rooted: at_root, parts: squash_parts(list.as_slice(), at_root) }
}

/// Normalizes a path, as text.
pub fn clean_path(path: &str) -> (r: String)
    ensures
        r@ == cleaned(path@).text(),
{
    clean(path).text()
}

/// Joins `path` onto `cwd` when relative and normalizes it.
pub fn resolve(cwd: &str, path: &str) -> (r: CleanPath)
    ensures
        r@ == absolute(cwd@, path@),
{
    let chars = to_chars(path);
    if is_rooted(chars.as_slice()) {
        return clean(path);
    }
    resolve_parts(cwd, split_parts(chars.as_slice()))
}

/// Normalizes a list of parts taken relative to `cwd`.
pub fn resolve_parts(cwd: &str, tail: Vec<Vec<char>>) -> (r: CleanPath)
    ensures
        r@ == (PathView {
            rooted: rooted(cwd@),
            parts: squash(parts(cwd@) + rows(tail@), rooted(cwd@)),
        }),
{
    let base = to_chars(cwd);
    let at_root = is_rooted(base.as_slice());
    let mut list = split_parts(base.as_slice());
    let mut tail = tail;
    let ghost all = rows(list@) + rows(tail@);
    list.append(&mut tail);
    assert(rows(list@) =~= all);
    CleanPath { rooted: at_root, parts: squash_parts(list.as_slice(), at_root) }
}

/// The last part of a path, unless it is a `..`.
pub fn file_name(path: &str) -> (r: Option<Vec<char>>)
    ensures
        base_name(path@) == (match r {
            Some(name) => Some(name@),
            None => None,
        }),
{
    let mut list = split_parts(to_chars(path).as_slice());
    let ghost all = rows(list@);
    match list.pop() {
        Some(last) => {
            assert(all.last() == last@);
            if is_up(last.as_slice()) {
                None
            } else {
                Some(last)
            }
        },
        None => None,
    }
}

/// Whether a part can stand in a path: not empty, not `.`, without a slash.
pub open spec fn is_part(part: Seq<char>) -> bool {
    part.len() > 0 && part != seq!['.'] && !part.contains('/')
}

proof fn lemma_names(raw: Seq<Seq<char>>)
    requires
        forall|k: int| 0 <= k < raw.len() ==> !(#[trigger] raw[k]).contains('/'),
    ensures
        forall|k: int| 0 <= k < names(raw).len() ==> is_part(#[trigger] names(raw)[k]),
    decreases raw.len(),
{
    if raw.len() > 0 {
        assert forall|k: int| 0 <= k < raw.drop_last().len() implies !(#[trigger] raw.drop_last()[k])
            .contains('/') by {
            assert(raw.drop_last()[k] == raw[k]);
        }
        lemma_names(raw.drop_last());
        assert(!raw[raw.len() - 1].contains('/'));
        let before = names(raw.drop_last());
        assert forall|k: int| 0 <= k < names(raw).len() implies is_part(
            #[trigger] names(raw)[k],
        ) by {
            if k < before.len() {
                assert(names(raw)[k] == before[k]);
            }
        }
    }
}

/// Every part of a path is a proper part.
pub proof fn lemma_parts(path: Seq<char>)
    ensures
        forall|k: int| 0 <= k < parts(path).len() ==> is_part(#[trigger] parts(path)[k]),
{
    lemma_join_split(path, '/');
    lemma_names(split(path, '/'));
}

proof fn lemma_names_same(raw: Seq<Seq<char>>)
    requires
        forall|k: int| 0 <= k < raw.len() ==> is_part(#[trigger] raw[k]),
    ensures
        names(raw) == raw,
    decreases raw.len(),
{
    if raw.len() > 0 {
        assert forall|k: int| 0 <= k < raw.drop_last().len() implies is_part(
            #[trigger] raw.drop_last()[k],
        ) by {
            assert(raw.drop_last()[k] == raw[k]);
        }
        lemma_names_same(raw.drop_last());
        assert(is_part(raw[raw.len() - 1]));
        assert(raw.drop_last().push(raw.last()) =~= raw);
    } else {
        assert(names(raw) =~= raw);
    }
}

/// A list that normalizing leaves alone: no `..` below the root, and none
/// behind a name in a relative path.
pub open spec fn squashed(list: Seq<Seq<char>>, at_root: bool) -> bool {
    forall|k: int|
        0 <= k < list.len() && #[trigger] list[k] == up() ==> !at_root && forall|j: int|
            0 <= j < k ==> list[j] == up()
}

proof fn lemma_squash(list: Seq<Seq<char>>, at_root: bool)
    requires
        forall|k: int| 0 <= k < list.len() ==> is_part(#[trigger] list[k]),
    ensures
        squashed(squash(list, at_root), at_root),
        forall|k: int|
            0 <= k < squash(list, at_root).len() ==> is_part(#[trigger] squash(list, at_root)[k]),
    decreases list.len(),
{
    if list.len() > 0 {
        let init = list.drop_last();
        assert forall|k: int| 0 <= k < init.len() implies is_part(#[trigger] init[k]) by {
            assert(init[k] == list[k]);
        }
        lemma_squash(init, at_root);
        let before = squash(init, at_root);
        let after = squash(list, at_root);
        assert(is_part(list[list.len() - 1]));
        if list.last() == up() && (before.len() == 0 || before.last() == up()) && !at_root {
            assert(after == before.push(up()));
            assert forall|j: int| 0 <= j < before.len() implies before[j] == up() by {
                let last = before.len() - 1;
                assert(before[last] == up());
            }
        }
    }
}

proof fn lemma_squash_same(list: Seq<Seq<char>>, at_root: bool)
    requires
        squashed(list, at_root),
    ensures
        squash(list, at_root) == list,
    decreases list.len(),
{
    if list.len() > 0 {
        let init = list.drop_last();
        assert(squashed(init, at_root)) by {
            assert forall|k: int| 0 <= k < init.len() && #[trigger] init[k] == up() implies !at_root
                && forall|j: int| 0 <= j < k ==> init[j] == up() by {
                assert(list[k] == up());
            }
        }
        lemma_squash_same(init, at_root);
        let last = list.len() - 1;
        if list[last] == up() {
            if last > 0 {
                assert(init.last() == list[last - 1]);
            }
        }
        assert(init.push(list.last()) =~= list);
    } else {
        assert(squash(list, at_root) =~= list);
    }
}

/// The text of a normalized path reads back as that path.
proof fn lemma_text_parts(p: PathView)
    requires
        forall|k: int| 0 <= k < p.parts.len() ==> is_part(#[trigger] p.parts[k]),
    ensures
        parts(p.text()) == p.parts,
        rooted(p.text()) == p.rooted,
{
    let body = join(p.parts, seq!['/']);
    lemma_names_same(p.parts);
    if p.parts.len() > 0 {
        assert forall|k: int| 0 <= k < p.parts.len() implies !(#[trigger] p.parts[k]).contains(
            '/',
        ) by {
            assert(is_part(p.parts[k]));
        }
        lemma_split_join(p.parts, '/');
        assert(is_part(p.parts[0]));
        assert(p.parts[0][0] != '/') by {
            assert(p.parts[0].contains(p.parts[0][0]));
        }
        lemma_join_first(p.parts);
    } else {
        lemma_first_index_is(body, '/', 0, 0);
        assert(split(body, '/') =~= seq![Seq::<char>::empty()]);
        reveal_with_fuel(names, 2);
        assert(names(split(body, '/')) =~= Seq::empty());
    }
    if p.rooted {
        let text = p.text();
        lemma_first_index_is(text, '/', 0, 0);
        assert(text.take(0) =~= Seq::empty());
        assert(text.skip(1) =~= body);
        assert(split(text, '/') == seq![Seq::<char>::empty()] + split(body, '/'));
        lemma_names_cons(split(body, '/'));
    } else if p.parts.len() == 0 {
        let text = p.text();
        lemma_first_index_is(text, '/', 0, 1);
        assert(split(text, '/') =~= seq![text]);
        reveal_with_fuel(names, 2);
        assert(names(split(text, '/')) =~= Seq::empty());
    }
}

proof fn lemma_names_cons(raw: Seq<Seq<char>>)
    ensures
        names(seq![Seq::<char>::empty()] + raw) == names(raw),
    decreases raw.len(),
{
    let all = seq![Seq::<char>::empty()] + raw;
    if raw.len() == 0 {
        assert(all.drop_last() =~= Seq::empty());
        assert(names(all.drop_last()) == names(raw));
    } else {
        assert(all.drop_last() =~= seq![Seq::<char>::empty()] + raw.drop_last());
        assert(all.last() == raw.last());
        lemma_names_cons(raw.drop_last());
    }
}

proof fn lemma_join_first(list: Seq<Seq<char>>)
    requires
        list.len() > 0,
        list[0].len() > 0,
    ensures
        join(list, seq!['/']).len() > 0,
        join(list, seq!['/'])[0] == list[0][0],
    decreases list.len(),
{
    if list.len() > 1 {
        lemma_join_first(list.drop_last());
    }
}

/// Normalizing a second time changes nothing, and a normalized path has no
/// `..` left below the root.
pub proof fn lemma_clean_idempotent(path: Seq<char>)
    ensures
        cleaned(cleaned(path).text()) == cleaned(path),
        squashed(cleaned(path).parts, rooted(path)),
{
    let p = cleaned(path);
    lemma_parts(path);
    lemma_squash(parts(path), rooted(path));
    lemma_text_parts(p);
    lemma_squash_same(p.parts, p.rooted);
}

/// A path resolved against a rooted directory starts at the root and needs no
/// further normalizing.
pub proof fn lemma_absolute(cwd: Seq<char>, path: Seq<char>)
    requires
        rooted(cwd),
    ensures
        absolute(cwd, path).rooted,
        squashed(absolute(cwd, path).parts, true),
        cleaned(absolute(cwd, path).text()) == absolute(cwd, path),
        absolute(cwd, absolute(cwd, path).text()) == absolute(cwd, path),
{
    let p = absolute(cwd, path);
    lemma_parts(path);
    lemma_parts(cwd);
    let all = parts(cwd) + parts(path);
    assert forall|k: int| 0 <= k < all.len() implies is_part(#[trigger] all[k]) by {
        if k >= parts(cwd).len() {
            assert(all[k] == parts(path)[k - parts(cwd).len()]);
        } else {
            assert(all[k] == parts(cwd)[k]);
        }
    }
    lemma_squash(all, true);
    lemma_squash(parts(path), true);
    lemma_text_parts(p);
    lemma_squash_same(p.parts, p.rooted);
}

/// A path with forward slashes only.
pub open spec fn slashed(path: Seq<char>) -> Seq<char> {
    Seq::new(
        path.len(),
        |i: int|
            if path[i] == '\\' {
                '/'
            } else {
                path[i]
            },
    )
}

/// A path with forward slashes only.
pub fn to_slash(path: &str) -> (r: String)
    ensures
        r@ == slashed(path@),
{
    let chars = to_chars(path);
    let mut out: Vec<char> = Vec::new();
    let mut i: usize = 0;
    while i < chars.len()
        invariant
            i <= chars@.len(),
            out@.len() == i,
            forall|j: int| 0 <= j < i ==> out@[j] == slashed(chars@)[j],
        decreases chars@.len() - i,
    {
        if chars[i] == '\\' {
            out.push('/');
        } else {
            out.push(chars[i]);
        }
        i += 1;
    }
    assert(out@ =~= slashed(path@));
    to_text(out.as_slice())
}

/// The length of what stands before the names of a path: the root, or the `.`
/// that a relative path starts with.
pub open spec fn head_len(path: Seq<char>) -> int {
    if rooted(path) || (path.len() > 0 && path[0] == '.' && (path.len() == 1 || path[1] == '/')) {
        1
    } else {
        0
    }
}

/// The position of the last separator behind the head, or the end of the head
/// when there is none.
pub open spec fn last_cut(path: Seq<char>, head: int) -> int
    decreases path.len(),
{
    if path.len() <= head || path.len() == 0 {
        head
    } else if path.last() == '/' {
        path.len() - 1
    } else {
        last_cut(path.drop_last(), head)
    }
}

/// The last name of a path, which is empty behind a trailing separator.
pub open spec fn last_part(path: Seq<char>, head: int) -> Seq<char> {
    let cut = last_cut(path, head);
    if path[cut] == '/' {
        path.skip(cut + 1)
    } else {
        path.skip(cut)
    }
}

/// A path without what follows its last name: separators, and each `.` behind
/// the head.
pub open spec fn without_tail(path: Seq<char>, head: int) -> Seq<char>
    decreases path.len(),
    via without_tail_shrinks
{
    if head < 0 || path.len() <= head {
        path
    } else if last_part(path, head).len() == 0 || last_part(path, head) == seq!['.'] {
        without_tail(path.take(last_cut(path, head)), head)
    } else {
        path
    }
}

#[via_fn]
proof fn without_tail_shrinks(path: Seq<char>, head: int) {
    if 0 <= head < path.len() {
        lemma_last_cut(path, head);
    }
}

proof fn lemma_last_cut(path: Seq<char>, head: int)
    requires
        0 <= head < path.len(),
    ensures
        head <= last_cut(path, head) < path.len(),
        last_cut(path, head) == head || path[last_cut(path, head)] == '/',
        forall|j: int| last_cut(path, head) < j < path.len() ==> path[j] != '/',
    decreases path.len(),
{
    if path.last() != '/' && head < path.len() - 1 {
        lemma_last_cut(path.drop_last(), head);
        assert forall|j: int| last_cut(path, head) < j < path.len() implies path[j] != '/' by {
            if j < path.len() - 1 {
                assert(path.drop_last()[j] == path[j]);
            }
        }
    } else if path.last() != '/' {
        assert(last_cut(path.drop_last(), head) == head);
    }
}

proof fn lemma_last_cut_is(path: Seq<char>, head: int, at: int)
    requires
        0 <= head <= at < path.len(),
        at == head || path[at] == '/',
        forall|j: int| at < j < path.len() ==> path[j] != '/',
    ensures
        last_cut(path, head) == at,
    decreases path.len(),
{
    if path.last() != '/' {
        if path.len() - 1 > at {
            assert forall|j: int| at < j < path.drop_last().len() implies path.drop_last()[j]
                != '/' by {
                assert(path.drop_last()[j] == path[j]);
            }
            assert(at == head || path.drop_last()[at] == '/');
            lemma_last_cut_is(path.drop_last(), head, at);
        } else {
            assert(last_cut(path.drop_last(), head) == head);
        }
    } else if at < path.len() - 1 {
        assert(path[path.len() - 1] != '/');
    }
}

proof fn lemma_without_tail(path: Seq<char>, head: int)
    ensures
        without_tail(path, head).len() <= path.len(),
        0 <= head <= path.len() ==> without_tail(path, head).len() >= head,
    decreases path.len(),
{
    if 0 <= head < path.len() {
        lemma_last_cut(path, head);
        lemma_without_tail(path.take(last_cut(path, head)), head);
    }
}

/// The directory that a path lies in, as the start of its own text. The root
/// lies in none, and neither does the empty path.
pub open spec fn directory_of(path: Seq<char>) -> Option<Seq<char>> {
    let head = head_len(path);
    let whole = without_tail(path, head);
    if whole.len() > head {
        Some(without_tail(whole.take(last_cut(whole, head)), head))
    } else if rooted(path) || head == 0 {
        None
    } else {
        Some(Seq::empty())
    }
}

/// The directory that a path lies in is a shorter text.
pub proof fn lemma_directory(path: Seq<char>)
    ensures
        directory_of(path) matches Some(dir) ==> dir.len() < path.len(),
{
    let head = head_len(path);
    let whole = without_tail(path, head);
    lemma_without_tail(path, head);
    if whole.len() > head {
        lemma_last_cut(whole, head);
        lemma_without_tail(whole.take(last_cut(whole, head)), head);
    }
}

fn find_cut(path: &[char], head: usize) -> (r: usize)
    requires
        head < path@.len(),
    ensures
        r == last_cut(path@, head as int),
        head <= r < path@.len(),
{
    let mut at: usize = path.len() - 1;
    while at > head && path[at] != '/'
        invariant
            head <= at < path@.len(),
            forall|j: int| at < j < path@.len() ==> path@[j] != '/',
        decreases at,
    {
        at -= 1;
    }
    proof {
        lemma_last_cut_is(path@, head as int, at as int);
    }
    at
}

fn cut_tail(path: &[char], head: usize) -> (r: &[char])
    ensures
        r@ == without_tail(path@, head as int),
    decreases path@.len(),
{
    if path.len() <= head {
        return path;
    }
    let n: usize = path.len();
    let cut = find_cut(path, head);
    let from: usize = if path[cut] == '/' {
        cut + 1
    } else {
        cut
    };
    assert(last_part(path@, head as int) =~= path@.skip(from as int));
    if from == n || (n - from == 1 && path[from] == '.') {
        proof {
            if from < n {
                assert(last_part(path@, head as int) =~= seq!['.']);
            }
        }
        let kept = slice_subrange(path, 0, cut);
        assert(kept@ =~= path@.take(cut as int));
        return cut_tail(kept, head);
    }
    proof {
        if last_part(path@, head as int) == seq!['.'] {
            assert(path@.skip(from as int)[0] == '.');
        }
    }
    path
}

/// The directory that a path lies in, as the start of its own text.
pub fn directory(path: &[char]) -> (r: Option<Vec<char>>)
    ensures
        directory_of(path@) == (match r {
            Some(dir) => Some(dir@),
            None => None,
        }),
{
    let n: usize = path.len();
    let head: usize = if n > 0 && (path[0] == '/' || (path[0] == '.' && (n == 1 || path[1]
        == '/'))) {
        1
    } else {
        0
    };
    let whole = cut_tail(path, head);
    if whole.len() > head {
        let cut = find_cut(whole, head);
        let before = slice_subrange(whole, 0, cut);
        assert(before@ =~= whole@.take(cut as int));
        return Some(copy(cut_tail(before, head)));
    }
    if head == 0 || path[0] == '/' {
        return None;
    }
    let none: Vec<char> = Vec::new();
    assert(none@ =~= Seq::empty());
    Some(none)
}

/// The directory a path lies in, as text: the start of the path's own text, or
/// `.` where it lies in none.
pub open spec fn parent_text_of(path: Seq<char>) -> Seq<char> {
    match directory_of(path) {
        Some(dir) => dir,
        None => seq!['.'],
    }
}

/// The directory a path lies in, as text.
pub fn parent_text(path: &str) -> (r: String)
    ensures
        r@ == parent_text_of(path@),
{
    match directory(to_chars(path).as_slice()) {
        Some(dir) => to_text(dir.as_slice()),
        None => {
            let out = ".".to_string();
            proof {
                reveal_strlit(".");
            }
            assert(out@ =~= seq!['.']);
            out
        },
    }
}

/// A name in a directory lies in that directory, as the directory is told. A
/// bare name lies in the directory that needs no telling, and the root in none.
pub proof fn lemma_lies_in(dir: Seq<char>, name: Seq<char>)
    requires
        is_part(name),
    ensures
        dir.len() > 0 && dir.last() != '/' && !(dir.len() >= 2 && dir.last() == '.' && dir[dir.len()
            - 2] == '/') ==> directory_of(dir + seq!['/'] + name) == Some(dir),
        directory_of(seq!['/'] + name) == Some(seq!['/']),
        directory_of(name) == Some(Seq::<char>::empty()),
        directory_of(seq!['/']) is None,
        directory_of(Seq::empty()) is None,
        directory_of(seq!['.']) == Some(Seq::<char>::empty()),
{
    if dir.len() > 0 && dir.last() != '/' && !(dir.len() >= 2 && dir.last() == '.' && dir[dir.len()
        - 2] == '/') {
        let path = dir + seq!['/'] + name;
        let n = dir.len() as int;
        let head = head_len(path);
        assert(path[0] == dir[0]);
        assert(path[n] == '/');
        if n >= 2 {
            assert(path[1] == dir[1]);
        }
        assert(head == head_len(dir));
        assert forall|j: int| n < j < path.len() implies path[j] != '/' by {
            assert(path[j] == name[j - n - 1]);
            assert(name.contains(name[j - n - 1]));
        }
        lemma_last_cut_is(path, head, n);
        assert(path.skip(n + 1) =~= name);
        assert(without_tail(path, head) == path);
        assert(path.take(n) =~= dir);
        if n > head {
            lemma_last_cut(dir, head);
            let cut = last_cut(dir, head);
            let last = last_part(dir, head);
            assert(last.len() > 0);
            if last == seq!['.'] {
                assert(last[0] == '.');
                assert(dir.last() == '.');
            }
            assert(without_tail(dir, head) == dir);
        }
    }
    let top = seq!['/'] + name;
    assert(name[0] != '/') by {
        assert(name.contains(name[0]));
    }
    assert forall|j: int| 1 < j < top.len() implies top[j] != '/' by {
        assert(top[j] == name[j - 1]);
        assert(name.contains(name[j - 1]));
    }
    assert(top[1] == name[0]);
    lemma_last_cut_is(top, 1, 1);
    assert(top.skip(1) =~= name);
    assert(without_tail(top, 1) == top);
    assert(top.take(1) =~= seq!['/']);
    assert(without_tail(seq!['/'], 1) == seq!['/']);
    let head = head_len(name);
    assert(head == 0) by {
        if head == 1 {
            assert(name[0] == '.');
            if name.len() == 1 {
                assert(name =~= seq!['.']);
            } else {
                assert(name.contains(name[1]));
            }
        }
    }
    assert forall|j: int| 0 < j < name.len() implies name[j] != '/' by {
        assert(name.contains(name[j]));
    }
    lemma_last_cut_is(name, 0, 0);
    assert(name.skip(0) =~= name);
    assert(without_tail(name, 0) == name);
    assert(name.take(0) =~= Seq::empty());
    assert(without_tail(Seq::empty(), 0) =~= Seq::empty());
    assert(without_tail(seq!['/'], 1) =~= seq!['/']);
    assert(without_tail(seq!['.'], 1) =~= seq!['.']);
}

} // verus!
