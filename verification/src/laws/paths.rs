//! What paths are made of and where they lead.

use vstd::prelude::*;

use crate::text::{first_index, lemma_first_index, lemma_first_index_is, split};
use crate::utils::{absolute, base_name, cleaned, names, parts, rooted, slashed, squash, PathView};

verus! {

/// Splitting takes a text apart at every separator: what stands before one and
/// what stands after it are taken apart on their own.
pub proof fn lemma_split(a: Seq<char>, sep: char, b: Seq<char>)
    ensures
        split(a + seq![sep] + b, sep) == split(a, sep) + split(b, sep),
        !a.contains(sep) ==> split(a, sep) == seq![a],
    decreases a.len(),
{
    let s = a + seq![sep] + b;
    let i = first_index(a, sep, 0);
    lemma_first_index(a, sep, 0);
    if !a.contains(sep) {
        lemma_first_index_is(a, sep, 0, a.len() as int);
    }
    if i < a.len() {
        assert(forall|j: int| 0 <= j < a.len() ==> #[trigger] s[j] == a[j]);
        lemma_first_index_is(s, sep, 0, i);
        let rest = a.skip(i + 1);
        assert(s.take(i) =~= a.take(i));
        assert(s.skip(i + 1) =~= rest + seq![sep] + b);
        lemma_split(rest, sep, b);
        assert(seq![a.take(i)] + (split(rest, sep) + split(b, sep)) =~= (seq![a.take(i)] + split(
            rest,
            sep,
        )) + split(b, sep));
    } else {
        assert(s[a.len() as int] == sep);
        assert(forall|j: int| 0 <= j < a.len() ==> #[trigger] s[j] == a[j]);
        lemma_first_index_is(s, sep, 0, a.len() as int);
        assert(s.take(a.len() as int) =~= a);
        assert(s.skip(a.len() as int + 1) =~= b);
    }
}

proof fn lemma_names_add(a: Seq<Seq<char>>, b: Seq<Seq<char>>)
    ensures
        names(a + b) == names(a) + names(b),
    decreases b.len(),
{
    if b.len() > 0 {
        assert((a + b).drop_last() =~= a + b.drop_last());
        assert((a + b).last() == b.last());
        lemma_names_add(a, b.drop_last());
    }
    assert(names(a + b) =~= names(a) + names(b));
}

/// The names in a path are those between its slashes, in order. An empty one
/// and a dot name nothing.
pub proof fn lemma_path_parts(a: Seq<char>, b: Seq<char>)
    ensures
        parts(a + seq!['/'] + b) == parts(a) + parts(b),
        parts(Seq::empty()) == Seq::<Seq<char>>::empty(),
        parts(seq!['.']) == Seq::<Seq<char>>::empty(),
        !a.contains('/') && a.len() > 0 && a != seq!['.'] ==> parts(a) == seq![a],
{
    lemma_split(a, '/', b);
    lemma_names_add(split(a, '/'), split(b, '/'));
    let none = Seq::<char>::empty();
    let dot = seq!['.'];
    lemma_split(none, '/', none);
    lemma_split(dot, '/', none);
    assert(!none.contains('/'));
    assert(!dot.contains('/')) by {
        assert(forall|i: int| 0 <= i < dot.len() ==> dot[i] == '.');
    }
    lemma_one(none);
    lemma_one(dot);
    lemma_one(a);
}

proof fn lemma_one(a: Seq<char>)
    ensures
        names(seq![a]) == if a.len() == 0 || a == seq!['.'] {
            Seq::<Seq<char>>::empty()
        } else {
            seq![a]
        },
{
    let one = seq![a];
    assert(one.drop_last() =~= Seq::empty());
    assert(names(one.drop_last()) =~= Seq::empty());
    assert(names(one) =~= if a.len() == 0 || a == seq!['.'] {
        Seq::<Seq<char>>::empty()
    } else {
        seq![a]
    });
}

/// Two dots take back the name before them. Where there is none they stay, but
/// for the root, which has nothing above it.
pub proof fn lemma_two_dots(list: Seq<Seq<char>>, name: Seq<char>, at_root: bool)
    requires
        name != seq!['.', '.'],
    ensures
        squash(Seq::empty(), at_root) == Seq::<Seq<char>>::empty(),
        squash(list.push(name), at_root) == squash(list, at_root).push(name),
        squash(list.push(name).push(seq!['.', '.']), at_root) == squash(list, at_root),
        squash(list, at_root).len() == 0 ==> squash(list.push(seq!['.', '.']), at_root) == if at_root {
            Seq::<Seq<char>>::empty()
        } else {
            seq![seq!['.', '.']]
        },
        squash(list, at_root).len() > 0 && squash(list, at_root).last() == seq!['.', '.'] && !at_root
            ==> squash(list.push(seq!['.', '.']), at_root) == squash(list, at_root).push(
            seq!['.', '.'],
        ),
{
    let one = list.push(name);
    let two = one.push(seq!['.', '.']);
    let up = list.push(seq!['.', '.']);
    assert(one.drop_last() =~= list);
    assert(two.drop_last() =~= one);
    assert(up.drop_last() =~= list);
    let kept = squash(list, at_root);
    assert(one.last() == name);
    assert(squash(one, at_root) == kept.push(name));
    assert(two.last() == seq!['.', '.']);
    assert(kept.push(name).last() == name);
    assert(squash(two, at_root) == kept.push(name).drop_last());
    assert(kept.push(name).drop_last() =~= kept);
    assert(up.last() == seq!['.', '.']);
    if squash(list, at_root).len() == 0 {
        assert(squash(up, at_root) =~= if at_root {
            Seq::<Seq<char>>::empty()
        } else {
            seq![seq!['.', '.']]
        });
    }
}

/// A path from the root leads where it says; any other leads on from the
/// working directory.
pub proof fn lemma_leads(cwd: Seq<char>, path: Seq<char>)
    ensures
        path.len() > 0 && path[0] == '/' ==> absolute(cwd, path) == (PathView {
            rooted: true,
            parts: squash(parts(path), true),
        }),
        path.len() == 0 || path[0] != '/' ==> absolute(cwd, path) == (PathView {
            rooted: cwd.len() > 0 && cwd[0] == '/',
            parts: squash(parts(cwd) + parts(path), cwd.len() > 0 && cwd[0] == '/'),
        }),
        cleaned(path) == (PathView {
            rooted: path.len() > 0 && path[0] == '/',
            parts: squash(parts(path), path.len() > 0 && path[0] == '/'),
        }),
{
}

/// A file's name is the last name in its path.
pub proof fn lemma_file_name(dir: Seq<char>, name: Seq<char>)
    requires
        !name.contains('/') && name.len() > 0 && name != seq!['.'] && name != seq!['.', '.'],
    ensures
        base_name(name) == Some(name),
        base_name(dir + seq!['/'] + name) == Some(name),
        base_name(dir + seq!['/'] + name + seq!['/']) == Some(name),
{
    let none = Seq::<char>::empty();
    lemma_path_parts(name, none);
    lemma_path_parts(dir, name);
    lemma_path_parts(dir + seq!['/'] + name, none);
    assert(dir + seq!['/'] + name + seq!['/'] + none =~= dir + seq!['/'] + name + seq!['/']);
    assert(parts(dir) + seq![name] + Seq::<Seq<char>>::empty() =~= parts(dir) + seq![name]);
    assert((parts(dir) + seq![name]).last() == name);
}

/// A backslash counts as a slash in a report, and nothing else changes.
pub proof fn lemma_slashes(path: Seq<char>, i: int)
    requires
        0 <= i < path.len(),
    ensures
        slashed(path).len() == path.len(),
        path[i] == '\\' ==> slashed(path)[i] == '/',
        path[i] != '\\' ==> slashed(path)[i] == path[i],
{
}

} // verus!
