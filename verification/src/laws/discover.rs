//! Which files a walk finds: every one that it should, and no other.

use vstd::prelude::*;

use crate::discover::{
    argued, arranged, collected, distinct, exclude_fault, found, glob_fault, glob_match, joined,
    kind_of, lemma_found, lowercase, names_of, place_of, report_paths, seen, walked, ArgumentView,
    EntryView, Found, ItemView, Kind, Place, TargetView,
};
use crate::order::{at_most, lemma_order, order_of};
use crate::text::debug_text;
use crate::utils::{base_name, parent_text_of, parts, rooted, slashed};

verus! {

/// The directories that hold dependencies and build output.
pub open spec fn build_names() -> Set<Seq<char>> {
    set![
        ".git"@,
        ".next"@,
        ".venv"@,
        "build"@,
        "dist"@,
        "node_modules"@,
        "target"@,
        "vendor"@,
    ]
}

/// Whether no exclude matches an entry, by its name or by its path.
pub open spec fn is_allowed(excludes: Seq<Seq<char>>, name: Seq<char>, rel: Seq<char>) -> bool {
    forall|e: Seq<char>| #[trigger]
        excludes.contains(e) ==> !glob_match(e, name) && !glob_match(e, slashed(rel))
}

/// Whether a walk goes into a directory.
pub open spec fn is_entered(excludes: Seq<Seq<char>>, name: Seq<char>, rel: Seq<char>) -> bool {
    !build_names().contains(name) && is_allowed(excludes, name, rel)
}

/// The path that `names` lead to from `dir`, one below the other.
pub open spec fn down(dir: Seq<char>, names: Seq<Seq<char>>) -> Seq<char>
    decreases names.len(),
{
    if names.len() == 0 {
        dir
    } else {
        down(joined(dir, names[0]), names.skip(1))
    }
}

/// Whether `names` lead to `item`, one below the other, through directories
/// that a walk goes into.
pub open spec fn comes_to(
    entries: Seq<EntryView>,
    names: Seq<Seq<char>>,
    rel: Seq<char>,
    excludes: Seq<Seq<char>>,
    item: ItemView,
) -> bool
    decreases names.len(),
{
    names.len() > 0 && exists|i: int|
        0 <= i < entries.len() && (#[trigger] entries[i]).name == names[0] && if names.len() == 1 {
            entries[i].item == item
        } else {
            entries[i].item is Directory && is_entered(excludes, names[0], joined(rel, names[0]))
                && comes_to(
                entries[i].item->Directory_0,
                names.skip(1),
                joined(rel, names[0]),
                excludes,
                item,
            )
        }
}

/// The entry `name` in a directory is behind the directory's path and one
/// slash.
pub proof fn lemma_joined(dir: Seq<char>, name: Seq<char>)
    ensures
        dir.len() == 0 ==> joined(dir, name) == name,
        dir.len() > 0 && dir[dir.len() - 1] == '/' ==> joined(dir, name) == dir + name,
        dir.len() > 0 && dir[dir.len() - 1] != '/' ==> joined(dir, name) == dir + seq!['/'] + name,
{
    reveal_strlit("/");
    assert("/"@ =~= seq!['/']);
    if dir.len() == 0 {
        assert(joined(dir, name) =~= name);
    }
}

/// A file is an AGENTS.md or a SKILL.md by its name in lower case, and of no
/// other kind.
pub proof fn lemma_kinds(path: Seq<char>)
    ensures
        kind_of(path) == Some(Kind::Agents) <==> (base_name(path) matches Some(name) && lowercase(name)
            == "agents.md"@),
        kind_of(path) == Some(Kind::Skill) <==> (base_name(path) matches Some(name) && lowercase(name)
            == "skill.md"@),
{
    reveal_strlit("agents.md");
    reveal_strlit("skill.md");
    assert("agents.md"@.len() != "skill.md"@.len());
}

proof fn lemma_allowed(excludes: Seq<Seq<char>>, name: Seq<char>, rel: Seq<char>)
    ensures
        crate::discover::excluded(excludes, name, slashed(rel)) <==> !is_allowed(excludes, name, rel),
{
    if crate::discover::excluded(excludes, name, slashed(rel)) {
        let i = choose|i: int|
            0 <= i < excludes.len() && (glob_match(#[trigger] excludes[i], name) || glob_match(
                excludes[i],
                slashed(rel),
            ));
        assert(excludes.contains(excludes[i]));
    }
    if !is_allowed(excludes, name, rel) {
        let e = choose|e: Seq<char>| #[trigger]
            excludes.contains(e) && (glob_match(e, name) || glob_match(e, slashed(rel)));
        let i = excludes.index_of(e);
        assert(glob_match(excludes[i], name) || glob_match(excludes[i], slashed(rel)));
    }
}

/// A walk goes into every directory but those of build output and those that
/// are excluded.
pub proof fn lemma_entered(excludes: Seq<Seq<char>>, name: Seq<char>, rel: Seq<char>)
    ensures
        crate::discover::is_pruned(excludes, name, rel) <==> !is_entered(excludes, name, rel),
{
    lemma_allowed(excludes, name, rel);
}

proof fn lemma_walked_prefix(
    entries: Seq<EntryView>,
    k: int,
    n: int,
    at: Place,
    excludes: Seq<Seq<char>>,
)
    requires
        0 <= k <= n <= entries.len(),
        walked(entries, n, at, excludes) is Ok,
    ensures
        walked(entries, k, at, excludes) is Ok,
        forall|f: Found| #[trigger]
            walked(entries, k, at, excludes)->Ok_0.contains(f) ==> walked(
                entries,
                n,
                at,
                excludes,
            )->Ok_0.contains(f),
    decreases n - k,
{
    if k < n {
        lemma_walked_prefix(entries, k, n - 1, at, excludes);
        let before = walked(entries, n - 1, at, excludes)->Ok_0;
        let now = walked(entries, n, at, excludes)->Ok_0;
        assert forall|f: Found| #[trigger]
            walked(entries, k, at, excludes)->Ok_0.contains(f) implies now.contains(f) by {
            let i = before.index_of(f);
            assert(before.contains(f));
            assert(now[i] == f);
        }
    }
}

/// Where an entry stands in the order of the walk.
proof fn lemma_turn(entries: Seq<EntryView>, i: int) -> (k: int)
    requires
        0 <= i < entries.len(),
    ensures
        1 <= k <= entries.len(),
        order_of(names_of(entries), entries.len() as int)[k - 1] == i,
{
    let order = order_of(names_of(entries), entries.len() as int);
    lemma_order(names_of(entries), entries.len() as int);
    assert(order.contains(i));
    order.index_of(i) + 1
}

/// A walk that ends well has found every file of a known kind that it can come
/// to and that is not excluded.
pub proof fn lemma_walk_is_complete(
    entries: Seq<EntryView>,
    at: Place,
    excludes: Seq<Seq<char>>,
    names: Seq<Seq<char>>,
    kind: Kind,
)
    requires
        walked(entries, entries.len() as int, at, excludes) is Ok,
        comes_to(entries, names, at.rel, excludes, ItemView::File),
        is_allowed(excludes, names.last(), down(at.rel, names)),
        kind_of(down(at.dir, names)) == Some(kind),
    ensures
        walked(entries, entries.len() as int, at, excludes)->Ok_0.contains(
            (Found { path: down(at.dir, names), kind, root: at.root }),
        ),
    decreases names.len(),
{
    let n = entries.len() as int;
    let f = Found { path: down(at.dir, names), kind, root: at.root };
    let rel = joined(at.rel, names[0]);
    let i = choose|i: int|
        0 <= i < entries.len() && (#[trigger] entries[i]).name == names[0] && if names.len() == 1 {
            entries[i].item == ItemView::File
        } else {
            entries[i].item is Directory && is_entered(excludes, names[0], rel) && comes_to(
                entries[i].item->Directory_0,
                names.skip(1),
                rel,
                excludes,
                ItemView::File,
            )
        };
    let k = lemma_turn(entries, i);
    lemma_walked_prefix(entries, k, n, at, excludes);
    lemma_walked_prefix(entries, k - 1, k, at, excludes);
    let before = walked(entries, k - 1, at, excludes)->Ok_0;
    let now = walked(entries, k, at, excludes)->Ok_0;
    if names.len() == 1 {
        reveal_with_fuel(down, 2);
        lemma_allowed(excludes, names[0], rel);
        assert(now == before.push(f));
        assert(now[before.len() as int] == f);
    } else {
        let inner = entries[i].item->Directory_0;
        let next = Place { root: at.root, dir: joined(at.dir, names[0]), rel };
        lemma_entered(excludes, names[0], rel);
        assert(names.skip(1).last() == names.last());
        lemma_walk_is_complete(inner, next, excludes, names.skip(1), kind);
        let more = walked(inner, inner.len() as int, next, excludes)->Ok_0;
        let j = more.index_of(f);
        assert(now == before + more);
        assert(now[before.len() + j] == f);
    }
    assert(now.contains(f));
}

/// A walk finds nothing else.
pub proof fn lemma_walk_is_sound(
    entries: Seq<EntryView>,
    k: int,
    at: Place,
    excludes: Seq<Seq<char>>,
    f: Found,
)
    requires
        walked(entries, k, at, excludes) is Ok,
        walked(entries, k, at, excludes)->Ok_0.contains(f),
    ensures
        f.root == at.root,
        kind_of(f.path) == Some(f.kind),
        exists|names: Seq<Seq<char>>| #[trigger]
            comes_to(entries, names, at.rel, excludes, ItemView::File) && is_allowed(
                excludes,
                names.last(),
                down(at.rel, names),
            ) && f.path == down(at.dir, names),
    decreases entries, k,
{
    let order = order_of(names_of(entries), entries.len() as int);
    lemma_order(names_of(entries), entries.len() as int);
    assert(0 <= order_of(names_of(entries), entries.len() as int)[k - 1] < entries.len());
    let entry = entries[order[k - 1]];
    let before = walked(entries, k - 1, at, excludes)->Ok_0;
    let now = walked(entries, k, at, excludes)->Ok_0;
    let here = joined(at.dir, entry.name);
    let rel = joined(at.rel, entry.name);
    let x = now.index_of(f);
    if x < before.len() {
        assert(before[x] == f);
        lemma_walk_is_sound(entries, k - 1, at, excludes, f);
    } else {
        match entry.item {
            ItemView::Directory(inner) => {
                let next = Place { root: at.root, dir: here, rel };
                assert(decreases_to!(entries => entries[order[k - 1]]));
                assert(decreases_to!(entries[order[k - 1]] => entries[order[k - 1]].item));
                assert(decreases_to!(
                    entries[order[k - 1]].item => entries[order[k - 1]].item->Directory_0
                ));
                let more = walked(inner, inner.len() as int, next, excludes)->Ok_0;
                assert(more[x - before.len()] == f);
                lemma_walk_is_sound(inner, inner.len() as int, next, excludes, f);
                let rest = choose|names: Seq<Seq<char>>| #[trigger]
                    comes_to(inner, names, rel, excludes, ItemView::File) && is_allowed(
                        excludes,
                        names.last(),
                        down(rel, names),
                    ) && f.path == down(here, names);
                let names = seq![entry.name] + rest;
                assert(names.skip(1) =~= rest);
                assert(names.last() == rest.last());
                lemma_entered(excludes, entry.name, rel);
                assert(comes_to(entries, names, at.rel, excludes, ItemView::File));
            },
            _ => {
                let names = seq![entry.name];
                reveal_with_fuel(down, 2);
                lemma_allowed(excludes, entry.name, rel);
                assert(entries[order[k - 1]].name == names[0]);
                assert(comes_to(entries, names, at.rel, excludes, ItemView::File));
            },
        }
    }
}

/// Whether a walk comes to what cannot be read: an entry, or a directory that
/// it goes into.
pub open spec fn meets_fault(
    entries: Seq<EntryView>,
    names: Seq<Seq<char>>,
    rel: Seq<char>,
    excludes: Seq<Seq<char>>,
    reason: Seq<char>,
) -> bool {
    ||| comes_to(entries, names, rel, excludes, ItemView::Unreadable(reason))
    ||| comes_to(entries, names, rel, excludes, ItemView::Closed(reason)) && is_entered(
        excludes,
        names.last(),
        down(rel, names),
    )
}

proof fn lemma_fault_stops(
    entries: Seq<EntryView>,
    at: Place,
    excludes: Seq<Seq<char>>,
    names: Seq<Seq<char>>,
    reason: Seq<char>,
)
    requires
        meets_fault(entries, names, at.rel, excludes, reason),
    ensures
        walked(entries, entries.len() as int, at, excludes) is Err,
    decreases names.len(),
{
    let n = entries.len() as int;
    if walked(entries, n, at, excludes) is Ok {
        let item = if comes_to(entries, names, at.rel, excludes, ItemView::Unreadable(reason)) {
            ItemView::Unreadable(reason)
        } else {
            ItemView::Closed(reason)
        };
        let rel = joined(at.rel, names[0]);
        let i = choose|i: int|
            0 <= i < entries.len() && (#[trigger] entries[i]).name == names[0] && if names.len()
                == 1 {
                entries[i].item == item
            } else {
                entries[i].item is Directory && is_entered(excludes, names[0], rel) && comes_to(
                    entries[i].item->Directory_0,
                    names.skip(1),
                    rel,
                    excludes,
                    item,
                )
            };
        let k = lemma_turn(entries, i);
        lemma_walked_prefix(entries, k, n, at, excludes);
        lemma_walked_prefix(entries, k - 1, k, at, excludes);
        lemma_entered(excludes, names[0], rel);
        if names.len() == 1 {
            reveal_with_fuel(down, 2);
        } else {
            let next = Place { root: at.root, dir: joined(at.dir, names[0]), rel };
            assert(names.skip(1).last() == names.last());
            lemma_fault_stops(entries[i].item->Directory_0, next, excludes, names.skip(1), reason);
        }
    }
}

proof fn lemma_stop_has_fault(entries: Seq<EntryView>, k: int, at: Place, excludes: Seq<Seq<char>>)
    requires
        walked(entries, k, at, excludes) is Err,
    ensures
        exists|names: Seq<Seq<char>>, reason: Seq<char>| #[trigger]
            meets_fault(entries, names, at.rel, excludes, reason) && walked(
                entries,
                k,
                at,
                excludes,
            )->Err_0 == "cannot read "@ + down(at.dir, names) + ": "@ + reason,
    decreases entries, k,
{
    let order = order_of(names_of(entries), entries.len() as int);
    lemma_order(names_of(entries), entries.len() as int);
    assert(0 <= order_of(names_of(entries), entries.len() as int)[k - 1] < entries.len());
    let entry = entries[order[k - 1]];
    let here = joined(at.dir, entry.name);
    let rel = joined(at.rel, entry.name);
    if walked(entries, k - 1, at, excludes) is Err {
        lemma_stop_has_fault(entries, k - 1, at, excludes);
    } else {
        lemma_entered(excludes, entry.name, rel);
        match entry.item {
            ItemView::Directory(inner) => {
                let next = Place { root: at.root, dir: here, rel };
                assert(decreases_to!(entries => entries[order[k - 1]]));
                assert(decreases_to!(entries[order[k - 1]] => entries[order[k - 1]].item));
                assert(decreases_to!(
                    entries[order[k - 1]].item => entries[order[k - 1]].item->Directory_0
                ));
                lemma_stop_has_fault(inner, inner.len() as int, next, excludes);
                let (rest, reason) = choose|names: Seq<Seq<char>>, reason: Seq<char>| #[trigger]
                    meets_fault(inner, names, rel, excludes, reason) && walked(
                        inner,
                        inner.len() as int,
                        next,
                        excludes,
                    )->Err_0 == "cannot read "@ + down(here, names) + ": "@ + reason;
                let names = seq![entry.name] + rest;
                assert(names.skip(1) =~= rest);
                assert(names.last() == rest.last());
                assert(meets_fault(entries, names, at.rel, excludes, reason));
            },
            ItemView::Unreadable(reason) => {
                let names = seq![entry.name];
                reveal_with_fuel(down, 2);
                assert(entries[order[k - 1]].name == names[0]);
                assert(meets_fault(entries, names, at.rel, excludes, reason));
            },
            ItemView::Closed(reason) => {
                let names = seq![entry.name];
                reveal_with_fuel(down, 2);
                assert(entries[order[k - 1]].name == names[0]);
                assert(meets_fault(entries, names, at.rel, excludes, reason));
            },
            _ => {},
        }
    }
}

/// A walk fails exactly where it comes to what cannot be read, and says what
/// it was.
pub proof fn lemma_walk_fails(entries: Seq<EntryView>, at: Place, excludes: Seq<Seq<char>>)
    ensures
        walked(entries, entries.len() as int, at, excludes) is Err <==> exists|
            names: Seq<Seq<char>>,
            reason: Seq<char>,
        | #[trigger]
            meets_fault(entries, names, at.rel, excludes, reason),
        walked(entries, entries.len() as int, at, excludes) matches Err(m) ==> exists|
            names: Seq<Seq<char>>,
            reason: Seq<char>,
        | #[trigger]
            meets_fault(entries, names, at.rel, excludes, reason) && m == "cannot read "@ + down(
                at.dir,
                names,
            ) + ": "@ + reason,
{
    if walked(entries, entries.len() as int, at, excludes) is Err {
        lemma_stop_has_fault(entries, entries.len() as int, at, excludes);
    }
    if exists|names: Seq<Seq<char>>, reason: Seq<char>| #[trigger]
        meets_fault(entries, names, at.rel, excludes, reason) {
        let (names, reason) = choose|names: Seq<Seq<char>>, reason: Seq<char>| #[trigger]
            meets_fault(entries, names, at.rel, excludes, reason);
        lemma_fault_stops(entries, at, excludes, names, reason);
    }
}

/// What an argument stands for: a file for itself, whatever the excludes, and a
/// directory for what a walk of it finds.
pub proof fn lemma_argument(arg: ArgumentView, excludes: Seq<Seq<char>>, f: Found)
    ensures
        arg.item is File && kind_of(arg.path) == Some(f.kind) ==> argued(arg, excludes) == Ok::<
            Seq<Found>,
            Seq<char>,
        >(seq![Found { path: arg.path, kind: f.kind, root: parent_text_of(arg.path) }]),
        arg.item is File && kind_of(arg.path) is None ==> argued(arg, excludes) == Err::<
            Seq<Found>,
            Seq<char>,
        >(arg.path + " is not an AGENTS.md or SKILL.md"@),
        arg.item matches ItemView::Unreadable(reason) ==> argued(arg, excludes) == Err::<
            Seq<Found>,
            Seq<char>,
        >("cannot read "@ + arg.path + ": "@ + reason),
        arg.item matches ItemView::Closed(reason) ==> argued(arg, excludes) == Err::<
            Seq<Found>,
            Seq<char>,
        >("cannot read "@ + arg.path + ": "@ + reason),
        arg.item matches ItemView::Directory(entries) ==> argued(arg, excludes) == walked(
            entries,
            entries.len() as int,
            (Place { root: arg.path, dir: arg.path, rel: Seq::empty() }),
            excludes,
        ),
{
}

/// What the arguments stand for is what each of them stands for.
pub proof fn lemma_arguments(args: Seq<ArgumentView>, excludes: Seq<Seq<char>>)
    ensures
        collected(args, excludes) is Ok <==> forall|i: int|
            0 <= i < args.len() ==> argued(#[trigger] args[i], excludes) is Ok,
        collected(args, excludes) matches Ok(list) ==> forall|f: Found| #[trigger]
            list.contains(f) <==> exists|i: int|
                0 <= i < args.len() && argued(#[trigger] args[i], excludes)->Ok_0.contains(f),
    decreases args.len(),
{
    if args.len() > 0 {
        let init = args.drop_last();
        lemma_arguments(init, excludes);
        let n = args.len() - 1;
        assert(args[n] == args.last());
        assert(forall|i: int| 0 <= i < n ==> #[trigger] init[i] == args[i]);
        if collected(args, excludes) is Ok {
            let before = collected(init, excludes)->Ok_0;
            let more = argued(args.last(), excludes)->Ok_0;
            let list = collected(args, excludes)->Ok_0;
            assert forall|i: int| 0 <= i < args.len() implies argued(
                #[trigger] args[i],
                excludes,
            ) is Ok by {
                if i < n {
                    assert(argued(init[i], excludes) is Ok);
                }
            }
            assert forall|f: Found| #[trigger] list.contains(f) <==> exists|i: int|
                0 <= i < args.len() && argued(#[trigger] args[i], excludes)->Ok_0.contains(f) by {
                if list.contains(f) {
                    let x = list.index_of(f);
                    if x < before.len() {
                        assert(before[x] == f);
                        assert(before.contains(f));
                        let i = choose|i: int|
                            0 <= i < init.len() && argued(
                                #[trigger] init[i],
                                excludes,
                            )->Ok_0.contains(f);
                        assert(argued(args[i], excludes)->Ok_0.contains(f));
                    } else {
                        assert(more[x - before.len()] == f);
                        assert(argued(args[n], excludes)->Ok_0.contains(f));
                    }
                }
                if exists|i: int|
                    0 <= i < args.len() && argued(#[trigger] args[i], excludes)->Ok_0.contains(f) {
                    let i = choose|i: int|
                        0 <= i < args.len() && argued(#[trigger] args[i], excludes)->Ok_0.contains(f);
                    if i < n {
                        assert(argued(init[i], excludes)->Ok_0.contains(f));
                        assert(before.contains(f));
                        let x = before.index_of(f);
                        assert(list[x] == f);
                    } else {
                        let x = more.index_of(f);
                        assert(list[before.len() + x] == f);
                    }
                }
            }
        } else if collected(init, excludes) is Ok {
            assert(argued(args[n], excludes) is Err);
        } else {
            let i = choose|i: int| 0 <= i < init.len() && !(argued(#[trigger] init[i], excludes) is Ok);
            assert(argued(args[i], excludes) is Err);
        }
    }
}

proof fn lemma_kept(cwd: Seq<char>, list: Seq<Found>)
    ensures
        forall|f: Found| #[trigger] list.contains(f) ==> seen(cwd, distinct(cwd, list), f.path),
        forall|f: Found| #[trigger] distinct(cwd, list).contains(f) ==> list.contains(f),
    decreases list.len(),
{
    if list.len() > 0 {
        let init = list.drop_last();
        lemma_kept(cwd, init);
        let before = distinct(cwd, init);
        let now = distinct(cwd, list);
        assert forall|f: Found| #[trigger] list.contains(f) implies seen(cwd, now, f.path) by {
            let x = list.index_of(f);
            if x < init.len() {
                assert(init[x] == f);
                assert(init.contains(f));
                let i = choose|i: int|
                    0 <= i < before.len() && place_of(cwd, (#[trigger] before[i]).path) == place_of(
                        cwd,
                        f.path,
                    );
                assert(now[i] == before[i]);
            } else if !seen(cwd, before, f.path) {
                assert(now[before.len() as int] == f);
            }
        }
        assert forall|f: Found| #[trigger] now.contains(f) implies list.contains(f) by {
            let x = now.index_of(f);
            if x < before.len() {
                assert(before[x] == f);
                assert(before.contains(f));
                let y = init.index_of(f);
                assert(list[y] == f);
            } else {
                assert(list[list.len() - 1] == f);
            }
        }
    }
}

/// Whether a target stands for a file that was found.
pub open spec fn stands_for(t: TargetView, f: Found) -> bool {
    t.path == slashed(f.path) && t.kind == f.kind && t.root == f.root
}

/// Whether a file is among the targets, by the path of `list` that its place
/// was found at.
pub open spec fn is_among(
    targets: Seq<TargetView>,
    list: Seq<Found>,
    cwd: Seq<char>,
    path: Seq<char>,
) -> bool {
    exists|i: int, g: Found|
        0 <= i < targets.len() && #[trigger] stands_for(targets[i], g) && list.contains(g)
            && place_of(cwd, g.path) == place_of(cwd, path)
}

/// Every file that the arguments stand for is among the targets, by the path
/// that it was first found at.
pub proof fn lemma_all_are_targets(
    args: Seq<ArgumentView>,
    excludes: Seq<Seq<char>>,
    cwd: Seq<char>,
    f: Found,
)
    requires
        found(args, excludes, cwd) is Ok,
        collected(args, excludes)->Ok_0.contains(f),
    ensures
        is_among(
            found(args, excludes, cwd)->Ok_0,
            collected(args, excludes)->Ok_0,
            cwd,
            f.path,
        ),
{
    let list = collected(args, excludes)->Ok_0;
    let kept = distinct(cwd, list);
    let order = order_of(report_paths(kept), kept.len() as int);
    let out = found(args, excludes, cwd)->Ok_0;
    lemma_kept(cwd, list);
    assert(seen(cwd, kept, f.path));
    let j = choose|j: int|
        0 <= j < kept.len() && place_of(cwd, (#[trigger] kept[j]).path) == place_of(cwd, f.path);
    assert(kept.contains(kept[j]));
    let i = lemma_place(report_paths(kept), j);
    assert(out == arranged(kept));
    assert(stands_for(out[i], kept[j]));
}

/// Where a key stands in the order of the keys.
proof fn lemma_place(keys: Seq<Seq<char>>, j: int) -> (i: int)
    requires
        0 <= j < keys.len(),
    ensures
        0 <= i < keys.len(),
        order_of(keys, keys.len() as int)[i] == j,
{
    lemma_order(keys, keys.len() as int);
    assert(order_of(keys, keys.len() as int).contains(j));
    order_of(keys, keys.len() as int).index_of(j)
}

/// Whether the file at `x` is the first at its place.
pub open spec fn is_first(list: Seq<Found>, cwd: Seq<char>, x: int) -> bool {
    0 <= x < list.len() && forall|y: int|
        0 <= y < x ==> place_of(cwd, (#[trigger] list[y]).path) != place_of(cwd, list[x].path)
}

proof fn lemma_kept_first(cwd: Seq<char>, list: Seq<Found>, i: int) -> (x: int)
    requires
        0 <= i < distinct(cwd, list).len(),
    ensures
        is_first(list, cwd, x),
        distinct(cwd, list)[i] == list[x],
    decreases list.len(),
{
    let init = list.drop_last();
    let before = distinct(cwd, init);
    let n = init.len() as int;
    assert(forall|y: int| 0 <= y < n ==> #[trigger] init[y] == list[y]);
    if i < before.len() {
        let x = lemma_kept_first(cwd, init, i);
        assert(distinct(cwd, list)[i] == before[i]);
        assert forall|y: int| 0 <= y < x implies place_of(cwd, (#[trigger] list[y]).path) != place_of(
            cwd,
            list[x].path,
        ) by {
            assert(place_of(cwd, init[y].path) != place_of(cwd, init[x].path));
        }
        x
    } else {
        lemma_kept(cwd, init);
        assert forall|y: int| 0 <= y < n implies place_of(cwd, (#[trigger] list[y]).path) != place_of(
            cwd,
            list[n].path,
        ) by {
            assert(init.contains(init[y]));
            assert(seen(cwd, before, init[y].path));
            if place_of(cwd, list[y].path) == place_of(cwd, list[n].path) {
                let j = choose|j: int|
                    0 <= j < before.len() && place_of(cwd, (#[trigger] before[j]).path) == place_of(
                        cwd,
                        init[y].path,
                    );
                assert(place_of(cwd, before[j].path) == place_of(cwd, list.last().path));
                assert(seen(cwd, before, list.last().path));
            }
        }
        n
    }
}

/// Every target is a file that the arguments stand for, as it was found first.
pub proof fn lemma_no_other_targets(
    args: Seq<ArgumentView>,
    excludes: Seq<Seq<char>>,
    cwd: Seq<char>,
    i: int,
)
    requires
        found(args, excludes, cwd) is Ok,
        0 <= i < found(args, excludes, cwd)->Ok_0.len(),
    ensures
        exists|x: int| #[trigger]
            is_first(collected(args, excludes)->Ok_0, cwd, x) && stands_for(
                found(args, excludes, cwd)->Ok_0[i],
                collected(args, excludes)->Ok_0[x],
            ),
{
    let list = collected(args, excludes)->Ok_0;
    let kept = distinct(cwd, list);
    let order = order_of(report_paths(kept), kept.len() as int);
    lemma_order(report_paths(kept), kept.len() as int);
    assert(0 <= order_of(report_paths(kept), kept.len() as int)[i] < kept.len());
    let x = lemma_kept_first(cwd, list, order[i]);
    assert(stands_for(found(args, excludes, cwd)->Ok_0[i], list[x]));
}

/// Every file of a known kind below a directory argument is among the targets,
/// where nothing on the way to it is excluded or holds build output.
pub proof fn lemma_nothing_is_missed(
    args: Seq<ArgumentView>,
    excludes: Seq<Seq<char>>,
    cwd: Seq<char>,
    n: int,
    names: Seq<Seq<char>>,
    kind: Kind,
)
    requires
        found(args, excludes, cwd) is Ok,
        0 <= n < args.len(),
        args[n].item is Directory,
        comes_to(args[n].item->Directory_0, names, Seq::empty(), excludes, ItemView::File),
        is_allowed(excludes, names.last(), down(Seq::empty(), names)),
        kind_of(down(args[n].path, names)) == Some(kind),
    ensures
        is_among(
            found(args, excludes, cwd)->Ok_0,
            collected(args, excludes)->Ok_0,
            cwd,
            down(args[n].path, names),
        ),
{
    let arg = args[n];
    let f = Found { path: down(arg.path, names), kind, root: arg.path };
    let at = Place { root: arg.path, dir: arg.path, rel: Seq::empty() };
    lemma_arguments(args, excludes);
    assert(argued(args[n], excludes) is Ok);
    lemma_walk_is_complete(arg.item->Directory_0, at, excludes, names, kind);
    assert(argued(args[n], excludes)->Ok_0.contains(f));
    assert(collected(args, excludes)->Ok_0.contains(f));
    lemma_all_are_targets(args, excludes, cwd, f);
}

/// Paths come in the order of their characters: at the first place where two
/// of them differ, or the shorter first.
pub proof fn lemma_path_order(a: Seq<char>, b: Seq<char>, i: int)
    requires
        0 <= i <= a.len(),
        i <= b.len(),
        forall|j: int| 0 <= j < i ==> a[j] == b[j],
        i < a.len() && i < b.len() ==> a[i] != b[i],
    ensures
        i == a.len() ==> at_most(a, b),
        i < a.len() && i == b.len() ==> !at_most(a, b),
        i < a.len() && i < b.len() ==> (at_most(a, b) <==> a[i] < b[i]),
    decreases i,
{
    if i > 0 {
        assert forall|j: int| 0 <= j < i - 1 implies a.skip(1)[j] == b.skip(1)[j] by {
            assert(a[j + 1] == b[j + 1]);
        }
        lemma_path_order(a.skip(1), b.skip(1), i - 1);
    }
}

/// The excludes are patterns, or the first that is none is told. It is told
/// before anything is looked at.
pub proof fn lemma_excludes(excludes: Seq<Seq<char>>, i: int, args: Seq<ArgumentView>, cwd: Seq<char>)
    requires
        0 <= i <= excludes.len(),
        forall|j: int| 0 <= j < i ==> glob_fault(#[trigger] excludes[j]) is None,
        i < excludes.len() ==> glob_fault(excludes[i]) is Some,
    ensures
        i == excludes.len() ==> exclude_fault(excludes) is None,
        i < excludes.len() ==> found(args, excludes, cwd) == Err::<Seq<TargetView>, Seq<char>>(
            "invalid exclude pattern "@ + debug_text(excludes[i]) + ": "@ + glob_fault(
                excludes[i],
            )->Some_0,
        ),
        i == excludes.len() ==> (found(args, excludes, cwd) is Ok <==> collected(args, excludes) is Ok),
        i == excludes.len() ==> (collected(args, excludes) matches Err(m) ==> found(
            args,
            excludes,
            cwd,
        ) == Err::<Seq<TargetView>, Seq<char>>(m)),
{
    lemma_exclude_fault(excludes, i);
}

proof fn lemma_exclude_fault(excludes: Seq<Seq<char>>, i: int)
    requires
        0 <= i <= excludes.len(),
        forall|j: int| 0 <= j < i ==> glob_fault(#[trigger] excludes[j]) is None,
        i < excludes.len() ==> glob_fault(excludes[i]) is Some,
    ensures
        i == excludes.len() ==> exclude_fault(excludes) is None,
        i < excludes.len() ==> exclude_fault(excludes) == Some(
            "invalid exclude pattern "@ + debug_text(excludes[i]) + ": "@ + glob_fault(
                excludes[i],
            )->Some_0,
        ),
    decreases excludes.len(),
{
    if excludes.len() > 0 {
        let init = excludes.drop_last();
        let n = init.len() as int;
        assert(forall|j: int| 0 <= j < n ==> #[trigger] init[j] == excludes[j]);
        assert(excludes.last() == excludes[n]);
        lemma_exclude_fault(
            init,
            if i < n {
                i
            } else {
                n
            },
        );
    }
}

/// The first argument that cannot be used is the one that is told of.
pub proof fn lemma_first_argument(args: Seq<ArgumentView>, excludes: Seq<Seq<char>>, i: int)
    requires
        0 <= i < args.len(),
        forall|j: int| 0 <= j < i ==> argued(#[trigger] args[j], excludes) is Ok,
        argued(args[i], excludes) is Err,
    ensures
        collected(args, excludes) == Err::<Seq<Found>, Seq<char>>(argued(args[i], excludes)->Err_0),
    decreases args.len(),
{
    let init = args.drop_last();
    let n = init.len() as int;
    assert(forall|j: int| 0 <= j < n ==> #[trigger] init[j] == args[j]);
    assert(args.last() == args[n]);
    if i < n {
        lemma_first_argument(init, excludes, i);
    } else {
        lemma_arguments(init, excludes);
        assert forall|j: int| 0 <= j < init.len() implies argued(#[trigger] init[j], excludes) is Ok by {
            assert(argued(args[j], excludes) is Ok);
        }
    }
}

/// No file is linted twice, wherever it was found, and the targets come in the
/// order of their paths.
pub proof fn lemma_targets_in_order(
    args: Seq<ArgumentView>,
    excludes: Seq<Seq<char>>,
    cwd: Seq<char>,
    i: int,
    j: int,
)
    requires
        found(args, excludes, cwd) is Ok,
        0 <= i < j < found(args, excludes, cwd)->Ok_0.len(),
    ensures
        at_most(
            found(args, excludes, cwd)->Ok_0[i].path,
            found(args, excludes, cwd)->Ok_0[j].path,
        ),
{
    lemma_found(args, excludes, cwd, i, j);
}

/// Two paths lead to one place where they have the same names in them, taken
/// from the working directory where they are not from the root.
pub proof fn lemma_same_place(cwd: Seq<char>, p: Seq<char>, q: Seq<char>)
    requires
        rooted(cwd),
    ensures
        rooted(p) && rooted(q) ==> (place_of(cwd, p) == place_of(cwd, q) <==> parts(p) == parts(q)),
        !rooted(p) && !rooted(q) ==> (place_of(cwd, p) == place_of(cwd, q) <==> parts(p) == parts(q)),
        !rooted(p) && rooted(q) ==> (place_of(cwd, p) == place_of(cwd, q) <==> parts(cwd) + parts(p)
            == parts(q)),
{
    if !rooted(p) && !rooted(q) && parts(cwd) + parts(p) == parts(cwd) + parts(q) {
        let n = parts(cwd).len() as int;
        assert((parts(cwd) + parts(p)).skip(n) =~= parts(p));
        assert((parts(cwd) + parts(q)).skip(n) =~= parts(q));
    }
}

/// Why a walk cannot get past an entry of a directory.
pub open spec fn entry_fault(entry: EntryView, at: Place, excludes: Seq<Seq<char>>) -> Option<
    Seq<char>,
> {
    let path = joined(at.dir, entry.name);
    let rel = joined(at.rel, entry.name);
    match entry.item {
        ItemView::Unreadable(reason) => Some("cannot read "@ + path + ": "@ + reason),
        ItemView::Closed(reason) => if is_entered(excludes, entry.name, rel) {
            Some("cannot read "@ + path + ": "@ + reason)
        } else {
            None
        },
        ItemView::Directory(inner) => if is_entered(excludes, entry.name, rel) {
            match walked(
                inner,
                inner.len() as int,
                Place { root: at.root, dir: path, rel },
                excludes,
            ) {
                Ok(_) => None,
                Err(m) => Some(m),
            }
        } else {
            None
        },
        ItemView::File => None,
    }
}

proof fn lemma_walk_up_to(
    entries: Seq<EntryView>,
    k: int,
    n: int,
    at: Place,
    excludes: Seq<Seq<char>>,
)
    requires
        0 <= k <= n <= entries.len(),
        ({
            let order = order_of(names_of(entries), entries.len() as int);
            &&& forall|j: int|
                0 <= j < k ==> entry_fault(entries[#[trigger] order[j]], at, excludes) is None
            &&& k < n ==> entry_fault(entries[order[k]], at, excludes) is Some
        }),
    ensures
        k == n ==> walked(entries, n, at, excludes) is Ok,
        k < n ==> walked(entries, n, at, excludes) == Err::<Seq<Found>, Seq<char>>(
            entry_fault(
                entries[order_of(names_of(entries), entries.len() as int)[k]],
                at,
                excludes,
            )->Some_0,
        ),
    decreases n,
{
    if n > 0 {
        let order = order_of(names_of(entries), entries.len() as int);
        let entry = entries[order[n - 1]];
        lemma_entered(excludes, entry.name, joined(at.rel, entry.name));
        if k == n {
            assert(entry_fault(entries[order[n - 1]], at, excludes) is None);
            lemma_walk_up_to(entries, n - 1, n - 1, at, excludes);
        } else {
            lemma_walk_up_to(entries, k, n - 1, at, excludes);
        }
    }
}

/// A directory is walked in the order of its names: of the entries that a walk
/// cannot get past, it is the first by name that is told of.
pub proof fn lemma_walk_order(entries: Seq<EntryView>, at: Place, excludes: Seq<Seq<char>>, i: int)
    requires
        0 <= i < entries.len(),
        entry_fault(entries[i], at, excludes) is Some,
        forall|j: int|
            0 <= j < entries.len() && j != i && at_most((#[trigger] entries[j]).name, entries[i].name)
                ==> entry_fault(entries[j], at, excludes) is None,
    ensures
        walked(entries, entries.len() as int, at, excludes) == Err::<Seq<Found>, Seq<char>>(
            entry_fault(entries[i], at, excludes)->Some_0,
        ),
{
    let names = names_of(entries);
    let n = entries.len() as int;
    let order = order_of(names, n);
    let k = lemma_turn(entries, i) - 1;
    lemma_order(names, n);
    assert forall|j: int| 0 <= j < k implies entry_fault(
        entries[#[trigger] order[j]],
        at,
        excludes,
    ) is None by {
        assert(order_of(names, n)[j] != order_of(names, n)[k]);
        assert(at_most(names[order_of(names, n)[j]], names[order_of(names, n)[k]]));
        assert(0 <= order_of(names, n)[j] < n);
        assert(at_most(entries[order[j]].name, entries[i].name));
    }
    lemma_walk_up_to(entries, k, n, at, excludes);
}

} // verus!
