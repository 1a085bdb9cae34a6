//! Turns command-line paths into the set of agent instruction files to lint.
//!
//! What the filesystem holds comes in as a tree of entries; which of them are
//! targets is decided here.

use glob::Pattern;
use vstd::prelude::*;

use crate::order::{at_most, lemma_order, order_of, positions, sort_order};
use crate::text::{ascii_lower, debug_text, quoted, rows, same, texts, to_chars, to_text};
use crate::utils::{
    base_name, file_name, is_rooted, parent_text, parent_text_of, parts, rooted, slashed,
    split_parts, to_slash, CleanPath, PathView,
};

verus! {

/// Distinguishes the two file types the linter understands.
#[derive(Debug, Clone, Copy, PartialEq, Eq, Structural)]
pub enum Kind {
    Agents,
    Skill,
}

impl Kind {
    /// The kind as reports name it.
    pub open spec fn label(self) -> Seq<char> {
        match self {
            Kind::Agents => "agents"@,
            Kind::Skill => "skill"@,
        }
    }

    /// The kind as reports name it.
    pub fn as_str(&self) -> (r: &'static str)
        ensures
            r@ == self.label(),
    {
        match self {
            Kind::Agents => "agents",
            Kind::Skill => "skill",
        }
    }
}

/// A single file to lint.
#[derive(Debug, Clone)]
pub struct Target {
    pub path: String,
    pub kind: Kind,
    /// The tree this target was found under: the directory argument that
    /// produced it, or the file's own directory when named explicitly. Rules
    /// use it to tell a reference into the linted tree from one that escapes.
    pub root: String,
}

pub struct TargetView {
    pub path: Seq<char>,
    pub kind: Kind,
    pub root: Seq<char>,
}

impl Target {
    pub open spec fn view(self) -> TargetView {
        TargetView { path: self.path@, kind: self.kind, root: self.root@ }
    }
}

pub open spec fn target_views(v: Seq<Target>) -> Seq<TargetView> {
    Seq::new(v.len(), |i: int| v[i]@)
}

/// What stands at a path.
#[derive(Debug)]
pub enum Item {
    /// Nothing that can be looked at, with the reason.
    Unreadable(String),
    File,
    /// A directory and its entries, in any order.
    Directory(Vec<Entry>),
    /// A directory whose entries cannot be read, with the reason.
    Closed(String),
}

/// One entry of a directory.
#[derive(Debug)]
pub struct Entry {
    pub name: String,
    pub item: Item,
}

/// A path given on the command line, and what stands there.
#[derive(Debug)]
pub struct Argument {
    pub path: String,
    pub item: Item,
}

pub enum ItemView {
    Unreadable(Seq<char>),
    File,
    Directory(Seq<EntryView>),
    Closed(Seq<char>),
}

pub struct EntryView {
    pub name: Seq<char>,
    pub item: ItemView,
}

pub struct ArgumentView {
    pub path: Seq<char>,
    pub item: ItemView,
}

impl Item {
    pub open spec fn view(self) -> ItemView
        decreases self,
    {
        match self {
            Item::Unreadable(reason) => ItemView::Unreadable(reason@),
            Item::File => ItemView::File,
            Item::Directory(entries) => ItemView::Directory(
                Seq::new(
                    entries@.len(),
                    |i: int|
                        if 0 <= i < entries@.len() {
                            EntryView { name: entries@[i].name@, item: entries@[i].item.view() }
                        } else {
                            arbitrary()
                        },
                ),
            ),
            Item::Closed(reason) => ItemView::Closed(reason@),
        }
    }
}

impl Entry {
    pub open spec fn view(self) -> EntryView {
        EntryView { name: self.name@, item: self.item@ }
    }
}

impl Argument {
    pub open spec fn view(self) -> ArgumentView {
        ArgumentView { path: self.path@, item: self.item@ }
    }
}

pub open spec fn entry_views(v: Seq<Entry>) -> Seq<EntryView> {
    Seq::new(v.len(), |i: int| v[i]@)
}

pub open spec fn argument_views(v: Seq<Argument>) -> Seq<ArgumentView> {
    Seq::new(v.len(), |i: int| v[i]@)
}

/// A file to lint, by the path it was found at.
pub struct Found {
    pub path: Seq<char>,
    pub kind: Kind,
    pub root: Seq<char>,
}

/// The lower-case form of a text.
pub uninterp spec fn lowercase(s: Seq<char>) -> Seq<char>;

/// `str::to_lowercase`. On ASCII it maps the capital letters and nothing else.
/// Texts that differ in the case of ASCII letters alone have one lower-case
/// form.
#[verifier::external_body]
fn to_lowercase(s: &str) -> (r: String)
    ensures
        r@ == lowercase(s@),
        forall|t: Seq<char>| #[trigger] ascii_lower(t) == ascii_lower(s@) ==> r@ == lowercase(t),
        (forall|i: int| 0 <= i < s@.len() ==> s@[i] < '\u{80}') ==> r@ == ascii_lower(s@),
{
    s.to_lowercase()
}

/// Why a text is no glob pattern, or `None` for a pattern.
pub uninterp spec fn glob_fault(pattern: Seq<char>) -> Option<Seq<char>>;

/// Whether a glob pattern matches a text; what is no pattern matches nothing.
pub uninterp spec fn glob_match(pattern: Seq<char>, text: Seq<char>) -> bool;

/// Whether a pattern is a plain name: no wildcard, no bracket, no separator.
pub open spec fn plain(pattern: Seq<char>) -> bool {
    forall|i: int|
        0 <= i < pattern.len() ==> {
            &&& #[trigger] pattern[i] != '?'
            &&& pattern[i] != '*'
            &&& pattern[i] != '['
            &&& pattern[i] != '/'
            &&& pattern[i] != '\\'
        }
}

/// `Pattern::new`: what is wrong with a pattern. A plain name is a pattern.
#[verifier::external_body]
fn pattern_fault(pattern: &str) -> (r: Option<String>)
    ensures
        glob_fault(pattern@) == (match r {
            Some(fault) => Some(fault@),
            None => None,
        }),
        plain(pattern@) ==> r is None,
{
    Pattern::new(pattern).err().map(|e| e.to_string())
}

/// `Pattern::matches`, with its default options: case counts, and wildcards
/// also match separators. A plain name matches itself and nothing else.
#[verifier::external_body]
fn pattern_matches(pattern: &str, text: &str) -> (r: bool)
    ensures
        r == glob_match(pattern@, text@),
        plain(pattern@) ==> r == (pattern@ == text@),
{
    Pattern::new(pattern).is_ok_and(|p| p.matches(text))
}

/// The kind of file that a lower-case name stands for.
pub open spec fn kind_named(name: Seq<char>) -> Option<Kind> {
    if name == "agents.md"@ {
        Some(Kind::Agents)
    } else if name == "skill.md"@ {
        Some(Kind::Skill)
    } else {
        None
    }
}

/// The kind of file at a path, by its name.
pub open spec fn kind_of(path: Seq<char>) -> Option<Kind> {
    match base_name(path) {
        Some(name) => kind_named(lowercase(name)),
        None => None,
    }
}

/// Whether the file names of two paths are equal, ignoring ASCII case.
pub open spec fn same_name(p: Seq<char>, q: Seq<char>) -> bool {
    match (base_name(p), base_name(q)) {
        (Some(a), Some(b)) => ascii_lower(a) == ascii_lower(b),
        (None, None) => true,
        _ => false,
    }
}

/// The kind of file that a lower-case name stands for.
pub fn kind_by_name(name: &str) -> (r: Option<Kind>)
    ensures
        r == kind_named(name@),
{
    if same(name, "agents.md") {
        Some(Kind::Agents)
    } else if same(name, "skill.md") {
        Some(Kind::Skill)
    } else {
        None
    }
}

/// Classifies a path by its base name, case-insensitively. Returns None when
/// the name is not an agent instruction file.
pub fn kind_for(path: &str) -> (r: Option<Kind>)
    ensures
        r == kind_of(path@),
        base_name(path@) matches Some(name) ==> (forall|i: int|
            0 <= i < name.len() ==> name[i] < '\u{80}') ==> r == kind_named(ascii_lower(name)),
        forall|q: Seq<char>| #[trigger] same_name(path@, q) ==> kind_of(q) == r,
{
    match file_name(path) {
        Some(name) => kind_by_name(to_lowercase(to_text(name.as_slice()).as_str()).as_str()),
        None => None,
    }
}

/// Never walked: holds dependencies and build output, whose instruction files
/// are not the user's to fix.
pub open spec fn is_skipped(name: Seq<char>) -> bool {
    ||| name == ".git"@
    ||| name == ".next"@
    ||| name == ".venv"@
    ||| name == "build"@
    ||| name == "dist"@
    ||| name == "node_modules"@
    ||| name == "target"@
    ||| name == "vendor"@
}

fn skips(name: &str) -> (r: bool)
    ensures
        r == is_skipped(name@),
{
    same(name, ".git") || same(name, ".next") || same(name, ".venv") || same(name, "build") || same(
        name,
        "dist",
    ) || same(name, "node_modules") || same(name, "target") || same(name, "vendor")
}

/// Whether an entry matches any exclude, by its name or by its path below the
/// walk root.
pub open spec fn excluded(excludes: Seq<Seq<char>>, name: Seq<char>, rel: Seq<char>) -> bool {
    exists|i: int|
        0 <= i < excludes.len() && (glob_match(#[trigger] excludes[i], name) || glob_match(
            excludes[i],
            rel,
        ))
}

fn matches_any(excludes: &Vec<String>, name: &str, rel: &str) -> (r: bool)
    ensures
        r == excluded(texts(excludes@), name@, rel@),
{
    let mut i: usize = 0;
    while i < excludes.len()
        invariant
            i <= excludes@.len(),
            forall|j: int|
                0 <= j < i ==> !glob_match(#[trigger] texts(excludes@)[j], name@) && !glob_match(
                    texts(excludes@)[j],
                    rel@,
                ),
        decreases excludes@.len() - i,
    {
        assert(texts(excludes@)[i as int] == excludes@[i as int]@);
        if pattern_matches(excludes[i].as_str(), name) || pattern_matches(
            excludes[i].as_str(),
            rel,
        ) {
            return true;
        }
        i += 1;
    }
    false
}

/// Whether the directory `name`, at `rel` below the walk root, is left alone.
pub open spec fn is_pruned(excludes: Seq<Seq<char>>, name: Seq<char>, rel: Seq<char>) -> bool {
    is_skipped(name) || excluded(excludes, name, slashed(rel))
}

/// Whether the directory `name`, at `rel` below the walk root, is left alone:
/// its entries need not be read.
pub fn prunes(excludes: &Vec<String>, name: &str, rel: &str) -> (r: bool)
    ensures
        r == is_pruned(texts(excludes@), name@, rel@),
{
    skips(name) || matches_any(excludes, name, to_slash(rel).as_str())
}

/// The path of the entry `name` in the directory `dir`.
pub open spec fn joined(dir: Seq<char>, name: Seq<char>) -> Seq<char> {
    if dir.len() == 0 || dir.last() == '/' {
        dir + name
    } else {
        dir + "/"@ + name
    }
}

/// The path of the entry `name` in the directory `dir`.
pub fn join_path(dir: &str, name: &str) -> (r: String)
    ensures
        r@ == joined(dir@, name@),
{
    let chars = to_chars(dir);
    let n: usize = chars.len();
    let mut out = dir.to_owned();
    if n > 0 && chars[n - 1] != '/' {
        out.append("/");
    }
    out.append(name);
    out
}

/// The message for what cannot be read.
pub open spec fn cannot_read(path: Seq<char>, reason: Seq<char>) -> Seq<char> {
    "cannot read "@ + path + ": "@ + reason
}

/// The message for what cannot be read.
pub fn unreadable(path: &str, reason: &str) -> (r: String)
    ensures
        r@ == cannot_read(path@, reason@),
{
    let mut m = "cannot read ".to_string();
    m.append(path);
    m.append(": ");
    m.append(reason);
    m
}

/// The names of some entries.
pub open spec fn names_of(entries: Seq<EntryView>) -> Seq<Seq<char>> {
    Seq::new(entries.len(), |i: int| entries[i].name)
}

/// Where a walk is.
pub struct Place {
    /// The directory argument the walk started from.
    pub root: Seq<char>,
    /// The directory being walked.
    pub dir: Seq<char>,
    /// Its path below the root.
    pub rel: Seq<char>,
}

/// The files to lint among the first `k` entries of a directory, in the order
/// of their names, or the message for the first that cannot be read.
pub open spec fn walked(
    entries: Seq<EntryView>,
    k: int,
    at: Place,
    excludes: Seq<Seq<char>>,
) -> Result<Seq<Found>, Seq<char>>
    decreases entries, k,
{
    if k <= 0 || k > entries.len() {
        Ok(Seq::empty())
    } else {
        let order = order_of(names_of(entries), entries.len() as int);
        proof {
            lemma_order(names_of(entries), entries.len() as int);
            assert(0 <= order_of(names_of(entries), entries.len() as int)[k - 1] < entries.len());
            assert(decreases_to!(entries => entries[order[k - 1]]));
            assert(decreases_to!(entries[order[k - 1]] => entries[order[k - 1]].item));
            assert(entries[order[k - 1]].item is Directory ==> decreases_to!(
                entries[order[k - 1]].item => entries[order[k - 1]].item->Directory_0
            ));
        }
        let entry = entries[order[k - 1]];
        let path = joined(at.dir, entry.name);
        let rel = joined(at.rel, entry.name);
        match walked(entries, k - 1, at, excludes) {
            Err(m) => Err(m),
            Ok(before) => match entry.item {
                ItemView::Unreadable(reason) => Err(cannot_read(path, reason)),
                ItemView::Directory(inner) => if is_pruned(excludes, entry.name, rel) {
                    Ok(before)
                } else {
                    match walked(
                        inner,
                        inner.len() as int,
                        Place { root: at.root, dir: path, rel },
                        excludes,
                    ) {
                        Err(m) => Err(m),
                        Ok(more) => Ok(before + more),
                    }
                },
                ItemView::Closed(reason) => if is_pruned(excludes, entry.name, rel) {
                    Ok(before)
                } else {
                    Err(cannot_read(path, reason))
                },
                ItemView::File => match kind_of(path) {
                    Some(kind) if !excluded(excludes, entry.name, slashed(rel)) => Ok(
                        before.push(Found { path, kind, root: at.root }),
                    ),
                    _ => Ok(before),
                },
            },
        }
    }
}

/// The files to lint that an argument stands for. A file is taken as it is; a
/// directory is walked.
pub open spec fn argued(arg: ArgumentView, excludes: Seq<Seq<char>>) -> Result<
    Seq<Found>,
    Seq<char>,
> {
    match arg.item {
        ItemView::Unreadable(reason) => Err(cannot_read(arg.path, reason)),
        ItemView::Closed(reason) => Err(cannot_read(arg.path, reason)),
        ItemView::Directory(entries) => walked(
            entries,
            entries.len() as int,
            Place { root: arg.path, dir: arg.path, rel: Seq::empty() },
            excludes,
        ),
        ItemView::File => match kind_of(arg.path) {
            Some(kind) => Ok(seq![Found { path: arg.path, kind, root: parent_text_of(arg.path) }]),
            None => Err(arg.path + " is not an AGENTS.md or SKILL.md"@),
        },
    }
}

/// The files to lint that the arguments stand for, in order, or the message
/// for the first that cannot be used.
pub open spec fn collected(args: Seq<ArgumentView>, excludes: Seq<Seq<char>>) -> Result<
    Seq<Found>,
    Seq<char>,
>
    decreases args.len(),
{
    if args.len() == 0 {
        Ok(Seq::empty())
    } else {
        match collected(args.drop_last(), excludes) {
            Err(m) => Err(m),
            Ok(before) => match argued(args.last(), excludes) {
                Err(m) => Err(m),
                Ok(more) => Ok(before + more),
            },
        }
    }
}

/// What two paths to one file have in common: where they lead from the root,
/// without looking at what `..` stands for.
pub open spec fn place_of(cwd: Seq<char>, path: Seq<char>) -> PathView {
    if rooted(path) {
        PathView { rooted: true, parts: parts(path) }
    } else {
        PathView { rooted: rooted(cwd), parts: parts(cwd) + parts(path) }
    }
}

/// Whether a file at the same place is in the list.
pub open spec fn seen(cwd: Seq<char>, list: Seq<Found>, path: Seq<char>) -> bool {
    exists|i: int| 0 <= i < list.len() && place_of(cwd, (#[trigger] list[i]).path) == place_of(cwd, path)
}

/// `list` without the files that were in it before.
pub open spec fn distinct(cwd: Seq<char>, list: Seq<Found>) -> Seq<Found>
    decreases list.len(),
{
    if list.len() == 0 {
        Seq::empty()
    } else {
        let before = distinct(cwd, list.drop_last());
        if seen(cwd, before, list.last().path) {
            before
        } else {
            before.push(list.last())
        }
    }
}

/// The paths that are reported for some files.
pub open spec fn report_paths(list: Seq<Found>) -> Seq<Seq<char>> {
    Seq::new(list.len(), |i: int| slashed(list[i].path))
}

/// Files as targets, in the order of their paths.
pub open spec fn arranged(list: Seq<Found>) -> Seq<TargetView> {
    let order = order_of(report_paths(list), list.len() as int);
    Seq::new(
        list.len(),
        |i: int|
            TargetView {
                path: slashed(list[order[i]].path),
                kind: list[order[i]].kind,
                root: list[order[i]].root,
            },
    )
}

/// The message for the first exclude that is no glob pattern.
pub open spec fn exclude_fault(excludes: Seq<Seq<char>>) -> Option<Seq<char>>
    decreases excludes.len(),
{
    if excludes.len() == 0 {
        None
    } else {
        match exclude_fault(excludes.drop_last()) {
            Some(m) => Some(m),
            None => match glob_fault(excludes.last()) {
                Some(fault) => Some(
                    "invalid exclude pattern "@ + debug_text(excludes.last()) + ": "@ + fault,
                ),
                None => None,
            },
        }
    }
}

/// The files to lint.
pub open spec fn found(
    args: Seq<ArgumentView>,
    excludes: Seq<Seq<char>>,
    cwd: Seq<char>,
) -> Result<Seq<TargetView>, Seq<char>> {
    match exclude_fault(excludes) {
        Some(m) => Err(m),
        None => match collected(args, excludes) {
            Err(m) => Err(m),
            Ok(list) => Ok(arranged(distinct(cwd, list))),
        },
    }
}

/// A file to lint, by the path it was found at.
struct Hit {
    path: String,
    kind: Kind,
    root: String,
}

impl Hit {
    spec fn view(self) -> Found {
        Found { path: self.path@, kind: self.kind, root: self.root@ }
    }
}

spec fn hits(v: Seq<Hit>) -> Seq<Found> {
    Seq::new(v.len(), |i: int| v[i]@)
}

proof fn lemma_walked_stop(
    entries: Seq<EntryView>,
    k: int,
    n: int,
    at: Place,
    excludes: Seq<Seq<char>>,
)
    requires
        0 < k <= n <= entries.len(),
        walked(entries, k, at, excludes) is Err,
    ensures
        walked(entries, n, at, excludes) == walked(entries, k, at, excludes),
    decreases n - k,
{
    if k < n {
        lemma_walked_stop(entries, k, n - 1, at, excludes);
    }
}

/// Adds the files to lint in a directory and below it.
fn walk(
    entries: &Vec<Entry>,
    root: &str,
    dir: &str,
    rel: &str,
    excludes: &Vec<String>,
    out: &mut Vec<Hit>,
) -> (r: Result<(), String>)
    ensures
        match walked(
            entry_views(entries@),
            entries@.len() as int,
            Place { root: root@, dir: dir@, rel: rel@ },
            texts(excludes@),
        ) {
            Ok(more) => r is Ok && hits(final(out)@) == hits(old(out)@) + more,
            Err(m) => r matches Err(e) && e@ == m,
        },
    decreases entries,
{
    let ghost views = entry_views(entries@);
    let ghost at = Place { root: root@, dir: dir@, rel: rel@ };
    let ghost globs = texts(excludes@);
    let ghost start = hits(out@);
    let mut keys: Vec<Vec<char>> = Vec::new();
    let mut i: usize = 0;
    while i < entries.len()
        invariant
            i <= entries@.len(),
            keys@.len() == i,
            forall|j: int| 0 <= j < i ==> (#[trigger] keys@[j])@ == entries@[j].name@,
        decreases entries@.len() - i,
    {
        keys.push(to_chars(entries[i].name.as_str()));
        i += 1;
    }
    assert(rows(keys@) =~= names_of(views));
    let order = sort_order(keys.as_slice());
    proof {
        lemma_order(names_of(views), views.len() as int);
    }
    let mut k: usize = 0;
    assert(start + Seq::<Found>::empty() =~= start);
    while k < order.len()
        invariant
            k <= order@.len(),
            order@.len() == entries@.len(),
            views == entry_views(entries@),
            at == (Place { root: root@, dir: dir@, rel: rel@ }),
            globs == texts(excludes@),
            positions(order@) == order_of(names_of(views), views.len() as int),
            forall|j: int|
                0 <= j < views.len() ==> 0 <= #[trigger] order_of(
                    names_of(views),
                    views.len() as int,
                )[j] < views.len(),
            walked(views, k as int, at, globs) is Ok,
            hits(out@) == start + walked(views, k as int, at, globs)->Ok_0,
        decreases order@.len() - k,
    {
        let ghost before = walked(views, k as int, at, globs)->Ok_0;
        proof {
            assert(positions(order@)[k as int] == order@[k as int] as int);
            assert(0 <= order_of(names_of(views), views.len() as int)[k as int] < views.len());
        }
        let entry = &entries[order[k]];
        assert(views[order@[k as int] as int] == entry@);
        let path = join_path(dir, entry.name.as_str());
        let below = join_path(rel, entry.name.as_str());
        match &entry.item {
            Item::Unreadable(reason) => {
                proof {
                    lemma_walked_stop(views, k + 1, views.len() as int, at, globs);
                }
                return Err(unreadable(path.as_str(), reason.as_str()));
            },
            Item::Directory(inner) => {
                assert(entry@.item->Directory_0 =~= entry_views(inner@));
                if !prunes(excludes, entry.name.as_str(), below.as_str()) {
                    proof {
                        assert(decreases_to!(entries => entries@));
                        assert(decreases_to!(entries@ => entries@[order@[k as int] as int]));
                        assert(decreases_to!(entry => entry.item));
                        assert(decreases_to!(entry.item => entry.item->Directory_0));
                    }
                    match walk(inner, root, path.as_str(), below.as_str(), excludes, out) {
                        Ok(_) => {
                            proof {
                                let more = walked(
                                    entry_views(inner@),
                                    inner@.len() as int,
                                    Place { root: root@, dir: path@, rel: below@ },
                                    globs,
                                )->Ok_0;
                                assert((start + before) + more =~= start + (before + more));
                            }
                        },
                        Err(m) => {
                            proof {
                                lemma_walked_stop(views, k + 1, views.len() as int, at, globs);
                            }
                            return Err(m);
                        },
                    }
                }
            },
            Item::Closed(reason) => {
                if !prunes(excludes, entry.name.as_str(), below.as_str()) {
                    proof {
                        lemma_walked_stop(views, k + 1, views.len() as int, at, globs);
                    }
                    return Err(unreadable(path.as_str(), reason.as_str()));
                }
            },
            Item::File => {
                if let Some(kind) = kind_for(path.as_str()) {
                    if !matches_any(
                        excludes,
                        entry.name.as_str(),
                        to_slash(below.as_str()).as_str(),
                    ) {
                        let hit = Hit { path, kind, root: root.to_owned() };
                        proof {
                            assert(hits(out@.push(hit)) =~= hits(out@).push(hit@));
                            assert((start + before).push(hit@) =~= start + before.push(hit@));
                        }
                        out.push(hit);
                    }
                }
            },
        }
        k += 1;
    }
    Ok(())
}

proof fn lemma_collected_stop(args: Seq<ArgumentView>, n: int, excludes: Seq<Seq<char>>)
    requires
        0 <= n <= args.len(),
        collected(args.take(n), excludes) is Err,
    ensures
        collected(args, excludes) == collected(args.take(n), excludes),
    decreases args.len(),
{
    if n < args.len() {
        assert(args.drop_last().take(n) =~= args.take(n));
        lemma_collected_stop(args.drop_last(), n, excludes);
    } else {
        assert(args.take(n) =~= args);
    }
}

/// Adds the files to lint that one argument stands for.
fn argue(arg: &Argument, excludes: &Vec<String>, out: &mut Vec<Hit>) -> (r: Result<(), String>)
    ensures
        match argued(arg@, texts(excludes@)) {
            Ok(more) => r is Ok && hits(final(out)@) == hits(old(out)@) + more,
            Err(m) => r matches Err(e) && e@ == m,
        },
{
    let path = arg.path.as_str();
    match &arg.item {
        Item::Unreadable(reason) => Err(unreadable(path, reason.as_str())),
        Item::Closed(reason) => Err(unreadable(path, reason.as_str())),
        Item::Directory(entries) => {
            assert(arg@.item->Directory_0 =~= entry_views(entries@));
            let empty = String::new();
            assert(empty@ =~= Seq::empty());
            walk(entries, path, path, empty.as_str(), excludes, out)
        },
        // A file named outright has no walk root, so it stands as its own:
        // its directory is the tree we were pointed at.
        Item::File => match kind_for(path) {
            Some(kind) => {
                let hit = Hit { path: arg.path.clone(), kind, root: parent_text(path) };
                assert(hits(out@.push(hit)) =~= hits(out@) + seq![hit@]);
                out.push(hit);
                Ok(())
            },
            None => {
                let mut m = arg.path.clone();
                m.append(" is not an AGENTS.md or SKILL.md");
                Err(m)
            },
        },
    }
}

/// Finds every file to lint that the arguments stand for, in order.
fn collect(args: &[Argument], excludes: &Vec<String>) -> (r: Result<Vec<Hit>, String>)
    ensures
        match collected(argument_views(args@), texts(excludes@)) {
            Ok(list) => r matches Ok(v) && hits(v@) == list,
            Err(m) => r matches Err(e) && e@ == m,
        },
{
    let ghost views = argument_views(args@);
    let mut out: Vec<Hit> = Vec::new();
    let mut i: usize = 0;
    assert(views.take(0) =~= Seq::empty());
    assert(hits(out@) =~= Seq::empty());
    while i < args.len()
        invariant
            i <= args@.len(),
            views == argument_views(args@),
            collected(views.take(i as int), texts(excludes@)) == Ok::<Seq<Found>, Seq<char>>(
                hits(out@),
            ),
        decreases args@.len() - i,
    {
        proof {
            let next = views.take(i + 1);
            assert(next.drop_last() =~= views.take(i as int));
            assert(next.last() == args@[i as int]@);
        }
        if let Err(m) = argue(&args[i], excludes, &mut out) {
            proof {
                lemma_collected_stop(views, i + 1, texts(excludes@));
            }
            return Err(m);
        }
        i += 1;
    }
    assert(views.take(i as int) =~= views);
    Ok(out)
}

/// Where a path leads from the root.
fn place(cwd: &str, path: &str) -> (r: CleanPath)
    ensures
        r@ == place_of(cwd@, path@),
{
    let chars = to_chars(path);
    let mut tail = split_parts(chars.as_slice());
    if is_rooted(chars.as_slice()) {
        return CleanPath { rooted: true, parts: tail };
    }
    let base = to_chars(cwd);
    let mut list = split_parts(base.as_slice());
    let ghost all = rows(list@) + rows(tail@);
    list.append(&mut tail);
    assert(rows(list@) =~= all);
    CleanPath { rooted: is_rooted(base.as_slice()), parts: list }
}

fn is_seen(cwd: &str, list: &Vec<Hit>, path: &str) -> (r: bool)
    ensures
        r == seen(cwd@, hits(list@), path@),
{
    let here = place(cwd, path);
    let mut i: usize = 0;
    while i < list.len()
        invariant
            i <= list@.len(),
            here@ == place_of(cwd@, path@),
            forall|j: int|
                0 <= j < i ==> place_of(cwd@, (#[trigger] hits(list@)[j]).path) != here@,
        decreases list@.len() - i,
    {
        assert(hits(list@)[i as int].path == list@[i as int].path@);
        if place(cwd, list[i].path.as_str()).same(&here) {
            return true;
        }
        i += 1;
    }
    false
}

/// Keeps the first of the files at one place.
fn dedup(cwd: &str, list: Vec<Hit>) -> (r: Vec<Hit>)
    ensures
        hits(r@) == distinct(cwd@, hits(list@)),
{
    let ghost all = hits(list@);
    let mut out: Vec<Hit> = Vec::new();
    assert(all.take(0) =~= Seq::empty());
    assert(hits(out@) =~= Seq::empty());
    for hit in it: list
        invariant
            it.seq() == list@,
            all == hits(list@),
            hits(out@) == distinct(cwd@, all.take(it.index() as int)),
    {
        proof {
            let next = all.take(it.index() + 1);
            assert(next.drop_last() =~= all.take(it.index() as int));
            assert(next.last() == hit@);
            assert(hits(out@.push(hit)) =~= hits(out@).push(hit@));
        }
        if !is_seen(cwd, &out, hit.path.as_str()) {
            out.push(hit);
        }
    }
    assert(all.take(all.len() as int) =~= all);
    out
}

/// Files as targets, in the order of their paths.
fn arrange(list: Vec<Hit>) -> (r: Vec<Target>)
    ensures
        target_views(r@) == arranged(hits(list@)),
{
    let ghost all = hits(list@);
    let mut keys: Vec<Vec<char>> = Vec::new();
    let mut i: usize = 0;
    while i < list.len()
        invariant
            i <= list@.len(),
            keys@.len() == i,
            forall|j: int| 0 <= j < i ==> (#[trigger] keys@[j])@ == slashed(list@[j].path@),
        decreases list@.len() - i,
    {
        keys.push(to_chars(to_slash(list[i].path.as_str()).as_str()));
        i += 1;
    }
    assert(rows(keys@) =~= report_paths(all));
    let order = sort_order(keys.as_slice());
    proof {
        lemma_order(report_paths(all), all.len() as int);
    }
    let mut out: Vec<Target> = Vec::new();
    let mut k: usize = 0;
    while k < order.len()
        invariant
            k <= order@.len(),
            order@.len() == list@.len(),
            all == hits(list@),
            keys@.len() == list@.len(),
            rows(keys@) == report_paths(all),
            positions(order@) == order_of(report_paths(all), all.len() as int),
            forall|j: int|
                0 <= j < all.len() ==> 0 <= #[trigger] order_of(
                    report_paths(all),
                    all.len() as int,
                )[j] < all.len(),
            out@.len() == k,
            forall|j: int| 0 <= j < k ==> (#[trigger] out@[j])@ == arranged(all)[j],
        decreases order@.len() - k,
    {
        proof {
            assert(positions(order@)[k as int] == order@[k as int] as int);
            assert(0 <= order_of(report_paths(all), all.len() as int)[k as int] < all.len());
        }
        let at: usize = order[k];
        let hit = &list[at];
        assert(rows(keys@)[at as int] == keys@[at as int]@);
        out.push(
            Target {
                path: to_text(keys[at].as_slice()),
                kind: hit.kind,
                root: hit.root.clone(),
            },
        );
        k += 1;
    }
    assert(target_views(out@) =~= arranged(all));
    out
}

/// Rejects malformed patterns up front rather than silently matching nothing
/// on every path. The message names no flag because an exclude can come from
/// `--exclude` or from the config file's `exclude:`.
fn compile_globs(globs: &Vec<String>) -> (r: Option<String>)
    ensures
        exclude_fault(texts(globs@)) == (match r {
            Some(m) => Some(m@),
            None => None,
        }),
{
    let ghost all = texts(globs@);
    let mut i: usize = 0;
    assert(all.take(0) =~= Seq::empty());
    while i < globs.len()
        invariant
            i <= globs@.len(),
            all == texts(globs@),
            exclude_fault(all.take(i as int)) is None,
        decreases globs@.len() - i,
    {
        proof {
            let next = all.take(i + 1);
            assert(next.drop_last() =~= all.take(i as int));
            assert(next.last() == globs@[i as int]@);
        }
        if let Some(fault) = pattern_fault(globs[i].as_str()) {
            proof {
                lemma_exclude_stop(all, i + 1);
            }
            let mut m = "invalid exclude pattern ".to_string();
            m.append(quoted(globs[i].as_str()).as_str());
            m.append(": ");
            m.append(fault.as_str());
            return Some(m);
        }
        i += 1;
    }
    assert(all.take(i as int) =~= all);
    None
}

proof fn lemma_exclude_stop(excludes: Seq<Seq<char>>, n: int)
    requires
        0 <= n <= excludes.len(),
        exclude_fault(excludes.take(n)) is Some,
    ensures
        exclude_fault(excludes) == exclude_fault(excludes.take(n)),
    decreases excludes.len(),
{
    if n < excludes.len() {
        assert(excludes.drop_last().take(n) =~= excludes.take(n));
        lemma_exclude_stop(excludes.drop_last(), n);
    } else {
        assert(excludes.take(n) =~= excludes);
    }
}

/// Collects the files to lint from the given paths. A file argument is taken
/// as-is; a directory is walked recursively. Excludes are shell globs matched
/// against each entry's base name and its path relative to the walk root, and
/// a matching directory is pruned.
///
/// The result is deduplicated by absolute path and sorted, so output is
/// stable across runs.
pub fn find(args: &[Argument], excludes: &Vec<String>, cwd: &str) -> (r: Result<
    Vec<Target>,
    String,
>)
    ensures
        found(argument_views(args@), texts(excludes@), cwd@) == (match r {
            Ok(v) => Ok(target_views(v@)),
            Err(m) => Err(m@),
        }),
{
    if let Some(m) = compile_globs(excludes) {
        return Err(m);
    }
    match collect(args, excludes) {
        Err(m) => Err(m),
        Ok(list) => Ok(arrange(dedup(cwd, list))),
    }
}

proof fn lemma_distinct(cwd: Seq<char>, list: Seq<Found>, i: int, j: int)
    requires
        0 <= i < j < distinct(cwd, list).len(),
    ensures
        place_of(cwd, distinct(cwd, list)[i].path) != place_of(cwd, distinct(cwd, list)[j].path),
    decreases list.len(),
{
    let before = distinct(cwd, list.drop_last());
    if j < before.len() {
        lemma_distinct(cwd, list.drop_last(), i, j);
    }
}

/// What is found comes out in the order of its paths, and no file comes out
/// twice.
pub proof fn lemma_found(
    args: Seq<ArgumentView>,
    excludes: Seq<Seq<char>>,
    cwd: Seq<char>,
    i: int,
    j: int,
)
    requires
        found(args, excludes, cwd) is Ok,
        0 <= i < j < found(args, excludes, cwd)->Ok_0.len(),
    ensures
        at_most(
            found(args, excludes, cwd)->Ok_0[i].path,
            found(args, excludes, cwd)->Ok_0[j].path,
        ),
        ({
            let kept = distinct(cwd, collected(args, excludes)->Ok_0);
            let order = order_of(report_paths(kept), kept.len() as int);
            &&& 0 <= order[i] < kept.len()
            &&& 0 <= order[j] < kept.len()
            &&& place_of(cwd, kept[order[i]].path) != place_of(cwd, kept[order[j]].path)
        }),
{
    let kept = distinct(cwd, collected(args, excludes)->Ok_0);
    let n = kept.len() as int;
    lemma_order(report_paths(kept), n);
    let a = order_of(report_paths(kept), n)[i];
    let b = order_of(report_paths(kept), n)[j];
    if a < b {
        lemma_distinct(cwd, collected(args, excludes)->Ok_0, a, b);
    } else {
        lemma_distinct(cwd, collected(args, excludes)->Ok_0, b, a);
    }
}

/// Whether a walk from `at` comes to `path` by the entries in `chain`, through
/// directories that are not left alone and to a file that is not excluded.
pub open spec fn reached(
    path: Seq<char>,
    at: Place,
    excludes: Seq<Seq<char>>,
    chain: Seq<Seq<char>>,
) -> bool
    decreases chain.len(),
{
    if chain.len() == 0 {
        false
    } else {
        let here = joined(at.dir, chain[0]);
        let rel = joined(at.rel, chain[0]);
        if chain.len() == 1 {
            path == here && !excluded(excludes, chain[0], slashed(rel))
        } else {
            !is_pruned(excludes, chain[0], rel) && reached(
                path,
                Place { root: at.root, dir: here, rel },
                excludes,
                chain.skip(1),
            )
        }
    }
}

/// A walk finds only files of a known kind, each by way of directories that
/// are neither skipped nor excluded, and none that is excluded itself.
pub proof fn lemma_walked(
    entries: Seq<EntryView>,
    k: int,
    at: Place,
    excludes: Seq<Seq<char>>,
    i: int,
)
    requires
        walked(entries, k, at, excludes) is Ok,
        0 <= i < walked(entries, k, at, excludes)->Ok_0.len(),
    ensures
        ({
            let f = walked(entries, k, at, excludes)->Ok_0[i];
            &&& kind_of(f.path) == Some(f.kind)
            &&& f.root == at.root
            &&& exists|chain: Seq<Seq<char>>| reached(f.path, at, excludes, chain)
        }),
    decreases entries, k,
{
    let f = walked(entries, k, at, excludes)->Ok_0[i];
    let order = order_of(names_of(entries), entries.len() as int);
    lemma_order(names_of(entries), entries.len() as int);
    assert(0 <= order_of(names_of(entries), entries.len() as int)[k - 1] < entries.len());
    let entry = entries[order[k - 1]];
    let before = walked(entries, k - 1, at, excludes)->Ok_0;
    let here = joined(at.dir, entry.name);
    let rel = joined(at.rel, entry.name);
    if i < before.len() {
        lemma_walked(entries, k - 1, at, excludes, i);
    } else {
        match entry.item {
            ItemView::Directory(inner) => {
                let next = Place { root: at.root, dir: here, rel };
                assert(decreases_to!(entries => entries[order[k - 1]]));
                assert(decreases_to!(entries[order[k - 1]] => entries[order[k - 1]].item));
                assert(decreases_to!(
                    entries[order[k - 1]].item => entries[order[k - 1]].item->Directory_0
                ));
                lemma_walked(inner, inner.len() as int, next, excludes, i - before.len());
                let rest = choose|chain: Seq<Seq<char>>| reached(f.path, next, excludes, chain);
                let chain = seq![entry.name] + rest;
                assert(chain.skip(1) =~= rest);
                assert(reached(f.path, at, excludes, chain));
            },
            _ => {
                assert(reached(f.path, at, excludes, seq![entry.name]));
            },
        }
    }
}

} // verus!
