//! The references of a line and of a file: which there are, in what order.

use vstd::prelude::*;

use crate::fence::{is_prose, open_after};
use crate::laws::discover::lemma_joined;
use crate::laws::references::{
    lemma_link, lemma_no_spans, lemma_only_links, link_texts, span_texts,
};
use crate::lint::rules::references::{
    body_offset, in_tree, leads_to, line_references, link_path, link_paths, links_from, masked,
    references_of, references_upto, span_path, spans_from, targets_of, with_spans, ReferenceView,
};
use crate::lint::ContextView;
use crate::text::split;
use crate::utils::{absolute, is_part, lemma_lies_in};

verus! {

/// The paths that link targets name, in order; one that names none is left
/// out.
pub open spec fn named_by_links(list: Seq<Seq<char>>) -> Seq<Seq<char>> {
    list.filter(|t: Seq<char>| link_path(t) is Some).map_values(
        |t: Seq<char>| link_path(t)->Some_0,
    )
}

proof fn lemma_link_paths(s: Seq<char>, links: Seq<(int, int)>)
    ensures
        link_paths(s, links) == named_by_links(
            links.map_values(|r: (int, int)| s.subrange(r.0, r.1)),
        ),
    decreases links.len(),
{
    reveal(Seq::filter);
    let list = links.map_values(|r: (int, int)| s.subrange(r.0, r.1));
    if links.len() > 0 {
        let init = links.drop_last();
        lemma_link_paths(s, init);
        assert(list.drop_last() =~= init.map_values(|r: (int, int)| s.subrange(r.0, r.1)));
        assert(list.last() == s.subrange(links.last().0, links.last().1));
        assert(link_paths(s, links) =~= named_by_links(list));
    } else {
        assert(link_paths(s, links) =~= named_by_links(list));
    }
}

proof fn lemma_with_spans(s: Seq<char>, found: Seq<Seq<char>>, spans: Seq<(int, int)>)
    ensures
        found.len() <= with_spans(s, found, spans).len(),
        with_spans(s, found, spans).take(found.len() as int) == found,
        forall|i: int, j: int|
            found.len() <= j < with_spans(s, found, spans).len() && 0 <= i < j ==> #[trigger] with_spans(
                s,
                found,
                spans,
            )[i] != #[trigger] with_spans(s, found, spans)[j],
        forall|j: int|
            found.len() <= j < with_spans(s, found, spans).len() ==> exists|t: int|
                0 <= t < spans.len() && span_path(
                    s.subrange((#[trigger] spans[t]).0 + 1, spans[t].1),
                ) == Some(#[trigger] with_spans(s, found, spans)[j]),
        forall|t: int|
            0 <= t < spans.len() ==> (span_path(s.subrange((#[trigger] spans[t]).0 + 1, spans[t].1)) matches Some(
                p,
            ) ==> with_spans(s, found, spans).contains(p)),
    decreases spans.len(),
{
    let all = with_spans(s, found, spans);
    if spans.len() > 0 {
        let init = spans.drop_last();
        lemma_with_spans(s, found, init);
        let rest = with_spans(s, found, init);
        let n = spans.len() - 1;
        assert(spans[n] == spans.last());
        assert(forall|j: int| 0 <= j < rest.len() ==> #[trigger] all[j] == rest[j]);
        assert(all.take(found.len() as int) =~= rest.take(found.len() as int));
        assert forall|i: int, j: int| found.len() <= j < all.len() && 0 <= i < j implies #[trigger] all[i]
            != #[trigger] all[j] by {
            if j >= rest.len() && all[i] == all[j] {
                assert(rest[i] == all[j]);
                assert(rest.contains(all[j]));
            } else if j < rest.len() {
                assert(rest[i] != rest[j]);
            }
        }
        assert forall|j: int| found.len() <= j < all.len() implies exists|t: int|
            0 <= t < spans.len() && span_path(s.subrange((#[trigger] spans[t]).0 + 1, spans[t].1))
                == Some(#[trigger] all[j]) by {
            if j < rest.len() {
                assert(all[j] == rest[j]);
                let t = choose|t: int|
                    0 <= t < init.len() && span_path(
                        s.subrange((#[trigger] init[t]).0 + 1, init[t].1),
                    ) == Some(rest[j]);
                assert(spans[t] == init[t]);
            } else {
                assert(span_path(s.subrange(spans[n].0 + 1, spans[n].1)) == Some(all[j]));
            }
        }
        assert forall|t: int| 0 <= t < spans.len() implies (span_path(
            s.subrange((#[trigger] spans[t]).0 + 1, spans[t].1),
        ) matches Some(p) ==> all.contains(p)) by {
            if let Some(p) = span_path(s.subrange(spans[t].0 + 1, spans[t].1)) {
                if t < n {
                    assert(init[t] == spans[t]);
                    assert(rest.contains(p));
                    let x = rest.index_of(p);
                    assert(all[x] == p);
                } else if rest.contains(p) {
                    let x = rest.index_of(p);
                    assert(all[x] == p);
                } else {
                    assert(all[rest.len() as int] == p);
                }
            }
        }
    } else {
        assert(all.take(found.len() as int) =~= found);
    }
}

/// The references of a line are what its links outside code spans name, in
/// order, and then each path that a code span names and that is not yet among
/// them.
pub proof fn lemma_line(line: Seq<char>)
    ensures
        ({
            let links = named_by_links(link_texts(masked(line)));
            let spans = span_texts(line);
            let all = targets_of(line);
            &&& links.len() <= all.len()
            &&& all.take(links.len() as int) == links
            &&& forall|i: int, j: int|
                links.len() <= j < all.len() && 0 <= i < j ==> #[trigger] all[i] != #[trigger] all[j]
            &&& forall|j: int|
                links.len() <= j < all.len() ==> exists|t: int|
                    0 <= t < spans.len() && span_path(#[trigger] spans[t]) == Some(#[trigger] all[j])
            &&& forall|t: int|
                0 <= t < spans.len() ==> (span_path(#[trigger] spans[t]) matches Some(p)
                    ==> all.contains(p))
        }),
{
    let text = masked(line);
    let links = named_by_links(link_texts(text));
    let ranges = spans_from(line, 0);
    let spans = span_texts(line);
    let all = targets_of(line);
    lemma_link_paths(text, links_from(text, 0));
    lemma_with_spans(line, links, ranges);
    assert(all == with_spans(line, links, ranges));
    assert forall|i: int, j: int| links.len() <= j < all.len() && 0 <= i < j implies #[trigger] all[i]
        != #[trigger] all[j] by {
        assert(with_spans(line, links, ranges)[i] != with_spans(line, links, ranges)[j]);
    }
    assert(forall|t: int|
        0 <= t < ranges.len() ==> #[trigger] spans[t] == line.subrange(ranges[t].0 + 1, ranges[t].1));
    assert forall|j: int| links.len() <= j < all.len() implies exists|t: int|
        0 <= t < spans.len() && span_path(#[trigger] spans[t]) == Some(#[trigger] all[j]) by {
        assert(all[j] == with_spans(line, links, ranges)[j]);
        let t = choose|t: int|
            0 <= t < ranges.len() && span_path(
                line.subrange((#[trigger] ranges[t]).0 + 1, ranges[t].1),
            ) == Some(with_spans(line, links, ranges)[j]);
        assert(span_path(spans[t]) == Some(all[j]));
    }
    assert forall|t: int| 0 <= t < spans.len() implies (span_path(#[trigger] spans[t]) matches Some(p)
        ==> all.contains(p)) by {
        if let Some(p) = span_path(spans[t]) {
            assert(span_path(line.subrange(ranges[t].0 + 1, ranges[t].1)) == Some(p));
        }
    }
}

/// A line with one link and no code makes the one reference that the link
/// names, whatever stands before it and behind it.
pub proof fn lemma_link_line(p: Seq<char>, label: Seq<char>, target: Seq<char>, q: Seq<char>)
    requires
        !p.contains('[') && !q.contains('['),
        !label.contains(']'),
        target.len() > 0 && !target.contains(')'),
        !(p + seq!['['] + label + seq![']', '('] + target + seq![')'] + q).contains('`'),
    ensures
        ({
            let line = p + seq!['['] + label + seq![']', '('] + target + seq![')'] + q;
            &&& link_path(target) matches Some(t) ==> targets_of(line) == seq![t]
            &&& link_path(target) is None ==> targets_of(line).len() == 0
        }),
{
    reveal(Seq::filter);
    let line = p + seq!['['] + label + seq![']', '('] + target + seq![')'] + q;
    assert forall|j: int| 0 <= j < line.len() implies line[j] != '`' by {
        assert(line.contains(line[j]));
    }
    lemma_no_spans(line, line.len() as int);
    lemma_link(p, label, target, q);
    lemma_only_links(q);
    assert(link_texts(q) =~= Seq::empty());
    let one = seq![target];
    assert(one + link_texts(q) =~= one);
    lemma_line(line);
    let links = named_by_links(one);
    let keep = |t: Seq<char>| link_path(t) is Some;
    assert(one.drop_last() =~= Seq::empty());
    assert(one.drop_last().filter(keep) =~= Seq::empty());
    assert(one.last() == target);
    if let Some(t) = link_path(target) {
        assert(one.filter(keep) =~= one);
        assert(links =~= seq![t]);
    } else {
        assert(one.filter(keep) =~= Seq::empty());
        assert(links.len() == 0);
    }
    let all = targets_of(line);
    assert(span_texts(line).len() == 0);
    assert(all.len() == links.len()) by {
        if all.len() > links.len() {
            let j = links.len() as int;
            let spans = span_texts(line);
            let t = choose|t: int|
                0 <= t < spans.len() && span_path(#[trigger] spans[t]) == Some(all[j]);
            assert(all[j] == all[j]);
        }
    }
    assert(all.take(links.len() as int) =~= all);
}

/// The references that a line makes to files of the linted tree.
pub open spec fn made(ctx: ContextView, line: int, targets: Seq<Seq<char>>) -> Seq<ReferenceView> {
    targets.filter(|t: Seq<char>| in_tree(ctx, t)).map_values(
        |t: Seq<char>| ReferenceView { line, target: t, path: leads_to(ctx, t) },
    )
}

proof fn lemma_made(ctx: ContextView, line: int, targets: Seq<Seq<char>>)
    ensures
        line_references(ctx, line, targets) == made(ctx, line, targets),
    decreases targets.len(),
{
    reveal(Seq::filter);
    if targets.len() > 0 {
        lemma_made(ctx, line, targets.drop_last());
    }
    assert(line_references(ctx, line, targets) =~= made(ctx, line, targets));
}

/// The references of a file are those of its lines, one after the other: each
/// line of text adds what it refers to in the linted tree, under its number in
/// the file, and a line of a fenced block adds nothing.
pub proof fn lemma_references(ctx: ContextView, n: int)
    requires
        0 <= n < split(ctx.doc.body, '\n').len(),
    ensures
        ({
            let lines = split(ctx.doc.body, '\n');
            let first: int = if ctx.doc.frontmatter.present {
                ctx.doc.frontmatter.end_line + 1
            } else {
                1
            };
            &&& references_upto(ctx, lines, 0) == Seq::<ReferenceView>::empty()
            &&& references_of(ctx) == references_upto(ctx, lines, lines.len() as int)
            &&& is_prose(open_after(lines, n), lines[n]) ==> references_upto(ctx, lines, n + 1)
                == references_upto(ctx, lines, n) + made(ctx, first + n, targets_of(lines[n]))
            &&& !is_prose(open_after(lines, n), lines[n]) ==> references_upto(ctx, lines, n + 1)
                == references_upto(ctx, lines, n)
        }),
{
    let lines = split(ctx.doc.body, '\n');
    lemma_made(ctx, body_offset(ctx) + n + 1, targets_of(lines[n]));
}

/// A reference leads to a place below the linted tree exactly where the names
/// of that place begin with those of the tree.
pub proof fn lemma_in_tree(ctx: ContextView, t: Seq<char>)
    ensures
        in_tree(ctx, t) <==> {
            let root = absolute(ctx.cwd, ctx.target.root);
            let path = leads_to(ctx, t);
            &&& path.rooted == root.rooted
            &&& root.parts.len() <= path.parts.len()
            &&& forall|i: int| 0 <= i < root.parts.len() ==> #[trigger] root.parts[i] == path.parts[i]
        },
{
    let root = absolute(ctx.cwd, ctx.target.root);
    let path = leads_to(ctx, t);
    if root.parts.len() <= path.parts.len() {
        let start = path.parts.take(root.parts.len() as int);
        if forall|i: int| 0 <= i < root.parts.len() ==> #[trigger] root.parts[i] == path.parts[i] {
            assert(root.parts =~= start);
        }
        if root.parts.is_prefix_of(path.parts) {
            assert(root.parts =~= start);
            assert forall|i: int| 0 <= i < root.parts.len() implies #[trigger] root.parts[i]
                == path.parts[i] by {
                assert(start[i] == path.parts[i]);
            }
        }
    }
}

/// A reference is taken from the directory that its file lies in.
pub proof fn lemma_leads_from(ctx: ContextView, dir: Seq<char>, name: Seq<char>, t: Seq<char>)
    requires
        is_part(name),
        dir.len() > 0 ==> ctx.target.path == dir + seq!['/'] + name,
        dir.len() > 0 ==> dir.last() != '/' && !(dir.len() >= 2 && dir.last() == '.' && dir[dir.len()
            - 2] == '/'),
        dir.len() == 0 ==> ctx.target.path == name,
    ensures
        dir.len() > 0 ==> leads_to(ctx, t) == absolute(ctx.cwd, dir + seq!['/'] + t),
        dir.len() == 0 ==> leads_to(ctx, t) == absolute(ctx.cwd, t),
{
    lemma_lies_in(dir, name);
    lemma_joined(dir, t);
}

} // verus!
