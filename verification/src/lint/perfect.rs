//! What a perfect score means.

use vstd::prelude::*;

use crate::lint::ids::{ids, lemma_ids};
use crate::lint::rules::{outcome, ran, runs};
use crate::lint::score::{
    budget_share, budgets_of, failed_count, lemma_full_score, part_of, references_verdict, Part,
};
use crate::lint::{
    fresh_sink, is_failed, is_marked, result_of, sink_of, ContextView, MarkView, SinkView,
};

verus! {

/// Whether the rule at place `n` runs on a file and reports something.
pub open spec fn fires(ctx: ContextView, n: int) -> bool {
    runs(ctx, ctx.cfg.disabled, n) && outcome(n, ctx).reports.len() > 0
}

/// Whether a mark is that of a rule that ran and had something to judge.
spec fn is_mark_of(ctx: ContextView, mark: MarkView, n: int) -> bool {
    &&& runs(ctx, ctx.cfg.disabled, n)
    &&& mark.rule == ids()[n]
    &&& outcome(n, ctx).applies || outcome(n, ctx).reports.len() > 0
    &&& mark.failed == fires(ctx, n)
}

/// Whether a mark is that of one of the first `n` rules.
spec fn is_early_mark(ctx: ContextView, mark: MarkView, n: int) -> bool {
    exists|k: int| 0 <= k < n && is_mark_of(ctx, mark, k)
}

/// The sink after the first `n` rules.
spec fn so_far(ctx: ContextView, n: int) -> SinkView {
    ran(ctx, ctx.cfg.disabled, fresh_sink(ctx.cfg.strict), n)
}

proof fn lemma_marks(ctx: ContextView, n: int)
    requires
        0 <= n <= ids().len(),
    ensures
        forall|j: int|
            0 <= j < so_far(ctx, n).tally.len() ==> is_early_mark(
                ctx,
                #[trigger] so_far(ctx, n).tally[j],
                n,
            ),
        forall|k: int|
            0 <= k < n && #[trigger] fires(ctx, k) ==> is_failed(so_far(ctx, n).tally, ids()[k]),
        so_far(ctx, n).findings.len() > 0 <==> (exists|k: int| 0 <= k < n && fires(ctx, k)),
        forall|i: int, j: int|
            0 <= i < j < so_far(ctx, n).tally.len() ==> (#[trigger] so_far(ctx, n).tally[i]).rule != (
            #[trigger] so_far(ctx, n).tally[j]).rule,
    decreases n,
{
    if n > 0 {
        lemma_marks(ctx, n - 1);
        let off = ctx.cfg.disabled;
        let before = so_far(ctx, n - 1);
        let now = so_far(ctx, n);
        let id = ids()[n - 1];
        let o = outcome(n - 1, ctx);
        if runs(ctx, off, n - 1) {
            assert(!is_marked(before.tally, id)) by {
                if is_marked(before.tally, id) {
                    let j = choose|j: int|
                        0 <= j < before.tally.len() && (#[trigger] before.tally[j]).rule == id;
                    let k = choose|k: int| 0 <= k < n - 1 && is_mark_of(ctx, before.tally[j], k);
                    lemma_ids(k, n - 1);
                }
            }
            if o.applies || o.reports.len() > 0 {
                let mark = MarkView { rule: id, failed: o.reports.len() > 0 };
                assert(now.tally == before.tally.push(mark));
                assert(is_mark_of(ctx, mark, n - 1));
                if o.reports.len() > 0 {
                    assert(now.tally[before.tally.len() as int] == mark);
                    assert(is_failed(now.tally, id));
                }
            } else {
                assert(now.tally == before.tally);
            }
            assert(now.findings.len() == before.findings.len() + o.reports.len());
        } else {
            assert(now == before);
        }
        assert forall|j: int| 0 <= j < now.tally.len() implies is_early_mark(
            ctx,
            #[trigger] now.tally[j],
            n,
        ) by {
            if j < before.tally.len() {
                assert(now.tally[j] == before.tally[j]);
                let k = choose|k: int| 0 <= k < n - 1 && is_mark_of(ctx, before.tally[j], k);
                assert(0 <= k < n && is_mark_of(ctx, now.tally[j], k));
            } else {
                assert(is_mark_of(ctx, now.tally[j], n - 1));
            }
        }
        assert forall|i: int, j: int| 0 <= i < j < now.tally.len() implies (#[trigger] now.tally[i]).rule
            != (#[trigger] now.tally[j]).rule by {
            assert(now.tally[i] == before.tally[i]);
            if j < before.tally.len() {
                assert(now.tally[j] == before.tally[j]);
            }
        }
        assert forall|k: int| 0 <= k < n && #[trigger] fires(ctx, k) implies is_failed(
            now.tally,
            ids()[k],
        ) by {
            if k < n - 1 {
                let j = choose|j: int|
                    0 <= j < before.tally.len() && (#[trigger] before.tally[j]).rule == ids()[k]
                        && before.tally[j].failed;
                assert(now.tally[j] == before.tally[j]);
            }
        }
        if before.findings.len() > 0 {
            let k = choose|k: int| 0 <= k < n - 1 && fires(ctx, k);
            assert(0 <= k < n && fires(ctx, k));
        }
        if exists|k: int| 0 <= k < n && fires(ctx, k) {
            let k = choose|k: int| 0 <= k < n && fires(ctx, k);
            if k < n - 1 {
                assert(0 <= k < n - 1 && fires(ctx, k));
            }
        }
        if fires(ctx, n - 1) {
            assert(0 <= n - 1 < n && fires(ctx, n - 1));
        }
    }
}

proof fn lemma_failed_count(list: Seq<MarkView>, p: Part)
    ensures
        failed_count(list, p) >= 0,
        failed_count(list, p) > 0 <==> exists|j: int|
            0 <= j < list.len() && (#[trigger] list[j]).failed && part_of(list[j].rule) == Some(p),
    decreases list.len(),
{
    if list.len() > 0 {
        let init = list.drop_last();
        lemma_failed_count(init, p);
        if failed_count(init, p) > 0 {
            let j = choose|j: int|
                0 <= j < init.len() && (#[trigger] init[j]).failed && part_of(init[j].rule)
                    == Some(p);
            assert(list[j].failed && part_of(list[j].rule) == Some(p));
        }
        if exists|j: int|
            0 <= j < list.len() && (#[trigger] list[j]).failed && part_of(list[j].rule) == Some(
                p,
            ) {
            let j = choose|j: int|
                0 <= j < list.len() && (#[trigger] list[j]).failed && part_of(list[j].rule)
                    == Some(p);
            if j < init.len() {
                assert(init[j].failed && part_of(init[j].rule) == Some(p));
            }
        }
    }
}

/// A mark of a rule is that of its place in the registry.
proof fn lemma_mark_place(ctx: ContextView, n: int)
    requires
        0 <= n < ids().len(),
    ensures
        is_marked(sink_of(ctx).tally, ids()[n]) ==> runs(ctx, ctx.cfg.disabled, n) && (outcome(
            n,
            ctx,
        ).applies || outcome(n, ctx).reports.len() > 0),
        is_failed(sink_of(ctx).tally, ids()[n]) <==> fires(ctx, n),
{
    let tally = sink_of(ctx).tally;
    lemma_marks(ctx, ids().len() as int);
    if is_marked(tally, ids()[n]) {
        let j = choose|j: int| 0 <= j < tally.len() && (#[trigger] tally[j]).rule == ids()[n];
        let k = choose|k: int| 0 <= k < ids().len() && is_mark_of(ctx, tally[j], k);
        lemma_ids(k, n);
    }
    if is_failed(tally, ids()[n]) {
        let j = choose|j: int|
            0 <= j < tally.len() && (#[trigger] tally[j]).rule == ids()[n] && tally[j].failed;
        let k = choose|k: int| 0 <= k < ids().len() && is_mark_of(ctx, tally[j], k);
        lemma_ids(k, n);
    }
}

/// The share of a budget that was checked is full exactly when its rule did not
/// fire.
proof fn lemma_budget(ctx: ContextView)
    ensures
        (forall|i: int|
            0 <= i < budgets_of(ctx.tokens, ctx.cfg, ctx.target.kind, sink_of(ctx).tally).len()
                ==> (#[trigger] budgets_of(
                ctx.tokens,
                ctx.cfg,
                ctx.target.kind,
                sink_of(ctx).tally,
            )[i]).num == 100 * budgets_of(
                ctx.tokens,
                ctx.cfg,
                ctx.target.kind,
                sink_of(ctx).tally,
            )[i].den) <==> !fires(ctx, 13) && !fires(ctx, 14) && !fires(ctx, 15),
{
    let tally = sink_of(ctx).tally;
    let cfg = ctx.cfg;
    let list = budgets_of(ctx.tokens, cfg, ctx.target.kind, tally);
    lemma_mark_place(ctx, 13);
    lemma_mark_place(ctx, 14);
    lemma_mark_place(ctx, 15);
    let a = is_marked(tally, ids()[13]);
    let b = is_marked(tally, ids()[14]);
    let c = is_marked(tally, ids()[15]);
    let sa = budget_share(ctx.tokens.content as int, cfg.content_limit(ctx.target.kind));
    let sb = budget_share(ctx.tokens.name as int, cfg.max_skill_name_tokens);
    let sc = budget_share(ctx.tokens.description as int, cfg.max_skill_description_tokens);
    assert(fires(ctx, 13) ==> a) by {
        lemma_failed_is_marked(tally, ids()[13]);
    }
    assert(fires(ctx, 14) ==> b) by {
        lemma_failed_is_marked(tally, ids()[14]);
    }
    assert(fires(ctx, 15) ==> c) by {
        lemma_failed_is_marked(tally, ids()[15]);
    }
    assert(a ==> (sa.num == 100 * sa.den <==> !fires(ctx, 13)));
    assert(b ==> (sb.num == 100 * sb.den <==> !fires(ctx, 14)));
    assert(c ==> (sc.num == 100 * sc.den <==> !fires(ctx, 15)));
    let x = if a {
        1int
    } else {
        0
    };
    let y = if b {
        x + 1
    } else {
        x
    };
    assert(a ==> list[0] == sa);
    assert(b ==> list[x] == sb);
    assert(c ==> list[y] == sc);
}

proof fn lemma_failed_is_marked(list: Seq<MarkView>, rule: Seq<char>)
    ensures
        is_failed(list, rule) ==> is_marked(list, rule),
{
}

/// A rule counts once toward the score, however often it reports.
pub proof fn lemma_counted_once(ctx: ContextView)
    ensures
        forall|i: int, j: int|
            0 <= i < j < sink_of(ctx).tally.len() ==> (#[trigger] sink_of(ctx).tally[i]).rule != (
            #[trigger] sink_of(ctx).tally[j]).rule,
{
    lemma_marks(ctx, ids().len() as int);
}

/// A file rates 100 exactly when there is nothing to report of it.
pub proof fn lemma_perfect(ctx: ContextView)
    ensures
        result_of(ctx).score == 100 <==> result_of(ctx).findings.len() == 0,
{
    let tally = sink_of(ctx).tally;
    let all = ids().len() as int;
    lemma_full_score(ctx.tokens, ctx.cfg, ctx.target.kind, tally);
    lemma_marks(ctx, all);
    lemma_budget(ctx);
    lemma_mark_place(ctx, 16);
    lemma_failed_is_marked(tally, ids()[16]);
    lemma_failed_count(tally, Part::Frontmatter);
    assert(references_verdict(tally) == Some(true) <==> fires(ctx, 16));
    assert(failed_count(tally, Part::Frontmatter) > 0 <==> exists|k: int|
        0 <= k < 13 && fires(ctx, k)) by {
        lemma_parts();
        if failed_count(tally, Part::Frontmatter) > 0 {
            let j = choose|j: int|
                0 <= j < tally.len() && (#[trigger] tally[j]).failed && part_of(tally[j].rule)
                    == Some(Part::Frontmatter);
            let k = choose|k: int| 0 <= k < all && is_mark_of(ctx, tally[j], k);
            assert(part_of(ids()[k]) == Some(Part::Frontmatter));
            assert(0 <= k < 13 && fires(ctx, k));
        }
        if exists|k: int| 0 <= k < 13 && fires(ctx, k) {
            let k = choose|k: int| 0 <= k < 13 && fires(ctx, k);
            let j = choose|j: int|
                0 <= j < tally.len() && (#[trigger] tally[j]).rule == ids()[k] && tally[j].failed;
            assert(tally[j].failed && part_of(tally[j].rule) == Some(Part::Frontmatter));
        }
    }
    if result_of(ctx).findings.len() > 0 {
        let k = choose|k: int| 0 <= k < all && fires(ctx, k);
        assert(k < 13 || k == 13 || k == 14 || k == 15 || k == 16);
    }
    if exists|k: int| 0 <= k < 13 && fires(ctx, k) {
        let k = choose|k: int| 0 <= k < 13 && fires(ctx, k);
        assert(0 <= k < all && fires(ctx, k));
    }
}

/// The first thirteen rules are those of the front matter.
proof fn lemma_parts()
    ensures
        forall|k: int|
            0 <= k < ids().len() ==> (part_of(#[trigger] ids()[k]) == Some(Part::Frontmatter) <==> k
                < 13),
{
    assert forall|k: int| 0 <= k < ids().len() implies (part_of(#[trigger] ids()[k]) == Some(
        Part::Frontmatter,
    ) <==> k < 13) by {
        if k >= 13 {
            lemma_ids(k, 0);
            lemma_ids(k, 1);
            lemma_ids(k, 2);
            lemma_ids(k, 3);
            lemma_ids(k, 4);
            lemma_ids(k, 5);
            lemma_ids(k, 6);
            lemma_ids(k, 7);
            lemma_ids(k, 8);
            lemma_ids(k, 9);
            lemma_ids(k, 10);
            lemma_ids(k, 11);
            lemma_ids(k, 12);
        }
    }
}

} // verus!
