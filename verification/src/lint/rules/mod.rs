//! The registry of rules.

pub mod description;
pub mod fields;
pub mod frontmatter;
pub mod name;
pub mod references;
pub mod tokens;

use vstd::prelude::*;

use crate::config::ConfigView;
use crate::discover::Kind;
use crate::lint::ids::ids;
use crate::lint::rule::Rule;
use crate::lint::{
    fresh_sink, result_of, sink_of, ContextView, FileContext, FindingSink, FindingView, Outcome,
    Severity, SinkView,
};
use crate::text::{holds, split, texts};

verus! {

/// Which kinds of file the rule at a place in the registry judges: all of
/// them for an unclosed fence, the body's budget and file references, and
/// skills alone for the rest.
pub open spec fn covers(n: int, kind: Kind) -> bool {
    n == 2 || n == 13 || n == 16 || kind == Kind::Skill
}

/// What the rule at a place in the registry makes of a file.
pub open spec fn outcome(n: int, ctx: ContextView) -> Outcome {
    if n == 0 {
        frontmatter::Missing.outcome(ctx)
    } else if n == 1 {
        frontmatter::NotFirst.outcome(ctx)
    } else if n == 2 {
        frontmatter::Unterminated.outcome(ctx)
    } else if n == 3 {
        frontmatter::Invalid.outcome(ctx)
    } else if n == 4 {
        frontmatter::UnknownKey.outcome(ctx)
    } else if n == 5 {
        name::Required.outcome(ctx)
    } else if n == 6 {
        name::Format.outcome(ctx)
    } else if n == 7 {
        name::Length.outcome(ctx)
    } else if n == 8 {
        name::DirMismatch.outcome(ctx)
    } else if n == 9 {
        description::Required.outcome(ctx)
    } else if n == 10 {
        description::Length.outcome(ctx)
    } else if n == 11 {
        fields::AllowedToolsType.outcome(ctx)
    } else if n == 12 {
        fields::MetadataType.outcome(ctx)
    } else if n == 13 {
        tokens::Content.outcome(ctx)
    } else if n == 14 {
        tokens::Name.outcome(ctx)
    } else if n == 15 {
        tokens::Description.outcome(ctx)
    } else {
        references::Missing.outcome(ctx)
    }
}

/// The sink after the first `n` rules of the registry ran on a file, those
/// that do not judge its kind or are disabled left out.
pub open spec fn ran(ctx: ContextView, disabled: Seq<Seq<char>>, start: SinkView, n: int) -> SinkView
    decreases n,
{
    if n <= 0 {
        start
    } else {
        let before = ran(ctx, disabled, start, n - 1);
        let id = ids()[n - 1];
        if covers(n - 1, ctx.target.kind) && !disabled.contains(id) {
            SinkView { rule: id, ..before }.after(outcome(n - 1, ctx))
        } else {
            before
        }
    }
}

/// Runs one rule, unless it does not judge this kind of file or is disabled.
fn apply<R: Rule>(rule: &R, ctx: &FileContext<'_>, disabled: &Vec<String>, sink: &mut FindingSink)
    requires
        ctx.wf(),
    ensures
        final(sink)@ == if rule.covers(ctx@.target.kind) && !texts(disabled@).contains(
            rule.label(),
        ) {
            SinkView { rule: rule.label(), ..old(sink)@ }.after(rule.outcome(ctx@))
        } else {
            old(sink)@
        },
{
    let id = rule.id();
    if !rule.applies_to(ctx.target.kind) || holds(disabled, id) {
        return;
    }
    sink.begin(id);
    rule.check(ctx, sink);
}

/// Runs every rule, in registry order, so findings come out in that order
/// without a sort.
pub fn run_all(ctx: &FileContext<'_>, disabled: &Vec<String>, sink: &mut FindingSink)
    requires
        ctx.wf(),
    ensures
        final(sink)@ == ran(ctx@, texts(disabled@), old(sink)@, ids().len() as int),
{
    let ghost (view, off, start) = (ctx@, texts(disabled@), sink@);
    assert(ran(view, off, start, 0) == start);
    apply(&frontmatter::Missing, ctx, disabled, sink);
    assert(sink@ == ran(view, off, start, 1));
    apply(&frontmatter::NotFirst, ctx, disabled, sink);
    assert(sink@ == ran(view, off, start, 2));
    apply(&frontmatter::Unterminated, ctx, disabled, sink);
    assert(sink@ == ran(view, off, start, 3));
    apply(&frontmatter::Invalid, ctx, disabled, sink);
    assert(sink@ == ran(view, off, start, 4));
    apply(&frontmatter::UnknownKey, ctx, disabled, sink);
    assert(sink@ == ran(view, off, start, 5));
    apply(&name::Required, ctx, disabled, sink);
    assert(sink@ == ran(view, off, start, 6));
    apply(&name::Format, ctx, disabled, sink);
    assert(sink@ == ran(view, off, start, 7));
    apply(&name::Length, ctx, disabled, sink);
    assert(sink@ == ran(view, off, start, 8));
    apply(&name::DirMismatch, ctx, disabled, sink);
    assert(sink@ == ran(view, off, start, 9));
    apply(&description::Required, ctx, disabled, sink);
    assert(sink@ == ran(view, off, start, 10));
    apply(&description::Length, ctx, disabled, sink);
    assert(sink@ == ran(view, off, start, 11));
    apply(&fields::AllowedToolsType, ctx, disabled, sink);
    assert(sink@ == ran(view, off, start, 12));
    apply(&fields::MetadataType, ctx, disabled, sink);
    assert(sink@ == ran(view, off, start, 13));
    apply(&tokens::Content, ctx, disabled, sink);
    assert(sink@ == ran(view, off, start, 14));
    apply(&tokens::Name, ctx, disabled, sink);
    assert(sink@ == ran(view, off, start, 15));
    apply(&tokens::Description, ctx, disabled, sink);
    assert(sink@ == ran(view, off, start, 16));
    apply(&references::Missing, ctx, disabled, sink);
    assert(sink@ == ran(view, off, start, 17));
}

/// Whether the rule at place `n` runs on a file.
pub open spec fn runs(ctx: ContextView, disabled: Seq<Seq<char>>, n: int) -> bool {
    0 <= n < ids().len() && covers(n, ctx.target.kind) && !disabled.contains(ids()[n])
}

/// Whether `places` says where in the registry the rules of some findings
/// stand: in order, and each of a rule that runs on the file.
pub open spec fn in_order(
    ctx: ContextView,
    disabled: Seq<Seq<char>>,
    findings: Seq<FindingView>,
    places: Seq<int>,
) -> bool {
    &&& places.len() == findings.len()
    &&& forall|i: int|
        0 <= i < places.len() ==> runs(ctx, disabled, #[trigger] places[i]) && findings[i].rule
            == ids()[places[i]]
    &&& forall|i: int, j: int| 0 <= i <= j < places.len() ==> places[i] <= places[j]
}

proof fn lemma_ran(ctx: ContextView, disabled: Seq<Seq<char>>, start: SinkView, n: int) -> (places:
    Seq<int>)
    requires
        0 <= n <= ids().len(),
        start.findings.len() == 0,
        start.tally.len() == 0,
    ensures
        in_order(ctx, disabled, ran(ctx, disabled, start, n).findings, places),
        forall|i: int| 0 <= i < places.len() ==> #[trigger] places[i] < n,
        forall|i: int|
            0 <= i < ran(ctx, disabled, start, n).tally.len() ==> !disabled.contains(
                (#[trigger] ran(ctx, disabled, start, n).tally[i]).rule,
            ),
    decreases n,
{
    if n <= 0 {
        Seq::empty()
    } else {
        let before = ran(ctx, disabled, start, n - 1);
        let earlier = lemma_ran(ctx, disabled, start, n - 1);
        let id = ids()[n - 1];
        if covers(n - 1, ctx.target.kind) && !disabled.contains(id) {
            let reports = outcome(n - 1, ctx).reports;
            let places = earlier + Seq::new(reports.len(), |i: int| n - 1);
            let now = ran(ctx, disabled, start, n);
            assert forall|i: int| 0 <= i < places.len() implies runs(
                ctx,
                disabled,
                #[trigger] places[i],
            ) && now.findings[i].rule == ids()[places[i]] by {
                if i < earlier.len() {
                    assert(places[i] == earlier[i]);
                    assert(now.findings[i] == before.findings[i]);
                }
            }
            assert forall|i: int| 0 <= i < now.tally.len() implies !disabled.contains(
                (#[trigger] now.tally[i]).rule,
            ) by {
                if i < before.tally.len() {
                    assert(now.tally[i].rule == before.tally[i].rule);
                }
            }
            places
        } else {
            earlier
        }
    }
}

/// Findings come out in registry order, each of a rule that judges this kind
/// of file and is not disabled; and a disabled rule leaves no mark on the
/// score.
pub proof fn lemma_registry_order(ctx: ContextView)
    ensures
        exists|places: Seq<int>|
            in_order(ctx, ctx.cfg.disabled, result_of(ctx).findings, places),
        forall|i: int|
            0 <= i < sink_of(ctx).tally.len() ==> !ctx.cfg.disabled.contains(
                (#[trigger] sink_of(ctx).tally[i]).rule,
            ),
{
    let places = lemma_ran(
        ctx,
        ctx.cfg.disabled,
        fresh_sink(ctx.cfg.strict),
        ids().len() as int,
    );
    assert(in_order(ctx, ctx.cfg.disabled, result_of(ctx).findings, places));
}

/// A context that differs in `--strict` alone.
pub open spec fn strictly(ctx: ContextView, strict: bool) -> ContextView {
    ContextView { cfg: ConfigView { strict, ..ctx.cfg }, ..ctx }
}

proof fn lemma_outcome_strict(ctx: ContextView, strict: bool, n: int)
    ensures
        outcome(n, strictly(ctx, strict)) == outcome(n, ctx),
{
    let other = strictly(ctx, strict);
    let lines = split(ctx.doc.body, '\n');
    references::lemma_same_references(ctx, other, lines, lines.len() as int);
}

/// Whether two findings differ in severity at most.
pub open spec fn same_finding(a: FindingView, b: FindingView) -> bool {
    a.line == b.line && a.rule == b.rule && a.message == b.message
}

proof fn lemma_ran_strict(ctx: ContextView, disabled: Seq<Seq<char>>, n: int)
    ensures
        ({
            let lax = ran(strictly(ctx, false), disabled, fresh_sink(false), n);
            let firm = ran(strictly(ctx, true), disabled, fresh_sink(true), n);
            &&& lax.tally == firm.tally
            &&& lax.rule == firm.rule
            &&& !lax.strict
            &&& firm.strict
            &&& lax.findings.len() == firm.findings.len()
            &&& forall|i: int|
                0 <= i < lax.findings.len() ==> same_finding(
                    #[trigger] lax.findings[i],
                    firm.findings[i],
                ) && firm.findings[i].severity == Severity::Error
        }),
    decreases n,
{
    if n > 0 {
        lemma_ran_strict(ctx, disabled, n - 1);
        lemma_outcome_strict(ctx, false, n - 1);
        lemma_outcome_strict(ctx, true, n - 1);
        let before = ran(strictly(ctx, false), disabled, fresh_sink(false), n - 1);
        let lax = ran(strictly(ctx, false), disabled, fresh_sink(false), n);
        let firm = ran(strictly(ctx, true), disabled, fresh_sink(true), n);
        assert forall|i: int| 0 <= i < lax.findings.len() implies same_finding(
            #[trigger] lax.findings[i],
            firm.findings[i],
        ) && firm.findings[i].severity == Severity::Error by {
            if i < before.findings.len() {
                assert(lax.findings[i] == before.findings[i]);
            }
        }
        assert(lax.tally == firm.tally);
        assert(lax.rule == firm.rule);
        assert(!lax.strict && firm.strict);
        assert(lax.findings.len() == firm.findings.len());
    }
}

/// `--strict` only moves severities: the findings are the same otherwise, all
/// of them errors, and the score does not change.
pub proof fn lemma_strict(ctx: ContextView)
    ensures
        ({
            let lax = result_of(strictly(ctx, false));
            let firm = result_of(strictly(ctx, true));
            &&& lax.score == firm.score
            &&& lax.tokens == firm.tokens
            &&& lax.findings.len() == firm.findings.len()
            &&& forall|i: int|
                0 <= i < lax.findings.len() ==> same_finding(
                    #[trigger] lax.findings[i],
                    firm.findings[i],
                ) && firm.findings[i].severity == Severity::Error
        }),
{
    lemma_ran_strict(ctx, ctx.cfg.disabled, ids().len() as int);
}

} // verus!
