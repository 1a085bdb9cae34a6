//! Rules over token budgets. A budget of zero is not checked.

use vstd::prelude::*;

use crate::discover::Kind;
use crate::lint::ids::{RULE_TOKENS_CONTENT, RULE_TOKENS_DESCRIPTION, RULE_TOKENS_NAME};
use crate::lint::rule::Rule;
use crate::lint::{ContextView, FileContext, FindingSink, Outcome};
use crate::number::{grouped, write_grouped};

verus! {

/// What a budget rule makes of a count: `what` says what was counted.
pub open spec fn budget_outcome(what: Seq<char>, line: int, count: int, limit: int) -> Outcome {
    if limit <= 0 {
        Outcome::quiet()
    } else if count <= limit {
        Outcome::passed()
    } else {
        Outcome::error(
            line,
            what + " is "@ + grouped(count as nat) + " tokens, over the "@ + grouped(limit as nat)
                + " token limit"@,
        )
    }
}

fn check_budget(what: &str, line: usize, count: usize, limit: i64, sink: &mut FindingSink)
    ensures
        final(sink)@ == old(sink)@.after(
            budget_outcome(what@, line as int, count as int, limit as int),
        ),
{
    proof {
        sink@.lemma_quiet();
    }
    if limit <= 0 {
        return;
    }
    if count as u128 <= limit as u128 {
        sink.applies();
        return;
    }
    let mut m = what.to_owned();
    m.append(" is ");
    m.append(write_grouped(count as u128).as_str());
    m.append(" tokens, over the ");
    m.append(write_grouped(limit as u128).as_str());
    m.append(" token limit");
    sink.error(line, m);
}

/// The body is within its token budget.
#[derive(Debug)]
pub struct Content;

impl Rule for Content {
    open spec fn label(&self) -> Seq<char> {
        RULE_TOKENS_CONTENT@
    }

    open spec fn covers(&self, kind: Kind) -> bool {
        true
    }

    open spec fn outcome(&self, ctx: ContextView) -> Outcome {
        budget_outcome(
            "content"@,
            0,
            ctx.tokens.content as int,
            ctx.cfg.content_limit(ctx.target.kind),
        )
    }

    fn id(&self) -> (r: &'static str) {
        RULE_TOKENS_CONTENT
    }

    fn applies_to(&self, _kind: Kind) -> (r: bool) {
        true
    }

    fn check(&self, ctx: &FileContext<'_>, sink: &mut FindingSink) {
        let limit: i64 = ctx.cfg.content_limit(ctx.target.kind);
        check_budget("content", 0, ctx.tokens.content, limit, sink);
    }
}

/// `name` is within its token budget.
#[derive(Debug)]
pub struct Name;

impl Rule for Name {
    open spec fn label(&self) -> Seq<char> {
        RULE_TOKENS_NAME@
    }

    open spec fn covers(&self, kind: Kind) -> bool {
        kind == Kind::Skill
    }

    open spec fn outcome(&self, ctx: ContextView) -> Outcome {
        if ctx.name is None {
            Outcome::quiet()
        } else {
            budget_outcome(
                "name"@,
                ctx.doc.frontmatter.line("name"@),
                ctx.tokens.name as int,
                ctx.cfg.max_skill_name_tokens,
            )
        }
    }

    fn id(&self) -> (r: &'static str) {
        RULE_TOKENS_NAME
    }

    fn applies_to(&self, kind: Kind) -> (r: bool) {
        kind == Kind::Skill
    }

    fn check(&self, ctx: &FileContext<'_>, sink: &mut FindingSink) {
        proof {
            sink@.lemma_quiet();
        }
        if ctx.name().is_none() {
            return;
        }
        let line: usize = ctx.doc.frontmatter.line("name");
        let limit: i64 = ctx.cfg.max_skill_name_tokens;
        check_budget("name", line, ctx.tokens.name, limit, sink);
    }
}

/// `description` is within its token budget.
#[derive(Debug)]
pub struct Description;

impl Rule for Description {
    open spec fn label(&self) -> Seq<char> {
        RULE_TOKENS_DESCRIPTION@
    }

    open spec fn covers(&self, kind: Kind) -> bool {
        kind == Kind::Skill
    }

    open spec fn outcome(&self, ctx: ContextView) -> Outcome {
        if ctx.description is None {
            Outcome::quiet()
        } else {
            budget_outcome(
                "description"@,
                ctx.doc.frontmatter.line("description"@),
                ctx.tokens.description as int,
                ctx.cfg.max_skill_description_tokens,
            )
        }
    }

    fn id(&self) -> (r: &'static str) {
        RULE_TOKENS_DESCRIPTION
    }

    fn applies_to(&self, kind: Kind) -> (r: bool) {
        kind == Kind::Skill
    }

    fn check(&self, ctx: &FileContext<'_>, sink: &mut FindingSink) {
        proof {
            sink@.lemma_quiet();
        }
        if ctx.description().is_none() {
            return;
        }
        let line: usize = ctx.doc.frontmatter.line("description");
        let limit: i64 = ctx.cfg.max_skill_description_tokens;
        check_budget("description", line, ctx.tokens.description, limit, sink);
    }
}

} // verus!
