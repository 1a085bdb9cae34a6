//! Rules over a skill's `description`.

use vstd::prelude::*;

use crate::discover::Kind;
use crate::lint::ids::{RULE_DESCRIPTION_LENGTH, RULE_DESCRIPTION_REQUIRED};
use crate::lint::rule::Rule;
use crate::lint::{ContextView, FileContext, FindingSink, Outcome, MAX_DESCRIPTION_CHARS};
use crate::number::{decimal, write_natural};
use crate::text::to_chars;

verus! {

/// The line a skill's description is on.
pub open spec fn description_line(ctx: ContextView) -> int {
    ctx.doc.frontmatter.line("description"@)
}

pub const DESCRIPTION_REQUIRED_MESSAGE: &'static str =
    "description is required and must be a non-empty string";

/// `description` is present and a non-empty string.
#[derive(Debug)]
pub struct Required;

impl Rule for Required {
    open spec fn label(&self) -> Seq<char> {
        RULE_DESCRIPTION_REQUIRED@
    }

    open spec fn covers(&self, kind: Kind) -> bool {
        kind == Kind::Skill
    }

    open spec fn outcome(&self, ctx: ContextView) -> Outcome {
        if !ctx.has_mapping() {
            Outcome::quiet()
        } else if ctx.description is None {
            Outcome::error(description_line(ctx), DESCRIPTION_REQUIRED_MESSAGE@)
        } else {
            Outcome::passed()
        }
    }

    fn id(&self) -> (r: &'static str) {
        RULE_DESCRIPTION_REQUIRED
    }

    fn applies_to(&self, kind: Kind) -> (r: bool) {
        kind == Kind::Skill
    }

    fn check(&self, ctx: &FileContext<'_>, sink: &mut FindingSink) {
        proof {
            sink@.lemma_quiet();
        }
        let Some(fm) = ctx.frontmatter() else {
            return;
        };
        if ctx.description().is_none() {
            sink.error(fm.line("description"), DESCRIPTION_REQUIRED_MESSAGE.to_string());
        } else {
            sink.applies();
        }
    }
}

/// `description` is at most [`MAX_DESCRIPTION_CHARS`] characters.
#[derive(Debug)]
pub struct Length;

impl Rule for Length {
    open spec fn label(&self) -> Seq<char> {
        RULE_DESCRIPTION_LENGTH@
    }

    open spec fn covers(&self, kind: Kind) -> bool {
        kind == Kind::Skill
    }

    open spec fn outcome(&self, ctx: ContextView) -> Outcome {
        match ctx.description {
            None => Outcome::quiet(),
            Some(text) => if text.len() <= MAX_DESCRIPTION_CHARS {
                Outcome::passed()
            } else {
                Outcome::error(
                    description_line(ctx),
                    "description is "@ + decimal(text.len()) + " characters, over the "@ + decimal(
                        MAX_DESCRIPTION_CHARS as nat,
                    ) + " character limit"@,
                )
            },
        }
    }

    fn id(&self) -> (r: &'static str) {
        RULE_DESCRIPTION_LENGTH
    }

    fn applies_to(&self, kind: Kind) -> (r: bool) {
        kind == Kind::Skill
    }

    fn check(&self, ctx: &FileContext<'_>, sink: &mut FindingSink) {
        proof {
            sink@.lemma_quiet();
        }
        let Some(text) = ctx.description() else {
            return;
        };
        let n: usize = to_chars(text).len();
        if n <= MAX_DESCRIPTION_CHARS {
            sink.applies();
            return;
        }
        let mut m = "description is ".to_string();
        m.append(write_natural(n as u128).as_str());
        m.append(" characters, over the ");
        m.append(write_natural(MAX_DESCRIPTION_CHARS as u128).as_str());
        m.append(" character limit");
        sink.error(ctx.doc.frontmatter.line("description"), m);
    }
}

} // verus!
