//! Rules over the types of the optional front-matter fields.

use vstd::prelude::*;

use crate::discover::Kind;
use crate::lint::ids::{RULE_ALLOWED_TOOLS_TYPE, RULE_METADATA_TYPE};
use crate::lint::rule::Rule;
use crate::lint::{ContextView, FileContext, FindingSink, Outcome};
use crate::parse::{Value, ValueView};

verus! {

pub const ALLOWED_TOOLS_MESSAGE: &'static str =
    "allowed-tools must be a list of names or a comma-separated string";

pub const METADATA_MESSAGE: &'static str = "metadata must be a mapping";

/// `allowed-tools` is a list of names, or a comma-separated string.
#[derive(Debug)]
pub struct AllowedToolsType;

impl Rule for AllowedToolsType {
    open spec fn label(&self) -> Seq<char> {
        RULE_ALLOWED_TOOLS_TYPE@
    }

    open spec fn covers(&self, kind: Kind) -> bool {
        kind == Kind::Skill
    }

    open spec fn outcome(&self, ctx: ContextView) -> Outcome {
        let fm = ctx.doc.frontmatter;
        if !ctx.has_mapping() || !fm.has("allowed-tools"@) {
            Outcome::quiet()
        } else if fm.string_slice("allowed-tools"@) is None {
            Outcome::error(fm.line("allowed-tools"@), ALLOWED_TOOLS_MESSAGE@)
        } else {
            Outcome::passed()
        }
    }

    fn id(&self) -> (r: &'static str) {
        RULE_ALLOWED_TOOLS_TYPE
    }

    fn applies_to(&self, kind: Kind) -> (r: bool) {
        kind == Kind::Skill
    }

    fn check(&self, ctx: &FileContext<'_>, sink: &mut FindingSink) {
        proof {
            sink@.lemma_quiet();
        }
        let Some(fm) = ctx.frontmatter() else {
            return;
        };
        if !fm.has("allowed-tools") {
            return;
        }
        if fm.string_slice("allowed-tools").is_none() {
            sink.error(fm.line("allowed-tools"), ALLOWED_TOOLS_MESSAGE.to_string());
        } else {
            sink.applies();
        }
    }
}

/// `metadata` is a mapping when present.
#[derive(Debug)]
pub struct MetadataType;

impl Rule for MetadataType {
    open spec fn label(&self) -> Seq<char> {
        RULE_METADATA_TYPE@
    }

    open spec fn covers(&self, kind: Kind) -> bool {
        kind == Kind::Skill
    }

    open spec fn outcome(&self, ctx: ContextView) -> Outcome {
        let fm = ctx.doc.frontmatter;
        if !ctx.has_mapping() || !fm.has("metadata"@) {
            Outcome::quiet()
        } else if fm.node("metadata"@) == Some(ValueView::Mapping) {
            Outcome::passed()
        } else {
            Outcome::error(fm.line("metadata"@), METADATA_MESSAGE@)
        }
    }

    fn id(&self) -> (r: &'static str) {
        RULE_METADATA_TYPE
    }

    fn applies_to(&self, kind: Kind) -> (r: bool) {
        kind == Kind::Skill
    }

    fn check(&self, ctx: &FileContext<'_>, sink: &mut FindingSink) {
        proof {
            sink@.lemma_quiet();
        }
        let Some(fm) = ctx.frontmatter() else {
            return;
        };
        match fm.node("metadata") {
            None => {},
            Some(Value::Mapping) => {
                sink.applies();
            },
            Some(_) => {
                sink.error(fm.line("metadata"), METADATA_MESSAGE.to_string());
            },
        }
    }
}

} // verus!
