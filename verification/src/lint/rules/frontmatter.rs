//! Rules over the front-matter block itself: whether it is there, parseable,
//! and made only of keys the spec defines.

use vstd::prelude::*;

use crate::discover::Kind;
use crate::lint::ids::{
    RULE_FRONTMATTER_INVALID, RULE_FRONTMATTER_MISSING, RULE_FRONTMATTER_NOT_FIRST,
    RULE_FRONTMATTER_UNKNOWN_KEY, RULE_FRONTMATTER_UNTERMINATED,
};
use crate::lint::rule::Rule;
use crate::lint::{ContextView, FileContext, FindingSink, Outcome, Report, Severity};
use crate::parse::{ErrKind, FrontmatterView};
use crate::text::{debug_text, quoted, same, texts};

verus! {

/// The front-matter keys that a skill may have. Anything else is reported as
/// an unknown key.
pub open spec fn is_known_key(key: Seq<char>) -> bool {
    ||| key == "name"@
    ||| key == "description"@
    ||| key == "license"@
    ||| key == "compatibility"@
    ||| key == "metadata"@
    ||| key == "allowed-tools"@
    ||| key == "disable-model-invocation"@
    ||| key == "argument-hint"@
}

fn known_key(key: &str) -> (r: bool)
    ensures
        r == is_known_key(key@),
{
    same(key, "name") || same(key, "description") || same(key, "license") || same(
        key,
        "compatibility",
    ) || same(key, "metadata") || same(key, "allowed-tools") || same(
        key,
        "disable-model-invocation",
    ) || same(key, "argument-hint")
}

/// The block that a skill must open with.
#[derive(Debug)]
pub struct Missing;

pub const MISSING_MESSAGE: &'static str =
    "missing YAML front matter: a skill must open with a --- fenced block declaring name and description";

impl Rule for Missing {
    open spec fn label(&self) -> Seq<char> {
        RULE_FRONTMATTER_MISSING@
    }

    open spec fn covers(&self, kind: Kind) -> bool {
        kind == Kind::Skill
    }

    open spec fn outcome(&self, ctx: ContextView) -> Outcome {
        if ctx.doc.error is Some {
            Outcome::quiet()
        } else if ctx.doc.frontmatter.present {
            Outcome::passed()
        } else {
            Outcome::error(1, MISSING_MESSAGE@)
        }
    }

    fn id(&self) -> (r: &'static str) {
        RULE_FRONTMATTER_MISSING
    }

    fn applies_to(&self, kind: Kind) -> (r: bool) {
        kind == Kind::Skill
    }

    fn check(&self, ctx: &FileContext<'_>, sink: &mut FindingSink) {
        proof {
            sink@.lemma_quiet();
        }
        if ctx.doc.error.is_some() {
            return;
        }
        if ctx.doc.frontmatter.is_present() {
            sink.applies();
            return;
        }
        sink.error(1, MISSING_MESSAGE.to_string());
    }
}

/// What a rule makes of a parse error of one kind.
pub open spec fn error_outcome(ctx: ContextView, kind: ErrKind) -> Outcome {
    match ctx.error_of(kind) {
        Some(e) => Outcome::error(e.line, e.msg),
        None => Outcome::quiet(),
    }
}

fn report_error(ctx: &FileContext<'_>, kind: ErrKind, sink: &mut FindingSink)
    ensures
        final(sink)@ == old(sink)@.after(error_outcome(ctx@, kind)),
{
    proof {
        sink@.lemma_quiet();
    }
    if let Some(e) = ctx.error_of(kind) {
        sink.error(e.line, e.msg.clone());
    }
}

#[derive(Debug)]
pub struct NotFirst;

impl Rule for NotFirst {
    open spec fn label(&self) -> Seq<char> {
        RULE_FRONTMATTER_NOT_FIRST@
    }

    open spec fn covers(&self, kind: Kind) -> bool {
        kind == Kind::Skill
    }

    open spec fn outcome(&self, ctx: ContextView) -> Outcome {
        error_outcome(ctx, ErrKind::NotFirst)
    }

    fn id(&self) -> (r: &'static str) {
        RULE_FRONTMATTER_NOT_FIRST
    }

    fn applies_to(&self, kind: Kind) -> (r: bool) {
        kind == Kind::Skill
    }

    fn check(&self, ctx: &FileContext<'_>, sink: &mut FindingSink) {
        report_error(ctx, ErrKind::NotFirst, sink);
    }
}

/// Reported for AGENTS.md too: an unclosed fence swallows the document
/// whatever the file is, so it is not a skill-spec question.
#[derive(Debug)]
pub struct Unterminated;

impl Rule for Unterminated {
    open spec fn label(&self) -> Seq<char> {
        RULE_FRONTMATTER_UNTERMINATED@
    }

    open spec fn covers(&self, kind: Kind) -> bool {
        true
    }

    open spec fn outcome(&self, ctx: ContextView) -> Outcome {
        error_outcome(ctx, ErrKind::Unterminated)
    }

    fn id(&self) -> (r: &'static str) {
        RULE_FRONTMATTER_UNTERMINATED
    }

    fn applies_to(&self, _kind: Kind) -> (r: bool) {
        true
    }

    fn check(&self, ctx: &FileContext<'_>, sink: &mut FindingSink) {
        report_error(ctx, ErrKind::Unterminated, sink);
    }
}

/// The block is not YAML, or not a mapping.
#[derive(Debug)]
pub struct Invalid;

impl Rule for Invalid {
    open spec fn label(&self) -> Seq<char> {
        RULE_FRONTMATTER_INVALID@
    }

    open spec fn covers(&self, kind: Kind) -> bool {
        kind == Kind::Skill
    }

    open spec fn outcome(&self, ctx: ContextView) -> Outcome {
        match ctx.doc.error {
            Some(e) if e.kind != ErrKind::NotFirst && e.kind != ErrKind::Unterminated =>
                Outcome::error(e.line, e.msg),
            _ => Outcome::quiet(),
        }
    }

    fn id(&self) -> (r: &'static str) {
        RULE_FRONTMATTER_INVALID
    }

    fn applies_to(&self, kind: Kind) -> (r: bool) {
        kind == Kind::Skill
    }

    fn check(&self, ctx: &FileContext<'_>, sink: &mut FindingSink) {
        proof {
            sink@.lemma_quiet();
        }
        if let Some(e) = &ctx.doc.error {
            if e.kind != ErrKind::NotFirst && e.kind != ErrKind::Unterminated {
                sink.error(e.line, e.msg.clone());
            }
        }
    }
}

/// What is reported of the first `n` keys.
pub open spec fn unknown_keys(fm: FrontmatterView, n: int) -> Seq<Report>
    decreases n,
{
    if n <= 0 {
        Seq::empty()
    } else {
        let rest = unknown_keys(fm, n - 1);
        let key = fm.entries[n - 1].key;
        if is_known_key(key) {
            rest
        } else {
            rest.push(
                Report {
                    severity: Severity::Warning,
                    line: fm.line(key),
                    message: "unknown front-matter key "@ + debug_text(key),
                },
            )
        }
    }
}

#[derive(Debug)]
pub struct UnknownKey;

impl Rule for UnknownKey {
    open spec fn label(&self) -> Seq<char> {
        RULE_FRONTMATTER_UNKNOWN_KEY@
    }

    open spec fn covers(&self, kind: Kind) -> bool {
        kind == Kind::Skill
    }

    open spec fn outcome(&self, ctx: ContextView) -> Outcome {
        if ctx.has_mapping() {
            let fm = ctx.doc.frontmatter;
            Outcome { applies: true, reports: unknown_keys(fm, fm.entries.len() as int) }
        } else {
            Outcome::quiet()
        }
    }

    fn id(&self) -> (r: &'static str) {
        RULE_FRONTMATTER_UNKNOWN_KEY
    }

    fn applies_to(&self, kind: Kind) -> (r: bool) {
        kind == Kind::Skill
    }

    fn check(&self, ctx: &FileContext<'_>, sink: &mut FindingSink) {
        let ghost start = sink@;
        proof {
            start.lemma_quiet();
        }
        let Some(fm) = ctx.frontmatter() else {
            return;
        };
        sink.applies();
        let keys = fm.keys();
        let mut i: usize = 0;
        while i < keys.len()
            invariant
                i <= keys@.len(),
                fm.wf(),
                texts(keys@) == fm@.keys(),
                sink@ == start.after(
                    (Outcome { applies: true, reports: unknown_keys(fm@, i as int) }),
                ),
            decreases keys@.len() - i,
        {
            let key = keys[i].as_str();
            let ghost so_far = Outcome { applies: true, reports: unknown_keys(fm@, i as int) };
            assert(texts(keys@).len() == fm@.keys().len());
            assert(fm@.keys()[i as int] == texts(keys@)[i as int]);
            assert(fm@.entries[i as int].key == key@);
            if !known_key(key) {
                let mut m = "unknown front-matter key ".to_string();
                m.append(quoted(key).as_str());
                let line: usize = fm.line(key);
                proof {
                    let fault = Outcome::warning(line as int, m@);
                    start.lemma_after(so_far, fault);
                    assert(so_far.and(fault) =~= (Outcome {
                        applies: true,
                        reports: unknown_keys(fm@, i + 1),
                    }));
                }
                sink.warn(line, m);
            }
            i += 1;
        }
        assert(fm@.keys().len() == fm@.entries.len());
    }
}

} // verus!
