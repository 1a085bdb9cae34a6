//! Rules over a skill's `name`.

use vstd::prelude::*;

use crate::discover::Kind;
use crate::lint::ids::{
    RULE_NAME_DIR_MISMATCH, RULE_NAME_FORMAT, RULE_NAME_LENGTH, RULE_NAME_REQUIRED,
};
use crate::lint::rule::Rule;
use crate::lint::{ContextView, FileContext, FindingSink, Outcome, MAX_NAME_CHARS};
use crate::number::{decimal, write_natural};
use crate::text::{debug_text, quoted, rows, same, split, split_at, to_chars};

verus! {

/// Lower-case ASCII letters and digits.
pub open spec fn is_word_char(c: char) -> bool {
    ('a' <= c <= 'z') || ('0' <= c <= '9')
}

pub open spec fn is_word(s: Seq<char>) -> bool {
    s.len() > 0 && forall|i: int| 0 <= i < s.len() ==> is_word_char(#[trigger] s[i])
}

/// Words of lower-case letters and digits, with one hyphen between two.
pub open spec fn is_skill_name(s: Seq<char>) -> bool {
    forall|k: int| 0 <= k < split(s, '-').len() ==> is_word(#[trigger] split(s, '-')[k])
}

fn word(s: &[char]) -> (r: bool)
    ensures
        r == is_word(s@),
{
    let mut i: usize = 0;
    while i < s.len()
        invariant
            i <= s@.len(),
            forall|j: int| 0 <= j < i ==> is_word_char(#[trigger] s@[j]),
        decreases s@.len() - i,
    {
        let c = s[i];
        if !(('a' <= c && c <= 'z') || ('0' <= c && c <= '9')) {
            return false;
        }
        i += 1;
    }
    s.len() > 0
}

fn skill_name(s: &str) -> (r: bool)
    ensures
        r == is_skill_name(s@),
{
    let words = split_at(to_chars(s).as_slice(), '-');
    let ghost all = rows(words@);
    let mut k: usize = 0;
    while k < words.len()
        invariant
            k <= words@.len(),
            all == rows(words@),
            all == split(s@, '-'),
            forall|j: int| 0 <= j < k ==> is_word(#[trigger] all[j]),
        decreases words@.len() - k,
    {
        assert(all[k as int] == words@[k as int]@);
        if !word(words[k].as_slice()) {
            return false;
        }
        k += 1;
    }
    true
}

/// The line a skill's name is on.
pub open spec fn name_line(ctx: ContextView) -> int {
    ctx.doc.frontmatter.line("name"@)
}

pub const NAME_REQUIRED_MESSAGE: &'static str = "name is required and must be a non-empty string";

/// `name` is present and a non-empty string.
#[derive(Debug)]
pub struct Required;

impl Rule for Required {
    open spec fn label(&self) -> Seq<char> {
        RULE_NAME_REQUIRED@
    }

    open spec fn covers(&self, kind: Kind) -> bool {
        kind == Kind::Skill
    }

    open spec fn outcome(&self, ctx: ContextView) -> Outcome {
        if !ctx.has_mapping() {
            Outcome::quiet()
        } else if ctx.name is None {
            Outcome::error(name_line(ctx), NAME_REQUIRED_MESSAGE@)
        } else {
            Outcome::passed()
        }
    }

    fn id(&self) -> (r: &'static str) {
        RULE_NAME_REQUIRED
    }

    fn applies_to(&self, kind: Kind) -> (r: bool) {
        kind == Kind::Skill
    }

    fn check(&self, ctx: &FileContext<'_>, sink: &mut FindingSink) {
        proof {
            sink@.lemma_quiet();
        }
        let Some(fm) = ctx.frontmatter() else {
            return;
        };
        if ctx.name().is_none() {
            sink.error(fm.line("name"), NAME_REQUIRED_MESSAGE.to_string());
        } else {
            sink.applies();
        }
    }
}

/// `name` is made of lower-case words with single hyphens between them.
#[derive(Debug)]
pub struct Format;

impl Rule for Format {
    open spec fn label(&self) -> Seq<char> {
        RULE_NAME_FORMAT@
    }

    open spec fn covers(&self, kind: Kind) -> bool {
        kind == Kind::Skill
    }

    open spec fn outcome(&self, ctx: ContextView) -> Outcome {
        match ctx.name {
            None => Outcome::quiet(),
            Some(name) => if is_skill_name(name) {
                Outcome::passed()
            } else {
                Outcome::error(
                    name_line(ctx),
                    "name "@ + debug_text(name) + " must match ^[a-z0-9]+(-[a-z0-9]+)*$"@,
                )
            },
        }
    }

    fn id(&self) -> (r: &'static str) {
        RULE_NAME_FORMAT
    }

    fn applies_to(&self, kind: Kind) -> (r: bool) {
        kind == Kind::Skill
    }

    fn check(&self, ctx: &FileContext<'_>, sink: &mut FindingSink) {
        proof {
            sink@.lemma_quiet();
        }
        let Some(name) = ctx.name() else {
            return;
        };
        if skill_name(name) {
            sink.applies();
            return;
        }
        let mut m = "name ".to_string();
        m.append(quoted(name).as_str());
        m.append(" must match ^[a-z0-9]+(-[a-z0-9]+)*$");
        sink.error(ctx.doc.frontmatter.line("name"), m);
    }
}

/// `name` is at most [`MAX_NAME_CHARS`] characters.
#[derive(Debug)]
pub struct Length;

impl Rule for Length {
    open spec fn label(&self) -> Seq<char> {
        RULE_NAME_LENGTH@
    }

    open spec fn covers(&self, kind: Kind) -> bool {
        kind == Kind::Skill
    }

    open spec fn outcome(&self, ctx: ContextView) -> Outcome {
        match ctx.name {
            None => Outcome::quiet(),
            Some(name) => if name.len() <= MAX_NAME_CHARS {
                Outcome::passed()
            } else {
                Outcome::error(
                    name_line(ctx),
                    "name is "@ + decimal(name.len()) + " characters, over the "@ + decimal(
                        MAX_NAME_CHARS as nat,
                    ) + " character limit"@,
                )
            },
        }
    }

    fn id(&self) -> (r: &'static str) {
        RULE_NAME_LENGTH
    }

    fn applies_to(&self, kind: Kind) -> (r: bool) {
        kind == Kind::Skill
    }

    fn check(&self, ctx: &FileContext<'_>, sink: &mut FindingSink) {
        proof {
            sink@.lemma_quiet();
        }
        let Some(name) = ctx.name() else {
            return;
        };
        let n: usize = to_chars(name).len();
        if n <= MAX_NAME_CHARS {
            sink.applies();
            return;
        }
        let mut m = "name is ".to_string();
        m.append(write_natural(n as u128).as_str());
        m.append(" characters, over the ");
        m.append(write_natural(MAX_NAME_CHARS as u128).as_str());
        m.append(" character limit");
        sink.error(ctx.doc.frontmatter.line("name"), m);
    }
}

/// `name` matches the containing directory.
#[derive(Debug)]
pub struct DirMismatch;

impl Rule for DirMismatch {
    open spec fn label(&self) -> Seq<char> {
        RULE_NAME_DIR_MISMATCH@
    }

    open spec fn covers(&self, kind: Kind) -> bool {
        kind == Kind::Skill
    }

    open spec fn outcome(&self, ctx: ContextView) -> Outcome {
        match (ctx.name, ctx.skill_dir()) {
            (Some(name), Some(dir)) => if name == dir {
                Outcome::passed()
            } else {
                Outcome::warning(
                    name_line(ctx),
                    "name "@ + debug_text(name) + " does not match its directory "@ + debug_text(
                        dir,
                    ),
                )
            },
            _ => Outcome::quiet(),
        }
    }

    fn id(&self) -> (r: &'static str) {
        RULE_NAME_DIR_MISMATCH
    }

    fn applies_to(&self, kind: Kind) -> (r: bool) {
        kind == Kind::Skill
    }

    fn check(&self, ctx: &FileContext<'_>, sink: &mut FindingSink) {
        proof {
            sink@.lemma_quiet();
        }
        let Some(name) = ctx.name() else {
            return;
        };
        let Some(dir) = ctx.skill_dir() else {
            return;
        };
        if same(name, dir.as_str()) {
            sink.applies();
            return;
        }
        let mut m = "name ".to_string();
        m.append(quoted(name).as_str());
        m.append(" does not match its directory ");
        m.append(quoted(dir.as_str()).as_str());
        sink.warn(ctx.doc.frontmatter.line("name"), m);
    }
}

} // verus!
