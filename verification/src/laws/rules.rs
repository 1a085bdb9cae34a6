//! What each rule reports, and of which files.

use vstd::prelude::*;

use crate::config::ConfigView;
use crate::discover::{Kind, TargetView};
use crate::laws::score::{fired_rule, ran_rule};
use crate::lint::ids::{ids, lemma_ids};
use crate::lint::rules::frontmatter::unknown_keys;
use crate::lint::rules::name::{is_skill_name, is_word, is_word_char};
use crate::lint::rules::references::{broken, references_of, ReferenceView};
use crate::lint::rules::{outcome, ran, runs};
use crate::lint::{
    context_of, fresh_sink, is_marked, promoted, result_of, sink_of, ContextView, FindingView,
    MarkView, Report, Severity,
};
use crate::lint::score::score_of;
use crate::number::{decimal, grouped};
use crate::parse::{DocumentView, EntryView, ErrKind, ValueView};
use crate::text::{debug_text, first_index, lemma_first_index, split, trim};
use crate::utils::{absolute, cleaned};

verus! {

/// What a file is told under a rule, in order.
pub open spec fn said(ctx: ContextView, rule: Seq<char>) -> Seq<FindingView> {
    result_of(ctx).findings.filter(|f: FindingView| f.rule == rule)
}

/// Whether a file is told one thing under a rule: where, what, and how bad it
/// is. `--strict` makes an error of it.
pub open spec fn tells(
    ctx: ContextView,
    rule: Seq<char>,
    line: int,
    severity: Severity,
    message: Seq<char>,
) -> bool {
    let list = said(ctx, rule);
    &&& list.len() == 1
    &&& list[0].rule == rule
    &&& list[0].line == line
    &&& list[0].message == message
    &&& list[0].severity == if ctx.cfg.strict {
        Severity::Error
    } else {
        severity
    }
}

proof fn lemma_filter_all(list: Seq<FindingView>, rule: Seq<char>)
    ensures
        (forall|i: int| 0 <= i < list.len() ==> (#[trigger] list[i]).rule == rule) ==> list.filter(
            |f: FindingView| f.rule == rule,
        ) == list,
        (forall|i: int| 0 <= i < list.len() ==> (#[trigger] list[i]).rule != rule) ==> list.filter(
            |f: FindingView| f.rule == rule,
        ) == Seq::<FindingView>::empty(),
    decreases list.len(),
{
    reveal(Seq::filter);
    if list.len() > 0 {
        let init = list.drop_last();
        lemma_filter_all(init, rule);
        assert(init.push(list.last()) =~= list);
        assert(list[list.len() - 1] == list.last());
        assert forall|i: int| 0 <= i < init.len() implies init[i] == list[i] by {}
    } else {
        assert(list.filter(|f: FindingView| f.rule == rule) =~= list);
    }
}

/// What the reports of a rule are filed as.
spec fn filed(ctx: ContextView, rule: Seq<char>, reports: Seq<Report>) -> Seq<FindingView> {
    Seq::new(
        reports.len(),
        |i: int|
            FindingView {
                line: reports[i].line,
                rule,
                severity: promoted(reports[i].severity, ctx.cfg.strict),
                message: reports[i].message,
            },
    )
}

proof fn lemma_ran_says(ctx: ContextView, n: int, m: int)
    requires
        0 <= n < ids().len(),
        0 <= m <= ids().len(),
    ensures
        ran(ctx, ctx.cfg.disabled, fresh_sink(ctx.cfg.strict), m).strict == ctx.cfg.strict,
        ran(ctx, ctx.cfg.disabled, fresh_sink(ctx.cfg.strict), m).findings.filter(
            |f: FindingView| f.rule == ids()[n],
        ) == if n < m && runs(ctx, ctx.cfg.disabled, n) {
            filed(ctx, ids()[n], outcome(n, ctx).reports)
        } else {
            Seq::empty()
        },
    decreases m,
{
    reveal(Seq::filter);
    let rule = ids()[n];
    let keep = |f: FindingView| f.rule == rule;
    let start = fresh_sink(ctx.cfg.strict);
    if m > 0 {
        lemma_ran_says(ctx, n, m - 1);
        let before = ran(ctx, ctx.cfg.disabled, start, m - 1);
        if runs(ctx, ctx.cfg.disabled, m - 1) {
            let more = filed(ctx, ids()[m - 1], outcome(m - 1, ctx).reports);
            let now = ran(ctx, ctx.cfg.disabled, start, m);
            assert(now.findings =~= before.findings + more);
            Seq::filter_distributes_over_add(before.findings, more, keep);
            lemma_filter_all(more, rule);
            if m - 1 != n {
                lemma_ids(m - 1, n);
                lemma_ids(n, m - 1);
                assert forall|i: int| 0 <= i < more.len() implies (#[trigger] more[i]).rule
                    != rule by {}
                assert(now.findings.filter(keep) =~= before.findings.filter(keep));
            } else {
                assert forall|i: int| 0 <= i < more.len() implies (#[trigger] more[i]).rule
                    == rule by {}
                assert(now.findings.filter(keep) =~= more);
            }
        }
    }
}

proof fn lemma_said(ctx: ContextView, n: int)
    requires
        0 <= n < ids().len(),
    ensures
        said(ctx, ids()[n]) == if runs(ctx, ctx.cfg.disabled, n) {
            filed(ctx, ids()[n], outcome(n, ctx).reports)
        } else {
            Seq::empty()
        },
{
    lemma_ran_says(ctx, n, ids().len() as int);
}

/// Whether a name is made of lower-case letters, digits and hyphens, with no
/// hyphen first or last and no two of them side by side.
pub open spec fn is_proper_name(name: Seq<char>) -> bool {
    &&& name.len() > 0
    &&& forall|i: int|
        0 <= i < name.len() ==> ('a' <= #[trigger] name[i] <= 'z') || ('0' <= name[i] <= '9') || name[i]
            == '-'
    &&& name[0] != '-'
    &&& name[name.len() - 1] != '-'
    &&& forall|i: int, j: int|
        0 <= i && j == i + 1 && j < name.len() ==> !(#[trigger] name[i] == '-' && #[trigger] name[j]
            == '-')
}

/// What makes a name a skill's is told by its characters.
pub proof fn lemma_proper_name(name: Seq<char>)
    ensures
        is_skill_name(name) <==> is_proper_name(name),
    decreases name.len(),
{
    let i = first_index(name, '-', 0);
    lemma_first_index(name, '-', 0);
    let words = split(name, '-');
    if i < name.len() {
        let head = name.take(i);
        let rest = name.skip(i + 1);
        let more = split(rest, '-');
        assert(words =~= seq![head] + more);
        lemma_proper_name(rest);
        assert(is_skill_name(name) <==> is_word(head) && is_skill_name(rest)) by {
            assert(words[0] == head);
            assert forall|k: int| 0 <= k < more.len() implies more[k] == #[trigger] words[k + 1] by {}
            if is_skill_name(name) {
                assert forall|k: int| 0 <= k < more.len() implies is_word(#[trigger] more[k]) by {
                    assert(is_word(words[k + 1]));
                }
            }
            if is_word(head) && is_skill_name(rest) {
                assert forall|k: int| 0 <= k < words.len() implies is_word(#[trigger] words[k]) by {
                    if k > 0 {
                        assert(is_word(more[k - 1]));
                    }
                }
            }
        }
        if is_word(head) && is_proper_name(rest) {
            assert forall|k: int| 0 <= k < name.len() implies ('a' <= #[trigger] name[k] <= 'z') || ('0'
                <= name[k] <= '9') || name[k] == '-' by {
                if k < i {
                    assert(is_word_char(head[k]));
                } else if k > i {
                    assert(name[k] == rest[k - i - 1]);
                }
            }
            assert(name[0] == head[0] && is_word_char(head[0]));
            assert(name[name.len() - 1] == rest[rest.len() - 1]);
            assert forall|a: int, b: int| 0 <= a && b == a + 1 && b < name.len() implies !(
            #[trigger] name[a] == '-' && #[trigger] name[b] == '-') by {
                if b < i {
                    assert(is_word_char(head[a]));
                } else if b == i {
                    assert(is_word_char(head[a]));
                } else if a == i {
                    assert(name[b] == rest[0]);
                } else {
                    assert(name[a] == rest[a - i - 1] && name[b] == rest[b - i - 1]);
                }
            }
            assert(is_proper_name(name));
        }
        if is_proper_name(name) {
            assert(i > 0);
            assert(i < name.len() - 1);
            assert forall|k: int| 0 <= k < head.len() implies is_word_char(#[trigger] head[k]) by {
                assert(head[k] == name[k]);
            }
            assert forall|k: int| 0 <= k < rest.len() implies ('a' <= #[trigger] rest[k] <= 'z') || ('0'
                <= rest[k] <= '9') || rest[k] == '-' by {
                assert(rest[k] == name[k + i + 1]);
            }
            assert(rest[0] == name[i + 1]);
            assert(!(name[i] == '-' && name[i + 1] == '-'));
            assert(rest[rest.len() - 1] == name[name.len() - 1]);
            assert forall|a: int, b: int| 0 <= a && b == a + 1 && b < rest.len() implies !(
            #[trigger] rest[a] == '-' && #[trigger] rest[b] == '-') by {
                assert(rest[a] == name[a + i + 1] && rest[b] == name[b + i + 1]);
                assert(!(name[a + i + 1] == '-' && name[b + i + 1] == '-'));
            }
        }
    } else {
        assert(words =~= seq![name]);
        assert(words[0] == name);
        if is_word(name) {
            assert forall|k: int| 0 <= k < name.len() implies ('a' <= #[trigger] name[k] <= 'z') || ('0'
                <= name[k] <= '9') || name[k] == '-' by {
                assert(is_word_char(name[k]));
            }
        }
        if is_proper_name(name) {
            assert forall|k: int| 0 <= k < name.len() implies is_word_char(#[trigger] name[k]) by {}
        }
    }
}

/// A file and what is known of it when it is linted.
pub struct Case {
    pub cfg: ConfigView,
    pub cwd: Seq<char>,
    pub tokens: spec_fn(Seq<char>) -> nat,
    pub target: TargetView,
    pub doc: DocumentView,
    pub existing: Seq<Seq<char>>,
}

impl Case {
    pub open spec fn context(self) -> ContextView {
        context_of(self.cfg, self.cwd, self.tokens, self.target, self.doc, self.existing)
    }

    /// Whether a rule is not switched off.
    pub open spec fn on(self, rule: Seq<char>) -> bool {
        !self.cfg.disabled.contains(rule)
    }

    /// Whether the file is a skill whose front matter can be read.
    pub open spec fn is_readable_skill(self) -> bool {
        self.target.kind == Kind::Skill && self.doc.error is None && self.doc.frontmatter.present
    }

    /// A field of the front matter without the white space around it; empty
    /// where it is no text or not there.
    pub open spec fn field(self, key: Seq<char>) -> Seq<char> {
        match self.doc.frontmatter.string(key) {
            Some(s) => trim(s),
            None => Seq::empty(),
        }
    }
}

/// A switched-off rule tells nothing, and neither does one that is about skills
/// tell an AGENTS.md anything.
pub proof fn lemma_silent_rules(c: Case, n: int)
    requires
        0 <= n < 17,
    ensures
        !c.on(ids()[n]) ==> said(c.context(), ids()[n]).len() == 0,
        c.target.kind == Kind::Agents && n != 2 && n != 13 && n != 16 ==> said(
            c.context(),
            ids()[n],
        ).len() == 0,
        ids()[2] == "frontmatter.unterminated"@,
        ids()[13] == "tokens.content"@,
        ids()[16] == "file-reference.missing"@,
{
    lemma_said(c.context(), n);
}

/// A skill without front matter is told so on its first line, and only such a
/// skill is.
pub proof fn lemma_missing_frontmatter(c: Case)
    requires
        c.target.kind == Kind::Skill,
        c.on("frontmatter.missing"@),
    ensures
        c.doc.error is None && !c.doc.frontmatter.present ==> tells(
            c.context(),
            "frontmatter.missing"@,
            1,
            Severity::Error,
            "missing YAML front matter: a skill must open with a --- fenced block declaring name and description"@,
        ),
        c.doc.error is Some || c.doc.frontmatter.present ==> said(
            c.context(),
            "frontmatter.missing"@,
        ).len() == 0,
{
    lemma_said(c.context(), 0);
}

/// Front matter that cannot be used is told where it is and why, under the rule
/// of its fault alone. An unclosed fence is told to any file.
pub proof fn lemma_faulty_frontmatter(c: Case)
    requires
        c.on("frontmatter.not-first"@) && c.on("frontmatter.unterminated"@) && c.on(
            "frontmatter.invalid"@,
        ),
    ensures
        c.doc.error matches Some(e) && e.kind == ErrKind::Unterminated ==> tells(
            c.context(),
            "frontmatter.unterminated"@,
            c.doc.error->Some_0.line,
            Severity::Error,
            c.doc.error->Some_0.msg,
        ),
        !(c.doc.error matches Some(e) && e.kind == ErrKind::Unterminated) ==> said(
            c.context(),
            "frontmatter.unterminated"@,
        ).len() == 0,
        c.target.kind == Kind::Skill && (c.doc.error matches Some(e) && e.kind == ErrKind::NotFirst)
            ==> tells(
            c.context(),
            "frontmatter.not-first"@,
            c.doc.error->Some_0.line,
            Severity::Error,
            c.doc.error->Some_0.msg,
        ),
        !(c.doc.error matches Some(e) && e.kind == ErrKind::NotFirst) ==> said(
            c.context(),
            "frontmatter.not-first"@,
        ).len() == 0,
        c.target.kind == Kind::Skill && (c.doc.error matches Some(e) && (e.kind
            == ErrKind::InvalidYaml || e.kind == ErrKind::NotMapping)) ==> tells(
            c.context(),
            "frontmatter.invalid"@,
            c.doc.error->Some_0.line,
            Severity::Error,
            c.doc.error->Some_0.msg,
        ),
        !(c.doc.error matches Some(e) && (e.kind == ErrKind::InvalidYaml || e.kind
            == ErrKind::NotMapping)) ==> said(c.context(), "frontmatter.invalid"@).len() == 0,
{
    lemma_said(c.context(), 1);
    lemma_said(c.context(), 2);
    lemma_said(c.context(), 3);
}

/// The keys that a skill's front matter may hold.
pub open spec fn proper_keys() -> Set<Seq<char>> {
    set![
        "name"@,
        "description"@,
        "license"@,
        "compatibility"@,
        "metadata"@,
        "allowed-tools"@,
        "disable-model-invocation"@,
        "argument-hint"@,
    ]
}

/// Entries of which a key is not one that a skill may have.
pub open spec fn improper(entries: Seq<EntryView>) -> Seq<EntryView> {
    entries.filter(|e: EntryView| !proper_keys().contains(e.key))
}

proof fn lemma_unknown(c: Case, n: int)
    requires
        0 <= n <= c.doc.frontmatter.entries.len(),
    ensures
        ({
            let fm = c.doc.frontmatter;
            let odd = improper(fm.entries.take(n));
            let told = unknown_keys(fm, n);
            &&& told.len() == odd.len()
            &&& forall|i: int|
                0 <= i < odd.len() ==> (#[trigger] told[i]).line == fm.line(odd[i].key)
                    && told[i].severity == Severity::Warning && told[i].message
                    == "unknown front-matter key "@ + debug_text(odd[i].key)
        }),
    decreases n,
{
    reveal(Seq::filter);
    let fm = c.doc.frontmatter;
    if n > 0 {
        lemma_unknown(c, n - 1);
        let now = fm.entries.take(n);
        assert(now.drop_last() =~= fm.entries.take(n - 1));
        assert(now.last() == fm.entries[n - 1]);
    }
}

/// Every key that a skill may not have is told, in order, as a warning on its
/// own line, and no other is.
pub proof fn lemma_unknown_keys(c: Case)
    requires
        c.is_readable_skill(),
        c.on("frontmatter.unknown-key"@),
    ensures
        ({
            let odd = improper(c.doc.frontmatter.entries);
            let told = said(c.context(), "frontmatter.unknown-key"@);
            &&& told.len() == odd.len()
            &&& forall|i: int|
                0 <= i < odd.len() ==> (#[trigger] told[i]).line == c.doc.frontmatter.line(odd[i].key)
                    && told[i].message == "unknown front-matter key "@ + debug_text(odd[i].key)
                    && told[i].severity == if c.cfg.strict {
                    Severity::Error
                } else {
                    Severity::Warning
                }
        }),
{
    lemma_said(c.context(), 4);
    let n = c.doc.frontmatter.entries.len() as int;
    assert(c.doc.frontmatter.entries.take(n) =~= c.doc.frontmatter.entries);
    lemma_unknown(c, n);
}

/// A skill whose front matter can be read is told that it needs a name, or a
/// description, exactly where the field is no text or blank.
pub proof fn lemma_required_fields(c: Case)
    requires
        c.is_readable_skill(),
        c.on("name.required"@) && c.on("description.required"@),
    ensures
        c.field("name"@).len() == 0 ==> tells(
            c.context(),
            "name.required"@,
            c.doc.frontmatter.line("name"@),
            Severity::Error,
            "name is required and must be a non-empty string"@,
        ),
        c.field("name"@).len() > 0 ==> said(c.context(), "name.required"@).len() == 0,
        c.field("description"@).len() == 0 ==> tells(
            c.context(),
            "description.required"@,
            c.doc.frontmatter.line("description"@),
            Severity::Error,
            "description is required and must be a non-empty string"@,
        ),
        c.field("description"@).len() > 0 ==> said(c.context(), "description.required"@).len() == 0,
{
    lemma_said(c.context(), 5);
    lemma_said(c.context(), 9);
}

/// A name that is there is told off exactly where its characters are not those
/// of a skill's name.
pub proof fn lemma_name_format(c: Case)
    requires
        c.is_readable_skill(),
        c.on("name.format"@),
    ensures
        c.field("name"@).len() > 0 && !is_proper_name(c.field("name"@)) ==> tells(
            c.context(),
            "name.format"@,
            c.doc.frontmatter.line("name"@),
            Severity::Error,
            "name "@ + debug_text(c.field("name"@)) + " must match ^[a-z0-9]+(-[a-z0-9]+)*$"@,
        ),
        c.field("name"@).len() == 0 || is_proper_name(c.field("name"@)) ==> said(
            c.context(),
            "name.format"@,
        ).len() == 0,
{
    lemma_said(c.context(), 6);
    lemma_proper_name(c.field("name"@));
}

/// A name is told off from its 65th character on, and a description from its
/// 1025th.
pub proof fn lemma_field_lengths(c: Case)
    requires
        c.is_readable_skill(),
        c.on("name.length"@) && c.on("description.length"@),
    ensures
        c.field("name"@).len() > 64 ==> tells(
            c.context(),
            "name.length"@,
            c.doc.frontmatter.line("name"@),
            Severity::Error,
            "name is "@ + decimal(c.field("name"@).len()) + " characters, over the "@ + decimal(64)
                + " character limit"@,
        ),
        c.field("name"@).len() <= 64 ==> said(c.context(), "name.length"@).len() == 0,
        c.field("description"@).len() > 1024 ==> tells(
            c.context(),
            "description.length"@,
            c.doc.frontmatter.line("description"@),
            Severity::Error,
            "description is "@ + decimal(c.field("description"@).len()) + " characters, over the "@
                + decimal(1024) + " character limit"@,
        ),
        c.field("description"@).len() <= 1024 ==> said(c.context(), "description.length"@).len() == 0,
{
    lemma_said(c.context(), 7);
    lemma_said(c.context(), 10);
}

/// A skill in a directory of its own is warned exactly where its name is not
/// the directory's. The working directory is nobody's own.
pub proof fn lemma_own_directory(c: Case, above: Seq<Seq<char>>, dir: Seq<char>, file: Seq<char>)
    requires
        c.is_readable_skill(),
        c.on("name.dir-mismatch"@),
        absolute(c.cwd, c.target.path).parts == above.push(dir).push(file),
        dir != seq!['.', '.'],
        c.field("name"@).len() > 0,
    ensures
        cleaned(c.cwd).rooted == absolute(c.cwd, c.target.path).rooted && cleaned(c.cwd).parts
            == above.push(dir) ==> said(c.context(), "name.dir-mismatch"@).len() == 0,
        cleaned(c.cwd).parts != above.push(dir) && c.field("name"@) == dir ==> said(
            c.context(),
            "name.dir-mismatch"@,
        ).len() == 0,
        cleaned(c.cwd).parts != above.push(dir) && c.field("name"@) != dir ==> tells(
            c.context(),
            "name.dir-mismatch"@,
            c.doc.frontmatter.line("name"@),
            Severity::Warning,
            "name "@ + debug_text(c.field("name"@)) + " does not match its directory "@
                + debug_text(dir),
        ),
        cleaned(c.cwd).parts != above.push(dir) ==> judges(c.context(), "name.dir-mismatch"@),
        cleaned(c.cwd).rooted == absolute(c.cwd, c.target.path).rooted && cleaned(c.cwd).parts
            == above.push(dir) ==> !judges(c.context(), "name.dir-mismatch"@),
{
    lemma_said(c.context(), 8);
    lemma_judged(c.context(), 8);
    let parts = above.push(dir).push(file);
    assert(parts.drop_last() =~= above.push(dir));
    assert(above.push(dir).last() == dir);
    assert(c.context().holding_dir().parts == above.push(dir));
}

/// What `allowed-tools` may be: a text, or a list of texts.
pub open spec fn is_tool_list(v: ValueView) -> bool {
    match v {
        ValueView::Scalar(_) => true,
        ValueView::Sequence(items) => forall|i: int|
            0 <= i < items.len() ==> #[trigger] items[i] is Scalar,
        _ => false,
    }
}

/// The optional fields are told off exactly where they are there and of another
/// type than they must be.
pub proof fn lemma_field_types(c: Case)
    requires
        c.is_readable_skill(),
        c.on("allowed-tools.type"@) && c.on("metadata.type"@),
    ensures
        (c.doc.frontmatter.node("allowed-tools"@) matches Some(v) && !is_tool_list(v)) ==> tells(
            c.context(),
            "allowed-tools.type"@,
            c.doc.frontmatter.line("allowed-tools"@),
            Severity::Error,
            "allowed-tools must be a list of names or a comma-separated string"@,
        ),
        !(c.doc.frontmatter.node("allowed-tools"@) matches Some(v) && !is_tool_list(v)) ==> said(
            c.context(),
            "allowed-tools.type"@,
        ).len() == 0,
        (c.doc.frontmatter.node("metadata"@) matches Some(v) && !(v is Mapping)) ==> tells(
            c.context(),
            "metadata.type"@,
            c.doc.frontmatter.line("metadata"@),
            Severity::Error,
            "metadata must be a mapping"@,
        ),
        !(c.doc.frontmatter.node("metadata"@) matches Some(v) && !(v is Mapping)) ==> said(
            c.context(),
            "metadata.type"@,
        ).len() == 0,
{
    lemma_said(c.context(), 11);
    lemma_said(c.context(), 12);
}

/// Whether a file is told off for a budget exactly where it is exceeded. A
/// limit of zero is none.
pub open spec fn over(
    ctx: ContextView,
    rule: Seq<char>,
    line: int,
    what: Seq<char>,
    count: nat,
    limit: int,
) -> bool {
    if 0 < limit < count {
        tells(
            ctx,
            rule,
            line,
            Severity::Error,
            what + " is "@ + grouped(count) + " tokens, over the "@ + grouped(limit as nat)
                + " token limit"@,
        )
    } else {
        said(ctx, rule).len() == 0
    }
}

/// A file is told off for its body's budget exactly where there is one for its
/// kind and the body costs more; and a skill for its name's and its
/// description's.
pub proof fn lemma_budgets(c: Case)
    requires
        c.on("tokens.content"@) && c.on("tokens.name"@) && c.on("tokens.description"@),
        (c.tokens)(c.doc.body) <= usize::MAX,
        (c.tokens)(c.field("name"@)) <= usize::MAX,
        (c.tokens)(c.field("description"@)) <= usize::MAX,
    ensures
        over(
            c.context(),
            "tokens.content"@,
            0,
            "content"@,
            (c.tokens)(c.doc.body),
            if c.target.kind == Kind::Agents {
                c.cfg.max_agents_tokens
            } else {
                c.cfg.max_skill_tokens
            },
        ),
        c.is_readable_skill() && c.field("name"@).len() > 0 ==> over(
            c.context(),
            "tokens.name"@,
            c.doc.frontmatter.line("name"@),
            "name"@,
            (c.tokens)(c.field("name"@)),
            c.cfg.max_skill_name_tokens,
        ),
        !(c.is_readable_skill() && c.field("name"@).len() > 0) ==> said(
            c.context(),
            "tokens.name"@,
        ).len() == 0,
        c.is_readable_skill() && c.field("description"@).len() > 0 ==> over(
            c.context(),
            "tokens.description"@,
            c.doc.frontmatter.line("description"@),
            "description"@,
            (c.tokens)(c.field("description"@)),
            c.cfg.max_skill_description_tokens,
        ),
        !(c.is_readable_skill() && c.field("description"@).len() > 0) ==> said(
            c.context(),
            "tokens.description"@,
        ).len() == 0,
        result_of(c.context()).tokens.content == (c.tokens)(c.doc.body),
        c.is_readable_skill() && c.field("name"@).len() > 0 ==> result_of(c.context()).tokens.name
            == (c.tokens)(c.field("name"@)),
        c.is_readable_skill() && c.field("description"@).len() > 0 ==> result_of(
            c.context(),
        ).tokens.description == (c.tokens)(c.field("description"@)),
{
    lemma_said(c.context(), 13);
    lemma_said(c.context(), 14);
    lemma_said(c.context(), 15);
}

/// The references that lead to no file, in order.
pub open spec fn dangling(c: Case) -> Seq<ReferenceView> {
    references_of(c.context()).filter(|r: ReferenceView| !c.existing.contains(r.path.text()))
}

proof fn lemma_broken(existing: Seq<Seq<char>>, refs: Seq<ReferenceView>)
    ensures
        ({
            let bad = refs.filter(|r: ReferenceView| !existing.contains(r.path.text()));
            &&& broken(existing, refs).len() == bad.len()
            &&& forall|i: int|
                0 <= i < bad.len() ==> (#[trigger] broken(existing, refs)[i]).line == bad[i].line
                    && broken(existing, refs)[i].severity == Severity::Error && broken(
                    existing,
                    refs,
                )[i].message == "referenced file "@ + debug_text(bad[i].target)
                    + " does not exist"@
        }),
    decreases refs.len(),
{
    reveal(Seq::filter);
    if refs.len() > 0 {
        lemma_broken(existing, refs.drop_last());
    }
}

/// Every file, of either kind, is told of each of its references that lead to
/// no file, in order, on the line of the reference, and of no other.
pub proof fn lemma_dangling(c: Case)
    requires
        c.on("file-reference.missing"@),
    ensures
        ({
            let told = said(c.context(), "file-reference.missing"@);
            let bad = dangling(c);
            &&& told.len() == bad.len()
            &&& forall|i: int|
                0 <= i < bad.len() ==> (#[trigger] told[i]).line == bad[i].line && told[i].severity
                    == Severity::Error && told[i].message == "referenced file "@ + debug_text(
                    bad[i].target,
                ) + " does not exist"@
        }),
{
    lemma_said(c.context(), 16);
    lemma_broken(c.existing, references_of(c.context()));
}

/// Whether a rule had anything to judge in a file.
pub open spec fn judges(ctx: ContextView, rule: Seq<char>) -> bool {
    ran_rule(sink_of(ctx).tally, rule)
}

proof fn lemma_ran_marks(ctx: ContextView, n: int, m: int)
    requires
        0 <= n < ids().len(),
        0 <= m <= ids().len(),
    ensures
        ({
            let tally = ran(ctx, ctx.cfg.disabled, fresh_sink(ctx.cfg.strict), m).tally;
            let o = outcome(n, ctx);
            let ran_now = n < m && runs(ctx, ctx.cfg.disabled, n);
            &&& ran_rule(tally, ids()[n]) <==> ran_now && (o.applies || o.reports.len() > 0)
            &&& fired_rule(tally, ids()[n]) <==> ran_now && o.reports.len() > 0
            &&& forall|i: int, j: int|
                0 <= i < j < tally.len() ==> (#[trigger] tally[i]).rule != (#[trigger] tally[j]).rule
            &&& forall|i: int|
                0 <= i < tally.len() ==> exists|k: int|
                    0 <= k < m && (#[trigger] tally[i]).rule == #[trigger] ids()[k]
        }),
    decreases m,
{
    let start = fresh_sink(ctx.cfg.strict);
    if m > 0 {
        lemma_ran_marks(ctx, n, m - 1);
        let before = ran(ctx, ctx.cfg.disabled, start, m - 1).tally;
        let now = ran(ctx, ctx.cfg.disabled, start, m).tally;
        let o = outcome(m - 1, ctx);
        let id = ids()[m - 1];
        if runs(ctx, ctx.cfg.disabled, m - 1) && (o.applies || o.reports.len() > 0) {
            assert(!is_marked(before, id)) by {
                if is_marked(before, id) {
                    let i = choose|i: int| 0 <= i < before.len() && (#[trigger] before[i]).rule == id;
                    let k = choose|k: int| 0 <= k < m - 1 && before[i].rule == #[trigger] ids()[k];
                    lemma_ids(k, m - 1);
                }
            }
            assert(now == before.push(MarkView { rule: id, failed: o.reports.len() > 0 }));
            let last = before.len() as int;
            assert(now[last].rule == id);
            assert(forall|i: int| 0 <= i < last ==> #[trigger] now[i] == before[i]);
            assert(id == ids()[m - 1]);
            if m - 1 != n {
                lemma_ids(m - 1, n);
                if ran_rule(before, ids()[n]) {
                    let i = choose|i: int|
                        0 <= i < before.len() && (#[trigger] before[i]).rule == ids()[n];
                    assert(now[i].rule == ids()[n]);
                }
                if fired_rule(before, ids()[n]) {
                    let i = choose|i: int|
                        0 <= i < before.len() && (#[trigger] before[i]).rule == ids()[n]
                            && before[i].failed;
                    assert(now[i].rule == ids()[n] && now[i].failed);
                }
            }
        } else {
            assert(now == before);
        }
    }
}

proof fn lemma_judged(ctx: ContextView, n: int)
    requires
        0 <= n < ids().len(),
    ensures
        judges(ctx, ids()[n]) <==> runs(ctx, ctx.cfg.disabled, n) && (outcome(n, ctx).applies
            || outcome(n, ctx).reports.len() > 0),
{
    lemma_ran_marks(ctx, n, ids().len() as int);
}

/// A rule counts once in the score of a file, however often it fires, and
/// counts as failed exactly where it told the file anything.
pub proof fn lemma_marks(ctx: ContextView, n: int)
    requires
        0 <= n < 17,
    ensures
        fired_rule(sink_of(ctx).tally, ids()[n]) <==> said(ctx, ids()[n]).len() > 0,
        said(ctx, ids()[n]).len() > 0 ==> judges(ctx, ids()[n]),
        forall|i: int, j: int|
            0 <= i < j < sink_of(ctx).tally.len() ==> (#[trigger] sink_of(ctx).tally[i]).rule != (
            #[trigger] sink_of(ctx).tally[j]).rule,
        result_of(ctx).score == score_of(ctx.tokens, ctx.cfg, ctx.target.kind, sink_of(ctx).tally),
{
    lemma_ran_marks(ctx, n, ids().len() as int);
    lemma_said(ctx, n);
}

/// What each rule judges. A rule on front matter judges a skill whose front
/// matter can be read, and where it is about a field, one that has the field; a
/// rule on a budget judges what has one.
pub proof fn lemma_judges(c: Case)
    requires
        forall|n: int| 0 <= n < 17 ==> c.on(#[trigger] ids()[n]),
    ensures
        judges(c.context(), "frontmatter.missing"@) <==> c.target.kind == Kind::Skill && c.doc.error is None,
        judges(c.context(), "frontmatter.unknown-key"@) <==> c.is_readable_skill(),
        judges(c.context(), "name.required"@) <==> c.is_readable_skill(),
        judges(c.context(), "description.required"@) <==> c.is_readable_skill(),
        judges(c.context(), "name.format"@) <==> c.is_readable_skill() && c.field("name"@).len() > 0,
        judges(c.context(), "name.length"@) <==> c.is_readable_skill() && c.field("name"@).len() > 0,
        judges(c.context(), "description.length"@) <==> c.is_readable_skill() && c.field(
            "description"@,
        ).len() > 0,
        judges(c.context(), "allowed-tools.type"@) <==> c.is_readable_skill()
            && c.doc.frontmatter.node("allowed-tools"@) is Some,
        judges(c.context(), "metadata.type"@) <==> c.is_readable_skill() && c.doc.frontmatter.node(
            "metadata"@,
        ) is Some,
        judges(c.context(), "tokens.content"@) <==> if c.target.kind == Kind::Agents {
            c.cfg.max_agents_tokens > 0
        } else {
            c.cfg.max_skill_tokens > 0
        },
        judges(c.context(), "tokens.name"@) <==> c.is_readable_skill() && c.field("name"@).len() > 0
            && c.cfg.max_skill_name_tokens > 0,
        judges(c.context(), "tokens.description"@) <==> c.is_readable_skill() && c.field(
            "description"@,
        ).len() > 0 && c.cfg.max_skill_description_tokens > 0,
        judges(c.context(), "file-reference.missing"@) <==> references_of(c.context()).len() > 0,
        judges(c.context(), "frontmatter.not-first"@) <==> said(
            c.context(),
            "frontmatter.not-first"@,
        ).len() > 0,
        judges(c.context(), "frontmatter.unterminated"@) <==> said(
            c.context(),
            "frontmatter.unterminated"@,
        ).len() > 0,
        judges(c.context(), "frontmatter.invalid"@) <==> said(
            c.context(),
            "frontmatter.invalid"@,
        ).len() > 0,
{
    let ctx = c.context();
    assert forall|n: int| 0 <= n < 17 implies !ctx.cfg.disabled.contains(#[trigger] ids()[n]) by {
        assert(c.on(ids()[n]));
    }
    lemma_judged(ctx, 0);
    lemma_judged(ctx, 4);
    lemma_judged(ctx, 5);
    lemma_judged(ctx, 6);
    lemma_judged(ctx, 7);
    lemma_judged(ctx, 9);
    lemma_judged(ctx, 10);
    lemma_judged(ctx, 11);
    lemma_judged(ctx, 12);
    lemma_judged(ctx, 13);
    lemma_judged(ctx, 14);
    lemma_judged(ctx, 15);
    lemma_judged(ctx, 16);
    assert(references_of(ctx).len() == 0 ==> broken(c.existing, references_of(ctx)).len() == 0);
    lemma_judged(ctx, 1);
    lemma_judged(ctx, 2);
    lemma_judged(ctx, 3);
    lemma_said(ctx, 1);
    lemma_said(ctx, 2);
    lemma_said(ctx, 3);
}

proof fn lemma_ran_order(ctx: ContextView, m: int)
    requires
        0 <= m <= ids().len(),
    ensures
        ({
            let list = ran(ctx, ctx.cfg.disabled, fresh_sink(ctx.cfg.strict), m).findings;
            &&& forall|i: int|
                0 <= i < list.len() ==> exists|k: int|
                    0 <= k < m && (#[trigger] list[i]).rule == #[trigger] ids()[k]
            &&& forall|i: int, j: int, a: int, b: int|
                0 <= i < j < list.len() && 0 <= a < m && 0 <= b < m && (#[trigger] list[i]).rule
                    == #[trigger] ids()[a] && (#[trigger] list[j]).rule == #[trigger] ids()[b] ==> a
                    <= b
        }),
    decreases m,
{
    if m > 0 {
        lemma_ran_order(ctx, m - 1);
        let start = fresh_sink(ctx.cfg.strict);
        let before = ran(ctx, ctx.cfg.disabled, start, m - 1).findings;
        let now = ran(ctx, ctx.cfg.disabled, start, m).findings;
        let n = before.len() as int;
        assert(now.len() >= n);
        assert(forall|i: int| 0 <= i < n ==> #[trigger] now[i] == before[i]);
        assert(forall|i: int| n <= i < now.len() ==> (#[trigger] now[i]).rule == ids()[m - 1]);
        assert forall|i: int| 0 <= i < now.len() implies exists|k: int|
            0 <= k < m && (#[trigger] now[i]).rule == #[trigger] ids()[k] by {
            if i < n {
                let k = choose|k: int| 0 <= k < m - 1 && before[i].rule == #[trigger] ids()[k];
                assert(now[i].rule == ids()[k]);
            } else {
                assert(now[i].rule == ids()[m - 1]);
            }
        }
        assert forall|i: int, j: int, a: int, b: int|
            0 <= i < j < now.len() && 0 <= a < m && 0 <= b < m && (#[trigger] now[i]).rule
                == #[trigger] ids()[a] && (#[trigger] now[j]).rule == #[trigger] ids()[b] implies a
            <= b by {
            if j >= n {
                lemma_ids(b, m - 1);
            } else {
                let k = choose|k: int| 0 <= k < m - 1 && before[i].rule == #[trigger] ids()[k];
                let l = choose|l: int| 0 <= l < m - 1 && before[j].rule == #[trigger] ids()[l];
                lemma_ids(k, a);
                lemma_ids(l, b);
                assert(before[i].rule == ids()[k] && before[j].rule == ids()[l]);
            }
        }
    }
}

/// A file is told nothing but what its rules tell it, in the order of the
/// rules, and its result says which file it is and what it costs. A field that
/// is not read costs nothing.
pub proof fn lemma_result(c: Case)
    ensures
        result_of(c.context()).path == c.target.path,
        result_of(c.context()).kind == c.target.kind,
        forall|i: int|
            0 <= i < result_of(c.context()).findings.len() ==> exists|k: int|
                0 <= k < 17 && (#[trigger] result_of(c.context()).findings[i]).rule
                    == #[trigger] ids()[k],
        forall|i: int, j: int, a: int, b: int|
            0 <= i < j < result_of(c.context()).findings.len() && 0 <= a < 17 && 0 <= b < 17 && (
            #[trigger] result_of(c.context()).findings[i]).rule == #[trigger] ids()[a] && (
            #[trigger] result_of(c.context()).findings[j]).rule == #[trigger] ids()[b] ==> a <= b,
        !(c.is_readable_skill() && c.field("name"@).len() > 0) ==> result_of(
            c.context(),
        ).tokens.name == 0,
        !(c.is_readable_skill() && c.field("description"@).len() > 0) ==> result_of(
            c.context(),
        ).tokens.description == 0,
{
    lemma_ran_order(c.context(), 17);
}

/// What severities are called.
pub proof fn lemma_severity_labels()
    ensures
        Severity::Error.label() == "error"@,
        Severity::Warning.label() == "warning"@,
        Kind::Agents.label() == "agents"@,
        Kind::Skill.label() == "skill"@,
{
}

/// A skill at the root, or in a directory that is only told by two dots, has no
/// directory of its own.
pub proof fn lemma_no_own_directory(c: Case)
    requires
        absolute(c.cwd, c.target.path).parts.len() < 2 || absolute(c.cwd, c.target.path).parts[absolute(
            c.cwd,
            c.target.path,
        ).parts.len() - 2] == seq!['.', '.'],
    ensures
        said(c.context(), "name.dir-mismatch"@).len() == 0,
        !judges(c.context(), "name.dir-mismatch"@),
{
    lemma_said(c.context(), 8);
    lemma_judged(c.context(), 8);
}

} // verus!
