//! Rates a file from 0 to 100.
//!
//! Every share is kept as a fraction, so a score is exactly the documented
//! mean, rounded down once at the end.

use vstd::arithmetic::div_mod::{
    lemma_div_denominator, lemma_fundamental_div_mod_converse, lemma_hoist_over_denominator,
};
use vstd::prelude::*;

use super::ids::{
    ids, RULE_ALLOWED_TOOLS_TYPE, RULE_DESCRIPTION_LENGTH, RULE_DESCRIPTION_REQUIRED,
    RULE_FILE_REFERENCE_MISSING, RULE_FRONTMATTER_INVALID, RULE_FRONTMATTER_MISSING,
    RULE_FRONTMATTER_NOT_FIRST, RULE_FRONTMATTER_UNKNOWN_KEY, RULE_FRONTMATTER_UNTERMINATED,
    RULE_METADATA_TYPE, RULE_NAME_DIR_MISMATCH, RULE_NAME_FORMAT, RULE_NAME_LENGTH,
    RULE_NAME_REQUIRED, RULE_TOKENS_CONTENT, RULE_TOKENS_DESCRIPTION, RULE_TOKENS_NAME,
};
use super::{is_failed, is_marked, Counts, MarkView, Tally};
use crate::config::{Config, ConfigView};
use crate::discover::Kind;
use crate::text::same;

verus! {

/// The part of a file's score a rule's outcome feeds. Every rule id maps to
/// one, so a new rule cannot be added without deciding what it rates.
#[derive(Debug, Clone, Copy, PartialEq, Eq, Structural)]
pub enum Part {
    Frontmatter,
    Tokens,
    FileReferences,
}

/// The part that a rule feeds.
pub open spec fn part_of(rule: Seq<char>) -> Option<Part> {
    if rule == RULE_FRONTMATTER_MISSING@ || rule == RULE_FRONTMATTER_NOT_FIRST@ || rule
        == RULE_FRONTMATTER_UNTERMINATED@ || rule == RULE_FRONTMATTER_INVALID@ || rule
        == RULE_FRONTMATTER_UNKNOWN_KEY@ || rule == RULE_NAME_REQUIRED@ || rule
        == RULE_NAME_FORMAT@ || rule == RULE_NAME_LENGTH@ || rule == RULE_NAME_DIR_MISMATCH@ || rule
        == RULE_DESCRIPTION_REQUIRED@ || rule == RULE_DESCRIPTION_LENGTH@ || rule
        == RULE_ALLOWED_TOOLS_TYPE@ || rule == RULE_METADATA_TYPE@ {
        Some(Part::Frontmatter)
    } else if rule == RULE_TOKENS_CONTENT@ || rule == RULE_TOKENS_NAME@ || rule
        == RULE_TOKENS_DESCRIPTION@ {
        Some(Part::Tokens)
    } else if rule == RULE_FILE_REFERENCE_MISSING@ {
        Some(Part::FileReferences)
    } else {
        None
    }
}

/// Spelled out per rule rather than falling back to a catch-all arm: the
/// fallback is what would let a new rule slip into the wrong part.
pub fn part(rule: &str) -> (r: Option<Part>)
    ensures
        r == part_of(rule@),
{
    if same(rule, RULE_FRONTMATTER_MISSING) || same(rule, RULE_FRONTMATTER_NOT_FIRST) || same(
        rule,
        RULE_FRONTMATTER_UNTERMINATED,
    ) || same(rule, RULE_FRONTMATTER_INVALID) || same(rule, RULE_FRONTMATTER_UNKNOWN_KEY) || same(
        rule,
        RULE_NAME_REQUIRED,
    ) || same(rule, RULE_NAME_FORMAT) || same(rule, RULE_NAME_LENGTH) || same(
        rule,
        RULE_NAME_DIR_MISMATCH,
    ) || same(rule, RULE_DESCRIPTION_REQUIRED) || same(rule, RULE_DESCRIPTION_LENGTH) || same(
        rule,
        RULE_ALLOWED_TOOLS_TYPE,
    ) || same(rule, RULE_METADATA_TYPE) {
        Some(Part::Frontmatter)
    } else if same(rule, RULE_TOKENS_CONTENT) || same(rule, RULE_TOKENS_NAME) || same(
        rule,
        RULE_TOKENS_DESCRIPTION,
    ) {
        Some(Part::Tokens)
    } else if same(rule, RULE_FILE_REFERENCE_MISSING) {
        Some(Part::FileReferences)
    } else {
        None
    }
}

/// Every rule feeds a part of the score.
pub proof fn lemma_every_rule_has_a_part(n: int)
    requires
        0 <= n < ids().len(),
    ensures
        part_of(ids()[n]) is Some,
{
}

/// How many of a part's rules ran.
pub open spec fn applied_count(list: Seq<MarkView>, p: Part) -> int
    decreases list.len(),
{
    if list.len() == 0 {
        0
    } else {
        applied_count(list.drop_last(), p) + if part_of(list.last().rule) == Some(p) {
            1int
        } else {
            0
        }
    }
}

/// How many of a part's rules fired.
pub open spec fn failed_count(list: Seq<MarkView>, p: Part) -> int
    decreases list.len(),
{
    if list.len() == 0 {
        0
    } else {
        failed_count(list.drop_last(), p) + if part_of(list.last().rule) == Some(p)
            && list.last().failed {
            1int
        } else {
            0
        }
    }
}

/// No more rules fire than run.
pub proof fn lemma_counts(list: Seq<MarkView>, p: Part)
    ensures
        0 <= failed_count(list, p) <= applied_count(list, p) <= list.len(),
    decreases list.len(),
{
    if list.len() > 0 {
        lemma_counts(list.drop_last(), p);
    }
}

impl Tally {
    /// Returns how many of a part's rules ran, and how many of those fired.
    pub fn counts(&self, p: Part) -> (r: (usize, usize))
        ensures
            r.0 == applied_count(self@, p),
            r.1 == failed_count(self@, p),
    {
        let mut applied: usize = 0;
        let mut failed: usize = 0;
        let mut i: usize = 0;
        assert(self@.take(0) =~= Seq::empty());
        while i < self.marks.len()
            invariant
                i <= self.marks@.len(),
                applied <= i,
                failed <= i,
                applied == applied_count(self@.take(i as int), p),
                failed == failed_count(self@.take(i as int), p),
            decreases self.marks@.len() - i,
        {
            proof {
                let next = self@.take(i + 1);
                assert(next.drop_last() =~= self@.take(i as int));
                assert(next.last() == self.marks@[i as int]@);
            }
            if part(self.marks[i].rule) == Some(p) {
                applied += 1;
                if self.marks[i].failed {
                    failed += 1;
                }
            }
            i += 1;
        }
        assert(self@.take(i as int) =~= self@);
        (applied, failed)
    }

    /// Whether a rule ran.
    pub fn has(&self, rule: &str) -> (r: bool)
        ensures
            r == is_marked(self@, rule@),
    {
        let mut i: usize = 0;
        while i < self.marks.len()
            invariant
                i <= self.marks@.len(),
                forall|j: int| 0 <= j < i ==> (#[trigger] self@[j]).rule != rule@,
            decreases self.marks@.len() - i,
        {
            assert(self@[i as int] == self.marks@[i as int]@);
            if same(self.marks[i].rule, rule) {
                return true;
            }
            i += 1;
        }
        false
    }

    /// Whether a rule fired.
    pub fn failed(&self, rule: &str) -> (r: bool)
        ensures
            r == is_failed(self@, rule@),
    {
        let mut i: usize = 0;
        while i < self.marks.len()
            invariant
                i <= self.marks@.len(),
                forall|j: int|
                    0 <= j < i ==> !((#[trigger] self@[j]).rule == rule@ && self@[j].failed),
            decreases self.marks@.len() - i,
        {
            assert(self@[i as int] == self.marks@[i as int]@);
            if same(self.marks[i].rule, rule) && self.marks[i].failed {
                return true;
            }
            i += 1;
        }
        false
    }
}

/// A fraction.
pub struct Ratio {
    pub num: int,
    pub den: int,
}

impl Ratio {
    pub open spec fn plus(self, other: Ratio) -> Ratio {
        Ratio {
            num: self.num * other.den + other.num * self.den,
            den: self.den * other.den,
        }
    }
}

/// The sum of some fractions.
pub open spec fn sum(list: Seq<Ratio>) -> Ratio
    decreases list.len(),
{
    if list.len() == 0 {
        Ratio { num: 0, den: 1 }
    } else {
        sum(list.drop_last()).plus(list.last())
    }
}

/// Scores one token budget: full marks at or under the limit, then falling
/// linearly to zero at twice the limit. Graded rather than pass/fail so a file
/// a little over its budget does not rate the same as one five times over.
pub open spec fn budget_share(count: int, limit: int) -> Ratio {
    if limit <= 0 || count <= limit {
        Ratio { num: 100, den: 1 }
    } else if count >= 2 * limit {
        Ratio { num: 0, den: 1 }
    } else {
        Ratio { num: 100 * (2 * limit - count), den: limit }
    }
}

/// `list` with the share of a budget, if its rule ran.
pub open spec fn with_budget(
    list: Seq<Ratio>,
    tally: Seq<MarkView>,
    rule: Seq<char>,
    count: int,
    limit: int,
) -> Seq<Ratio> {
    if is_marked(tally, rule) {
        list.push(budget_share(count, limit))
    } else {
        list
    }
}

/// One share per budget that was actually checked.
pub open spec fn budgets_of(
    tokens: Counts,
    cfg: ConfigView,
    kind: Kind,
    tally: Seq<MarkView>,
) -> Seq<Ratio> {
    let one = with_budget(
        Seq::empty(),
        tally,
        RULE_TOKENS_CONTENT@,
        tokens.content as int,
        cfg.content_limit(kind),
    );
    let two = with_budget(
        one,
        tally,
        RULE_TOKENS_NAME@,
        tokens.name as int,
        cfg.max_skill_name_tokens,
    );
    with_budget(
        two,
        tally,
        RULE_TOKENS_DESCRIPTION@,
        tokens.description as int,
        cfg.max_skill_description_tokens,
    )
}

/// The parts of a score that have anything to judge: the share of front-matter
/// rules that passed, the mean of the budgets, and whether every file
/// reference resolves.
pub open spec fn shares(applied: int, failed: int, budgets: Seq<Ratio>, refs: Option<bool>) -> Seq<
    Ratio,
> {
    let a = if applied > 0 {
        seq![Ratio { num: 100 * (applied - failed), den: applied }]
    } else {
        Seq::empty()
    };
    let b = if budgets.len() > 0 {
        a.push(Ratio { num: sum(budgets).num, den: sum(budgets).den * budgets.len() })
    } else {
        a
    };
    match refs {
        Some(broken) => b.push(
            Ratio {
                num: if broken {
                    0
                } else {
                    100
                },
                den: 1,
            },
        ),
        None => b,
    }
}

/// The mean of some shares, rounded down; 100 where there is none.
pub open spec fn mean(list: Seq<Ratio>) -> int {
    if list.len() == 0 {
        100
    } else {
        sum(list).num / (sum(list).den * list.len())
    }
}

/// Whether the file-reference rule had anything to judge, and whether it
/// fired.
pub open spec fn references_verdict(tally: Seq<MarkView>) -> Option<bool> {
    if is_marked(tally, RULE_FILE_REFERENCE_MISSING@) {
        Some(is_failed(tally, RULE_FILE_REFERENCE_MISSING@))
    } else {
        None
    }
}

/// The score of a file.
///
/// A part with nothing to judge is left out of the mean rather than counted as
/// perfect, so an inapplicable check cannot inflate a score. That covers an
/// AGENTS.md, whose front matter is deliberately not validated; a file that
/// names no checkable reference; and a budget switched off. A file with no
/// applicable part at all rates 100: there was nothing to hold against it.
pub open spec fn score_of(tokens: Counts, cfg: ConfigView, kind: Kind, tally: Seq<MarkView>) -> int {
    mean(
        shares(
            applied_count(tally, Part::Frontmatter),
            failed_count(tally, Part::Frontmatter),
            budgets_of(tokens, cfg, kind, tally),
            references_verdict(tally),
        ),
    )
}

/// Whether a share lies between 0 and 100.
pub open spec fn is_share(r: Ratio) -> bool {
    r.den > 0 && 0 <= r.num <= 100 * r.den
}

/// One budget never scores below 0 or above 100. It scores 100 exactly where it
/// is kept, and 0 exactly from twice the limit on.
pub proof fn lemma_budget_share(count: int, limit: int)
    requires
        count >= 0,
    ensures
        is_share(budget_share(count, limit)),
        limit > 0 ==> (budget_share(count, limit).num == 100 * budget_share(count, limit).den <==> count
            <= limit),
        limit > 0 ==> (budget_share(count, limit).num == 0 <==> count >= 2 * limit),
{
}

/// The sum of `n` shares lies between 0 and `n` times 100.
proof fn lemma_sum(list: Seq<Ratio>)
    requires
        forall|i: int| 0 <= i < list.len() ==> is_share(#[trigger] list[i]),
    ensures
        sum(list).den > 0,
        0 <= sum(list).num <= 100 * list.len() * sum(list).den,
    decreases list.len(),
{
    if list.len() > 0 {
        let init = list.drop_last();
        assert forall|i: int| 0 <= i < init.len() implies is_share(#[trigger] init[i]) by {
            assert(init[i] == list[i]);
        }
        lemma_sum(init);
        assert(is_share(list[list.len() - 1]));
        let (x, y) = (sum(init), list.last());
        let n = init.len() as int;
        assert(x.den * y.den > 0) by (nonlinear_arith)
            requires
                x.den > 0,
                y.den > 0,
        ;
        assert(0 <= x.num * y.den + y.num * x.den <= 100 * (n + 1) * (x.den * y.den))
            by (nonlinear_arith)
            requires
                x.den > 0,
                y.den > 0,
                n >= 0,
                0 <= x.num <= 100 * n * x.den,
                0 <= y.num <= 100 * y.den,
        ;
    }
}

/// A mean of shares lies between 0 and 100.
pub proof fn lemma_mean(list: Seq<Ratio>)
    requires
        forall|i: int| 0 <= i < list.len() ==> is_share(#[trigger] list[i]),
    ensures
        0 <= mean(list) <= 100,
{
    if list.len() > 0 {
        lemma_sum(list);
        let t = sum(list);
        let n = list.len() as int;
        assert(0 <= t.num / (t.den * n) <= 100) by (nonlinear_arith)
            requires
                t.den > 0,
                n > 0,
                0 <= t.num <= 100 * n * t.den,
        ;
    }
}

/// The sum of full shares is full.
proof fn lemma_sum_full(list: Seq<Ratio>)
    requires
        forall|i: int|
            0 <= i < list.len() ==> (#[trigger] list[i]).den > 0 && list[i].num == 100 * list[i].den,
    ensures
        sum(list).den > 0,
        sum(list).num == 100 * list.len() * sum(list).den,
    decreases list.len(),
{
    if list.len() > 0 {
        let init = list.drop_last();
        assert forall|i: int| 0 <= i < init.len() implies (#[trigger] init[i]).den > 0
            && init[i].num == 100 * init[i].den by {
            assert(init[i] == list[i]);
        }
        lemma_sum_full(init);
        assert(list[list.len() - 1].den > 0);
        let (x, y) = (sum(init), list.last());
        let n = init.len() as int;
        assert(x.den * y.den > 0) by (nonlinear_arith)
            requires
                x.den > 0,
                y.den > 0,
        ;
        assert(x.num * y.den + y.num * x.den == 100 * (n + 1) * (x.den * y.den))
            by (nonlinear_arith)
            requires
                x.num == 100 * n * x.den,
                y.num == 100 * y.den,
        ;
    }
}

/// The sum of shares that are not all full is not full.
proof fn lemma_sum_short(list: Seq<Ratio>, k: int)
    requires
        forall|i: int| 0 <= i < list.len() ==> is_share(#[trigger] list[i]),
        0 <= k < list.len(),
        list[k].num < 100 * list[k].den,
    ensures
        sum(list).den > 0,
        0 <= sum(list).num < 100 * list.len() * sum(list).den,
    decreases list.len(),
{
    let init = list.drop_last();
    assert forall|i: int| 0 <= i < init.len() implies is_share(#[trigger] init[i]) by {
        assert(init[i] == list[i]);
    }
    lemma_sum(init);
    lemma_sum(list);
    assert(is_share(list[list.len() - 1]));
    let (x, y) = (sum(init), list.last());
    let n = init.len() as int;
    if k < init.len() {
        lemma_sum_short(init, k);
        assert(x.num * y.den + y.num * x.den < 100 * (n + 1) * (x.den * y.den)) by (nonlinear_arith)
            requires
                x.den > 0,
                y.den > 0,
                n >= 0,
                0 <= x.num < 100 * n * x.den,
                0 <= y.num <= 100 * y.den,
        ;
    } else {
        assert(x.num * y.den + y.num * x.den < 100 * (n + 1) * (x.den * y.den)) by (nonlinear_arith)
            requires
                x.den > 0,
                y.den > 0,
                n >= 0,
                0 <= x.num <= 100 * n * x.den,
                0 <= y.num < 100 * y.den,
        ;
    }
}

/// A mean is 100 exactly when every share of it is full.
pub proof fn lemma_full_mean(list: Seq<Ratio>)
    requires
        forall|i: int| 0 <= i < list.len() ==> is_share(#[trigger] list[i]),
    ensures
        mean(list) == 100 <==> forall|i: int|
            0 <= i < list.len() ==> (#[trigger] list[i]).num == 100 * list[i].den,
{
    if list.len() > 0 {
        let n = list.len() as int;
        if forall|i: int| 0 <= i < list.len() ==> (#[trigger] list[i]).num == 100 * list[i].den {
            assert forall|i: int| 0 <= i < list.len() implies (#[trigger] list[i]).den > 0
                && list[i].num == 100 * list[i].den by {
                assert(is_share(list[i]));
            }
            lemma_sum_full(list);
            let t = sum(list);
            assert(t.num / (t.den * n) == 100) by (nonlinear_arith)
                requires
                    t.den > 0,
                    n > 0,
                    t.num == 100 * n * t.den,
            ;
        } else {
            let k = choose|i: int|
                0 <= i < list.len() && (#[trigger] list[i]).num != 100 * list[i].den;
            assert(is_share(list[k]));
            lemma_sum_short(list, k);
            let t = sum(list);
            assert(t.num / (t.den * n) < 100) by (nonlinear_arith)
                requires
                    t.den > 0,
                    n > 0,
                    0 <= t.num < 100 * n * t.den,
            ;
        }
    }
}

/// The share of the budgets is full exactly when each of them is.
proof fn lemma_full_budgets(budgets: Seq<Ratio>)
    requires
        budgets.len() > 0,
        forall|i: int| 0 <= i < budgets.len() ==> is_share(#[trigger] budgets[i]),
    ensures
        sum(budgets).num == 100 * (sum(budgets).den * budgets.len()) <==> forall|i: int|
            0 <= i < budgets.len() ==> (#[trigger] budgets[i]).num == 100 * budgets[i].den,
{
    let b = sum(budgets);
    let m = budgets.len() as int;
    assert(100 * (b.den * m) == 100 * m * b.den) by (nonlinear_arith);
    if forall|i: int| 0 <= i < budgets.len() ==> (#[trigger] budgets[i]).num == 100
        * budgets[i].den {
        assert forall|i: int| 0 <= i < budgets.len() implies (#[trigger] budgets[i]).den > 0
            && budgets[i].num == 100 * budgets[i].den by {
            assert(is_share(budgets[i]));
        }
        lemma_sum_full(budgets);
    } else {
        let k = choose|i: int|
            0 <= i < budgets.len() && (#[trigger] budgets[i]).num != 100 * budgets[i].den;
        assert(is_share(budgets[k]));
        lemma_sum_short(budgets, k);
    }
}

/// A score is 100 exactly when nothing counts against it: no front-matter rule
/// fired, no budget that was checked is exceeded, and no reference is broken.
pub proof fn lemma_full_score(tokens: Counts, cfg: ConfigView, kind: Kind, tally: Seq<MarkView>)
    ensures
        score_of(tokens, cfg, kind, tally) == 100 <==> {
            &&& failed_count(tally, Part::Frontmatter) == 0
            &&& forall|i: int|
                0 <= i < budgets_of(tokens, cfg, kind, tally).len() ==> (
                #[trigger] budgets_of(tokens, cfg, kind, tally)[i]).num == 100 * budgets_of(
                    tokens,
                    cfg,
                    kind,
                    tally,
                )[i].den
            &&& references_verdict(tally) != Some(true)
        },
{
    let budgets = budgets_of(tokens, cfg, kind, tally);
    let a = applied_count(tally, Part::Frontmatter);
    let f = failed_count(tally, Part::Frontmatter);
    let refs = references_verdict(tally);
    lemma_counts(tally, Part::Frontmatter);
    lemma_budgets(tokens, cfg, kind, tally);
    lemma_shares(a, f, budgets, refs);
    let list = shares(a, f, budgets, refs);
    lemma_full_mean(list);
    if budgets.len() > 0 {
        lemma_full_budgets(budgets);
    }
    let front = if a > 0 {
        1int
    } else {
        0
    };
    let middle = if budgets.len() > 0 {
        front + 1
    } else {
        front
    };
    if a > 0 {
        assert(list[0] == (Ratio { num: 100 * (a - f), den: a }));
    }
    if budgets.len() > 0 {
        assert(list[front] == (Ratio {
            num: sum(budgets).num,
            den: sum(budgets).den * budgets.len(),
        }));
    }
    if refs is Some {
        assert(list[middle].den == 1);
    }
}

/// The shares of budgets are shares.
proof fn lemma_budgets(tokens: Counts, cfg: ConfigView, kind: Kind, tally: Seq<MarkView>)
    ensures
        forall|i: int|
            0 <= i < budgets_of(tokens, cfg, kind, tally).len() ==> is_share(
                #[trigger] budgets_of(tokens, cfg, kind, tally)[i],
            ),
{
    lemma_budget_share(tokens.content as int, cfg.content_limit(kind));
    lemma_budget_share(tokens.name as int, cfg.max_skill_name_tokens);
    lemma_budget_share(tokens.description as int, cfg.max_skill_description_tokens);
}

proof fn lemma_shares(applied: int, failed: int, budgets: Seq<Ratio>, refs: Option<bool>)
    requires
        0 <= failed <= applied,
        forall|i: int| 0 <= i < budgets.len() ==> is_share(#[trigger] budgets[i]),
    ensures
        forall|i: int|
            0 <= i < shares(applied, failed, budgets, refs).len() ==> is_share(
                #[trigger] shares(applied, failed, budgets, refs)[i],
            ),
{
    lemma_sum(budgets);
    let b = sum(budgets);
    let m = budgets.len() as int;
    if m > 0 {
        assert(b.den * m > 0) by (nonlinear_arith)
            requires
                b.den > 0,
                m > 0,
        ;
        assert(100 * (b.den * m) == 100 * m * b.den) by (nonlinear_arith);
    }
}

/// A score lies between 0 and 100.
pub proof fn lemma_score(tokens: Counts, cfg: ConfigView, kind: Kind, tally: Seq<MarkView>)
    ensures
        0 <= score_of(tokens, cfg, kind, tally) <= 100,
{
    let budgets = budgets_of(tokens, cfg, kind, tally);
    let a = applied_count(tally, Part::Frontmatter);
    let f = failed_count(tally, Part::Frontmatter);
    lemma_counts(tally, Part::Frontmatter);
    lemma_budgets(tokens, cfg, kind, tally);
    lemma_shares(a, f, budgets, references_verdict(tally));
    lemma_mean(shares(a, f, budgets, references_verdict(tally)));
}

/// A higher count never scores a budget higher: compared as fractions.
pub proof fn lemma_budget_falls(less: int, more: int, limit: int)
    requires
        0 <= less <= more,
    ensures
        budget_share(more, limit).num * budget_share(less, limit).den <= budget_share(
            less,
            limit,
        ).num * budget_share(more, limit).den,
        limit > 0 && more >= 2 * limit ==> budget_share(more, limit).num == 0,
        limit > 0 && more <= limit ==> budget_share(more, limit) == (Ratio { num: 100, den: 1 }),
{
    let (x, y) = (budget_share(less, limit), budget_share(more, limit));
    if limit > 0 && limit < less && more < 2 * limit {
        assert((100 * (2 * limit - more)) * limit <= (100 * (2 * limit - less)) * limit)
            by (nonlinear_arith)
            requires
                limit > 0,
                less <= more,
        ;
    } else if limit > 0 && limit < more && more < 2 * limit {
        assert(x == (Ratio { num: 100, den: 1 }));
        assert((100 * (2 * limit - more)) * 1 <= 100 * limit);
    } else if limit > 0 && more >= 2 * limit {
        lemma_budget_share(less, limit);
        assert(0 * x.den <= x.num * 1);
    }
}

/// `a * b >= c * d`, where the products may not fit.
fn product_at_least(a: u128, b: u64, c: u128, d: u64) -> (r: bool)
    ensures
        r == (a * b >= c * d),
{
    let (ah, al) = widen(a, b);
    let (ch, cl) = widen(c, d);
    assert(r_value(ah, al) >= r_value(ch, cl) <==> (ah > ch || (ah == ch && al >= cl)))
        by (nonlinear_arith)
        requires
            al < 0x1_0000_0000_0000_0000,
            cl < 0x1_0000_0000_0000_0000,
            r_value(ah, al) == ah * 0x1_0000_0000_0000_0000 + al,
            r_value(ch, cl) == ch * 0x1_0000_0000_0000_0000 + cl,
    ;
    ah > ch || (ah == ch && al >= cl)
}

spec fn r_value(high: u128, low: u128) -> int {
    high * 0x1_0000_0000_0000_0000 + low
}

/// A product in two pieces, the lower of 64 bits.
fn widen(a: u128, b: u64) -> (r: (u128, u128))
    ensures
        r_value(r.0, r.1) == a * b,
        r.1 < 0x1_0000_0000_0000_0000,
{
    let w: u128 = 0x1_0000_0000_0000_0000;
    let high: u128 = a / w;
    let low: u128 = a % w;
    let m: u128 = b as u128;
    assert(high < w && low < w && a == high * w + low) by (nonlinear_arith)
        requires
            w == 0x1_0000_0000_0000_0000,
            high == a / w,
            low == a % w,
    ;
    assert(low * m <= (w - 1) * (w - 1) && high * m <= (w - 1) * (w - 1)) by (nonlinear_arith)
        requires
            0 <= low <= w - 1,
            0 <= high <= w - 1,
            0 <= m <= w - 1,
    ;
    let bottom: u128 = low * m;
    let carry: u128 = bottom / w;
    let rest: u128 = bottom % w;
    assert(carry <= w - 1 && rest < w && bottom == carry * w + rest) by (nonlinear_arith)
        requires
            w == 0x1_0000_0000_0000_0000,
            carry == bottom / w,
            rest == bottom % w,
            bottom <= (w - 1) * (w - 1),
    ;
    let top: u128 = high * m + carry;
    assert((high * m + carry) * w + rest == a * b) by (nonlinear_arith)
        requires
            a == high * w + low,
            bottom == low * m,
            bottom == carry * w + rest,
            m == b,
    ;
    (top, rest)
}

/// A share, with its numbers at hand.
#[derive(Debug, Clone, Copy)]
pub struct Share {
    pub num: u128,
    pub den: u64,
}

impl Share {
    pub open spec fn view(self) -> Ratio {
        Ratio { num: self.num as int, den: self.den as int }
    }

    /// The share's denominator is a budget, so it fits in 63 bits.
    pub open spec fn wf(self) -> bool {
        is_share(self@) && self.den <= 0x7fff_ffff_ffff_ffff
    }
}

spec fn ratios(v: Seq<Share>) -> Seq<Ratio> {
    Seq::new(v.len(), |i: int| v[i]@)
}

/// Scores one token budget.
pub fn budget_score(count: usize, limit: i64) -> (r: Share)
    ensures
        r@ == budget_share(count as int, limit as int),
        r.wf(),
{
    if limit <= 0 {
        return Share { num: 100, den: 1 };
    }
    let n: u128 = count as u128;
    let l: u128 = limit as u128;
    if n <= l {
        Share { num: 100, den: 1 }
    } else if n >= 2 * l {
        Share { num: 0, den: 1 }
    } else {
        Share { num: 100 * (2 * l - n), den: limit as u64 }
    }
}

/// One more fraction in a sum that is known as a whole part and a rest.
proof fn lemma_step(x: Ratio, y: Ratio, scale: int, w: int, rest: int, u: int, v: int, carry: int)
    requires
        x.den > 0,
        y.den > 0,
        scale * x.num == w * x.den + rest,
        scale * y.num == u * y.den + v,
        carry == if rest * y.den + v * x.den >= x.den * y.den {
            1int
        } else {
            0
        },
        0 <= rest < x.den,
        0 <= v < y.den,
    ensures
        scale * x.plus(y).num == (w + u + carry) * x.plus(y).den + (rest * y.den + v * x.den - carry
            * (x.den * y.den)),
        0 <= rest * y.den + v * x.den - carry * (x.den * y.den) < x.plus(y).den,
        x.plus(y).den > 0,
        (scale * x.plus(y).num) / x.plus(y).den == w + u + carry,
{
    let (xn, xd, yn, yd) = (x.num, x.den, y.num, y.den);
    let z = x.plus(y);
    assert(xd * yd > 0) by (nonlinear_arith)
        requires
            xd > 0,
            yd > 0,
    ;
    assert(scale * (xn * yd + yn * xd) == (scale * xn) * yd + (scale * yn) * xd)
        by (nonlinear_arith);
    assert((w * xd + rest) * yd + (u * yd + v) * xd == (w + u) * (xd * yd) + (rest * yd + v * xd))
        by (nonlinear_arith);
    assert((w + u + carry) * (xd * yd) == (w + u) * (xd * yd) + carry * (xd * yd))
        by (nonlinear_arith);
    assert(0 <= rest * yd + v * xd < 2 * (xd * yd)) by (nonlinear_arith)
        requires
            xd > 0,
            yd > 0,
            0 <= rest < xd,
            0 <= v < yd,
    ;
    let r = rest * yd + v * xd - carry * (xd * yd);
    lemma_fundamental_div_mod_converse(scale * z.num, z.den, w + u + carry, r);
}

/// Nothing added changes nothing.
proof fn lemma_plus_zero(y: Ratio)
    ensures
        (Ratio { num: 0, den: 1 }).plus(y) == y,
        y.plus(Ratio { num: 0, den: 1 }) == y,
{
    assert(0 * y.den == 0 && y.num * 1 == y.num && 1 * y.den == y.den && y.den * 1 == y.den)
        by (nonlinear_arith);
}

/// Whether two proper fractions make a whole.
fn makes_whole(rest: u128, den: u128, v: u64, l: u64) -> (r: bool)
    requires
        0 < l,
        v < l,
    ensures
        r == (rest * l + v * den >= den * l),
{
    let lack: u64 = l - v;
    let r = product_at_least(rest, l, den, lack);
    assert(rest * l >= den * lack <==> rest * l + v * den >= den * l) by (nonlinear_arith)
        requires
            lack == l - v,
    ;
    r
}

/// Splits `scale` times a share into a whole part and what is left of it.
fn scaled(share: &Share, scale: u64) -> (r: (u128, u64))
    requires
        share.wf(),
        scale <= 17,
    ensures
        scale * share.num == r.0 * share.den + r.1,
        r.1 < share.den,
        r.0 <= 1700,
{
    let den: u128 = share.den as u128;
    assert(scale * share.num <= 17 * (100 * den)) by (nonlinear_arith)
        requires
            0 <= scale <= 17,
            0 <= share.num <= 100 * den,
    ;
    let n: u128 = scale as u128 * share.num;
    let whole: u128 = n / den;
    let left: u128 = n % den;
    assert(n == whole * den + left && left < den && whole <= 1700) by (nonlinear_arith)
        requires
            den > 0,
            whole == n / den,
            left == n % den,
            n <= 1700 * den,
    ;
    (whole, left as u64)
}

/// `scale` times the sum of up to three shares, rounded down.
fn scaled_sum(list: &Vec<Share>, scale: u64) -> (r: u128)
    requires
        list@.len() <= 3,
        forall|i: int| 0 <= i < list@.len() ==> (#[trigger] list@[i]).wf(),
        scale <= 17,
    ensures
        r == (scale * sum(ratios(list@)).num) / sum(ratios(list@)).den,
        r <= 6000,
{
    let ghost all = ratios(list@);
    let ghost zero = Ratio { num: 0, den: 1 };
    let ghost s = scale as int;
    assert(s * zero.num == 0) by (nonlinear_arith)
        requires
            zero.num == 0,
    ;
    if list.len() == 0 {
        assert(sum(all) == zero);
        return 0;
    }
    let a = &list[0];
    let (u1, v1) = scaled(a, scale);
    proof {
        reveal_with_fuel(sum, 4);
        assert(a.wf());
        lemma_fundamental_div_mod_converse(s * a@.num, a@.den, u1 as int, v1 as int);
        lemma_plus_zero(a@);
    }
    if list.len() == 1 {
        proof {
            assert(all.drop_last() =~= Seq::empty());
            assert(all.last() == a@);
        }
        return u1;
    }
    let b = &list[1];
    let (u2, v2) = scaled(b, scale);
    let first = makes_whole(v1 as u128, a.den as u128, v2, b.den);
    let carry: u128 = if first {
        1
    } else {
        0
    };
    let w: u128 = u1 + u2 + carry;
    let ghost ab = a@.plus(b@);
    proof {
        assert(b.wf());
        lemma_step(a@, b@, s, u1 as int, v1 as int, u2 as int, v2 as int, carry as int);
    }
    if list.len() == 2 {
        proof {
            assert(all.drop_last().drop_last() =~= Seq::empty());
            assert(all.drop_last().last() == a@);
            assert(all.last() == b@);
        }
        return w;
    }
    let c = &list[2];
    let (u3, v3) = scaled(c, scale);
    let (ad, bd): (u128, u128) = (a.den as u128, b.den as u128);
    let (r1, r2): (u128, u128) = (v1 as u128, v2 as u128);
    proof {
        assert(ad * bd <= 0x7fff_ffff_ffff_ffff * 0x7fff_ffff_ffff_ffff) by (nonlinear_arith)
            requires
                0 <= ad <= 0x7fff_ffff_ffff_ffff,
                0 <= bd <= 0x7fff_ffff_ffff_ffff,
        ;
        assert(r1 * bd <= ad * bd && r2 * ad <= bd * ad && bd * ad == ad * bd && 0 <= r1 * bd && 0 <= r2 * ad)
            by (nonlinear_arith)
            requires
                0 <= r1 <= ad,
                0 <= r2 <= bd,
        ;
    }
    let whole: u128 = ad * bd;
    let rest: u128 = if first {
        r1 * bd + r2 * ad - whole
    } else {
        r1 * bd + r2 * ad
    };
    let second = makes_whole(rest, whole, v3, c.den);
    let last: u128 = if second {
        1
    } else {
        0
    };
    proof {
        assert(c.wf());
        assert(rest == r1 * bd + r2 * ad - carry * (ad * bd)) by (nonlinear_arith)
            requires
                carry == if first {
                    1int
                } else {
                    0
                },
                rest == if first {
                    r1 * bd + r2 * ad - ad * bd
                } else {
                    r1 * bd + r2 * ad
                },
        ;
        lemma_step(ab, c@, s, w as int, rest as int, u3 as int, v3 as int, last as int);
        assert(all.drop_last().drop_last().drop_last() =~= Seq::empty());
        assert(all.drop_last().drop_last().last() == a@);
        assert(all.drop_last().last() == b@);
        assert(all.last() == c@);
    }
    w + u3 + last
}

/// Three fractions brought to one denominator.
proof fn lemma_common(front: int, full: int, a: int, m: int, bn: int, bd: int)
    ensures
        (front * (bd * m) + bn * a) * 1 + full * (a * (bd * m)) == (front * m + full * (a * m)) * bd
            + a * bn,
        (a * (bd * m)) * 1 == bd * (a * m),
{
    assert(front * (bd * m) == (front * m) * bd) by (nonlinear_arith);
    assert(a * (bd * m) == bd * (a * m)) by (nonlinear_arith);
    assert(full * (bd * (a * m)) == (full * (a * m)) * bd) by (nonlinear_arith);
    assert(bn * a == a * bn) by (nonlinear_arith);
    assert((front * m + full * (a * m)) * bd == (front * m) * bd + (full * (a * m)) * bd)
        by (nonlinear_arith);
}

/// The mean of the shares, over one denominator: what the whole numbers bring
/// in and what the budgets do.
proof fn lemma_mean_is(
    applied: int,
    failed: int,
    budgets: Seq<Ratio>,
    refs: Option<bool>,
    floor: int,
)
    requires
        0 <= failed <= applied,
        forall|i: int| 0 <= i < budgets.len() ==> is_share(#[trigger] budgets[i]),
        shares(applied, failed, budgets, refs).len() > 0,
        ({
            let a = if applied > 0 { applied } else { 1 };
            floor == (a * sum(budgets).num) / sum(budgets).den
        }),
    ensures
        ({
            let a = if applied > 0 { applied } else { 1 };
            let m = if budgets.len() > 0 { budgets.len() as int } else { 1 };
            let n = shares(applied, failed, budgets, refs).len() as int;
            let front = if applied > 0 { 100 * (applied - failed) } else { 0 };
            let full = if refs == Some(false) { 100int } else { 0 };
            mean(shares(applied, failed, budgets, refs)) == (front * m + full * (a * m) + floor) / (a
                * m * n)
        }),
{
    let list = shares(applied, failed, budgets, refs);
    let a = if applied > 0 { applied } else { 1 };
    let m = if budgets.len() > 0 { budgets.len() as int } else { 1 };
    let n = list.len() as int;
    let front = if applied > 0 { 100 * (applied - failed) } else { 0 };
    let full = if refs == Some(false) { 100int } else { 0 };
    let b = sum(budgets);
    lemma_sum(budgets);
    let f = Ratio { num: front, den: a };
    let t = Ratio { num: b.num, den: b.den * m };
    let r = Ratio { num: full, den: 1 };
    assert(sum(list) == f.plus(t).plus(r)) by {
        reveal_with_fuel(sum, 4);
        let one = if applied > 0 {
            seq![f]
        } else {
            Seq::empty()
        };
        let two = if budgets.len() > 0 {
            one.push(t)
        } else {
            one
        };
        lemma_plus_zero(f);
        lemma_plus_zero(t);
        lemma_plus_zero(f.plus(t));
        if applied > 0 {
            assert(one.drop_last() =~= Seq::empty());
        }
        assert(sum(one) == f);
        if budgets.len() > 0 {
            assert(two.drop_last() =~= one);
        } else {
            assert(b.den * 1 == b.den) by (nonlinear_arith);
        }
        assert(sum(two) == f.plus(t));
        if refs is Some {
            assert(list.drop_last() =~= two);
        }
    }
    let k = front * m + full * (a * m);
    let total = sum(list);
    lemma_common(front, full, a, m, b.num, b.den);
    assert(a * m * n > 0) by (nonlinear_arith)
        requires
            a > 0,
            m > 0,
            n > 0,
    ;
    assert(a * b.num >= 0 && k >= 0) by (nonlinear_arith)
        requires
            a > 0,
            m > 0,
            b.num >= 0,
            front >= 0,
            full >= 0,
            k == front * m + full * (a * m),
    ;
    assert(k * b.den >= 0) by (nonlinear_arith)
        requires
            k >= 0,
            b.den > 0,
    ;
    lemma_hoist_over_denominator(a * b.num, k, b.den as nat);
    assert(total.num / b.den == floor + k);
    lemma_div_denominator(total.num, b.den, a * m * n);
    assert(total.den * n == b.den * (a * m * n)) by (nonlinear_arith)
        requires
            total.den == b.den * (a * m),
    ;
}

fn add_budget(list: &mut Vec<Share>, tally: &Tally, rule: &str, count: usize, limit: i64)
    requires
        forall|i: int| 0 <= i < old(list)@.len() ==> (#[trigger] old(list)@[i]).wf(),
    ensures
        forall|i: int| 0 <= i < final(list)@.len() ==> (#[trigger] final(list)@[i]).wf(),
        ratios(final(list)@) == with_budget(
            ratios(old(list)@),
            tally@,
            rule@,
            count as int,
            limit as int,
        ),
{
    if tally.has(rule) {
        let share = budget_score(count, limit);
        assert(ratios(list@.push(share)) =~= ratios(list@).push(share@));
        list.push(share);
    }
}

/// Rates one file from 0 to 100: the mean of its frontmatter, token-budget and
/// file-reference parts.
///
/// Floored, so a score only reaches a band it has fully earned: 87.5 rates 87
/// rather than being rounded up into an 88 the file did not achieve.
pub fn score(tokens: &Counts, cfg: &Config, kind: Kind, tally: &Tally) -> (r: u8)
    requires
        tally@.len() <= ids().len(),
    ensures
        r == score_of(*tokens, cfg@, kind, tally@),
        r <= 100,
{
    let ghost view = cfg@;
    proof {
        lemma_score(*tokens, view, kind, tally@);
        lemma_counts(tally@, Part::Frontmatter);
        lemma_budgets(*tokens, view, kind, tally@);
    }
    let (applied, failed) = tally.counts(Part::Frontmatter);
    // One share per budget that was actually checked, averaged, so a skill's
    // name and description weigh against its body rather than beside the other
    // two parts.
    let mut budgets: Vec<Share> = Vec::new();
    assert(ratios(budgets@) =~= Seq::empty());
    add_budget(&mut budgets, tally, RULE_TOKENS_CONTENT, tokens.content, cfg.content_limit(kind));
    add_budget(&mut budgets, tally, RULE_TOKENS_NAME, tokens.name, cfg.max_skill_name_tokens);
    add_budget(
        &mut budgets,
        tally,
        RULE_TOKENS_DESCRIPTION,
        tokens.description,
        cfg.max_skill_description_tokens,
    );
    let ghost list = ratios(budgets@);
    assert(list == budgets_of(*tokens, view, kind, tally@));
    let ghost refs = references_verdict(tally@);
    let judged = tally.has(RULE_FILE_REFERENCE_MISSING);
    let whole = judged && !tally.failed(RULE_FILE_REFERENCE_MISSING);
    let m: u128 = if budgets.len() > 0 {
        budgets.len() as u128
    } else {
        1
    };
    let (a, front): (u128, u128) = if applied > 0 {
        (applied as u128, 100 * (applied - failed) as u128)
    } else {
        (1, 0)
    };
    let mut n: u128 = 0;
    if applied > 0 {
        n += 1;
    }
    if budgets.len() > 0 {
        n += 1;
    }
    if judged {
        n += 1;
    }
    assert(n == shares(applied as int, failed as int, list, refs).len());
    if n == 0 {
        return 100;
    }
    let full: u128 = if whole {
        100
    } else {
        0
    };
    let floor: u128 = scaled_sum(&budgets, a as u64);
    proof {
        lemma_mean_is(applied as int, failed as int, list, refs, floor as int);
        assert(0 < a * m <= 51 && 0 <= front * m <= 5100 && 0 <= full * (a * m) <= 5100 && 0 < a * m
            * n <= 153) by (nonlinear_arith)
            requires
                0 < a <= 17,
                0 < m <= 3,
                0 < n <= 3,
                0 <= front <= 1700,
                0 <= full <= 100,
        ;
    }
    ((front * m + full * (a * m) + floor) / (a * m * n)) as u8
}

} // verus!
