//! What a score is: the mean of the parts that have anything to judge, rounded
//! down.

use vstd::prelude::*;

use crate::config::ConfigView;
use crate::discover::Kind;
use crate::lint::score::{
    applied_count, budget_share, budgets_of, failed_count, lemma_counts, mean, references_verdict,
    score_of, shares, sum, Part, Ratio,
};
use crate::lint::{Counts, MarkView};

verus! {

/// The sum of some numbers.
pub open spec fn total(xs: Seq<int>) -> int
    decreases xs.len(),
{
    if xs.len() == 0 {
        0
    } else {
        total(xs.drop_last()) + xs.last()
    }
}

/// Whether `x` parts of a whole in `d` parts are a fraction.
pub open spec fn is_part_of(x: int, d: int, r: Ratio) -> bool {
    r.den > 0 && x * r.den == r.num * d
}

proof fn lemma_total(xs: Seq<int>, list: Seq<Ratio>, d: int)
    requires
        xs.len() == list.len(),
        forall|i: int| 0 <= i < xs.len() ==> is_part_of(#[trigger] xs[i], d, list[i]),
    ensures
        is_part_of(total(xs), d, sum(list)),
    decreases xs.len(),
{
    if xs.len() > 0 {
        assert forall|i: int| 0 <= i < xs.drop_last().len() implies is_part_of(
            #[trigger] xs.drop_last()[i],
            d,
            list.drop_last()[i],
        ) by {
            assert(is_part_of(xs[i], d, list[i]));
        }
        lemma_total(xs.drop_last(), list.drop_last(), d);
        let n = xs.len() - 1;
        assert(is_part_of(xs[n], d, list[n]));
        let (t, x) = (total(xs.drop_last()), xs.last());
        let (a, b) = (sum(list.drop_last()), list.last());
        let (an, ad, bn, bd) = (a.num, a.den, b.num, b.den);
        assert(ad * bd > 0 && (t + x) * (ad * bd) == (an * bd + bn * ad) * d) by (nonlinear_arith)
            requires
                ad > 0,
                bd > 0,
                t * ad == an * d,
                x * bd == bn * d,
        ;
    }
}

proof fn lemma_floor(t: int, d: int, num: int, den: int, n: int)
    requires
        d > 0,
        den > 0,
        n > 0,
        t * den == num * d,
    ensures
        num / (den * n) == t / (d * n),
{
    let q = t / (d * n);
    assert(d * n > 0 && den * n > 0) by (nonlinear_arith)
        requires
            d > 0,
            den > 0,
            n > 0,
    ;
    vstd::arithmetic::div_mod::lemma_fundamental_div_mod(t, d * n);
    let r = t % (d * n);
    assert(t == (d * n) * q + r && 0 <= r < d * n);
    let rest = num - (den * n) * q;
    assert(rest * d == r * den) by (nonlinear_arith)
        requires
            t * den == num * d,
            t == (d * n) * q + r,
            rest == num - (den * n) * q,
    ;
    assert(0 <= rest < den * n) by (nonlinear_arith)
        requires
            rest * d == r * den,
            0 <= r < d * n,
            d > 0,
            den > 0,
    ;
    vstd::arithmetic::div_mod::lemma_fundamental_div_mod_converse(num, den * n, q, rest);
}

/// The mean of shares is the mean of the numbers they are in a common
/// denominator, rounded down.
proof fn lemma_mean(xs: Seq<int>, list: Seq<Ratio>, d: int)
    requires
        d > 0,
        xs.len() == list.len(),
        xs.len() > 0,
        forall|i: int| 0 <= i < xs.len() ==> is_part_of(#[trigger] xs[i], d, list[i]),
    ensures
        mean(list) == total(xs) / (d * xs.len()),
{
    lemma_total(xs, list, d);
    lemma_floor(total(xs), d, sum(list).num, sum(list).den, xs.len() as int);
}

/// Whether a rule ran.
pub open spec fn ran_rule(tally: Seq<MarkView>, rule: Seq<char>) -> bool {
    exists|i: int| 0 <= i < tally.len() && (#[trigger] tally[i]).rule == rule
}

/// Whether a rule fired.
pub open spec fn fired_rule(tally: Seq<MarkView>, rule: Seq<char>) -> bool {
    exists|i: int| 0 <= i < tally.len() && (#[trigger] tally[i]).rule == rule && tally[i].failed
}

/// Whether `x` of `100 * d` is what a budget is worth: all of it up to the
/// limit, nothing from twice the limit on, and in between less by as much as
/// the limit is exceeded.
pub open spec fn is_worth(x: int, d: int, count: int, limit: int) -> bool {
    &&& limit <= 0 || count <= limit ==> x == 100 * d
    &&& 0 < limit && 2 * limit <= count ==> x == 0
    &&& 0 < limit < count < 2 * limit ==> (100 * d - x) * limit == 100 * d * (count - limit)
}

proof fn lemma_worth(x: int, d: int, count: int, limit: int)
    requires
        is_worth(x, d, count, limit),
    ensures
        is_part_of(x, d, budget_share(count, limit)),
{
    if 0 < limit < count < 2 * limit {
        assert(x * limit == 100 * (2 * limit - count) * d) by (nonlinear_arith)
            requires
                (100 * d - x) * limit == 100 * d * (count - limit),
        ;
    }
}

/// One where a thing holds, and zero where it does not.
pub open spec fn one_if(b: bool) -> int {
    if b {
        1
    } else {
        0
    }
}

/// The shares of a score, in a common denominator: `front` of the rules on
/// front matter, `body`, `name` and `line` of the three budgets, `budget` of
/// them together, and `refs` of the references.
pub struct Marks {
    pub d: int,
    pub front: int,
    pub body: int,
    pub name: int,
    pub line: int,
    pub budget: int,
    pub refs: int,
}

/// Whether the shares are what the parts of a score are worth. What was not
/// judged is worth nothing.
pub open spec fn are_marks(
    m: Marks,
    tokens: Counts,
    cfg: ConfigView,
    kind: Kind,
    tally: Seq<MarkView>,
) -> bool {
    let body_limit = if kind == Kind::Agents {
        cfg.max_agents_tokens
    } else {
        cfg.max_skill_tokens
    };
    let body = ran_rule(tally, "tokens.content"@);
    let name = ran_rule(tally, "tokens.name"@);
    let line = ran_rule(tally, "tokens.description"@);
    let all = applied_count(tally, Part::Frontmatter);
    let passed = all - failed_count(tally, Part::Frontmatter);
    &&& m.d > 0
    &&& if all > 0 {
        m.front * all == 100 * passed * m.d
    } else {
        m.front == 0
    }
    &&& if body {
        is_worth(m.body, m.d, tokens.content as int, body_limit)
    } else {
        m.body == 0
    }
    &&& if name {
        is_worth(m.name, m.d, tokens.name as int, cfg.max_skill_name_tokens)
    } else {
        m.name == 0
    }
    &&& if line {
        is_worth(m.line, m.d, tokens.description as int, cfg.max_skill_description_tokens)
    } else {
        m.line == 0
    }
    &&& if body || name || line {
        m.budget * (one_if(body) + one_if(name) + one_if(line)) == m.body + m.name + m.line
    } else {
        m.budget == 0
    }
    &&& m.refs == if ran_rule(tally, "file-reference.missing"@) && !fired_rule(
        tally,
        "file-reference.missing"@,
    ) {
        100 * m.d
    } else {
        0
    }
}

/// How many parts of a score have anything to judge.
pub open spec fn judged_parts(tally: Seq<MarkView>) -> int {
    one_if(applied_count(tally, Part::Frontmatter) > 0) + one_if(
        ran_rule(tally, "tokens.content"@) || ran_rule(tally, "tokens.name"@) || ran_rule(
            tally,
            "tokens.description"@,
        ),
    ) + one_if(ran_rule(tally, "file-reference.missing"@))
}

proof fn lemma_budget_list(
    m: Marks,
    tokens: Counts,
    cfg: ConfigView,
    kind: Kind,
    tally: Seq<MarkView>,
)
    requires
        are_marks(m, tokens, cfg, kind, tally),
    ensures
        ({
            let list = budgets_of(tokens, cfg, kind, tally);
            &&& list.len() == one_if(ran_rule(tally, "tokens.content"@)) + one_if(
                ran_rule(tally, "tokens.name"@),
            ) + one_if(ran_rule(tally, "tokens.description"@))
            &&& is_part_of(m.body + m.name + m.line, m.d, sum(list))
        }),
{
    reveal_with_fuel(total, 4);
    let list = budgets_of(tokens, cfg, kind, tally);
    let body = ran_rule(tally, "tokens.content"@);
    let name = ran_rule(tally, "tokens.name"@);
    let line = ran_rule(tally, "tokens.description"@);
    let none = Seq::<int>::empty();
    let one = if body {
        none.push(m.body)
    } else {
        none
    };
    let two = if name {
        one.push(m.name)
    } else {
        one
    };
    let xs = if line {
        two.push(m.line)
    } else {
        two
    };
    let body_limit = if kind == Kind::Agents {
        cfg.max_agents_tokens
    } else {
        cfg.max_skill_tokens
    };
    if body {
        lemma_worth(m.body, m.d, tokens.content as int, body_limit);
        assert(one.drop_last() =~= none);
    }
    if name {
        lemma_worth(m.name, m.d, tokens.name as int, cfg.max_skill_name_tokens);
        assert(two.drop_last() =~= one);
    }
    if line {
        lemma_worth(m.line, m.d, tokens.description as int, cfg.max_skill_description_tokens);
        assert(xs.drop_last() =~= two);
    }
    assert(total(none) == 0);
    assert(total(one) == m.body);
    assert(total(two) == m.body + m.name);
    assert(total(xs) == m.body + m.name + m.line);
    assert(xs.len() == list.len());
    assert forall|i: int| 0 <= i < xs.len() implies is_part_of(#[trigger] xs[i], m.d, list[i]) by {}
    lemma_total(xs, list, m.d);
}

/// A score is the mean of its parts, rounded down, and 100 where nothing was
/// judged: of the rules on front matter the share that passed, of the budgets
/// the mean of what each is worth, and of the references all or nothing.
pub proof fn lemma_score(
    m: Marks,
    tokens: Counts,
    cfg: ConfigView,
    kind: Kind,
    tally: Seq<MarkView>,
)
    requires
        are_marks(m, tokens, cfg, kind, tally),
    ensures
        judged_parts(tally) == 0 ==> score_of(tokens, cfg, kind, tally) == 100,
        judged_parts(tally) > 0 ==> score_of(tokens, cfg, kind, tally) == (m.front + m.budget
            + m.refs) / (m.d * judged_parts(tally)),
{
    reveal_with_fuel(total, 4);
    let applied = applied_count(tally, Part::Frontmatter);
    let failed = failed_count(tally, Part::Frontmatter);
    let budgets = budgets_of(tokens, cfg, kind, tally);
    let refs = references_verdict(tally);
    let list = shares(applied, failed, budgets, refs);
    lemma_counts(tally, Part::Frontmatter);
    lemma_budget_list(m, tokens, cfg, kind, tally);
    let none = Seq::<int>::empty();
    let one = if applied > 0 {
        none.push(m.front)
    } else {
        none
    };
    let two = if budgets.len() > 0 {
        one.push(m.budget)
    } else {
        one
    };
    let xs = if refs is Some {
        two.push(m.refs)
    } else {
        two
    };
    if applied > 0 {
        assert(one.drop_last() =~= none);
    }
    if budgets.len() > 0 {
        assert(two.drop_last() =~= one);
        let k = budgets.len() as int;
        let t = m.body + m.name + m.line;
        let (sn, sd, b, d) = (sum(budgets).num, sum(budgets).den, m.budget, m.d);
        assert(sd * k > 0 && b * (sd * k) == sn * d) by (nonlinear_arith)
            requires
                sd > 0,
                k > 0,
                t * sd == sn * d,
                b * k == t,
        ;
    }
    if refs is Some {
        assert(xs.drop_last() =~= two);
    }
    assert(total(none) == 0);
    assert(total(one) == m.front);
    assert(total(two) == m.front + m.budget);
    assert(total(xs) == m.front + m.budget + m.refs);
    assert(xs.len() == list.len());
    assert(xs.len() == judged_parts(tally));
    if xs.len() > 0 {
        let front = Ratio { num: 100 * (applied - failed), den: applied };
        let budget = Ratio { num: sum(budgets).num, den: sum(budgets).den * budgets.len() };
        assert(applied > 0 ==> is_part_of(m.front, m.d, front) && list[0] == front && xs[0]
            == m.front);
        assert(budgets.len() > 0 ==> is_part_of(m.budget, m.d, budget));
        assert(budgets.len() > 0 ==> list[one.len() as int] == budget && xs[one.len() as int]
            == m.budget);
        if refs is Some {
            let last = list[two.len() as int];
            let fired = fired_rule(tally, "file-reference.missing"@);
            assert(refs == Some(fired));
            assert(last.den == 1);
            if fired {
                assert(last.num == 0);
                assert(last.num * m.d == 0) by (nonlinear_arith)
                    requires
                        last.num == 0,
                ;
            } else {
                assert(last.num == 100);
                assert(last.num * m.d == 100 * m.d) by (nonlinear_arith)
                    requires
                        last.num == 100,
                ;
            }
        }
        assert(refs is Some ==> is_part_of(m.refs, m.d, list[two.len() as int]) && xs[two.len() as int]
            == m.refs);
        assert forall|i: int| 0 <= i < xs.len() implies is_part_of(#[trigger] xs[i], m.d, list[i]) by {}
        lemma_mean(xs, list, m.d);
    }
}

} // verus!
