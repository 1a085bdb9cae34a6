//! What the wizard asks, what it makes of the answers, and what it writes.

use vstd::prelude::*;

use crate::cli::flag_parts;
use crate::config::SettingsView;
use crate::init::{
    asked, budget_line, command_from, config_lines, config_text, id_place, note_of, pick_of, picked,
    picks_of, prompt, replied, rule_list, rules_of, target_of, CommandView, InterviewView,
    INIT_USAGE,
};
use crate::laws::command_line::is_on;
use crate::lint::ids::{ids, lemma_ids};
use crate::number::{decimal, decimal_int, i64_of, usize_of};
use crate::text::{debug_text, list_items, trim};
use crate::wizard::{next, started, ActionView, EventView, StageView};
use crate::yaml::{
    escaped, escaped_char, is_word, is_word_char, reserved, scalar_written, text_scalar, with_ends,
};

verus! {

/// The wizard takes one flag, and no paths. The last of several flags counts.
pub proof fn lemma_wizard_line(args: Seq<Seq<char>>, at: int, force: bool, value: Option<Seq<char>>)
    requires
        0 <= at <= args.len(),
    ensures
        at == args.len() ==> command_from(args, at, force) == (CommandView::Run { force }),
        at < args.len() && (args[at].len() == 0 || args[at][0] != '-' || args[at] == seq!['-'])
            ==> command_from(args, at, force) == (CommandView::Finish {
            errors: "lintmatter: "@ + ("init takes no paths: "@ + debug_text(args[at])) + "\n"@
                + INIT_USAGE@,
            code: 2,
        }),
        at < args.len() && args[at].len() >= 2 && args[at][0] == '-' ==> {
            &&& flag_parts(args[at]) == ("force"@, value) || flag_parts(args[at]) == ("f"@, value)
                ==> command_from(args, at, force) == command_from(args, at + 1, is_on(value))
            &&& flag_parts(args[at]) == ("help"@, value) || flag_parts(args[at]) == ("h"@, value)
                ==> command_from(args, at, force) == (CommandView::Finish {
                errors: INIT_USAGE@,
                code: 0,
            })
            &&& forall|name: Seq<char>|
                flag_parts(args[at]) == (name, value) && name != "force"@ && name != "f"@ && name
                    != "help"@ && name != "h"@ ==> command_from(args, at, force) == (
                CommandView::Finish {
                    errors: "lintmatter: "@ + #[trigger] ("flag provided but not defined: -"@ + name)
                        + "\n"@ + INIT_USAGE@,
                    code: 2,
                })
        },
{
    reveal_strlit("-");
    assert("-"@ =~= seq!['-']);
    reveal_strlit("h");
    reveal_strlit("help");
    reveal_strlit("f");
    reveal_strlit("force");
    assert("h"@.len() == 1 && "help"@.len() == 4 && "f"@.len() == 1 && "force"@.len() == 5);
    assert("h"@[0] == 'h' && "f"@[0] == 'f');
}

/// The wizard writes over a config file only where it may, and then over the
/// one that counts. Where there is none it writes a new one.
pub proof fn lemma_target(yaml: bool, yml: bool, force: bool)
    ensures
        !yaml && !yml ==> target_of(yaml, yml, force) == Ok::<Seq<char>, Seq<char>>(
            ".lintmatter.yaml"@,
        ),
        yaml && force ==> target_of(yaml, yml, force) == Ok::<Seq<char>, Seq<char>>(
            ".lintmatter.yaml"@,
        ),
        !yaml && yml && force ==> target_of(yaml, yml, force) == Ok::<Seq<char>, Seq<char>>(
            ".lintmatter.yml"@,
        ),
        yaml && !force ==> target_of(yaml, yml, force) == Err::<Seq<char>, Seq<char>>(
            "lintmatter: "@ + ".lintmatter.yaml"@
                + " already exists: pass --force to overwrite it\n"@,
        ),
        !yaml && yml && !force ==> target_of(yaml, yml, force) == Err::<Seq<char>, Seq<char>>(
            "lintmatter: "@ + ".lintmatter.yml"@
                + " already exists: pass --force to overwrite it\n"@,
        ),
{
}

/// A config file further up is told of where the directory has none.
pub proof fn lemma_note(existing: bool, above: Option<Seq<char>>)
    ensures
        existing || above is None ==> note_of(existing, above).len() == 0,
        !existing ==> (above matches Some(path) ==> note_of(existing, above) == "note: "@ + path
            + " already applies to this directory\n\n"@),
{
}

/// The budgets in the order of their questions, and what they are without an
/// answer.
pub open spec fn budget_name(n: int) -> Seq<char> {
    if n == 0 {
        "max-agents-tokens"@
    } else if n == 1 {
        "max-skill-tokens"@
    } else if n == 2 {
        "max-skill-name-tokens"@
    } else {
        "max-skill-description-tokens"@
    }
}

pub open spec fn usual(n: int) -> int {
    if n == 0 {
        2500
    } else if n == 1 {
        5000
    } else if n == 2 {
        16
    } else {
        100
    }
}

/// The settings with a budget set.
pub open spec fn with_budget_set(s: SettingsView, n: int, value: i64) -> SettingsView {
    if n == 0 {
        SettingsView { max_agents_tokens: Some(value), ..s }
    } else if n == 1 {
        SettingsView { max_skill_tokens: Some(value), ..s }
    } else if n == 2 {
        SettingsView { max_skill_name_tokens: Some(value), ..s }
    } else {
        SettingsView { max_skill_description_tokens: Some(value), ..s }
    }
}

/// A budget is asked for by its name, with what it is without an answer. A
/// whole number, zero or more, sets it, unless it says nothing new. A blank
/// answer leaves it. Any other answer is told to be wrong, and the question is
/// asked again.
pub proof fn lemma_budget_question(iv: InterviewView, raw: Seq<char>)
    requires
        0 <= iv.at < 4,
    ensures
        prompt(iv.at) == "  "@ + budget_name(iv.at) + " ["@ + decimal_int(usual(iv.at)) + "]: "@,
        trim(raw).len() == 0 ==> replied(iv, Some(raw)) == (
            InterviewView { at: iv.at + 1, ..iv },
            asked(iv.at + 1),
        ),
        trim(raw).len() > 0 ==> (i64_of(trim(raw)) matches Some(n) ==> {
            &&& n == usual(iv.at) ==> replied(iv, Some(raw)) == (
                InterviewView { at: iv.at + 1, ..iv },
                asked(iv.at + 1),
            )
            &&& n >= 0 && n != usual(iv.at) ==> replied(iv, Some(raw)) == (
                InterviewView {
                    at: iv.at + 1,
                    settings: with_budget_set(iv.settings, iv.at, n as i64),
                },
                asked(iv.at + 1),
            )
            &&& n < 0 ==> replied(iv, Some(raw)) == (
                iv,
                "  "@ + (budget_name(iv.at) + " must be zero or more (0 disables the check)"@)
                    + "\n"@ + prompt(iv.at),
            )
        }),
        trim(raw).len() > 0 && i64_of(trim(raw)) is None ==> replied(iv, Some(raw)) == (
            iv,
            "  "@ + ("invalid value "@ + debug_text(trim(raw)) + " for "@ + budget_name(iv.at)
                + ": not an integer"@) + "\n"@ + prompt(iv.at),
        ),
{
}

/// The excludes are the items of the answer; the rules are those it picks. The
/// end of input leaves everything else as it is and ends the questions.
pub proof fn lemma_list_questions(iv: InterviewView, raw: Seq<char>)
    ensures
        iv.at == 4 ==> replied(iv, Some(raw)) == (
            InterviewView {
                at: 5,
                settings: SettingsView { excludes: list_items(trim(raw)), ..iv.settings },
            },
            asked(5),
        ),
        iv.at == 5 ==> (rules_of(trim(raw)) matches Ok(list) ==> replied(iv, Some(raw)) == (
            InterviewView { at: 6, settings: SettingsView { disabled: list, ..iv.settings } },
            asked(6),
        )),
        iv.at == 5 ==> (rules_of(trim(raw)) matches Err(m) ==> replied(iv, Some(raw)) == (
            iv,
            "  "@ + m + "\n"@ + prompt(5),
        )),
        replied(iv, None).0 == (InterviewView { at: 6, ..iv }),
        replied(iv, None).1.len() == 0,
{
}

/// The words of the questions.
pub proof fn lemma_questions(n: int)
    requires
        0 < n <= ids().len(),
    ensures
        asked(0) == "Token budgets, in tokens. 0 disables the check; blank keeps the default.\n"@
            + prompt(0),
        forall|at: int| 1 <= at <= 4 || at == 6 ==> #[trigger] asked(at) == prompt(at),
        prompt(4) == "\nPaths to exclude (comma-separated globs, blank for none): "@,
        asked(5) == "\nRules:\n"@ + rule_list(17)
            + "Rules to switch off (comma-separated ids or numbers, blank for none): "@,
        asked(6).len() == 0,
        rule_list(0).len() == 0,
        n < 10 ==> rule_list(n) == rule_list(n - 1) + "  "@ + (" "@ + decimal(n as nat)) + ". "@
            + ids()[n - 1] + "\n"@,
        n >= 10 ==> rule_list(n) == rule_list(n - 1) + "  "@ + decimal(n as nat) + ". "@ + ids()[n
            - 1] + "\n"@,
{
}

/// Whether an item of an answer picks the rule at a place: by its number,
/// counted from one, or by its id.
pub open spec fn picks(item: Seq<char>, n: int) -> bool {
    &&& 0 <= n < 17
    &&& usize_of(item) == Some(n + 1) || (usize_of(item) is None && item == ids()[n])
}

/// Whether an item of an answer picks a rule.
pub open spec fn picks_one(item: Seq<char>) -> bool {
    exists|n: int| picks(item, n)
}

proof fn lemma_id_place_of(id: Seq<char>, from: int)
    requires
        0 <= from,
        exists|n: int| from <= n < ids().len() && #[trigger] ids()[n] == id,
    ensures
        from <= id_place(id, from) < ids().len(),
        ids()[id_place(id, from)] == id,
    decreases ids().len() - from,
{
    let n = choose|n: int| from <= n < ids().len() && #[trigger] ids()[n] == id;
    if ids()[from] != id {
        assert(from + 1 <= n);
        lemma_id_place_of(id, from + 1);
    }
}

proof fn lemma_picks(item: Seq<char>, n: int)
    ensures
        picks(item, n) <==> pick_of(item) == Ok::<int, Seq<char>>(n),
        pick_of(item) matches Ok(m) ==> 0 <= m < 17,
{
    if usize_of(item) is None && ids().contains(item) {
        let k = ids().index_of(item);
        assert(ids()[k] == item);
        lemma_id_place_of(item, 0);
        let m = id_place(item, 0);
        if 0 <= n < 17 && item == ids()[n] {
            lemma_ids(m, n);
        }
    }
    if picks(item, n) && usize_of(item) is None {
        assert(ids().contains(ids()[n]));
    }
}

proof fn lemma_all_picks(items: Seq<Seq<char>>)
    ensures
        picks_of(items) is Ok <==> forall|i: int|
            0 <= i < items.len() ==> pick_of(#[trigger] items[i]) is Ok,
        picks_of(items) matches Ok(list) ==> list.len() == items.len() && forall|i: int|
            0 <= i < items.len() ==> pick_of(items[i]) == Ok::<int, Seq<char>>(#[trigger] list[i]),
    decreases items.len(),
{
    if items.len() > 0 {
        let init = items.drop_last();
        lemma_all_picks(init);
        let n = items.len() - 1;
        assert(items[n] == items.last());
        assert(forall|i: int| 0 <= i < n ==> #[trigger] init[i] == items[i]);
        if picks_of(items) is Ok {
            assert forall|i: int| 0 <= i < items.len() implies pick_of(#[trigger] items[i]) is Ok by {
                if i < n {
                    assert(pick_of(init[i]) is Ok);
                }
            }
            let list = picks_of(items)->Ok_0;
            let before = picks_of(init)->Ok_0;
            assert forall|i: int| 0 <= i < items.len() implies pick_of(items[i]) == Ok::<
                int,
                Seq<char>,
            >(#[trigger] list[i]) by {
                if i < n {
                    assert(list[i] == before[i]);
                    assert(pick_of(init[i]) == Ok::<int, Seq<char>>(before[i]));
                }
            }
        } else if forall|i: int| 0 <= i < items.len() ==> pick_of(#[trigger] items[i]) is Ok {
            assert forall|i: int| 0 <= i < init.len() implies pick_of(#[trigger] init[i]) is Ok by {
                assert(pick_of(items[i]) is Ok);
            }
            assert(pick_of(items[n]) is Ok);
        }
    }
}

proof fn lemma_picked_is(list: Seq<int>, n: int)
    requires
        0 <= n <= 17,
    ensures
        picked(list, n) == ids().take(n).filter(
            |id: Seq<char>| exists|k: int| list.contains(k) && 0 <= k < 17 && #[trigger] ids()[k] == id,
        ),
    decreases n,
{
    reveal(Seq::filter);
    let keep = |id: Seq<char>|
        exists|k: int| list.contains(k) && 0 <= k < 17 && #[trigger] ids()[k] == id;
    let now = ids().take(n);
    if n > 0 {
        lemma_picked_is(list, n - 1);
        assert(now.drop_last() =~= ids().take(n - 1));
        assert(now.last() == ids()[n - 1]);
        if keep(now.last()) {
            let k = choose|k: int|
                list.contains(k) && 0 <= k < 17 && #[trigger] ids()[k] == ids()[n - 1];
            lemma_ids(k, n - 1);
        }
        if list.contains(n - 1) {
            assert(ids()[n - 1] == now.last());
        }
    } else {
        assert(picked(list, n) =~= now.filter(keep));
    }
}

/// An answer switches off exactly the rules that its items pick, each once and
/// in the order of the list. It is right where every item picks a rule.
pub proof fn lemma_rules_answer(answer: Seq<char>)
    ensures
        rules_of(answer) is Ok <==> forall|i: int|
            0 <= i < list_items(answer).len() ==> picks_one(#[trigger] list_items(answer)[i]),
        rules_of(answer) matches Ok(list) ==> list == ids().filter(
            |id: Seq<char>|
                exists|i: int, n: int|
                    0 <= i < list_items(answer).len() && picks(#[trigger] list_items(answer)[i], n)
                        && #[trigger] ids()[n] == id,
        ),
{
    let items = list_items(answer);
    lemma_all_picks(items);
    assert forall|i: int| 0 <= i < items.len() implies (pick_of(#[trigger] items[i]) is Ok
        <==> picks_one(items[i])) by {
        if let Ok(n) = pick_of(items[i]) {
            lemma_picks(items[i], n);
            assert(picks(items[i], n));
        }
        if picks_one(items[i]) {
            let n = choose|n: int| picks(items[i], n);
            lemma_picks(items[i], n);
        }
    }
    if forall|i: int| 0 <= i < items.len() ==> picks_one(#[trigger] items[i]) {
        assert forall|i: int| 0 <= i < items.len() implies pick_of(#[trigger] items[i]) is Ok by {
            assert(picks_one(items[i]));
        }
    }
    if rules_of(answer) is Ok {
        assert forall|i: int| 0 <= i < items.len() implies picks_one(#[trigger] items[i]) by {
            assert(pick_of(items[i]) is Ok);
        }
        let list = picks_of(items)->Ok_0;
        lemma_picked_is(list, 17);
        assert(ids().take(17) =~= ids());
        let one = |id: Seq<char>|
            exists|k: int| list.contains(k) && 0 <= k < 17 && #[trigger] ids()[k] == id;
        let two = |id: Seq<char>|
            exists|i: int, n: int|
                0 <= i < items.len() && picks(#[trigger] items[i], n) && #[trigger] ids()[n] == id;
        assert forall|id: Seq<char>| #[trigger] one(id) == two(id) by {
            if one(id) {
                let k = choose|k: int| list.contains(k) && 0 <= k < 17 && #[trigger] ids()[k] == id;
                let i = list.index_of(k);
                lemma_picks(items[i], k);
                assert(pick_of(items[i]) == Ok::<int, Seq<char>>(list[i]));
                assert(picks(items[i], k) && ids()[k] == id);
            }
            if two(id) {
                let (i, n) = choose|i: int, n: int|
                    0 <= i < items.len() && picks(#[trigger] items[i], n) && #[trigger] ids()[n] == id;
                lemma_picks(items[i], n);
                assert(pick_of(items[i]) == Ok::<int, Seq<char>>(list[i]));
                assert(list[i] == n);
                assert(list.contains(n));
                assert(ids()[n] == id);
            }
        }
        assert(one =~= two);
    }
}

/// The wizard first looks at the directory, then asks, then writes, and ends
/// with code 0, or with code 2 where it may not write or cannot.
pub proof fn lemma_wizard(
    args: Seq<Seq<char>>,
    yaml: bool,
    yml: bool,
    above: Option<Seq<char>>,
    force: bool,
    iv: InterviewView,
    name: Seq<char>,
    line: Option<Seq<char>>,
    path: Seq<char>,
    reason: Seq<char>,
)
    ensures
        command_from(args, 0, false) == (CommandView::Run { force }) ==> started(args) == (
            StageView::Survey { force },
            ActionView::Survey,
        ),
        command_from(args, 0, false) matches CommandView::Finish { errors, code } ==> started(args)
            == (StageView::End, ActionView::Finish { shown: Seq::empty(), errors, code }),
        ({
            let then = next(StageView::Survey { force }, EventView::Surveyed { yaml, yml, above });
            match target_of(yaml, yml, force) {
                Ok(target) => {
                    &&& then.0 matches StageView::Ask { interview, name: chosen }
                    &&& chosen == target
                    &&& interview.at == 0
                    &&& interview.settings == SettingsView::unset()
                    &&& then.1 == ActionView::Ask(note_of(yaml || yml, above) + asked(0))
                },
                Err(m) => then == (
                    StageView::End,
                    ActionView::Finish { shown: Seq::empty(), errors: m, code: 2 },
                ),
            }
        }),
        ({
            let then = next(StageView::Ask { interview: iv, name }, EventView::Line(line));
            let (now, shown) = replied(iv, line);
            if now.at < 6 {
                then == (StageView::Ask { interview: now, name }, ActionView::Ask(shown))
            } else {
                then == (
                    StageView::Write { name },
                    ActionView::Write { shown, name, text: config_text(now.settings) },
                )
            }
        }),
        next(StageView::Write { name }, EventView::Written(None)) == (
            StageView::End,
            ActionView::Finish {
                shown: "\nWrote "@ + name + "\n"@,
                errors: Seq::empty(),
                code: 0,
            },
        ),
        next(StageView::Write { name }, EventView::Written(Some((path, reason)))) == (
            StageView::End,
            ActionView::Finish {
                shown: Seq::empty(),
                errors: "lintmatter: cannot write "@ + path + ": "@ + reason + "\n"@,
                code: 2,
            },
        ),
{
}

/// A config file has a line for each budget, which says what was chosen, or in
/// a comment what holds anyway; then the excludes and the rules that are
/// switched off, one to a line, or an example in a comment.
pub proof fn lemma_config_lines(s: SettingsView)
    ensures
        ({
            let lines = config_lines(s);
            let e = s.excludes.len() as int;
            let d = s.disabled.len() as int;
            let at: int = if e == 0 {
                13
            } else {
                12 + e
            };
            &&& forall|n: int, v: i64| 0 <= n < 4 ==> #[trigger] budget_line(n, Some(v))
                == budget_name(n) + ": "@ + decimal_int(v as int)
            &&& forall|n: int| 0 <= n < 4 ==> #[trigger] budget_line(n, None) == "# "@ + budget_name(n)
                + ": "@ + decimal_int(usual(n))
            &&& lines[4] == budget_line(0, s.max_agents_tokens)
            &&& lines[5] == budget_line(1, s.max_skill_tokens)
            &&& lines[6] == budget_line(2, s.max_skill_name_tokens)
            &&& lines[7] == budget_line(3, s.max_skill_description_tokens)
            &&& e == 0 ==> lines[11] == "# exclude:"@ && lines[12] == "#   - testdata"@
            &&& e > 0 ==> lines[11] == "exclude:"@
            &&& forall|i: int|
                0 <= i < e ==> (#[trigger] s.excludes[i]) == s.excludes[i] && lines[12 + i] == "  - "@
                    + scalar_written(text_scalar(s.excludes[i]))
            &&& d == 0 ==> lines[at + 2] == "# rules:"@ && lines[at + 3]
                == "#   name.dir-mismatch: false"@ && lines.len() == at + 4
            &&& d > 0 ==> lines[at + 2] == "rules:"@ && lines.len() == at + 3 + d
            &&& forall|i: int|
                0 <= i < d ==> (#[trigger] s.disabled[i]) == s.disabled[i] && lines[at + 3 + i]
                    == "  "@ + s.disabled[i] + ": false"@
            &&& config_text(s) == with_ends(lines)
        }),
{
    let lines = config_lines(s);
    let e = s.excludes.len() as int;
    assert forall|i: int| 0 <= i < e implies (#[trigger] s.excludes[i]) == s.excludes[i] && lines[12
        + i] == "  - "@ + scalar_written(text_scalar(s.excludes[i])) by {
        assert("  - "@ + scalar_written(text_scalar(s.excludes[i])) + Seq::<char>::empty() =~= "  - "@
            + scalar_written(text_scalar(s.excludes[i])));
    }
}

/// Every line of a file ends in a line feed.
pub proof fn lemma_line_ends(lines: Seq<Seq<char>>, line: Seq<char>)
    ensures
        with_ends(Seq::empty()).len() == 0,
        with_ends(lines.push(line)) == with_ends(lines) + line + seq!['\n'],
{
    reveal_strlit("\n");
    assert("\n"@ =~= seq!['\n']);
    assert(lines.push(line).drop_last() =~= lines);
}

/// Between quotes a quote and a backslash have a backslash before them, the
/// ends of lines and the null character are told by a letter, and all else is
/// itself.
pub proof fn lemma_escapes(t: Seq<char>, c: char)
    ensures
        escaped(Seq::empty()).len() == 0,
        escaped(t.push(c)) == escaped(t) + escaped_char(c),
        escaped_char('"') == seq!['\\', '"'],
        escaped_char('\\') == seq!['\\', '\\'],
        escaped_char('\n') == seq!['\\', 'n'],
        escaped_char('\r') == seq!['\\', 'r'],
        escaped_char('\0') == seq!['\\', '0'],
        c != '"' && c != '\\' && c != '\n' && c != '\r' && c != '\0' ==> escaped_char(c) == seq![c],
{
    assert(t.push(c).drop_last() =~= t);
}

/// Whether a text can stand in a config file without quotes.
pub open spec fn stands_bare(t: Seq<char>) -> bool {
    &&& t.len() > 0
    &&& ('a' <= t[0] <= 'z') || ('A' <= t[0] <= 'Z') || t[0] == '_' || t[0] == '/' || (t[0] == '.'
        && t.len() > 1 && (('a' <= t[1] <= 'z') || ('A' <= t[1] <= 'Z')))
    &&& t[t.len() - 1] != ' '
    &&& forall|i: int|
        0 <= i < t.len() ==> #[trigger] t[i] != ':' && t[i] != '#' && t[i] != '\t' && t[i] != '\n'
            && t[i] != '\r' && t[i] != '\0' && t[i] != '\u{feff}'
    &&& !(t == "null"@ || t == "Null"@ || t == "NULL"@ || t == "true"@ || t == "True"@ || t == "TRUE"@
        || t == "false"@ || t == "False"@ || t == "FALSE"@ || t == ".inf"@ || t == ".Inf"@ || t
        == ".INF"@ || t == ".nan"@ || t == ".NaN"@ || t == ".NAN"@)
}

/// A text is written as it is where it reads as itself, and in quotes where it
/// would not.
pub proof fn lemma_written_text(t: Seq<char>)
    ensures
        stands_bare(t) ==> scalar_written(text_scalar(t)) == t,
        !stands_bare(t) ==> scalar_written(text_scalar(t)) == seq!['"'] + escaped(t) + seq!['"'],
{
    let r = reserved();
    assert(r.contains(t) <==> (t == r[0] || t == r[1] || t == r[2] || t == r[3] || t == r[4] || t
        == r[5] || t == r[6] || t == r[7] || t == r[8] || t == r[9] || t == r[10] || t == r[11] || t
        == r[12] || t == r[13] || t == r[14])) by {
        assert(r.len() == 15);
        assert(forall|i: int| 0 <= i < 15 ==> r.contains(#[trigger] r[i]));
    }
    if stands_bare(t) {
        assert forall|i: int| 0 <= i < t.len() implies #[trigger] is_word_char(t[i]) by {}
    }
    if is_word(t) {
        assert forall|i: int| 0 <= i < t.len() implies #[trigger] t[i] != ':' && t[i] != '#' && t[i]
            != '\t' && t[i] != '\n' && t[i] != '\r' && t[i] != '\0' && t[i] != '\u{feff}' by {
            assert(is_word_char(t[i]));
        }
    }
}

} // verus!
