//! `lintmatter init`: a walkthrough that writes a `.lintmatter.yaml`.
//!
//! Hand-writing the file means guessing key names, default values and rule
//! ids, and every one of those is a hard error when the file is next read. The
//! wizard asks instead, and builds its questions from the same constants and
//! rule ids the parser validates against, so a generated file cannot name a
//! setting or a rule that does not exist.

use vstd::prelude::*;

use crate::cli::{
    flag_parts, is_flag, looks_like_flag, opt_view, parse_bool_inline, split_flag, switch_value,
    EXIT_OK, EXIT_USAGE,
};
use crate::config::{
    plain_setting, plain_settings, settings_valid, Settings, SettingsView,
    DEFAULT_MAX_AGENTS_TOKENS, DEFAULT_MAX_SKILL_DESCRIPTION_TOKENS, DEFAULT_MAX_SKILL_NAME_TOKENS,
    DEFAULT_MAX_SKILL_TOKENS, YAML_FILE_NAME, YML_FILE_NAME,
};
use crate::lint::ids::{ids, lemma_id_chars, lemma_ids, rule_ids, strs};
use crate::number::{
    decimal, decimal_int, i64_of, is_digit, lemma_read_decimal, read_i64, read_usize, usize_of,
    write_integer, write_natural,
};
use crate::order::positions;
use crate::text::{
    debug_text, join, lemma_join_append, lemma_list_items, lemma_split_join, list_items, nonblank,
    quoted, same, split, split_items, texts, to_chars, to_text, trim, trimmed,
};
use crate::yaml::{
    is_plain, is_plain_key, is_plain_value, is_remark, is_word, is_word_char, only_comments,
    part_lines, plain_entries, plain_lines, plain_text, reserved, scalar_meant, scalar_written,
    text_scalar, with_ends, write_text, PlainPart, PlainScalar, PlainValue,
};

verus! {

/// What the wizard's command line comes to.
pub enum CommandView {
    Run { force: bool },
    Finish { errors: Seq<char>, code: i32 },
}

/// What the wizard's command line comes to.
#[derive(Debug)]
pub enum Command {
    Run { force: bool },
    Finish { errors: String, code: i32 },
}

impl Command {
    pub open spec fn view(self) -> CommandView {
        match self {
            Command::Run { force } => CommandView::Run { force },
            Command::Finish { errors, code } => CommandView::Finish { errors: errors@, code },
        }
    }
}

pub const INIT_USAGE: &'static str =
    "lintmatter init writes a .lintmatter.yaml config file, asking about the token
budgets, the paths to exclude and the rules to switch off.

Usage:
  lintmatter init [--force]

The file is written to the current directory. An existing config there stops
the run unless --force is given. Answering nothing keeps a setting's default,
and end of input takes the defaults for every remaining question, so
`lintmatter init < /dev/null` writes a usable file without prompting.

Flags:
  -f, --force    overwrite an existing config file
";

/// A usage error of the wizard.
pub open spec fn misused(msg: Seq<char>) -> CommandView {
    CommandView::Finish {
        errors: "lintmatter: "@ + msg + "\n"@ + INIT_USAGE@,
        code: EXIT_USAGE,
    }
}

/// What the arguments from `at` on come to.
pub open spec fn command_from(args: Seq<Seq<char>>, at: int, force: bool) -> CommandView
    decreases args.len() - at,
{
    if at < 0 || at >= args.len() {
        CommandView::Run { force }
    } else {
        let (name, inline) = flag_parts(args[at]);
        if !is_flag(args[at]) {
            misused("init takes no paths: "@ + debug_text(args[at]))
        } else if name == "h"@ || name == "help"@ {
            CommandView::Finish { errors: INIT_USAGE@, code: EXIT_OK }
        } else if name == "f"@ || name == "force"@ {
            command_from(args, at + 1, switch_value(inline))
        } else {
            misused("flag provided but not defined: -"@ + name)
        }
    }
}

fn misuse(msg: &str) -> (r: Command)
    ensures
        r@ == misused(msg@),
{
    let mut errors = "lintmatter: ".to_string();
    errors.append(msg);
    errors.append("\n");
    errors.append(INIT_USAGE);
    Command::Finish { errors, code: EXIT_USAGE }
}

/// Reads the wizard's command line.
pub fn read_args(args: &[String]) -> (r: Command)
    ensures
        r@ == command_from(texts(args@), 0, false),
{
    let ghost all = texts(args@);
    let mut force = false;
    let mut i: usize = 0;
    while i < args.len()
        invariant
            i <= args@.len(),
            all == texts(args@),
            command_from(all, 0, false) == command_from(all, i as int, force),
        decreases args@.len() - i,
    {
        let arg = args[i].as_str();
        assert(all[i as int] == arg@);
        if !looks_like_flag(arg) {
            let mut m = "init takes no paths: ".to_string();
            m.append(quoted(arg).as_str());
            return misuse(m.as_str());
        }
        let (name, inline) = split_flag(arg);
        let name = name.as_str();
        if same(name, "h") || same(name, "help") {
            return Command::Finish { errors: INIT_USAGE.to_string(), code: EXIT_OK };
        }
        if same(name, "f") || same(name, "force") {
            force = parse_bool_inline(&inline);
        } else {
            let mut m = "flag provided but not defined: -".to_string();
            m.append(name);
            return misuse(m.as_str());
        }
        i += 1;
    }
    Command::Run { force }
}

/// The config file already in a directory, by which of the two names are
/// taken.
pub open spec fn existing_name(yaml: bool, yml: bool) -> Option<Seq<char>> {
    if yaml {
        Some(YAML_FILE_NAME@)
    } else if yml {
        Some(YML_FILE_NAME@)
    } else {
        None
    }
}

/// The file the wizard writes, or why it does not.
pub open spec fn target_of(yaml: bool, yml: bool, force: bool) -> Result<Seq<char>, Seq<char>> {
    match existing_name(yaml, yml) {
        Some(name) => if force {
            Ok(name)
        } else {
            Err("lintmatter: "@ + name + " already exists: pass --force to overwrite it\n"@)
        },
        None => Ok(YAML_FILE_NAME@),
    }
}

/// Chooses the file to write, given which of the two names is already taken.
///
/// Overwriting a tuned config by accident is worse than a second command, so
/// an existing file stops the run unless it was asked for. When `--force` does
/// allow it, the file already there is the one rewritten: writing the other
/// spelling instead would leave two configs, only one of which is read.
pub fn choose_target(yaml: bool, yml: bool, force: bool) -> (r: Result<&'static str, String>)
    ensures
        target_of(yaml, yml, force) == (match r {
            Ok(name) => Ok(name@),
            Err(m) => Err(m@),
        }),
{
    let name = if yaml {
        YAML_FILE_NAME
    } else if yml {
        YML_FILE_NAME
    } else {
        return Ok(YAML_FILE_NAME);
    };
    if force {
        return Ok(name);
    }
    let mut m = "lintmatter: ".to_string();
    m.append(name);
    m.append(" already exists: pass --force to overwrite it\n");
    Err(m)
}

/// What is said of a config file further up.
pub open spec fn note_of(existing: bool, above: Option<Seq<char>>) -> Seq<char> {
    match above {
        Some(path) if !existing => "note: "@ + path + " already applies to this directory\n\n"@,
        _ => Seq::empty(),
    }
}

/// Settings are discovered upward, so a config above this directory already
/// governs it. Says so rather than let the new file look like the only one.
pub fn note(existing: bool, above: &Option<String>) -> (r: String)
    ensures
        r@ == note_of(existing, opt_view(*above)),
{
    match above {
        Some(path) => if !existing {
            let mut m = "note: ".to_string();
            m.append(path.as_str());
            m.append(" already applies to this directory\n\n");
            return m;
        },
        None => {},
    }
    let none = String::new();
    assert(none@ =~= Seq::empty());
    none
}

/// The name of a budget, in the order the wizard asks about them.
pub open spec fn budget_key(n: int) -> Seq<char> {
    if n == 0 {
        "max-agents-tokens"@
    } else if n == 1 {
        "max-skill-tokens"@
    } else if n == 2 {
        "max-skill-name-tokens"@
    } else {
        "max-skill-description-tokens"@
    }
}

/// The default of a budget.
pub open spec fn budget_default(n: int) -> i64 {
    if n == 0 {
        DEFAULT_MAX_AGENTS_TOKENS
    } else if n == 1 {
        DEFAULT_MAX_SKILL_TOKENS
    } else if n == 2 {
        DEFAULT_MAX_SKILL_NAME_TOKENS
    } else {
        DEFAULT_MAX_SKILL_DESCRIPTION_TOKENS
    }
}

fn budget(n: usize) -> (r: (&'static str, i64))
    ensures
        r.0@ == budget_key(n as int),
        r.1 == budget_default(n as int),
{
    if n == 0 {
        ("max-agents-tokens", DEFAULT_MAX_AGENTS_TOKENS)
    } else if n == 1 {
        ("max-skill-tokens", DEFAULT_MAX_SKILL_TOKENS)
    } else if n == 2 {
        ("max-skill-name-tokens", DEFAULT_MAX_SKILL_NAME_TOKENS)
    } else {
        ("max-skill-description-tokens", DEFAULT_MAX_SKILL_DESCRIPTION_TOKENS)
    }
}

/// Settings with a budget recorded, unless it is the default anyway.
pub open spec fn with_budget(s: SettingsView, n: int, value: i64) -> SettingsView {
    if value == budget_default(n) {
        s
    } else if n == 0 {
        SettingsView { max_agents_tokens: Some(value), ..s }
    } else if n == 1 {
        SettingsView { max_skill_tokens: Some(value), ..s }
    } else if n == 2 {
        SettingsView { max_skill_name_tokens: Some(value), ..s }
    } else {
        SettingsView { max_skill_description_tokens: Some(value), ..s }
    }
}

fn record(s: &mut Settings, n: usize, value: i64)
    ensures
        final(s)@ == with_budget(old(s)@, n as int, value),
{
    let (_, default) = budget(n);
    if value == default {
        return;
    }
    if n == 0 {
        s.max_agents_tokens = Some(value);
    } else if n == 1 {
        s.max_skill_tokens = Some(value);
    } else if n == 2 {
        s.max_skill_name_tokens = Some(value);
    } else {
        s.max_skill_description_tokens = Some(value);
    }
}

/// What an item of an answer picks: a rule by its number in the printed list
/// or by its id.
pub open spec fn pick_of(item: Seq<char>) -> Result<int, Seq<char>> {
    match usize_of(item) {
        Some(n) => if 1 <= n <= ids().len() {
            Ok(n - 1)
        } else {
            Err(
                "no rule numbered "@ + decimal(n as nat) + ": pick 1 to "@ + decimal(ids().len()),
            )
        },
        None => if ids().contains(item) {
            Ok(id_place(item, 0))
        } else {
            Err("unknown rule "@ + debug_text(item) + ": run --list-rules to see them all"@)
        },
    }
}

/// The place of a rule id in the registry, from `from` on.
pub open spec fn id_place(id: Seq<char>, from: int) -> int
    decreases ids().len() - from,
{
    if 0 <= from < ids().len() && ids()[from] != id {
        id_place(id, from + 1)
    } else {
        from
    }
}

/// The rules that items pick, or the first fault in them.
pub open spec fn picks_of(items: Seq<Seq<char>>) -> Result<Seq<int>, Seq<char>>
    decreases items.len(),
{
    if items.len() == 0 {
        Ok(Seq::empty())
    } else {
        match picks_of(items.drop_last()) {
            Err(m) => Err(m),
            Ok(list) => match pick_of(items.last()) {
                Err(m) => Err(m),
                Ok(n) => Ok(list.push(n)),
            },
        }
    }
}

/// The ids among the first `n` that were picked, in report order.
pub open spec fn picked(picks: Seq<int>, n: int) -> Seq<Seq<char>>
    decreases n,
{
    if n <= 0 {
        Seq::empty()
    } else if picks.contains(n - 1) {
        picked(picks, n - 1).push(ids()[n - 1])
    } else {
        picked(picks, n - 1)
    }
}

/// The rules an answer names, in report order and each once, or what is wrong
/// with it.
pub open spec fn rules_of(answer: Seq<char>) -> Result<Seq<Seq<char>>, Seq<char>> {
    match picks_of(list_items(answer)) {
        Err(m) => Err(m),
        Ok(picks) => Ok(picked(picks, ids().len() as int)),
    }
}

proof fn lemma_picks_stop(items: Seq<Seq<char>>, n: int)
    requires
        0 <= n <= items.len(),
        picks_of(items.take(n)) is Err,
    ensures
        picks_of(items) == picks_of(items.take(n)),
    decreases items.len(),
{
    if n < items.len() {
        assert(items.drop_last().take(n) =~= items.take(n));
        lemma_picks_stop(items.drop_last(), n);
    } else {
        assert(items.take(n) =~= items);
    }
}

fn pick(item: &str) -> (r: Result<usize, String>)
    ensures
        match pick_of(item@) {
            Ok(n) => r matches Ok(k) && k == n && 0 <= n < ids().len(),
            Err(m) => r matches Err(e) && e@ == m,
        },
{
    let all = rule_ids();
    let count: usize = all.len();
    assert(strs(all@).len() == ids().len());
    if let Some(n) = read_usize(item) {
        if 1 <= n && n <= count {
            return Ok(n - 1);
        }
        let mut m = "no rule numbered ".to_string();
        m.append(write_natural(n as u128).as_str());
        m.append(": pick 1 to ");
        m.append(write_natural(count as u128).as_str());
        return Err(m);
    }
    let mut i: usize = 0;
    while i < all.len()
        invariant
            i <= all@.len(),
            strs(all@) == ids(),
            usize_of(item@) is None,
            id_place(item@, 0) == id_place(item@, i as int),
            forall|j: int| 0 <= j < i ==> ids()[j] != item@,
        decreases all@.len() - i,
    {
        assert(ids()[i as int] == all@[i as int]@);
        if same(all[i], item) {
            return Ok(i);
        }
        i += 1;
    }
    assert(!ids().contains(item@));
    let mut m = "unknown rule ".to_string();
    m.append(quoted(item).as_str());
    m.append(": run --list-rules to see them all");
    Err(m)
}

fn is_picked(picks: &Vec<usize>, n: usize) -> (r: bool)
    ensures
        r == positions(picks@).contains(n as int),
{
    let mut i: usize = 0;
    while i < picks.len()
        invariant
            i <= picks@.len(),
            forall|j: int| 0 <= j < i ==> positions(picks@)[j] != n,
        decreases picks@.len() - i,
    {
        assert(positions(picks@)[i as int] == picks@[i as int]);
        if picks[i] == n {
            return true;
        }
        i += 1;
    }
    false
}

/// Turns an answer into rule ids, accepting either an id or its number in the
/// printed list. Typos are rejected the way `--disable` rejects them rather
/// than silently switching nothing off, and the result is kept in report order
/// so the rendered mapping reads like `--list-rules`.
pub fn resolve_rules(answer: &str) -> (r: Result<Vec<String>, String>)
    ensures
        rules_of(answer@) == (match r {
            Ok(v) => Ok(texts(v@)),
            Err(m) => Err(m@),
        }),
{
    let items = split_items(answer);
    let ghost all = texts(items@);
    let mut picks: Vec<usize> = Vec::new();
    let mut i: usize = 0;
    assert(all.take(0) =~= Seq::empty());
    assert(positions(picks@) =~= Seq::empty());
    while i < items.len()
        invariant
            i <= items@.len(),
            all == texts(items@),
            all == list_items(answer@),
            picks_of(all.take(i as int)) == Ok::<Seq<int>, Seq<char>>(
                positions(picks@),
            ),
        decreases items@.len() - i,
    {
        proof {
            let next = all.take(i + 1);
            assert(next.drop_last() =~= all.take(i as int));
            assert(next.last() == items@[i as int]@);
        }
        match pick(items[i].as_str()) {
            Ok(n) => {
                assert(positions(picks@.push(n)) =~= positions(
                    picks@,
                ).push(n as int));
                picks.push(n);
            },
            Err(m) => {
                proof {
                    lemma_picks_stop(all, i + 1);
                }
                return Err(m);
            },
        }
        i += 1;
    }
    assert(all.take(i as int) =~= all);
    let names = rule_ids();
    let mut out: Vec<String> = Vec::new();
    let mut n: usize = 0;
    assert(texts(out@) =~= Seq::empty());
    while n < names.len()
        invariant
            n <= names@.len(),
            strs(names@) == ids(),
            texts(out@) == picked(positions(picks@), n as int),
        decreases names@.len() - n,
    {
        assert(ids()[n as int] == names@[n as int]@);
        if is_picked(&picks, n) {
            let id = names[n].to_string();
            assert(texts(out@.push(id)) =~= texts(out@).push(id@));
            out.push(id);
        }
        n += 1;
    }
    assert(strs(names@).len() == ids().len());
    Ok(out)
}

/// A number in the printed list, right-aligned to two places.
pub open spec fn numeral(n: int) -> Seq<char> {
    if n < 10 {
        " "@ + decimal(n as nat)
    } else {
        decimal(n as nat)
    }
}

/// The first `n` rules, numbered, one to a line.
pub open spec fn rule_list(n: int) -> Seq<char>
    decreases n,
{
    if n <= 0 {
        Seq::empty()
    } else {
        rule_list(n - 1) + "  "@ + numeral(n) + ". "@ + ids()[n - 1] + "\n"@
    }
}

fn write_numeral(n: usize) -> (r: String)
    ensures
        r@ == numeral(n as int),
{
    if n < 10 {
        let mut out = " ".to_string();
        out.append(write_natural(n as u128).as_str());
        out
    } else {
        write_natural(n as u128)
    }
}

fn list_rules() -> (r: String)
    ensures
        r@ == rule_list(ids().len() as int),
{
    let names = rule_ids();
    let mut out = String::new();
    let mut n: usize = 0;
    assert(out@ =~= Seq::empty());
    while n < names.len()
        invariant
            n <= names@.len(),
            strs(names@) == ids(),
            out@ == rule_list(n as int),
        decreases names@.len() - n,
    {
        assert(ids()[n as int] == names@[n as int]@);
        out.append("  ");
        out.append(write_numeral(n + 1).as_str());
        out.append(". ");
        out.append(names[n]);
        out.append("\n");
        n += 1;
    }
    assert(strs(names@).len() == ids().len());
    out
}

/// How far the walkthrough has come, and what the answers add up to so far.
#[derive(Debug)]
pub struct Interview {
    /// The question it is at: the four budgets, the excludes, the rules; then
    /// it is done.
    pub at: usize,
    pub settings: Settings,
}

#[verifier::ext_equal]
pub struct InterviewView {
    pub at: int,
    pub settings: SettingsView,
}

impl Interview {
    pub open spec fn view(self) -> InterviewView {
        InterviewView { at: self.at as int, settings: self.settings@ }
    }
}

/// The question that ends the walkthrough.
pub const DONE: usize = 6;

/// The words of a question.
pub open spec fn prompt(at: int) -> Seq<char> {
    if at < 4 {
        "  "@ + budget_key(at) + " ["@ + decimal_int(budget_default(at) as int) + "]: "@
    } else if at == 4 {
        "\nPaths to exclude (comma-separated globs, blank for none): "@
    } else if at == 5 {
        "Rules to switch off (comma-separated ids or numbers, blank for none): "@
    } else {
        Seq::empty()
    }
}

/// What leads up to a question the first time it is asked.
pub open spec fn asked(at: int) -> Seq<char> {
    if at == 0 {
        "Token budgets, in tokens. 0 disables the check; blank keeps the default.\n"@ + prompt(at)
    } else if at == 5 {
        "\nRules:\n"@ + rule_list(ids().len() as int) + prompt(at)
    } else {
        prompt(at)
    }
}

/// The walkthrough after a question was answered, and what it shows next.
pub open spec fn moved_on(at: int, settings: SettingsView) -> (InterviewView, Seq<char>) {
    (InterviewView { at: at + 1, settings }, asked(at + 1))
}

/// The walkthrough after an answer that will not do: why, and the question
/// again.
pub open spec fn again(iv: InterviewView, why: Seq<char>) -> (InterviewView, Seq<char>) {
    (iv, "  "@ + why + "\n"@ + prompt(iv.at))
}

/// The walkthrough after a line of input. End of input ends it early: what is
/// left keeps its default.
pub open spec fn replied(iv: InterviewView, line: Option<Seq<char>>) -> (InterviewView, Seq<char>) {
    match line {
        None => (InterviewView { at: DONE as int, ..iv }, Seq::empty()),
        Some(raw) => {
            let answer = trim(raw);
            if iv.at < 4 {
                if answer.len() == 0 {
                    moved_on(iv.at, iv.settings)
                } else {
                    match i64_of(answer) {
                        Some(n) => if n >= 0 {
                            moved_on(iv.at, with_budget(iv.settings, iv.at, n as i64))
                        } else {
                            again(
                                iv,
                                budget_key(iv.at)
                                    + " must be zero or more (0 disables the check)"@,
                            )
                        },
                        None => again(
                            iv,
                            "invalid value "@ + debug_text(answer) + " for "@ + budget_key(iv.at)
                                + ": not an integer"@,
                        ),
                    }
                }
            } else if iv.at == 4 {
                moved_on(iv.at, SettingsView { excludes: list_items(answer), ..iv.settings })
            } else {
                match rules_of(answer) {
                    Ok(list) => moved_on(iv.at, SettingsView { disabled: list, ..iv.settings }),
                    Err(m) => again(iv, m),
                }
            }
        },
    }
}

fn show_prompt(at: usize) -> (r: String)
    ensures
        r@ == prompt(at as int),
{
    if at < 4 {
        let (key, default) = budget(at);
        let mut out = "  ".to_string();
        out.append(key);
        out.append(" [");
        out.append(write_integer(default).as_str());
        out.append("]: ");
        out
    } else if at == 4 {
        "\nPaths to exclude (comma-separated globs, blank for none): ".to_string()
    } else if at == 5 {
        "Rules to switch off (comma-separated ids or numbers, blank for none): ".to_string()
    } else {
        let none = String::new();
        assert(none@ =~= Seq::empty());
        none
    }
}

fn show_question(at: usize) -> (r: String)
    ensures
        r@ == asked(at as int),
{
    if at == 0 {
        let mut out =
            "Token budgets, in tokens. 0 disables the check; blank keeps the default.\n".to_string();
        out.append(show_prompt(at).as_str());
        out
    } else if at == 5 {
        let mut out = "\nRules:\n".to_string();
        out.append(list_rules().as_str());
        out.append(show_prompt(at).as_str());
        out
    } else {
        show_prompt(at)
    }
}

impl Interview {
    /// Starts the walkthrough. Also returns what to show.
    pub fn begin() -> (r: (Interview, String))
        ensures
            r.0@ == (InterviewView { at: 0, settings: SettingsView::unset() }),
            r.1@ == asked(0),
    {
        (Interview { at: 0, settings: Settings::default() }, show_question(0))
    }

    /// Whether every question is answered.
    pub fn is_done(&self) -> (r: bool)
        ensures
            r == (self@.at >= DONE),
    {
        self.at >= DONE
    }

    fn advance(&mut self) -> (r: String)
        requires
            old(self)@.at < DONE,
        ensures
            (final(self)@, r@) == moved_on(old(self)@.at, old(self)@.settings),
    {
        self.at += 1;
        show_question(self.at)
    }

    fn retry(&self, why: &str) -> (r: String)
        ensures
            r@ == again(self@, why@).1,
    {
        let mut out = "  ".to_string();
        out.append(why);
        out.append("\n");
        out.append(show_prompt(self.at).as_str());
        out
    }

    /// Takes an answer in, or the end of input. Returns what to show next.
    ///
    /// Only settings moved off their default are recorded, so the rendered
    /// file says what the project actually chose. A budget is asked for until
    /// the answer is one the config parser would accept, in the same words it
    /// uses.
    pub fn reply(&mut self, line: &Option<String>) -> (r: String)
        requires
            old(self)@.at < DONE,
        ensures
            (final(self)@, r@) == replied(old(self)@, opt_view(*line)),
    {
        let Some(raw) = line else {
            self.at = DONE;
            let none = String::new();
            assert(none@ =~= Seq::empty());
            return none;
        };
        let chars = to_chars(raw.as_str());
        let answer = to_text(trimmed(chars.as_slice()));
        let text = answer.as_str();
        if self.at < 4 {
            if to_chars(text).len() == 0 {
                return self.advance();
            }
            let (key, _) = budget(self.at);
            return match read_i64(text) {
                Some(n) => if n >= 0 {
                    record(&mut self.settings, self.at, n);
                    self.advance()
                } else {
                    let mut m = key.to_string();
                    m.append(" must be zero or more (0 disables the check)");
                    self.retry(m.as_str())
                },
                None => {
                    let mut m = "invalid value ".to_string();
                    m.append(quoted(text).as_str());
                    m.append(" for ");
                    m.append(key);
                    m.append(": not an integer");
                    self.retry(m.as_str())
                },
            };
        }
        if self.at == 4 {
            self.settings.excludes = split_items(text);
            return self.advance();
        }
        match resolve_rules(text) {
            Ok(list) => {
                self.settings.disabled = list;
                self.advance()
            },
            Err(m) => self.retry(m.as_str()),
        }
    }
}

/// The line of a budget: commented out with its default when it is not set.
pub open spec fn budget_line(n: int, value: Option<i64>) -> Seq<char> {
    match value {
        Some(v) => budget_key(n) + ": "@ + decimal_int(v as int),
        None => "# "@ + budget_key(n) + ": "@ + decimal_int(budget_default(n) as int),
    }
}

/// Texts as they stand in a config file: in quotes where they need some.
pub open spec fn written(items: Seq<Seq<char>>) -> Seq<Seq<char>> {
    Seq::new(items.len(), |i: int| scalar_written(text_scalar(items[i])))
}

/// What a list gives one line each.
pub open spec fn listed(before: Seq<char>, items: Seq<Seq<char>>, after: Seq<char>) -> Seq<
    Seq<char>,
> {
    Seq::new(items.len(), |i: int| before + items[i] + after)
}

pub const HEAD_FIRST: &'static str =
    "# lintmatter settings. The nearest .lintmatter.yaml at or above the working";

pub const HEAD_SECOND: &'static str = "# directory is the one that applies, and flags win over it.";

pub const BUDGETS_COMMENT: &'static str = "# Token budgets. 0 disables the check.";

pub const EXCLUDE_FIRST: &'static str =
    "# Paths to skip, matched against both the base name and the path";

pub const EXCLUDE_SECOND: &'static str = "# relative to the walk root.";

pub const RULES_COMMENT: &'static str =
    "# Switch a rule off by id (see `lintmatter --list-rules`).";

/// The lines of a config file with some settings. Those left at their default
/// are commented out with the value they take anyway.
pub open spec fn config_lines(s: SettingsView) -> Seq<Seq<char>> {
    seq![
        HEAD_FIRST@,
        HEAD_SECOND@,
        Seq::empty(),
        BUDGETS_COMMENT@,
        budget_line(0, s.max_agents_tokens),
        budget_line(1, s.max_skill_tokens),
        budget_line(2, s.max_skill_name_tokens),
        budget_line(3, s.max_skill_description_tokens),
        Seq::empty(),
        EXCLUDE_FIRST@,
        EXCLUDE_SECOND@,
    ] + (if s.excludes.len() == 0 {
        seq!["# exclude:"@, "#   - testdata"@]
    } else {
        seq!["exclude:"@] + listed("  - "@, written(s.excludes), Seq::empty())
    }) + seq![Seq::empty(), RULES_COMMENT@] + (if s.disabled.len() == 0 {
        seq!["# rules:"@, "#   name.dir-mismatch: false"@]
    } else {
        seq!["rules:"@] + listed("  "@, s.disabled, ": false"@)
    })
}

/// A config file with some settings.
pub open spec fn config_text(s: SettingsView) -> Seq<char> {
    with_ends(config_lines(s))
}

fn add_line(out: &mut String, line: &str, Ghost(lines): Ghost<Seq<Seq<char>>>)
    requires
        old(out)@ == with_ends(lines),
    ensures
        final(out)@ == with_ends(lines.push(line@)),
{
    assert(lines.push(line@).drop_last() =~= lines);
    out.append(line);
    out.append("\n");
}

fn write_budget(n: usize, value: &Option<i64>) -> (r: String)
    ensures
        r@ == budget_line(n as int, *value),
{
    let (key, default) = budget(n);
    match value {
        Some(v) => {
            let mut line = key.to_string();
            line.append(": ");
            line.append(write_integer(*v).as_str());
            line
        },
        None => {
            let mut line = "# ".to_string();
            line.append(key);
            line.append(": ");
            line.append(write_integer(default).as_str());
            line
        },
    }
}

fn add_listed(
    out: &mut String,
    before: &str,
    items: &Vec<String>,
    after: &str,
    Ghost(lines): Ghost<Seq<Seq<char>>>,
)
    requires
        old(out)@ == with_ends(lines),
    ensures
        final(out)@ == with_ends(lines + listed(before@, texts(items@), after@)),
{
    let ghost all = listed(before@, texts(items@), after@);
    let mut i: usize = 0;
    assert(lines + all.take(0) =~= lines);
    while i < items.len()
        invariant
            i <= items@.len(),
            all == listed(before@, texts(items@), after@),
            out@ == with_ends(lines + all.take(i as int)),
        decreases items@.len() - i,
    {
        let mut line = before.to_owned();
        line.append(items[i].as_str());
        line.append(after);
        assert(all[i as int] == line@);
        assert((lines + all.take(i as int)).push(line@) =~= lines + all.take(i + 1));
        add_line(out, line.as_str(), Ghost(lines + all.take(i as int)));
        i += 1;
    }
    assert(all.take(i as int) =~= all);
}

fn write_all(items: &Vec<String>) -> (r: Vec<String>)
    ensures
        texts(r@) == written(texts(items@)),
{
    let mut out: Vec<String> = Vec::new();
    let mut i: usize = 0;
    while i < items.len()
        invariant
            i <= items@.len(),
            out@.len() == i,
            forall|k: int|
                0 <= k < i ==> (#[trigger] out@[k])@ == scalar_written(text_scalar(items@[k]@)),
        decreases items@.len() - i,
    {
        out.push(write_text(items[i].as_str()));
        i += 1;
    }
    assert(texts(out@) =~= written(texts(items@)));
    out
}

/// Renders the config file. Settings left at their default are written
/// commented out with the value they take anyway, so the file documents every
/// key it could carry without pinning one the project never chose. An exclude
/// that YAML would not read as itself, such as `*.tmp`, is written in quotes.
pub fn render(s: &Settings) -> (r: String)
    ensures
        r@ == config_text(s@),
{
    let ghost mut lines: Seq<Seq<char>> = Seq::empty();
    let empty = String::new();
    assert(empty@ =~= Seq::empty());
    let mut out = String::new();
    assert(out@ =~= Seq::empty());
    add_line(&mut out, HEAD_FIRST, Ghost(lines));
    proof { lines = lines.push(HEAD_FIRST@); }
    add_line(&mut out, HEAD_SECOND, Ghost(lines));
    proof { lines = lines.push(HEAD_SECOND@); }
    add_line(&mut out, empty.as_str(), Ghost(lines));
    proof { lines = lines.push(Seq::empty()); }
    add_line(&mut out, BUDGETS_COMMENT, Ghost(lines));
    proof { lines = lines.push(BUDGETS_COMMENT@); }
    let agents = write_budget(0, &s.max_agents_tokens);
    add_line(&mut out, agents.as_str(), Ghost(lines));
    proof { lines = lines.push(agents@); }
    let skill = write_budget(1, &s.max_skill_tokens);
    add_line(&mut out, skill.as_str(), Ghost(lines));
    proof { lines = lines.push(skill@); }
    let name = write_budget(2, &s.max_skill_name_tokens);
    add_line(&mut out, name.as_str(), Ghost(lines));
    proof { lines = lines.push(name@); }
    let description = write_budget(3, &s.max_skill_description_tokens);
    add_line(&mut out, description.as_str(), Ghost(lines));
    proof { lines = lines.push(description@); }
    add_line(&mut out, empty.as_str(), Ghost(lines));
    proof { lines = lines.push(Seq::empty()); }
    add_line(&mut out, EXCLUDE_FIRST, Ghost(lines));
    proof { lines = lines.push(EXCLUDE_FIRST@); }
    add_line(&mut out, EXCLUDE_SECOND, Ghost(lines));
    proof { lines = lines.push(EXCLUDE_SECOND@); }
    let ghost head = lines;
    if s.excludes.len() == 0 {
        add_line(&mut out, "# exclude:", Ghost(lines));
        proof { lines = lines.push("# exclude:"@); }
        add_line(&mut out, "#   - testdata", Ghost(lines));
        proof { lines = lines.push("#   - testdata"@); }
    } else {
        add_line(&mut out, "exclude:", Ghost(lines));
        proof { lines = lines.push("exclude:"@); }
        let items = write_all(&s.excludes);
        add_listed(&mut out, "  - ", &items, empty.as_str(), Ghost(lines));
        proof { lines = lines + listed("  - "@, written(texts(s.excludes@)), Seq::empty()); }
    }
    let ghost middle = lines;
    add_line(&mut out, empty.as_str(), Ghost(lines));
    proof { lines = lines.push(Seq::empty()); }
    add_line(&mut out, RULES_COMMENT, Ghost(lines));
    proof { lines = lines.push(RULES_COMMENT@); }
    if s.disabled.len() == 0 {
        add_line(&mut out, "# rules:", Ghost(lines));
        proof { lines = lines.push("# rules:"@); }
        add_line(&mut out, "#   name.dir-mismatch: false", Ghost(lines));
        proof { lines = lines.push("#   name.dir-mismatch: false"@); }
    } else {
        add_line(&mut out, "rules:", Ghost(lines));
        proof { lines = lines.push("rules:"@); }
        add_listed(&mut out, "  ", &s.disabled, ": false", Ghost(lines));
        proof { lines = lines + listed("  "@, texts(s.disabled@), ": false"@); }
    }
    assert(lines =~= config_lines(s@));
    out
}

/// What the wizard says when it is done.
pub fn wrote(target: &str) -> (r: String)
    ensures
        r@ == "\nWrote "@ + target@ + "\n"@,
{
    let mut m = "\nWrote ".to_string();
    m.append(target);
    m.append("\n");
    m
}

/// What the wizard says when the file cannot be written.
pub fn unwritable(path: &str, reason: &str) -> (r: String)
    ensures
        r@ == "lintmatter: cannot write "@ + path@ + ": "@ + reason@ + "\n"@,
{
    let mut m = "lintmatter: cannot write ".to_string();
    m.append(path);
    m.append(": ");
    m.append(reason);
    m.append("\n");
    m
}

/// A rule is picked by its number in the printed list or by its id.
pub proof fn lemma_pick(n: int)
    requires
        0 <= n < ids().len(),
    ensures
        pick_of(ids()[n]) == Ok::<int, Seq<char>>(n),
        pick_of(decimal((n + 1) as nat)) == Ok::<int, Seq<char>>(n),
{
    lemma_read_decimal((n + 1) as nat);
    let digits = decimal((n + 1) as nat);
    assert(is_digit(digits[0]));
    lemma_ids(n, n);
    assert(usize_of(ids()[n]) is None) by {
        assert(!is_digit(ids()[n][0]));
    }
    assert(ids().contains(ids()[n]));
    lemma_id_place(n, 0);
}

proof fn lemma_id_place(n: int, from: int)
    requires
        0 <= from <= n < ids().len(),
    ensures
        id_place(ids()[n], from) == n,
    decreases n - from,
{
    if from < n {
        lemma_ids(from, n);
        lemma_id_place(n, from + 1);
    }
}

proof fn lemma_picked(picks: Seq<int>, n: int)
    requires
        0 <= n <= ids().len(),
    ensures
        forall|i: int|
            0 <= i < picked(picks, n).len() ==> ids().contains(#[trigger] picked(picks, n)[i]),
        forall|i: int|
            0 <= i < picked(picks, n).len() ==> exists|k: int|
                0 <= k < n && #[trigger] ids()[k] == (#[trigger] picked(picks, n)[i]),
        picked(picks, n).no_duplicates(),
    decreases n,
{
    if n > 0 {
        lemma_picked(picks, n - 1);
        assert forall|i: int| 0 <= i < picked(picks, n - 1).len() implies (#[trigger] picked(
            picks,
            n - 1,
        )[i]) != ids()[n - 1] by {
            let k = choose|k: int|
                0 <= k < n - 1 && #[trigger] ids()[k] == picked(picks, n - 1)[i];
            lemma_ids(k, n - 1);
        }
        assert forall|i: int| 0 <= i < picked(picks, n).len() implies exists|k: int|
            0 <= k < n && #[trigger] ids()[k] == (#[trigger] picked(picks, n)[i]) by {
            if i < picked(picks, n - 1).len() {
                assert(picked(picks, n)[i] == picked(picks, n - 1)[i]);
                let k = choose|k: int|
                    0 <= k < n - 1 && #[trigger] ids()[k] == picked(picks, n - 1)[i];
                assert(ids()[k] == picked(picks, n)[i]);
            } else {
                assert(ids()[n - 1] == picked(picks, n)[i]);
            }
        }
        assert(ids().contains(ids()[n - 1]));
        let before = picked(picks, n - 1);
        assert forall|i: int| 0 <= i < picked(picks, n).len() implies ids().contains(
            #[trigger] picked(picks, n)[i],
        ) by {
            if i < before.len() {
                assert(picked(picks, n)[i] == before[i]);
            }
        }
    }
}

/// Whether a budget was moved off its default.
pub open spec fn moved_off(n: int, value: Option<i64>) -> bool {
    value matches Some(v) ==> v >= 0 && v != budget_default(n)
}

/// What the wizard may have recorded: settings that a config file may carry,
/// and none of them at its default.
pub open spec fn recorded(s: SettingsView) -> bool {
    &&& settings_valid(s)
    &&& s.disabled.no_duplicates()
    &&& moved_off(0, s.max_agents_tokens)
    &&& moved_off(1, s.max_skill_tokens)
    &&& moved_off(2, s.max_skill_name_tokens)
    &&& moved_off(3, s.max_skill_description_tokens)
}

/// Whatever is answered, the wizard records only settings that a config file
/// may carry and give back, and none that is the default anyway.
pub proof fn lemma_replied(iv: InterviewView, line: Option<Seq<char>>)
    requires
        0 <= iv.at < DONE,
        recorded(iv.settings),
    ensures
        recorded(replied(iv, line).0.settings),
        writable(replied(iv, line).0.settings),
        iv.at <= replied(iv, line).0.at <= DONE,
        line is None ==> replied(iv, line).0 == (InterviewView { at: DONE as int, ..iv }),
{
    if let Some(raw) = line {
        let answer = trim(raw);
        if iv.at == 4 {
            assert forall|k: int| 0 <= k < list_items(answer).len() implies (#[trigger] list_items(
                answer,
            )[k]).len() > 0 by {
                lemma_list_items(answer, k);
            }
        } else if iv.at == 5 {
            match picks_of(list_items(answer)) {
                Ok(picks) => {
                    lemma_picked(picks, ids().len() as int);
                },
                Err(_) => {},
            }
        }
    }
}

proof fn lemma_none_picked(n: int)
    ensures
        picked(Seq::empty(), n) == Seq::<Seq<char>>::empty(),
    decreases n,
{
    if n > 0 {
        lemma_none_picked(n - 1);
    }
}

/// A blank answer moves on and keeps what is set, but for the lists, which it
/// leaves empty.
pub proof fn lemma_blank_reply(iv: InterviewView, line: Seq<char>)
    requires
        0 <= iv.at < DONE,
        trim(line).len() == 0,
        iv.settings.excludes.len() == 0,
        iv.settings.disabled.len() == 0,
    ensures
        replied(iv, Some(line)).0 == (InterviewView { at: iv.at + 1, ..iv }),
{
    let answer = trim(line);
    assert(answer =~= Seq::empty());
    assert(list_items(answer).len() == 0) by {
        let items = split(answer, ',');
        assert(items =~= seq![answer]);
        assert(trim(answer) =~= Seq::empty());
        assert(nonblank(items.drop_last()) =~= Seq::empty());
    }
    assert(list_items(answer) =~= Seq::empty());
    assert(picks_of(list_items(answer)) == Ok::<Seq<int>, Seq<char>>(Seq::empty()));
    lemma_none_picked(ids().len() as int);
    assert(iv.settings.excludes =~= Seq::empty());
    assert(iv.settings.disabled =~= Seq::empty());
    assert(replied(iv, Some(line)).0 =~= (InterviewView { at: iv.at + 1, ..iv }));
}

/// A line that is a comment: it starts with `#` and holds no line break.
pub open spec fn is_comment(line: Seq<char>) -> bool {
    line.len() > 0 && line[0] == '#' && forall|i: int|
        0 <= i < line.len() ==> #[trigger] line[i] != '\n' && line[i] != '\r' && line[i] != '\0'
            && line[i] != '\u{feff}'
}

proof fn lemma_comment_plus(head: Seq<char>, tail: Seq<char>)
    requires
        is_comment(head),
        forall|i: int|
            0 <= i < tail.len() ==> #[trigger] tail[i] != '\n' && tail[i] != '\r' && tail[i] != '\0'
                && tail[i] != '\u{feff}',
    ensures
        is_comment(head + tail),
{
}

proof fn lemma_number_plain(n: int)
    requires
        n >= 0,
    ensures
        forall|i: int|
            0 <= i < decimal_int(n).len() ==> #[trigger] decimal_int(n)[i] != '\n' && decimal_int(
                n,
            )[i] != '\r' && decimal_int(n)[i] != '\0' && decimal_int(n)[i] != '\u{feff}',
{
    lemma_read_decimal(n as nat);
    assert forall|i: int| 0 <= i < decimal_int(n).len() implies #[trigger] decimal_int(n)[i] != '\n'
        && decimal_int(n)[i] != '\r' && decimal_int(n)[i] != '\0' && decimal_int(n)[i]
        != '\u{feff}' by {
        assert(is_digit(decimal(n as nat)[i]));
    }
}

proof fn lemma_budget_comment(n: int)
    ensures
        is_comment(budget_line(n, None)),
{
    reveal_strlit("# ");
    reveal_strlit(": ");
    reveal_strlit("max-agents-tokens");
    reveal_strlit("max-skill-tokens");
    reveal_strlit("max-skill-name-tokens");
    reveal_strlit("max-skill-description-tokens");
    lemma_number_plain(budget_default(n) as int);
    lemma_comment_plus("# "@, budget_key(n));
    lemma_comment_plus("# "@ + budget_key(n), ": "@);
    lemma_comment_plus("# "@ + budget_key(n) + ": "@, decimal_int(budget_default(n) as int));
}

proof fn lemma_fixed_comments()
    ensures
        is_comment(HEAD_FIRST@),
        is_comment(HEAD_SECOND@),
        is_comment(BUDGETS_COMMENT@),
        is_comment(EXCLUDE_FIRST@),
        is_comment(EXCLUDE_SECOND@),
        is_comment(RULES_COMMENT@),
        is_comment("# exclude:"@),
        is_comment("#   - testdata"@),
        is_comment("# rules:"@),
        is_comment("#   name.dir-mismatch: false"@),
{
    reveal_strlit("# lintmatter settings. The nearest .lintmatter.yaml at or above the working");
    reveal_strlit("# directory is the one that applies, and flags win over it.");
    reveal_strlit("# Token budgets. 0 disables the check.");
    reveal_strlit("# Paths to skip, matched against both the base name and the path");
    reveal_strlit("# relative to the walk root.");
    reveal_strlit("# Switch a rule off by id (see `lintmatter --list-rules`).");
    reveal_strlit("# exclude:");
    reveal_strlit("#   - testdata");
    reveal_strlit("# rules:");
    reveal_strlit("#   name.dir-mismatch: false");
}

proof fn lemma_with_ends(lines: Seq<Seq<char>>)
    requires
        forall|k: int|
            0 <= k < lines.len() ==> (#[trigger] lines[k]).len() == 0 || is_comment(lines[k]),
    ensures
        with_ends(lines) == join(lines.push(Seq::empty()), seq!['\n']),
        forall|i: int|
            0 <= i < with_ends(lines).len() ==> #[trigger] with_ends(lines)[i] != '\r' && with_ends(
                lines,
            )[i] != '\0' && with_ends(lines)[i] != '\u{feff}',
    decreases lines.len(),
{
    let all = lines.push(Seq::empty());
    assert(all.drop_last() =~= lines);
    if lines.len() == 0 {
        assert(with_ends(lines) =~= join(all, seq!['\n']));
    } else {
        reveal_strlit("\n");
        let init = lines.drop_last();
        assert forall|k: int| 0 <= k < init.len() implies (#[trigger] init[k]).len() == 0
            || is_comment(init[k]) by {
            assert(init[k] == lines[k]);
        }
        lemma_with_ends(init);
        let last = lines.last();
        assert(lines[lines.len() - 1] == last);
        let before = with_ends(init);
        if init.len() == 0 {
            assert(before =~= Seq::empty());
            assert(join(lines, seq!['\n']) == last);
        } else {
            // Moving the last separator from before the empty line to before
            // the last line.
            lemma_join_append(init, seq![Seq::empty()], seq!['\n']);
            assert(init + seq![Seq::<char>::empty()] =~= init.push(Seq::empty()));
            assert(before =~= join(init, seq!['\n']) + seq!['\n']);
            assert(join(lines, seq!['\n']) =~= before + last);
        }
        assert("\n"@ =~= seq!['\n']);
        assert(with_ends(lines) =~= join(all, seq!['\n']));
        assert forall|i: int| 0 <= i < with_ends(lines).len() implies #[trigger] with_ends(lines)[i]
            != '\r' && with_ends(lines)[i] != '\0' && with_ends(lines)[i] != '\u{feff}' by {
            if i < before.len() {
                assert(with_ends(lines)[i] == before[i]);
            } else if i < before.len() + last.len() {
                assert(with_ends(lines)[i] == last[i - before.len()]);
            }
        }
    }
}

/// Where nothing was chosen, the file holds comments alone, so reading it back
/// sets nothing.
pub proof fn lemma_default_file()
    ensures
        only_comments(config_text(SettingsView::unset())),
{
    let lines = config_lines(SettingsView::unset());
    lemma_fixed_comments();
    lemma_budget_comment(0);
    lemma_budget_comment(1);
    lemma_budget_comment(2);
    lemma_budget_comment(3);
    assert(lines.len() == 17);
    assert forall|k: int| 0 <= k < lines.len() implies (#[trigger] lines[k]).len() == 0
        || is_comment(lines[k]) by {
        if k == 0 || k == 1 || k == 2 || k == 3 || k == 4 || k == 5 || k == 6 || k == 7 || k == 8 || k
            == 9 || k == 10 || k == 11 || k == 12 || k == 13 || k == 14 || k == 15 || k == 16 {
        }
    }
    lemma_with_ends(lines);
    let all = lines.push(Seq::empty());
    assert forall|k: int| 0 <= k < all.len() implies !(#[trigger] all[k]).contains('\n') by {
        if k < lines.len() {
            assert(all[k] == lines[k]);
        }
    }
    lemma_split_join(all, '\n');
    assert forall|k: int| 0 <= k < all.len() implies (#[trigger] all[k]).len() == 0 || all[k][0]
        == '#' by {
        if k < lines.len() {
            assert(all[k] == lines[k]);
        }
    }
}

/// Settings that a config file can say: those it may carry, with each rule
/// named once. What the wizard records is among them.
pub open spec fn writable(s: SettingsView) -> bool {
    &&& settings_valid(s)
    &&& s.disabled.no_duplicates()
}

spec fn budget_part(n: int, value: Option<i64>) -> PlainPart {
    match value {
        Some(v) => PlainPart::Entry(
            budget_key(n),
            PlainValue::Scalar(PlainScalar::Number(v as int)),
        ),
        None => PlainPart::Remark(budget_line(n, None)),
    }
}

spec fn head_parts(s: SettingsView) -> Seq<PlainPart> {
    seq![
        PlainPart::Remark(HEAD_FIRST@),
        PlainPart::Remark(HEAD_SECOND@),
        PlainPart::Remark(Seq::empty()),
        PlainPart::Remark(BUDGETS_COMMENT@),
        budget_part(0, s.max_agents_tokens),
        budget_part(1, s.max_skill_tokens),
        budget_part(2, s.max_skill_name_tokens),
        budget_part(3, s.max_skill_description_tokens),
        PlainPart::Remark(Seq::empty()),
        PlainPart::Remark(EXCLUDE_FIRST@),
        PlainPart::Remark(EXCLUDE_SECOND@),
    ]
}

spec fn exclude_part(s: SettingsView) -> PlainPart {
    PlainPart::Entry(
        "exclude"@,
        PlainValue::Items(
            Seq::new(s.excludes.len(), |i: int| text_scalar(s.excludes[i])),
        ),
    )
}

spec fn rules_part(s: SettingsView) -> PlainPart {
    PlainPart::Entry(
        "rules"@,
        PlainValue::Pairs(
            Seq::new(s.disabled.len(), |i: int| (s.disabled[i], PlainScalar::Flag(false))),
        ),
    )
}

spec fn exclude_parts(s: SettingsView) -> Seq<PlainPart> {
    if s.excludes.len() == 0 {
        seq![PlainPart::Remark("# exclude:"@), PlainPart::Remark("#   - testdata"@)]
    } else {
        seq![exclude_part(s)]
    }
}

spec fn rules_parts(s: SettingsView) -> Seq<PlainPart> {
    if s.disabled.len() == 0 {
        seq![PlainPart::Remark("# rules:"@), PlainPart::Remark("#   name.dir-mismatch: false"@)]
    } else {
        seq![rules_part(s)]
    }
}

spec fn between_parts() -> Seq<PlainPart> {
    seq![PlainPart::Remark(Seq::empty()), PlainPart::Remark(RULES_COMMENT@)]
}

/// The parts of a config file with some settings.
pub closed spec fn config_parts(s: SettingsView) -> Seq<PlainPart> {
    head_parts(s) + exclude_parts(s) + between_parts() + rules_parts(s)
}

proof fn lemma_lines_add(a: Seq<PlainPart>, b: Seq<PlainPart>)
    ensures
        plain_lines(a + b) == plain_lines(a) + plain_lines(b),
        plain_entries(a + b) == plain_entries(a) + plain_entries(b),
    decreases b.len(),
{
    if b.len() == 0 {
        assert(a + b =~= a);
        assert(plain_lines(a) + plain_lines(b) =~= plain_lines(a));
        assert(plain_entries(a) + plain_entries(b) =~= plain_entries(a));
    } else {
        lemma_lines_add(a, b.drop_last());
        assert((a + b).drop_last() =~= a + b.drop_last());
        assert(plain_lines(a + b) =~= plain_lines(a) + plain_lines(b));
        assert(plain_entries(a + b) =~= plain_entries(a) + plain_entries(b));
    }
}

/// Parts of one line each.
proof fn lemma_single_lines(parts: Seq<PlainPart>)
    requires
        forall|k: int| 0 <= k < parts.len() ==> part_lines(#[trigger] parts[k]).len() == 1,
    ensures
        plain_lines(parts) == Seq::new(parts.len(), |k: int| part_lines(parts[k])[0]),
    decreases parts.len(),
{
    if parts.len() > 0 {
        let init = parts.drop_last();
        assert forall|k: int| 0 <= k < init.len() implies part_lines(#[trigger] init[k]).len()
            == 1 by {
            assert(init[k] == parts[k]);
        }
        lemma_single_lines(init);
        assert(part_lines(parts[parts.len() - 1]).len() == 1);
    }
    assert(plain_lines(parts) =~= Seq::new(parts.len(), |k: int| part_lines(parts[k])[0]));
}

proof fn lemma_config_lines(s: SettingsView)
    ensures
        plain_lines(config_parts(s)) == config_lines(s),
{
    let head = head_parts(s);
    let middle = exclude_parts(s);
    let between = between_parts();
    let tail = rules_parts(s);
    lemma_lines_add(head, middle);
    lemma_lines_add(head + middle, between);
    lemma_lines_add(head + middle + between, tail);
    lemma_single_lines(head);
    lemma_single_lines(between);
    assert(plain_lines(middle) =~= if s.excludes.len() == 0 {
        seq!["# exclude:"@, "#   - testdata"@]
    } else {
        seq!["exclude:"@] + listed("  - "@, written(s.excludes), Seq::empty())
    }) by {
        if s.excludes.len() == 0 {
            lemma_single_lines(middle);
        } else {
            lemma_one_part(exclude_part(s));
            reveal_strlit("exclude:");
            reveal_strlit("exclude");
            reveal_strlit(":");
            assert("exclude"@ + ":"@ =~= "exclude:"@);
            let lines = part_lines(exclude_part(s));
            assert forall|i: int| 0 <= i < s.excludes.len() implies #[trigger] lines[i + 1]
                == listed("  - "@, written(s.excludes), Seq::empty())[i] by {
                let item = scalar_written(text_scalar(s.excludes[i]));
                assert("  - "@ + item + Seq::empty() =~= "  - "@ + item);
            }
            assert forall|k: int| 0 <= k < lines.len() implies #[trigger] lines[k] == (seq![
                "exclude:"@,
            ] + listed("  - "@, written(s.excludes), Seq::empty()))[k] by {
                if k > 0 {
                    assert(lines[(k - 1) + 1] == listed("  - "@, written(s.excludes), Seq::empty())[k
                        - 1]);
                }
            }
        }
    }
    assert(plain_lines(tail) =~= if s.disabled.len() == 0 {
        seq!["# rules:"@, "#   name.dir-mismatch: false"@]
    } else {
        seq!["rules:"@] + listed("  "@, s.disabled, ": false"@)
    }) by {
        if s.disabled.len() == 0 {
            lemma_single_lines(tail);
        } else {
            lemma_one_part(rules_part(s));
            reveal_strlit("rules:");
            reveal_strlit("rules");
            reveal_strlit(":");
            reveal_strlit(": false");
            reveal_strlit(": ");
            reveal_strlit("false");
            assert("rules"@ + ":"@ =~= "rules:"@);
            let lines = part_lines(rules_part(s));
            assert forall|i: int| 0 <= i < s.disabled.len() implies #[trigger] lines[i + 1]
                == listed("  "@, s.disabled, ": false"@)[i] by {
                assert("  "@ + s.disabled[i] + ": "@ + "false"@ =~= "  "@ + s.disabled[i]
                    + ": false"@);
            }
            assert forall|k: int| 0 <= k < lines.len() implies #[trigger] lines[k] == (seq![
                "rules:"@,
            ] + listed("  "@, s.disabled, ": false"@))[k] by {
                if k > 0 {
                    assert(lines[(k - 1) + 1] == listed("  "@, s.disabled, ": false"@)[k - 1]);
                }
            }
        }
    }
    assert(plain_lines(config_parts(s)) =~= config_lines(s));
}

proof fn lemma_one_part(part: PlainPart)
    ensures
        plain_lines(seq![part]) == part_lines(part),
        plain_entries(seq![part]) == (match part {
            PlainPart::Remark(_) => Seq::empty(),
            PlainPart::Entry(key, value) => seq![(key, value)],
        }),
{
    let one = seq![part];
    assert(one.drop_last() =~= Seq::empty());
    assert(plain_lines(one.drop_last()) =~= Seq::empty());
    assert(plain_lines(one) =~= part_lines(part));
    assert(plain_entries(one.drop_last()) =~= Seq::empty());
}

proof fn lemma_no_entries(parts: Seq<PlainPart>)
    requires
        forall|k: int| 0 <= k < parts.len() ==> #[trigger] parts[k] is Remark,
    ensures
        plain_entries(parts) == Seq::<(Seq<char>, PlainValue)>::empty(),
    decreases parts.len(),
{
    if parts.len() > 0 {
        let init = parts.drop_last();
        assert forall|k: int| 0 <= k < init.len() implies #[trigger] init[k] is Remark by {
            assert(init[k] == parts[k]);
        }
        lemma_no_entries(init);
        assert(parts[parts.len() - 1] is Remark);
    }
}

spec fn entries_in(part: PlainPart) -> Seq<(Seq<char>, PlainValue)> {
    match part {
        PlainPart::Remark(_) => Seq::empty(),
        PlainPart::Entry(key, value) => seq![(key, value)],
    }
}

proof fn lemma_head_entries(s: SettingsView)
    ensures
        plain_entries(head_parts(s)) == entries_in(budget_part(0, s.max_agents_tokens))
            + entries_in(budget_part(1, s.max_skill_tokens)) + entries_in(
            budget_part(2, s.max_skill_name_tokens),
        ) + entries_in(budget_part(3, s.max_skill_description_tokens)),
{
    let head = head_parts(s);
    let top = head.subrange(0, 4);
    let foot = head.subrange(8, 11);
    let b0 = seq![head[4]];
    let b1 = seq![head[5]];
    let b2 = seq![head[6]];
    let b3 = seq![head[7]];
    assert(head =~= top + b0 + b1 + b2 + b3 + foot);
    lemma_lines_add(top, b0);
    lemma_lines_add(top + b0, b1);
    lemma_lines_add(top + b0 + b1, b2);
    lemma_lines_add(top + b0 + b1 + b2, b3);
    lemma_lines_add(top + b0 + b1 + b2 + b3, foot);
    lemma_no_entries(top);
    lemma_no_entries(foot);
    lemma_one_part(head[4]);
    lemma_one_part(head[5]);
    lemma_one_part(head[6]);
    lemma_one_part(head[7]);
    assert(plain_entries(head) =~= entries_in(head[4]) + entries_in(head[5]) + entries_in(head[6])
        + entries_in(head[7]));
}

/// The place of a setting in the file.
spec fn place(key: Seq<char>) -> int {
    if key == "max-agents-tokens"@ {
        0
    } else if key == "max-skill-tokens"@ {
        1
    } else if key == "max-skill-name-tokens"@ {
        2
    } else if key == "max-skill-description-tokens"@ {
        3
    } else if key == "exclude"@ {
        4
    } else {
        5
    }
}

spec fn in_place(entries: Seq<(Seq<char>, PlainValue)>, n: int) -> bool {
    &&& forall|i: int| 0 <= i < entries.len() ==> place((#[trigger] entries[i]).0) < n
    &&& forall|i: int, j: int|
        0 <= i < j < entries.len() ==> (#[trigger] entries[i]).0 != (#[trigger] entries[j]).0
}

proof fn lemma_grow(
    entries: Seq<(Seq<char>, PlainValue)>,
    part: PlainPart,
    n: int,
    before: SettingsView,
    after: SettingsView,
)
    requires
        in_place(entries, n),
        plain_settings(entries) == Some(before),
        match part {
            PlainPart::Remark(_) => after == before,
            PlainPart::Entry(key, value) => place(key) == n && plain_setting(before, key, value)
                == Some(after),
        },
    ensures
        in_place(entries + entries_in(part), n + 1),
        plain_settings(entries + entries_in(part)) == Some(after),
{
    let all = entries + entries_in(part);
    match part {
        PlainPart::Remark(_) => {
            assert(all =~= entries);
        },
        PlainPart::Entry(key, value) => {
            assert(all.drop_last() =~= entries);
            assert(all.last() == (key, value));
        },
    }
}

/// The part of a list in the file, if the list is not empty.
spec fn list_part(part: PlainPart, empty: bool) -> PlainPart {
    if empty {
        PlainPart::Remark(Seq::empty())
    } else {
        part
    }
}

proof fn lemma_config_entries(s: SettingsView)
    ensures
        plain_entries(config_parts(s)) == entries_in(budget_part(0, s.max_agents_tokens))
            + entries_in(budget_part(1, s.max_skill_tokens)) + entries_in(
            budget_part(2, s.max_skill_name_tokens),
        ) + entries_in(budget_part(3, s.max_skill_description_tokens)) + entries_in(
            list_part(exclude_part(s), s.excludes.len() == 0),
        ) + entries_in(list_part(rules_part(s), s.disabled.len() == 0)),
{
    let head = head_parts(s);
    let middle = exclude_parts(s);
    let between = between_parts();
    let tail = rules_parts(s);
    lemma_lines_add(head, middle);
    lemma_lines_add(head + middle, between);
    lemma_lines_add(head + middle + between, tail);
    lemma_head_entries(s);
    lemma_no_entries(between);
    if s.excludes.len() == 0 {
        lemma_no_entries(middle);
    } else {
        lemma_one_part(exclude_part(s));
    }
    if s.disabled.len() == 0 {
        lemma_no_entries(tail);
    } else {
        lemma_one_part(rules_part(s));
    }
    assert(plain_entries(head) + plain_entries(middle) + plain_entries(between) =~= plain_entries(
        head,
    ) + plain_entries(middle));
}

/// The settings up to a place in the file.
spec fn up_to(s: SettingsView, n: int) -> SettingsView {
    let unset = SettingsView::unset();
    SettingsView {
        max_agents_tokens: if n > 0 {
            s.max_agents_tokens
        } else {
            None
        },
        max_skill_tokens: if n > 1 {
            s.max_skill_tokens
        } else {
            None
        },
        max_skill_name_tokens: if n > 2 {
            s.max_skill_name_tokens
        } else {
            None
        },
        max_skill_description_tokens: if n > 3 {
            s.max_skill_description_tokens
        } else {
            None
        },
        excludes: if n > 4 {
            s.excludes
        } else {
            Seq::empty()
        },
        disabled: if n > 5 {
            s.disabled
        } else {
            Seq::empty()
        },
    }
}

proof fn lemma_config_settings(s: SettingsView)
    requires
        settings_valid(s),
    ensures
        in_place(plain_entries(config_parts(s)), 6),
        plain_settings(plain_entries(config_parts(s))) == Some(s),
{
    reveal_strlit("max-agents-tokens");
    reveal_strlit("max-skill-tokens");
    reveal_strlit("max-skill-name-tokens");
    reveal_strlit("max-skill-description-tokens");
    reveal_strlit("exclude");
    reveal_strlit("rules");
    assert("max-agents-tokens"@.len() == 17 && "max-skill-tokens"@.len() == 16
        && "max-skill-name-tokens"@.len() == 21 && "max-skill-description-tokens"@.len() == 28
        && "exclude"@.len() == 7 && "rules"@.len() == 5);
    lemma_config_entries(s);
    let p0 = budget_part(0, s.max_agents_tokens);
    let p1 = budget_part(1, s.max_skill_tokens);
    let p2 = budget_part(2, s.max_skill_name_tokens);
    let p3 = budget_part(3, s.max_skill_description_tokens);
    let p4 = list_part(exclude_part(s), s.excludes.len() == 0);
    let p5 = list_part(rules_part(s), s.disabled.len() == 0);
    let e0 = Seq::<(Seq<char>, PlainValue)>::empty();
    assert(up_to(s, 0) =~= SettingsView::unset());
    lemma_grow(e0, p0, 0, up_to(s, 0), up_to(s, 1));
    assert(e0 + entries_in(p0) =~= entries_in(p0));
    let e1 = entries_in(p0);
    lemma_grow(e1, p1, 1, up_to(s, 1), up_to(s, 2));
    let e2 = e1 + entries_in(p1);
    lemma_grow(e2, p2, 2, up_to(s, 2), up_to(s, 3));
    let e3 = e2 + entries_in(p2);
    lemma_grow(e3, p3, 3, up_to(s, 3), up_to(s, 4));
    let e4 = e3 + entries_in(p3);
    assert(match p4 {
        PlainPart::Remark(_) => up_to(s, 5) =~= up_to(s, 4),
        PlainPart::Entry(key, value) => plain_setting(up_to(s, 4), key, value) == Some(up_to(s, 5)),
    }) by {
        if s.excludes.len() > 0 {
            let list = Seq::new(s.excludes.len(), |i: int| text_scalar(s.excludes[i]));
            assert(Seq::new(list.len(), |i: int| scalar_meant(list[i])) =~= s.excludes);
        } else {
            assert(s.excludes =~= Seq::empty());
        }
    }
    lemma_grow(e4, p4, 4, up_to(s, 4), up_to(s, 5));
    let e5 = e4 + entries_in(p4);
    assert(match p5 {
        PlainPart::Remark(_) => up_to(s, 6) =~= up_to(s, 5),
        PlainPart::Entry(key, value) => plain_setting(up_to(s, 5), key, value) == Some(up_to(s, 6)),
    }) by {
        if s.disabled.len() > 0 {
            let list = Seq::new(s.disabled.len(), |i: int| (s.disabled[i], PlainScalar::Flag(false)));
            assert(Seq::new(list.len(), |i: int| list[i].0) =~= s.disabled);
        } else {
            assert(s.disabled =~= Seq::empty());
        }
    }
    lemma_grow(e5, p5, 5, up_to(s, 5), up_to(s, 6));
    assert(up_to(s, 6) =~= s);
}

spec fn is_plain_part(part: PlainPart) -> bool {
    match part {
        PlainPart::Remark(line) => is_remark(line),
        PlainPart::Entry(key, value) => is_plain_key(key) && is_plain_value(value),
    }
}

proof fn lemma_long_word(t: Seq<char>)
    requires
        t.len() > 5,
        'a' <= t[0] <= 'z',
        forall|k: int|
            0 <= k < t.len() ==> ('a' <= #[trigger] t[k] <= 'z') || t[k] == '.' || t[k] == '-',
    ensures
        is_word(t),
{
    lemma_reserved_short();
    assert forall|i: int| 0 <= i < t.len() implies #[trigger] is_word_char(t[i]) by {
        assert(('a' <= t[i] <= 'z') || t[i] == '.' || t[i] == '-');
    }
    assert(t.last() == t[t.len() - 1]);
}

proof fn lemma_reserved_short()
    ensures
        forall|t: Seq<char>| #[trigger] reserved().contains(t) ==> t.len() <= 5 && t[0] != 'r',
{
    reveal_strlit("null");
    reveal_strlit("Null");
    reveal_strlit("NULL");
    reveal_strlit("true");
    reveal_strlit("True");
    reveal_strlit("TRUE");
    reveal_strlit("false");
    reveal_strlit("False");
    reveal_strlit("FALSE");
    reveal_strlit(".inf");
    reveal_strlit(".Inf");
    reveal_strlit(".INF");
    reveal_strlit(".nan");
    reveal_strlit(".NaN");
    reveal_strlit(".NAN");
}

proof fn lemma_setting_keys()
    ensures
        forall|n: int| is_plain_key(#[trigger] budget_key(n)),
        is_plain_key("exclude"@),
        is_plain_key("rules"@),
{
    reveal_strlit("max-agents-tokens");
    reveal_strlit("max-skill-tokens");
    reveal_strlit("max-skill-name-tokens");
    reveal_strlit("max-skill-description-tokens");
    reveal_strlit("exclude");
    reveal_strlit("rules");
    lemma_long_word("max-agents-tokens"@);
    lemma_long_word("max-skill-tokens"@);
    lemma_long_word("max-skill-name-tokens"@);
    lemma_long_word("max-skill-description-tokens"@);
    lemma_long_word("exclude"@);
    lemma_reserved_short();
    assert(is_word("rules"@));
}

proof fn lemma_config_plain(s: SettingsView)
    requires
        writable(s),
    ensures
        forall|k: int| 0 <= k < config_parts(s).len() ==> is_plain_part(#[trigger] config_parts(s)[k]),
{
    lemma_fixed_comments();
    lemma_setting_keys();
    assert(is_remark(Seq::<char>::empty()));
    lemma_budget_comment(0);
    lemma_budget_comment(1);
    lemma_budget_comment(2);
    lemma_budget_comment(3);
    assert(is_plain_part(exclude_part(s)) || s.excludes.len() == 0);
    assert(is_plain_part(rules_part(s)) || s.disabled.len() == 0) by {
        if s.disabled.len() > 0 {
            let list = Seq::new(s.disabled.len(), |i: int| (s.disabled[i], PlainScalar::Flag(false)));
            assert forall|i: int| 0 <= i < list.len() implies is_plain_key((#[trigger] list[i]).0) by {
                assert(ids().contains(s.disabled[i]));
                let n = ids().index_of(s.disabled[i]);
                lemma_ids(n, n);
                lemma_id_chars(n);
                lemma_long_word(ids()[n]);
            }
            assert(is_plain_value(PlainValue::Pairs(list)));
        }
    }
    let head = head_parts(s);
    assert forall|k: int| 0 <= k < head.len() implies is_plain_part(#[trigger] head[k]) by {}
    let all = config_parts(s);
    let a = head.len();
    let b = a + exclude_parts(s).len();
    let c = b + between_parts().len();
    assert forall|k: int| 0 <= k < all.len() implies is_plain_part(#[trigger] all[k]) by {
        if k < a {
            assert(all[k] == head[k]);
        } else if k < b {
            assert(all[k] == exclude_parts(s)[k - a]);
        } else if k < c {
            assert(all[k] == between_parts()[k - b]);
        } else {
            assert(all[k] == rules_parts(s)[k - c]);
        }
    }
}

/// What the wizard writes is a config file that means exactly the settings it
/// was written for: a plain document with those settings, or comments alone
/// where nothing is set.
pub proof fn lemma_written(s: SettingsView)
    requires
        writable(s),
    ensures
        plain_entries(config_parts(s)).len() == 0 ==> s == SettingsView::unset() && only_comments(
            config_text(s),
        ),
        plain_entries(config_parts(s)).len() > 0 ==> is_plain(config_parts(s)),
        plain_text(config_parts(s)) == config_text(s),
        plain_settings(plain_entries(config_parts(s))) == Some(s),
{
    lemma_config_lines(s);
    lemma_config_settings(s);
    lemma_config_plain(s);
    if plain_entries(config_parts(s)).len() == 0 {
        lemma_default_file();
    } else {
        let parts = config_parts(s);
        assert forall|k: int| 0 <= k < parts.len() implies match #[trigger] parts[k] {
            PlainPart::Remark(line) => is_remark(line),
            PlainPart::Entry(key, value) => is_plain_key(key) && is_plain_value(value),
        } by {
            assert(is_plain_part(parts[k]));
        }
    }
}

} // verus!
