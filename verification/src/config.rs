//! The thresholds and switches that shape a lint run, and the YAML config
//! file a repository can use to pin them once instead of repeating flags on
//! every invocation.
//!
//! Run-behavior flags (`--strict`, `--quiet`, `--format`, `--color`) are
//! deliberately not configurable here: they shape how a single invocation
//! reports its findings, not what the repository considers a violation, so
//! they stay flag-only.
//!
//! Every file setting mirrors the flag of the same name. Flags win over the
//! file, and the file wins over the built-in defaults, so a config file sets
//! the project's baseline without preventing a one-off override on the
//! command line.

use vstd::prelude::*;

use crate::discover::{join_path, joined, Kind};
use crate::lint::ids::{ids, is_rule, lemma_id_chars};
use crate::init::{config_parts, config_text, lemma_written, writable};
use crate::number::{
    decimal, i64_of, is_digit, lemma_read_decimal, lemma_read_decimal_int, read_i64, write_natural,
};
use crate::text::{
    ascii_lower, debug_text, holds, lemma_trim, one_line, quoted, same, texts, to_chars, to_lower,
    to_text, trim, trimmed,
};
use crate::utils::{directory, directory_of, lemma_directory};
use crate::yaml::{
    is_plain, is_written, load as load_yaml, loaded_view, node_views, only_comments, pair_views,
    plain_entries, read_back, scalar_meant, scalar_read, scalar_string, scalar_text, text_read,
    value_read, yaml, Data, DataView, Fault, FaultView, Node, NodeView, PlainPart, PlainScalar,
    PlainValue, Scalar, ScalarView,
};

verus! {

/// Default token budgets. `Config::default` and the CLI's flag defaults both
/// read these, so the two cannot drift apart.
pub const DEFAULT_MAX_AGENTS_TOKENS: i64 = 2500;

pub const DEFAULT_MAX_SKILL_TOKENS: i64 = 5000;

pub const DEFAULT_MAX_SKILL_NAME_TOKENS: i64 = 16;

pub const DEFAULT_MAX_SKILL_DESCRIPTION_TOKENS: i64 = 100;

/// Holds the thresholds and switches that shape a run.
#[derive(Debug, Clone)]
pub struct Config {
    /// Body token budgets, one per file kind. Zero disables the check for
    /// that kind.
    pub max_agents_tokens: i64,
    pub max_skill_tokens: i64,
    /// Skill-only budgets. Zero disables the check.
    pub max_skill_name_tokens: i64,
    pub max_skill_description_tokens: i64,
    /// Rule ids to skip.
    pub disabled: Vec<String>,
    /// Treat warnings as errors.
    pub strict: bool,
}

#[verifier::ext_equal]
pub struct ConfigView {
    pub max_agents_tokens: int,
    pub max_skill_tokens: int,
    pub max_skill_name_tokens: int,
    pub max_skill_description_tokens: int,
    pub disabled: Seq<Seq<char>>,
    pub strict: bool,
}

impl ConfigView {
    /// The body budget for a kind of file.
    pub open spec fn content_limit(self, kind: Kind) -> int {
        if kind == Kind::Agents {
            self.max_agents_tokens
        } else {
            self.max_skill_tokens
        }
    }
}

impl Config {
    pub open spec fn view(self) -> ConfigView {
        ConfigView {
            max_agents_tokens: self.max_agents_tokens as int,
            max_skill_tokens: self.max_skill_tokens as int,
            max_skill_name_tokens: self.max_skill_name_tokens as int,
            max_skill_description_tokens: self.max_skill_description_tokens as int,
            disabled: texts(self.disabled@),
            strict: self.strict,
        }
    }

    /// The body budget for a kind of file.
    pub fn content_limit(&self, kind: Kind) -> (r: i64)
        ensures
            r == self@.content_limit(kind),
    {
        if kind == Kind::Agents {
            self.max_agents_tokens
        } else {
            self.max_skill_tokens
        }
    }
}

/// Zero means "check disabled", so a derived `Default` would hand back a
/// linter that silently enforces nothing. Spell the real budgets out instead,
/// so the value reached by accident is the safe one.
impl Default for Config {
    fn default() -> (r: Config)
        ensures
            r@ == (ConfigView {
                max_agents_tokens: DEFAULT_MAX_AGENTS_TOKENS as int,
                max_skill_tokens: DEFAULT_MAX_SKILL_TOKENS as int,
                max_skill_name_tokens: DEFAULT_MAX_SKILL_NAME_TOKENS as int,
                max_skill_description_tokens: DEFAULT_MAX_SKILL_DESCRIPTION_TOKENS as int,
                disabled: Seq::empty(),
                strict: false,
            }),
    {
        let r = Config {
            max_agents_tokens: DEFAULT_MAX_AGENTS_TOKENS,
            max_skill_tokens: DEFAULT_MAX_SKILL_TOKENS,
            max_skill_name_tokens: DEFAULT_MAX_SKILL_NAME_TOKENS,
            max_skill_description_tokens: DEFAULT_MAX_SKILL_DESCRIPTION_TOKENS,
            disabled: Vec::new(),
            strict: false,
        };
        assert(r@.disabled =~= Seq::empty());
        r
    }
}

/// File names looked for when `--config` is not given; the first wins where
/// both are in one directory.
pub const YAML_FILE_NAME: &'static str = ".lintmatter.yaml";

pub const YML_FILE_NAME: &'static str = ".lintmatter.yml";

/// Every setting a config file may carry, as the "unknown setting" message
/// lists them.
pub const KNOWN_KEYS: &'static str =
    "max-agents-tokens, max-skill-tokens, max-skill-name-tokens, max-skill-description-tokens, exclude, rules";

/// The settings one config file asked for. Every scalar is optional: absent
/// means "leave it to the flag or the default", which is what makes merging
/// unambiguous.
#[derive(Debug, Clone, PartialEq, Eq)]
pub struct Settings {
    pub max_agents_tokens: Option<i64>,
    pub max_skill_tokens: Option<i64>,
    pub max_skill_name_tokens: Option<i64>,
    pub max_skill_description_tokens: Option<i64>,
    /// Globs of paths to skip, appended to any `--exclude`.
    pub excludes: Vec<String>,
    /// Rule ids switched off under `rules:`, appended to any `--disable`.
    pub disabled: Vec<String>,
}

#[verifier::ext_equal]
pub struct SettingsView {
    pub max_agents_tokens: Option<i64>,
    pub max_skill_tokens: Option<i64>,
    pub max_skill_name_tokens: Option<i64>,
    pub max_skill_description_tokens: Option<i64>,
    pub excludes: Seq<Seq<char>>,
    pub disabled: Seq<Seq<char>>,
}

impl SettingsView {
    /// Nothing set.
    pub open spec fn unset() -> SettingsView {
        SettingsView {
            max_agents_tokens: None,
            max_skill_tokens: None,
            max_skill_name_tokens: None,
            max_skill_description_tokens: None,
            excludes: Seq::empty(),
            disabled: Seq::empty(),
        }
    }
}

impl Settings {
    pub open spec fn view(self) -> SettingsView {
        SettingsView {
            max_agents_tokens: self.max_agents_tokens,
            max_skill_tokens: self.max_skill_tokens,
            max_skill_name_tokens: self.max_skill_name_tokens,
            max_skill_description_tokens: self.max_skill_description_tokens,
            excludes: texts(self.excludes@),
            disabled: texts(self.disabled@),
        }
    }
}

impl Default for Settings {
    fn default() -> (r: Settings)
        ensures
            r@ == SettingsView::unset(),
    {
        let r = Settings {
            max_agents_tokens: None,
            max_skill_tokens: None,
            max_skill_name_tokens: None,
            max_skill_description_tokens: None,
            excludes: Vec::new(),
            disabled: Vec::new(),
        };
        assert(r@ =~= SettingsView::unset());
        r
    }
}

/// `path:line: `, the head of a message about a line.
pub open spec fn located(path: Seq<char>, line: int) -> Seq<char> {
    path + ":"@ + decimal(line as nat) + ": "@
}

/// Reads a token budget.
pub open spec fn budget_of(path: Seq<char>, key: Seq<char>, node: NodeView) -> Result<
    i64,
    Seq<char>,
> {
    match scalar_text(node.data) {
        None => Err(located(path, node.line) + key + " must be an integer"@),
        Some(text) => match i64_of(text) {
            None => Err(
                located(path, node.line) + "invalid value "@ + debug_text(text) + " for "@ + key
                    + ": not an integer"@,
            ),
            Some(n) => if n < 0 {
                Err(
                    located(path, node.line) + key
                        + " must be zero or more (0 disables the check)"@,
                )
            } else {
                Ok(n as i64)
            },
        },
    }
}

/// Reads a boolean.
pub open spec fn boolean_of(path: Seq<char>, key: Seq<char>, node: NodeView) -> Result<
    bool,
    Seq<char>,
> {
    match scalar_text(node.data) {
        None => Err(located(path, node.line) + key + " must be true or false"@),
        Some(text) => {
            let lower = ascii_lower(text);
            if lower == "true"@ || lower == "yes"@ || lower == "on"@ {
                Ok(true)
            } else if lower == "false"@ || lower == "no"@ || lower == "off"@ {
                Ok(false)
            } else {
                Err(
                    located(path, node.line) + "invalid value "@ + debug_text(text) + " for "@
                        + key + ": want true or false"@,
                )
            }
        },
    }
}

/// Reads a non-empty string.
pub open spec fn string_of(path: Seq<char>, key: Seq<char>, node: NodeView) -> Result<
    Seq<char>,
    Seq<char>,
> {
    match scalar_text(node.data) {
        Some(s) if s.len() > 0 => Ok(s),
        _ => Err(located(path, node.line) + key + " must be a non-empty string"@),
    }
}

/// Reads the first items of a list up to the first that is no string.
pub open spec fn strings_of(path: Seq<char>, key: Seq<char>, items: Seq<NodeView>) -> Result<
    Seq<Seq<char>>,
    Seq<char>,
>
    decreases items.len(),
{
    if items.len() == 0 {
        Ok(Seq::empty())
    } else {
        match strings_of(path, key, items.drop_last()) {
            Err(m) => Err(m),
            Ok(list) => match string_of(path, key, items.last()) {
                Err(m) => Err(m),
                Ok(s) => Ok(list.push(s)),
            },
        }
    }
}

/// Reads a list of strings; a lone scalar is a list of one.
pub open spec fn string_list_of(path: Seq<char>, key: Seq<char>, node: NodeView) -> Result<
    Seq<Seq<char>>,
    Seq<char>,
> {
    match node.data {
        DataView::Sequence(items) => strings_of(path, key, items),
        _ => match string_of(path, key, node) {
            Err(m) => Err(m),
            Ok(s) => Ok(seq![s]),
        },
    }
}

/// Reads one entry of `rules:`: the rule it names when it is switched off.
pub open spec fn switch_of(path: Seq<char>, key: NodeView, value: NodeView) -> Result<
    Option<Seq<char>>,
    Seq<char>,
> {
    match scalar_text(key.data) {
        None => Err(located(path, key.line) + "rule ids must be strings"@),
        Some(rule) => if !ids().contains(rule) {
            Err(
                located(path, key.line) + "unknown rule "@ + debug_text(rule)
                    + ": run --list-rules to see them all"@,
            )
        } else {
            match boolean_of(path, "rules."@ + rule, value) {
                Err(m) => Err(m),
                Ok(true) => Ok(None),
                Ok(false) => Ok(Some(rule)),
            }
        },
    }
}

/// The rules that a mapping of rule id to boolean switches off, in order.
pub open spec fn disabled_of(path: Seq<char>, pairs: Seq<(NodeView, NodeView)>) -> Result<
    Seq<Seq<char>>,
    Seq<char>,
>
    decreases pairs.len(),
{
    if pairs.len() == 0 {
        Ok(Seq::empty())
    } else {
        match disabled_of(path, pairs.drop_last()) {
            Err(m) => Err(m),
            Ok(list) => match switch_of(path, pairs.last().0, pairs.last().1) {
                Err(m) => Err(m),
                Ok(Some(rule)) => Ok(list.push(rule)),
                Ok(None) => Ok(list),
            },
        }
    }
}

/// Reads `rules:`.
pub open spec fn rules_of(path: Seq<char>, node: NodeView) -> Result<Seq<Seq<char>>, Seq<char>> {
    match node.data {
        DataView::Mapping(pairs) => disabled_of(path, pairs),
        _ => Err(
            located(path, node.line) + "rules must be a mapping of rule id to true or false"@,
        ),
    }
}

/// `s` with one more setting.
pub open spec fn with_setting(
    s: SettingsView,
    path: Seq<char>,
    key: NodeView,
    value: NodeView,
) -> Result<SettingsView, Seq<char>> {
    match scalar_text(key.data) {
        None => Err(located(path, key.line) + "setting names must be strings"@),
        Some(name) => if name == "max-agents-tokens"@ {
            match budget_of(path, name, value) {
                Err(m) => Err(m),
                Ok(n) => Ok(SettingsView { max_agents_tokens: Some(n), ..s }),
            }
        } else if name == "max-skill-tokens"@ {
            match budget_of(path, name, value) {
                Err(m) => Err(m),
                Ok(n) => Ok(SettingsView { max_skill_tokens: Some(n), ..s }),
            }
        } else if name == "max-skill-name-tokens"@ {
            match budget_of(path, name, value) {
                Err(m) => Err(m),
                Ok(n) => Ok(SettingsView { max_skill_name_tokens: Some(n), ..s }),
            }
        } else if name == "max-skill-description-tokens"@ {
            match budget_of(path, name, value) {
                Err(m) => Err(m),
                Ok(n) => Ok(SettingsView { max_skill_description_tokens: Some(n), ..s }),
            }
        } else if name == "exclude"@ {
            match string_list_of(path, name, value) {
                Err(m) => Err(m),
                Ok(list) => Ok(SettingsView { excludes: list, ..s }),
            }
        } else if name == "rules"@ {
            match rules_of(path, value) {
                Err(m) => Err(m),
                Ok(list) => Ok(SettingsView { disabled: list, ..s }),
            }
        } else {
            Err(
                located(path, key.line) + "unknown setting "@ + debug_text(name)
                    + ": want one of "@ + KNOWN_KEYS@,
            )
        },
    }
}

/// The settings that a mapping holds, or the first fault in it.
pub open spec fn settings_in(path: Seq<char>, pairs: Seq<(NodeView, NodeView)>) -> Result<
    SettingsView,
    Seq<char>,
>
    decreases pairs.len(),
{
    if pairs.len() == 0 {
        Ok(SettingsView::unset())
    } else {
        match settings_in(path, pairs.drop_last()) {
            Err(m) => Err(m),
            Ok(s) => with_setting(s, path, pairs.last().0, pairs.last().1),
        }
    }
}

/// The settings of a config text, by what the YAML loader made of it.
pub open spec fn settings_of(
    loaded: Result<Seq<NodeView>, FaultView>,
    path: Seq<char>,
) -> Result<SettingsView, Seq<char>> {
    match loaded {
        Err(e) => Err(
            path + ":"@ + decimal(e.line as nat) + ": invalid YAML: "@ + trim(e.info),
        ),
        Ok(docs) => if docs.len() == 0 {
            Ok(SettingsView::unset())
        } else {
            match docs[0].data {
                DataView::Scalar(ScalarView::Null) => Ok(SettingsView::unset()),
                DataView::Mapping(pairs) => settings_in(path, pairs),
                _ => Err(
                    located(path, docs[0].line)
                        + "config must be a mapping of settings to values"@,
                ),
            }
        },
    }
}

/// What a function returned, viewed.
pub open spec fn settings_result(r: Result<Settings, String>) -> Result<SettingsView, Seq<char>> {
    match r {
        Ok(s) => Ok(s@),
        Err(m) => Err(m@),
    }
}

pub open spec fn list_result(r: Result<Vec<String>, String>) -> Result<Seq<Seq<char>>, Seq<char>> {
    match r {
        Ok(v) => Ok(texts(v@)),
        Err(m) => Err(m@),
    }
}

/// Whether what follows a path in a message is one line that starts with a
/// colon.
pub open spec fn labels(path: Seq<char>, m: Seq<char>) -> bool {
    &&& m.len() > path.len()
    &&& m.take(path.len() as int) == path
    &&& m[path.len() as int] == ':'
    &&& forall|i: int| path.len() <= i < m.len() ==> #[trigger] m[i] != '\n'
}

/// Every piece of a message is one line.
proof fn lemma_wording()
    ensures
        one_line(" must be an integer"@),
        one_line("invalid value "@),
        one_line(" for "@),
        one_line(": not an integer"@),
        one_line(" must be zero or more (0 disables the check)"@),
        one_line(" must be true or false"@),
        one_line(": want true or false"@),
        one_line(" must be a non-empty string"@),
        one_line("rule ids must be strings"@),
        one_line("unknown rule "@),
        one_line(": run --list-rules to see them all"@),
        one_line("rules."@),
        one_line("rules must be a mapping of rule id to true or false"@),
        one_line("setting names must be strings"@),
        one_line("unknown setting "@),
        one_line(": want one of "@),
        one_line("config must be a mapping of settings to values"@),
        one_line(": invalid YAML: "@),
        one_line(":"@),
        one_line(": "@),
        one_line("max-agents-tokens"@),
        one_line("max-skill-tokens"@),
        one_line("max-skill-name-tokens"@),
        one_line("max-skill-description-tokens"@),
        one_line("exclude"@),
        one_line(KNOWN_KEYS@),
{
    reveal_strlit(" must be an integer");
    reveal_strlit("invalid value ");
    reveal_strlit(" for ");
    reveal_strlit(": not an integer");
    reveal_strlit(" must be zero or more (0 disables the check)");
    reveal_strlit(" must be true or false");
    reveal_strlit(": want true or false");
    reveal_strlit(" must be a non-empty string");
    reveal_strlit("rule ids must be strings");
    reveal_strlit("unknown rule ");
    reveal_strlit(": run --list-rules to see them all");
    reveal_strlit("rules.");
    reveal_strlit("rules must be a mapping of rule id to true or false");
    reveal_strlit("setting names must be strings");
    reveal_strlit("unknown setting ");
    reveal_strlit(": want one of ");
    reveal_strlit("config must be a mapping of settings to values");
    reveal_strlit(": invalid YAML: ");
    reveal_strlit(":");
    reveal_strlit(": ");
    reveal_strlit("max-agents-tokens");
    reveal_strlit("max-skill-tokens");
    reveal_strlit("max-skill-name-tokens");
    reveal_strlit("max-skill-description-tokens");
    reveal_strlit("exclude");
    reveal_strlit(
        "max-agents-tokens, max-skill-tokens, max-skill-name-tokens, max-skill-description-tokens, exclude, rules",
    );
}

proof fn lemma_labels(path: Seq<char>, m: Seq<char>, tail: Seq<char>)
    requires
        labels(path, m),
        one_line(tail),
    ensures
        labels(path, m + tail),
{
    assert((m + tail).take(path.len() as int) =~= path) by {
        assert(m.take(path.len() as int) =~= path);
        assert forall|i: int| 0 <= i < path.len() implies (m + tail)[i] == path[i] by {
            assert(m.take(path.len() as int)[i] == path[i]);
        }
    }
}

proof fn lemma_numbered(path: Seq<char>, line: nat)
    ensures
        labels(path, path + ":"@ + decimal(line)),
{
    lemma_read_decimal(line);
    reveal_strlit(":");
    let digits = decimal(line);
    assert forall|i: int| 0 <= i < digits.len() implies #[trigger] digits[i] != '\n' by {
        assert(is_digit(digits[i]));
    }
    assert(labels(path, path + ":"@)) by {
        assert((path + ":"@).take(path.len() as int) =~= path);
    }
    lemma_labels(path, path + ":"@, digits);
}

/// Takes the next piece of a message in.
fn say(m: &mut String, piece: &str, Ghost(path): Ghost<Seq<char>>)
    ensures
        final(m)@ == old(m)@ + piece@,
        labels(path, old(m)@) && one_line(piece@) ==> labels(path, final(m)@),
{
    proof {
        if labels(path, m@) && one_line(piece@) {
            lemma_labels(path, m@, piece@);
        }
    }
    m.append(piece);
}

fn at(path: &str, line: usize) -> (r: String)
    ensures
        r@ == located(path@, line as int),
        labels(path@, r@),
{
    let mut m = path.to_owned();
    m.append(":");
    m.append(write_natural(line as u128).as_str());
    m.append(": ");
    proof {
        lemma_wording();
        lemma_numbered(path@, line as nat);
        lemma_labels(path@, path@ + ":"@ + decimal(line as nat), ": "@);
    }
    m
}

/// Reads a token budget. Zero disables the check it belongs to, matching the
/// flags.
fn budget(path: &str, key: &str, node: &Node) -> (r: Result<i64, String>)
    ensures
        budget_of(path@, key@, node@) == (match r {
            Ok(n) => Ok(n),
            Err(m) => Err(m@),
        }),
        one_line(key@) ==> (r matches Err(m) ==> labels(path@, m@)),
{
    proof {
        lemma_wording();
    }
    let mut m = at(path, node.line);
    let Some(text) = scalar_string(&node.data) else {
        say(&mut m, key, Ghost(path@));
        say(&mut m, " must be an integer", Ghost(path@));
        return Err(m);
    };
    let Some(n) = read_i64(text.as_str()) else {
        say(&mut m, "invalid value ", Ghost(path@));
        say(&mut m, quoted(text.as_str()).as_str(), Ghost(path@));
        say(&mut m, " for ", Ghost(path@));
        say(&mut m, key, Ghost(path@));
        say(&mut m, ": not an integer", Ghost(path@));
        return Err(m);
    };
    if n < 0 {
        say(&mut m, key, Ghost(path@));
        say(&mut m, " must be zero or more (0 disables the check)", Ghost(path@));
        return Err(m);
    }
    Ok(n)
}

/// Reads a boolean. YAML 1.2 only spells these `true` and `false`, but config
/// files are hand-written, so the usual `yes`/`no` and `on`/`off` spellings
/// are accepted rather than reported as a type error.
fn boolean(path: &str, key: &str, node: &Node) -> (r: Result<bool, String>)
    ensures
        boolean_of(path@, key@, node@) == (match r {
            Ok(b) => Ok(b),
            Err(m) => Err(m@),
        }),
        one_line(key@) ==> (r matches Err(m) ==> labels(path@, m@)),
{
    proof {
        lemma_wording();
    }
    let mut m = at(path, node.line);
    let Some(text) = scalar_string(&node.data) else {
        say(&mut m, key, Ghost(path@));
        say(&mut m, " must be true or false", Ghost(path@));
        return Err(m);
    };
    let lower = to_lower(text.as_str());
    let word = lower.as_str();
    if same(word, "true") || same(word, "yes") || same(word, "on") {
        return Ok(true);
    }
    if same(word, "false") || same(word, "no") || same(word, "off") {
        return Ok(false);
    }
    say(&mut m, "invalid value ", Ghost(path@));
    say(&mut m, quoted(text.as_str()).as_str(), Ghost(path@));
    say(&mut m, " for ", Ghost(path@));
    say(&mut m, key, Ghost(path@));
    say(&mut m, ": want true or false", Ghost(path@));
    Err(m)
}

fn string(path: &str, key: &str, node: &Node) -> (r: Result<String, String>)
    ensures
        string_of(path@, key@, node@) == (match r {
            Ok(s) => Ok(s@),
            Err(m) => Err(m@),
        }),
        one_line(key@) ==> (r matches Err(m) ==> labels(path@, m@)),
{
    proof {
        lemma_wording();
    }
    if let Some(s) = scalar_string(&node.data) {
        if to_chars(s.as_str()).len() > 0 {
            return Ok(s);
        }
    }
    let mut m = at(path, node.line);
    say(&mut m, key, Ghost(path@));
    say(&mut m, " must be a non-empty string", Ghost(path@));
    Err(m)
}

/// Reads a list of strings, accepting a lone scalar as a one-element list so
/// `exclude: testdata` works as well as the sequence form.
fn string_list(path: &str, key: &str, node: &Node) -> (r: Result<Vec<String>, String>)
    ensures
        string_list_of(path@, key@, node@) == list_result(r),
        one_line(key@) ==> (r matches Err(m) ==> labels(path@, m@)),
{
    proof {
        lemma_wording();
    }
    match &node.data {
        Data::Sequence(items) => {
            let ghost views = node_views(items@);
            assert(node@.data->Sequence_0 =~= views);
            let mut out: Vec<String> = Vec::new();
            let mut i: usize = 0;
            assert(views.take(0) =~= Seq::empty());
            assert(texts(out@) =~= Seq::empty());
            while i < items.len()
                invariant
                    i <= items@.len(),
                    views == node_views(items@),
                    string_list_of(path@, key@, node@) == strings_of(path@, key@, views),
                    strings_of(path@, key@, views.take(i as int)) == Ok::<
                        Seq<Seq<char>>,
                        Seq<char>,
                    >(texts(out@)),
                decreases items@.len() - i,
            {
                proof {
                    let next = views.take(i + 1);
                    assert(next.drop_last() =~= views.take(i as int));
                    assert(next.last() == items@[i as int]@);
                }
                match string(path, key, &items[i]) {
                    Ok(s) => {
                        assert(texts(out@.push(s)) =~= texts(out@).push(s@));
                        out.push(s);
                    },
                    Err(m) => {
                        proof {
                            lemma_strings_stop(path@, key@, views, i + 1);
                        }
                        return Err(m);
                    },
                }
                i += 1;
            }
            assert(views.take(i as int) =~= views);
            Ok(out)
        },
        _ => match string(path, key, node) {
            Ok(s) => {
                let mut out: Vec<String> = Vec::new();
                out.push(s);
                assert(texts(out@) =~= seq![s@]);
                Ok(out)
            },
            Err(m) => Err(m),
        },
    }
}

proof fn lemma_strings_stop(path: Seq<char>, key: Seq<char>, items: Seq<NodeView>, n: int)
    requires
        0 <= n <= items.len(),
        strings_of(path, key, items.take(n)) is Err,
    ensures
        strings_of(path, key, items) == strings_of(path, key, items.take(n)),
    decreases items.len(),
{
    if n < items.len() {
        assert(items.drop_last().take(n) =~= items.take(n));
        lemma_strings_stop(path, key, items.drop_last(), n);
    } else {
        assert(items.take(n) =~= items);
    }
}

proof fn lemma_disabled_stop(path: Seq<char>, pairs: Seq<(NodeView, NodeView)>, n: int)
    requires
        0 <= n <= pairs.len(),
        disabled_of(path, pairs.take(n)) is Err,
    ensures
        disabled_of(path, pairs) == disabled_of(path, pairs.take(n)),
    decreases pairs.len(),
{
    if n < pairs.len() {
        assert(pairs.drop_last().take(n) =~= pairs.take(n));
        lemma_disabled_stop(path, pairs.drop_last(), n);
    } else {
        assert(pairs.take(n) =~= pairs);
    }
}

proof fn lemma_settings_stop(path: Seq<char>, pairs: Seq<(NodeView, NodeView)>, n: int)
    requires
        0 <= n <= pairs.len(),
        settings_in(path, pairs.take(n)) is Err,
    ensures
        settings_in(path, pairs) == settings_in(path, pairs.take(n)),
    decreases pairs.len(),
{
    if n < pairs.len() {
        assert(pairs.drop_last().take(n) =~= pairs.take(n));
        lemma_settings_stop(path, pairs.drop_last(), n);
    } else {
        assert(pairs.take(n) =~= pairs);
    }
}

fn rule_switch(path: &str, key: &Node, value: &Node) -> (r: Result<Option<String>, String>)
    ensures
        switch_of(path@, key@, value@) == (match r {
            Ok(Some(rule)) => Ok(Some(rule@)),
            Ok(None) => Ok(None),
            Err(m) => Err(m@),
        }),
        r matches Err(m) ==> labels(path@, m@),
{
    proof {
        lemma_wording();
    }
    let Some(rule) = scalar_string(&key.data) else {
        let mut m = at(path, key.line);
        say(&mut m, "rule ids must be strings", Ghost(path@));
        return Err(m);
    };
    if !is_rule(rule.as_str()) {
        let mut m = at(path, key.line);
        say(&mut m, "unknown rule ", Ghost(path@));
        say(&mut m, quoted(rule.as_str()).as_str(), Ghost(path@));
        say(&mut m, ": run --list-rules to see them all", Ghost(path@));
        return Err(m);
    }
    let mut name = "rules.".to_string();
    name.append(rule.as_str());
    proof {
        let n = ids().index_of(rule@);
        lemma_id_chars(n);
        assert forall|i: int| 0 <= i < name@.len() implies #[trigger] name@[i] != '\n' by {
            if i >= "rules."@.len() {
                assert(name@[i] == ids()[n][i - "rules."@.len()]);
            }
        }
    }
    match boolean(path, name.as_str(), value) {
        Err(m) => Err(m),
        Ok(on) => if on {
            Ok(None)
        } else {
            Ok(Some(rule))
        },
    }
}

/// Reads `rules:`, a mapping of rule id to whether it runs. Only the ids
/// switched off are returned; naming a rule that does not exist is an error
/// rather than a silent no-op, the same way `--disable` rejects typos.
fn rules(path: &str, node: &Node) -> (r: Result<Vec<String>, String>)
    ensures
        rules_of(path@, node@) == list_result(r),
        r matches Err(m) ==> labels(path@, m@),
{
    proof {
        lemma_wording();
    }
    let Data::Mapping(pairs) = &node.data else {
        let mut m = at(path, node.line);
        say(&mut m, "rules must be a mapping of rule id to true or false", Ghost(path@));
        return Err(m);
    };
    let ghost views = pair_views(pairs@);
    assert(node@.data->Mapping_0 =~= views);
    let mut out: Vec<String> = Vec::new();
    let mut i: usize = 0;
    assert(views.take(0) =~= Seq::empty());
    assert(texts(out@) =~= Seq::empty());
    while i < pairs.len()
        invariant
            i <= pairs@.len(),
            views == pair_views(pairs@),
            rules_of(path@, node@) == disabled_of(path@, views),
            disabled_of(path@, views.take(i as int)) == Ok::<Seq<Seq<char>>, Seq<char>>(
                texts(out@),
            ),
        decreases pairs@.len() - i,
    {
        let (key, value) = &pairs[i];
        proof {
            let next = views.take(i + 1);
            assert(next.drop_last() =~= views.take(i as int));
            assert(next.last() == (key@, value@));
        }
        match rule_switch(path, key, value) {
            Ok(Some(rule)) => {
                assert(texts(out@.push(rule)) =~= texts(out@).push(rule@));
                out.push(rule);
            },
            Ok(None) => {},
            Err(m) => {
                proof {
                    lemma_disabled_stop(path@, views, i + 1);
                }
                return Err(m);
            },
        }
        i += 1;
    }
    assert(views.take(i as int) =~= views);
    Ok(out)
}

fn set_budget(path: &str, name: &str, value: &Node, slot: &mut Option<i64>) -> (r: Result<
    (),
    String,
>)
    ensures
        match budget_of(path@, name@, value@) {
            Ok(n) => r is Ok && *final(slot) == Some(n),
            Err(m) => r matches Err(e) && e@ == m && *final(slot) == *old(slot),
        },
        one_line(name@) ==> (r matches Err(m) ==> labels(path@, m@)),
{
    proof {
        lemma_wording();
    }
    match budget(path, name, value) {
        Ok(n) => {
            *slot = Some(n);
            Ok(())
        },
        Err(m) => Err(m),
    }
}

/// Takes one setting in.
fn set(cfg: &mut Settings, path: &str, key: &Node, value: &Node) -> (r: Result<(), String>)
    ensures
        match with_setting(old(cfg)@, path@, key@, value@) {
            Ok(s) => r is Ok && final(cfg)@ == s,
            Err(m) => r matches Err(e) && e@ == m && final(cfg)@ == old(cfg)@,
        },
        r matches Err(m) ==> labels(path@, m@),
{
    proof {
        lemma_wording();
    }
    let Some(name) = scalar_string(&key.data) else {
        let mut m = at(path, key.line);
        say(&mut m, "setting names must be strings", Ghost(path@));
        return Err(m);
    };
    let name = name.as_str();
    if same(name, "max-agents-tokens") {
        return set_budget(path, name, value, &mut cfg.max_agents_tokens);
    }
    if same(name, "max-skill-tokens") {
        return set_budget(path, name, value, &mut cfg.max_skill_tokens);
    }
    if same(name, "max-skill-name-tokens") {
        return set_budget(path, name, value, &mut cfg.max_skill_name_tokens);
    }
    if same(name, "max-skill-description-tokens") {
        return set_budget(path, name, value, &mut cfg.max_skill_description_tokens);
    }
    if same(name, "exclude") {
        return match string_list(path, name, value) {
            Ok(list) => {
                cfg.excludes = list;
                Ok(())
            },
            Err(m) => Err(m),
        };
    }
    if same(name, "rules") {
        return match rules(path, value) {
            Ok(list) => {
                cfg.disabled = list;
                Ok(())
            },
            Err(m) => Err(m),
        };
    }
    let mut m = at(path, key.line);
    say(&mut m, "unknown setting ", Ghost(path@));
    say(&mut m, quoted(name).as_str(), Ghost(path@));
    say(&mut m, ": want one of ", Ghost(path@));
    say(&mut m, KNOWN_KEYS, Ghost(path@));
    Err(m)
}

/// The settings of a config text, from what the YAML loader made of it.
pub fn read_settings(loaded: &Result<Vec<Node>, Fault>, path: &str) -> (r: Result<
    Settings,
    String,
>)
    ensures
        settings_result(r) == settings_of(loaded_view(*loaded), path@),
        (loaded matches Err(e) ==> one_line(e@.info)) ==> (r matches Err(m) ==> labels(path@, m@)),
{
    proof {
        lemma_wording();
    }
    let docs = match loaded {
        Ok(docs) => docs,
        Err(e) => {
            let mut m = path.to_owned();
            m.append(":");
            m.append(write_natural(e.line as u128).as_str());
            let reason = to_text(trimmed(to_chars(e.info.as_str()).as_slice()));
            proof {
                lemma_numbered(path@, e.line as nat);
                lemma_trim(e.info@);
            }
            say(&mut m, ": invalid YAML: ", Ghost(path@));
            say(&mut m, reason.as_str(), Ghost(path@));
            return Err(m);
        },
    };
    let mut cfg = Settings::default();
    // A file that is empty or holds only comments parses to no document, and
    // one holding a bare `---` to a null document. Both mean "no settings".
    if docs.len() == 0 {
        return Ok(cfg);
    }
    let root = &docs[0];
    assert(node_views(docs@)[0] == root@);
    let pairs = match &root.data {
        Data::Scalar(Scalar::Null) => return Ok(cfg),
        Data::Mapping(pairs) => pairs,
        _ => {
            let mut m = at(path, root.line);
            say(&mut m, "config must be a mapping of settings to values", Ghost(path@));
            return Err(m);
        },
    };
    let ghost views = pair_views(pairs@);
    assert(root@.data->Mapping_0 =~= views);
    let mut i: usize = 0;
    assert(views.take(0) =~= Seq::empty());
    while i < pairs.len()
        invariant
            i <= pairs@.len(),
            views == pair_views(pairs@),
            settings_of(loaded_view(*loaded), path@) == settings_in(path@, views),
            settings_in(path@, views.take(i as int)) == Ok::<SettingsView, Seq<char>>(cfg@),
        decreases pairs@.len() - i,
    {
        let (key, value) = &pairs[i];
        proof {
            let next = views.take(i + 1);
            assert(next.drop_last() =~= views.take(i as int));
            assert(next.last() == (key@, value@));
        }
        if let Err(m) = set(&mut cfg, path, key, value) {
            proof {
                lemma_settings_stop(path@, views, i + 1);
            }
            return Err(m);
        }
        i += 1;
    }
    assert(views.take(i as int) =~= views);
    Ok(cfg)
}

/// Parses config text. `path` only labels the error messages. A file that holds
/// only comments sets nothing, and one that the wizard wrote means exactly what
/// it was written for.
pub fn parse(src: &str, path: &str) -> (r: Result<Settings, String>)
    ensures
        settings_result(r) == settings_of(yaml(src@), path@),
        r matches Err(m) ==> labels(path@, m@),
        only_comments(src@) ==> (r is Ok && r->Ok_0@ == SettingsView::unset()),
        forall|parts: Seq<PlainPart>|
            is_plain(parts) && #[trigger] is_written(src@, parts) && plain_settings(
                plain_entries(parts),
            ) is Some ==> (r is Ok && r->Ok_0@ == plain_settings(plain_entries(parts))->Some_0),
        forall|s: SettingsView|
            writable(s) && src@ == #[trigger] config_text(s) ==> (r is Ok && r->Ok_0@ == s),
{
    let loaded = load_yaml(src);
    proof {
        assert forall|parts: Seq<PlainPart>|
            is_plain(parts) && #[trigger] is_written(src@, parts) && plain_settings(
                plain_entries(parts),
            ) is Some implies settings_of(yaml(src@), path@) == Ok::<SettingsView, Seq<char>>(
            plain_settings(plain_entries(parts))->Some_0,
        ) by {
            let entries = plain_entries(parts);
            let docs = loaded_view(loaded)->Ok_0;
            assert(read_back(docs, entries));
            lemma_settings_read(path@, docs[0].data->Mapping_0, entries);
        }
        assert forall|s: SettingsView|
            writable(s) && src@ == #[trigger] config_text(s) implies settings_of(
            yaml(src@),
            path@,
        ) == Ok::<SettingsView, Seq<char>>(s) by {
            lemma_written(s);
            assert(is_written(src@, config_parts(s)));
        }
    }
    read_settings(&loaded, path)
}

/// Where a config file governing `start` may be: in `start` or a directory
/// above it, nearest first, and in each under either name. The directories are
/// told as `start` is.
pub open spec fn candidates_of(start: Seq<char>) -> Seq<Seq<char>>
    decreases start.len(),
    via candidates_shrink
{
    let here = seq![joined(start, YAML_FILE_NAME@), joined(start, YML_FILE_NAME@)];
    match directory_of(start) {
        Some(dir) => here + candidates_of(dir),
        None => here,
    }
}

#[via_fn]
proof fn candidates_shrink(start: Seq<char>) {
    lemma_directory(start);
}

/// Where a config file governing `start` may be, in priority order. Walking
/// up means running from a subdirectory still picks up the repository's
/// settings.
pub fn candidates(start: &str) -> (r: Vec<String>)
    ensures
        texts(r@) == candidates_of(start@),
{
    let mut dir = to_chars(start);
    let mut out: Vec<String> = Vec::new();
    assert(texts(out@) + candidates_of(start@) =~= candidates_of(start@));
    loop
        invariant_except_break
            texts(out@) + candidates_of(dir@) == candidates_of(start@),
        ensures
            texts(out@) == candidates_of(start@),
        decreases dir@.len(),
    {
        let text = to_text(dir.as_slice());
        let first = join_path(text.as_str(), YAML_FILE_NAME);
        let second = join_path(text.as_str(), YML_FILE_NAME);
        let ghost before = texts(out@);
        out.push(first);
        out.push(second);
        assert(texts(out@) =~= before + seq![first@, second@]);
        proof {
            lemma_directory(dir@);
        }
        match directory(dir.as_slice()) {
            Some(up) => {
                assert(texts(out@) + candidates_of(up@) =~= before + (seq![first@, second@]
                    + candidates_of(up@)));
                dir = up;
            },
            None => {
                break;
            },
        }
    }
    out
}

/// The first of `list` that is in `files`.
pub open spec fn first_in(list: Seq<Seq<char>>, files: Seq<Seq<char>>) -> Option<Seq<char>>
    decreases list.len(),
{
    if list.len() == 0 {
        None
    } else if files.contains(list[0]) {
        Some(list[0])
    } else {
        first_in(list.skip(1), files)
    }
}

/// Returns the config file governing `start`, given which of
/// [`candidates`] are files.
pub fn discover(start: &str, files: &Vec<String>) -> (r: Option<String>)
    ensures
        first_in(candidates_of(start@), texts(files@)) == (match r {
            Some(path) => Some(path@),
            None => None,
        }),
{
    let list = candidates(start);
    let ghost all = texts(list@);
    let mut i: usize = 0;
    assert(all.skip(0) =~= all);
    while i < list.len()
        invariant
            i <= list@.len(),
            all == texts(list@),
            all == candidates_of(start@),
            first_in(all, texts(files@)) == first_in(all.skip(i as int), texts(files@)),
        decreases list@.len() - i,
    {
        assert(all.skip(i as int)[0] == list@[i as int]@);
        assert(all.skip(i as int).skip(1) =~= all.skip(i + 1));
        if holds(files, list[i].as_str()) {
            return Some(list[i].clone());
        }
        i += 1;
    }
    None
}

/// The message for a config file that cannot be read.
pub fn unreadable(path: &str, reason: &str) -> (r: String)
    ensures
        r@ == "cannot read config "@ + path@ + ": "@ + reason@,
{
    let mut m = "cannot read config ".to_string();
    m.append(path);
    m.append(": ");
    m.append(reason);
    m
}

/// Whether a budget is one that a config file may set.
pub open spec fn budget_valid(budget: Option<i64>) -> bool {
    budget matches Some(n) ==> n >= 0
}

/// Settings as a config file may carry them: no negative budget, no empty
/// exclude, and only existing rules.
pub open spec fn settings_valid(s: SettingsView) -> bool {
    &&& budget_valid(s.max_agents_tokens)
    &&& budget_valid(s.max_skill_tokens)
    &&& budget_valid(s.max_skill_name_tokens)
    &&& budget_valid(s.max_skill_description_tokens)
    &&& forall|i: int| 0 <= i < s.excludes.len() ==> (#[trigger] s.excludes[i]).len() > 0
    &&& forall|i: int| 0 <= i < s.disabled.len() ==> ids().contains(#[trigger] s.disabled[i])
}

proof fn lemma_strings_nonempty(path: Seq<char>, key: Seq<char>, items: Seq<NodeView>)
    ensures
        strings_of(path, key, items) matches Ok(list) ==> forall|i: int|
            0 <= i < list.len() ==> (#[trigger] list[i]).len() > 0,
    decreases items.len(),
{
    if items.len() > 0 {
        lemma_strings_nonempty(path, key, items.drop_last());
    }
}

proof fn lemma_disabled_known(path: Seq<char>, pairs: Seq<(NodeView, NodeView)>)
    ensures
        disabled_of(path, pairs) matches Ok(list) ==> forall|i: int|
            0 <= i < list.len() ==> ids().contains(#[trigger] list[i]),
    decreases pairs.len(),
{
    if pairs.len() > 0 {
        lemma_disabled_known(path, pairs.drop_last());
    }
}

proof fn lemma_settings_in_valid(path: Seq<char>, pairs: Seq<(NodeView, NodeView)>)
    ensures
        settings_in(path, pairs) matches Ok(s) ==> settings_valid(s),
    decreases pairs.len(),
{
    if pairs.len() > 0 {
        lemma_settings_in_valid(path, pairs.drop_last());
        match pairs.last().1.data {
            DataView::Sequence(items) => {
                lemma_strings_nonempty(path, "exclude"@, items);
            },
            DataView::Mapping(inner) => {
                lemma_disabled_known(path, inner);
            },
            _ => {},
        }
    }
}

/// A config text that is accepted sets no negative budget, excludes no empty
/// pattern and switches off only rules that exist.
pub proof fn lemma_settings_valid(src: Seq<char>, path: Seq<char>)
    ensures
        settings_of(yaml(src), path) matches Ok(s) ==> settings_valid(s),
{
    match yaml(src) {
        Ok(docs) => {
            if docs.len() > 0 {
                match docs[0].data {
                    DataView::Mapping(pairs) => {
                        lemma_settings_in_valid(path, pairs);
                    },
                    _ => {},
                }
            }
        },
        Err(_) => {},
    }
}

/// `r` with a path in front of its message.
pub open spec fn labelled<T>(path: Seq<char>, r: Result<T, Seq<char>>) -> Result<T, Seq<char>> {
    match r {
        Ok(v) => Ok(v),
        Err(m) => Err(path + m),
    }
}

proof fn lemma_scalar_labels(path: Seq<char>, key: Seq<char>, node: NodeView)
    ensures
        budget_of(path, key, node) == labelled(path, budget_of(Seq::empty(), key, node)),
        boolean_of(path, key, node) == labelled(path, boolean_of(Seq::empty(), key, node)),
        string_of(path, key, node) == labelled(path, string_of(Seq::empty(), key, node)),
{
    let none = Seq::<char>::empty();
    match (budget_of(path, key, node), budget_of(none, key, node)) {
        (Err(m), Err(n)) => {
            assert(m =~= path + n);
        },
        _ => {},
    }
    match (boolean_of(path, key, node), boolean_of(none, key, node)) {
        (Err(m), Err(n)) => {
            assert(m =~= path + n);
        },
        _ => {},
    }
    match (string_of(path, key, node), string_of(none, key, node)) {
        (Err(m), Err(n)) => {
            assert(m =~= path + n);
        },
        _ => {},
    }
}

proof fn lemma_strings_labels(path: Seq<char>, key: Seq<char>, items: Seq<NodeView>)
    ensures
        strings_of(path, key, items) == labelled(path, strings_of(Seq::empty(), key, items)),
    decreases items.len(),
{
    if items.len() > 0 {
        lemma_strings_labels(path, key, items.drop_last());
        lemma_scalar_labels(path, key, items.last());
    }
}

proof fn lemma_switch_labels(path: Seq<char>, key: NodeView, value: NodeView)
    ensures
        switch_of(path, key, value) == labelled(path, switch_of(Seq::empty(), key, value)),
{
    if let Some(rule) = scalar_text(key.data) {
        lemma_scalar_labels(path, "rules."@ + rule, value);
    }
    match (switch_of(path, key, value), switch_of(Seq::empty(), key, value)) {
        (Err(m), Err(n)) => {
            assert(m =~= path + n);
        },
        _ => {},
    }
}

proof fn lemma_disabled_labels(path: Seq<char>, pairs: Seq<(NodeView, NodeView)>)
    ensures
        disabled_of(path, pairs) == labelled(path, disabled_of(Seq::empty(), pairs)),
    decreases pairs.len(),
{
    if pairs.len() > 0 {
        lemma_disabled_labels(path, pairs.drop_last());
        lemma_switch_labels(path, pairs.last().0, pairs.last().1);
    }
}

proof fn lemma_setting_labels(s: SettingsView, path: Seq<char>, key: NodeView, value: NodeView)
    ensures
        with_setting(s, path, key, value) == labelled(
            path,
            with_setting(s, Seq::empty(), key, value),
        ),
{
    if let Some(name) = scalar_text(key.data) {
        lemma_scalar_labels(path, name, value);
        match value.data {
            DataView::Sequence(items) => {
                lemma_strings_labels(path, name, items);
            },
            DataView::Mapping(pairs) => {
                lemma_disabled_labels(path, pairs);
            },
            _ => {},
        }
    }
    match (with_setting(s, path, key, value), with_setting(s, Seq::empty(), key, value)) {
        (Err(m), Err(n)) => {
            assert(m =~= path + n);
        },
        _ => {},
    }
}

proof fn lemma_settings_labels(path: Seq<char>, pairs: Seq<(NodeView, NodeView)>)
    ensures
        settings_in(path, pairs) == labelled(path, settings_in(Seq::empty(), pairs)),
    decreases pairs.len(),
{
    if pairs.len() > 0 {
        lemma_settings_labels(path, pairs.drop_last());
        if let Ok(s) = settings_in(path, pairs.drop_last()) {
            lemma_setting_labels(s, path, pairs.last().0, pairs.last().1);
        }
    }
}

/// The path only labels the messages: under any two paths a config text has the
/// same settings, or the same fault, told with one path or the other in front.
pub proof fn lemma_path_labels(src: Seq<char>, p: Seq<char>, q: Seq<char>)
    ensures
        settings_of(yaml(src), p) == labelled(p, settings_of(yaml(src), Seq::empty())),
        settings_of(yaml(src), q) == labelled(q, settings_of(yaml(src), Seq::empty())),
        settings_of(yaml(src), p) matches Ok(s) ==> settings_of(yaml(src), q) == Ok::<
            SettingsView,
            Seq<char>,
        >(s),
        settings_of(yaml(src), p) is Err <==> settings_of(yaml(src), q) is Err,
{
    lemma_read_labels(src, p);
    lemma_read_labels(src, q);
}

proof fn lemma_read_labels(src: Seq<char>, path: Seq<char>)
    ensures
        settings_of(yaml(src), path) == labelled(path, settings_of(yaml(src), Seq::empty())),
{
    match yaml(src) {
        Ok(docs) => {
            if docs.len() > 0 {
                if let DataView::Mapping(pairs) = docs[0].data {
                    lemma_settings_labels(path, pairs);
                }
            }
        },
        Err(_) => {},
    }
    match (settings_of(yaml(src), path), settings_of(yaml(src), Seq::empty())) {
        (Err(m), Err(n)) => {
            assert(m =~= path + n);
        },
        _ => {},
    }
}

/// Whether a scalar is written as a text.
pub open spec fn is_text(s: PlainScalar) -> bool {
    s is Text || s is Quoted
}

/// `s` with one more setting, by how it is written.
pub open spec fn plain_setting(s: SettingsView, name: Seq<char>, value: PlainValue) -> Option<
    SettingsView,
> {
    match value {
        PlainValue::Scalar(PlainScalar::Number(n)) => if n < 0 || n > i64::MAX {
            None
        } else if name == "max-agents-tokens"@ {
            Some(SettingsView { max_agents_tokens: Some(n as i64), ..s })
        } else if name == "max-skill-tokens"@ {
            Some(SettingsView { max_skill_tokens: Some(n as i64), ..s })
        } else if name == "max-skill-name-tokens"@ {
            Some(SettingsView { max_skill_name_tokens: Some(n as i64), ..s })
        } else if name == "max-skill-description-tokens"@ {
            Some(SettingsView { max_skill_description_tokens: Some(n as i64), ..s })
        } else {
            None
        },
        PlainValue::Items(list) => if name == "exclude"@ && forall|i: int|
            0 <= i < list.len() ==> is_text(#[trigger] list[i]) && scalar_meant(list[i]).len() > 0 {
            Some(SettingsView { excludes: Seq::new(list.len(), |i: int| scalar_meant(list[i])), ..s })
        } else {
            None
        },
        PlainValue::Pairs(list) => if name == "rules"@ && forall|i: int|
            0 <= i < list.len() ==> ids().contains((#[trigger] list[i]).0) && list[i].1
                == PlainScalar::Flag(false) {
            Some(SettingsView { disabled: Seq::new(list.len(), |i: int| list[i].0), ..s })
        } else {
            None
        },
        _ => None,
    }
}

/// The settings that entries hold, by how they are written.
pub open spec fn plain_settings(entries: Seq<(Seq<char>, PlainValue)>) -> Option<SettingsView>
    decreases entries.len(),
{
    if entries.len() == 0 {
        Some(SettingsView::unset())
    } else {
        match plain_settings(entries.drop_last()) {
            None => None,
            Some(s) => plain_setting(s, entries.last().0, entries.last().1),
        }
    }
}

proof fn lemma_strings_read(
    path: Seq<char>,
    key: Seq<char>,
    items: Seq<NodeView>,
    list: Seq<Seq<char>>,
)
    requires
        items.len() == list.len(),
        forall|i: int|
            0 <= i < list.len() ==> (#[trigger] items[i]).data == text_read(list[i])
                && list[i].len() > 0,
    ensures
        strings_of(path, key, items) == Ok::<Seq<Seq<char>>, Seq<char>>(list),
    decreases items.len(),
{
    if items.len() > 0 {
        let init = items.drop_last();
        let first = list.drop_last();
        assert forall|i: int| 0 <= i < first.len() implies (#[trigger] init[i]).data == text_read(
            first[i],
        ) && first[i].len() > 0 by {
            assert(init[i] == items[i]);
        }
        lemma_strings_read(path, key, init, first);
        assert(items[items.len() - 1].data == text_read(list.last()));
        assert(first.push(list.last()) =~= list);
    } else {
        assert(list =~= Seq::empty());
    }
}

proof fn lemma_false_read(path: Seq<char>, key: Seq<char>, node: NodeView)
    requires
        node.data == scalar_read(PlainScalar::Flag(false)),
    ensures
        boolean_of(path, key, node) == Ok::<bool, Seq<char>>(false),
{
    reveal_strlit("false");
    reveal_strlit("true");
    reveal_strlit("yes");
    reveal_strlit("on");
    assert(ascii_lower("false"@) =~= "false"@);
    assert("false"@.len() == 5 && "true"@.len() == 4 && "yes"@.len() == 3 && "on"@.len() == 2);
}

proof fn lemma_disabled_read(
    path: Seq<char>,
    pairs: Seq<(NodeView, NodeView)>,
    list: Seq<Seq<char>>,
)
    requires
        pairs.len() == list.len(),
        forall|i: int|
            0 <= i < list.len() ==> (#[trigger] pairs[i]).0.data == text_read(list[i])
                && pairs[i].1.data == scalar_read(PlainScalar::Flag(false)) && ids().contains(
                list[i],
            ),
    ensures
        disabled_of(path, pairs) == Ok::<Seq<Seq<char>>, Seq<char>>(list),
    decreases pairs.len(),
{
    if pairs.len() > 0 {
        let init = pairs.drop_last();
        let first = list.drop_last();
        assert forall|i: int| 0 <= i < first.len() implies (#[trigger] init[i]).0.data == text_read(
            first[i],
        ) && init[i].1.data == scalar_read(PlainScalar::Flag(false)) && ids().contains(first[i]) by {
            assert(init[i] == pairs[i]);
        }
        lemma_disabled_read(path, init, first);
        let last = pairs[pairs.len() - 1];
        assert(last.0.data == text_read(list.last()));
        lemma_false_read(path, "rules."@ + list.last(), last.1);
        assert(first.push(list.last()) =~= list);
    } else {
        assert(list =~= Seq::empty());
    }
}

proof fn lemma_setting_read(
    s: SettingsView,
    path: Seq<char>,
    key: NodeView,
    node: NodeView,
    name: Seq<char>,
    value: PlainValue,
)
    requires
        key.data == text_read(name),
        value_read(node.data, value),
        plain_setting(s, name, value) is Some,
    ensures
        with_setting(s, path, key, node) == Ok::<SettingsView, Seq<char>>(
            plain_setting(s, name, value)->Some_0,
        ),
{
    reveal_strlit("max-agents-tokens");
    reveal_strlit("max-skill-tokens");
    reveal_strlit("max-skill-name-tokens");
    reveal_strlit("max-skill-description-tokens");
    reveal_strlit("exclude");
    reveal_strlit("rules");
    assert("max-agents-tokens"@.len() == 17 && "max-skill-tokens"@.len() == 16
        && "max-skill-name-tokens"@.len() == 21 && "max-skill-description-tokens"@.len() == 28
        && "exclude"@.len() == 7 && "rules"@.len() == 5);
    match value {
        PlainValue::Scalar(PlainScalar::Number(n)) => {
            lemma_read_decimal_int(n);
        },
        PlainValue::Items(list) => {
            let texts = Seq::new(list.len(), |i: int| scalar_meant(list[i]));
            let items = node.data->Sequence_0;
            assert forall|i: int| 0 <= i < texts.len() implies (#[trigger] items[i]).data
                == text_read(texts[i]) && texts[i].len() > 0 by {
                assert(is_text(list[i]));
            }
            lemma_strings_read(path, name, items, texts);
        },
        PlainValue::Pairs(list) => {
            let rules = Seq::new(list.len(), |i: int| list[i].0);
            let pairs = node.data->Mapping_0;
            assert forall|i: int| 0 <= i < rules.len() implies (#[trigger] pairs[i]).0.data
                == text_read(rules[i]) && pairs[i].1.data == scalar_read(PlainScalar::Flag(false))
                && ids().contains(rules[i]) by {
                assert(ids().contains(list[i].0));
            }
            lemma_disabled_read(path, pairs, rules);
        },
        _ => {},
    }
}

proof fn lemma_settings_read(
    path: Seq<char>,
    pairs: Seq<(NodeView, NodeView)>,
    entries: Seq<(Seq<char>, PlainValue)>,
)
    requires
        pairs.len() == entries.len(),
        forall|i: int|
            0 <= i < entries.len() ==> (#[trigger] pairs[i]).0.data == text_read(entries[i].0)
                && value_read(pairs[i].1.data, entries[i].1),
        plain_settings(entries) is Some,
    ensures
        settings_in(path, pairs) == Ok::<SettingsView, Seq<char>>(plain_settings(entries)->Some_0),
    decreases pairs.len(),
{
    if pairs.len() > 0 {
        let init = pairs.drop_last();
        let first = entries.drop_last();
        assert forall|i: int| 0 <= i < first.len() implies (#[trigger] init[i]).0.data == text_read(
            first[i].0,
        ) && value_read(init[i].1.data, first[i].1) by {
            assert(init[i] == pairs[i]);
        }
        lemma_settings_read(path, init, first);
        let last = pairs[pairs.len() - 1];
        lemma_setting_read(
            plain_settings(first)->Some_0,
            path,
            last.0,
            last.1,
            entries.last().0,
            entries.last().1,
        );
    }
}

} // verus!
