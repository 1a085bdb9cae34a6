//! Wires flags, discovery, linting and reporting together.
//!
//! A run is a conversation: it asks for what it needs from outside -- a config
//! file, a directory listing, the contents of a file -- and goes on with the
//! reply, until it has its output.

use vstd::prelude::*;
use vstd::slice::slice_subrange;

use crate::config::{
    Config, ConfigView, Settings, SettingsView, DEFAULT_MAX_AGENTS_TOKENS,
    DEFAULT_MAX_SKILL_DESCRIPTION_TOKENS, DEFAULT_MAX_SKILL_NAME_TOKENS, DEFAULT_MAX_SKILL_TOKENS,
};
use crate::lint::ids::{ids, is_rule, rule_ids, strs};
use crate::number::{decimal_int, i64_of, read_i64, write_integer};
use crate::order::{sort_texts, sorted};
use crate::text::{
    debug_text, find_char, first_index, join, quoted, rows, same, texts, to_chars, to_text,
};

verus! {

/// No errors were found; warnings alone still exit OK.
pub const EXIT_OK: i32 = 0;

/// At least one error-severity finding was reported.
pub const EXIT_FINDINGS: i32 = 1;

/// The run could not happen: bad flags or unreadable files.
pub const EXIT_USAGE: i32 = 2;

/// What the command line asked for. The four token budgets are optional so an
/// unset flag is distinguishable from one set to its default value and the
/// config file can supply it instead. Run-behavior flags (`strict`, `quiet`,
/// `format`, `color`) are not configurable via the file, so they keep their
/// concrete defaults here.
#[derive(Debug)]
pub struct Flags {
    pub max_agents_tokens: Option<i64>,
    pub max_skill_tokens: Option<i64>,
    pub max_skill_name_tokens: Option<i64>,
    pub max_skill_description_tokens: Option<i64>,
    pub format: String,
    pub color: String,
    pub strict: bool,
    pub quiet: bool,
    pub show_version: bool,
    pub list_rules: bool,
    pub excludes: Vec<String>,
    pub disabled: Vec<String>,
    pub config: Option<String>,
    pub no_config: bool,
    pub paths: Vec<String>,
}

#[verifier::ext_equal]
pub struct FlagsView {
    pub max_agents_tokens: Option<i64>,
    pub max_skill_tokens: Option<i64>,
    pub max_skill_name_tokens: Option<i64>,
    pub max_skill_description_tokens: Option<i64>,
    pub format: Seq<char>,
    pub color: Seq<char>,
    pub strict: bool,
    pub quiet: bool,
    pub show_version: bool,
    pub list_rules: bool,
    pub excludes: Seq<Seq<char>>,
    pub disabled: Seq<Seq<char>>,
    pub config: Option<Seq<char>>,
    pub no_config: bool,
    pub paths: Seq<Seq<char>>,
}

impl FlagsView {
    /// What a command line without flags asks for.
    pub open spec fn unset() -> FlagsView {
        FlagsView {
            max_agents_tokens: None,
            max_skill_tokens: None,
            max_skill_name_tokens: None,
            max_skill_description_tokens: None,
            format: "text"@,
            color: "auto"@,
            strict: false,
            quiet: false,
            show_version: false,
            list_rules: false,
            excludes: Seq::empty(),
            disabled: Seq::empty(),
            config: None,
            no_config: false,
            paths: Seq::empty(),
        }
    }
}

impl Flags {
    pub open spec fn view(self) -> FlagsView {
        FlagsView {
            max_agents_tokens: self.max_agents_tokens,
            max_skill_tokens: self.max_skill_tokens,
            max_skill_name_tokens: self.max_skill_name_tokens,
            max_skill_description_tokens: self.max_skill_description_tokens,
            format: self.format@,
            color: self.color@,
            strict: self.strict,
            quiet: self.quiet,
            show_version: self.show_version,
            list_rules: self.list_rules,
            excludes: texts(self.excludes@),
            disabled: texts(self.disabled@),
            config: match self.config {
                Some(s) => Some(s@),
                None => None,
            },
            no_config: self.no_config,
            paths: texts(self.paths@),
        }
    }
}

impl Default for Flags {
    fn default() -> (r: Flags)
        ensures
            r@ == FlagsView::unset(),
    {
        let r = Flags {
            max_agents_tokens: None,
            max_skill_tokens: None,
            max_skill_name_tokens: None,
            max_skill_description_tokens: None,
            format: "text".to_string(),
            color: "auto".to_string(),
            strict: false,
            quiet: false,
            show_version: false,
            list_rules: false,
            excludes: Vec::new(),
            disabled: Vec::new(),
            config: None,
            no_config: false,
            paths: Vec::new(),
        };
        assert(r@ =~= FlagsView::unset());
        r
    }
}

/// The settings a run actually uses, after the command line and the config
/// file's budgets, excludes and rules have been merged in that order of
/// precedence.
#[derive(Debug)]
pub struct Resolved {
    pub config: Config,
    pub format: String,
    pub color: String,
    pub quiet: bool,
    pub excludes: Vec<String>,
    pub paths: Vec<String>,
}

#[verifier::ext_equal]
pub struct ResolvedView {
    pub config: ConfigView,
    pub format: Seq<char>,
    pub color: Seq<char>,
    pub quiet: bool,
    pub excludes: Seq<Seq<char>>,
    pub paths: Seq<Seq<char>>,
}

impl Resolved {
    pub open spec fn view(self) -> ResolvedView {
        ResolvedView {
            config: self.config@,
            format: self.format@,
            color: self.color@,
            quiet: self.quiet,
            excludes: texts(self.excludes@),
            paths: texts(self.paths@),
        }
    }
}

/// A budget: the flag's, else the file's, else the default.
pub open spec fn chosen(flag: Option<i64>, file: Option<i64>, default: i64) -> int {
    match flag {
        Some(n) => n as int,
        None => match file {
            Some(n) => n as int,
            None => default as int,
        },
    }
}

/// Flags over config-file settings over the built-in defaults. Lists
/// accumulate instead of overriding, the file's entries first.
pub open spec fn resolved(f: FlagsView, cfg: SettingsView) -> ResolvedView {
    ResolvedView {
        config: ConfigView {
            max_agents_tokens: chosen(
                f.max_agents_tokens,
                cfg.max_agents_tokens,
                DEFAULT_MAX_AGENTS_TOKENS,
            ),
            max_skill_tokens: chosen(
                f.max_skill_tokens,
                cfg.max_skill_tokens,
                DEFAULT_MAX_SKILL_TOKENS,
            ),
            max_skill_name_tokens: chosen(
                f.max_skill_name_tokens,
                cfg.max_skill_name_tokens,
                DEFAULT_MAX_SKILL_NAME_TOKENS,
            ),
            max_skill_description_tokens: chosen(
                f.max_skill_description_tokens,
                cfg.max_skill_description_tokens,
                DEFAULT_MAX_SKILL_DESCRIPTION_TOKENS,
            ),
            disabled: cfg.disabled + f.disabled,
            strict: f.strict,
        },
        format: f.format,
        color: f.color,
        quiet: f.quiet,
        excludes: cfg.excludes + f.excludes,
        paths: if f.paths.len() == 0 {
            seq!["."@]
        } else {
            f.paths
        },
    }
}

fn choose_budget(flag: Option<i64>, file: Option<i64>, default: i64) -> (r: i64)
    ensures
        r == chosen(flag, file, default),
{
    match flag {
        Some(n) => n,
        None => match file {
            Some(n) => n,
            None => default,
        },
    }
}

/// Merges flags over config-file settings over the built-in defaults. Lists
/// accumulate instead of overriding: `--exclude` and `--disable` add to
/// whatever the file already asked for, since narrowing a run further on the
/// command line is the common case. Run-behavior flags pass straight through:
/// the config file has no say over them.
pub fn resolve(f: Flags, cfg: Settings) -> (r: Resolved)
    ensures
        r@ == resolved(f@, cfg@),
{
    let ghost (flags, file) = (f@, cfg@);
    let config = Config {
        max_agents_tokens: choose_budget(
            f.max_agents_tokens,
            cfg.max_agents_tokens,
            DEFAULT_MAX_AGENTS_TOKENS,
        ),
        max_skill_tokens: choose_budget(
            f.max_skill_tokens,
            cfg.max_skill_tokens,
            DEFAULT_MAX_SKILL_TOKENS,
        ),
        max_skill_name_tokens: choose_budget(
            f.max_skill_name_tokens,
            cfg.max_skill_name_tokens,
            DEFAULT_MAX_SKILL_NAME_TOKENS,
        ),
        max_skill_description_tokens: choose_budget(
            f.max_skill_description_tokens,
            cfg.max_skill_description_tokens,
            DEFAULT_MAX_SKILL_DESCRIPTION_TOKENS,
        ),
        disabled: concat(cfg.disabled, f.disabled),
        strict: f.strict,
    };
    let paths = if f.paths.len() == 0 {
        let mut here: Vec<String> = Vec::new();
        here.push(".".to_string());
        assert(texts(here@) =~= seq!["."@]);
        here
    } else {
        f.paths
    };
    let r = Resolved {
        config,
        format: f.format,
        color: f.color,
        quiet: f.quiet,
        excludes: concat(cfg.excludes, f.excludes),
        paths,
    };
    assert(r@ =~= resolved(flags, file));
    r
}

fn concat(a: Vec<String>, b: Vec<String>) -> (r: Vec<String>)
    ensures
        texts(r@) == texts(a@) + texts(b@),
{
    let ghost all = texts(a@) + texts(b@);
    let mut a = a;
    let mut b = b;
    a.append(&mut b);
    assert(texts(a@) =~= all);
    a
}

/// A flag's name and any inline `=value`, without the one or two dashes it
/// starts with.
pub open spec fn flag_parts(token: Seq<char>) -> (Seq<char>, Option<Seq<char>>) {
    let stripped = if seq!['-', '-'].is_prefix_of(token) {
        token.skip(2)
    } else if token.len() > 0 && token[0] == '-' {
        token.skip(1)
    } else {
        token
    };
    let at = first_index(stripped, '=', 0);
    if at < stripped.len() {
        (stripped.take(at), Some(stripped.skip(at + 1)))
    } else {
        (stripped, None)
    }
}

/// The view of an optional string.
pub open spec fn opt_view(s: Option<String>) -> Option<Seq<char>> {
    match s {
        Some(t) => Some(t@),
        None => None,
    }
}

/// Splits a token's flag name from any inline `=value`, stripping one or two
/// leading dashes.
pub fn split_flag(token: &str) -> (r: (String, Option<String>))
    ensures
        (r.0@, opt_view(r.1)) == flag_parts(token@),
{
    let chars = to_chars(token);
    let all = chars.as_slice();
    assert(seq!['-', '-'].is_prefix_of(token@) <==> token@.len() >= 2 && token@[0] == '-' && token@[1]
        == '-') by {
        if token@.len() >= 2 {
            assert(token@.take(2) =~= seq![token@[0], token@[1]]);
        }
        if seq!['-', '-'].is_prefix_of(token@) {
            assert(token@.take(2)[0] == seq!['-', '-'][0]);
            assert(token@.take(2)[1] == seq!['-', '-'][1]);
        }
    }
    let dashes: usize = if all.len() >= 2 && all[0] == '-' && all[1] == '-' {
        2
    } else if all.len() > 0 && all[0] == '-' {
        1
    } else {
        0
    };
    let stripped = slice_subrange(all, dashes, all.len());
    assert(stripped@ =~= token@.skip(dashes as int));
    assert(token@.skip(0) =~= token@);
    let at: usize = find_char(stripped, '=', 0);
    if at < stripped.len() {
        let name = slice_subrange(stripped, 0, at);
        let value = slice_subrange(stripped, at + 1, stripped.len());
        assert(name@ =~= stripped@.take(at as int));
        assert(value@ =~= stripped@.skip(at + 1));
        (to_text(name), Some(to_text(value)))
    } else {
        (to_text(stripped), None)
    }
}

/// Where a walk over the arguments stands.
#[verifier::ext_equal]
pub struct ParserView {
    pub flags: FlagsView,
    /// The argument the walk is at.
    pub at: int,
    /// Budgets given a negative value.
    pub negative: Seq<Seq<char>>,
}

/// Why a walk over the arguments ended early.
pub enum Halt {
    Help,
    Fault(Seq<char>),
}

/// The value of a flag: the inline one, or the next argument. Also where the
/// walk is then.
pub open spec fn value_of(
    args: Seq<Seq<char>>,
    at: int,
    name: Seq<char>,
    inline: Option<Seq<char>>,
) -> Result<(Seq<char>, int), Seq<char>> {
    match inline {
        Some(v) => Ok((v, at)),
        None => if at + 1 < args.len() {
            Ok((args[at + 1], at + 1))
        } else {
            Err("flag needs an argument: --"@ + name)
        },
    }
}

/// Like [`value_of`], but an empty value is a fault.
pub open spec fn nonempty_value_of(
    args: Seq<Seq<char>>,
    at: int,
    name: Seq<char>,
    inline: Option<Seq<char>>,
) -> Result<(Seq<char>, int), Seq<char>> {
    match value_of(args, at, name, inline) {
        Err(m) => Err(m),
        Ok((v, next)) => if v.len() == 0 {
            Err("--"@ + name + " value must not be empty"@)
        } else {
            Ok((v, next))
        },
    }
}

/// A token budget, and where the walk is then. Negative ones are accepted
/// here.
pub open spec fn budget_of(
    args: Seq<Seq<char>>,
    at: int,
    name: Seq<char>,
    inline: Option<Seq<char>>,
) -> Result<(i64, int), Seq<char>> {
    match value_of(args, at, name, inline) {
        Err(m) => Err(m),
        Ok((raw, next)) => match i64_of(raw) {
            None => Err(
                "invalid value "@ + debug_text(raw) + " for flag --"@ + name + ": not an integer"@,
            ),
            Some(n) => Ok((n as i64, next)),
        },
    }
}

/// A switch is on unless it is given `false` or `0`.
pub open spec fn switch_value(inline: Option<Seq<char>>) -> bool {
    match inline {
        Some(v) => v != "false"@ && v != "0"@,
        None => true,
    }
}

/// Whether a flag sets a token budget.
pub open spec fn is_budget(name: Seq<char>) -> bool {
    ||| name == "max-agents-tokens"@
    ||| name == "max-skill-tokens"@
    ||| name == "max-skill-name-tokens"@
    ||| name == "max-skill-description-tokens"@
}

/// The flags with a token budget set.
pub open spec fn with_budget(f: FlagsView, name: Seq<char>, n: i64) -> FlagsView {
    if name == "max-agents-tokens"@ {
        FlagsView { max_agents_tokens: Some(n), ..f }
    } else if name == "max-skill-tokens"@ {
        FlagsView { max_skill_tokens: Some(n), ..f }
    } else if name == "max-skill-name-tokens"@ {
        FlagsView { max_skill_name_tokens: Some(n), ..f }
    } else {
        FlagsView { max_skill_description_tokens: Some(n), ..f }
    }
}

/// Whether a flag takes a text.
pub open spec fn takes_text(name: Seq<char>) -> bool {
    name == "format"@ || name == "color"@
}

/// Whether a flag takes a text that must not be empty.
pub open spec fn takes_nonempty(name: Seq<char>) -> bool {
    name == "config"@ || name == "exclude"@ || name == "disable"@
}

/// The flags with a text set.
pub open spec fn with_text(f: FlagsView, name: Seq<char>, v: Seq<char>) -> FlagsView {
    if name == "format"@ {
        FlagsView { format: v, ..f }
    } else if name == "color"@ {
        FlagsView { color: v, ..f }
    } else if name == "config"@ {
        FlagsView { config: Some(v), ..f }
    } else if name == "exclude"@ {
        FlagsView { excludes: f.excludes.push(v), ..f }
    } else {
        FlagsView { disabled: f.disabled.push(v), ..f }
    }
}

/// Takes in the flag that the walk is at.
pub open spec fn flag_taken(args: Seq<Seq<char>>, p: ParserView) -> Result<ParserView, Halt> {
    let (name, inline) = flag_parts(args[p.at]);
    let f = p.flags;
    if is_budget(name) {
        match budget_of(args, p.at, name, inline) {
            Err(m) => Err(Halt::Fault(m)),
            Ok((n, next)) => Ok(
                ParserView {
                    flags: with_budget(f, name, n),
                    at: next + 1,
                    negative: if n < 0 {
                        p.negative.push("--"@ + name)
                    } else {
                        p.negative
                    },
                },
            ),
        }
    } else if name == "h"@ || name == "help"@ {
        Err(Halt::Help)
    } else if name == "version"@ {
        Ok(ParserView { flags: FlagsView { show_version: true, ..f }, at: p.at + 1, ..p })
    } else if name == "list-rules"@ {
        Ok(ParserView { flags: FlagsView { list_rules: true, ..f }, at: p.at + 1, ..p })
    } else if name == "strict"@ {
        Ok(
            ParserView {
                flags: FlagsView { strict: switch_value(inline), ..f },
                at: p.at + 1,
                ..p
            },
        )
    } else if name == "quiet"@ {
        Ok(
            ParserView {
                flags: FlagsView { quiet: switch_value(inline), ..f },
                at: p.at + 1,
                ..p
            },
        )
    } else if name == "no-config"@ {
        Ok(
            ParserView {
                flags: FlagsView { no_config: switch_value(inline), ..f },
                at: p.at + 1,
                ..p
            },
        )
    } else if takes_text(name) {
        match value_of(args, p.at, name, inline) {
            Err(m) => Err(Halt::Fault(m)),
            Ok((v, next)) => Ok(
                ParserView { flags: with_text(f, name, v), at: next + 1, ..p },
            ),
        }
    } else if takes_nonempty(name) {
        match nonempty_value_of(args, p.at, name, inline) {
            Err(m) => Err(Halt::Fault(m)),
            Ok((v, next)) => Ok(
                ParserView { flags: with_text(f, name, v), at: next + 1, ..p },
            ),
        }
    } else {
        Err(Halt::Fault("flag provided but not defined: -"@ + name))
    }
}

/// Whether an argument is a flag: it starts with a dash and is not a dash
/// alone. What follows the first that is none is a path.
pub open spec fn is_flag(arg: Seq<char>) -> bool {
    arg.len() > 0 && arg[0] == '-' && arg != "-"@
}

/// The walk over the arguments, from where it stands to the first path.
pub open spec fn walked(args: Seq<Seq<char>>, p: ParserView) -> Result<ParserView, Halt>
    decreases args.len() - p.at,
{
    if p.at < 0 || p.at >= args.len() {
        Ok(p)
    } else if args[p.at] == "--"@ {
        Ok(ParserView { at: p.at + 1, ..p })
    } else if !is_flag(args[p.at]) {
        Ok(p)
    } else {
        match flag_taken(args, p) {
            Err(h) => Err(h),
            Ok(next) => walked(args, next),
        }
    }
}

/// What a command line comes to.
pub enum ParsedView {
    Flags(FlagsView),
    Help,
    Fault(Seq<char>),
}

/// Whether a command line asks for the wizard: its first word is `init`, and
/// what follows is the wizard's. Elsewhere the word is a path like any other.
pub fn is_init(args: &[String]) -> (r: bool)
    ensures
        r == (args@.len() > 0 && args@[0]@ == "init"@),
{
    args.len() > 0 && same(args[0].as_str(), "init")
}

/// What a command line comes to. Every negative budget is named at once.
pub open spec fn parsed(args: Seq<Seq<char>>) -> ParsedView {
    let start = ParserView { flags: FlagsView::unset(), at: 0, negative: Seq::empty() };
    match walked(args, start) {
        Err(Halt::Help) => ParsedView::Help,
        Err(Halt::Fault(m)) => ParsedView::Fault(m),
        Ok(p) => if p.negative.len() > 0 {
            ParsedView::Fault(
                join(sorted(p.negative), ", "@) + " must be zero or more (0 disables the check)"@,
            )
        } else {
            ParsedView::Flags(FlagsView { paths: args.skip(p.at), ..p.flags })
        },
    }
}

/// What a command line comes to.
#[derive(Debug)]
pub enum ParseOutcome {
    Flags(Flags),
    Help,
    Fault(String),
}

impl ParseOutcome {
    pub open spec fn view(self) -> ParsedView {
        match self {
            ParseOutcome::Flags(f) => ParsedView::Flags(f@),
            ParseOutcome::Help => ParsedView::Help,
            ParseOutcome::Fault(m) => ParsedView::Fault(m@),
        }
    }
}

/// Why a walk over the arguments ended early.
enum Stop {
    Help,
    Fault(String),
}

impl Stop {
    spec fn view(self) -> Halt {
        match self {
            Stop::Help => Halt::Help,
            Stop::Fault(m) => Halt::Fault(m@),
        }
    }
}

/// Walks the argument list, holding the cursor so a flag needing a value can
/// consume the next argument.
struct ArgParser<'a> {
    args: &'a [String],
    i: usize,
    /// Budgets given a negative value, collected so every offender is named at
    /// once rather than only the first.
    negative: Vec<String>,
    flags: Flags,
}

impl<'a> ArgParser<'a> {
    spec fn view(self) -> ParserView {
        ParserView { flags: self.flags@, at: self.i as int, negative: texts(self.negative@) }
    }

    /// The value for `--name`: the inline `=value` if given, otherwise the
    /// next argument, which this consumes.
    fn next_value(&mut self, name: &str, inline: Option<String>) -> (r: Result<String, String>)
        requires
            old(self).i < old(self).args@.len(),
        ensures
            final(self).args == old(self).args,
            final(self).flags == old(self).flags,
            final(self).negative == old(self).negative,
            match value_of(texts(old(self).args@), old(self).i as int, name@, opt_view(inline)) {
                Ok((v, next)) => r matches Ok(s) && s@ == v && final(self).i == next && next
                    < final(self).args@.len(),
                Err(m) => r matches Err(e) && e@ == m,
            },
    {
        if let Some(v) = inline {
            return Ok(v);
        }
        if self.args.len() - self.i > 1 {
            self.i += 1;
            assert(texts(self.args@)[self.i as int] == self.args@[self.i as int]@);
            return Ok(self.args[self.i].clone());
        }
        let mut m = "flag needs an argument: --".to_string();
        m.append(name);
        Err(m)
    }

    /// Like [`Self::next_value`], but rejects an empty value.
    fn next_nonempty(&mut self, name: &str, inline: Option<String>) -> (r: Result<String, String>)
        requires
            old(self).i < old(self).args@.len(),
        ensures
            final(self).args == old(self).args,
            final(self).flags == old(self).flags,
            final(self).negative == old(self).negative,
            match nonempty_value_of(
                texts(old(self).args@),
                old(self).i as int,
                name@,
                opt_view(inline),
            ) {
                Ok((v, next)) => r matches Ok(s) && s@ == v && final(self).i == next && next
                    < final(self).args@.len(),
                Err(m) => r matches Err(e) && e@ == m,
            },
    {
        match self.next_value(name, inline) {
            Err(m) => Err(m),
            Ok(v) => if to_chars(v.as_str()).len() == 0 {
                let mut m = "--".to_string();
                m.append(name);
                m.append(" value must not be empty");
                Err(m)
            } else {
                Ok(v)
            },
        }
    }

    /// A token budget. Negatives are recorded rather than rejected here, so
    /// the error can list all of them together once parsing finishes.
    fn budget(&mut self, name: &str, inline: Option<String>) -> (r: Result<i64, String>)
        requires
            old(self).i < old(self).args@.len(),
        ensures
            final(self).args == old(self).args,
            final(self).flags == old(self).flags,
            match budget_of(texts(old(self).args@), old(self).i as int, name@, opt_view(inline)) {
                Ok((n, next)) => r matches Ok(v) && v == n && final(self).i == next && next
                    < final(self).args@.len() && texts(final(self).negative@) == if n < 0 {
                    texts(old(self).negative@).push("--"@ + name@)
                } else {
                    texts(old(self).negative@)
                },
                Err(m) => r matches Err(e) && e@ == m,
            },
    {
        let raw = match self.next_value(name, inline) {
            Err(m) => return Err(m),
            Ok(raw) => raw,
        };
        let Some(n) = read_i64(raw.as_str()) else {
            let mut m = "invalid value ".to_string();
            m.append(quoted(raw.as_str()).as_str());
            m.append(" for flag --");
            m.append(name);
            m.append(": not an integer");
            return Err(m);
        };
        if n < 0 {
            let mut flag = "--".to_string();
            flag.append(name);
            assert(texts(self.negative@.push(flag)) =~= texts(self.negative@).push(flag@));
            self.negative.push(flag);
        }
        Ok(n)
    }

    /// Stores a budget under its flag's name.
    fn set_budget(&mut self, name: &str, n: i64)
        requires
            is_budget(name@),
        ensures
            final(self).args == old(self).args,
            final(self).i == old(self).i,
            final(self).negative == old(self).negative,
            final(self).flags@ == with_budget(old(self).flags@, name@, n),
    {
        if same(name, "max-agents-tokens") {
            self.flags.max_agents_tokens = Some(n);
        } else if same(name, "max-skill-tokens") {
            self.flags.max_skill_tokens = Some(n);
        } else if same(name, "max-skill-name-tokens") {
            self.flags.max_skill_name_tokens = Some(n);
        } else {
            self.flags.max_skill_description_tokens = Some(n);
        }
    }

    /// Stores a text under its flag's name.
    fn set_text(&mut self, name: &str, v: String)
        requires
            takes_text(name@) || takes_nonempty(name@),
        ensures
            final(self).args == old(self).args,
            final(self).i == old(self).i,
            final(self).negative == old(self).negative,
            final(self).flags@ == with_text(old(self).flags@, name@, v@),
    {
        if same(name, "format") {
            self.flags.format = v;
        } else if same(name, "color") {
            self.flags.color = v;
        } else if same(name, "config") {
            self.flags.config = Some(v);
        } else if same(name, "exclude") {
            let ghost before = texts(self.flags.excludes@);
            self.flags.excludes.push(v);
            assert(texts(self.flags.excludes@) =~= before.push(v@));
        } else {
            let ghost before = texts(self.flags.disabled@);
            self.flags.disabled.push(v);
            assert(texts(self.flags.disabled@) =~= before.push(v@));
        }
    }

    /// Takes in the flag that the walk is at.
    fn take_flag(&mut self) -> (r: Result<(), Stop>)
        requires
            old(self).i < old(self).args@.len(),
        ensures
            final(self).args == old(self).args,
            match flag_taken(texts(old(self).args@), old(self)@) {
                Ok(p) => r is Ok && final(self)@ == p,
                Err(h) => r matches Err(s) && s@ == h,
            },
    {
        let ghost args = texts(self.args@);
        let ghost before = self@;
        assert(args[self.i as int] == self.args@[self.i as int]@);
        let (name, inline) = split_flag(self.args[self.i].as_str());
        let name = name.as_str();
        if same(name, "max-agents-tokens") || same(name, "max-skill-tokens") || same(
            name,
            "max-skill-name-tokens",
        ) || same(name, "max-skill-description-tokens") {
            match self.budget(name, inline) {
                Err(m) => return Err(Stop::Fault(m)),
                Ok(n) => self.set_budget(name, n),
            }
        } else if same(name, "h") || same(name, "help") {
            return Err(Stop::Help);
        } else if same(name, "version") {
            self.flags.show_version = true;
        } else if same(name, "list-rules") {
            self.flags.list_rules = true;
        } else if same(name, "strict") {
            self.flags.strict = parse_bool_inline(&inline);
        } else if same(name, "quiet") {
            self.flags.quiet = parse_bool_inline(&inline);
        } else if same(name, "no-config") {
            self.flags.no_config = parse_bool_inline(&inline);
        } else if same(name, "format") || same(name, "color") {
            match self.next_value(name, inline) {
                Err(m) => return Err(Stop::Fault(m)),
                Ok(v) => self.set_text(name, v),
            }
        } else if same(name, "config") || same(name, "exclude") || same(name, "disable") {
            match self.next_nonempty(name, inline) {
                Err(m) => return Err(Stop::Fault(m)),
                Ok(v) => self.set_text(name, v),
            }
        } else {
            let mut m = "flag provided but not defined: -".to_string();
            m.append(name);
            return Err(Stop::Fault(m));
        }
        self.i += 1;
        assert(flag_taken(args, before) is Ok);
        assert(self@ =~= flag_taken(args, before)->Ok_0);
        Ok(())
    }
}

pub fn parse_bool_inline(inline: &Option<String>) -> (r: bool)
    ensures
        r == switch_value(opt_view(*inline)),
{
    match inline {
        Some(v) => !same(v.as_str(), "false") && !same(v.as_str(), "0"),
        None => true,
    }
}

pub fn looks_like_flag(arg: &str) -> (r: bool)
    ensures
        r == is_flag(arg@),
{
    let chars = to_chars(arg);
    chars.len() > 0 && chars[0] == '-' && !same(arg, "-")
}

/// Texts one after the other, with a separator between two.
pub fn join_texts(parts: &Vec<Vec<char>>, sep: &str) -> (r: String)
    ensures
        r@ == join(rows(parts@), sep@),
{
    let ghost all = rows(parts@);
    let mut out = String::new();
    let mut i: usize = 0;
    assert(all.take(0) =~= Seq::empty());
    assert(out@ =~= join(all.take(0), sep@));
    while i < parts.len()
        invariant
            i <= parts@.len(),
            all == rows(parts@),
            out@ == join(all.take(i as int), sep@),
        decreases parts@.len() - i,
    {
        proof {
            let next = all.take(i + 1);
            assert(next.drop_last() =~= all.take(i as int));
            assert(next.last() == parts@[i as int]@);
        }
        if i > 0 {
            out.append(sep);
        }
        let ghost before = out@;
        out.append(to_text(parts[i].as_slice()).as_str());
        if i == 0 {
            assert(out@ =~= parts@[0]@);
        }
        i += 1;
    }
    assert(all.take(i as int) =~= all);
    out
}

fn char_rows(list: &Vec<String>) -> (r: Vec<Vec<char>>)
    ensures
        rows(r@) == texts(list@),
{
    let mut out: Vec<Vec<char>> = Vec::new();
    let mut i: usize = 0;
    while i < list.len()
        invariant
            i <= list@.len(),
            out@.len() == i,
            forall|j: int| 0 <= j < i ==> (#[trigger] out@[j])@ == list@[j]@,
        decreases list@.len() - i,
    {
        out.push(to_chars(list[i].as_str()));
        i += 1;
    }
    assert(rows(out@) =~= texts(list@));
    out
}

fn copy_tail(list: &[String], from: usize) -> (r: Vec<String>)
    requires
        from <= list@.len(),
    ensures
        texts(r@) == texts(list@).skip(from as int),
{
    let mut out: Vec<String> = Vec::new();
    let mut i: usize = from;
    while i < list.len()
        invariant
            from <= i <= list@.len(),
            out@.len() == i - from,
            forall|j: int| 0 <= j < i - from ==> (#[trigger] out@[j])@ == list@[j + from]@,
        decreases list@.len() - i,
    {
        out.push(list[i].clone());
        i += 1;
    }
    assert(texts(out@) =~= texts(list@).skip(from as int));
    out
}

/// Parses the command line. Flags come first; the first argument that is not
/// one, or what follows `--`, starts the paths.
pub fn parse_args(args: &[String]) -> (r: ParseOutcome)
    ensures
        r@ == parsed(texts(args@)),
{
    let ghost all = texts(args@);
    let mut p = ArgParser { args, i: 0, negative: Vec::new(), flags: Flags::default() };
    let ghost start = ParserView { flags: FlagsView::unset(), at: 0, negative: Seq::empty() };
    assert(p@ =~= start);
    while p.i < args.len()
        invariant_except_break
            walked(all, start) == walked(all, p@),
        invariant
            p.args == args,
            p.i <= args@.len(),
            all == texts(args@),
            start == (ParserView { flags: FlagsView::unset(), at: 0, negative: Seq::empty() }),
        ensures
            p.i <= args@.len(),
            walked(all, start) == Ok::<ParserView, Halt>(p@),
        decreases args@.len() - p.i,
    {
        let arg = args[p.i].as_str();
        assert(all[p.i as int] == arg@);
        if same(arg, "--") {
            let ghost before = p@;
            p.i += 1;
            assert(p@ =~= (ParserView { at: before.at + 1, ..before }));
            assert(walked(all, start) == Ok::<ParserView, Halt>(p@));
            break;
        }
        if !looks_like_flag(arg) {
            break;
        }
        match p.take_flag() {
            Ok(_) => {},
            Err(Stop::Help) => return ParseOutcome::Help,
            Err(Stop::Fault(m)) => return ParseOutcome::Fault(m),
        }
    }
    if p.negative.len() > 0 {
        let names = sort_texts(char_rows(&p.negative).as_slice());
        let mut m = join_texts(&names, ", ");
        m.append(" must be zero or more (0 disables the check)");
        return ParseOutcome::Fault(m);
    }
    let paths = copy_tail(args, p.i);
    let mut f = p.flags;
    f.paths = paths;
    ParseOutcome::Flags(f)
}

/// The rules of a list that do not exist.
pub open spec fn unknown_rules(rules: Seq<Seq<char>>) -> Seq<Seq<char>>
    decreases rules.len(),
{
    if rules.len() == 0 {
        Seq::empty()
    } else {
        let rest = unknown_rules(rules.drop_last());
        if ids().contains(rules.last()) {
            rest
        } else {
            rest.push(rules.last())
        }
    }
}

/// Texts as `{:?}` writes them.
pub open spec fn quoted_all(list: Seq<Seq<char>>) -> Seq<Seq<char>> {
    Seq::new(list.len(), |i: int| debug_text(list[i]))
}

/// What is wrong with the rules that are to be disabled.
pub open spec fn disable_fault(rules: Seq<Seq<char>>) -> Option<Seq<char>> {
    let unknown = unknown_rules(rules);
    if unknown.len() == 0 {
        None
    } else {
        Some(
            "unknown rule "@ + join(quoted_all(sorted(unknown)), ", "@)
                + " in --disable: run --list-rules to see them all"@,
        )
    }
}

/// Rejects typos in `--disable` rather than silently doing nothing.
pub fn check_rule_names(rules: &Vec<String>) -> (r: Option<String>)
    ensures
        opt_view(r) == disable_fault(texts(rules@)),
{
    let ghost all = texts(rules@);
    let mut unknown: Vec<Vec<char>> = Vec::new();
    let mut i: usize = 0;
    assert(all.take(0) =~= Seq::empty());
    assert(rows(unknown@) =~= Seq::empty());
    while i < rules.len()
        invariant
            i <= rules@.len(),
            all == texts(rules@),
            rows(unknown@) == unknown_rules(all.take(i as int)),
        decreases rules@.len() - i,
    {
        proof {
            let next = all.take(i + 1);
            assert(next.drop_last() =~= all.take(i as int));
            assert(next.last() == rules@[i as int]@);
        }
        if !is_rule(rules[i].as_str()) {
            let chars = to_chars(rules[i].as_str());
            assert(rows(unknown@.push(chars)) =~= rows(unknown@).push(chars@));
            unknown.push(chars);
        }
        i += 1;
    }
    assert(all.take(i as int) =~= all);
    if unknown.len() == 0 {
        return None;
    }
    let names = sort_texts(unknown.as_slice());
    let ghost order = rows(names@);
    let mut shown: Vec<Vec<char>> = Vec::new();
    let mut k: usize = 0;
    while k < names.len()
        invariant
            k <= names@.len(),
            order == rows(names@),
            shown@.len() == k,
            forall|j: int| 0 <= j < k ==> (#[trigger] shown@[j])@ == debug_text(order[j]),
        decreases names@.len() - k,
    {
        let text = quoted(to_text(names[k].as_slice()).as_str());
        shown.push(to_chars(text.as_str()));
        k += 1;
    }
    assert(rows(shown@) =~= quoted_all(order));
    let mut m = "unknown rule ".to_string();
    m.append(join_texts(&shown, ", ").as_str());
    m.append(" in --disable: run --list-rules to see them all");
    Some(m)
}

/// Whether text output gets colorized. `always` and `never` are absolute;
/// otherwise it follows the `NO_COLOR` and `CLICOLOR_FORCE` conventions and
/// colors only on a terminal.
pub open spec fn wants_color(
    choice: Seq<char>,
    no_color: bool,
    force: Option<Seq<char>>,
    is_terminal: bool,
) -> bool {
    if choice == "always"@ {
        true
    } else if choice == "never"@ || no_color {
        false
    } else if force is Some && force != Some("0"@) {
        true
    } else {
        is_terminal
    }
}

/// Decides whether text output gets colorized and decorated with symbols.
/// `--color=always`/`never` are absolute; `auto` (the default) follows the
/// [`NO_COLOR`](https://no-color.org) and `CLICOLOR_FORCE` conventions and
/// otherwise colors only when the caller's stdout is a terminal. `no_color`
/// says whether the first is set, and `force` is the value of the second.
pub fn resolve_color(choice: &str, no_color: bool, force: &Option<String>, is_terminal: bool) -> (r:
    bool)
    ensures
        r == wants_color(choice@, no_color, opt_view(*force), is_terminal),
{
    if same(choice, "always") {
        return true;
    }
    if same(choice, "never") || no_color {
        return false;
    }
    if let Some(v) = force {
        if !same(v.as_str(), "0") {
            return true;
        }
    }
    is_terminal
}

/// The command line's help, up to the first default.
pub const USAGE_HEAD: &'static str = "lintmatter lints agent instruction files: AGENTS.md and SKILL.md.

Usage:
  lintmatter [flags] [path...]

Paths may be files or directories; directories are walked recursively for
AGENTS.md and SKILL.md. With no path given, the current directory is used.

For skills, YAML front matter is validated against the skill spec. For both
kinds, token budgets are enforced on the content, and on a skill's name and
description.

Token budgets, excludes and rules can also live in a config file: the nearest
.lintmatter.yaml (or .lintmatter.yml) at or above the working directory is read
automatically. Flags win over the file.

  max-skill-tokens: 3000
  exclude:
    - testdata
  rules:
    name.dir-mismatch: false

Exit codes: 0 clean (warnings still exit 0), 1 errors found, 2 bad usage.

Flags:
  --max-agents-tokens int              token budget for AGENTS.md content, 0 disables (default ";

pub const USAGE_SKILL: &'static str = ")
  --max-skill-tokens int                token budget for SKILL.md content, 0 disables (default ";

pub const USAGE_NAME: &'static str = ")
  --max-skill-name-tokens int           token budget for a skill's name, 0 disables (default ";

pub const USAGE_DESCRIPTION: &'static str = ")
  --max-skill-description-tokens int    token budget for a skill's description, 0 disables (default ";

/// The command line's help, from the last default on.
pub const USAGE_TAIL: &'static str = ")
  --exclude glob                        glob of paths to skip; repeatable
  --disable rule                        rule id to skip; repeatable
  --config path                         read settings from this file instead of searching
  --no-config                           ignore any config file
  --strict                              treat warnings as errors
  --quiet                               report errors only
  --format text|json                    output format (default \"text\")
  --color auto|always|never             colorize and decorate text output (default \"auto\")
  --list-rules                          print every rule id and exit
  --version                             print the version and exit
";

/// The command line's help. The defaults in it are those that are used.
pub open spec fn usage_text() -> Seq<char> {
    USAGE_HEAD@ + decimal_int(DEFAULT_MAX_AGENTS_TOKENS as int) + USAGE_SKILL@ + decimal_int(
        DEFAULT_MAX_SKILL_TOKENS as int,
    ) + USAGE_NAME@ + decimal_int(DEFAULT_MAX_SKILL_NAME_TOKENS as int) + USAGE_DESCRIPTION@
        + decimal_int(DEFAULT_MAX_SKILL_DESCRIPTION_TOKENS as int) + USAGE_TAIL@
}

/// The command line's help.
pub fn usage() -> (r: String)
    ensures
        r@ == usage_text(),
{
    let mut out = USAGE_HEAD.to_string();
    out.append(write_integer(DEFAULT_MAX_AGENTS_TOKENS).as_str());
    out.append(USAGE_SKILL);
    out.append(write_integer(DEFAULT_MAX_SKILL_TOKENS).as_str());
    out.append(USAGE_NAME);
    out.append(write_integer(DEFAULT_MAX_SKILL_NAME_TOKENS).as_str());
    out.append(USAGE_DESCRIPTION);
    out.append(write_integer(DEFAULT_MAX_SKILL_DESCRIPTION_TOKENS).as_str());
    out.append(USAGE_TAIL);
    out
}

/// The reported build version.
pub const VERSION: &'static str = "0.1.0";

/// Rule ids, one to a line.
pub open spec fn id_lines(list: Seq<Seq<char>>) -> Seq<char>
    decreases list.len(),
{
    if list.len() == 0 {
        Seq::empty()
    } else {
        id_lines(list.drop_last()) + list.last() + "\n"@
    }
}

/// Every rule id, one to a line, in report order.
pub fn list_rules() -> (r: String)
    ensures
        r@ == id_lines(ids()),
{
    let all = rule_ids();
    let ghost list = strs(all@);
    let mut out = String::new();
    let mut i: usize = 0;
    assert(list.take(0) =~= Seq::empty());
    assert(out@ =~= Seq::empty());
    while i < all.len()
        invariant
            i <= all@.len(),
            list == strs(all@),
            out@ == id_lines(list.take(i as int)),
        decreases all@.len() - i,
    {
        proof {
            let next = list.take(i + 1);
            assert(next.drop_last() =~= list.take(i as int));
            assert(next.last() == all@[i as int]@);
        }
        out.append(all[i]);
        out.append("\n");
        i += 1;
    }
    assert(list.take(i as int) =~= list);
    out
}

/// A flag for a budget always wins; without one the config file's budget
/// stands, and without either the default.
pub proof fn lemma_precedence(f: FlagsView, cfg: SettingsView)
    ensures
        f.max_agents_tokens matches Some(n) ==> resolved(f, cfg).config.max_agents_tokens == n,
        f.max_agents_tokens is None ==> (cfg.max_agents_tokens matches Some(n) ==> resolved(
            f,
            cfg,
        ).config.max_agents_tokens == n),
        f.max_agents_tokens is None && cfg.max_agents_tokens is None ==> resolved(
            f,
            cfg,
        ).config.max_agents_tokens == DEFAULT_MAX_AGENTS_TOKENS,
        f.max_skill_tokens matches Some(n) ==> resolved(f, cfg).config.max_skill_tokens == n,
        f.max_skill_tokens is None ==> (cfg.max_skill_tokens matches Some(n) ==> resolved(
            f,
            cfg,
        ).config.max_skill_tokens == n),
        f.max_skill_tokens is None && cfg.max_skill_tokens is None ==> resolved(
            f,
            cfg,
        ).config.max_skill_tokens == DEFAULT_MAX_SKILL_TOKENS,
        f.max_skill_name_tokens matches Some(n) ==> resolved(f, cfg).config.max_skill_name_tokens
            == n,
        f.max_skill_name_tokens is None ==> (cfg.max_skill_name_tokens matches Some(n) ==> resolved(
            f,
            cfg,
        ).config.max_skill_name_tokens == n),
        f.max_skill_name_tokens is None && cfg.max_skill_name_tokens is None ==> resolved(
            f,
            cfg,
        ).config.max_skill_name_tokens == DEFAULT_MAX_SKILL_NAME_TOKENS,
        f.max_skill_description_tokens matches Some(n) ==> resolved(
            f,
            cfg,
        ).config.max_skill_description_tokens == n,
        f.max_skill_description_tokens is None ==> (cfg.max_skill_description_tokens matches Some(n)
            ==> resolved(f, cfg).config.max_skill_description_tokens == n),
        f.max_skill_description_tokens is None && cfg.max_skill_description_tokens is None
            ==> resolved(f, cfg).config.max_skill_description_tokens
            == DEFAULT_MAX_SKILL_DESCRIPTION_TOKENS,
{
}

/// Lists add up: everything the file or the command line excludes or disables
/// is excluded or disabled. The file has no say over how a run reports.
pub proof fn lemma_lists_add_up(f: FlagsView, cfg: SettingsView, x: Seq<char>)
    ensures
        resolved(f, cfg).excludes.contains(x) <==> cfg.excludes.contains(x) || f.excludes.contains(
            x,
        ),
        resolved(f, cfg).config.disabled.contains(x) <==> cfg.disabled.contains(x)
            || f.disabled.contains(x),
        resolved(f, cfg).format == f.format,
        resolved(f, cfg).color == f.color,
        resolved(f, cfg).quiet == f.quiet,
        resolved(f, cfg).config.strict == f.strict,
{
    lemma_contains_either(cfg.excludes, f.excludes, x);
    lemma_contains_either(cfg.disabled, f.disabled, x);
}

proof fn lemma_contains_either(a: Seq<Seq<char>>, b: Seq<Seq<char>>, x: Seq<char>)
    ensures
        (a + b).contains(x) <==> a.contains(x) || b.contains(x),
{
    if a.contains(x) {
        let i = choose|i: int| 0 <= i < a.len() && a[i] == x;
        assert((a + b)[i] == x);
    }
    if b.contains(x) {
        let i = choose|i: int| 0 <= i < b.len() && b[i] == x;
        assert((a + b)[a.len() + i] == x);
    }
    if (a + b).contains(x) {
        let i = choose|i: int| 0 <= i < (a + b).len() && (a + b)[i] == x;
        if i < a.len() {
            assert(a[i] == x);
        } else {
            assert(b[i - a.len()] == x);
        }
    }
}

/// Naming no path is naming the current directory.
pub proof fn lemma_default_path(f: FlagsView, cfg: SettingsView)
    requires
        f.paths.len() == 0,
    ensures
        resolved(f, cfg) == resolved((FlagsView { paths: seq!["."@], ..f }), cfg),
{
    assert(resolved(f, cfg) =~= resolved((FlagsView { paths: seq!["."@], ..f }), cfg));
}

/// Whether a flag takes a value.
pub open spec fn takes_value(name: Seq<char>) -> bool {
    is_budget(name) || takes_text(name) || takes_nonempty(name)
}

/// Whether arguments, from one on, are flags and their values alone: no path,
/// and no `--` that ends the flags.
pub open spec fn only_flags(args: Seq<Seq<char>>, at: int) -> bool
    decreases args.len() - at,
{
    if at < 0 || at >= args.len() {
        at == args.len()
    } else {
        let (name, inline) = flag_parts(args[at]);
        &&& args[at] != "--"@
        &&& is_flag(args[at])
        &&& if takes_value(name) && inline is None {
            at + 1 < args.len() && only_flags(args, at + 2)
        } else {
            only_flags(args, at + 1)
        }
    }
}

/// A switch takes no value.
proof fn lemma_switches()
    ensures
        !takes_value("h"@),
        !takes_value("help"@),
        !takes_value("version"@),
        !takes_value("list-rules"@),
        !takes_value("strict"@),
        !takes_value("quiet"@),
        !takes_value("no-config"@),
{
    reveal_strlit("h");
    reveal_strlit("help");
    reveal_strlit("version");
    reveal_strlit("list-rules");
    reveal_strlit("strict");
    reveal_strlit("quiet");
    reveal_strlit("no-config");
    reveal_strlit("format");
    reveal_strlit("color");
    reveal_strlit("config");
    reveal_strlit("exclude");
    reveal_strlit("disable");
    reveal_strlit("max-agents-tokens");
    reveal_strlit("max-skill-tokens");
    reveal_strlit("max-skill-name-tokens");
    reveal_strlit("max-skill-description-tokens");
    assert("h"@.len() == 1 && "help"@.len() == 4 && "format"@.len() == 6 && "color"@.len() == 5
        && "config"@.len() == 6 && "exclude"@.len() == 7 && "disable"@.len() == 7);
    assert("max-agents-tokens"@.len() == 17 && "max-skill-tokens"@.len() == 16
        && "max-skill-name-tokens"@.len() == 21 && "max-skill-description-tokens"@.len() == 28);
    assert("strict"@[0] == 's' && "format"@[0] == 'f' && "config"@[0] == 'c');
    assert("quiet"@[0] == 'q' && "color"@[0] == 'c');
    assert("version"@[0] == 'v' && "exclude"@[0] == 'e' && "disable"@[0] == 'd');
}

proof fn lemma_walk_on(args: Seq<Seq<char>>, p: ParserView)
    requires
        0 <= p.at,
        only_flags(args, p.at),
    ensures
        walked(args.push("."@), p) == walked(args, p),
        walked(args, p) matches Ok(q) ==> q.at == args.len(),
    decreases args.len() - p.at,
{
    reveal_strlit(".");
    reveal_strlit("--");
    let more = args.push("."@);
    if p.at < args.len() {
        lemma_switches();
        assert(more[p.at] == args[p.at]);
        if p.at + 1 < args.len() {
            assert(more[p.at + 1] == args[p.at + 1]);
        }
        assert(flag_taken(more, p) == flag_taken(args, p));
        if let Ok(next) = flag_taken(args, p) {
            assert(next.at == p.at + 1 || next.at == p.at + 2);
            lemma_walk_on(args, next);
        }
    } else {
        assert(more[p.at] == "."@);
        assert("."@[0] == '.');
        assert("--"@[0] == '-');
    }
}

/// A command line without a path comes to what it comes to with the current
/// directory as its path.
pub proof fn lemma_no_path(args: Seq<Seq<char>>)
    requires
        only_flags(args, 0),
    ensures
        match parsed(args) {
            ParsedView::Flags(f) => f.paths.len() == 0 && parsed(args.push("."@))
                == ParsedView::Flags(FlagsView { paths: seq!["."@], ..f }),
            other => parsed(args.push("."@)) == other,
        },
{
    let start = ParserView { flags: FlagsView::unset(), at: 0, negative: Seq::empty() };
    lemma_walk_on(args, start);
    if let Ok(q) = walked(args, start) {
        assert(args.skip(q.at).len() == 0);
        assert(args.push("."@).skip(q.at) =~= seq!["."@]);
    }
}

} // verus!
