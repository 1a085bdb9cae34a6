//! What the words of a command line ask for.

use vstd::prelude::*;

use crate::cli::{
    disable_fault, flag_parts, flag_taken, id_lines, parsed, quoted_all, resolved, unknown_rules,
    walked, wants_color, FlagsView, Halt, ParsedView, ParserView,
};
use crate::config::SettingsView;
use crate::lint::ids::ids;
use crate::number::i64_of;
use crate::order::sorted;
use crate::text::{debug_text, first_index, join, lemma_first_index_is};

verus! {

/// A flag is a name behind one dash or two, and may carry a value behind an
/// equals sign.
pub proof fn lemma_flag_parts(name: Seq<char>, value: Seq<char>)
    requires
        !name.contains('='),
        name.len() > 0 && name[0] != '-',
    ensures
        flag_parts(seq!['-'] + name) == (name, None::<Seq<char>>),
        flag_parts(seq!['-', '-'] + name) == (name, None::<Seq<char>>),
        flag_parts(seq!['-'] + (name + seq!['='] + value)) == (name, Some(value)),
        flag_parts(seq!['-', '-'] + (name + seq!['='] + value)) == (name, Some(value)),
{
    lemma_dashes(name);
    let s = name + seq!['='] + value;
    let n = name.len() as int;
    lemma_first_index_is(name, '=', 0, n);
    assert(s[n] == '=');
    assert(forall|j: int| 0 <= j < n ==> #[trigger] s[j] == name[j]);
    lemma_first_index_is(s, '=', 0, n);
    assert(s.take(n) =~= name);
    assert(s.skip(n + 1) =~= value);
    lemma_dashes(s);
}

/// What a flag is without its dashes.
spec fn stripped_parts(s: Seq<char>) -> (Seq<char>, Option<Seq<char>>) {
    let at = first_index(s, '=', 0);
    if at < s.len() {
        (s.take(at), Some(s.skip(at + 1)))
    } else {
        (s, None)
    }
}

proof fn lemma_dashes(s: Seq<char>)
    requires
        s.len() > 0,
        s[0] != '-',
    ensures
        flag_parts(seq!['-'] + s) == stripped_parts(s),
        flag_parts(seq!['-', '-'] + s) == stripped_parts(s),
{
    let one = seq!['-'] + s;
    let two = seq!['-', '-'] + s;
    assert(two.take(2) =~= seq!['-', '-']);
    assert(seq!['-', '-'].is_prefix_of(two));
    assert(two.skip(2) =~= s);
    assert(one.skip(1) =~= s);
    assert(!seq!['-', '-'].is_prefix_of(one)) by {
        if seq!['-', '-'].is_prefix_of(one) {
            assert(one.take(2)[1] == seq!['-', '-'][1]);
            assert(one[1] == s[0]);
        }
    }
}

proof fn lemma_apart()
    ensures
        "h"@.len() == 1,
        "help"@.len() == 4,
        "version"@.len() == 7 && "version"@[0] == 'v',
        "list-rules"@.len() == 10,
        "strict"@.len() == 6 && "strict"@[0] == 's',
        "quiet"@.len() == 5 && "quiet"@[0] == 'q',
        "no-config"@.len() == 9,
        "format"@.len() == 6 && "format"@[0] == 'f',
        "color"@.len() == 5 && "color"@[0] == 'c',
        "config"@.len() == 6 && "config"@[0] == 'c',
        "exclude"@.len() == 7 && "exclude"@[0] == 'e',
        "disable"@.len() == 7 && "disable"@[0] == 'd',
        "max-agents-tokens"@.len() == 17,
        "max-skill-tokens"@.len() == 16,
        "max-skill-name-tokens"@.len() == 21,
        "max-skill-description-tokens"@.len() == 28,
{
    reveal_strlit("h");
    reveal_strlit("help");
    reveal_strlit("version");
    reveal_strlit("list-rules");
    reveal_strlit("strict");
    reveal_strlit("quiet");
    reveal_strlit("no-config");
    reveal_strlit("format");
    reveal_strlit("color");
    reveal_strlit("config");
    reveal_strlit("exclude");
    reveal_strlit("disable");
    reveal_strlit("max-agents-tokens");
    reveal_strlit("max-skill-tokens");
    reveal_strlit("max-skill-name-tokens");
    reveal_strlit("max-skill-description-tokens");
}

/// Whether a walk goes on with other flags behind `words` words.
pub open spec fn goes_on(
    r: Result<ParserView, Halt>,
    p: ParserView,
    flags: FlagsView,
    words: int,
) -> bool {
    r matches Ok(q) && q.flags == flags && q.at == p.at + words && q.negative == p.negative
}

/// Whether a switch is on: given alone, or with anything but `false` and `0`.
pub open spec fn is_on(value: Option<Seq<char>>) -> bool {
    value != Some("false"@) && value != Some("0"@)
}

/// A switch takes one word and sets its own setting alone.
pub proof fn lemma_switches(args: Seq<Seq<char>>, p: ParserView, value: Option<Seq<char>>)
    ensures
        flag_parts(args[p.at]) == ("strict"@, value) ==> goes_on(
            flag_taken(args, p),
            p,
            (FlagsView { strict: is_on(value), ..p.flags }),
            1,
        ),
        flag_parts(args[p.at]) == ("quiet"@, value) ==> goes_on(
            flag_taken(args, p),
            p,
            (FlagsView { quiet: is_on(value), ..p.flags }),
            1,
        ),
        flag_parts(args[p.at]) == ("no-config"@, value) ==> goes_on(
            flag_taken(args, p),
            p,
            (FlagsView { no_config: is_on(value), ..p.flags }),
            1,
        ),
        flag_parts(args[p.at]) == ("version"@, value) ==> goes_on(
            flag_taken(args, p),
            p,
            (FlagsView { show_version: true, ..p.flags }),
            1,
        ),
        flag_parts(args[p.at]) == ("list-rules"@, value) ==> goes_on(
            flag_taken(args, p),
            p,
            (FlagsView { list_rules: true, ..p.flags }),
            1,
        ),
        flag_parts(args[p.at]) == ("help"@, value) || flag_parts(args[p.at]) == ("h"@, value)
            ==> flag_taken(args, p) == Err::<ParserView, Halt>(Halt::Help),
{
    lemma_apart();
}

/// The value of a flag: the one it carries, or else the next word. It is the
/// number of words that the two take together, and the value.
pub open spec fn given(args: Seq<Seq<char>>, at: int, value: Option<Seq<char>>) -> Option<
    (int, Seq<char>),
> {
    match value {
        Some(v) => Some((1, v)),
        None => if at + 1 < args.len() {
            Some((2, args[at + 1]))
        } else {
            None
        },
    }
}

/// A flag with a value sets its own setting to it, or adds it to its own list.
/// The last of several wins where there is one setting.
pub proof fn lemma_values(
    args: Seq<Seq<char>>,
    p: ParserView,
    value: Option<Seq<char>>,
    words: int,
    v: Seq<char>,
)
    requires
        given(args, p.at, value) == Some((words, v)),
    ensures
        flag_parts(args[p.at]) == ("format"@, value) ==> goes_on(
            flag_taken(args, p),
            p,
            (FlagsView { format: v, ..p.flags }),
            words,
        ),
        flag_parts(args[p.at]) == ("color"@, value) ==> goes_on(
            flag_taken(args, p),
            p,
            (FlagsView { color: v, ..p.flags }),
            words,
        ),
        flag_parts(args[p.at]) == ("config"@, value) && v.len() > 0 ==> goes_on(
            flag_taken(args, p),
            p,
            (FlagsView { config: Some(v), ..p.flags }),
            words,
        ),
        flag_parts(args[p.at]) == ("exclude"@, value) && v.len() > 0 ==> goes_on(
            flag_taken(args, p),
            p,
            (FlagsView { excludes: p.flags.excludes.push(v), ..p.flags }),
            words,
        ),
        flag_parts(args[p.at]) == ("disable"@, value) && v.len() > 0 ==> goes_on(
            flag_taken(args, p),
            p,
            (FlagsView { disabled: p.flags.disabled.push(v), ..p.flags }),
            words,
        ),
        v.len() == 0 ==> forall|name: Seq<char>|
            (name == "config"@ || name == "exclude"@ || name == "disable"@) && flag_parts(args[p.at])
                == (name, value) ==> flag_taken(args, p) == Err::<ParserView, Halt>(
                Halt::Fault(#[trigger] ("--"@ + name) + " value must not be empty"@),
            ),
{
    lemma_apart();
}

/// Whether a name is that of a budget.
pub open spec fn names_budget(name: Seq<char>) -> bool {
    name == "max-agents-tokens"@ || name == "max-skill-tokens"@ || name == "max-skill-name-tokens"@
        || name == "max-skill-description-tokens"@
}

/// A flag for a budget takes an integer and sets its own budget to it. A
/// negative one is noted.
pub proof fn lemma_budget_flags(
    args: Seq<Seq<char>>,
    p: ParserView,
    name: Seq<char>,
    value: Option<Seq<char>>,
    words: int,
    v: Seq<char>,
)
    requires
        flag_parts(args[p.at]) == (name, value),
        names_budget(name),
        given(args, p.at, value) == Some((words, v)),
    ensures
        i64_of(v) is None ==> flag_taken(args, p) == Err::<ParserView, Halt>(
            Halt::Fault(
                "invalid value "@ + debug_text(v) + " for flag --"@ + name + ": not an integer"@,
            ),
        ),
        i64_of(v) matches Some(n) ==> {
            &&& flag_taken(args, p) matches Ok(q)
            &&& q.at == p.at + words
            &&& q.negative == if n < 0 {
                p.negative.push("--"@ + name)
            } else {
                p.negative
            }
            &&& name == "max-agents-tokens"@ ==> q.flags == (FlagsView {
                max_agents_tokens: Some(n as i64),
                ..p.flags
            })
            &&& name == "max-skill-tokens"@ ==> q.flags == (FlagsView {
                max_skill_tokens: Some(n as i64),
                ..p.flags
            })
            &&& name == "max-skill-name-tokens"@ ==> q.flags == (FlagsView {
                max_skill_name_tokens: Some(n as i64),
                ..p.flags
            })
            &&& name == "max-skill-description-tokens"@ ==> q.flags == (FlagsView {
                max_skill_description_tokens: Some(n as i64),
                ..p.flags
            })
        },
{
    lemma_apart();
}

/// Whether a name is that of a flag with a value.
pub open spec fn names_value(name: Seq<char>) -> bool {
    names_budget(name) || name == "format"@ || name == "color"@ || name == "config"@ || name
        == "exclude"@ || name == "disable"@
}

/// Whether a name is that of a switch.
pub open spec fn names_switch(name: Seq<char>) -> bool {
    name == "h"@ || name == "help"@ || name == "version"@ || name == "list-rules"@ || name
        == "strict"@ || name == "quiet"@ || name == "no-config"@
}

/// A flag that needs a value and has none is a fault, and so is any flag that
/// there is not.
pub proof fn lemma_flag_faults(args: Seq<Seq<char>>, p: ParserView, name: Seq<char>, value: Option<Seq<char>>)
    requires
        flag_parts(args[p.at]) == (name, value),
    ensures
        names_value(name) && given(args, p.at, value) is None ==> flag_taken(args, p) == Err::<
            ParserView,
            Halt,
        >(Halt::Fault("flag needs an argument: --"@ + name)),
        !names_value(name) && !names_switch(name) ==> flag_taken(args, p) == Err::<ParserView, Halt>(
            Halt::Fault("flag provided but not defined: -"@ + name),
        ),
{
    lemma_apart();
}

/// Flags are read up to the first word that is none: a word without a dash in
/// front, a dash alone, or two dashes, which are passed over.
pub proof fn lemma_walk(args: Seq<Seq<char>>, p: ParserView)
    requires
        0 <= p.at <= args.len(),
    ensures
        p.at == args.len() ==> walked(args, p) == Ok::<ParserView, Halt>(p),
        p.at < args.len() && args[p.at] == seq!['-', '-'] ==> walked(args, p) == Ok::<
            ParserView,
            Halt,
        >(ParserView { at: p.at + 1, ..p }),
        p.at < args.len() && (args[p.at].len() == 0 || args[p.at][0] != '-' || args[p.at] == seq!['-'])
            ==> walked(args, p) == Ok::<ParserView, Halt>(p),
        p.at < args.len() && args[p.at].len() >= 2 && args[p.at][0] == '-' && args[p.at] != seq![
            '-',
            '-',
        ] ==> walked(args, p) == match flag_taken(args, p) {
            Ok(q) => walked(args, q),
            Err(h) => Err(h),
        },
{
    reveal_strlit("--");
    reveal_strlit("-");
    assert("--"@ =~= seq!['-', '-']);
    assert("-"@ =~= seq!['-']);
}

/// A command line starts from the defaults and comes to its flags and, as
/// paths, to the words that are left; or to help, or to what is wrong with it.
/// A budget below zero is wrong.
pub proof fn lemma_command_line(args: Seq<Seq<char>>)
    ensures
        ({
            let start = ParserView {
                flags: FlagsView {
                    max_agents_tokens: None,
                    max_skill_tokens: None,
                    max_skill_name_tokens: None,
                    max_skill_description_tokens: None,
                    format: "text"@,
                    color: "auto"@,
                    strict: false,
                    quiet: false,
                    show_version: false,
                    list_rules: false,
                    excludes: Seq::empty(),
                    disabled: Seq::empty(),
                    config: None,
                    no_config: false,
                    paths: Seq::empty(),
                },
                at: 0,
                negative: Seq::empty(),
            };
            match walked(args, start) {
                Ok(q) => if q.negative.len() == 0 {
                    parsed(args) == ParsedView::Flags(
                        FlagsView { paths: args.skip(q.at), ..q.flags },
                    )
                } else {
                    parsed(args) == ParsedView::Fault(
                        join(sorted(q.negative), ", "@)
                            + " must be zero or more (0 disables the check)"@,
                    )
                },
                Err(Halt::Help) => parsed(args) == ParsedView::Help,
                Err(Halt::Fault(m)) => parsed(args) == ParsedView::Fault(m),
            }
        }),
{
}

/// The budgets that hold where nobody sets others.
pub proof fn lemma_default_budgets(f: FlagsView, cfg: SettingsView)
    ensures
        f.max_agents_tokens is None && cfg.max_agents_tokens is None ==> resolved(
            f,
            cfg,
        ).config.max_agents_tokens == 2500,
        f.max_skill_tokens is None && cfg.max_skill_tokens is None ==> resolved(
            f,
            cfg,
        ).config.max_skill_tokens == 5000,
        f.max_skill_name_tokens is None && cfg.max_skill_name_tokens is None ==> resolved(
            f,
            cfg,
        ).config.max_skill_name_tokens == 16,
        f.max_skill_description_tokens is None && cfg.max_skill_description_tokens is None
            ==> resolved(f, cfg).config.max_skill_description_tokens == 100,
        f.paths.len() > 0 ==> resolved(f, cfg).paths == f.paths,
        f.paths.len() == 0 ==> resolved(f, cfg).paths == seq!["."@],
        resolved(f, cfg).excludes == cfg.excludes + f.excludes,
        resolved(f, cfg).config.disabled == cfg.disabled + f.disabled,
{
}

/// Output is in color where that is asked for, and not where it is asked not to
/// be; else where nothing forbids it and either something forces it or it goes
/// to a terminal.
pub proof fn lemma_color(choice: Seq<char>, no_color: bool, force: Option<Seq<char>>, terminal: bool)
    ensures
        choice == "always"@ ==> wants_color(choice, no_color, force, terminal),
        choice == "never"@ ==> !wants_color(choice, no_color, force, terminal),
        choice != "always"@ && choice != "never"@ ==> (wants_color(choice, no_color, force, terminal)
            <==> !no_color && (terminal || (force is Some && force->Some_0 != "0"@))),
{
    reveal_strlit("always");
    reveal_strlit("never");
    assert("always"@.len() == 6 && "never"@.len() == 5);
}

/// Rules can be disabled that there are. The others are named together, in the
/// order of their names.
pub proof fn lemma_disable(rules: Seq<Seq<char>>)
    ensures
        unknown_rules(rules) == rules.filter(|r: Seq<char>| !ids().contains(r)),
        disable_fault(rules) is None <==> forall|i: int|
            0 <= i < rules.len() ==> ids().contains(#[trigger] rules[i]),
        disable_fault(rules) matches Some(m) ==> m == "unknown rule "@ + join(
            quoted_all(sorted(rules.filter(|r: Seq<char>| !ids().contains(r)))),
            ", "@,
        ) + " in --disable: run --list-rules to see them all"@,
{
    lemma_unknown(rules);
}

proof fn lemma_unknown(rules: Seq<Seq<char>>)
    ensures
        unknown_rules(rules) == rules.filter(|r: Seq<char>| !ids().contains(r)),
        unknown_rules(rules).len() == 0 <==> forall|i: int|
            0 <= i < rules.len() ==> ids().contains(#[trigger] rules[i]),
    decreases rules.len(),
{
    reveal(Seq::filter);
    if rules.len() > 0 {
        let init = rules.drop_last();
        lemma_unknown(init);
        assert(rules[rules.len() - 1] == rules.last());
        assert(forall|i: int| 0 <= i < init.len() ==> #[trigger] init[i] == rules[i]);
        if unknown_rules(rules).len() == 0 {
            assert forall|i: int| 0 <= i < rules.len() implies ids().contains(#[trigger] rules[i]) by {
                if i < init.len() {
                    assert(ids().contains(init[i]));
                }
            }
        }
    } else {
        assert(unknown_rules(rules) =~= rules.filter(|r: Seq<char>| !ids().contains(r)));
    }
}

/// A list of rules has a line for each, in order.
pub proof fn lemma_id_lines(a: Seq<Seq<char>>, id: Seq<char>)
    ensures
        id_lines(Seq::empty()) == Seq::<char>::empty(),
        id_lines(a.push(id)) == id_lines(a) + id + "\n"@,
{
    assert(a.push(id).drop_last() =~= a);
}

/// There are seventeen rules.
pub proof fn lemma_rules()
    ensures
        ids() == seq![
            "frontmatter.missing"@,
            "frontmatter.not-first"@,
            "frontmatter.unterminated"@,
            "frontmatter.invalid"@,
            "frontmatter.unknown-key"@,
            "name.required"@,
            "name.format"@,
            "name.length"@,
            "name.dir-mismatch"@,
            "description.required"@,
            "description.length"@,
            "allowed-tools.type"@,
            "metadata.type"@,
            "tokens.content"@,
            "tokens.name"@,
            "tokens.description"@,
            "file-reference.missing"@,
        ],
{
}

} // verus!
