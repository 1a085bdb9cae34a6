//! What a config file sets, and where it is looked for.

use vstd::prelude::*;

use crate::config::{
    boolean_of, budget_of, candidates_of, disabled_of, first_in, settings_in, settings_of,
    strings_of, with_setting, SettingsView,
};
use crate::discover::joined;
use crate::lint::ids::ids;
use crate::number::{decimal, decimal_int, i64_of};
use crate::text::{ascii_lower, debug_text, trim};
use crate::utils::directory_of;
use crate::yaml::{scalar_text, DataView, FaultView, NodeView, ScalarView};

verus! {

/// A scalar reads as it is written: a number in decimal, a truth value as its
/// word, and what is empty as null. Anything else is no text.
pub proof fn lemma_scalar_text(n: int, t: Seq<char>)
    ensures
        scalar_text(DataView::Scalar(ScalarView::Text(t))) == Some(t),
        scalar_text(DataView::Scalar(ScalarView::Float(t))) == Some(t),
        scalar_text(DataView::Scalar(ScalarView::Integer(n))) == Some(decimal_int(n)),
        scalar_text(DataView::Scalar(ScalarView::Boolean(true))) == Some("true"@),
        scalar_text(DataView::Scalar(ScalarView::Boolean(false))) == Some("false"@),
        scalar_text(DataView::Scalar(ScalarView::Null)) == Some("null"@),
        scalar_text(DataView::Other) is None,
        forall|items: Seq<NodeView>| #[trigger] scalar_text(DataView::Sequence(items)) is None,
        forall|pairs: Seq<(NodeView, NodeView)>| #[trigger]
            scalar_text(DataView::Mapping(pairs)) is None,
{
}

/// Whether a node is a budget of `n` tokens: a whole number, zero or more.
pub open spec fn is_budget_of(node: NodeView, n: int) -> bool {
    scalar_text(node.data) matches Some(t) && i64_of(t) == Some(n) && n >= 0
}

proof fn lemma_budget(path: Seq<char>, key: Seq<char>, node: NodeView)
    ensures
        budget_of(path, key, node) is Ok <==> exists|n: int| #[trigger] is_budget_of(node, n),
        forall|n: int| #[trigger]
            is_budget_of(node, n) ==> budget_of(path, key, node) == Ok::<i64, Seq<char>>(n as i64),
        scalar_text(node.data) is None ==> budget_of(path, key, node) == Err::<i64, Seq<char>>(
            path + ":"@ + decimal(node.line as nat) + ": "@ + key + " must be an integer"@,
        ),
{
    if budget_of(path, key, node) is Ok {
        let n = i64_of(scalar_text(node.data)->Some_0)->Some_0;
        assert(is_budget_of(node, n));
    }
}

/// A budget in a config file is a whole number, zero or more, and sets its own
/// setting alone. Anything else is a fault.
pub proof fn lemma_budget_settings(
    s: SettingsView,
    path: Seq<char>,
    key: NodeView,
    value: NodeView,
    name: Seq<char>,
    n: int,
)
    requires
        scalar_text(key.data) == Some(name),
        name == "max-agents-tokens"@ || name == "max-skill-tokens"@ || name
            == "max-skill-name-tokens"@ || name == "max-skill-description-tokens"@,
    ensures
        with_setting(s, path, key, value) is Ok <==> exists|m: int| #[trigger] is_budget_of(value, m),
        is_budget_of(value, n) && name == "max-agents-tokens"@ ==> with_setting(s, path, key, value)
            == Ok::<SettingsView, Seq<char>>(
            SettingsView { max_agents_tokens: Some(n as i64), ..s },
        ),
        is_budget_of(value, n) && name == "max-skill-tokens"@ ==> with_setting(s, path, key, value)
            == Ok::<SettingsView, Seq<char>>(
            SettingsView { max_skill_tokens: Some(n as i64), ..s },
        ),
        is_budget_of(value, n) && name == "max-skill-name-tokens"@ ==> with_setting(
            s,
            path,
            key,
            value,
        ) == Ok::<SettingsView, Seq<char>>(
            SettingsView { max_skill_name_tokens: Some(n as i64), ..s },
        ),
        is_budget_of(value, n) && name == "max-skill-description-tokens"@ ==> with_setting(
            s,
            path,
            key,
            value,
        ) == Ok::<SettingsView, Seq<char>>(
            SettingsView { max_skill_description_tokens: Some(n as i64), ..s },
        ),
{
    lemma_budget(path, name, value);
    lemma_lengths();
}

proof fn lemma_lengths()
    ensures
        "max-agents-tokens"@.len() == 17,
        "max-skill-tokens"@.len() == 16,
        "max-skill-name-tokens"@.len() == 21,
        "max-skill-description-tokens"@.len() == 28,
        "exclude"@.len() == 7,
        "rules"@.len() == 5,
{
    reveal_strlit("max-agents-tokens");
    reveal_strlit("max-skill-tokens");
    reveal_strlit("max-skill-name-tokens");
    reveal_strlit("max-skill-description-tokens");
    reveal_strlit("exclude");
    reveal_strlit("rules");
}

/// Whether a node is a text that is not empty.
pub open spec fn is_named(node: NodeView) -> bool {
    scalar_text(node.data) matches Some(t) && t.len() > 0
}

proof fn lemma_strings(path: Seq<char>, key: Seq<char>, items: Seq<NodeView>)
    ensures
        strings_of(path, key, items) is Ok <==> forall|i: int|
            0 <= i < items.len() ==> is_named(#[trigger] items[i]),
        strings_of(path, key, items) matches Ok(list) ==> list == items.map_values(
            |node: NodeView| scalar_text(node.data)->Some_0,
        ),
    decreases items.len(),
{
    if items.len() > 0 {
        let init = items.drop_last();
        lemma_strings(path, key, init);
        let n = items.len() - 1;
        assert(items[n] == items.last());
        assert(forall|i: int| 0 <= i < n ==> #[trigger] init[i] == items[i]);
        if strings_of(path, key, items) is Ok {
            assert forall|i: int| 0 <= i < items.len() implies is_named(#[trigger] items[i]) by {
                if i < n {
                    assert(is_named(init[i]));
                }
            }
            assert(strings_of(path, key, items)->Ok_0 =~= items.map_values(
                |node: NodeView| scalar_text(node.data)->Some_0,
            ));
        } else if forall|i: int| 0 <= i < items.len() ==> is_named(#[trigger] items[i]) {
            assert forall|i: int| 0 <= i < init.len() implies is_named(#[trigger] init[i]) by {
                assert(is_named(items[i]));
            }
            assert(is_named(items[n]));
        }
    } else {
        assert(strings_of(path, key, items)->Ok_0 =~= items.map_values(
            |node: NodeView| scalar_text(node.data)->Some_0,
        ));
    }
}

/// Excludes are a list of texts, all of them kept and in order, or one text for
/// a list of one. None of them is empty.
pub proof fn lemma_exclude_setting(s: SettingsView, path: Seq<char>, key: NodeView, value: NodeView)
    requires
        scalar_text(key.data) == Some("exclude"@),
    ensures
        value.data matches DataView::Sequence(items) ==> {
            &&& with_setting(s, path, key, value) is Ok <==> forall|i: int|
                0 <= i < items.len() ==> is_named(#[trigger] items[i])
            &&& with_setting(s, path, key, value) matches Ok(t) ==> t == (SettingsView {
                excludes: items.map_values(|node: NodeView| scalar_text(node.data)->Some_0),
                ..s
            })
        },
        !(value.data is Sequence) && is_named(value) ==> with_setting(s, path, key, value) == Ok::<
            SettingsView,
            Seq<char>,
        >(SettingsView { excludes: seq![scalar_text(value.data)->Some_0], ..s }),
        !(value.data is Sequence) && !is_named(value) ==> with_setting(s, path, key, value) is Err,
{
    lemma_lengths();
    if let DataView::Sequence(items) = value.data {
        lemma_strings(path, "exclude"@, items);
    }
}

/// Whether a node says yes, or no, in any of the words for it and in any case.
pub open spec fn means(node: NodeView, yes: bool) -> bool {
    scalar_text(node.data) matches Some(t) && if yes {
        ascii_lower(t) == "true"@ || ascii_lower(t) == "yes"@ || ascii_lower(t) == "on"@
    } else {
        ascii_lower(t) == "false"@ || ascii_lower(t) == "no"@ || ascii_lower(t) == "off"@
    }
}

/// Case is that of the letters from A to Z.
pub proof fn lemma_lower(s: Seq<char>, i: int)
    requires
        0 <= i < s.len(),
    ensures
        ascii_lower(s).len() == s.len(),
        'A' <= s[i] <= 'Z' ==> ascii_lower(s)[i] as u32 == s[i] as u32 + 32,
        !('A' <= s[i] <= 'Z') ==> ascii_lower(s)[i] == s[i],
{
}

proof fn lemma_boolean(path: Seq<char>, key: Seq<char>, node: NodeView)
    ensures
        boolean_of(path, key, node) is Ok <==> means(node, true) || means(node, false),
        means(node, true) ==> boolean_of(path, key, node) == Ok::<bool, Seq<char>>(true),
        means(node, false) ==> boolean_of(path, key, node) == Ok::<bool, Seq<char>>(false),
{
    reveal_strlit("true");
    reveal_strlit("yes");
    reveal_strlit("on");
    reveal_strlit("false");
    reveal_strlit("no");
    reveal_strlit("off");
    assert("true"@.len() == 4 && "yes"@.len() == 3 && "on"@.len() == 2);
    assert("false"@.len() == 5 && "no"@.len() == 2 && "off"@.len() == 3);
    assert("yes"@[0] == 'y' && "off"@[0] == 'o' && "on"@[0] == 'o' && "no"@[0] == 'n');
}

/// Whether an entry under `rules` can be read: a rule that there is, and a word
/// for yes or no.
pub open spec fn is_switch(pair: (NodeView, NodeView)) -> bool {
    &&& scalar_text(pair.0.data) matches Some(rule) && ids().contains(rule)
    &&& means(pair.1, true) || means(pair.1, false)
}

/// The rules that entries switch off, in order.
pub open spec fn switched_off(pairs: Seq<(NodeView, NodeView)>) -> Seq<Seq<char>> {
    pairs.filter(|pair: (NodeView, NodeView)| means(pair.1, false)).map_values(
        |pair: (NodeView, NodeView)| scalar_text(pair.0.data)->Some_0,
    )
}

proof fn lemma_disabled(path: Seq<char>, pairs: Seq<(NodeView, NodeView)>)
    ensures
        disabled_of(path, pairs) is Ok <==> forall|i: int|
            0 <= i < pairs.len() ==> is_switch(#[trigger] pairs[i]),
        disabled_of(path, pairs) matches Ok(list) ==> list == switched_off(pairs),
    decreases pairs.len(),
{
    reveal(Seq::filter);
    if pairs.len() > 0 {
        let init = pairs.drop_last();
        lemma_disabled(path, init);
        let n = pairs.len() - 1;
        assert(pairs[n] == pairs.last());
        assert(forall|i: int| 0 <= i < n ==> #[trigger] init[i] == pairs[i]);
        let last = pairs.last();
        if let Some(rule) = scalar_text(last.0.data) {
            lemma_boolean(path, "rules."@ + rule, last.1);
        }
        if disabled_of(path, pairs) is Ok {
            assert forall|i: int| 0 <= i < pairs.len() implies is_switch(#[trigger] pairs[i]) by {
                if i < n {
                    assert(is_switch(init[i]));
                }
            }
            assert(disabled_of(path, pairs)->Ok_0 =~= switched_off(pairs));
        } else if forall|i: int| 0 <= i < pairs.len() ==> is_switch(#[trigger] pairs[i]) {
            assert forall|i: int| 0 <= i < init.len() implies is_switch(#[trigger] init[i]) by {
                assert(is_switch(pairs[i]));
            }
            assert(is_switch(pairs[n]));
        }
    } else {
        assert(disabled_of(path, pairs)->Ok_0 =~= switched_off(pairs));
    }
}

/// Rules are a mapping of rules that there are to yes or no. Those that are
/// told no are disabled, and no others.
pub proof fn lemma_rules_setting(s: SettingsView, path: Seq<char>, key: NodeView, value: NodeView)
    requires
        scalar_text(key.data) == Some("rules"@),
    ensures
        value.data matches DataView::Mapping(pairs) ==> {
            &&& with_setting(s, path, key, value) is Ok <==> forall|i: int|
                0 <= i < pairs.len() ==> is_switch(#[trigger] pairs[i])
            &&& with_setting(s, path, key, value) matches Ok(t) ==> t == (SettingsView {
                disabled: switched_off(pairs),
                ..s
            })
        },
        !(value.data is Mapping) ==> with_setting(s, path, key, value) == Err::<
            SettingsView,
            Seq<char>,
        >(
            path + ":"@ + decimal(value.line as nat) + ": "@
                + "rules must be a mapping of rule id to true or false"@,
        ),
{
    lemma_lengths();
    if let DataView::Mapping(pairs) = value.data {
        lemma_disabled(path, pairs);
    }
}

/// There are no other settings.
pub proof fn lemma_no_other_setting(s: SettingsView, path: Seq<char>, key: NodeView, value: NodeView)
    ensures
        scalar_text(key.data) is None ==> with_setting(s, path, key, value) is Err,
        scalar_text(key.data) matches Some(name) ==> !(set![
            "max-agents-tokens"@,
            "max-skill-tokens"@,
            "max-skill-name-tokens"@,
            "max-skill-description-tokens"@,
            "exclude"@,
            "rules"@,
        ].contains(name)) ==> with_setting(s, path, key, value) == Err::<SettingsView, Seq<char>>(
            path + ":"@ + decimal(key.line as nat) + ": "@ + "unknown setting "@ + debug_text(name)
                + ": want one of "@
                + "max-agents-tokens, max-skill-tokens, max-skill-name-tokens, max-skill-description-tokens, exclude, rules"@,
        ),
{
}

/// A config file sets its settings one after the other, from nothing set; the
/// first fault in it is told.
pub proof fn lemma_settings(
    path: Seq<char>,
    pairs: Seq<(NodeView, NodeView)>,
    key: NodeView,
    value: NodeView,
)
    ensures
        settings_in(path, Seq::empty()) == Ok::<SettingsView, Seq<char>>(
            SettingsView {
                max_agents_tokens: None,
                max_skill_tokens: None,
                max_skill_name_tokens: None,
                max_skill_description_tokens: None,
                excludes: Seq::empty(),
                disabled: Seq::empty(),
            },
        ),
        settings_in(path, pairs) matches Ok(s) ==> settings_in(path, pairs.push((key, value)))
            == with_setting(s, path, key, value),
        settings_in(path, pairs) matches Err(m) ==> settings_in(path, pairs.push((key, value)))
            == Err::<SettingsView, Seq<char>>(m),
{
    assert(pairs.push((key, value)).drop_last() =~= pairs);
}

/// A config file is one mapping: the first document of it counts. An empty one
/// sets nothing, and one that is no mapping, or no YAML, is a fault.
pub proof fn lemma_config_file(docs: Seq<NodeView>, fault: FaultView, path: Seq<char>)
    ensures
        docs.len() == 0 ==> settings_of(Ok(docs), path) == settings_in(path, Seq::empty()),
        docs.len() > 0 ==> (docs[0].data matches DataView::Mapping(pairs) ==> settings_of(
            Ok(docs),
            path,
        ) == settings_in(path, pairs)),
        docs.len() > 0 && docs[0].data == DataView::Scalar(ScalarView::Null) ==> settings_of(
            Ok(docs),
            path,
        ) == settings_in(path, Seq::empty()),
        docs.len() > 0 && !(docs[0].data is Mapping) && docs[0].data != DataView::Scalar(
            ScalarView::Null,
        ) ==> settings_of(Ok(docs), path) == Err::<SettingsView, Seq<char>>(
            path + ":"@ + decimal(docs[0].line as nat) + ": "@
                + "config must be a mapping of settings to values"@,
        ),
        settings_of(Err(fault), path) == Err::<SettingsView, Seq<char>>(
            path + ":"@ + decimal(fault.line as nat) + ": invalid YAML: "@ + trim(fault.info),
        ),
{
}

/// A config file is looked for in a directory, under its two names, and then in
/// the directories above it.
pub proof fn lemma_candidates(start: Seq<char>)
    ensures
        candidates_of(start).len() >= 2,
        candidates_of(start)[0] == joined(start, ".lintmatter.yaml"@),
        candidates_of(start)[1] == joined(start, ".lintmatter.yml"@),
        directory_of(start) matches Some(dir) ==> candidates_of(start).skip(2) == candidates_of(dir),
        directory_of(start) is None ==> candidates_of(start).len() == 2,
{
    if let Some(dir) = directory_of(start) {
        assert(candidates_of(start).skip(2) =~= candidates_of(dir));
    }
}

/// The first of the places that holds a file is the one that counts.
pub proof fn lemma_first_candidate(list: Seq<Seq<char>>, files: Seq<Seq<char>>, i: int)
    requires
        0 <= i <= list.len(),
        forall|j: int| 0 <= j < i ==> !files.contains(#[trigger] list[j]),
        i < list.len() ==> files.contains(list[i]),
    ensures
        i < list.len() ==> first_in(list, files) == Some(list[i]),
        i == list.len() ==> first_in(list, files) is None,
    decreases i,
{
    if i > 0 {
        assert(!files.contains(list[0]));
        assert forall|j: int| 0 <= j < i - 1 implies !files.contains(#[trigger] list.skip(1)[j]) by {
            assert(list.skip(1)[j] == list[j + 1]);
        }
        lemma_first_candidate(list.skip(1), files, i - 1);
    }
}

/// The first item of a list that is no text, or is empty, is told of on its own
/// line.
pub proof fn lemma_list_fault(path: Seq<char>, key: Seq<char>, items: Seq<NodeView>, i: int)
    requires
        0 <= i < items.len(),
        forall|j: int| 0 <= j < i ==> is_named(#[trigger] items[j]),
        !is_named(items[i]),
    ensures
        strings_of(path, key, items) == Err::<Seq<Seq<char>>, Seq<char>>(
            path + ":"@ + decimal(items[i].line as nat) + ": "@ + key
                + " must be a non-empty string"@,
        ),
    decreases items.len(),
{
    let init = items.drop_last();
    let n = init.len() as int;
    assert(forall|j: int| 0 <= j < n ==> #[trigger] init[j] == items[j]);
    assert(items.last() == items[n]);
    if i < n {
        lemma_list_fault(path, key, init, i);
    } else {
        lemma_strings(path, key, init);
        assert forall|j: int| 0 <= j < init.len() implies is_named(#[trigger] init[j]) by {
            assert(is_named(items[j]));
        }
    }
}

/// What is said of an entry under `rules` that cannot be read.
pub open spec fn switch_fault(path: Seq<char>, pair: (NodeView, NodeView)) -> Seq<char> {
    match scalar_text(pair.0.data) {
        None => path + ":"@ + decimal(pair.0.line as nat) + ": "@ + "rule ids must be strings"@,
        Some(rule) => if !ids().contains(rule) {
            path + ":"@ + decimal(pair.0.line as nat) + ": "@ + "unknown rule "@ + debug_text(rule)
                + ": run --list-rules to see them all"@
        } else {
            match scalar_text(pair.1.data) {
                None => path + ":"@ + decimal(pair.1.line as nat) + ": "@ + ("rules."@ + rule)
                    + " must be true or false"@,
                Some(t) => path + ":"@ + decimal(pair.1.line as nat) + ": "@ + "invalid value "@
                    + debug_text(t) + " for "@ + ("rules."@ + rule) + ": want true or false"@,
            }
        },
    }
}

/// The first entry under `rules` that cannot be read is told of, on its line.
pub proof fn lemma_rules_fault(path: Seq<char>, pairs: Seq<(NodeView, NodeView)>, i: int)
    requires
        0 <= i < pairs.len(),
        forall|j: int| 0 <= j < i ==> is_switch(#[trigger] pairs[j]),
        !is_switch(pairs[i]),
    ensures
        disabled_of(path, pairs) == Err::<Seq<Seq<char>>, Seq<char>>(switch_fault(path, pairs[i])),
    decreases pairs.len(),
{
    let init = pairs.drop_last();
    let n = init.len() as int;
    assert(forall|j: int| 0 <= j < n ==> #[trigger] init[j] == pairs[j]);
    assert(pairs.last() == pairs[n]);
    if i < n {
        lemma_rules_fault(path, init, i);
    } else {
        lemma_disabled(path, init);
        assert forall|j: int| 0 <= j < init.len() implies is_switch(#[trigger] init[j]) by {
            assert(is_switch(pairs[j]));
        }
        if let Some(rule) = scalar_text(pairs[n].0.data) {
            lemma_boolean(path, "rules."@ + rule, pairs[n].1);
        }
    }
}

/// What is said of a budget that cannot be read.
pub proof fn lemma_budget_fault(path: Seq<char>, key: Seq<char>, node: NodeView)
    ensures
        scalar_text(node.data) is None ==> budget_of(path, key, node) == Err::<i64, Seq<char>>(
            path + ":"@ + decimal(node.line as nat) + ": "@ + key + " must be an integer"@,
        ),
        scalar_text(node.data) matches Some(t) ==> i64_of(t) is None ==> budget_of(path, key, node)
            == Err::<i64, Seq<char>>(
            path + ":"@ + decimal(node.line as nat) + ": "@ + "invalid value "@ + debug_text(t)
                + " for "@ + key + ": not an integer"@,
        ),
        scalar_text(node.data) matches Some(t) ==> (i64_of(t) matches Some(n) ==> n < 0 ==> budget_of(
            path,
            key,
            node,
        ) == Err::<i64, Seq<char>>(
            path + ":"@ + decimal(node.line as nat) + ": "@ + key
                + " must be zero or more (0 disables the check)"@,
        )),
{
}

} // verus!
