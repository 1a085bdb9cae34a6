//! One run of the wizard, as a conversation with the outside.
//!
//! It asks for what it needs -- a look at the directory, a line of input, a
//! file to be written -- and goes on with the reply, until it ends.

use vstd::prelude::*;

use crate::cli::{opt_view, EXIT_OK, EXIT_USAGE};
use crate::config::SettingsView;
use crate::init::{
    asked, choose_target, command_from, config_text, lemma_blank_reply, lemma_replied, note,
    note_of, read_args, recorded, render, replied, target_of, unwritable, writable, wrote, Command,
    CommandView, Interview, InterviewView, DONE,
};
use crate::text::{texts, trim};

verus! {

/// What the wizard needs next.
#[derive(Debug)]
pub enum Action {
    /// Tell which config files are in the directory, and which one applies to
    /// it.
    Survey,
    /// Show this, and read a line.
    Ask(String),
    /// Show this, and write this text to the file of this name.
    Write { shown: String, name: &'static str, text: String },
    /// Show this, complain about that, and end with a code.
    Finish { shown: String, errors: String, code: i32 },
}

/// A reply from outside.
#[derive(Debug)]
pub enum Event {
    /// Which of the two names is a file in the directory, and the config file
    /// that applies to it.
    Surveyed { yaml: bool, yml: bool, above: Option<String> },
    /// A line of input, or its end.
    Line(Option<String>),
    /// The file is written, or cannot be.
    Written(Option<Unwritten>),
}

/// Why a file could not be written.
#[derive(Debug)]
pub struct Unwritten {
    pub path: String,
    pub reason: String,
}

/// Where the wizard stands.
#[derive(Debug)]
pub enum Stage {
    /// Waiting to hear what is in the directory.
    Survey { force: bool },
    /// Waiting for an answer. The file to be written is chosen.
    Ask { interview: Interview, name: &'static str },
    /// Waiting for the file to be written.
    Write { name: &'static str },
    End,
}

pub enum ActionView {
    Survey,
    Ask(Seq<char>),
    Write { shown: Seq<char>, name: Seq<char>, text: Seq<char> },
    Finish { shown: Seq<char>, errors: Seq<char>, code: i32 },
}

pub enum EventView {
    Surveyed { yaml: bool, yml: bool, above: Option<Seq<char>> },
    Line(Option<Seq<char>>),
    Written(Option<(Seq<char>, Seq<char>)>),
}

pub enum StageView {
    Survey { force: bool },
    Ask { interview: InterviewView, name: Seq<char> },
    Write { name: Seq<char> },
    End,
}

impl Action {
    pub open spec fn view(self) -> ActionView {
        match self {
            Action::Survey => ActionView::Survey,
            Action::Ask(shown) => ActionView::Ask(shown@),
            Action::Write { shown, name, text } => ActionView::Write {
                shown: shown@,
                name: name@,
                text: text@,
            },
            Action::Finish { shown, errors, code } => ActionView::Finish {
                shown: shown@,
                errors: errors@,
                code,
            },
        }
    }
}

impl Event {
    pub open spec fn view(self) -> EventView {
        match self {
            Event::Surveyed { yaml, yml, above } => EventView::Surveyed {
                yaml,
                yml,
                above: opt_view(above),
            },
            Event::Line(line) => EventView::Line(opt_view(line)),
            Event::Written(None) => EventView::Written(None),
            Event::Written(Some(u)) => EventView::Written(Some((u.path@, u.reason@))),
        }
    }
}

impl Stage {
    pub open spec fn view(self) -> StageView {
        match self {
            Stage::Survey { force } => StageView::Survey { force },
            Stage::Ask { interview, name } => StageView::Ask { interview: interview@, name: name@ },
            Stage::Write { name } => StageView::Write { name: name@ },
            Stage::End => StageView::End,
        }
    }
}

/// Whether an event is the reply a stage waits for.
pub open spec fn awaits(stage: StageView, event: EventView) -> bool {
    match stage {
        StageView::Survey { .. } => event is Surveyed,
        StageView::Ask { interview, .. } => event is Line && 0 <= interview.at < DONE,
        StageView::Write { .. } => event is Written,
        StageView::End => false,
    }
}

pub open spec fn ended(shown: Seq<char>, errors: Seq<char>, code: i32) -> (StageView, ActionView) {
    (StageView::End, ActionView::Finish { shown, errors, code })
}

/// How the wizard starts.
pub open spec fn started(args: Seq<Seq<char>>) -> (StageView, ActionView) {
    match command_from(args, 0, false) {
        CommandView::Run { force } => (StageView::Survey { force }, ActionView::Survey),
        CommandView::Finish { errors, code } => ended(Seq::empty(), errors, code),
    }
}

/// How the wizard goes on. A config file that is already there ends it, unless
/// it may be overwritten.
pub open spec fn next(stage: StageView, event: EventView) -> (StageView, ActionView) {
    match (stage, event) {
        (StageView::Survey { force }, EventView::Surveyed { yaml, yml, above }) => match target_of(
            yaml,
            yml,
            force,
        ) {
            Err(m) => ended(Seq::empty(), m, EXIT_USAGE),
            Ok(name) => (
                StageView::Ask {
                    interview: InterviewView { at: 0, settings: SettingsView::unset() },
                    name,
                },
                ActionView::Ask(note_of(yaml || yml, above) + asked(0)),
            ),
        },
        (StageView::Ask { interview, name }, EventView::Line(line)) => {
            let (then, shown) = replied(interview, line);
            if then.at >= DONE {
                (
                    StageView::Write { name },
                    ActionView::Write { shown, name, text: config_text(then.settings) },
                )
            } else {
                (StageView::Ask { interview: then, name }, ActionView::Ask(shown))
            }
        },
        (StageView::Write { name }, EventView::Written(None)) => ended(
            "\nWrote "@ + name + "\n"@,
            Seq::empty(),
            EXIT_OK,
        ),
        (StageView::Write { name }, EventView::Written(Some((path, reason)))) => ended(
            Seq::empty(),
            "lintmatter: cannot write "@ + path + ": "@ + reason + "\n"@,
            EXIT_USAGE,
        ),
        _ => (StageView::End, arbitrary()),
    }
}

fn nothing() -> (r: String)
    ensures
        r@ == Seq::<char>::empty(),
{
    let none = String::new();
    assert(none@ =~= Seq::empty());
    none
}

/// Starts the wizard.
pub fn start(args: &[String]) -> (r: (Stage, Action))
    ensures
        (r.0@, r.1@) == started(texts(args@)),
{
    match read_args(args) {
        Command::Run { force } => (Stage::Survey { force }, Action::Survey),
        Command::Finish { errors, code } => (
            Stage::End,
            Action::Finish { shown: nothing(), errors, code },
        ),
    }
}

/// Takes the reply to what the wizard asked for, and goes on.
pub fn step(stage: Stage, event: Event) -> (r: (Stage, Action))
    requires
        awaits(stage@, event@),
    ensures
        (r.0@, r.1@) == next(stage@, event@),
        r.0@ matches StageView::Ask { interview, .. } ==> 0 <= interview.at < DONE,
{
    match (stage, event) {
        (Stage::Survey { force }, Event::Surveyed { yaml, yml, above }) => match choose_target(
            yaml,
            yml,
            force,
        ) {
            Err(errors) => (
                Stage::End,
                Action::Finish { shown: nothing(), errors, code: EXIT_USAGE },
            ),
            Ok(name) => {
                let (interview, question) = Interview::begin();
                let mut shown = note(yaml || yml, &above);
                shown.append(question.as_str());
                (Stage::Ask { interview, name }, Action::Ask(shown))
            },
        },
        (Stage::Ask { interview, name }, Event::Line(line)) => {
            let mut interview = interview;
            let shown = interview.reply(&line);
            if interview.is_done() {
                let text = render(&interview.settings);
                (Stage::Write { name }, Action::Write { shown, name, text })
            } else {
                (Stage::Ask { interview, name }, Action::Ask(shown))
            }
        },
        (Stage::Write { name }, Event::Written(failure)) => match failure {
            None => (
                Stage::End,
                Action::Finish { shown: wrote(name), errors: nothing(), code: EXIT_OK },
            ),
            Some(u) => (
                Stage::End,
                Action::Finish {
                    shown: nothing(),
                    errors: unwritable(u.path.as_str(), u.reason.as_str()),
                    code: EXIT_USAGE,
                },
            ),
        },
        _ => {
            assert(false);
            (Stage::End, Action::Survey)
        },
    }
}

/// Where the wizard stands after some replies, and what it asks for then.
pub open spec fn after(args: Seq<Seq<char>>, events: Seq<EventView>) -> (StageView, ActionView)
    decreases events.len(),
{
    if events.len() == 0 {
        started(args)
    } else {
        next(after(args, events.drop_last()).0, events.last())
    }
}

/// Whether every one of some replies is the one that was waited for.
pub open spec fn in_turn(args: Seq<Seq<char>>, events: Seq<EventView>) -> bool
    decreases events.len(),
{
    events.len() == 0 || (in_turn(args, events.drop_last()) && awaits(
        after(args, events.drop_last()).0,
        events.last(),
    ))
}

/// A config file that is there is left alone unless `--force` is given: the
/// wizard names it, ends with a usage error, and has asked for nothing to be
/// written.
pub proof fn lemma_existing_stays(
    args: Seq<Seq<char>>,
    yaml: bool,
    yml: bool,
    above: Option<Seq<char>>,
)
    requires
        command_from(args, 0, false) == (CommandView::Run { force: false }),
        yaml || yml,
    ensures
        after(args, seq![]).1 is Survey,
        after(args, seq![EventView::Surveyed { yaml, yml, above }]) == ended(
            Seq::empty(),
            target_of(yaml, yml, false)->Err_0,
            EXIT_USAGE,
        ),
{
    let events = seq![EventView::Surveyed { yaml, yml, above }];
    assert(events.drop_last() =~= seq![]);
}

/// Whether a stage is past the survey and keeps to the file chosen there, with
/// settings that can be written.
spec fn keeps_to(stage: StageView, name: Seq<char>) -> bool {
    match stage {
        StageView::Survey { .. } => false,
        StageView::Ask { interview, name: chosen } => chosen == name && recorded(
            interview.settings,
        ) && 0 <= interview.at,
        StageView::Write { name: chosen } => chosen == name,
        StageView::End => true,
    }
}

/// Whatever is answered, the file that is written is the one that was already
/// there, or else the first name, and its text says settings that are read
/// back from it.
pub proof fn lemma_one_file(
    args: Seq<Seq<char>>,
    force: bool,
    events: Seq<EventView>,
    yaml: bool,
    yml: bool,
    above: Option<Seq<char>>,
)
    requires
        command_from(args, 0, false) == (CommandView::Run { force }),
        events.len() > 0,
        events[0] == (EventView::Surveyed { yaml, yml, above }),
        in_turn(args, events),
    ensures
        after(args, events).1 matches ActionView::Write { name, text, .. } ==> target_of(
            yaml,
            yml,
            force,
        ) == Ok::<Seq<char>, Seq<char>>(name) && exists|s: SettingsView| #[trigger]
            writable(s) && text == config_text(s),
        after(args, events).1 matches ActionView::Finish { code, .. } && code == EXIT_OK
            ==> events.len() > 1 && events.last() == EventView::Written(None),
{
    lemma_keeps_to(args, force, events, yaml, yml, above);
    if events.len() > 1 {
        let before = events.drop_last();
        assert(before[0] == events[0]);
        lemma_keeps_to(args, force, before, yaml, yml, above);
        if let (StageView::Ask { interview, name }, EventView::Line(line)) = (
            after(args, before).0,
            events.last(),
        ) {
            lemma_replied(interview, line);
            let s = replied(interview, line).0.settings;
            assert(writable(s));
        }
    } else {
        assert(events.drop_last() =~= seq![]);
    }
}

proof fn lemma_keeps_to(
    args: Seq<Seq<char>>,
    force: bool,
    events: Seq<EventView>,
    yaml: bool,
    yml: bool,
    above: Option<Seq<char>>,
)
    requires
        command_from(args, 0, false) == (CommandView::Run { force }),
        events.len() > 0,
        events[0] == (EventView::Surveyed { yaml, yml, above }),
        in_turn(args, events),
    ensures
        target_of(yaml, yml, force) matches Ok(name) ==> keeps_to(after(args, events).0, name),
        target_of(yaml, yml, force) is Err ==> after(args, events).0 is End,
    decreases events.len(),
{
    let before = events.drop_last();
    if events.len() == 1 {
        assert(before =~= seq![]);
    } else {
        assert(before[0] == events[0]);
        lemma_keeps_to(args, force, before, yaml, yml, above);
        if let (StageView::Ask { interview, name }, EventView::Line(line)) = (
            after(args, before).0,
            events.last(),
        ) {
            lemma_replied(interview, line);
        }
    }
}

/// The replies of someone who lets the wizard write and answers nothing.
pub open spec fn blank_replies(
    yaml: bool,
    yml: bool,
    above: Option<Seq<char>>,
    lines: Seq<Seq<char>>,
) -> Seq<EventView> {
    seq![EventView::Surveyed { yaml, yml, above }] + Seq::new(
        lines.len(),
        |i: int| EventView::Line(Some(lines[i])),
    )
}

proof fn lemma_blank_so_far(
    args: Seq<Seq<char>>,
    force: bool,
    yaml: bool,
    yml: bool,
    above: Option<Seq<char>>,
    lines: Seq<Seq<char>>,
)
    requires
        command_from(args, 0, false) == (CommandView::Run { force }),
        target_of(yaml, yml, force) is Ok,
        lines.len() < DONE,
        forall|i: int| 0 <= i < lines.len() ==> trim(#[trigger] lines[i]).len() == 0,
    ensures
        after(args, blank_replies(yaml, yml, above, lines)).0 == (StageView::Ask {
            interview: InterviewView { at: lines.len() as int, settings: SettingsView::unset() },
            name: target_of(yaml, yml, force)->Ok_0,
        }),
    decreases lines.len(),
{
    let events = blank_replies(yaml, yml, above, lines);
    if lines.len() == 0 {
        assert(events.drop_last() =~= seq![]);
        assert(events.last() == events[0]);
        assert(after(args, events.drop_last()).0 == (StageView::Survey { force }));
    } else {
        let init = lines.drop_last();
        assert(events.drop_last() =~= blank_replies(yaml, yml, above, init));
        assert forall|i: int| 0 <= i < init.len() implies trim(#[trigger] init[i]).len() == 0 by {
            assert(init[i] == lines[i]);
        }
        lemma_blank_so_far(args, force, yaml, yml, above, init);
        assert(events.last() == EventView::Line(Some(lines[lines.len() - 1])));
        lemma_blank_reply(
            InterviewView { at: init.len() as int, settings: SettingsView::unset() },
            lines[lines.len() - 1],
        );
    }
}

/// Answering nothing writes the defaults, to the file that is already there
/// where it may be overwritten, and then the wizard ends well and names it.
pub proof fn lemma_blank_answers(
    args: Seq<Seq<char>>,
    force: bool,
    yaml: bool,
    yml: bool,
    above: Option<Seq<char>>,
    lines: Seq<Seq<char>>,
)
    requires
        command_from(args, 0, false) == (CommandView::Run { force }),
        target_of(yaml, yml, force) is Ok,
        lines.len() == DONE,
        forall|i: int| 0 <= i < lines.len() ==> trim(#[trigger] lines[i]).len() == 0,
    ensures
        after(args, blank_replies(yaml, yml, above, lines)).1 matches ActionView::Write {
            name,
            text,
            ..
        } && name == target_of(yaml, yml, force)->Ok_0 && text == config_text(
            SettingsView::unset(),
        ),
        after(
            args,
            blank_replies(yaml, yml, above, lines).push(EventView::Written(None)),
        ) == ended(
            "\nWrote "@ + target_of(yaml, yml, force)->Ok_0 + "\n"@,
            Seq::empty(),
            EXIT_OK,
        ),
{
    let events = blank_replies(yaml, yml, above, lines);
    let init = lines.drop_last();
    assert(events.drop_last() =~= blank_replies(yaml, yml, above, init));
    assert forall|i: int| 0 <= i < init.len() implies trim(#[trigger] init[i]).len() == 0 by {
        assert(init[i] == lines[i]);
    }
    lemma_blank_so_far(args, force, yaml, yml, above, init);
    assert(events.last() == EventView::Line(Some(lines[lines.len() - 1])));
    lemma_blank_reply(
        InterviewView { at: init.len() as int, settings: SettingsView::unset() },
        lines[lines.len() - 1],
    );
    let done = events.push(EventView::Written(None));
    assert(done.drop_last() =~= events);
}

} // verus!
