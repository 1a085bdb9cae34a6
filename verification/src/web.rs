//! What the web front end decides: which requests it accepts, how their
//! budgets reach the linter, and what page it serves.

use serde_json::Value as JsonValue;
use vstd::prelude::*;
use vstd::slice::slice_subrange;

use crate::cli::{
    flag_parts, flag_taken, is_budget, is_flag, parsed, value_of, walked, with_budget, FlagsView,
    Halt, ParsedView, ParserView, EXIT_FINDINGS, EXIT_OK,
};
use crate::config::{
    DEFAULT_MAX_AGENTS_TOKENS, DEFAULT_MAX_SKILL_DESCRIPTION_TOKENS, DEFAULT_MAX_SKILL_NAME_TOKENS,
    DEFAULT_MAX_SKILL_TOKENS,
};
use crate::number::{
    decimal, decimal_int, is_digit, lemma_read_decimal, lemma_read_decimal_int, write_integer,
    write_natural,
};
use crate::text::{
    copy, lemma_first_index, rows, same_chars, split, split_at, starts_with, texts, to_chars,
    to_text, trim, trimmed,
};
use crate::wire::{
    empty_object, json_number, json_read, json_text, json_tree, number_tree, put_member, read_json,
    read_view, with_member, JsonTree,
};

verus! {

/// Caps a budget well above any real file so a typo in the form cannot turn
/// into an unbounded number on the command line. Zero stays meaningful: it is
/// how the linter spells "skip this check".
pub const MAX_BUDGET: i64 = 1_000_000;

pub const GENERIC_ERROR: &'static str =
    "Something went wrong while linting that repository. Please try again later.";

pub const INVALID_URL_ERROR: &'static str =
    "That doesn't look like a valid GitHub repository URL. Expected format: https://github.com/<owner>/<repo>";

pub const INVALID_BUDGET_ERROR: &'static str =
    "Token budgets must be whole numbers from 0 to 1000000 (0 turns that check off).";

/// The token budgets a run enforces, named after the flags they become.
///
/// Every field is optional, and an omitted one is not passed to the linter at
/// all, so the clone's own `.lintmatter.yaml` still decides it. A budget that is
/// present wins over that file, the same way the flag does on the command
/// line -- which is what makes the form authoritative when it sends one.
#[derive(Debug, Clone, Copy, PartialEq, Eq)]
pub struct Budgets {
    pub max_agents_tokens: Option<i64>,
    pub max_skill_tokens: Option<i64>,
    pub max_skill_name_tokens: Option<i64>,
    pub max_skill_description_tokens: Option<i64>,
}

/// What a caller asks for.
#[derive(Debug)]
pub struct LintRequest {
    pub url: String,
    /// Nothing set for a caller that only sends a URL, which then gets
    /// whatever the repository and the linter's defaults work out between
    /// them.
    pub budgets: Budgets,
}

impl Default for Budgets {
    fn default() -> (r: Budgets)
        ensures
            r == (Budgets {
                max_agents_tokens: None,
                max_skill_tokens: None,
                max_skill_name_tokens: None,
                max_skill_description_tokens: None,
            }),
    {
        Budgets {
            max_agents_tokens: None,
            max_skill_tokens: None,
            max_skill_name_tokens: None,
            max_skill_description_tokens: None,
        }
    }
}

/// A flag and the budget it carries, if any.
pub struct EntryView {
    pub flag: Seq<char>,
    pub value: Option<i64>,
}

/// Each budget with its flag, in the order the usage text lists them.
pub open spec fn entries_of(b: Budgets) -> Seq<EntryView> {
    seq![
        EntryView { flag: "--max-agents-tokens"@, value: b.max_agents_tokens },
        EntryView { flag: "--max-skill-tokens"@, value: b.max_skill_tokens },
        EntryView { flag: "--max-skill-name-tokens"@, value: b.max_skill_name_tokens },
        EntryView { flag: "--max-skill-description-tokens"@, value: b.max_skill_description_tokens },
    ]
}

/// The first fault in some entries.
pub open spec fn budget_fault(entries: Seq<EntryView>) -> Option<Seq<char>>
    decreases entries.len(),
{
    if entries.len() == 0 {
        None
    } else {
        match budget_fault(entries.drop_last()) {
            Some(m) => Some(m),
            None => match entries.last().value {
                Some(n) if n < 0 || n > MAX_BUDGET => Some(
                    entries.last().flag + " is "@ + decimal_int(n as int) + ", outside 0..="@
                        + decimal_int(MAX_BUDGET as int),
                ),
                _ => None,
            },
        }
    }
}

/// The command-line arguments that some entries make.
pub open spec fn flags_of(entries: Seq<EntryView>) -> Seq<Seq<char>>
    decreases entries.len(),
{
    if entries.len() == 0 {
        Seq::empty()
    } else {
        let rest = flags_of(entries.drop_last());
        match entries.last().value {
            Some(n) => rest.push(entries.last().flag).push(decimal_int(n as int)),
            None => rest,
        }
    }
}

/// A flag and the budget it carries, if any.
struct Entry {
    flag: &'static str,
    value: Option<i64>,
}

spec fn entry_views(v: Seq<Entry>) -> Seq<EntryView> {
    Seq::new(v.len(), |i: int| EntryView { flag: v[i].flag@, value: v[i].value })
}

impl Budgets {
    /// What a bare run enforces. The page starts the form from these, so the
    /// numbers on screen are the linter's own rather than a second opinion
    /// that could drift from it.
    pub fn defaults() -> (r: Budgets)
        ensures
            r == (Budgets {
                max_agents_tokens: Some(DEFAULT_MAX_AGENTS_TOKENS),
                max_skill_tokens: Some(DEFAULT_MAX_SKILL_TOKENS),
                max_skill_name_tokens: Some(DEFAULT_MAX_SKILL_NAME_TOKENS),
                max_skill_description_tokens: Some(DEFAULT_MAX_SKILL_DESCRIPTION_TOKENS),
            }),
    {
        Budgets {
            max_agents_tokens: Some(DEFAULT_MAX_AGENTS_TOKENS),
            max_skill_tokens: Some(DEFAULT_MAX_SKILL_TOKENS),
            max_skill_name_tokens: Some(DEFAULT_MAX_SKILL_NAME_TOKENS),
            max_skill_description_tokens: Some(DEFAULT_MAX_SKILL_DESCRIPTION_TOKENS),
        }
    }

    /// Each budget paired with the flag that carries it, in the order the
    /// usage text lists them. Backs both validation and the argument list, so
    /// a budget can never be checked but not passed, or the reverse.
    fn entries(&self) -> (r: Vec<Entry>)
        ensures
            entry_views(r@) == entries_of(*self),
    {
        let mut r: Vec<Entry> = Vec::new();
        r.push(Entry { flag: "--max-agents-tokens", value: self.max_agents_tokens });
        r.push(Entry { flag: "--max-skill-tokens", value: self.max_skill_tokens });
        r.push(Entry { flag: "--max-skill-name-tokens", value: self.max_skill_name_tokens });
        r.push(
            Entry {
                flag: "--max-skill-description-tokens",
                value: self.max_skill_description_tokens,
            },
        );
        assert(entry_views(r@) =~= entries_of(*self));
        r
    }

    /// Rejects a budget that is negative or above the ceiling.
    pub fn validate(&self) -> (r: Result<(), String>)
        ensures
            match budget_fault(entries_of(*self)) {
                Some(m) => r matches Err(e) && e@ == m,
                None => r is Ok,
            },
    {
        let list = self.entries();
        let ghost all = entry_views(list@);
        let mut i: usize = 0;
        assert(all.take(0) =~= Seq::empty());
        while i < list.len()
            invariant
                i <= list@.len(),
                all == entry_views(list@),
                all == entries_of(*self),
                budget_fault(all.take(i as int)) is None,
            decreases list@.len() - i,
        {
            proof {
                let next = all.take(i + 1);
                assert(next.drop_last() =~= all.take(i as int));
                assert(next.last() == all[i as int]);
            }
            if let Some(n) = list[i].value {
                if n < 0 || n > MAX_BUDGET {
                    proof {
                        lemma_fault_stop(all, i + 1);
                    }
                    let mut m = list[i].flag.to_string();
                    m.append(" is ");
                    m.append(write_integer(n).as_str());
                    m.append(", outside 0..=");
                    m.append(write_integer(MAX_BUDGET).as_str());
                    return Err(m);
                }
            }
            i += 1;
        }
        assert(all.take(i as int) =~= all);
        Ok(())
    }

    /// The command-line arguments that carry the budgets. One that the caller
    /// left out does not reach the command line at all.
    pub fn flags(&self) -> (r: Vec<String>)
        ensures
            texts(r@) == flags_of(entries_of(*self)),
    {
        let list = self.entries();
        let ghost all = entry_views(list@);
        let mut out: Vec<String> = Vec::new();
        let mut i: usize = 0;
        assert(all.take(0) =~= Seq::empty());
        assert(texts(out@) =~= Seq::empty());
        while i < list.len()
            invariant
                i <= list@.len(),
                all == entry_views(list@),
                texts(out@) == flags_of(all.take(i as int)),
            decreases list@.len() - i,
        {
            proof {
                let next = all.take(i + 1);
                assert(next.drop_last() =~= all.take(i as int));
                assert(next.last() == all[i as int]);
            }
            if let Some(n) = list[i].value {
                let flag = list[i].flag.to_string();
                let value = write_integer(n);
                assert(texts(out@.push(flag).push(value)) =~= texts(out@).push(flag@).push(value@));
                out.push(flag);
                out.push(value);
            }
            i += 1;
        }
        assert(all.take(i as int) =~= all);
        out
    }
}

proof fn lemma_fault_stop(entries: Seq<EntryView>, n: int)
    requires
        0 <= n <= entries.len(),
        budget_fault(entries.take(n)) is Some,
    ensures
        budget_fault(entries) == budget_fault(entries.take(n)),
    decreases entries.len(),
{
    if n < entries.len() {
        assert(entries.drop_last().take(n) =~= entries.take(n));
        lemma_fault_stop(entries.drop_last(), n);
    } else {
        assert(entries.take(n) =~= entries);
    }
}

/// The budget form's settings as JSON: the numbers to open on and the ceiling
/// to enforce on them.
pub open spec fn settings_json() -> Seq<char> {
    "{\"defaults\":{\"max_agents_tokens\":"@ + decimal_int(DEFAULT_MAX_AGENTS_TOKENS as int)
        + ",\"max_skill_tokens\":"@ + decimal_int(DEFAULT_MAX_SKILL_TOKENS as int)
        + ",\"max_skill_name_tokens\":"@ + decimal_int(DEFAULT_MAX_SKILL_NAME_TOKENS as int)
        + ",\"max_skill_description_tokens\":"@ + decimal_int(
        DEFAULT_MAX_SKILL_DESCRIPTION_TOKENS as int,
    ) + "},\"max\":"@ + decimal_int(MAX_BUDGET as int) + "}"@
}

/// The budget form's settings as JSON, for embedding in the page.
pub fn budget_settings_json() -> (r: String)
    ensures
        r@ == settings_json(),
{
    let mut out = "{\"defaults\":{\"max_agents_tokens\":".to_string();
    out.append(write_integer(DEFAULT_MAX_AGENTS_TOKENS).as_str());
    out.append(",\"max_skill_tokens\":");
    out.append(write_integer(DEFAULT_MAX_SKILL_TOKENS).as_str());
    out.append(",\"max_skill_name_tokens\":");
    out.append(write_integer(DEFAULT_MAX_SKILL_NAME_TOKENS).as_str());
    out.append(",\"max_skill_description_tokens\":");
    out.append(write_integer(DEFAULT_MAX_SKILL_DESCRIPTION_TOKENS).as_str());
    out.append("},\"max\":");
    out.append(write_integer(MAX_BUDGET).as_str());
    out.append("}");
    out
}

/// `s` without one trailing `c`.
pub open spec fn without_last(s: Seq<char>, c: char) -> Seq<char> {
    if s.len() > 0 && s.last() == c {
        s.drop_last()
    } else {
        s
    }
}

/// `s` without `suffix` at its end.
pub open spec fn without_suffix(s: Seq<char>, suffix: Seq<char>) -> Seq<char> {
    if s.len() >= suffix.len() && s.skip(s.len() - suffix.len()) == suffix {
        s.take(s.len() - suffix.len())
    } else {
        s
    }
}

/// Letters, digits, hyphens, underscores and dots.
pub open spec fn is_segment_char(c: char) -> bool {
    ('a' <= c <= 'z') || ('A' <= c <= 'Z') || ('0' <= c <= '9') || c == '-' || c == '_' || c == '.'
}

/// Whether a text can be an owner or a repository.
pub open spec fn is_segment(s: Seq<char>) -> bool {
    s.len() > 0 && forall|i: int| 0 <= i < s.len() ==> is_segment_char(#[trigger] s[i])
}

pub const GITHUB: &'static str = "https://github.com/";

/// The clone URL that a caller's URL stands for, or what is wrong with it.
pub open spec fn github_url(raw: Seq<char>) -> Result<Seq<char>, Seq<char>> {
    let url = without_last(trim(raw), '/');
    if !GITHUB@.is_prefix_of(url) {
        Err("URL must start with https://github.com/"@)
    } else {
        let parts = split(url.skip(GITHUB@.len() as int), '/');
        if parts.len() != 2 {
            Err("URL must look like https://github.com/<owner>/<repo>"@)
        } else {
            let owner = parts[0];
            let repo = without_suffix(parts[1], ".git"@);
            if !is_segment(owner) || !is_segment(repo) {
                Err("owner/repo contains invalid characters"@)
            } else {
                Ok(GITHUB@ + owner + "/"@ + repo)
            }
        }
    }
}

fn segment(s: &[char]) -> (r: bool)
    ensures
        r == is_segment(s@),
{
    let mut i: usize = 0;
    while i < s.len()
        invariant
            i <= s@.len(),
            forall|j: int| 0 <= j < i ==> is_segment_char(#[trigger] s@[j]),
        decreases s@.len() - i,
    {
        let c = s[i];
        if !(('a' <= c && c <= 'z') || ('A' <= c && c <= 'Z') || ('0' <= c && c <= '9') || c == '-' || c
            == '_' || c == '.') {
            return false;
        }
        i += 1;
    }
    s.len() > 0
}

fn strip_suffix<'a>(s: &'a [char], suffix: &[char]) -> (r: &'a [char])
    ensures
        r@ == without_suffix(s@, suffix@),
{
    if s.len() < suffix.len() {
        return s;
    }
    let at: usize = s.len() - suffix.len();
    let tail = slice_subrange(s, at, s.len());
    assert(tail@ =~= s@.skip(at as int));
    if same_chars(tail, suffix) {
        assert(s@.take(at as int) =~= s@.subrange(0, at as int));
        slice_subrange(s, 0, at)
    } else {
        s
    }
}

/// Accepts only `https://github.com/<owner>/<repo>[.git][/]`, rejecting
/// anything else. This is a security boundary as much as a UX one: git
/// supports transports that can execute commands, so a URL must never reach
/// `git clone` unvalidated. Returns a canonicalized clone URL rebuilt from the
/// validated parts (rather than the raw input) so stray query strings,
/// fragments, or credentials in the input cannot slip through.
pub fn validate_github_url(raw: &str) -> (r: Result<String, String>)
    ensures
        github_url(raw@) == (match r {
            Ok(url) => Ok(url@),
            Err(m) => Err(m@),
        }),
{
    let chars = to_chars(raw);
    let kept = trimmed(chars.as_slice());
    let n: usize = kept.len();
    let end: usize = if n > 0 && kept[n - 1] == '/' {
        n - 1
    } else {
        n
    };
    let url = slice_subrange(kept, 0, end);
    assert(url@ =~= without_last(trim(raw@), '/'));
    let prefix = to_chars(GITHUB);
    if !starts_with(url, prefix.as_slice()) {
        return Err("URL must start with https://github.com/".to_string());
    }
    let rest = slice_subrange(url, prefix.len(), url.len());
    assert(rest@ =~= url@.skip(GITHUB@.len() as int));
    let parts = split_at(rest, '/');
    let ghost all = rows(parts@);
    assert(all.len() == parts@.len());
    if parts.len() != 2 {
        return Err("URL must look like https://github.com/<owner>/<repo>".to_string());
    }
    assert(all[0] == parts@[0]@ && all[1] == parts@[1]@);
    let owner = parts[0].as_slice();
    let repo = strip_suffix(parts[1].as_slice(), to_chars(".git").as_slice());
    if !segment(owner) || !segment(repo) {
        return Err("owner/repo contains invalid characters".to_string());
    }
    let mut out = GITHUB.to_string();
    out.append(to_text(owner).as_str());
    out.append("/");
    out.append(to_text(repo).as_str());
    Ok(out)
}

/// The caller's request is at fault.
pub const BAD_REQUEST: u16 = 400;

/// The server is at fault.
pub const SERVER_ERROR: u16 = 500;

/// Why a request fails.
#[derive(Debug)]
pub struct ApiError {
    /// The status of the reply.
    pub status: u16,
    /// The detail behind an error never reaches the client: it may contain
    /// internal paths, subprocess stderr, or other implementation details.
    pub log_detail: String,
    /// What the client is told.
    pub public_message: &'static str,
}

pub struct ApiErrorView {
    pub status: u16,
    pub log_detail: Seq<char>,
    pub public_message: Seq<char>,
}

impl ApiError {
    pub open spec fn view(self) -> ApiErrorView {
        ApiErrorView {
            status: self.status,
            log_detail: self.log_detail@,
            public_message: self.public_message@,
        }
    }
}

/// An error that the caller can mend.
pub open spec fn callers_fault(log_detail: Seq<char>, public_message: Seq<char>) -> ApiErrorView {
    ApiErrorView { status: BAD_REQUEST, log_detail, public_message }
}

/// An error that the caller cannot mend, and is told nothing more of.
pub open spec fn servers_fault(log_detail: Seq<char>) -> ApiErrorView {
    ApiErrorView { status: SERVER_ERROR, log_detail, public_message: GENERIC_ERROR@ }
}

/// An error that the caller can mend.
pub fn bad_request(log_detail: String, public_message: &'static str) -> (r: ApiError)
    ensures
        r@ == callers_fault(log_detail@, public_message@),
{
    ApiError { status: BAD_REQUEST, log_detail, public_message }
}

/// An error that the caller cannot mend, and is told nothing more of.
pub fn server_error(log_detail: String) -> (r: ApiError)
    ensures
        r@ == servers_fault(log_detail@),
{
    ApiError { status: SERVER_ERROR, log_detail, public_message: GENERIC_ERROR }
}

/// The clone URL of a request, or why it is turned away. The URL is looked at
/// first.
pub open spec fn accepted(url: Seq<char>, budgets: Budgets) -> Result<Seq<char>, ApiErrorView> {
    match github_url(url) {
        Err(detail) => Err(callers_fault(detail, INVALID_URL_ERROR@)),
        Ok(clone) => match budget_fault(entries_of(budgets)) {
            Some(detail) => Err(callers_fault(detail, INVALID_BUDGET_ERROR@)),
            None => Ok(clone),
        },
    }
}

/// Decides on a request before anything is fetched for it: there is no reason
/// to spend a network fetch on one that cannot be linted.
pub fn accept(req: &LintRequest) -> (r: Result<String, ApiError>)
    ensures
        accepted(req.url@, req.budgets) == (match r {
            Ok(url) => Ok(url@),
            Err(e) => Err(e@),
        }),
{
    let clone = match validate_github_url(req.url.as_str()) {
        Ok(url) => url,
        Err(detail) => return Err(bad_request(detail, INVALID_URL_ERROR)),
    };
    match req.budgets.validate() {
        Ok(_) => Ok(clone),
        Err(detail) => Err(bad_request(detail, INVALID_BUDGET_ERROR)),
    }
}

/// How another program's run went.
#[derive(Debug)]
pub enum Ran {
    /// It took too long and was stopped.
    TimedOut,
    /// It could not be run, and why.
    Unrunnable(String),
    /// It exited with a code, or was killed, and this is its standard error.
    Exited(Option<i32>, String),
}

pub enum RanView {
    TimedOut,
    Unrunnable(Seq<char>),
    Exited(Option<i32>, Seq<char>),
}

impl Ran {
    pub open spec fn view(self) -> RanView {
        match self {
            Ran::TimedOut => RanView::TimedOut,
            Ran::Unrunnable(e) => RanView::Unrunnable(e@),
            Ran::Exited(code, stderr) => RanView::Exited(code, stderr@),
        }
    }
}

/// What a run of `git clone` means for the request.
pub open spec fn clone_fault(ran: RanView) -> Option<ApiErrorView> {
    match ran {
        RanView::TimedOut => Some(
            callers_fault(
                "cloning the repository timed out"@,
                "Cloning that repository timed out. Please try again."@,
            ),
        ),
        RanView::Unrunnable(e) => Some(servers_fault("failed to run git: "@ + e)),
        RanView::Exited(code, stderr) => if code == Some(0i32) {
            None
        } else {
            Some(
                callers_fault(
                    "git clone failed: "@ + trim(stderr),
                    "Could not clone that repository. Make sure the URL points to a public GitHub repository."@,
                ),
            )
        },
    }
}

/// What a run of the linter means for the request. It exits 0 (clean) or 1
/// (findings reported) on a successful run; anything else means the run itself
/// failed and there is no report.
pub open spec fn lint_fault(ran: RanView) -> Option<ApiErrorView> {
    match ran {
        RanView::TimedOut => Some(servers_fault("linting the repository timed out"@)),
        RanView::Unrunnable(e) => Some(servers_fault("failed to run lintmatter: "@ + e)),
        RanView::Exited(code, stderr) => if code == Some(EXIT_OK) || code == Some(EXIT_FINDINGS) {
            None
        } else {
            Some(servers_fault("lintmatter failed: "@ + trim(stderr)))
        },
    }
}

/// `head` followed by `detail` without the blanks around it.
fn with_detail(head: &str, detail: &str) -> (r: String)
    ensures
        r@ == head@ + trim(detail@),
{
    let chars = to_chars(detail);
    let mut m = head.to_owned();
    m.append(to_text(trimmed(chars.as_slice())).as_str());
    m
}

/// Whether a clone failed, and how the request then fails.
pub fn check_clone(ran: &Ran) -> (r: Option<ApiError>)
    ensures
        clone_fault(ran@) == (match r {
            Some(e) => Some(e@),
            None => None,
        }),
{
    match ran {
        Ran::TimedOut => Some(
            bad_request(
                "cloning the repository timed out".to_string(),
                "Cloning that repository timed out. Please try again.",
            ),
        ),
        Ran::Unrunnable(e) => {
            let mut m = "failed to run git: ".to_string();
            m.append(e.as_str());
            Some(server_error(m))
        },
        Ran::Exited(code, stderr) => {
            if let Some(n) = code {
                if *n == 0 {
                    return None;
                }
            }
            Some(
                bad_request(
                    with_detail("git clone failed: ", stderr.as_str()),
                    "Could not clone that repository. Make sure the URL points to a public GitHub repository.",
                ),
            )
        },
    }
}

/// Whether the linter has no report, and how the request then fails.
pub fn check_lint(ran: &Ran) -> (r: Option<ApiError>)
    ensures
        lint_fault(ran@) == (match r {
            Some(e) => Some(e@),
            None => None,
        }),
{
    match ran {
        Ran::TimedOut => Some(server_error("linting the repository timed out".to_string())),
        Ran::Unrunnable(e) => {
            let mut m = "failed to run lintmatter: ".to_string();
            m.append(e.as_str());
            Some(server_error(m))
        },
        Ran::Exited(code, stderr) => {
            if let Some(n) = code {
                if *n == EXIT_OK || *n == EXIT_FINDINGS {
                    return None;
                }
            }
            Some(server_error(with_detail("lintmatter failed: ", stderr.as_str())))
        },
    }
}

/// The budgets of a request as a reply tells them: every one by its name, null
/// where it was left out.
pub open spec fn budgets_tree(b: Budgets) -> JsonTree {
    JsonTree::Object(
        Map::<Seq<char>, JsonTree>::empty().insert(
            "max_agents_tokens"@,
            number_tree(b.max_agents_tokens),
        ).insert("max_skill_tokens"@, number_tree(b.max_skill_tokens)).insert(
            "max_skill_name_tokens"@,
            number_tree(b.max_skill_name_tokens),
        ).insert("max_skill_description_tokens"@, number_tree(b.max_skill_description_tokens)),
    )
}

/// What a request is answered once the linter has reported: its report with
/// the clone URL and the budgets, so that a saved report says which limits
/// produced it. A report that cannot be read is the server's fault.
pub open spec fn answered(
    read: Result<JsonTree, Seq<char>>,
    url: Seq<char>,
    budgets: Budgets,
) -> Result<JsonTree, ApiErrorView> {
    match read {
        Ok(report) => Ok(
            with_member(
                with_member(report, "url"@, JsonTree::Text(url)),
                "budgets"@,
                budgets_tree(budgets),
            ),
        ),
        Err(m) => Err(servers_fault("failed to parse lintmatter output: "@ + m)),
    }
}

/// What a reply says, or how the request fails.
pub open spec fn reply_view(r: Result<JsonValue, ApiError>) -> Result<JsonTree, ApiErrorView> {
    match r {
        Ok(value) => Ok(json_tree(value)),
        Err(e) => Err(e@),
    }
}

fn tell_budgets(b: &Budgets) -> (r: JsonValue)
    ensures
        json_tree(r) == budgets_tree(*b),
{
    let mut r = empty_object();
    put_member(&mut r, "max_agents_tokens", json_number(b.max_agents_tokens));
    put_member(&mut r, "max_skill_tokens", json_number(b.max_skill_tokens));
    put_member(&mut r, "max_skill_name_tokens", json_number(b.max_skill_name_tokens));
    put_member(&mut r, "max_skill_description_tokens", json_number(b.max_skill_description_tokens));
    r
}

/// Makes the reply of what the linter's output was read as.
pub fn reply(read: Result<JsonValue, String>, url: String, budgets: &Budgets) -> (r: Result<
    JsonValue,
    ApiError,
>)
    ensures
        reply_view(r) == answered(read_view(read), url@, *budgets),
{
    match read {
        Ok(report) => {
            let mut report = report;
            put_member(&mut report, "url", json_text(url));
            put_member(&mut report, "budgets", tell_budgets(budgets));
            Ok(report)
        },
        Err(m) => {
            let mut detail = "failed to parse lintmatter output: ".to_string();
            detail.append(m.as_str());
            Err(server_error(detail))
        },
    }
}

/// Answers a request by how the linter's run went and what it printed.
pub fn answer(url: String, budgets: &Budgets, ran: &Ran, stdout: &[u8]) -> (r: Result<
    JsonValue,
    ApiError,
>)
    ensures
        reply_view(r) == (match lint_fault(ran@) {
            Some(e) => Err(e),
            None => answered(json_read(stdout@), url@, *budgets),
        }),
{
    match check_lint(ran) {
        Some(e) => Err(e),
        None => reply(read_json(stdout), url, budgets),
    }
}

/// What a client is sent of an error: its public message and nothing else.
pub open spec fn error_tree(e: ApiErrorView) -> JsonTree {
    JsonTree::Object(
        Map::<Seq<char>, JsonTree>::empty().insert("error"@, JsonTree::Text(e.public_message)),
    )
}

/// Makes the reply of an error.
pub fn error_reply(e: &ApiError) -> (r: JsonValue)
    ensures
        json_tree(r) == error_tree(e@),
{
    let mut r = empty_object();
    put_member(&mut r, "error", json_text(e.public_message.to_string()));
    r
}

/// The arguments `git` gets to clone a URL.
pub fn clone_args(url: &str, dest: &str) -> (r: Vec<String>)
    ensures
        texts(r@) == seq!["clone"@, "--depth"@, "1"@, "--"@, url@, dest@],
{
    let mut r: Vec<String> = Vec::new();
    r.push("clone".to_string());
    r.push("--depth".to_string());
    r.push("1".to_string());
    r.push("--".to_string());
    r.push(url.to_owned());
    r.push(dest.to_owned());
    assert(texts(r@) =~= seq!["clone"@, "--depth"@, "1"@, "--"@, url@, dest@]);
    r
}

/// The arguments the linter gets to report on a clone.
pub fn lint_args(budgets: &Budgets) -> (r: Vec<String>)
    ensures
        texts(r@) == lint_command(*budgets),
{
    let mut flags = budgets.flags();
    let ghost rest = texts(flags@);
    let mut r: Vec<String> = Vec::new();
    r.push("--format".to_string());
    r.push("json".to_string());
    r.append(&mut flags);
    assert(texts(r@) =~= seq!["--format"@, "json"@] + rest);
    r
}

pub const DEFAULT_HOST: &'static str = "127.0.0.1";

pub const DEFAULT_PORT: u16 = 3000;

/// Builds the listen address. Platforms that route traffic to a port they hand
/// the process reach it only if the server listens on every interface, so a
/// deploy there sets the host. The default stays loopback: linting shells out
/// to `git clone` on a URL the caller supplies, which is not something a dev
/// machine should offer the rest of its network by accident.
pub fn bind_addr(host: &Option<String>, port: Option<u16>) -> (r: String)
    ensures
        r@ == (match *host {
            Some(h) => h@,
            None => DEFAULT_HOST@,
        }) + ":"@ + decimal(
            (match port {
                Some(p) => p,
                None => DEFAULT_PORT,
            }) as nat,
        ),
{
    let mut out = match host {
        Some(h) => h.clone(),
        None => DEFAULT_HOST.to_string(),
    };
    out.append(":");
    let p: u16 = match port {
        Some(p) => p,
        None => DEFAULT_PORT,
    };
    out.append(write_natural(p as u128).as_str());
    out
}

/// Whether `pattern` stands in `s` at `at`.
pub open spec fn stands_at(s: Seq<char>, pattern: Seq<char>, at: int) -> bool {
    0 <= at && at + pattern.len() <= s.len() && s.subrange(at, at + pattern.len()) == pattern
}

/// Whether `pattern` stands anywhere in `s`.
pub open spec fn mentions(s: Seq<char>, pattern: Seq<char>) -> bool {
    exists|at: int| #[trigger] stands_at(s, pattern, at)
}

/// `s` with every occurrence of `pattern` replaced, from left to right.
pub open spec fn replaced(s: Seq<char>, pattern: Seq<char>, with: Seq<char>) -> Seq<char>
    decreases s.len(),
{
    if s.len() == 0 || pattern.len() == 0 {
        s
    } else if stands_at(s, pattern, 0) {
        with + replaced(s.skip(pattern.len() as int), pattern, with)
    } else {
        seq![s[0]] + replaced(s.skip(1), pattern, with)
    }
}

fn is_at(s: &[char], pattern: &[char], at: usize) -> (r: bool)
    requires
        at <= s@.len(),
    ensures
        r == stands_at(s@, pattern@, at as int),
{
    if pattern.len() > s.len() - at {
        return false;
    }
    same_chars(slice_subrange(s, at, at + pattern.len()), pattern)
}

/// Whether a text mentions a pattern.
pub fn contains_text(s: &str, pattern: &str) -> (r: bool)
    ensures
        r == mentions(s@, pattern@),
{
    let text = to_chars(s);
    let wanted = to_chars(pattern);
    let mut at: usize = 0;
    while at < text.len()
        invariant
            at <= text@.len(),
            text@ == s@,
            wanted@ == pattern@,
            forall|k: int| 0 <= k < at ==> !#[trigger] stands_at(s@, pattern@, k),
        decreases text@.len() - at,
    {
        if is_at(text.as_slice(), wanted.as_slice(), at) {
            return true;
        }
        at += 1;
    }
    let last = is_at(text.as_slice(), wanted.as_slice(), at);
    assert(last == mentions(s@, pattern@)) by {
        if mentions(s@, pattern@) {
            let k = choose|k: int| #[trigger] stands_at(s@, pattern@, k);
            assert(k == at);
        }
    }
    last
}

/// Replaces every occurrence of a pattern.
pub fn replace_text(s: &str, pattern: &str, with: &str) -> (r: String)
    requires
        pattern@.len() > 0,
    ensures
        r@ == replaced(s@, pattern@, with@),
{
    let text = to_chars(s);
    let wanted = to_chars(pattern);
    let inserted = to_chars(with);
    let mut out: Vec<char> = Vec::new();
    let mut at: usize = 0;
    assert(text@.skip(0) =~= text@);
    assert(out@ + replaced(text@, pattern@, with@) =~= replaced(text@, pattern@, with@));
    while at < text.len()
        invariant
            at <= text@.len(),
            text@ == s@,
            wanted@ == pattern@,
            inserted@ == with@,
            pattern@.len() > 0,
            out@ + replaced(text@.skip(at as int), pattern@, with@) == replaced(
                s@,
                pattern@,
                with@,
            ),
        decreases text@.len() - at,
    {
        let ghost rest = text@.skip(at as int);
        let ghost before = out@;
        let here = is_at(text.as_slice(), wanted.as_slice(), at);
        assert(here == stands_at(rest, pattern@, 0)) by {
            if at + pattern@.len() <= text@.len() {
                assert(rest.subrange(0, pattern@.len() as int) =~= text@.subrange(
                    at as int,
                    at + pattern@.len(),
                ));
            }
        }
        if here {
            let mut piece = copy(inserted.as_slice());
            out.append(&mut piece);
            assert(rest.skip(pattern@.len() as int) =~= text@.skip(at + pattern@.len()));
            assert(before + (with@ + replaced(
                text@.skip(at + pattern@.len()),
                pattern@,
                with@,
            )) =~= (before + with@) + replaced(
                text@.skip(at + pattern@.len()),
                pattern@,
                with@,
            ));
            at += wanted.len();
        } else {
            out.push(text[at]);
            assert(rest.skip(1) =~= text@.skip(at + 1));
            assert(before + (seq![rest[0]] + replaced(text@.skip(at + 1), pattern@, with@)) =~= (
            before.push(rest[0])) + replaced(text@.skip(at + 1), pattern@, with@));
            at += 1;
        }
    }
    assert(text@.skip(at as int) =~= Seq::empty());
    assert(replaced(text@.skip(at as int), pattern@, with@) =~= Seq::empty());
    assert(out@ + Seq::<char>::empty() =~= out@);
    to_text(out.as_slice())
}

pub const PAGE_CLASS_PLACEHOLDER: &'static str = "{{PAGE_CLASS}}";

pub const PAGE_TITLE_PLACEHOLDER: &'static str = "{{PAGE_TITLE}}";

/// Where the page expects its token budget settings to be substituted in. The
/// form has to open on real numbers rather than blanks, and the only numbers
/// worth showing are the linter's own, so they are baked into the page here
/// instead of being fetched afterwards -- the form is never briefly wrong.
pub const BUDGETS_PLACEHOLDER: &'static str = "{{BUDGET_SETTINGS}}";

/// Fills the page's placeholder with the budget settings as JSON. Needs a page
/// that has the placeholder: serving a form with no budgets in it would look
/// like a styling bug while every run went out against nothing.
pub fn render_index(template: &str) -> (r: String)
    requires
        mentions(template@, BUDGETS_PLACEHOLDER@),
    ensures
        r@ == replaced(template@, BUDGETS_PLACEHOLDER@, settings_json()),
{
    proof {
        reveal_strlit("{{BUDGET_SETTINGS}}");
    }
    replace_text(template, BUDGETS_PLACEHOLDER, budget_settings_json().as_str())
}

/// The page with every placeholder filled in.
pub open spec fn page_of(template: Seq<char>, class: Seq<char>, title: Seq<char>) -> Seq<char> {
    replaced(
        replaced(
            replaced(template, BUDGETS_PLACEHOLDER@, settings_json()),
            PAGE_CLASS_PLACEHOLDER@,
            class,
        ),
        PAGE_TITLE_PLACEHOLDER@,
        title,
    )
}

/// Fills in every placeholder of the page.
pub fn render_page(template: &str, page_class: &str, page_title: &str) -> (r: String)
    requires
        mentions(template@, PAGE_CLASS_PLACEHOLDER@),
        mentions(template@, PAGE_TITLE_PLACEHOLDER@),
        mentions(template@, BUDGETS_PLACEHOLDER@),
    ensures
        r@ == page_of(template@, page_class@, page_title@),
{
    proof {
        reveal_strlit("{{PAGE_CLASS}}");
        reveal_strlit("{{PAGE_TITLE}}");
    }
    let page = render_index(template);
    let page = replace_text(page.as_str(), PAGE_CLASS_PLACEHOLDER, page_class);
    replace_text(page.as_str(), PAGE_TITLE_PLACEHOLDER, page_title)
}

/// A URL that is accepted is made of a fixed head, an owner and a repository,
/// and these hold nothing but letters, digits, hyphens, underscores and dots:
/// no further slash, no query, no fragment, no credentials.
pub proof fn lemma_accepted_url(raw: Seq<char>)
    requires
        github_url(raw) is Ok,
    ensures
        exists|owner: Seq<char>, repo: Seq<char>| #[trigger]
            is_segment(owner) && #[trigger] is_segment(repo) && github_url(raw)->Ok_0 == GITHUB@
                + owner + "/"@ + repo,
{
}

/// The detail behind an error never reaches the client: what another program
/// says, or why it could not be run, makes no difference to the reply.
pub proof fn lemma_nothing_leaks(code: Option<i32>, one: Seq<char>, other: Seq<char>)
    ensures
        same_reply(
            clone_fault(RanView::Exited(code, one)),
            clone_fault(RanView::Exited(code, other)),
        ),
        same_reply(
            clone_fault(RanView::Unrunnable(one)),
            clone_fault(RanView::Unrunnable(other)),
        ),
        same_reply(
            lint_fault(RanView::Exited(code, one)),
            lint_fault(RanView::Exited(code, other)),
        ),
        same_reply(lint_fault(RanView::Unrunnable(one)), lint_fault(RanView::Unrunnable(other))),
        forall|url: Seq<char>, budgets: Budgets|
            #![trigger answered(Err(one), url, budgets)]
            #![trigger answered(Err(other), url, budgets)]
            same_reply(
                fault_of(answered(Err(one), url, budgets)),
                fault_of(answered(Err(other), url, budgets)),
            ),
{
}

/// The error of a request that is not answered.
pub open spec fn fault_of(r: Result<JsonTree, ApiErrorView>) -> Option<ApiErrorView> {
    match r {
        Ok(_) => None,
        Err(e) => Some(e),
    }
}

/// An error of which a client sees no difference is answered the same, byte for
/// byte: the reply says the public message and nothing else.
pub proof fn lemma_same_error(a: ApiErrorView, b: ApiErrorView)
    requires
        same_reply(Some(a), Some(b)),
    ensures
        a.status == b.status,
        error_tree(a) == error_tree(b),
{
}

/// An answer is the linter's report, member for member, with the clone URL and
/// the budgets of the request.
pub proof fn lemma_answer(report: Map<Seq<char>, JsonTree>, url: Seq<char>, budgets: Budgets)
    ensures
        answered(Ok(JsonTree::Object(report)), url, budgets) matches Ok(JsonTree::Object(sent)) && {
            &&& sent.dom() == report.dom().insert("url"@).insert("budgets"@)
            &&& sent["url"@] == JsonTree::Text(url)
            &&& sent["budgets"@] == budgets_tree(budgets)
            &&& forall|key: Seq<char>|
                key != "url"@ && key != "budgets"@ && report.dom().contains(key)
                    ==> #[trigger] sent[key] == report[key]
        },
{
    reveal_strlit("url");
    reveal_strlit("budgets");
    assert("url"@.len() == 3 && "budgets"@.len() == 7);
    let sent = report.insert("url"@, JsonTree::Text(url)).insert(
        "budgets"@,
        budgets_tree(budgets),
    );
    assert(sent.dom() =~= report.dom().insert("url"@).insert("budgets"@));
}

/// Whether a client sees no difference between two errors.
pub open spec fn same_reply(a: Option<ApiErrorView>, b: Option<ApiErrorView>) -> bool {
    match (a, b) {
        (Some(x), Some(y)) => x.status == y.status && x.public_message == y.public_message,
        (None, None) => true,
        _ => false,
    }
}

/// Budgets that are accepted reach the linter as they are: each one that is
/// set as its flag and its value, in flag order, and the others not at all.
pub proof fn lemma_flags(b: Budgets)
    ensures
        flags_of(entries_of(b)) == flag_pair("--max-agents-tokens"@, b.max_agents_tokens)
            + flag_pair("--max-skill-tokens"@, b.max_skill_tokens) + flag_pair(
            "--max-skill-name-tokens"@,
            b.max_skill_name_tokens,
        ) + flag_pair("--max-skill-description-tokens"@, b.max_skill_description_tokens),
{
    let all = entries_of(b);
    reveal_with_fuel(flags_of, 5);
    assert(all.drop_last().drop_last().drop_last().drop_last() =~= Seq::empty());
    assert(all.drop_last().drop_last().drop_last().last() == all[0]);
    assert(all.drop_last().drop_last().last() == all[1]);
    assert(all.drop_last().last() == all[2]);
    assert(all.last() == all[3]);
    let one = flag_pair("--max-agents-tokens"@, b.max_agents_tokens);
    let two = one + flag_pair("--max-skill-tokens"@, b.max_skill_tokens);
    let three = two + flag_pair("--max-skill-name-tokens"@, b.max_skill_name_tokens);
    assert(flags_of(all.drop_last().drop_last().drop_last()) =~= one);
    assert(flags_of(all.drop_last().drop_last()) =~= two);
    assert(flags_of(all.drop_last()) =~= three);
    assert(flags_of(all) =~= three + flag_pair(
        "--max-skill-description-tokens"@,
        b.max_skill_description_tokens,
    ));
}

/// A flag and its value, if it has one.
pub open spec fn flag_pair(flag: Seq<char>, value: Option<i64>) -> Seq<Seq<char>> {
    match value {
        Some(n) => seq![flag, decimal_int(n as int)],
        None => Seq::empty(),
    }
}

/// Whether no part of `with` can be taken for a part of `pattern` where the two
/// meet other text: `pattern` holds no two characters that `with` starts with,
/// does not end where `with` starts, and does not start inside `with`.
pub open spec fn apart(with: Seq<char>, pattern: Seq<char>) -> bool {
    &&& with.len() >= 2
    &&& pattern.len() >= 2
    &&& forall|j: int|
        0 <= j < pattern.len() - 1 ==> !(#[trigger] pattern[j] == with[0] && pattern[j + 1]
            == with[1])
    &&& with[0] != pattern.last()
    &&& forall|i: int|
        1 <= i < with.len() ==> !(#[trigger] with[i] == pattern[0] && (i + 1 == with.len()
            || with[i + 1] == pattern[1]))
}

proof fn lemma_prefix_kept(
    s: Seq<char>,
    pattern: Seq<char>,
    with: Seq<char>,
    other: Seq<char>,
    k: int,
)
    requires
        pattern.len() > 0,
        apart(with, other),
        0 <= k <= other.len(),
        other.skip(k).is_prefix_of(replaced(s, pattern, with)),
    ensures
        other.skip(k).is_prefix_of(s),
    decreases s.len(),
{
    let q = other.skip(k);
    let out = replaced(s, pattern, with);
    if q.len() > 0 && s.len() > 0 {
        assert(q[0] == out[0]);
        if stands_at(s, pattern, 0) {
            assert(out[0] == with[0] && out[1] == with[1]);
            if q.len() == 1 {
                assert(q[0] == other.last());
            } else {
                assert(q[1] == out[1]);
                assert(other[k] == with[0] && other[k + 1] == with[1]);
            }
            assert(false);
        } else {
            let rest = replaced(s.skip(1), pattern, with);
            assert(out.skip(1) =~= rest);
            assert(other.skip(k + 1) =~= q.skip(1));
            assert(other.skip(k + 1).is_prefix_of(rest)) by {
                assert forall|i: int| 0 <= i < q.len() - 1 implies #[trigger] other.skip(k + 1)[i]
                    == rest[i] by {
                    assert(q[i + 1] == out[i + 1]);
                }
                assert(rest.take(q.len() - 1) =~= other.skip(k + 1));
            }
            lemma_prefix_kept(s.skip(1), pattern, with, other, k + 1);
            assert forall|i: int| 0 <= i < q.len() implies #[trigger] q[i] == s[i] by {
                if i > 0 {
                    assert(other.skip(k + 1)[i - 1] == s.skip(1)[i - 1]);
                }
            }
            assert(s.take(q.len() as int) =~= q);
        }
    } else if q.len() == 0 {
        assert(s.take(0) =~= q);
    }
}

/// Filling in one placeholder brings none back, neither itself nor another that
/// was gone before, as long as what is filled in is apart from it.
pub proof fn lemma_placeholder_gone(
    s: Seq<char>,
    pattern: Seq<char>,
    with: Seq<char>,
    other: Seq<char>,
)
    requires
        pattern.len() > 0,
        apart(with, other),
        other == pattern || !mentions(s, other),
    ensures
        !mentions(replaced(s, pattern, with), other),
    decreases s.len(),
{
    let out = replaced(s, pattern, with);
    if mentions(out, other) {
        let at = choose|at: int| #[trigger] stands_at(out, other, at);
        let found = out.subrange(at, at + other.len());
        assert(found[0] == out[at] && found[1] == out[at + 1]);
        if s.len() == 0 {
            assert(false);
        } else if stands_at(s, pattern, 0) {
            let tail = s.skip(pattern.len() as int);
            let rest = replaced(tail, pattern, with);
            if at >= with.len() {
                lemma_skip_mentions(s, pattern.len() as int, other);
                lemma_placeholder_gone(tail, pattern, with, other);
                assert(rest.subrange(at - with.len(), at - with.len() + other.len()) =~= found);
                assert(stands_at(rest, other, at - with.len()));
            } else if at > 0 {
                assert(with[at] == other[0]);
                assert(at + 1 < with.len() ==> with[at + 1] == other[1]);
            } else {
                assert(other[0] == with[0] && other[1] == with[1]);
            }
        } else {
            let tail = s.skip(1);
            let rest = replaced(tail, pattern, with);
            if at > 0 {
                lemma_skip_mentions(s, 1, other);
                lemma_placeholder_gone(tail, pattern, with, other);
                assert(rest.subrange(at - 1, at - 1 + other.len()) =~= found);
                assert(stands_at(rest, other, at - 1));
            } else {
                assert(other.skip(0) =~= other);
                assert(out.take(other.len() as int) =~= found);
                lemma_prefix_kept(s, pattern, with, other, 0);
                assert(s.subrange(0, other.len() as int) =~= other) by {
                    assert(s.take(other.len() as int) =~= other);
                }
                assert(stands_at(s, other, 0));
            }
        }
    }
}

proof fn lemma_skip_mentions(s: Seq<char>, n: int, pattern: Seq<char>)
    requires
        0 <= n <= s.len(),
    ensures
        mentions(s.skip(n), pattern) ==> mentions(s, pattern),
{
    if mentions(s.skip(n), pattern) {
        let at = choose|at: int| #[trigger] stands_at(s.skip(n), pattern, at);
        assert(s.subrange(n + at, n + at + pattern.len()) =~= s.skip(n).subrange(
            at,
            at + pattern.len(),
        ));
        assert(stands_at(s, pattern, n + at));
    }
}

/// Whether every opening brace is followed by a quote.
spec fn quotes_braces(s: Seq<char>) -> bool {
    forall|i: int| 0 <= i < s.len() && #[trigger] s[i] == '{' ==> i + 1 < s.len() && s[i + 1] == '"'
}

proof fn lemma_quotes_add(a: Seq<char>, b: Seq<char>)
    requires
        quotes_braces(a),
        quotes_braces(b),
    ensures
        quotes_braces(a + b),
{
    assert forall|i: int| 0 <= i < (a + b).len() && #[trigger] (a + b)[i] == '{' implies i + 1 < (a
        + b).len() && (a + b)[i + 1] == '"' by {
        if i < a.len() {
            assert(a[i] == '{');
        } else {
            assert(b[i - a.len()] == '{');
        }
    }
}

proof fn lemma_number_quotes(n: int)
    requires
        n >= 0,
    ensures
        quotes_braces(decimal_int(n)),
{
    lemma_read_decimal(n as nat);
    assert forall|i: int| 0 <= i < decimal_int(n).len() implies #[trigger] decimal_int(n)[i]
        != '{' by {
        assert(is_digit(decimal(n as nat)[i]));
    }
}

proof fn lemma_settings_apart()
    ensures
        apart(settings_json(), BUDGETS_PLACEHOLDER@),
{
    reveal_strlit("{\"defaults\":{\"max_agents_tokens\":");
    reveal_strlit(",\"max_skill_tokens\":");
    reveal_strlit(",\"max_skill_name_tokens\":");
    reveal_strlit(",\"max_skill_description_tokens\":");
    reveal_strlit("},\"max\":");
    reveal_strlit("}");
    reveal_strlit("{{BUDGET_SETTINGS}}");
    lemma_number_quotes(DEFAULT_MAX_AGENTS_TOKENS as int);
    lemma_number_quotes(DEFAULT_MAX_SKILL_TOKENS as int);
    lemma_number_quotes(DEFAULT_MAX_SKILL_NAME_TOKENS as int);
    lemma_number_quotes(DEFAULT_MAX_SKILL_DESCRIPTION_TOKENS as int);
    lemma_number_quotes(MAX_BUDGET as int);
    let a = "{\"defaults\":{\"max_agents_tokens\":"@;
    let b = a + decimal_int(DEFAULT_MAX_AGENTS_TOKENS as int);
    let c = b + ",\"max_skill_tokens\":"@;
    let d = c + decimal_int(DEFAULT_MAX_SKILL_TOKENS as int);
    let e = d + ",\"max_skill_name_tokens\":"@;
    let f = e + decimal_int(DEFAULT_MAX_SKILL_NAME_TOKENS as int);
    let g = f + ",\"max_skill_description_tokens\":"@;
    let h = g + decimal_int(DEFAULT_MAX_SKILL_DESCRIPTION_TOKENS as int);
    let i = h + "},\"max\":"@;
    let j = i + decimal_int(MAX_BUDGET as int);
    assert(quotes_braces(a));
    lemma_quotes_add(a, decimal_int(DEFAULT_MAX_AGENTS_TOKENS as int));
    lemma_quotes_add(b, ",\"max_skill_tokens\":"@);
    lemma_quotes_add(c, decimal_int(DEFAULT_MAX_SKILL_TOKENS as int));
    lemma_quotes_add(d, ",\"max_skill_name_tokens\":"@);
    lemma_quotes_add(e, decimal_int(DEFAULT_MAX_SKILL_NAME_TOKENS as int));
    lemma_quotes_add(f, ",\"max_skill_description_tokens\":"@);
    lemma_quotes_add(g, decimal_int(DEFAULT_MAX_SKILL_DESCRIPTION_TOKENS as int));
    lemma_quotes_add(h, "},\"max\":"@);
    lemma_quotes_add(i, decimal_int(MAX_BUDGET as int));
    lemma_quotes_add(j, "}"@);
    assert(settings_json()[0] == a[0] && settings_json()[1] == a[1]);
}

/// The page that is served carries no placeholder: it has the linter's own
/// defaults, and not a text that the form would fail to read.
pub proof fn lemma_rendered_page(template: Seq<char>, class: Seq<char>, title: Seq<char>)
    requires
        apart(class, BUDGETS_PLACEHOLDER@),
        apart(class, PAGE_CLASS_PLACEHOLDER@),
        apart(title, BUDGETS_PLACEHOLDER@),
        apart(title, PAGE_CLASS_PLACEHOLDER@),
        apart(title, PAGE_TITLE_PLACEHOLDER@),
    ensures
        !mentions(page_of(template, class, title), BUDGETS_PLACEHOLDER@),
        !mentions(page_of(template, class, title), PAGE_CLASS_PLACEHOLDER@),
        !mentions(page_of(template, class, title), PAGE_TITLE_PLACEHOLDER@),
{
    lemma_settings_apart();
    let b = BUDGETS_PLACEHOLDER@;
    let c = PAGE_CLASS_PLACEHOLDER@;
    let t = PAGE_TITLE_PLACEHOLDER@;
    let one = replaced(template, b, settings_json());
    lemma_placeholder_gone(template, b, settings_json(), b);
    let two = replaced(one, c, class);
    lemma_placeholder_gone(one, c, class, b);
    lemma_placeholder_gone(one, c, class, c);
    lemma_placeholder_gone(two, t, title, b);
    lemma_placeholder_gone(two, t, title, c);
    lemma_placeholder_gone(two, t, title, t);
}

proof fn lemma_plain_flag(name: Seq<char>)
    requires
        name.len() > 0,
        forall|i: int| 0 <= i < name.len() ==> #[trigger] name[i] != '=',
    ensures
        flag_parts("--"@ + name) == (name, None::<Seq<char>>),
        is_flag("--"@ + name),
        "--"@ + name != "--"@,
{
    reveal_strlit("--");
    reveal_strlit("-");
    let token = "--"@ + name;
    assert(token.take(2) =~= seq!['-', '-']);
    assert(token.skip(2) =~= name);
    lemma_first_index(name, '=', 0);
    assert(token.len() == 2 + name.len());
    assert("--"@.len() == 2 && "-"@.len() == 1);
}

/// A budget on the command line is taken in with its value.
proof fn lemma_budget_taken(args: Seq<Seq<char>>, p: ParserView, name: Seq<char>, n: i64)
    requires
        0 <= p.at,
        p.at + 1 < args.len(),
        name.len() > 0,
        forall|i: int| 0 <= i < name.len() ==> #[trigger] name[i] != '=',
        is_budget(name),
        args[p.at] == "--"@ + name,
        args[p.at + 1] == decimal_int(n as int),
        n >= 0,
    ensures
        walked(args, p) == walked(
            args,
            ParserView { flags: with_budget(p.flags, name, n), at: p.at + 2, ..p },
        ),
{
    lemma_plain_flag(name);
    lemma_read_decimal_int(n as int);
}

/// The command line up to and with one more budget, if it is set.
proof fn lemma_budget_walked(
    args: Seq<Seq<char>>,
    before: Seq<Seq<char>>,
    flag: Seq<char>,
    name: Seq<char>,
    value: Option<i64>,
    p: ParserView,
)
    requires
        p.at == before.len(),
        (before + flag_pair(flag, value)).is_prefix_of(args),
        flag == "--"@ + name,
        name.len() > 0,
        forall|i: int| 0 <= i < name.len() ==> #[trigger] name[i] != '=',
        is_budget(name),
        value matches Some(n) ==> n >= 0,
    ensures
        walked(args, p) == walked(
            args,
            ParserView {
                flags: match value {
                    Some(n) => with_budget(p.flags, name, n),
                    None => p.flags,
                },
                at: (before + flag_pair(flag, value)).len() as int,
                ..p
            },
        ),
{
    let whole = before + flag_pair(flag, value);
    match value {
        Some(n) => {
            assert(whole.len() == before.len() + 2);
            assert(args[p.at] == whole[before.len() as int]);
            assert(args[p.at + 1] == whole[before.len() as int + 1]);
            lemma_budget_taken(args, p, name, n);
        },
        None => {
            assert(whole =~= before);
        },
    }
}

/// The command line that the linter gets for a request.
pub open spec fn lint_command(b: Budgets) -> Seq<Seq<char>> {
    seq!["--format"@, "json"@] + flags_of(entries_of(b))
}

/// The linter understands what it is given: a report as JSON, under exactly the
/// budgets of the request, and everything else as it is without flags.
pub proof fn lemma_lint_command(b: Budgets)
    requires
        budget_fault(entries_of(b)) is None,
    ensures
        parsed(lint_command(b)) == ParsedView::Flags(
            FlagsView {
                format: "json"@,
                max_agents_tokens: b.max_agents_tokens,
                max_skill_tokens: b.max_skill_tokens,
                max_skill_name_tokens: b.max_skill_name_tokens,
                max_skill_description_tokens: b.max_skill_description_tokens,
                ..FlagsView::unset()
            },
        ),
{
    reveal_strlit("--");
    reveal_strlit("--format");
    reveal_strlit("format");
    reveal_strlit("--max-agents-tokens");
    reveal_strlit("max-agents-tokens");
    reveal_strlit("--max-skill-tokens");
    reveal_strlit("max-skill-tokens");
    reveal_strlit("--max-skill-name-tokens");
    reveal_strlit("max-skill-name-tokens");
    reveal_strlit("--max-skill-description-tokens");
    reveal_strlit("max-skill-description-tokens");
    assert("--format"@ =~= "--"@ + "format"@);
    assert("--max-agents-tokens"@ =~= "--"@ + "max-agents-tokens"@);
    assert("--max-skill-tokens"@ =~= "--"@ + "max-skill-tokens"@);
    assert("--max-skill-name-tokens"@ =~= "--"@ + "max-skill-name-tokens"@);
    assert("--max-skill-description-tokens"@ =~= "--"@ + "max-skill-description-tokens"@);
    lemma_no_fault(b);
    lemma_flags(b);
    let args = lint_command(b);
    let start = ParserView { flags: FlagsView::unset(), at: 0, negative: Seq::empty() };
    let head = seq!["--format"@, "json"@];
    let f0 = flag_pair("--max-agents-tokens"@, b.max_agents_tokens);
    let f1 = flag_pair("--max-skill-tokens"@, b.max_skill_tokens);
    let f2 = flag_pair("--max-skill-name-tokens"@, b.max_skill_name_tokens);
    let f3 = flag_pair("--max-skill-description-tokens"@, b.max_skill_description_tokens);
    assert(args =~= head + f0 + f1 + f2 + f3);
    let p0 = ParserView { flags: FlagsView { format: "json"@, ..start.flags }, at: 2, ..start };
    lemma_format_taken(args, start);
    lemma_budget_walked(
        args,
        head,
        "--max-agents-tokens"@,
        "max-agents-tokens"@,
        b.max_agents_tokens,
        p0,
    );
    let p1 = ParserView {
        flags: FlagsView { max_agents_tokens: b.max_agents_tokens, ..p0.flags },
        at: (head + f0).len() as int,
        ..p0
    };
    lemma_budget_walked(
        args,
        head + f0,
        "--max-skill-tokens"@,
        "max-skill-tokens"@,
        b.max_skill_tokens,
        p1,
    );
    let p2 = ParserView {
        flags: FlagsView { max_skill_tokens: b.max_skill_tokens, ..p1.flags },
        at: (head + f0 + f1).len() as int,
        ..p1
    };
    lemma_budget_walked(
        args,
        head + f0 + f1,
        "--max-skill-name-tokens"@,
        "max-skill-name-tokens"@,
        b.max_skill_name_tokens,
        p2,
    );
    let p3 = ParserView {
        flags: FlagsView { max_skill_name_tokens: b.max_skill_name_tokens, ..p2.flags },
        at: (head + f0 + f1 + f2).len() as int,
        ..p2
    };
    lemma_budget_walked(
        args,
        head + f0 + f1 + f2,
        "--max-skill-description-tokens"@,
        "max-skill-description-tokens"@,
        b.max_skill_description_tokens,
        p3,
    );
    assert(args.skip(args.len() as int) =~= Seq::empty());
}

/// The format flag is none of the flags that are looked at before it.
proof fn lemma_format_name()
    ensures
        !is_budget("format"@),
        "format"@ != "h"@ && "format"@ != "help"@ && "format"@ != "version"@,
        "format"@ != "list-rules"@ && "format"@ != "strict"@ && "format"@ != "quiet"@,
        "format"@ != "no-config"@,
{
    reveal_strlit("format");
    reveal_strlit("max-agents-tokens");
    reveal_strlit("max-skill-tokens");
    reveal_strlit("max-skill-name-tokens");
    reveal_strlit("max-skill-description-tokens");
    reveal_strlit("h");
    reveal_strlit("help");
    reveal_strlit("version");
    reveal_strlit("list-rules");
    reveal_strlit("strict");
    reveal_strlit("quiet");
    reveal_strlit("no-config");
    assert("format"@.len() == 6 && "h"@.len() == 1 && "help"@.len() == 4 && "version"@.len() == 7
        && "list-rules"@.len() == 10 && "quiet"@.len() == 5 && "no-config"@.len() == 9
        && "max-agents-tokens"@.len() == 17 && "max-skill-tokens"@.len() == 16
        && "max-skill-name-tokens"@.len() == 21 && "max-skill-description-tokens"@.len() == 28);
    assert("format"@[0] == 'f' && "strict"@[0] == 's');
}

proof fn lemma_format_taken(args: Seq<Seq<char>>, p: ParserView)
    requires
        p.at == 0,
        args.len() >= 2,
        args[0] == "--"@ + "format"@,
        args[1] == "json"@,
    ensures
        walked(args, p) == walked(
            args,
            ParserView { flags: FlagsView { format: "json"@, ..p.flags }, at: 2, ..p },
        ),
{
    assert("format"@.len() == 6 && !"format"@.contains('=')) by {
        reveal_strlit("format");
    }
    lemma_format_name();
    lemma_plain_flag("format"@);
    let next = ParserView { flags: FlagsView { format: "json"@, ..p.flags }, at: 2, ..p };
    assert(flag_parts(args[0]) == ("format"@, None::<Seq<char>>));
    assert(value_of(args, 0, "format"@, None) == Ok::<(Seq<char>, int), Seq<char>>(("json"@, 1int)));
    assert(flag_taken(args, p) == Ok::<ParserView, Halt>(next));
}

/// Budgets without a fault lie within bounds.
proof fn lemma_no_fault(b: Budgets)
    requires
        budget_fault(entries_of(b)) is None,
    ensures
        b.max_agents_tokens matches Some(n) ==> 0 <= n <= MAX_BUDGET,
        b.max_skill_tokens matches Some(n) ==> 0 <= n <= MAX_BUDGET,
        b.max_skill_name_tokens matches Some(n) ==> 0 <= n <= MAX_BUDGET,
        b.max_skill_description_tokens matches Some(n) ==> 0 <= n <= MAX_BUDGET,
{
    let all = entries_of(b);
    reveal_with_fuel(budget_fault, 5);
    assert(all.drop_last().drop_last().drop_last().last() == all[0]);
    assert(all.drop_last().drop_last().last() == all[1]);
    assert(all.drop_last().last() == all[2]);
    assert(all.last() == all[3]);
}

} // verus!
