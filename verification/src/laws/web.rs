//! What the web front end takes, and what it answers.

use vstd::prelude::*;

use crate::laws::paths::lemma_split;
use crate::laws::targets::lemma_trimmed;
use crate::number::decimal_int;
use crate::text::{is_white, lemma_join_split, split, trim};
use crate::web::{
    accepted, answered, budget_fault, budgets_tree, clone_fault, entries_of, error_tree, github_url,
    is_segment, is_segment_char, lint_fault, mentions, page_of, replaced, settings_json, stands_at,
    without_last, without_suffix, ApiErrorView, Budgets, RanView, DEFAULT_HOST, DEFAULT_PORT,
};
use crate::wire::{number_tree, JsonTree};

verus! {

/// Whether a text can name an owner or a repository.
pub open spec fn is_slug(s: Seq<char>) -> bool {
    s.len() > 0 && forall|i: int|
        0 <= i < s.len() ==> ('a' <= #[trigger] s[i] <= 'z') || ('A' <= s[i] <= 'Z') || ('0' <= s[i]
            <= '9') || s[i] == '-' || s[i] == '_' || s[i] == '.'
}

proof fn lemma_slug(s: Seq<char>)
    ensures
        is_slug(s) <==> is_segment(s),
        is_slug(s) ==> !s.contains('/'),
        is_slug(s) ==> !is_white(s[0]) && !is_white(s[s.len() - 1]),
{
    if is_slug(s) {
        assert forall|i: int| 0 <= i < s.len() implies is_segment_char(#[trigger] s[i]) by {}
    }
    if is_segment(s) {
        assert forall|i: int| 0 <= i < s.len() implies ('a' <= #[trigger] s[i] <= 'z') || ('A'
            <= s[i] <= 'Z') || ('0' <= s[i] <= '9') || s[i] == '-' || s[i] == '_' || s[i] == '.' by {
            assert(is_segment_char(s[i]));
        }
    }
}

/// Whether a text ends in `.git`.
pub open spec fn ends_in_git(s: Seq<char>) -> bool {
    s.len() >= 4 && s[s.len() - 4] == '.' && s[s.len() - 3] == 'g' && s[s.len() - 2] == 'i' && s[s.len()
        - 1] == 't'
}

proof fn lemma_git(s: Seq<char>)
    ensures
        ends_in_git(s) ==> without_suffix(s, ".git"@) == s.take(s.len() - 4),
        !ends_in_git(s) ==> without_suffix(s, ".git"@) == s,
        ".git"@ == seq!['.', 'g', 'i', 't'],
{
    reveal_strlit(".git");
    assert(".git"@ =~= seq!['.', 'g', 'i', 't']);
    if s.len() >= 4 {
        let end = s.skip(s.len() - 4);
        if ends_in_git(s) {
            assert(end =~= ".git"@);
        }
        if end == ".git"@ {
            assert(end[0] == '.' && end[1] == 'g' && end[2] == 'i' && end[3] == 't');
        }
    }
}

/// What may follow the repository in a URL.
pub open spec fn is_url_end(s: Seq<char>) -> bool {
    s == Seq::<char>::empty() || s == seq!['/'] || s == seq!['.', 'g', 'i', 't'] || s == seq![
        '.',
        'g',
        'i',
        't',
        '/',
    ]
}

proof fn lemma_url(url: Seq<char>)
    requires
        url.len() > 0 ==> !is_white(url[0]) && !is_white(url[url.len() - 1]),
    ensures
        trim(url) == url,
{
    lemma_trimmed(Seq::empty(), url, Seq::empty());
    assert(Seq::<char>::empty() + url + Seq::<char>::empty() =~= url);
}

proof fn lemma_good_url(owner: Seq<char>, repo: Seq<char>, url: Seq<char>, last: Seq<char>)
    requires
        is_slug(owner) && is_slug(repo) && is_slug(last),
        without_suffix(last, ".git"@) == repo,
        url == "https://github.com/"@ + owner + seq!['/'] + last || url == "https://github.com/"@
            + owner + seq!['/'] + last + seq!['/'],
    ensures
        !is_white(url[0]) && !is_white(url[url.len() - 1]),
        forall|raw: Seq<char>| #[trigger] trim(raw) == url ==> github_url(raw) == Ok::<
            Seq<char>,
            Seq<char>,
        >("https://github.com/"@ + owner + "/"@ + repo),
{
    reveal_strlit("https://github.com/");
    reveal_strlit("/");
    let head = "https://github.com/"@;
    let bare = head + owner + seq!['/'] + last;
    lemma_slug(owner);
    lemma_slug(repo);
    lemma_slug(last);
    assert(url[0] == 'h');
    if url == bare {
        assert(url[url.len() - 1] == last[last.len() - 1]);
        assert(last.contains(last[last.len() - 1]));
    } else {
        assert(url[url.len() - 1] == '/');
        assert(url.drop_last() =~= bare);
    }
    assert(bare.last() == last[last.len() - 1]);
    assert(last.contains(last[last.len() - 1]));
    assert(without_last(url, '/') == bare);
    assert(bare.take(head.len() as int) =~= head);
    assert(head.is_prefix_of(bare));
    assert(bare.skip(head.len() as int) =~= owner + seq!['/'] + last);
    lemma_split(owner, '/', last);
    lemma_split(last, '/', last);
    let parts = split(owner + seq!['/'] + last, '/');
    assert(parts =~= seq![owner, last]);
}

/// A URL of an owner's repository is accepted, with `.git` and a slash behind
/// it or without, and with white space around it, and stands for the plain URL
/// of the repository.
pub proof fn lemma_url_accepted(
    a: Seq<char>,
    owner: Seq<char>,
    repo: Seq<char>,
    end: Seq<char>,
    b: Seq<char>,
)
    requires
        forall|i: int| 0 <= i < a.len() ==> is_white(#[trigger] a[i]),
        forall|i: int| 0 <= i < b.len() ==> is_white(#[trigger] b[i]),
        is_slug(owner) && is_slug(repo),
        is_url_end(end),
        ends_in_git(repo) ==> end.len() >= 4,
    ensures
        github_url(a + ("https://github.com/"@ + owner + seq!['/'] + repo + end) + b) == Ok::<
            Seq<char>,
            Seq<char>,
        >("https://github.com/"@ + owner + "/"@ + repo),
{
    let git = seq!['.', 'g', 'i', 't'];
    let head = "https://github.com/"@;
    let url = head + owner + seq!['/'] + repo + end;
    let last = if end.len() >= 4 {
        repo + git
    } else {
        repo
    };
    lemma_git(last);
    if end.len() >= 4 {
        assert(ends_in_git(last));
        assert(last.take(last.len() - 4) =~= repo);
        assert forall|i: int| 0 <= i < last.len() implies ('a' <= #[trigger] last[i] <= 'z') || ('A'
            <= last[i] <= 'Z') || ('0' <= last[i] <= '9') || last[i] == '-' || last[i] == '_'
            || last[i] == '.' by {
            if i < repo.len() {
                assert(last[i] == repo[i]);
            } else {
                assert(last[i] == git[i - repo.len()]);
            }
        }
    }
    let bare = head + owner + seq!['/'] + last;
    if end == seq!['/'] || end == seq!['.', 'g', 'i', 't', '/'] {
        assert(url =~= bare + seq!['/']);
    } else {
        assert(url =~= bare);
    }
    lemma_good_url(owner, repo, url, last);
    lemma_trimmed(a, url, b);
    assert(trim(a + url + b) == url);
}

/// No other URL is.
pub proof fn lemma_url_refused(raw: Seq<char>)
    requires
        github_url(raw) is Ok,
    ensures
        exists|owner: Seq<char>, repo: Seq<char>, end: Seq<char>|
            is_slug(owner) && is_slug(repo) && #[trigger] is_url_end(end) && trim(raw)
                == #[trigger] ("https://github.com/"@ + owner + seq!['/'] + repo) + end
                && github_url(raw)->Ok_0 == "https://github.com/"@ + owner + "/"@ + repo,
{
    reveal_strlit("https://github.com/");
    let head = "https://github.com/"@;
    let whole = trim(raw);
    let url = without_last(whole, '/');
    let rest = url.skip(head.len() as int);
    let parts = split(rest, '/');
    let owner = parts[0];
    let last = parts[1];
    let repo = without_suffix(last, ".git"@);
    lemma_join_split(rest, '/');
    assert(parts =~= seq![owner, last]);
    let two = seq![owner, last];
    assert(two.drop_last() =~= seq![owner]);
    assert(crate::text::join(seq![owner], seq!['/']) == owner);
    assert(rest == owner + seq!['/'] + last);
    assert(url =~= head + rest) by {
        assert(url.take(head.len() as int) == head);
        assert(url.take(head.len() as int) + rest =~= url);
    }
    lemma_git(last);
    lemma_slug(owner);
    lemma_slug(repo);
    let git = seq!['.', 'g', 'i', 't'];
    let end = if ends_in_git(last) {
        git
    } else {
        Seq::empty()
    };
    assert(last =~= repo + end);
    let slash = if whole.len() > 0 && whole.last() == '/' {
        seq!['/']
    } else {
        Seq::empty()
    };
    assert(whole =~= url + slash);
    let tail = end + slash;
    if ends_in_git(last) {
        if slash.len() > 0 {
            assert(tail =~= seq!['.', 'g', 'i', 't', '/']);
        } else {
            assert(tail =~= git);
        }
    } else {
        assert(tail =~= slash);
    }
    assert(is_url_end(tail));
    assert(whole =~= (head + owner + seq!['/'] + repo) + tail);
}

/// A budget of a request is a whole number from 0 to 1000000. The first that is
/// not is told.
pub proof fn lemma_budget_range(b: Budgets)
    ensures
        budget_fault(entries_of(b)) is None <==> {
            &&& b.max_agents_tokens matches Some(n) ==> 0 <= n <= 1000000
            &&& b.max_skill_tokens matches Some(n) ==> 0 <= n <= 1000000
            &&& b.max_skill_name_tokens matches Some(n) ==> 0 <= n <= 1000000
            &&& b.max_skill_description_tokens matches Some(n) ==> 0 <= n <= 1000000
        },
        b.max_agents_tokens matches Some(n) ==> !(0 <= n <= 1000000) ==> budget_fault(entries_of(b))
            == Some(
            "--max-agents-tokens"@ + " is "@ + decimal_int(n as int) + ", outside 0..="@
                + decimal_int(1000000),
        ),
{
    let all = entries_of(b);
    reveal_with_fuel(budget_fault, 5);
    let three = all.drop_last();
    let two = three.drop_last();
    let one = two.drop_last();
    assert(one.drop_last() =~= Seq::empty());
    assert(one.last() == all[0]);
    assert(two.last() == all[1]);
    assert(three.last() == all[2]);
    assert(all.last() == all[3]);
}

/// Whether an error is told to the caller as theirs to mend.
pub open spec fn is_callers(e: ApiErrorView, message: Seq<char>) -> bool {
    e.status == 400 && e.public_message == message
}

/// Whether an error is the server's, of which a caller is told nothing more.
pub open spec fn is_servers(e: ApiErrorView) -> bool {
    e.status == 500 && e.public_message
        == "Something went wrong while linting that repository. Please try again later."@
}

/// A request is turned away for its URL, or else for its budgets, and is
/// otherwise taken with the plain URL of its repository.
pub proof fn lemma_request(url: Seq<char>, b: Budgets)
    ensures
        github_url(url) is Err ==> (accepted(url, b) matches Err(e) && is_callers(
            e,
            "That doesn't look like a valid GitHub repository URL. Expected format: https://github.com/<owner>/<repo>"@,
        )),
        github_url(url) is Ok && budget_fault(entries_of(b)) is Some ==> (accepted(url, b) matches Err(
            e,
        ) && is_callers(
            e,
            "Token budgets must be whole numbers from 0 to 1000000 (0 turns that check off)."@,
        )),
        github_url(url) matches Ok(clone) ==> budget_fault(entries_of(b)) is None ==> accepted(url, b)
            == Ok::<Seq<char>, ApiErrorView>(clone),
{
}

/// A clone that worked ended with code 0; one that did not, or took too long,
/// is the caller's to mend, and a git that did not run is not.
pub proof fn lemma_clone(code: Option<i32>, stderr: Seq<char>)
    ensures
        clone_fault(RanView::Exited(code, stderr)) is None <==> code == Some(0i32),
        code != Some(0i32) ==> (clone_fault(RanView::Exited(code, stderr)) matches Some(e)
            && is_callers(
            e,
            "Could not clone that repository. Make sure the URL points to a public GitHub repository."@,
        ) && e.log_detail == "git clone failed: "@ + trim(stderr)),
        clone_fault(RanView::TimedOut) matches Some(e) && is_callers(
            e,
            "Cloning that repository timed out. Please try again."@,
        ),
        clone_fault(RanView::Unrunnable(stderr)) matches Some(e) && is_servers(e) && e.log_detail
            == "failed to run git: "@ + stderr,
{
}

/// The linter ran where it ended with code 0 or code 1. All else is the
/// server's fault.
pub proof fn lemma_lint(code: Option<i32>, stderr: Seq<char>)
    ensures
        lint_fault(RanView::Exited(code, stderr)) is None <==> code == Some(0i32) || code == Some(
            1i32,
        ),
        lint_fault(RanView::Exited(code, stderr)) matches Some(e) ==> is_servers(e) && e.log_detail
            == "lintmatter failed: "@ + trim(stderr),
        lint_fault(RanView::TimedOut) matches Some(e) && is_servers(e),
        lint_fault(RanView::Unrunnable(stderr)) matches Some(e) && is_servers(e) && e.log_detail
            == "failed to run lintmatter: "@ + stderr,
{
}

/// A reply tells every budget under its own name: its number, or null where the
/// request has none.
pub proof fn lemma_budgets_told(b: Budgets)
    ensures
        budgets_tree(b) matches JsonTree::Object(m) && {
            &&& m.dom() == set![
                "max_agents_tokens"@,
                "max_skill_tokens"@,
                "max_skill_name_tokens"@,
                "max_skill_description_tokens"@,
            ]
            &&& m["max_agents_tokens"@] == number_tree(b.max_agents_tokens)
            &&& m["max_skill_tokens"@] == number_tree(b.max_skill_tokens)
            &&& m["max_skill_name_tokens"@] == number_tree(b.max_skill_name_tokens)
            &&& m["max_skill_description_tokens"@] == number_tree(b.max_skill_description_tokens)
        },
        number_tree(None) == JsonTree::Null,
        forall|n: i64| #[trigger]
            number_tree(Some(n)) == JsonTree::Number(decimal_int(n as int)),
{
    reveal_strlit("max_agents_tokens");
    reveal_strlit("max_skill_tokens");
    reveal_strlit("max_skill_name_tokens");
    reveal_strlit("max_skill_description_tokens");
    assert("max_agents_tokens"@.len() == 17 && "max_skill_tokens"@.len() == 16
        && "max_skill_name_tokens"@.len() == 21 && "max_skill_description_tokens"@.len() == 28);
    let m = budgets_tree(b)->Object_0;
    assert(m.dom() =~= set![
        "max_agents_tokens"@,
        "max_skill_tokens"@,
        "max_skill_name_tokens"@,
        "max_skill_description_tokens"@,
    ]);
}

/// A report that cannot be read is the server's fault.
pub proof fn lemma_unread_report(m: Seq<char>, url: Seq<char>, b: Budgets)
    ensures
        answered(Err(m), url, b) matches Err(e) && is_servers(e) && e.log_detail
            == "failed to parse lintmatter output: "@ + m,
{
}

/// Filling in a text puts it in the place of the first mention of what stands
/// for it, and goes on behind it. A text that does not mention it stays as it
/// is.
pub proof fn lemma_filled(a: Seq<char>, pattern: Seq<char>, b: Seq<char>, with: Seq<char>)
    requires
        pattern.len() > 0,
        forall|i: int| 0 <= i < a.len() ==> !stands_at(a + pattern + b, pattern, i),
    ensures
        replaced(a + pattern + b, pattern, with) == a + with + replaced(b, pattern, with),
    decreases a.len(),
{
    let s = a + pattern + b;
    if a.len() == 0 {
        assert(s.subrange(0, pattern.len() as int) =~= pattern);
        assert(stands_at(s, pattern, 0));
        assert(s.skip(pattern.len() as int) =~= b);
        assert(a + with =~= with);
    } else {
        assert(!stands_at(s, pattern, 0));
        let rest = a.skip(1);
        assert(s.skip(1) =~= rest + pattern + b);
        assert forall|i: int| 0 <= i < rest.len() implies !stands_at(rest + pattern + b, pattern, i) by {
            assert(!stands_at(s, pattern, i + 1));
            if i + pattern.len() <= (rest + pattern + b).len() {
                assert((rest + pattern + b).subrange(i, i + pattern.len()) =~= s.subrange(
                    i + 1,
                    i + 1 + pattern.len(),
                ));
            }
        }
        lemma_filled(rest, pattern, b, with);
        assert(s[0] == a[0]);
        assert(seq![s[0]] + (rest + with + replaced(b, pattern, with)) =~= a + with + replaced(
            b,
            pattern,
            with,
        ));
    }
}

/// A text without the mention stays as it is.
pub proof fn lemma_not_filled(s: Seq<char>, pattern: Seq<char>, with: Seq<char>)
    requires
        !mentions(s, pattern),
    ensures
        replaced(s, pattern, with) == s,
    decreases s.len(),
{
    if s.len() > 0 && pattern.len() > 0 {
        assert(!stands_at(s, pattern, 0));
        assert(!mentions(s.skip(1), pattern)) by {
            if mentions(s.skip(1), pattern) {
                let at = choose|at: int| #[trigger] stands_at(s.skip(1), pattern, at);
                assert(s.skip(1).subrange(at, at + pattern.len()) =~= s.subrange(
                    at + 1,
                    at + 1 + pattern.len(),
                ));
                assert(stands_at(s, pattern, at + 1));
            }
        }
        lemma_not_filled(s.skip(1), pattern, with);
        assert(seq![s[0]] + s.skip(1) =~= s);
    }
}

/// The page is filled in with the budgets that a bare run has and the most that
/// a request may ask for, then with its class and its title.
pub proof fn lemma_page(template: Seq<char>, class: Seq<char>, title: Seq<char>)
    ensures
        page_of(template, class, title) == replaced(
            replaced(
                replaced(template, "{{BUDGET_SETTINGS}}"@, settings_json()),
                "{{PAGE_CLASS}}"@,
                class,
            ),
            "{{PAGE_TITLE}}"@,
            title,
        ),
        settings_json() == "{\"defaults\":{\"max_agents_tokens\":"@ + decimal_int(2500)
            + ",\"max_skill_tokens\":"@ + decimal_int(5000) + ",\"max_skill_name_tokens\":"@
            + decimal_int(16) + ",\"max_skill_description_tokens\":"@ + decimal_int(100)
            + "},\"max\":"@ + decimal_int(1000000) + "}"@,
{
}

/// A client is sent the public message of an error and nothing else.
pub proof fn lemma_error_sent(e: ApiErrorView)
    ensures
        error_tree(e) matches JsonTree::Object(m) && m.dom() == set!["error"@] && m["error"@]
            == JsonTree::Text(e.public_message),
{
    let m = error_tree(e)->Object_0;
    assert(m.dom() =~= set!["error"@]);
}

/// What is wrong with a URL.
pub proof fn lemma_url_faults(raw: Seq<char>, rest: Seq<char>)
    ensures
        !("https://github.com/"@.is_prefix_of(without_last(trim(raw), '/'))) ==> github_url(raw) == Err::<
            Seq<char>,
            Seq<char>,
        >("URL must start with https://github.com/"@),
        without_last(trim(raw), '/') == "https://github.com/"@ + rest && split(rest, '/').len() != 2
            ==> github_url(raw) == Err::<Seq<char>, Seq<char>>(
            "URL must look like https://github.com/<owner>/<repo>"@,
        ),
{
    let head = "https://github.com/"@;
    if without_last(trim(raw), '/') == head + rest {
        assert((head + rest).take(head.len() as int) =~= head);
        assert((head + rest).skip(head.len() as int) =~= rest);
    }
}

/// The server listens where nobody says otherwise on this machine alone.
pub proof fn lemma_default_address()
    ensures
        DEFAULT_HOST@ == "127.0.0.1"@,
        DEFAULT_PORT == 3000,
{
}

} // verus!
