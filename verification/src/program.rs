//! Where a command line goes: to the wizard or to the linter.

use vstd::prelude::*;

use crate::cli::is_init;
use crate::run;
use crate::text::texts;
use crate::wizard;

verus! {

/// What a command line sets off: where it stands, and what is needed next.
pub enum Job {
    Wizard(wizard::Stage, wizard::Action),
    Lint(run::Stage, run::Action),
}

pub enum JobView {
    Wizard(wizard::StageView, wizard::ActionView),
    Lint(run::StageView, run::ActionView),
}

impl Job {
    pub open spec fn view(self) -> JobView {
        match self {
            Job::Wizard(stage, action) => JobView::Wizard(stage@, action@),
            Job::Lint(stage, action) => JobView::Lint(stage@, action@),
        }
    }
}

/// What a command line sets off. Where its first word is `init`, that is the
/// wizard with the rest of it, before any flag is read.
pub open spec fn launched(args: Seq<Seq<char>>, around: run::SurroundingsView) -> JobView {
    if args.len() > 0 && args[0] == "init"@ {
        let (stage, action) = wizard::started(args.skip(1));
        JobView::Wizard(stage, action)
    } else {
        let (stage, action) = run::started(args, around);
        JobView::Lint(stage, action)
    }
}

/// Starts what a command line asks for.
pub fn launch(args: &[String], around: &run::Surroundings) -> (r: Job)
    ensures
        r@ == launched(texts(args@), around@),
        r matches Job::Lint(stage, _) ==> stage.wf(around@.cwd),
{
    assert(args@.len() > 0 ==> texts(args@)[0] == args@[0]@);
    if is_init(args) {
        let rest = vstd::slice::slice_subrange(args, 1, args.len());
        assert(texts(rest@) =~= texts(args@).skip(1));
        let (stage, action) = wizard::start(rest);
        Job::Wizard(stage, action)
    } else {
        let (stage, action) = run::start(args, around);
        Job::Lint(stage, action)
    }
}

/// A command line that starts with `init` is the wizard's, whatever follows and
/// wherever it is given: nothing is linted. Every other one is the linter's.
pub proof fn lemma_init_first(
    rest: Seq<Seq<char>>,
    args: Seq<Seq<char>>,
    around: run::SurroundingsView,
)
    ensures
        launched(seq!["init"@] + rest, around) == JobView::Wizard(
            wizard::started(rest).0,
            wizard::started(rest).1,
        ),
        launched(args, around) is Wizard <==> args.len() > 0 && args[0] == "init"@,
        launched(args, around) is Lint ==> launched(args, around) == JobView::Lint(
            run::started(args, around).0,
            run::started(args, around).1,
        ),
{
    assert((seq!["init"@] + rest).skip(1) =~= rest);
}

} // verus!
