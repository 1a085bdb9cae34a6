//! The contract every lint rule implements.

use vstd::prelude::*;

use super::{ContextView, FileContext, FindingSink, Outcome};
use crate::discover::Kind;

verus! {

/// One check the linter can perform.
///
/// There is one implementor per rule id, not per family, so the registry's
/// order is the only place report order is written down: it drives
/// `--list-rules`, `--disable` validation, and the order findings come out in.
/// A rule that has nothing to say simply returns without touching the sink.
pub trait Rule {
    /// The id, as characters.
    spec fn label(&self) -> Seq<char>;

    /// Which file kinds this rule judges.
    spec fn covers(&self, kind: Kind) -> bool;

    /// What the rule makes of a file.
    spec fn outcome(&self, ctx: ContextView) -> Outcome;

    /// The id used by `--disable`, `--list-rules` and the reports.
    fn id(&self) -> (r: &'static str)
        ensures
            r@ == self.label(),
    ;

    /// Which file kinds this rule judges. Most rules validate the skill spec
    /// and so apply to SKILL.md alone.
    fn applies_to(&self, kind: Kind) -> (r: bool)
        ensures
            r == self.covers(kind),
    ;

    /// Runs the check. The sink already knows this rule's id and handles
    /// `--strict`, so implementors only describe what is wrong and where.
    fn check(&self, ctx: &FileContext<'_>, sink: &mut FindingSink)
        requires
            ctx.wf(),
        ensures
            final(sink)@ == old(sink)@.after(self.outcome(ctx@)),
    ;
}

} // verus!
