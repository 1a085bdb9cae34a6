//! How rules are counted toward a score.

use vstd::prelude::*;

use crate::lint::score::{applied_count, failed_count, part_of, Part};
use crate::lint::MarkView;

verus! {

/// The places of the marks of rules that feed a part.
pub open spec fn places_of(list: Seq<MarkView>, p: Part) -> Set<int> {
    Set::new(|i: int| 0 <= i < list.len() && part_of(list[i].rule) == Some(p))
}

/// The places of the failed marks of rules that feed a part.
pub open spec fn failed_places(list: Seq<MarkView>, p: Part) -> Set<int> {
    Set::new(|i: int| 0 <= i < list.len() && part_of(list[i].rule) == Some(p) && list[i].failed)
}

/// The places of the passed marks of rules that feed a part.
pub open spec fn passed_places(list: Seq<MarkView>, p: Part) -> Set<int> {
    Set::new(|i: int| 0 <= i < list.len() && part_of(list[i].rule) == Some(p) && !list[i].failed)
}

/// Every rule of a part that ran counts once, and every one that failed counts
/// once against it: the counts are how many marks there are. The marks that
/// passed and those that failed are all of them.
pub proof fn lemma_every_mark_counts(list: Seq<MarkView>, p: Part)
    ensures
        places_of(list, p).finite(),
        failed_places(list, p).finite(),
        passed_places(list, p).finite(),
        applied_count(list, p) == places_of(list, p).len(),
        failed_count(list, p) == failed_places(list, p).len(),
        failed_places(list, p).len() + passed_places(list, p).len() == places_of(list, p).len(),
    decreases list.len(),
{
    if list.len() == 0 {
        assert(places_of(list, p) =~= Set::empty());
        assert(failed_places(list, p) =~= Set::empty());
        assert(passed_places(list, p) =~= Set::empty());
    } else {
        let init = list.drop_last();
        let n = init.len() as int;
        lemma_every_mark_counts(init, p);
        assert forall|i: int| 0 <= i < n implies list[i] == init[i] by {}
        if part_of(list.last().rule) == Some(p) {
            assert(places_of(list, p) =~= places_of(init, p).insert(n));
            if list.last().failed {
                assert(failed_places(list, p) =~= failed_places(init, p).insert(n));
                assert(passed_places(list, p) =~= passed_places(init, p));
            } else {
                assert(failed_places(list, p) =~= failed_places(init, p));
                assert(passed_places(list, p) =~= passed_places(init, p).insert(n));
            }
        } else {
            assert(places_of(list, p) =~= places_of(init, p));
            assert(failed_places(list, p) =~= failed_places(init, p));
            assert(passed_places(list, p) =~= passed_places(init, p));
        }
    }
}

/// One more mark of a part raises how many ran by one, and how many failed by
/// one if it failed; a mark of another part changes neither.
pub proof fn lemma_one_more_mark(list: Seq<MarkView>, mark: MarkView, p: Part)
    ensures
        part_of(mark.rule) == Some(p) ==> applied_count(list.push(mark), p) == applied_count(list, p)
            + 1,
        part_of(mark.rule) == Some(p) && mark.failed ==> failed_count(list.push(mark), p)
            == failed_count(list, p) + 1,
        part_of(mark.rule) == Some(p) && !mark.failed ==> failed_count(list.push(mark), p)
            == failed_count(list, p),
        part_of(mark.rule) != Some(p) ==> applied_count(list.push(mark), p) == applied_count(list, p)
            && failed_count(list.push(mark), p) == failed_count(list, p),
{
    assert(list.push(mark).drop_last() =~= list);
}

/// The part that a rule feeds is told by its id: the budgets by `tokens.`, the
/// references by `file-reference.`, and the front matter by what it is about.
pub proof fn lemma_parts_by_name()
    ensures
        part_of("frontmatter.missing"@) == Some(Part::Frontmatter),
        part_of("frontmatter.not-first"@) == Some(Part::Frontmatter),
        part_of("frontmatter.unterminated"@) == Some(Part::Frontmatter),
        part_of("frontmatter.invalid"@) == Some(Part::Frontmatter),
        part_of("frontmatter.unknown-key"@) == Some(Part::Frontmatter),
        part_of("name.required"@) == Some(Part::Frontmatter),
        part_of("name.format"@) == Some(Part::Frontmatter),
        part_of("name.length"@) == Some(Part::Frontmatter),
        part_of("name.dir-mismatch"@) == Some(Part::Frontmatter),
        part_of("description.required"@) == Some(Part::Frontmatter),
        part_of("description.length"@) == Some(Part::Frontmatter),
        part_of("allowed-tools.type"@) == Some(Part::Frontmatter),
        part_of("metadata.type"@) == Some(Part::Frontmatter),
        part_of("tokens.content"@) == Some(Part::Tokens),
        part_of("tokens.name"@) == Some(Part::Tokens),
        part_of("tokens.description"@) == Some(Part::Tokens),
        part_of("file-reference.missing"@) == Some(Part::FileReferences),
        forall|rule: Seq<char>| #[trigger]
            part_of(rule) == Some(Part::Tokens) ==> rule.len() > 7 && rule.take(7) == "tokens."@,
        forall|rule: Seq<char>| #[trigger]
            part_of(rule) == Some(Part::FileReferences) ==> rule.len() > 15 && rule.take(15)
                == "file-reference."@,
{
    reveal_strlit("frontmatter.missing");
    reveal_strlit("frontmatter.not-first");
    reveal_strlit("frontmatter.unterminated");
    reveal_strlit("frontmatter.invalid");
    reveal_strlit("frontmatter.unknown-key");
    reveal_strlit("name.required");
    reveal_strlit("name.format");
    reveal_strlit("name.length");
    reveal_strlit("name.dir-mismatch");
    reveal_strlit("description.required");
    reveal_strlit("description.length");
    reveal_strlit("allowed-tools.type");
    reveal_strlit("metadata.type");
    reveal_strlit("tokens.content");
    reveal_strlit("tokens.name");
    reveal_strlit("tokens.description");
    reveal_strlit("file-reference.missing");
    reveal_strlit("tokens.");
    reveal_strlit("file-reference.");
    assert("tokens.content"@.take(7) =~= "tokens."@);
    assert("tokens.name"@.take(7) =~= "tokens."@);
    assert("tokens.description"@.take(7) =~= "tokens."@);
    assert("file-reference.missing"@.take(15) =~= "file-reference."@);
    assert("frontmatter.missing"@[0] == 'f' && "frontmatter.missing"@[1] == 'r');
    assert("frontmatter.not-first"@[0] == 'f' && "frontmatter.not-first"@[1] == 'r');
    assert("frontmatter.unterminated"@[0] == 'f' && "frontmatter.unterminated"@[1] == 'r');
    assert("tokens.content"@[0] == 't' && "tokens.name"@[0] == 't' && "tokens.description"@[0] == 't');
    assert("name.format"@[0] == 'n' && "name.length"@[0] == 'n' && "name.required"@[0] == 'n'
        && "name.dir-mismatch"@[0] == 'n');
    assert("description.required"@[0] == 'd' && "description.length"@[0] == 'd');
    assert("allowed-tools.type"@[0] == 'a' && "metadata.type"@[0] == 'm');
    assert("file-reference.missing"@[0] == 'f' && "file-reference.missing"@[1] == 'i');
    assert("frontmatter.invalid"@[1] == 'r' && "frontmatter.unknown-key"@[1] == 'r');
}

} // verus!
