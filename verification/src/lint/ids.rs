//! Rule ids. Listed here so callers -- and `--disable` -- can name a rule
//! without knowing which module implements it.

use vstd::prelude::*;

use crate::text::same;

verus! {

pub const RULE_FRONTMATTER_MISSING: &'static str = "frontmatter.missing";

pub const RULE_FRONTMATTER_NOT_FIRST: &'static str = "frontmatter.not-first";

pub const RULE_FRONTMATTER_UNTERMINATED: &'static str = "frontmatter.unterminated";

pub const RULE_FRONTMATTER_INVALID: &'static str = "frontmatter.invalid";

pub const RULE_FRONTMATTER_UNKNOWN_KEY: &'static str = "frontmatter.unknown-key";

pub const RULE_NAME_REQUIRED: &'static str = "name.required";

pub const RULE_NAME_FORMAT: &'static str = "name.format";

pub const RULE_NAME_LENGTH: &'static str = "name.length";

pub const RULE_NAME_DIR_MISMATCH: &'static str = "name.dir-mismatch";

pub const RULE_DESCRIPTION_REQUIRED: &'static str = "description.required";

pub const RULE_DESCRIPTION_LENGTH: &'static str = "description.length";

pub const RULE_ALLOWED_TOOLS_TYPE: &'static str = "allowed-tools.type";

pub const RULE_METADATA_TYPE: &'static str = "metadata.type";

pub const RULE_TOKENS_CONTENT: &'static str = "tokens.content";

pub const RULE_TOKENS_NAME: &'static str = "tokens.name";

pub const RULE_TOKENS_DESCRIPTION: &'static str = "tokens.description";

pub const RULE_FILE_REFERENCE_MISSING: &'static str = "file-reference.missing";

/// Every rule id, in report order.
pub open spec fn ids() -> Seq<Seq<char>> {
    seq![
        RULE_FRONTMATTER_MISSING@,
        RULE_FRONTMATTER_NOT_FIRST@,
        RULE_FRONTMATTER_UNTERMINATED@,
        RULE_FRONTMATTER_INVALID@,
        RULE_FRONTMATTER_UNKNOWN_KEY@,
        RULE_NAME_REQUIRED@,
        RULE_NAME_FORMAT@,
        RULE_NAME_LENGTH@,
        RULE_NAME_DIR_MISMATCH@,
        RULE_DESCRIPTION_REQUIRED@,
        RULE_DESCRIPTION_LENGTH@,
        RULE_ALLOWED_TOOLS_TYPE@,
        RULE_METADATA_TYPE@,
        RULE_TOKENS_CONTENT@,
        RULE_TOKENS_NAME@,
        RULE_TOKENS_DESCRIPTION@,
        RULE_FILE_REFERENCE_MISSING@,
    ]
}

/// The views of a list of string slices.
pub open spec fn strs(v: Seq<&'static str>) -> Seq<Seq<char>> {
    Seq::new(v.len(), |i: int| v[i]@)
}

/// Every rule id the linter can emit, in report order.
pub fn rule_ids() -> (r: Vec<&'static str>)
    ensures
        strs(r@) == ids(),
{
    let r = vec![
        RULE_FRONTMATTER_MISSING,
        RULE_FRONTMATTER_NOT_FIRST,
        RULE_FRONTMATTER_UNTERMINATED,
        RULE_FRONTMATTER_INVALID,
        RULE_FRONTMATTER_UNKNOWN_KEY,
        RULE_NAME_REQUIRED,
        RULE_NAME_FORMAT,
        RULE_NAME_LENGTH,
        RULE_NAME_DIR_MISMATCH,
        RULE_DESCRIPTION_REQUIRED,
        RULE_DESCRIPTION_LENGTH,
        RULE_ALLOWED_TOOLS_TYPE,
        RULE_METADATA_TYPE,
        RULE_TOKENS_CONTENT,
        RULE_TOKENS_NAME,
        RULE_TOKENS_DESCRIPTION,
        RULE_FILE_REFERENCE_MISSING,
    ];
    assert(strs(r@) =~= ids());
    r
}

/// Whether `id` names a rule.
pub fn is_rule(id: &str) -> (r: bool)
    ensures
        r == ids().contains(id@),
{
    let all = rule_ids();
    let mut i: usize = 0;
    while i < all.len()
        invariant
            i <= all@.len(),
            strs(all@) == ids(),
            forall|j: int| 0 <= j < i ==> ids()[j] != id@,
        decreases all@.len() - i,
    {
        assert(ids()[i as int] == all@[i as int]@);
        if same(all[i], id) {
            return true;
        }
        i += 1;
    }
    false
}

/// No two rules share an id, and none looks like a number.
pub proof fn lemma_ids(i: int, j: int)
    requires
        0 <= i < ids().len(),
        0 <= j < ids().len(),
    ensures
        i != j ==> ids()[i] != ids()[j],
        ids()[i].len() > 0,
        'a' <= ids()[i][0] <= 'z',
{
    reveal_strlit("frontmatter.missing");
    reveal_strlit("frontmatter.not-first");
    reveal_strlit("frontmatter.unterminated");
    reveal_strlit("frontmatter.invalid");
    reveal_strlit("frontmatter.unknown-key");
    reveal_strlit("name.required");
    reveal_strlit("name.format");
    reveal_strlit("name.length");
    reveal_strlit("name.dir-mismatch");
    reveal_strlit("description.required");
    reveal_strlit("description.length");
    reveal_strlit("allowed-tools.type");
    reveal_strlit("metadata.type");
    reveal_strlit("tokens.content");
    reveal_strlit("tokens.name");
    reveal_strlit("tokens.description");
    reveal_strlit("file-reference.missing");
    let all = ids();
    assert(all[0].len() == 19);
    assert(all[1].len() == 21);
    assert(all[2].len() == 24);
    assert(all[3].len() == 19);
    assert(all[4].len() == 23);
    assert(all[5].len() == 13);
    assert(all[6].len() == 11);
    assert(all[7].len() == 11);
    assert(all[8].len() == 17);
    assert(all[9].len() == 20);
    assert(all[10].len() == 18);
    assert(all[11].len() == 18);
    assert(all[12].len() == 13);
    assert(all[13].len() == 14);
    assert(all[14].len() == 11);
    assert(all[15].len() == 18);
    assert(all[16].len() == 22);
    assert(all[0][12] != all[3][12]);
    assert(all[5][0] != all[12][0]);
    assert(all[6][5] != all[7][5]);
    assert(all[6][0] != all[14][0]);
    assert(all[7][0] != all[14][0]);
    assert(all[10][0] != all[11][0]);
    assert(all[10][0] != all[15][0]);
    assert(all[11][0] != all[15][0]);
}

/// A rule id is made of small letters, dots and hyphens.
pub proof fn lemma_id_chars(i: int)
    requires
        0 <= i < ids().len(),
    ensures
        5 < ids()[i].len() <= 24,
        forall|k: int|
            0 <= k < ids()[i].len() ==> ('a' <= #[trigger] ids()[i][k] <= 'z') || ids()[i][k] == '.'
                || ids()[i][k] == '-',
{
    reveal_strlit("frontmatter.missing");
    reveal_strlit("frontmatter.not-first");
    reveal_strlit("frontmatter.unterminated");
    reveal_strlit("frontmatter.invalid");
    reveal_strlit("frontmatter.unknown-key");
    reveal_strlit("name.required");
    reveal_strlit("name.format");
    reveal_strlit("name.length");
    reveal_strlit("name.dir-mismatch");
    reveal_strlit("description.required");
    reveal_strlit("description.length");
    reveal_strlit("allowed-tools.type");
    reveal_strlit("metadata.type");
    reveal_strlit("tokens.content");
    reveal_strlit("tokens.name");
    reveal_strlit("tokens.description");
    reveal_strlit("file-reference.missing");
}

} // verus!
