//! Splits a markdown file into YAML front matter and body, keeping enough
//! position information to anchor lint findings to the right line.

use vstd::prelude::*;
use vstd::slice::slice_subrange;
use vstd::utf8::encode_utf8;

use crate::text::{
    join, join_with, lemma_join_append, lemma_join_len, lemma_join_split, lemma_split_join,
    list_items, rows, same, split, split_at, split_items, texts, to_chars, to_text, trim, trimmed,
};
use crate::number::{decimal, decimal_int, is_digit, lemma_read_decimal};
use crate::yaml::{
    cr_ends_lines, is_placed_key, is_plain, is_plain_key, is_plain_scalar, is_plain_value,
    is_remark, is_word, is_word_char, is_written, keys_inside, lemma_escaped_line, lines_within,
    load, loaded_view, misses_key, node_views, only_comments, pair_views, part_lines, plain_entries,
    plain_lines, read_back, reads_plain, scalar_chars, scalar_meant, scalar_read, scalar_string,
    scalar_text, scalar_written, text_read, value_read, yaml, Data, DataView, Fault, FaultView,
    Node, NodeView, PlainPart, PlainScalar, PlainValue,
};

verus! {

/// Classifies a malformed front-matter block. The linter maps each kind onto a
/// rule id.
#[derive(Debug, Clone, Copy, PartialEq, Eq, Structural)]
pub enum ErrKind {
    /// The fence exists but something precedes it.
    NotFirst,
    /// The opening fence is never closed.
    Unterminated,
    /// The block is not parseable YAML.
    InvalidYaml,
    /// The block parses but is not a key/value mapping.
    NotMapping,
}

/// Describes why a front-matter block could not be used.
#[derive(Debug, Clone)]
pub struct Error {
    pub kind: ErrKind,
    /// 1-based line in the file, 0 when unknown.
    pub line: usize,
    pub msg: String,
}

/// An owned, simplified YAML value: enough shape information for the rules.
#[derive(Debug)]
pub enum Value {
    Scalar(String),
    Sequence(Vec<Value>),
    Mapping,
    Other,
}

#[derive(Debug)]
struct Entry {
    key_line: usize,
    value: Value,
}

/// A parsed front-matter block.
#[derive(Debug)]
pub struct Frontmatter {
    /// Whether the file opened with a front-matter fence.
    pub present: bool,
    /// 1-based line of the closing fence, 0 when absent.
    pub end_line: usize,
    keys: Vec<String>,
    entries: Vec<Entry>,
}

/// A markdown file split into its front matter and body.
///
/// `error` describes a malformed block: `body` is still populated in that
/// case, so token budgets can be reported for a file whose front matter did
/// not parse.
#[derive(Debug)]
pub struct Document {
    pub frontmatter: Frontmatter,
    pub body: String,
    pub error: Option<Error>,
}

pub enum ValueView {
    Scalar(Seq<char>),
    Sequence(Seq<ValueView>),
    Mapping,
    Other,
}

pub struct EntryView {
    pub key: Seq<char>,
    pub line: int,
    pub value: ValueView,
}

#[verifier::ext_equal]
pub struct FrontmatterView {
    pub present: bool,
    pub end_line: int,
    pub entries: Seq<EntryView>,
}

pub struct ErrorView {
    pub kind: ErrKind,
    pub line: int,
    pub msg: Seq<char>,
}

#[verifier::ext_equal]
pub struct DocumentView {
    pub frontmatter: FrontmatterView,
    pub body: Seq<char>,
    pub error: Option<ErrorView>,
}

impl Error {
    pub open spec fn view(self) -> ErrorView {
        ErrorView { kind: self.kind, line: self.line as int, msg: self.msg@ }
    }
}

impl Value {
    pub open spec fn view(self) -> ValueView
        decreases self,
    {
        match self {
            Value::Scalar(s) => ValueView::Scalar(s@),
            Value::Sequence(items) => ValueView::Sequence(
                Seq::new(
                    items@.len(),
                    |i: int|
                        if 0 <= i < items@.len() {
                            items@[i].view()
                        } else {
                            arbitrary()
                        },
                ),
            ),
            Value::Mapping => ValueView::Mapping,
            Value::Other => ValueView::Other,
        }
    }
}

/// The simplified value that a YAML node stands for.
pub open spec fn value_of(data: DataView) -> ValueView
    decreases data,
{
    match data {
        DataView::Scalar(s) => ValueView::Scalar(scalar_chars(s)),
        DataView::Sequence(items) => ValueView::Sequence(
            Seq::new(
                items.len(),
                |i: int|
                    if 0 <= i < items.len() {
                        value_of(items[i].data)
                    } else {
                        arbitrary()
                    },
            ),
        ),
        DataView::Mapping(_) => ValueView::Mapping,
        DataView::Other => ValueView::Other,
    }
}

/// The position of the entry with key `key`, or the number of entries.
pub open spec fn key_index(entries: Seq<EntryView>, key: Seq<char>) -> int
    decreases entries.len(),
{
    if entries.len() == 0 {
        0
    } else {
        let i = key_index(entries.drop_last(), key);
        if i < entries.len() - 1 || entries.last().key == key {
            i
        } else {
            entries.len() as int
        }
    }
}

/// `entries` with `e` in place of the entry of the same key, or at the end
/// when there is none.
pub open spec fn put(entries: Seq<EntryView>, e: EntryView) -> Seq<EntryView> {
    let i = key_index(entries, e.key);
    if i < entries.len() {
        entries.update(i, e)
    } else {
        entries.push(e)
    }
}

/// The entries of a mapping: its scalar keys in order, each with the line it
/// is on. The block starts on the second line of the file.
pub open spec fn entries_of(pairs: Seq<(NodeView, NodeView)>) -> Seq<EntryView>
    decreases pairs.len(),
{
    if pairs.len() == 0 {
        Seq::empty()
    } else {
        let before = entries_of(pairs.drop_last());
        let (key, value) = pairs.last();
        match scalar_text(key.data) {
            Some(text) => put(
                before,
                EntryView { key: text, line: key.line + 1, value: value_of(value.data) },
            ),
            None => before,
        }
    }
}

impl FrontmatterView {
    /// Front matter that is not there.
    pub open spec fn absent() -> FrontmatterView {
        FrontmatterView { present: false, end_line: 0, entries: Seq::empty() }
    }

    pub open spec fn has(self, key: Seq<char>) -> bool {
        key_index(self.entries, key) < self.entries.len()
    }

    /// The line `key` is declared on, or the closing fence's.
    pub open spec fn line(self, key: Seq<char>) -> int {
        if self.has(key) {
            self.entries[key_index(self.entries, key)].line
        } else {
            self.end_line
        }
    }

    pub open spec fn node(self, key: Seq<char>) -> Option<ValueView> {
        if self.has(key) {
            Some(self.entries[key_index(self.entries, key)].value)
        } else {
            None
        }
    }

    pub open spec fn string(self, key: Seq<char>) -> Option<Seq<char>> {
        match self.node(key) {
            Some(ValueView::Scalar(s)) => Some(s),
            _ => None,
        }
    }

    pub open spec fn string_slice(self, key: Seq<char>) -> Option<Seq<Seq<char>>> {
        match self.node(key) {
            Some(v) => strings_of(v),
            None => None,
        }
    }

    pub open spec fn keys(self) -> Seq<Seq<char>> {
        Seq::new(self.entries.len(), |i: int| self.entries[i].key)
    }
}

/// A value as a list of strings: the items of a comma-separated scalar, or
/// those of a sequence that holds nothing but scalars.
pub open spec fn strings_of(v: ValueView) -> Option<Seq<Seq<char>>> {
    match v {
        ValueView::Scalar(s) => Some(list_items(s)),
        ValueView::Sequence(items) => if forall|i: int|
            0 <= i < items.len() ==> (#[trigger] items[i]) is Scalar {
            Some(Seq::new(items.len(), |i: int| items[i]->Scalar_0))
        } else {
            None
        },
        _ => None,
    }
}

/// `line` without trailing carriage returns.
pub open spec fn without_cr(line: Seq<char>) -> Seq<char>
    decreases line.len(),
{
    if line.len() > 0 && line.last() == '\r' {
        without_cr(line.drop_last())
    } else {
        line
    }
}

/// Three or more `mark`s, then nothing but blanks and tabs.
pub open spec fn fence_of(s: Seq<char>, mark: char) -> bool {
    exists|n: int| #[trigger]
        s.take(n).len() == n && 3 <= n <= s.len() && (forall|j: int| 0 <= j < n ==> s[j] == mark)
            && (forall|j: int| n <= j < s.len() ==> s[j] == ' ' || s[j] == '\t')
}

pub open spec fn open_fence(line: Seq<char>) -> bool {
    fence_of(without_cr(line), '-')
}

pub open spec fn close_fence(line: Seq<char>) -> bool {
    fence_of(without_cr(line), '-') || fence_of(without_cr(line), '.')
}

/// The first line from `from` on that is not blank, or the number of lines.
pub open spec fn first_content(lines: Seq<Seq<char>>, from: int) -> int
    decreases lines.len() - from,
{
    if 0 <= from < lines.len() && trim(lines[from]).len() == 0 {
        first_content(lines, from + 1)
    } else {
        from
    }
}

/// The first closing fence from `from` on, or the number of lines.
pub open spec fn close_from(lines: Seq<Seq<char>>, from: int) -> int
    decreases lines.len() - from,
{
    if 0 <= from < lines.len() && !close_fence(lines[from]) {
        close_from(lines, from + 1)
    } else {
        from
    }
}

/// The text between the fences on lines `open` and `close`.
pub open spec fn block(lines: Seq<Seq<char>>, open: int, close: int) -> Seq<char> {
    join(lines.subrange(open + 1, close), seq!['\n'])
}

pub open spec fn names_key(pairs: Seq<(NodeView, NodeView)>) -> bool {
    exists|k: int|
        0 <= k < pairs.len() && {
            ||| scalar_text((#[trigger] pairs[k]).0.data) == Some("name"@)
            ||| scalar_text(pairs[k].0.data) == Some("description"@)
        }
}

/// Whether a loaded block is the front matter of a skill: a mapping with a
/// name or a description.
pub open spec fn names_a_skill(loaded: Result<Seq<NodeView>, FaultView>) -> bool {
    match loaded {
        Ok(docs) => docs.len() > 0 && (docs[0].data matches DataView::Mapping(pairs) && names_key(
            pairs,
        )),
        Err(_) => false,
    }
}

/// Whether line `i` opens a block that closes and is a skill's front matter.
pub open spec fn misplaced_at(lines: Seq<Seq<char>>, i: int) -> bool {
    let close = close_from(lines, i + 1);
    open_fence(lines[i]) && close < lines.len() && names_a_skill(yaml(block(lines, i, close)))
}

/// The first line from `from` on that opens misplaced front matter, or the
/// number of lines.
pub open spec fn misplaced_from(lines: Seq<Seq<char>>, from: int) -> int
    decreases lines.len() - from,
{
    if 0 <= from < lines.len() && !misplaced_at(lines, from) {
        misplaced_from(lines, from + 1)
    } else {
        from
    }
}

/// The block of a text whose first line opens one.
pub open spec fn block_of(text: Seq<char>) -> Seq<char> {
    let lines = split(text, '\n');
    block(lines, 0, close_from(lines, 1))
}

/// A file whose front matter does not start on its first line.
pub open spec fn not_first(text: Seq<char>, line: int) -> DocumentView {
    DocumentView {
        frontmatter: FrontmatterView::absent(),
        body: text,
        error: Some(
            ErrorView {
                kind: ErrKind::NotFirst,
                line,
                msg: "front matter must start on the first line of the file"@,
            },
        ),
    }
}

/// What a closed block and the text after it make, by what the YAML loader
/// made of the block.
pub open spec fn assembled(
    loaded: Result<Seq<NodeView>, FaultView>,
    end_line: int,
    body: Seq<char>,
) -> DocumentView {
    let (entries, error) = match loaded {
        Err(e) => (
            Seq::<EntryView>::empty(),
            Some(
                ErrorView {
                    kind: ErrKind::InvalidYaml,
                    line: e.line + 1,
                    msg: "invalid YAML in front matter: "@ + trim(e.info),
                },
            ),
        ),
        Ok(docs) => if docs.len() == 0 {
            (
                Seq::empty(),
                Some(
                    ErrorView { kind: ErrKind::NotMapping, line: 1, msg: "front matter is empty"@ },
                ),
            )
        } else {
            match docs[0].data {
                DataView::Mapping(pairs) => (entries_of(pairs), None),
                _ => (
                    Seq::empty(),
                    Some(
                        ErrorView {
                            kind: ErrKind::NotMapping,
                            line: docs[0].line + 1,
                            msg: "front matter must be a mapping of keys to values"@,
                        },
                    ),
                ),
            }
        },
    };
    DocumentView { frontmatter: FrontmatterView { present: true, end_line, entries }, body, error }
}

/// The document that a text is.
pub open spec fn document_of(text: Seq<char>) -> DocumentView {
    let lines = split(text, '\n');
    let first = first_content(lines, 0);
    if first >= lines.len() || !open_fence(lines[first]) {
        let at = misplaced_from(lines, 0);
        if at < lines.len() {
            not_first(text, at + 1)
        } else {
            DocumentView { frontmatter: FrontmatterView::absent(), body: text, error: None }
        }
    } else if first > 0 {
        not_first(text, first + 1)
    } else {
        let close = close_from(lines, 1);
        if close >= lines.len() {
            DocumentView {
                frontmatter: FrontmatterView { present: true, end_line: 0, entries: Seq::empty() },
                body: text,
                error: Some(
                    ErrorView {
                        kind: ErrKind::Unterminated,
                        line: 1,
                        msg: "front matter is not closed by a --- fence"@,
                    },
                ),
            }
        } else {
            assembled(
                yaml(block(lines, 0, close)),
                close + 1,
                join(lines.skip(close + 1), seq!['\n']),
            )
        }
    }
}

pub open spec fn without_bom(text: Seq<char>) -> Seq<char> {
    if text.len() > 0 && text[0] == '\u{feff}' {
        text.skip(1)
    } else {
        text
    }
}

/// Whether the line of a key is one of the block: that of every key but `null`,
/// which a `?` stands for when nothing is behind it up to the fence.
pub open spec fn is_placed(text: Seq<char>, key: Seq<char>) -> bool {
    key != "null"@ || !misses_key(block_of(text))
}

/// Whether the lines of a document's keys lie inside its block, between the two
/// fences, and that of a key that is not there is the closing fence's.
pub open spec fn keys_in_block(d: DocumentView, text: Seq<char>) -> bool {
    cr_ends_lines(text) ==> forall|key: Seq<char>|
        if #[trigger] d.frontmatter.has(key) {
            is_placed(text, key) ==> 2 <= d.frontmatter.line(key) < d.frontmatter.end_line
        } else {
            d.frontmatter.line(key) == d.frontmatter.end_line
        }
}

impl Frontmatter {
    /// Every key has its entry.
    pub closed spec fn wf(self) -> bool {
        self.keys@.len() == self.entries@.len()
    }

    pub closed spec fn view(self) -> FrontmatterView {
        FrontmatterView {
            present: self.present,
            end_line: self.end_line as int,
            entries: Seq::new(
                self.keys@.len(),
                |i: int|
                    EntryView {
                        key: self.keys@[i]@,
                        line: self.entries@[i].key_line as int,
                        value: self.entries@[i].value@,
                    },
            ),
        }
    }

    /// Whether the file opened with a front-matter fence.
    pub fn is_present(&self) -> (r: bool)
        ensures
            r == self@.present,
    {
        self.present
    }

    /// The 1-based line of the closing fence, 0 when absent.
    pub fn closing_line(&self) -> (r: usize)
        ensures
            r == self@.end_line,
    {
        self.end_line
    }

    /// Returns the mapping keys in document order.
    pub fn keys(&self) -> (r: &[String])
        requires
            self.wf(),
        ensures
            texts(r@) == self@.keys(),
    {
        assert(texts(self.keys@) =~= self@.keys());
        self.keys.as_slice()
    }

    fn find(&self, key: &str) -> (r: usize)
        requires
            self.wf(),
        ensures
            r == key_index(self@.entries, key@),
            r <= self.keys@.len(),
    {
        let mut i: usize = 0;
        assert(self@.entries.take(0) =~= Seq::empty());
        while i < self.keys.len()
            invariant
                i <= self.keys@.len(),
                self.wf(),
                key_index(self@.entries.take(i as int), key@) == i,
            decreases self.keys@.len() - i,
        {
            proof {
                let next = self@.entries.take(i + 1);
                assert(next.drop_last() =~= self@.entries.take(i as int));
                assert(next.last().key == self.keys@[i as int]@);
            }
            if same(self.keys[i].as_str(), key) {
                proof {
                    lemma_key_index_extends(self@.entries, key@, i + 1);
                }
                return i;
            }
            i += 1;
        }
        assert(self@.entries.take(i as int) =~= self@.entries);
        i
    }

    /// Reports whether key is present, regardless of its value.
    pub fn has(&self, key: &str) -> (r: bool)
        requires
            self.wf(),
        ensures
            r == self@.has(key@),
    {
        self.find(key) < self.keys.len()
    }

    /// Returns the 1-based line where key is declared, or end_line as a
    /// fallback when the key is absent.
    pub fn line(&self, key: &str) -> (r: usize)
        requires
            self.wf(),
        ensures
            r == self@.line(key@),
    {
        let i: usize = self.find(key);
        if i < self.keys.len() {
            self.entries[i].key_line
        } else {
            self.end_line
        }
    }

    /// Returns the value node for key, or None when the key is absent.
    pub fn node(&self, key: &str) -> (r: Option<&Value>)
        requires
            self.wf(),
        ensures
            self@.node(key@) == (match r {
                Some(v) => Some(v@),
                None => None,
            }),
    {
        let i: usize = self.find(key);
        if i < self.keys.len() {
            Some(&self.entries[i].value)
        } else {
            None
        }
    }

    /// Returns the scalar value of key. None when the key is absent or its
    /// value is not a scalar.
    pub fn string(&self, key: &str) -> (r: Option<String>)
        requires
            self.wf(),
        ensures
            self@.string(key@) == (match r {
                Some(s) => Some(s@),
                None => None,
            }),
    {
        match self.node(key) {
            Some(Value::Scalar(s)) => Some(s.clone()),
            _ => None,
        }
    }

    /// Returns the value of key as a list of strings, accepting either a YAML
    /// sequence of scalars or a single comma-separated scalar. None when the
    /// key is absent or holds neither shape.
    pub fn string_slice(&self, key: &str) -> (r: Option<Vec<String>>)
        requires
            self.wf(),
        ensures
            self@.string_slice(key@) == (match r {
                Some(v) => Some(texts(v@)),
                None => None,
            }),
    {
        match self.node(key) {
            Some(Value::Scalar(s)) => Some(split_items(s.as_str())),
            Some(Value::Sequence(items)) => {
                let ghost views = self@.node(key@)->Some_0->Sequence_0;
                let mut out: Vec<String> = Vec::new();
                let mut i: usize = 0;
                while i < items.len()
                    invariant
                        i <= items@.len(),
                        out@.len() == i,
                        self@.node(key@) == Some(ValueView::Sequence(views)),
                        views.len() == items@.len(),
                        forall|j: int| 0 <= j < views.len() ==> #[trigger] views[j] == items@[j]@,
                        forall|j: int|
                            0 <= j < i ==> (#[trigger] views[j]) is Scalar && views[j]->Scalar_0
                                == out@[j]@,
                    decreases items@.len() - i,
                {
                    match &items[i] {
                        Value::Scalar(s) => {
                            assert(views[i as int] == items@[i as int]@);
                            out.push(s.clone());
                        },
                        _ => {
                            assert(views[i as int] == items@[i as int]@);
                            assert(!(views[i as int] is Scalar));
                            return None;
                        },
                    }
                    i += 1;
                }
                assert(texts(out@) =~= Seq::new(views.len(), |i: int| views[i]->Scalar_0));
                Some(out)
            },
            _ => None,
        }
    }

    /// Records a key and its value; a key that is there already keeps its
    /// place.
    fn put(&mut self, key: String, key_line: usize, value: Value)
        requires
            old(self).wf(),
        ensures
            final(self).wf(),
            final(self)@.present == old(self)@.present,
            final(self)@.end_line == old(self)@.end_line,
            final(self)@.entries == put(
                old(self)@.entries,
                EntryView { key: key@, line: key_line as int, value: value@ },
            ),
    {
        let ghost e = EntryView { key: key@, line: key_line as int, value: value@ };
        let ghost before = self@.entries;
        let i: usize = self.find(key.as_str());
        proof {
            lemma_key_index(before, key@);
        }
        if i < self.keys.len() {
            self.entries.set(i, Entry { key_line, value });
            assert(self@.entries =~= before.update(i as int, e));
        } else {
            self.keys.push(key);
            self.entries.push(Entry { key_line, value });
            assert(self@.entries =~= before.push(e));
        }
    }
}

impl Default for Frontmatter {
    fn default() -> (r: Frontmatter)
        ensures
            r.wf(),
            r@ == FrontmatterView::absent(),
    {
        let r = Frontmatter {
            present: false,
            end_line: 0,
            keys: Vec::new(),
            entries: Vec::new(),
        };
        assert(r@.entries =~= Seq::empty());
        r
    }
}

proof fn lemma_key_index_extends(entries: Seq<EntryView>, key: Seq<char>, n: int)
    requires
        0 <= n <= entries.len(),
        key_index(entries.take(n), key) < n,
    ensures
        key_index(entries, key) == key_index(entries.take(n), key),
    decreases entries.len(),
{
    if n < entries.len() {
        assert(entries.drop_last().take(n) =~= entries.take(n));
        lemma_key_index_extends(entries.drop_last(), key, n);
    } else {
        assert(entries.take(n) =~= entries);
    }
}

/// What [`key_index`] finds: the first entry with that key.
pub proof fn lemma_key_index(entries: Seq<EntryView>, key: Seq<char>)
    ensures
        0 <= key_index(entries, key) <= entries.len(),
        key_index(entries, key) < entries.len() ==> entries[key_index(entries, key)].key == key,
        forall|j: int| 0 <= j < key_index(entries, key) ==> entries[j].key != key,
    decreases entries.len(),
{
    if entries.len() > 0 {
        lemma_key_index(entries.drop_last(), key);
        let i = key_index(entries.drop_last(), key);
        assert forall|j: int| 0 <= j < key_index(entries, key) implies entries[j].key != key by {
            if j < entries.len() - 1 {
                assert(entries[j] == entries.drop_last()[j]);
            }
        }
        if i < entries.len() - 1 {
            assert(entries[i] == entries.drop_last()[i]);
        }
    }
}

impl Document {
    /// The front matter is well formed, and the lines of the body can be
    /// counted on from the closing fence.
    pub open spec fn wf(self) -> bool {
        self.frontmatter.wf() && self.frontmatter@.end_line + split(self.body@, '\n').len()
            <= usize::MAX
    }

    pub open spec fn view(self) -> DocumentView {
        DocumentView {
            frontmatter: self.frontmatter@,
            body: self.body@,
            error: match self.error {
                Some(e) => Some(e@),
                None => None,
            },
        }
    }

    /// The front matter, but only when it is actually usable: present, parsed,
    /// and a mapping. Rules that read keys go through this so a malformed
    /// block short-circuits them uniformly.
    pub fn mapping(&self) -> (r: Option<&Frontmatter>)
        ensures
            r is Some <==> self@.error is None && self@.frontmatter.present,
            r matches Some(fm) ==> *fm == self.frontmatter,
    {
        if self.error.is_some() || !self.frontmatter.is_present() {
            return None;
        }
        Some(&self.frontmatter)
    }
}

fn fence_line(line: &[char]) -> (r: &[char])
    ensures
        r@ == without_cr(line@),
{
    let mut n: usize = line.len();
    assert(line@.take(n as int) =~= line@);
    while n > 0 && line[n - 1] == '\r'
        invariant
            n <= line@.len(),
            without_cr(line@.take(n as int)) == without_cr(line@),
        decreases n,
    {
        assert(line@.take(n as int).drop_last() =~= line@.take(n - 1));
        n -= 1;
    }
    assert(line@.take(n as int) =~= line@.subrange(0, n as int));
    slice_subrange(line, 0, n)
}

fn is_fence(s: &[char], mark: char) -> (r: bool)
    requires
        mark != ' ' && mark != '\t',
    ensures
        r == fence_of(s@, mark),
{
    let mut n: usize = 0;
    while n < s.len() && s[n] == mark
        invariant
            n <= s@.len(),
            forall|j: int| 0 <= j < n ==> s@[j] == mark,
        decreases s@.len() - n,
    {
        n += 1;
    }
    let mut i: usize = n;
    while i < s.len() && (s[i] == ' ' || s[i] == '\t')
        invariant
            n <= i <= s@.len(),
            forall|j: int| n <= j < i ==> s@[j] == ' ' || s@[j] == '\t',
        decreases s@.len() - i,
    {
        i += 1;
    }
    proof {
        if 3 <= n && i == s@.len() {
            assert(s@.take(n as int).len() == n);
        }
        if fence_of(s@, mark) {
            let m = choose|m: int| #[trigger]
                s@.take(m).len() == m && 3 <= m <= s@.len() && (forall|j: int|
                    0 <= j < m ==> s@[j] == mark) && (forall|j: int|
                    m <= j < s@.len() ==> s@[j] == ' ' || s@[j] == '\t');
            assert(m == n) by {
                if m < n {
                    assert(s@[m] == mark);
                } else if n < m {
                    assert(s@[n as int] == mark);
                }
            }
        }
    }
    3 <= n && i == s.len()
}

fn is_open_fence(line: &[char]) -> (r: bool)
    ensures
        r == open_fence(line@),
{
    is_fence(fence_line(line), '-')
}

fn is_close_fence(line: &[char]) -> (r: bool)
    ensures
        r == close_fence(line@),
{
    let s = fence_line(line);
    is_fence(s, '-') || is_fence(s, '.')
}

fn find_close(lines: &[Vec<char>], from: usize) -> (r: usize)
    requires
        from <= lines@.len(),
    ensures
        r == close_from(rows(lines@), from as int),
        from <= r <= lines@.len(),
        r < lines@.len() ==> close_fence(lines@[r as int]@),
{
    let mut i: usize = from;
    while i < lines.len() && !is_close_fence(lines[i].as_slice())
        invariant
            from <= i <= lines@.len(),
            close_from(rows(lines@), from as int) == close_from(rows(lines@), i as int),
        decreases lines@.len() - i,
    {
        i += 1;
    }
    i
}

fn block_between(lines: &[Vec<char>], open: usize, close: usize) -> (r: String)
    requires
        open < close <= lines@.len(),
    ensures
        r@ == block(rows(lines@), open as int, close as int),
{
    let part = slice_subrange(lines, open + 1, close);
    assert(rows(part@) =~= rows(lines@).subrange(open + 1, close as int));
    to_text(join_with(part, '\n').as_slice())
}

/// Whether a loaded block is the front matter of a skill.
pub fn is_skill_block(loaded: &Result<Vec<Node>, Fault>) -> (r: bool)
    ensures
        r == names_a_skill(loaded_view(*loaded)),
{
    let docs = match loaded {
        Ok(docs) => docs,
        Err(_) => return false,
    };
    if docs.len() == 0 {
        return false;
    }
    assert(node_views(docs@)[0] == docs@[0]@);
    match &docs[0].data {
        Data::Mapping(pairs) => {
            assert(docs@[0]@.data->Mapping_0 =~= pair_views(pairs@));
            let mut k: usize = 0;
            while k < pairs.len()
                invariant
                    k <= pairs@.len(),
                    names_a_skill(loaded_view(*loaded)) == names_key(pair_views(pairs@)),
                    forall|j: int|
                        0 <= j < k ==> scalar_text((#[trigger] pair_views(pairs@)[j]).0.data) != Some(
                            "name"@,
                        ) && scalar_text(pair_views(pairs@)[j].0.data) != Some("description"@),
                decreases pairs@.len() - k,
            {
                assert(pair_views(pairs@)[k as int].0 == pairs@[k as int].0@);
                if let Some(key) = scalar_string(&pairs[k].0.data) {
                    if same(key.as_str(), "name") || same(key.as_str(), "description") {
                        return true;
                    }
                }
                k += 1;
            }
            false
        },
        _ => false,
    }
}

/// Finds a `---` block below the top of the file that is really misplaced
/// front matter, returning its 1-based opening line.
///
/// The test is deliberately strict, because `---` is also how markdown writes
/// a thematic break: the block must close, parse as a YAML mapping, and carry
/// `name` or `description`. A horizontal rule cannot satisfy that, so ordinary
/// prose is never flagged.
fn misplaced_frontmatter(lines: &[Vec<char>]) -> (r: Option<usize>)
    ensures
        r is Some <==> misplaced_from(rows(lines@), 0) < lines@.len(),
        r matches Some(n) ==> n == misplaced_from(rows(lines@), 0) + 1,
{
    let mut i: usize = 0;
    while i < lines.len()
        invariant
            i <= lines@.len(),
            misplaced_from(rows(lines@), 0) == misplaced_from(rows(lines@), i as int),
        decreases lines@.len() - i,
    {
        if is_open_fence(lines[i].as_slice()) {
            // A candidate that does not close is not front matter, but the
            // scan continues: a real block may still follow it.
            let close: usize = find_close(lines, i + 1);
            if close < lines.len() {
                let loaded = load(block_between(lines, i, close).as_str());
                if is_skill_block(&loaded) {
                    return Some(i + 1);
                }
            }
        }
        i += 1;
    }
    None
}

fn to_value(node: &Node) -> (r: Value)
    ensures
        r@ == value_of(node@.data),
    decreases node,
{
    match &node.data {
        Data::Scalar(_) => match scalar_string(&node.data) {
            Some(s) => Value::Scalar(s),
            None => Value::Other,
        },
        Data::Sequence(items) => {
            let ghost views = node@.data->Sequence_0;
            let mut out: Vec<Value> = Vec::new();
            let mut i: usize = 0;
            while i < items.len()
                invariant
                    i <= items@.len(),
                    out@.len() == i,
                    node.data == Data::Sequence(*items),
                    views.len() == items@.len(),
                    forall|j: int| 0 <= j < views.len() ==> #[trigger] views[j] == items@[j]@,
                    forall|j: int| 0 <= j < i ==> (#[trigger] out@[j])@ == value_of(views[j].data),
                decreases items@.len() - i,
            {
                proof {
                    assert(decreases_to!(node => node.data));
                    assert(decreases_to!(node.data => node.data->Sequence_0));
                    assert(decreases_to!(items => items@));
                    assert(decreases_to!(items@ => items@[i as int]));
                    assert(views[i as int] == items@[i as int]@);
                }
                let v = to_value(&items[i]);
                out.push(v);
                i += 1;
            }
            let r = Value::Sequence(out);
            assert(r@->Sequence_0 =~= value_of(node@.data)->Sequence_0);
            r
        },
        Data::Mapping(_) => Value::Mapping,
        Data::Other => Value::Other,
    }
}

fn fault(kind: ErrKind, line: usize, msg: String) -> (r: Option<Error>)
    ensures
        r matches Some(e) && e@ == (ErrorView { kind, line: line as int, msg: msg@ }),
{
    Some(Error { kind, line, msg })
}

/// Builds the document of a block that is closed on line `end_line` and
/// followed by `body`, from what the YAML loader made of the block.
pub fn assemble(loaded: Result<Vec<Node>, Fault>, end_line: usize, body: String) -> (r: Document)
    requires
        lines_within(loaded_view(loaded), usize::MAX - 1),
    ensures
        r.frontmatter.wf(),
        r@ == assembled(loaded_view(loaded), end_line as int, body@),
{
    let mut fm = Frontmatter {
        present: true,
        end_line,
        keys: Vec::new(),
        entries: Vec::new(),
    };
    assert(fm@.entries =~= Seq::empty());
    let docs = match loaded {
        Ok(docs) => docs,
        Err(e) => {
            let mut msg = "invalid YAML in front matter: ".to_string();
            msg.append(to_text(trimmed(to_chars(e.info.as_str()).as_slice())).as_str());
            let error = fault(ErrKind::InvalidYaml, e.line + 1, msg);
            return Document { frontmatter: fm, body, error };
        },
    };
    if docs.len() == 0 {
        let error = fault(ErrKind::NotMapping, 1, "front matter is empty".to_string());
        return Document { frontmatter: fm, body, error };
    }
    let root = &docs[0];
    assert(node_views(docs@)[0] == root@);
    match &root.data {
        Data::Mapping(pairs) => {
            let ghost views = pair_views(pairs@);
            assert(root@.data->Mapping_0 =~= views);
            let mut k: usize = 0;
            assert(views.take(0) =~= Seq::empty());
            while k < pairs.len()
                invariant
                    k <= pairs@.len(),
                    views == pair_views(pairs@),
                    forall|j: int| 0 <= j < views.len() ==> 0 <= (#[trigger] views[j]).0.line < usize::MAX,
                    fm.wf(),
                    fm@.present,
                    fm@.end_line == end_line,
                    fm@.entries == entries_of(views.take(k as int)),
                decreases pairs@.len() - k,
            {
                let (key, value) = &pairs[k];
                proof {
                    let next = views.take(k + 1);
                    assert(next.drop_last() =~= views.take(k as int));
                    assert(next.last() == views[k as int]);
                    assert(views[k as int] == (key@, value@));
                }
                if let Some(name) = scalar_string(&key.data) {
                    fm.put(name, key.line + 1, to_value(value));
                }
                k += 1;
            }
            assert(views.take(k as int) =~= views);
            Document { frontmatter: fm, body, error: None }
        },
        _ => {
            let msg = "front matter must be a mapping of keys to values".to_string();
            let error = fault(ErrKind::NotMapping, root.line + 1, msg);
            Document { frontmatter: fm, body, error }
        },
    }
}

fn misplaced(text: &[char], line: usize) -> (r: Document)
    ensures
        r.frontmatter.wf(),
        r@ == not_first(text@, line as int),
{
    let msg = "front matter must start on the first line of the file".to_string();
    Document {
        frontmatter: Frontmatter::default(),
        body: to_text(text),
        error: fault(ErrKind::NotFirst, line, msg),
    }
}

/// What the fences leave of a text whose first line opens a block.
proof fn lemma_block_fits(lines: Seq<Seq<char>>, close: int)
    requires
        lines.len() >= 1,
        open_fence(lines[0]),
        1 <= close < lines.len(),
        forall|k: int| 0 <= k < lines.len() ==> !(#[trigger] lines[k]).contains('\n'),
    ensures
        block(lines, 0, close).len() + 2 <= join(lines, seq!['\n']).len(),
        close + 1 + split(join(lines.skip(close + 1), seq!['\n']), '\n').len() <= join(
            lines,
            seq!['\n'],
        ).len(),
{
    let nl = seq!['\n'];
    let head = lines.take(1);
    let rest = lines.skip(1);
    lemma_without_cr(lines[0]);
    assert(head[0].len() >= 3);
    assert(lines =~= head + rest);
    lemma_join_append(head, rest, nl);
    assert(join(head, nl) == lines[0]);
    let inner = lines.subrange(1, close);
    let tail = lines.skip(close);
    if inner.len() > 0 {
        assert(rest =~= inner + tail);
        lemma_join_append(inner, tail, nl);
    }
    lemma_join_len(lines, '\n', 0);
    let body = lines.skip(close + 1);
    if body.len() > 0 {
        assert forall|k: int| 0 <= k < body.len() implies !(#[trigger] body[k]).contains('\n') by {
            assert(body[k] == lines[k + close + 1]);
        }
        lemma_split_join(body, '\n');
    } else {
        crate::text::lemma_first_index_is(join(body, nl), '\n', 0, 0);
    }
}

proof fn lemma_without_cr(line: Seq<char>)
    ensures
        without_cr(line).len() <= line.len(),
    decreases line.len(),
{
    if line.len() > 0 && line.last() == '\r' {
        lemma_without_cr(line.drop_last());
    }
}

proof fn lemma_entry_lines(src: Seq<char>, pairs: Seq<(NodeView, NodeView)>, n: int)
    requires
        forall|k: int|
            0 <= k < pairs.len() && is_placed_key(src, (#[trigger] pairs[k]).0.data) ==> 1
                <= pairs[k].0.line <= n,
    ensures
        forall|i: int|
            0 <= i < entries_of(pairs).len() && ((#[trigger] entries_of(pairs)[i]).key != "null"@
                || !misses_key(src)) ==> 2 <= entries_of(pairs)[i].line <= n + 1,
    decreases pairs.len(),
{
    if pairs.len() > 0 {
        let init = pairs.drop_last();
        assert forall|k: int|
            0 <= k < init.len() && is_placed_key(src, (#[trigger] init[k]).0.data) implies 1
            <= init[k].0.line <= n by {
            assert(init[k] == pairs[k]);
        }
        lemma_entry_lines(src, init, n);
        let before = entries_of(init);
        let last = pairs[pairs.len() - 1];
        if let Some(text) = scalar_text(last.0.data) {
            lemma_key_index(before, text);
            let all = entries_of(pairs);
            assert forall|i: int|
                0 <= i < all.len() && ((#[trigger] all[i]).key != "null"@ || !misses_key(
                    src,
                )) implies 2 <= all[i].line <= n + 1 by {
                if i < before.len() && all[i] == before[i] {
                } else {
                    assert(all[i].key == text && all[i].line == last.0.line + 1);
                    assert(is_placed_key(src, last.0.data));
                }
            }
        }
    }
}

proof fn lemma_keys_in_block(text: Seq<char>, close: int, body: Seq<char>)
    requires
        1 <= close < split(text, '\n').len(),
        close == close_from(split(text, '\n'), 1),
        keys_inside(block_of(text), yaml(block_of(text))),
        only_comments(block_of(text)) ==> (yaml(block_of(text)) matches Ok(docs) && docs.len() == 0),
    ensures
        keys_in_block(assembled(yaml(block_of(text)), close + 1, body), text),
{
    let lines = split(text, '\n');
    let src = block_of(text);
    let inner = lines.subrange(1, close);
    let fm = assembled(yaml(src), close + 1, body).frontmatter;
    lemma_join_split(text, '\n');
    if cr_ends_lines(text) && fm.entries.len() > 0 {
        let pairs = yaml(src)->Ok_0[0].data->Mapping_0;
        if close == 1 {
            assert(src =~= Seq::empty());
            crate::text::lemma_first_index_is(src, '\n', 0, 0);
            assert(only_comments(src));
            assert(false);
        }
        assert forall|k: int| 0 <= k < inner.len() implies !(#[trigger] inner[k]).contains('\n') by {
            assert(inner[k] == lines[k + 1]);
        }
        lemma_split_join(inner, '\n');
        assert(split(src, '\n') == inner);
        assert forall|k: int, i: int|
            0 <= k < inner.len() && 0 <= i < inner[k].len() - 1 implies #[trigger] inner[k][i]
            != '\r' by {
            assert(lines[k + 1][i] != '\r');
        }
        assert(cr_ends_lines(src));
        assert forall|k: int|
            0 <= k < pairs.len() && is_placed_key(src, (#[trigger] pairs[k]).0.data) implies 1
            <= pairs[k].0.line <= close - 1 by {
            assert(yaml(src)->Ok_0[0].data->Mapping_0[k] == pairs[k]);
        }
        lemma_entry_lines(src, pairs, close - 1);
        assert forall|key: Seq<char>| #[trigger] fm.has(key) && is_placed(text, key) implies 2
            <= fm.line(key) < fm.end_line by {
            lemma_key_index(fm.entries, key);
        }
    }
}

/// Separates the front matter of a text from its body.
///
/// A text with no front matter is not an error. A malformed block yields an
/// error and a best-effort body so token budgets can still be reported.
fn split_text(text: &[char]) -> (r: Document)
    ensures
        r.wf(),
        r@ == document_of(text@),
        r@.frontmatter.end_line > 0 ==> reads_plain(block_of(text@)),
        keys_in_block(r@, text@),
{
    let lines = split_at(text, '\n');
    let ghost all = rows(lines@);
    proof {
        lemma_join_split(text@, '\n');
    }
    let mut first: usize = 0;
    while first < lines.len() && trimmed(lines[first].as_slice()).len() == 0
        invariant
            first <= lines@.len(),
            all == rows(lines@),
            first_content(all, 0) == first_content(all, first as int),
        decreases lines@.len() - first,
    {
        first += 1;
    }
    if first >= lines.len() || !is_open_fence(lines[first].as_slice()) {
        // No fence at the top. A `---` block further down may still be front
        // matter someone put in the wrong place, so say so rather than
        // reporting the vaguer "missing front matter".
        return match misplaced_frontmatter(lines.as_slice()) {
            Some(line) => misplaced(text, line),
            None => Document {
                frontmatter: Frontmatter::default(),
                body: to_text(text),
                error: None,
            },
        };
    }
    if first > 0 {
        return misplaced(text, first + 1);
    }
    let close: usize = find_close(lines.as_slice(), 1);
    if close >= lines.len() {
        let mut fm = Frontmatter::default();
        fm.present = true;
        assert(fm@.entries =~= Seq::empty());
        let msg = "front matter is not closed by a --- fence".to_string();
        return Document {
            frontmatter: fm,
            body: to_text(text),
            error: fault(ErrKind::Unterminated, 1, msg),
        };
    }
    let size: usize = text.len();
    proof {
        lemma_block_fits(all, close as int);
        assert(join(all, seq!['\n']).len() == size);
    }
    let rest = slice_subrange(lines.as_slice(), close + 1, lines.len());
    assert(rows(rest@) =~= all.skip(close + 1));
    let body = to_text(join_with(rest, '\n').as_slice());
    let loaded = load(block_between(lines.as_slice(), 0, close).as_str());
    proof {
        lemma_keys_in_block(text@, close as int, body@);
    }
    assemble(loaded, close + 1, body)
}

/// What `String::from_utf8_lossy` makes of some bytes.
pub uninterp spec fn lossy_utf8(src: Seq<u8>) -> Seq<char>;

/// `String::from_utf8_lossy`: the text that the bytes encode, with a
/// replacement character for what is not UTF-8. Bytes that are the encoding
/// of a text give back that text.
#[verifier::external_body]
fn decode_lossy(src: &[u8]) -> (r: String)
    ensures
        r@ == lossy_utf8(src@),
        forall|s: Seq<char>| src@ == #[trigger] encode_utf8(s) ==> r@ == s,
{
    String::from_utf8_lossy(src).into_owned()
}

impl Document {
    /// Parses one markdown file. A file with no front matter is not an error:
    /// `frontmatter.present` is false and `body` is the whole file.
    pub fn parse(src: &[u8]) -> (r: Document)
        ensures
            r.wf(),
            r@ == document_of(without_bom(lossy_utf8(src@))),
            keys_in_block(r@, without_bom(lossy_utf8(src@))),
            forall|s: Seq<char>|
                src@ == #[trigger] encode_utf8(s) ==> r@ == document_of(without_bom(s)),
            forall|parts: Seq<PlainPart>, body: Seq<char>|
                is_plain(parts) && src@ == encode_utf8(#[trigger] with_block(parts, body))
                    ==> read_as(r@, parts, body),
    {
        Document::parse_text(decode_lossy(src).as_str())
    }

    /// Parses the text of a markdown file, which may start with a byte order
    /// mark.
    pub fn parse_text(text: &str) -> (r: Document)
        ensures
            r.wf(),
            r@ == document_of(without_bom(text@)),
            keys_in_block(r@, without_bom(text@)),
            forall|parts: Seq<PlainPart>, body: Seq<char>|
                is_plain(parts) && text@ == #[trigger] with_block(parts, body) ==> read_as(
                    r@,
                    parts,
                    body,
                ),
    {
        let chars = to_chars(text);
        let all = chars.as_slice();
        proof {
            assert forall|parts: Seq<PlainPart>, body: Seq<char>|
                is_plain(parts) && text@ == #[trigger] with_block(parts, body) implies (reads_plain(
                block_of(text@),
            ) ==> read_as(document_of(text@), parts, body)) && document_of(
                text@,
            ).frontmatter.end_line > 0 && without_bom(text@) == text@ by {
                lemma_with_block(parts, body);
                if reads_plain(block_of(text@)) {
                    lemma_read_as(parts, body);
                }
            }
        }
        if all.len() > 0 && all[0] == '\u{feff}' {
            let rest = slice_subrange(all, 1, all.len());
            assert(rest@ =~= text@.skip(1));
            split_text(rest)
        } else {
            split_text(all)
        }
    }
}

proof fn lemma_close_from(lines: Seq<Seq<char>>, from: int)
    requires
        0 <= from <= lines.len(),
    ensures
        from <= close_from(lines, from) <= lines.len(),
        close_from(lines, from) < lines.len() ==> close_fence(lines[close_from(lines, from)]),
        forall|j: int| from <= j < close_from(lines, from) ==> !close_fence(#[trigger] lines[j]),
    decreases lines.len() - from,
{
    if from < lines.len() && !close_fence(lines[from]) {
        lemma_close_from(lines, from + 1);
    }
}

proof fn lemma_close_from_is(lines: Seq<Seq<char>>, from: int, at: int)
    requires
        0 <= from <= at < lines.len(),
        close_fence(lines[at]),
        forall|j: int| from <= j < at ==> !close_fence(#[trigger] lines[j]),
    ensures
        close_from(lines, from) == at,
    decreases at - from,
{
    if from < at {
        lemma_close_from_is(lines, from + 1, at);
    }
}

proof fn lemma_first_content(lines: Seq<Seq<char>>, from: int)
    requires
        0 <= from <= lines.len(),
    ensures
        from <= first_content(lines, from) <= lines.len(),
    decreases lines.len() - from,
{
    if from < lines.len() && trim(lines[from]).len() == 0 {
        lemma_first_content(lines, from + 1);
    }
}

/// No two keys of a front-matter block are equal.
pub proof fn lemma_keys_distinct(pairs: Seq<(NodeView, NodeView)>, i: int, j: int)
    requires
        0 <= i < j < entries_of(pairs).len(),
    ensures
        entries_of(pairs)[i].key != entries_of(pairs)[j].key,
    decreases pairs.len(),
{
    let before = entries_of(pairs.drop_last());
    if j < before.len() {
        lemma_keys_distinct(pairs.drop_last(), i, j);
    }
    match scalar_text(pairs.last().0.data) {
        Some(text) => {
            lemma_key_index(before, text);
        },
        None => {},
    }
}

/// Nothing of a text is lost. Where no block was closed, the body is the whole
/// text. Otherwise the first line opens the block, the line the front matter
/// ends on is the first after it that closes one, and the body is what
/// follows that line.
pub proof fn lemma_body(text: Seq<char>)
    ensures
        ({
            let d = document_of(text);
            let lines = split(text, '\n');
            let end = d.frontmatter.end_line;
            &&& end == 0 ==> d.body == text
            &&& end != 0 ==> {
                &&& 2 <= end <= lines.len()
                &&& open_fence(lines[0])
                &&& close_fence(lines[end - 1])
                &&& forall|j: int| 1 <= j < end - 1 ==> !close_fence(#[trigger] lines[j])
                &&& end < lines.len() ==> text == join(lines.take(end), seq!['\n']) + seq!['\n']
                    + d.body
                &&& end == lines.len() ==> text == join(lines.take(end), seq!['\n']) && d.body
                    == Seq::<char>::empty()
            }
        }),
{
    let lines = split(text, '\n');
    let end = document_of(text).frontmatter.end_line;
    lemma_join_split(text, '\n');
    lemma_first_content(lines, 0);
    lemma_close_from(lines, 1);
    if end != 0 {
        if end < lines.len() {
            assert(lines =~= lines.take(end) + lines.skip(end));
            lemma_join_append(lines.take(end), lines.skip(end), seq!['\n']);
        } else {
            assert(lines.take(end) =~= lines);
            assert(lines.skip(end) =~= Seq::empty());
        }
    }
}

proof fn lemma_dashes()
    ensures
        open_fence("---"@),
        close_fence("---"@),
        trim("---"@).len() > 0,
        !"---"@.contains('\n'),
        "---"@.len() == 3,
{
    reveal_strlit("---");
    let s = "---"@;
    assert(without_cr(s) == s);
    assert(s.take(3).len() == 3);
    assert(fence_of(s, '-'));
    assert(crate::text::trim_start(s) == s);
    assert(crate::text::trim_end(s) == s);
}

/// A file that starts with a block between two `---` fences.
pub open spec fn fenced(inner: Seq<Seq<char>>, body: Seq<char>) -> Seq<char> {
    join(seq!["---"@] + inner + seq!["---"@], seq!['\n']) + seq!['\n'] + body
}

/// A block written between two `---` fences at the top of a file is read back
/// as the front matter, and what follows it as the body, provided that no line
/// of the block is itself a closing fence.
pub proof fn lemma_write_read(inner: Seq<Seq<char>>, body: Seq<char>)
    requires
        forall|k: int|
            0 <= k < inner.len() ==> !(#[trigger] inner[k]).contains('\n') && !close_fence(
                inner[k],
            ),
    ensures
        document_of(fenced(inner, body)) == assembled(
            yaml(join(inner, seq!['\n'])),
            inner.len() as int + 2,
            body,
        ),
        block_of(fenced(inner, body)) == join(inner, seq!['\n']),
{
    let nl = seq!['\n'];
    let top = seq!["---"@] + inner + seq!["---"@];
    let rest = split(body, '\n');
    let lines = top + rest;
    let text = join(top, nl) + nl + body;
    lemma_dashes();
    lemma_join_split(body, '\n');
    lemma_join_append(top, rest, nl);
    assert forall|k: int| 0 <= k < lines.len() implies !(#[trigger] lines[k]).contains('\n') by {
        if 1 <= k <= inner.len() {
            assert(lines[k] == inner[k - 1]);
        } else if k > inner.len() + 1 {
            assert(lines[k] == rest[k - inner.len() - 2]);
        }
    }
    lemma_split_join(lines, '\n');
    assert(split(text, '\n') == lines);
    assert(lines[0] == "---"@);
    assert(first_content(lines, 0) == 0);
    let close = inner.len() as int + 1;
    assert(lines[close] == "---"@);
    assert forall|j: int| 1 <= j < close implies !close_fence(#[trigger] lines[j]) by {
        assert(lines[j] == inner[j - 1]);
    }
    lemma_close_from_is(lines, 1, close);
    assert(lines.subrange(1, close) =~= inner);
    assert(lines.skip(close + 1) =~= rest);
}

/// A file that starts with plain front matter.
pub open spec fn with_block(parts: Seq<PlainPart>, body: Seq<char>) -> Seq<char> {
    fenced(plain_lines(parts), body)
}

/// What a plain value is read as.
pub open spec fn plain_value(v: PlainValue) -> ValueView {
    match v {
        PlainValue::Scalar(s) => ValueView::Scalar(scalar_meant(s)),
        PlainValue::Items(list) => ValueView::Sequence(
            Seq::new(list.len(), |i: int| ValueView::Scalar(scalar_meant(list[i]))),
        ),
        PlainValue::Pairs(_) => ValueView::Mapping,
    }
}

/// Whether a document is what plain front matter and a body are read as: every
/// entry in its place with its value, and the body as it is.
pub open spec fn read_as(d: DocumentView, parts: Seq<PlainPart>, body: Seq<char>) -> bool {
    let want = plain_entries(parts);
    let got = d.frontmatter.entries;
    &&& d.error is None
    &&& d.body == body
    &&& d.frontmatter.present
    &&& d.frontmatter.end_line == plain_lines(parts).len() + 2
    &&& got.len() == want.len()
    &&& forall|i: int|
        0 <= i < want.len() ==> (#[trigger] got[i]).key == want[i].0 && got[i].value == plain_value(
            want[i].1,
        )
}

/// Whether a line may stand in a block: it is one line, and closes nothing.
spec fn stays_inside(line: Seq<char>) -> bool {
    !line.contains('\n') && !close_fence(line)
}

proof fn lemma_not_a_fence(line: Seq<char>)
    requires
        line.len() == 0 || (line[0] != '-' && line[0] != '.') || (line[0] == '.' && line.len() > 1
            && line[1] != '.'),
    ensures
        !close_fence(line),
{
    let kept = without_cr(line);
    lemma_without_cr_prefix(line);
    assert(!fence_of(kept, '-')) by {
        if fence_of(kept, '-') {
            assert(kept[0] == '-');
            assert(line[0] == '-');
        }
    }
    assert(!fence_of(kept, '.')) by {
        if fence_of(kept, '.') {
            assert(kept[0] == '.' && kept[1] == '.');
            assert(line[0] == '.' && line[1] == '.');
        }
    }
}

proof fn lemma_without_cr_prefix(line: Seq<char>)
    ensures
        without_cr(line).len() <= line.len(),
        forall|i: int| 0 <= i < without_cr(line).len() ==> #[trigger] without_cr(line)[i] == line[i],
    decreases line.len(),
{
    if line.len() > 0 && line.last() == '\r' {
        lemma_without_cr_prefix(line.drop_last());
    }
}

proof fn lemma_one_line(s: PlainScalar)
    requires
        is_plain_scalar(s),
    ensures
        !scalar_written(s).contains('\n'),
{
    match s {
        PlainScalar::Number(n) => {
            lemma_read_decimal(n as nat);
            assert forall|i: int| 0 <= i < decimal_int(n).len() implies #[trigger] decimal_int(
                n,
            )[i] != '\n' by {
                assert(is_digit(decimal(n as nat)[i]));
            }
        },
        PlainScalar::Flag(_) => {
            reveal_strlit("true");
            reveal_strlit("false");
        },
        PlainScalar::Text(t) => {
            assert forall|i: int| 0 <= i < t.len() implies #[trigger] t[i] != '\n' by {
                assert(is_word_char(t[i]));
            }
        },
        PlainScalar::Quoted(t) => {
            lemma_escaped_line(t);
        },
    }
}

proof fn lemma_key_line(key: Seq<char>, rest: Seq<char>)
    requires
        is_word(key),
        !rest.contains('\n'),
        rest.len() > 0,
        rest[0] == ':',
    ensures
        stays_inside(key + rest),
{
    let line = key + rest;
    assert forall|i: int| 0 <= i < line.len() implies #[trigger] line[i] != '\n' by {
        if i < key.len() {
            assert(is_word_char(key[i]));
        } else {
            assert(line[i] == rest[i - key.len()]);
        }
    }
    assert(line[0] == key[0]);
    if key.len() > 1 {
        assert(line[1] == key[1]);
    }
    lemma_not_a_fence(line);
}

proof fn lemma_part_lines(part: PlainPart, k: int)
    requires
        match part {
            PlainPart::Remark(line) => is_remark(line),
            PlainPart::Entry(key, value) => is_plain_key(key) && is_plain_value(value),
        },
        0 <= k < part_lines(part).len(),
    ensures
        stays_inside(part_lines(part)[k]),
{
    reveal_strlit(": ");
    reveal_strlit(":");
    reveal_strlit("  - ");
    reveal_strlit("  ");
    match part {
        PlainPart::Remark(line) => {
            lemma_not_a_fence(line);
        },
        PlainPart::Entry(key, PlainValue::Scalar(v)) => {
            lemma_one_line(v);
            let rest = ": "@ + scalar_written(v);
            lemma_no_break(": "@, scalar_written(v));
            lemma_key_line(key, rest);
            assert(key + ": "@ + scalar_written(v) =~= key + rest);
        },
        PlainPart::Entry(key, PlainValue::Items(list)) => {
            if k == 0 {
                lemma_key_line(key, ":"@);
            } else {
                let v = list[k - 1];
                lemma_one_line(v);
                lemma_no_break("  - "@, scalar_written(v));
                assert(part_lines(part)[k] == "  - "@ + scalar_written(v));
                lemma_not_a_fence("  - "@ + scalar_written(v));
            }
        },
        PlainPart::Entry(key, PlainValue::Pairs(list)) => {
            if k == 0 {
                lemma_key_line(key, ":"@);
            } else {
                let (inner, v) = list[k - 1];
                assert(is_plain_key(list[k - 1].0) && is_plain_scalar(list[k - 1].1));
                lemma_one_line(PlainScalar::Text(inner));
                lemma_one_line(v);
                lemma_no_break("  "@, inner);
                lemma_no_break("  "@ + inner, ": "@);
                lemma_no_break("  "@ + inner + ": "@, scalar_written(v));
                let line = "  "@ + inner + ": "@ + scalar_written(v);
                assert(part_lines(part)[k] == line);
                assert(line[0] == ' ');
                lemma_not_a_fence(line);
            }
        },
    }
}

proof fn lemma_no_break(a: Seq<char>, b: Seq<char>)
    requires
        !a.contains('\n'),
        !b.contains('\n'),
    ensures
        !(a + b).contains('\n'),
{
    assert forall|i: int| 0 <= i < (a + b).len() implies #[trigger] (a + b)[i] != '\n' by {
        if i < a.len() {
            assert(a.contains(a[i]));
        } else {
            assert(b.contains(b[i - a.len()]));
        }
    }
}

proof fn lemma_plain_lines(parts: Seq<PlainPart>)
    requires
        forall|k: int|
            0 <= k < parts.len() ==> match #[trigger] parts[k] {
                PlainPart::Remark(line) => is_remark(line),
                PlainPart::Entry(key, value) => is_plain_key(key) && is_plain_value(value),
            },
    ensures
        forall|k: int| 0 <= k < plain_lines(parts).len() ==> stays_inside(#[trigger] plain_lines(parts)[k]),
    decreases parts.len(),
{
    if parts.len() > 0 {
        let init = parts.drop_last();
        assert forall|k: int| 0 <= k < init.len() implies match #[trigger] init[k] {
            PlainPart::Remark(line) => is_remark(line),
            PlainPart::Entry(key, value) => is_plain_key(key) && is_plain_value(value),
        } by {
            assert(init[k] == parts[k]);
        }
        lemma_plain_lines(init);
        let last = parts[parts.len() - 1];
        let n = plain_lines(init).len();
        assert forall|k: int| 0 <= k < plain_lines(parts).len() implies stays_inside(
            #[trigger] plain_lines(parts)[k],
        ) by {
            if k < n {
                assert(plain_lines(parts)[k] == plain_lines(init)[k]);
            } else {
                lemma_part_lines(last, k - n);
            }
        }
    }
}

proof fn lemma_with_block(parts: Seq<PlainPart>, body: Seq<char>)
    requires
        is_plain(parts),
    ensures
        document_of(with_block(parts, body)) == assembled(
            yaml(join(plain_lines(parts), seq!['\n'])),
            plain_lines(parts).len() as int + 2,
            body,
        ),
        block_of(with_block(parts, body)) == join(plain_lines(parts), seq!['\n']),
        without_bom(with_block(parts, body)) == with_block(parts, body),
{
    let inner = plain_lines(parts);
    lemma_plain_lines(parts);
    assert forall|k: int| 0 <= k < inner.len() implies !(#[trigger] inner[k]).contains('\n')
        && !close_fence(inner[k]) by {
        assert(stays_inside(inner[k]));
    }
    lemma_write_read(inner, body);
    reveal_strlit("---");
    let top = seq!["---"@] + inner + seq!["---"@];
    assert(top =~= seq!["---"@] + (inner + seq!["---"@]));
    lemma_join_append(seq!["---"@], inner + seq!["---"@], seq!['\n']);
    assert(join(seq!["---"@], seq!['\n']) == "---"@);
    assert(with_block(parts, body)[0] == '-');
}

proof fn lemma_value_read(data: DataView, v: PlainValue)
    requires
        value_read(data, v),
    ensures
        value_of(data) == plain_value(v),
{
    match v {
        PlainValue::Items(list) => {
            let items = data->Sequence_0;
            let got = value_of(data)->Sequence_0;
            let want = plain_value(v)->Sequence_0;
            assert(got.len() == items.len());
            assert forall|i: int| 0 <= i < items.len() implies #[trigger] got[i] == want[i] by {
                assert(items[i].data == scalar_read(list[i]));
                assert(got[i] == value_of(items[i].data));
                assert(value_of(items[i].data) == ValueView::Scalar(scalar_meant(list[i])));
            }
            assert(got =~= want);
        },
        _ => {},
    }
}

proof fn lemma_entries_read(
    pairs: Seq<(NodeView, NodeView)>,
    entries: Seq<(Seq<char>, PlainValue)>,
)
    requires
        pairs.len() == entries.len(),
        forall|i: int|
            0 <= i < entries.len() ==> (#[trigger] pairs[i]).0.data == text_read(entries[i].0)
                && value_read(pairs[i].1.data, entries[i].1),
        forall|i: int, j: int|
            0 <= i < j < entries.len() ==> (#[trigger] entries[i]).0 != (#[trigger] entries[j]).0,
    ensures
        entries_of(pairs).len() == entries.len(),
        forall|i: int|
            0 <= i < entries.len() ==> (#[trigger] entries_of(pairs)[i]).key == entries[i].0
                && entries_of(pairs)[i].value == plain_value(entries[i].1),
    decreases pairs.len(),
{
    if pairs.len() > 0 {
        let init = pairs.drop_last();
        let first = entries.drop_last();
        assert forall|i: int| 0 <= i < first.len() implies (#[trigger] init[i]).0.data == text_read(
            first[i].0,
        ) && value_read(init[i].1.data, first[i].1) by {
            assert(init[i] == pairs[i]);
        }
        assert forall|i: int, j: int| 0 <= i < j < first.len() implies (#[trigger] first[i]).0 != (
        #[trigger] first[j]).0 by {
            assert(first[i] == entries[i] && first[j] == entries[j]);
        }
        lemma_entries_read(init, first);
        let before = entries_of(init);
        let (key, value) = entries.last();
        assert(pairs[pairs.len() - 1].0.data == text_read(key));
        lemma_value_read(pairs.last().1.data, value);
        lemma_key_index(before, key);
        let at = key_index(before, key);
        if at < before.len() {
            assert(before[at].key == first[at].0);
            assert(entries[at].0 != entries[entries.len() - 1].0);
        }
        assert forall|i: int| 0 <= i < entries.len() implies (#[trigger] entries_of(pairs)[i]).key
            == entries[i].0 && entries_of(pairs)[i].value == plain_value(entries[i].1) by {
            if i < before.len() {
                assert(entries_of(pairs)[i] == before[i]);
                assert(first[i] == entries[i]);
            }
        }
    }
}

proof fn lemma_read_as(parts: Seq<PlainPart>, body: Seq<char>)
    requires
        is_plain(parts),
        reads_plain(block_of(with_block(parts, body))),
    ensures
        read_as(document_of(with_block(parts, body)), parts, body),
{
    lemma_with_block(parts, body);
    let src = join(plain_lines(parts), seq!['\n']);
    assert(is_written(src, parts));
    let docs = yaml(src)->Ok_0;
    assert(read_back(docs, plain_entries(parts)));
    lemma_entries_read(docs[0].data->Mapping_0, plain_entries(parts));
}

/// The fields of plain front matter are found under their keys.
pub proof fn lemma_plain_field(d: DocumentView, parts: Seq<PlainPart>, body: Seq<char>, i: int)
    requires
        is_plain(parts),
        read_as(d, parts, body),
        0 <= i < plain_entries(parts).len(),
    ensures
        d.frontmatter.has(plain_entries(parts)[i].0),
        d.frontmatter.node(plain_entries(parts)[i].0) == Some(
            plain_value(plain_entries(parts)[i].1),
        ),
{
    let entries = plain_entries(parts);
    let got = d.frontmatter.entries;
    let at = key_index(got, entries[i].0);
    lemma_key_index(got, entries[i].0);
    assert(got[i].key == entries[i].0);
    if at < i {
        assert(got[at].key == entries[at].0);
    }
}

} // verus!
