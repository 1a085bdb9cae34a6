//! YAML documents as plain trees, each node with the line it starts on.

use saphyr::{LoadableYamlNode, MarkedYaml, Scalar as Leaf, YamlData};
use vstd::prelude::*;

use crate::number::{decimal_int, write_integer};
use crate::text::{join, one_line, same, split, to_chars};

verus! {

/// A resolved scalar.
#[derive(Debug)]
pub enum Scalar {
    Null,
    Boolean(bool),
    Integer(i64),
    /// A floating-point number, as the text it is displayed as.
    Float(String),
    Text(String),
}

/// What a node holds.
#[derive(Debug)]
pub enum Data {
    Scalar(Scalar),
    Sequence(Vec<Node>),
    Mapping(Vec<(Node, Node)>),
    /// An alias, a tagged node, or a scalar that its tag does not admit.
    Other,
}

/// A node and the 1-based line on which it starts.
#[derive(Debug)]
pub struct Node {
    pub line: usize,
    pub data: Data,
}

/// Why a text is not YAML.
#[derive(Debug)]
pub struct Fault {
    /// 1-based line in the text.
    pub line: usize,
    pub info: String,
}

pub enum ScalarView {
    Null,
    Boolean(bool),
    Integer(int),
    Float(Seq<char>),
    Text(Seq<char>),
}

pub enum DataView {
    Scalar(ScalarView),
    Sequence(Seq<NodeView>),
    Mapping(Seq<(NodeView, NodeView)>),
    Other,
}

pub struct NodeView {
    pub line: int,
    pub data: DataView,
}

pub struct FaultView {
    pub line: int,
    pub info: Seq<char>,
}

impl Scalar {
    pub open spec fn view(self) -> ScalarView {
        match self {
            Scalar::Null => ScalarView::Null,
            Scalar::Boolean(b) => ScalarView::Boolean(b),
            Scalar::Integer(n) => ScalarView::Integer(n as int),
            Scalar::Float(s) => ScalarView::Float(s@),
            Scalar::Text(s) => ScalarView::Text(s@),
        }
    }
}

impl Node {
    pub open spec fn view(self) -> NodeView
        decreases self,
    {
        NodeView {
            line: self.line as int,
            data: match self.data {
                Data::Scalar(s) => DataView::Scalar(s@),
                Data::Sequence(items) => DataView::Sequence(
                    Seq::new(
                        items@.len(),
                        |i: int|
                            if 0 <= i < items@.len() {
                                items@[i].view()
                            } else {
                                arbitrary()
                            },
                    ),
                ),
                Data::Mapping(pairs) => DataView::Mapping(
                    Seq::new(
                        pairs@.len(),
                        |i: int|
                            if 0 <= i < pairs@.len() {
                                (pairs@[i].0.view(), pairs@[i].1.view())
                            } else {
                                arbitrary()
                            },
                    ),
                ),
                Data::Other => DataView::Other,
            },
        }
    }
}

impl Fault {
    pub open spec fn view(self) -> FaultView {
        FaultView { line: self.line as int, info: self.info@ }
    }
}

/// The views of a list of nodes.
pub open spec fn node_views(v: Seq<Node>) -> Seq<NodeView> {
    Seq::new(v.len(), |i: int| v[i]@)
}

/// The views of the pairs of a mapping.
pub open spec fn pair_views(v: Seq<(Node, Node)>) -> Seq<(NodeView, NodeView)> {
    Seq::new(v.len(), |i: int| (v[i].0@, v[i].1@))
}

/// What [`load`] yields, viewed.
pub open spec fn loaded_view(r: Result<Vec<Node>, Fault>) -> Result<Seq<NodeView>, FaultView> {
    match r {
        Ok(docs) => Ok(node_views(docs@)),
        Err(e) => Err(e@),
    }
}

/// Whether the lines that matter for messages are at most `bound`: where a
/// fault lies, where a document starts, and where the keys of a document that
/// is a mapping start.
pub open spec fn lines_within(loaded: Result<Seq<NodeView>, FaultView>, bound: int) -> bool {
    match loaded {
        Ok(docs) => forall|i: int|
            0 <= i < docs.len() ==> {
                &&& 0 <= (#[trigger] docs[i]).line <= bound
                &&& docs[i].data matches DataView::Mapping(pairs) ==> forall|k: int|
                    0 <= k < pairs.len() ==> 0 <= (#[trigger] pairs[k]).0.line <= bound
            },
        Err(e) => 0 <= e.line <= bound,
    }
}

/// A scalar as text. `None` for what is not a scalar.
pub open spec fn scalar_text(data: DataView) -> Option<Seq<char>> {
    match data {
        DataView::Scalar(s) => Some(scalar_chars(s)),
        _ => None,
    }
}

pub open spec fn scalar_chars(s: ScalarView) -> Seq<char> {
    match s {
        ScalarView::Null => "null"@,
        ScalarView::Boolean(b) => if b {
            "true"@
        } else {
            "false"@
        },
        ScalarView::Integer(n) => decimal_int(n),
        ScalarView::Float(t) => t,
        ScalarView::Text(t) => t,
    }
}

#[verifier::external_type_specification]
#[verifier::external_body]
pub struct ExMarkedYaml<'a>(MarkedYaml<'a>);

/// The tree that a node of the YAML loader holds.
pub uninterp spec fn tree(node: MarkedYaml<'_>) -> NodeView;

/// What the YAML loader makes of a text: its documents, or the first fault.
pub uninterp spec fn yaml(src: Seq<char>) -> Result<Seq<NodeView>, FaultView>;

/// The trees of a list of loader nodes.
pub open spec fn trees(nodes: Seq<MarkedYaml<'_>>) -> Seq<NodeView> {
    Seq::new(nodes.len(), |i: int| tree(nodes[i]))
}

/// One level of a loader node.
enum Piece<'a> {
    Scalar(Scalar),
    Sequence(Vec<MarkedYaml<'a>>),
    Mapping(Vec<(MarkedYaml<'a>, MarkedYaml<'a>)>),
    Other,
}

/// The line that `MarkedYaml::span` starts on.
#[verifier::external_body]
fn node_line(node: &MarkedYaml<'_>) -> (r: usize)
    ensures
        r == tree(*node).line,
{
    node.span.start.line()
}

/// Takes `MarkedYaml::data` apart, one level: a scalar with its value, the
/// items of a sequence in order, the pairs of a mapping in document order.
#[verifier::external_body]
fn open_node<'a>(node: MarkedYaml<'a>) -> (r: Piece<'a>)
    ensures
        match r {
            Piece::Scalar(s) => tree(node).data == DataView::Scalar(s@),
            Piece::Sequence(items) => tree(node).data == DataView::Sequence(trees(items@)),
            Piece::Mapping(pairs) => tree(node).data == DataView::Mapping(
                Seq::new(pairs@.len(), |i: int| (tree(pairs@[i].0), tree(pairs@[i].1))),
            ),
            Piece::Other => tree(node).data == DataView::Other,
        },
{
    match node.data {
        YamlData::Value(v) => Piece::Scalar(match v {
            Leaf::Null => Scalar::Null,
            Leaf::Boolean(b) => Scalar::Boolean(b),
            Leaf::Integer(n) => Scalar::Integer(n),
            Leaf::FloatingPoint(x) => Scalar::Float(x.to_string()),
            Leaf::String(s) => Scalar::Text(s.into_owned()),
        }),
        YamlData::Representation(s, ..) => Piece::Scalar(Scalar::Text(s.into_owned())),
        YamlData::Sequence(items) => Piece::Sequence(items),
        YamlData::Mapping(pairs) => Piece::Mapping(pairs.into_iter().collect()),
        YamlData::Tagged(..) | YamlData::Alias(_) | YamlData::BadValue => Piece::Other,
    }
}

/// Whether a text holds nothing but empty lines and comments.
pub open spec fn only_comments(src: Seq<char>) -> bool {
    &&& forall|i: int| 0 <= i < src.len() ==> #[trigger] src[i] != '\r' && src[i] != '\0'
        && src[i] != '\u{feff}'
    &&& forall|k: int|
        0 <= k < split(src, '\n').len() ==> (#[trigger] split(src, '\n')[k]).len() == 0 || split(
            src,
            '\n',
        )[k][0] == '#'
}

/// Lines, each with its end.
pub open spec fn with_ends(lines: Seq<Seq<char>>) -> Seq<char>
    decreases lines.len(),
{
    if lines.len() == 0 {
        Seq::empty()
    } else {
        with_ends(lines.drop_last()) + lines.last() + "\n"@
    }
}

/// A scalar as it may be written on one line.
pub enum PlainScalar {
    Number(int),
    Flag(bool),
    /// A text without quotes.
    Text(Seq<char>),
    /// A text in double quotes.
    Quoted(Seq<char>),
}

/// What may stand behind a key of a plain document.
pub enum PlainValue {
    Scalar(PlainScalar),
    Items(Seq<PlainScalar>),
    Pairs(Seq<(Seq<char>, PlainScalar)>),
}

/// A part of a plain document: an empty line or a comment, or an entry of the
/// mapping that it is.
pub enum PlainPart {
    Remark(Seq<char>),
    Entry(Seq<char>, PlainValue),
}

/// A character between double quotes.
pub open spec fn escaped_char(c: char) -> Seq<char> {
    if c == '"' || c == '\\' {
        seq!['\\', c]
    } else if c == '\n' {
        seq!['\\', 'n']
    } else if c == '\r' {
        seq!['\\', 'r']
    } else if c == '\0' {
        seq!['\\', '0']
    } else {
        seq![c]
    }
}

/// A text between double quotes.
pub open spec fn escaped(t: Seq<char>) -> Seq<char>
    decreases t.len(),
{
    if t.len() == 0 {
        Seq::empty()
    } else {
        escaped(t.drop_last()) + escaped_char(t.last())
    }
}

/// A text in double quotes.
pub open spec fn in_quotes(t: Seq<char>) -> Seq<char> {
    seq!['"'] + escaped(t) + seq!['"']
}

pub open spec fn scalar_written(s: PlainScalar) -> Seq<char> {
    match s {
        PlainScalar::Number(n) => decimal_int(n),
        PlainScalar::Flag(b) => if b {
            "true"@
        } else {
            "false"@
        },
        PlainScalar::Text(t) => t,
        PlainScalar::Quoted(t) => in_quotes(t),
    }
}

/// What a scalar says, as text.
pub open spec fn scalar_meant(s: PlainScalar) -> Seq<char> {
    match s {
        PlainScalar::Quoted(t) => t,
        _ => scalar_written(s),
    }
}

/// A text as a scalar: without quotes where it is read as itself, and else in
/// quotes.
pub open spec fn text_scalar(t: Seq<char>) -> PlainScalar {
    if is_word(t) {
        PlainScalar::Text(t)
    } else {
        PlainScalar::Quoted(t)
    }
}

/// The lines of a part: a scalar on the line of its key, items and pairs on
/// lines of their own, indented by two.
pub open spec fn part_lines(part: PlainPart) -> Seq<Seq<char>> {
    match part {
        PlainPart::Remark(line) => seq![line],
        PlainPart::Entry(key, PlainValue::Scalar(v)) => seq![key + ": "@ + scalar_written(v)],
        PlainPart::Entry(key, PlainValue::Items(list)) => seq![key + ":"@] + Seq::new(
            list.len(),
            |i: int| "  - "@ + scalar_written(list[i]),
        ),
        PlainPart::Entry(key, PlainValue::Pairs(list)) => seq![key + ":"@] + Seq::new(
            list.len(),
            |i: int| "  "@ + list[i].0 + ": "@ + scalar_written(list[i].1),
        ),
    }
}

pub open spec fn plain_lines(parts: Seq<PlainPart>) -> Seq<Seq<char>>
    decreases parts.len(),
{
    if parts.len() == 0 {
        Seq::empty()
    } else {
        plain_lines(parts.drop_last()) + part_lines(parts.last())
    }
}

/// A plain document as text.
pub open spec fn plain_text(parts: Seq<PlainPart>) -> Seq<char> {
    with_ends(plain_lines(parts))
}

/// Whether a text is a plain document, with or without the end of its last
/// line.
pub open spec fn is_written(src: Seq<char>, parts: Seq<PlainPart>) -> bool {
    src == plain_text(parts) || src == join(plain_lines(parts), seq!['\n'])
}

/// The entries of a plain document.
pub open spec fn plain_entries(parts: Seq<PlainPart>) -> Seq<(Seq<char>, PlainValue)>
    decreases parts.len(),
{
    if parts.len() == 0 {
        Seq::empty()
    } else {
        let rest = plain_entries(parts.drop_last());
        match parts.last() {
            PlainPart::Remark(_) => rest,
            PlainPart::Entry(key, value) => rest.push((key, value)),
        }
    }
}

/// Whether a line says nothing: it is empty or a comment.
pub open spec fn is_remark(line: Seq<char>) -> bool {
    &&& line.len() == 0 || line[0] == '#'
    &&& forall|i: int|
        0 <= i < line.len() ==> #[trigger] line[i] != '\n' && line[i] != '\r' && line[i] != '\0'
            && line[i] != '\u{feff}'
}

/// Whether a character may stand in a text without quotes, wherever it is.
pub open spec fn is_word_char(c: char) -> bool {
    c != ':' && c != '#' && c != '\t' && c != '\n' && c != '\r' && c != '\0' && c != '\u{feff}'
}

/// Whether a text may start without quotes, as no indicator and no number does.
pub open spec fn starts_word(t: Seq<char>) -> bool {
    ('a' <= t[0] <= 'z') || ('A' <= t[0] <= 'Z') || t[0] == '_' || t[0] == '/' || (t[0] == '.'
        && t.len() > 1 && (('a' <= t[1] <= 'z') || ('A' <= t[1] <= 'Z')))
}

/// What is written without quotes but is no text.
pub open spec fn reserved() -> Seq<Seq<char>> {
    seq![
        "null"@,
        "Null"@,
        "NULL"@,
        "true"@,
        "True"@,
        "TRUE"@,
        "false"@,
        "False"@,
        "FALSE"@,
        ".inf"@,
        ".Inf"@,
        ".INF"@,
        ".nan"@,
        ".NaN"@,
        ".NAN"@,
    ]
}

/// Whether a text is read as itself when it is written without quotes.
pub open spec fn is_word(t: Seq<char>) -> bool {
    &&& t.len() > 0
    &&& starts_word(t)
    &&& t.last() != ' '
    &&& forall|i: int| 0 <= i < t.len() ==> #[trigger] is_word_char(t[i])
    &&& !reserved().contains(t)
}

pub open spec fn is_plain_scalar(s: PlainScalar) -> bool {
    match s {
        PlainScalar::Number(n) => 0 <= n <= i64::MAX,
        PlainScalar::Flag(_) => true,
        PlainScalar::Text(t) => is_word(t),
        PlainScalar::Quoted(_) => true,
    }
}

/// Whether a text may be a key: the loader gives up on longer ones.
pub open spec fn is_plain_key(key: Seq<char>) -> bool {
    is_word(key) && key.len() <= 1000
}

pub open spec fn is_plain_value(value: PlainValue) -> bool {
    match value {
        PlainValue::Scalar(s) => is_plain_scalar(s),
        PlainValue::Items(list) => list.len() > 0 && forall|i: int|
            0 <= i < list.len() ==> is_plain_scalar(#[trigger] list[i]),
        PlainValue::Pairs(list) => {
            &&& list.len() > 0
            &&& forall|i: int|
                0 <= i < list.len() ==> is_plain_key((#[trigger] list[i]).0) && is_plain_scalar(
                    list[i].1,
                )
            &&& forall|i: int, j: int|
                0 <= i < j < list.len() ==> (#[trigger] list[i]).0 != (#[trigger] list[j]).0
        },
    }
}

/// Whether parts make a plain document: a mapping, written as a block, with
/// every scalar on one line and no key twice.
pub open spec fn is_plain(parts: Seq<PlainPart>) -> bool {
    let entries = plain_entries(parts);
    &&& entries.len() > 0
    &&& forall|k: int|
        0 <= k < parts.len() ==> match #[trigger] parts[k] {
            PlainPart::Remark(line) => is_remark(line),
            PlainPart::Entry(key, value) => is_plain_key(key) && is_plain_value(value),
        }
    &&& forall|i: int, j: int|
        0 <= i < j < entries.len() ==> (#[trigger] entries[i]).0 != (#[trigger] entries[j]).0
}

/// What a plain scalar is read as.
pub open spec fn scalar_read(s: PlainScalar) -> DataView {
    DataView::Scalar(
        match s {
            PlainScalar::Number(n) => ScalarView::Integer(n),
            PlainScalar::Flag(b) => ScalarView::Boolean(b),
            PlainScalar::Text(t) => ScalarView::Text(t),
            PlainScalar::Quoted(t) => ScalarView::Text(t),
        },
    )
}

/// What a text is read as.
pub open spec fn text_read(t: Seq<char>) -> DataView {
    DataView::Scalar(ScalarView::Text(t))
}

/// Whether a node is what a plain value is read as.
pub open spec fn value_read(data: DataView, value: PlainValue) -> bool {
    match value {
        PlainValue::Scalar(s) => data == scalar_read(s),
        PlainValue::Items(list) => {
            &&& data matches DataView::Sequence(nodes)
            &&& nodes.len() == list.len()
            &&& forall|i: int|
                0 <= i < list.len() ==> (#[trigger] nodes[i]).data == scalar_read(list[i])
        },
        PlainValue::Pairs(list) => {
            &&& data matches DataView::Mapping(pairs)
            &&& pairs.len() == list.len()
            &&& forall|i: int|
                0 <= i < list.len() ==> (#[trigger] pairs[i]).0.data == text_read(list[i].0)
                    && pairs[i].1.data == scalar_read(list[i].1)
        },
    }
}

/// Whether documents are what entries are read as: one mapping with the same
/// entries in the same order.
pub open spec fn read_back(docs: Seq<NodeView>, entries: Seq<(Seq<char>, PlainValue)>) -> bool {
    &&& docs.len() == 1
    &&& docs[0].data matches DataView::Mapping(pairs)
    &&& pairs.len() == entries.len()
    &&& forall|i: int|
        0 <= i < entries.len() ==> (#[trigger] pairs[i]).0.data == text_read(entries[i].0)
            && value_read(pairs[i].1.data, entries[i].1)
}

/// Whether a text, where it is a plain document, is read back as it was
/// written.
pub open spec fn reads_plain(src: Seq<char>) -> bool {
    forall|parts: Seq<PlainPart>|
        is_plain(parts) && #[trigger] is_written(src, parts) ==> (yaml(src) is Ok && read_back(
            yaml(src)->Ok_0,
            plain_entries(parts),
        ))
}

/// Whether a carriage return is always the last character of its line.
pub open spec fn cr_ends_lines(src: Seq<char>) -> bool {
    forall|k: int, i: int|
        0 <= k < split(src, '\n').len() && 0 <= i < split(src, '\n')[k].len() - 1
            ==> #[trigger] split(src, '\n')[k][i] != '\r'
}

/// Whether a line says nothing from a position on: blanks, and then at most a
/// comment.
pub open spec fn is_idle(line: Seq<char>, from: int) -> bool {
    exists|n: int| #![trigger line.take(n)]
        from <= n <= line.len() && (n == line.len() || line[n] == '#') && forall|i: int|
            from <= i < n ==> line[i] == ' ' || line[i] == '\t' || line[i] == '\r'
}

/// Whether a `?` on a line announces a key: only blanks and other indicators
/// stand before it.
pub open spec fn announces_key(line: Seq<char>, at: int) -> bool {
    &&& 0 <= at < line.len()
    &&& line[at] == '?'
    &&& forall|i: int|
        0 <= i < at ==> line[i] == ' ' || line[i] == '\t' || line[i] == '-' || line[i] == '?'
            || line[i] == ':' || line[i] == '\u{feff}'
}

/// Whether the key that a `?` announces is missing up to the end of the text.
pub open spec fn leaves_key_out(lines: Seq<Seq<char>>, k: int, at: int) -> bool {
    &&& 0 <= k < lines.len()
    &&& announces_key(lines[k], at)
    &&& is_idle(lines[k], at + 1)
    &&& forall|n: int| k < n < lines.len() ==> is_idle(#[trigger] lines[n], 0)
}

/// Whether a text ends with a `?` that announces a key and nothing that could
/// be one, not even an empty line.
pub open spec fn misses_key(src: Seq<char>) -> bool {
    let lines = split(src, '\n');
    lines.last().len() > 0 && exists|k: int, at: int| #[trigger] leaves_key_out(lines, k, at)
}

/// Whether the line of a key is known to be one of the text: that of every
/// scalar but null, and that of null where the text does not end before a key
/// that it announces.
pub open spec fn is_placed_key(src: Seq<char>, key: DataView) -> bool {
    key matches DataView::Scalar(s) && (s != ScalarView::Null || !misses_key(src))
}

/// Whether the keys of the documents that are mappings are on lines of the
/// text, which count from one.
pub open spec fn keys_inside(src: Seq<char>, loaded: Result<Seq<NodeView>, FaultView>) -> bool {
    cr_ends_lines(src) && loaded is Ok ==> forall|i: int, k: int|
        0 <= i < loaded->Ok_0.len() && loaded->Ok_0[i].data is Mapping && 0 <= k
            < loaded->Ok_0[i].data->Mapping_0.len() && is_placed_key(
            src,
            (#[trigger] loaded->Ok_0[i].data->Mapping_0[k]).0.data,
        ) ==> 1 <= loaded->Ok_0[i].data->Mapping_0[k].0.line <= split(src, '\n').len()
}

/// `MarkedYaml::load_from_str`: the documents of a text in order, or the line
/// and the description of the first fault, which is one line. Lines count from
/// one and grow by at most one with every character read; a key that is
/// written out is on a line of the text. Empty lines and comments alone make
/// no document. A plain document is read back as it was written, a text in
/// double quotes with its escapes resolved. What becomes of any other text is
/// left to the name.
#[verifier::external_body]
fn load_nodes<'a>(src: &str) -> (r: Result<Vec<MarkedYaml<'a>>, Fault>)
    ensures
        yaml(src@) == (match r {
            Ok(docs) => Ok(trees(docs@)),
            Err(e) => Err(e@),
        }),
        lines_within(
            match r {
                Ok(docs) => Ok(trees(docs@)),
                Err(e) => Err(e@),
            },
            src@.len() as int + 1,
        ),
        keys_inside(
            src@,
            match r {
                Ok(docs) => Ok(trees(docs@)),
                Err(e) => Err(e@),
            },
        ),
        r matches Err(e) ==> one_line(e.info@),
        only_comments(src@) ==> (r is Ok && r->Ok_0@.len() == 0),
        forall|parts: Seq<PlainPart>|
            is_plain(parts) && #[trigger] is_written(src@, parts) ==> (r is Ok && read_back(
                trees(r->Ok_0@),
                plain_entries(parts),
            )),
{
    MarkedYaml::load_from_str(src).map_err(
        |e| Fault { line: e.marker().line(), info: e.info().to_string() },
    )
}

fn rebuild<'a>(node: MarkedYaml<'a>) -> (r: Node)
    ensures
        r@ == tree(node),
    decreases tree(node),
{
    let ghost whole = tree(node);
    let line = node_line(&node);
    let data = match open_node(node) {
        Piece::Scalar(s) => Data::Scalar(s),
        Piece::Sequence(items) => {
            let ghost all = items@;
            let mut out: Vec<Node> = Vec::new();
            for item in it: items
                invariant
                    it.seq() == all,
                    whole == tree(node),
                    whole.data == DataView::Sequence(trees(all)),
                    out@.len() == it.index(),
                    forall|i: int| 0 <= i < out@.len() ==> (#[trigger] out@[i])@ == tree(all[i]),
            {
                proof {
                    assert(trees(all)[it.index()] == tree(item));
                    assert(decreases_to!(whole => whole.data));
                    assert(decreases_to!(whole.data => whole.data->Sequence_0));
                    assert(decreases_to!(whole => whole.data->Sequence_0[it.index()]));
                }
                out.push(rebuild(item));
            }
            proof {
                let node = Node { line, data: Data::Sequence(out) };
                assert(node@.data->Sequence_0 =~= trees(all));
            }
            Data::Sequence(out)
        },
        Piece::Mapping(pairs) => {
            let ghost all = pairs@;
            let ghost views = Seq::new(all.len(), |i: int| (tree(all[i].0), tree(all[i].1)));
            let mut out: Vec<(Node, Node)> = Vec::new();
            for pair in it: pairs
                invariant
                    it.seq() == all,
                    whole == tree(node),
                    views == Seq::new(all.len(), |i: int| (tree(all[i].0), tree(all[i].1))),
                    whole.data == DataView::Mapping(views),
                    out@.len() == it.index(),
                    forall|i: int|
                        0 <= i < out@.len() ==> ((#[trigger] out@[i]).0@, out@[i].1@) == views[i],
            {
                let (key, value) = pair;
                proof {
                    assert(views[it.index()] == (tree(key), tree(value)));
                    assert(decreases_to!(whole => whole.data));
                    assert(decreases_to!(whole.data => whole.data->Mapping_0));
                    assert(decreases_to!(whole.data->Mapping_0 => whole.data->Mapping_0[it.index()]));
                    assert(decreases_to!(views[it.index()] => views[it.index()].0));
                    assert(decreases_to!(views[it.index()] => views[it.index()].1));
                }
                let k = rebuild(key);
                let v = rebuild(value);
                out.push((k, v));
            }
            proof {
                let node = Node { line, data: Data::Mapping(out) };
                assert(node@.data->Mapping_0 =~= views);
            }
            Data::Mapping(out)
        },
        Piece::Other => Data::Other,
    };
    Node { line, data }
}

/// Loads the documents of a YAML text.
pub fn load(src: &str) -> (r: Result<Vec<Node>, Fault>)
    ensures
        loaded_view(r) == yaml(src@),
        lines_within(yaml(src@), src@.len() as int + 1),
        keys_inside(src@, yaml(src@)),
        yaml(src@) matches Err(e) ==> one_line(e.info),
        only_comments(src@) ==> (r is Ok && r->Ok_0@.len() == 0),
        reads_plain(src@),
{
    match load_nodes(src) {
        Ok(nodes) => {
            let ghost all = nodes@;
            let mut docs: Vec<Node> = Vec::new();
            for node in it: nodes
                invariant
                    it.seq() == all,
                    docs@.len() == it.index(),
                    forall|i: int| 0 <= i < docs@.len() ==> (#[trigger] docs@[i])@ == tree(all[i]),
            {
                docs.push(rebuild(node));
            }
            assert(node_views(docs@) =~= trees(all));
            Ok(docs)
        },
        Err(e) => Err(e),
    }
}

fn is_letter(c: char) -> (r: bool)
    ensures
        r == (('a' <= c <= 'z') || ('A' <= c <= 'Z')),
{
    ('a' <= c && c <= 'z') || ('A' <= c && c <= 'Z')
}

fn is_reserved(t: &str) -> (r: bool)
    ensures
        r == reserved().contains(t@),
{
    let list = [
        "null", "Null", "NULL", "true", "True", "TRUE", "false", "False", "FALSE", ".inf", ".Inf",
        ".INF", ".nan", ".NaN", ".NAN",
    ];
    let ghost all = reserved();
    assert(all.len() == 15);
    let mut i: usize = 0;
    while i < 15
        invariant
            i <= 15,
            all == reserved(),
            all.len() == 15,
            forall|k: int| 0 <= k < 15 ==> (#[trigger] list@[k])@ == all[k],
            forall|k: int| 0 <= k < i ==> #[trigger] all[k] != t@,
        decreases 15 - i,
    {
        if same(list[i], t) {
            assert(all[i as int] == t@);
            return true;
        }
        i += 1;
    }
    false
}

fn reads_bare(t: &str) -> (r: bool)
    ensures
        r == is_word(t@),
{
    let chars = to_chars(t);
    let n: usize = chars.len();
    if n == 0 {
        return false;
    }
    let first = chars[0];
    if !(is_letter(first) || first == '_' || first == '/' || (first == '.' && n > 1 && is_letter(
        chars[1],
    ))) {
        return false;
    }
    if chars[n - 1] == ' ' {
        return false;
    }
    let mut i: usize = 0;
    while i < n
        invariant
            i <= n == chars@.len(),
            chars@ == t@,
            forall|k: int| 0 <= k < i ==> #[trigger] is_word_char(t@[k]),
        decreases n - i,
    {
        let c = chars[i];
        if c == ':' || c == '#' || c == '\t' || c == '\n' || c == '\r' || c == '\0' || c
            == '\u{feff}' {
            assert(!is_word_char(t@[i as int]));
            return false;
        }
        i += 1;
    }
    !is_reserved(t)
}

fn quote(t: &str) -> (r: String)
    ensures
        r@ == in_quotes(t@),
{
    let chars = to_chars(t);
    let mut out = String::new();
    out.push('"');
    assert(out@ =~= seq!['"']);
    let mut i: usize = 0;
    assert(t@.take(0) =~= Seq::empty());
    assert(out@ =~= seq!['"'] + escaped(t@.take(0)));
    while i < chars.len()
        invariant
            i <= chars@.len(),
            chars@ == t@,
            out@ == seq!['"'] + escaped(t@.take(i as int)),
        decreases chars@.len() - i,
    {
        let c = chars[i];
        let ghost before = out@;
        if c == '"' || c == '\\' {
            out.push('\\');
            out.push(c);
        } else if c == '\n' {
            out.push('\\');
            out.push('n');
        } else if c == '\r' {
            out.push('\\');
            out.push('r');
        } else if c == '\0' {
            out.push('\\');
            out.push('0');
        } else {
            out.push(c);
        }
        proof {
            let next = t@.take(i + 1);
            assert(next.drop_last() =~= t@.take(i as int));
            assert(next.last() == c);
            assert(out@ =~= before + escaped_char(c));
            assert(out@ =~= seq!['"'] + escaped(next));
        }
        i += 1;
    }
    assert(t@.take(i as int) =~= t@);
    out.push('"');
    assert(out@ =~= in_quotes(t@));
    out
}

/// A text as it is written on one line: as it is where it is read as itself,
/// and else in double quotes.
pub fn write_text(t: &str) -> (r: String)
    ensures
        r@ == scalar_written(text_scalar(t@)),
{
    if reads_bare(t) {
        t.to_owned()
    } else {
        quote(t)
    }
}

/// A text in quotes stays on its line.
pub proof fn lemma_escaped_line(t: Seq<char>)
    ensures
        !escaped(t).contains('\n'),
        !in_quotes(t).contains('\n'),
    decreases t.len(),
{
    if t.len() > 0 {
        lemma_escaped_line(t.drop_last());
        let before = escaped(t.drop_last());
        assert forall|i: int| 0 <= i < escaped(t).len() implies #[trigger] escaped(t)[i] != '\n' by {
            if i < before.len() {
                assert(before.contains(before[i]));
            } else {
                assert(escaped(t)[i] == escaped_char(t.last())[i - before.len()]);
            }
        }
    }
    assert forall|i: int| 0 <= i < in_quotes(t).len() implies #[trigger] in_quotes(t)[i] != '\n' by {
        if 0 < i < in_quotes(t).len() - 1 {
            assert(in_quotes(t)[i] == escaped(t)[i - 1]);
            assert(escaped(t).contains(escaped(t)[i - 1]));
        }
    }
}

fn stringify_scalar(scalar: &Scalar) -> (r: String)
    ensures
        r@ == scalar_chars(scalar@),
{
    match scalar {
        Scalar::Null => "null".to_string(),
        Scalar::Boolean(b) => if *b {
            "true".to_string()
        } else {
            "false".to_string()
        },
        Scalar::Integer(n) => write_integer(*n),
        Scalar::Float(s) => s.clone(),
        Scalar::Text(s) => s.clone(),
    }
}

/// Renders a scalar node as a string. `None` for what is not a scalar.
pub fn scalar_string(data: &Data) -> (r: Option<String>)
    ensures
        r is Some <==> data is Scalar,
        r matches Some(s) ==> data matches Data::Scalar(d) && s@ == scalar_chars(d@),
{
    match data {
        Data::Scalar(s) => Some(stringify_scalar(s)),
        _ => None,
    }
}

} // verus!
